//! Session operations: thin orchestration of the record store, the access
//! control check and the ranking engine, one function per operation of the
//! service. Each returns either its result or the error class the
//! transport layer reports (bad request, unauthorized, not found, internal).

use vstd::prelude::*;

use rand::Rng;

use crate::ids::{ulid_decoded, Id};
use crate::rank::{rank, rank_post};
use crate::store::{
    event_at, has_event, has_question, listed, new_question, opt_view, question_at, store_toggle,
    upsert_event, upsert_question, vote_applied, BatchGetResult, EventV, ListEntry, QuestionInfo,
    QuestionV, Store, StoreError, ToggleRequest, EVENT_TTL_SECONDS, QUESTION_TTL_SECONDS,
};
use crate::text::{question_text_ok, valid_question_text};
use crate::UpDown;

verus! {

/// The error classes of the service, as the transport layer reports them.
#[derive(Debug, Clone, Copy, PartialEq, Eq, Structural)]
pub enum ApiError {
    /// The caller's input fails validation.
    BadRequest,
    /// The event exists but the presented secret does not match.
    Unauthorized,
    /// The addressed event does not exist.
    NotFound,
    /// Stored data is missing or malformed for this request.
    Internal,
}

/// Which flag of a question a toggle addresses.
#[derive(Debug, Clone, Copy, PartialEq, Eq, Structural)]
pub enum Property {
    Hidden,
    Answered,
}

/// A character an event secret is drawn from: a digit or an ASCII letter.
pub open spec fn is_secret_char(c: char) -> bool {
    (48 <= c as u32 && c as u32 <= 57) || (65 <= c as u32 && c as u32 <= 90) || (97 <= c as u32
        && c as u32 <= 122)
}

/// Relies on rand's `Alphanumeric` distribution: every sample is a digit
/// or an ASCII letter, and taking 30 of them yields a 30-character string.
/// Nothing else is promised of a random value.
#[verifier::external_body]
fn generate_secret() -> (r: String)
    ensures
        r@.len() == 30,
        forall|i: int| 0 <= i < r@.len() ==> is_secret_char(#[trigger] r@[i]),
{
    rand::rng().sample_iter(&rand::distr::Alphanumeric).take(30).map(char::from).collect()
}

/// Whether two strings hold the same characters.
fn str_eq(a: &str, b: &str) -> (r: bool)
    ensures
        r == (a@ == b@),
{
    let na = a.unicode_len();
    let nb = b.unicode_len();
    if na != nb {
        return false;
    }
    let mut i: usize = 0;
    while i < na
        invariant
            i <= na,
            na == a@.len(),
            na == b@.len(),
            forall|q: int| 0 <= q < i ==> a@[q] == b@[q],
        decreases na - i,
    {
        if a.get_char(i) != b.get_char(i) {
            return false;
        }
        i += 1;
    }
    proof {
        assert(a@ =~= b@);
    }
    true
}

/// Open an event: a fresh identifier and a fresh 30-character secret,
/// stored, and both handed back to the caller.
pub fn new(store: &mut Store, now: u64) -> (r: (Id, String))
    requires
        old(store)@.wf(),
        now + EVENT_TTL_SECONDS <= u64::MAX,
    ensures
        final(store)@.wf(),
        final(store)@.events == upsert_event(
            old(store)@.events,
            EventV {
                id: r.0.bits,
                secret: r.1@,
                when: now,
                expire: (now + EVENT_TTL_SECONDS) as u64,
            },
        ),
        final(store)@.questions == old(store)@.questions,
        r.1@.len() == 30,
{
    let eid = Id::generate();
    let secret = generate_secret();
    let secret_out = secret.clone();
    store.create_event(eid, secret, now);
    (eid, secret_out)
}

/// Submit a question: the text must hold at least two words once trimmed,
/// and the event must exist; the stored question starts with one vote,
/// not hidden and not answered.
pub fn ask(store: &mut Store, eid: Id, body: String, asker: Option<String>, now: u64) -> (r:
    Result<Id, ApiError>)
    requires
        old(store)@.wf(),
        now + QUESTION_TTL_SECONDS <= u64::MAX,
    ensures
        final(store)@.wf(),
        final(store)@.events == old(store)@.events,
        !valid_question_text(body@) ==> r == Err::<Id, ApiError>(ApiError::BadRequest) && final(store)@ == old(store)@,
        valid_question_text(body@) && !has_event(old(store)@.events, eid.bits) ==> r == Err::<
            Id,
            ApiError,
        >(ApiError::NotFound) && final(store)@ == old(store)@,
        valid_question_text(body@) && has_event(old(store)@.events, eid.bits) ==> (r matches Ok(
            qid,
        ) && final(store)@.questions == upsert_question(
            old(store)@.questions,
            new_question(eid.bits, qid.bits, body@, opt_view(asker), now),
        )),
{
    if !question_text_ok(body.as_str()) {
        return Err(ApiError::BadRequest);
    }
    let qid = Id::generate();
    match store.create_question(eid, qid, body, asker, now) {
        Ok(()) => Ok(qid),
        Err(StoreError::NotFound) => Err(ApiError::NotFound),
    }
}

/// Vote a question up or down and report the new count. Voting on an
/// unknown question surfaces as an internal error, as malformed stored
/// data would.
pub fn vote(store: &mut Store, qid: Id, direction: UpDown) -> (r: Result<u64, ApiError>)
    requires
        old(store)@.wf(),
    ensures
        final(store)@.wf(),
        final(store)@.events == old(store)@.events,
        ({
            let qs = old(store)@.questions;
            if has_question(qs, qid.bits) {
                let qi = crate::store::question_index(qs, qid.bits);
                let n = vote_applied(qs[qi].votes, direction);
                r == Ok::<u64, ApiError>(n) && final(store)@.questions == qs.update(
                    qi,
                    QuestionV { votes: n, ..qs[qi] },
                )
            } else {
                r == Err::<u64, ApiError>(ApiError::Internal) && final(store)@ == old(store)@
            }
        }),
{
    match store.vote(qid, direction) {
        Ok(n) => Ok(n),
        Err(StoreError::NotFound) => Err(ApiError::Internal),
    }
}

/// Whether the presented secret is the event's secret.
pub open spec fn secret_matches(events: Seq<EventV>, eid: u128, secret: Seq<char>) -> bool {
    has_event(events, eid) && event_at(events, eid).secret == secret
}

/// The event's secret, for a caller that created it or holds it.
pub fn get_secret(store: &Store, eid: Id) -> (r: Result<String, ApiError>)
    requires
        store@.wf(),
    ensures
        has_event(store@.events, eid.bits) ==> (r matches Ok(s) && s@ == event_at(
            store@.events,
            eid.bits,
        ).secret),
        !has_event(store@.events, eid.bits) ==> r == Err::<String, ApiError>(ApiError::NotFound),
{
    match store.get_secret(eid) {
        Ok(s) => Ok(s),
        Err(StoreError::NotFound) => Err(ApiError::NotFound),
    }
}

/// Gate for mutating and admin operations: the event must exist and the
/// presented secret must match; an unknown event and a wrong secret are
/// told apart.
pub fn check_secret(store: &Store, eid: Id, secret: &str) -> (r: Result<(), ApiError>)
    requires
        store@.wf(),
    ensures
        secret_matches(store@.events, eid.bits, secret@) ==> r == Ok::<(), ApiError>(()),
        has_event(store@.events, eid.bits) && !secret_matches(store@.events, eid.bits, secret@)
            ==> r == Err::<(), ApiError>(ApiError::Unauthorized),
        !has_event(store@.events, eid.bits) ==> r == Err::<(), ApiError>(ApiError::NotFound),
{
    match store.get_secret(eid) {
        Ok(s) => {
            if str_eq(s.as_str(), secret) {
                Ok(())
            } else {
                Err(ApiError::Unauthorized)
            }
        },
        Err(StoreError::NotFound) => Err(ApiError::NotFound),
    }
}

/// The toggle a request body asks for: `"on"` sets the hidden flag or
/// stamps the answer time; `"off"` clears them.
pub open spec fn toggle_request_of(property: Property, body: Seq<char>, now: u64)
    -> ToggleRequest {
    match property {
        Property::Hidden => ToggleRequest::Hidden(body == "on"@),
        Property::Answered => ToggleRequest::Answered(
            if body == "on"@ {
                Some(now)
            } else {
                None
            },
        ),
    }
}

/// Toggle one flag of a question, on behalf of the host: requires the
/// event's secret, and a body of exactly `"on"` or `"off"`. Echoes the
/// applied request. A toggle on an unknown question surfaces as an
/// internal error.
pub fn toggle(
    store: &mut Store,
    eid: Id,
    secret: &str,
    qid: Id,
    property: Property,
    body: &str,
    now: u64,
) -> (r: Result<ToggleRequest, ApiError>)
    requires
        old(store)@.wf(),
    ensures
        final(store)@.wf(),
        !has_event(old(store)@.events, eid.bits) ==> r == Err::<ToggleRequest, ApiError>(
            ApiError::NotFound,
        ) && final(store)@ == old(store)@,
        has_event(old(store)@.events, eid.bits) && !secret_matches(
            old(store)@.events,
            eid.bits,
            secret@,
        ) ==> r == Err::<ToggleRequest, ApiError>(ApiError::Unauthorized) && final(store)@ == old(store)@,
        secret_matches(old(store)@.events, eid.bits, secret@) && body@ != "on"@ && body@ != "off"@
            ==> r == Err::<ToggleRequest, ApiError>(ApiError::BadRequest) && final(store)@ == old(store)@,
        secret_matches(old(store)@.events, eid.bits, secret@) && (body@ == "on"@ || body@
            == "off"@) && !has_question(old(store)@.questions, qid.bits) ==> r == Err::<
            ToggleRequest,
            ApiError,
        >(ApiError::Internal) && final(store)@ == old(store)@,
        secret_matches(old(store)@.events, eid.bits, secret@) && (body@ == "on"@ || body@
            == "off"@) && has_question(old(store)@.questions, qid.bits) ==> r == Ok::<
            ToggleRequest,
            ApiError,
        >(toggle_request_of(property, body@, now)) && final(store)@ == store_toggle(
            old(store)@,
            qid.bits,
            toggle_request_of(property, body@, now),
        ),
{
    match check_secret(store, eid, secret) {
        Ok(()) => {},
        Err(e) => {
            return Err(e);
        },
    }
    let on = str_eq(body, "on");
    let off = str_eq(body, "off");
    if !on && !off {
        return Err(ApiError::BadRequest);
    }
    let req = match property {
        Property::Hidden => ToggleRequest::Hidden(on),
        Property::Answered => ToggleRequest::Answered(
            if on {
                Some(now)
            } else {
                None
            },
        ),
    };
    match store.toggle(qid, req) {
        Ok(()) => Ok(req),
        Err(StoreError::NotFound) => Err(ApiError::Internal),
    }
}

/// The guest view of an event's questions: the event must exist, hidden
/// questions are dropped, and the rest are ranked.
pub fn list(store: &Store, eid: Id, now_ms: u64) -> (r: Result<Vec<ListEntry>, ApiError>)
    requires
        store@.wf(),
    ensures
        !has_event(store@.events, eid.bits) ==> r == Err::<Vec<ListEntry>, ApiError>(
            ApiError::NotFound,
        ),
        has_event(store@.events, eid.bits) ==> (r matches Ok(v) && rank_post(
            listed(store@.questions, eid.bits, false),
            v@,
            false,
            now_ms,
        )),
{
    match store.list_questions(eid, false) {
        Ok(entries) => Ok(rank(&entries, false, now_ms)),
        Err(StoreError::NotFound) => Err(ApiError::NotFound),
    }
}

/// The host view of an event's questions: requires the event's secret;
/// hidden questions are included, and everything is ranked.
pub fn list_all(store: &Store, eid: Id, secret: &str, now_ms: u64) -> (r: Result<
    Vec<ListEntry>,
    ApiError,
>)
    requires
        store@.wf(),
    ensures
        !has_event(store@.events, eid.bits) ==> r == Err::<Vec<ListEntry>, ApiError>(
            ApiError::NotFound,
        ),
        has_event(store@.events, eid.bits) && !secret_matches(
            store@.events,
            eid.bits,
            secret@,
        ) ==> r == Err::<Vec<ListEntry>, ApiError>(ApiError::Unauthorized),
        secret_matches(store@.events, eid.bits, secret@) ==> (r matches Ok(v) && rank_post(
            listed(store@.questions, eid.bits, true),
            v@,
            true,
            now_ms,
        )),
{
    match check_secret(store, eid, secret) {
        Ok(()) => {},
        Err(e) => {
            return Err(e);
        },
    }
    match store.list_questions(eid, true) {
        Ok(entries) => Ok(rank(&entries, true, now_ms)),
        Err(StoreError::NotFound) => Err(ApiError::NotFound),
    }
}

/// Whether an event exists: lets long-lived clients stop polling for
/// sessions that never existed or are gone.
pub fn event(store: &Store, eid: Id) -> (r: Result<(), ApiError>)
    requires
        store@.wf(),
    ensures
        has_event(store@.events, eid.bits) ==> r == Ok::<(), ApiError>(()),
        !has_event(store@.events, eid.bits) ==> r == Err::<(), ApiError>(ApiError::NotFound),
{
    match store.get_secret(eid) {
        Ok(_) => Ok(()),
        Err(StoreError::NotFound) => Err(ApiError::NotFound),
    }
}

/// A comma-separated string, cut at every comma: `"a,b"` gives the two
/// pieces `"a"` and `"b"`, and an empty string gives one empty piece.
pub open spec fn split_commas(s: Seq<char>) -> Seq<Seq<char>>
    decreases s.len(),
{
    if s.len() == 0 {
        seq![Seq::<char>::empty()]
    } else if s[0] == ',' {
        seq![Seq::<char>::empty()] + split_commas(s.drop_first())
    } else {
        let rest = split_commas(s.drop_first());
        seq![seq![s[0]] + rest[0]] + rest.drop_first()
    }
}

/// Splitting yields at least one piece.
proof fn lemma_split_commas_len(s: Seq<char>)
    ensures
        split_commas(s).len() >= 1,
    decreases s.len(),
{
    if s.len() > 0 {
        lemma_split_commas_len(s.drop_first());
    }
}

/// A string without commas is one piece.
proof fn lemma_split_no_comma(s: Seq<char>)
    requires
        forall|q: int| 0 <= q < s.len() ==> s[q] != ',',
    ensures
        split_commas(s) == seq![s],
    decreases s.len(),
{
    if s.len() > 0 {
        assert(s[0] != ',');
        let d = s.drop_first();
        assert(forall|q: int| 0 <= q < d.len() ==> d[q] == s[q + 1]);
        lemma_split_no_comma(d);
        let rest = split_commas(d);
        assert(rest == seq![d]);
        assert(split_commas(s) == seq![seq![s[0]] + rest[0]] + rest.drop_first());
        assert(seq![s[0]] + d =~= s);
        assert(seq![d].drop_first() =~= Seq::<Seq<char>>::empty());
        assert(split_commas(s) =~= seq![s]);
    } else {
        assert(s =~= Seq::<char>::empty());
    }
}

/// Splitting at the first comma: the piece before it, then the split of
/// what follows it.
proof fn lemma_split_first_comma(s: Seq<char>, c: int)
    requires
        0 <= c < s.len(),
        s[c] == ',',
        forall|q: int| 0 <= q < c ==> s[q] != ',',
    ensures
        split_commas(s) == seq![s.take(c)] + split_commas(s.skip(c + 1)),
    decreases c,
{
    if c == 0 {
        assert(s.drop_first() =~= s.skip(1));
        assert(s.take(0) =~= Seq::<char>::empty());
    } else {
        assert(s[0] != ',');
        let d = s.drop_first();
        assert(forall|q: int| 0 <= q < d.len() ==> d[q] == s[q + 1]);
        lemma_split_first_comma(d, c - 1);
        let rest = split_commas(d);
        assert(rest == seq![d.take(c - 1)] + split_commas(d.skip(c)));
        lemma_split_commas_len(d.skip(c));
        assert(rest[0] == d.take(c - 1));
        assert(seq![s[0]] + d.take(c - 1) =~= s.take(c));
        assert(rest.drop_first() =~= split_commas(d.skip(c)));
        assert(d.skip(c) =~= s.skip(c + 1));
        assert(seq![seq![s[0]] + rest[0]] + rest.drop_first() =~= seq![s.take(c)] + split_commas(
            s.skip(c + 1),
        ));
    }
}

/// The identifiers named by a comma-separated list, when every piece is a
/// well-formed identifier.
pub open spec fn parsed_ids(s: Seq<char>) -> Option<Seq<Id>> {
    if forall|k: int|
        0 <= k < split_commas(s).len() ==> (#[trigger] ulid_decoded(split_commas(s)[k])) is Some {
        Some(
            Seq::new(
                split_commas(s).len(),
                |k: int| Id { bits: ulid_decoded(split_commas(s)[k]).unwrap() },
            ),
        )
    } else {
        None
    }
}

/// The position of the first comma, if any.
fn find_comma(s: &str) -> (r: Option<usize>)
    ensures
        r matches Some(c) ==> c < s@.len() && s@[c as int] == ',' && forall|q: int|
            0 <= q < c ==> s@[q] != ',',
        r is None ==> forall|q: int| 0 <= q < s@.len() ==> s@[q] != ',',
{
    let n = s.unicode_len();
    let mut i: usize = 0;
    while i < n
        invariant
            i <= n,
            n == s@.len(),
            forall|q: int| 0 <= q < i ==> s@[q] != ',',
        decreases n - i,
    {
        if s.get_char(i) == ',' {
            return Some(i);
        }
        i += 1;
    }
    None
}

/// Parse a comma-separated list of question identifiers; any malformed
/// piece rejects the whole list.
pub fn parse_question_ids(qids: &str) -> (r: Result<Vec<Id>, ApiError>)
    ensures
        r matches Ok(v) ==> parsed_ids(qids@) == Some(v@),
        r is Err ==> r == Err::<Vec<Id>, ApiError>(ApiError::BadRequest) && parsed_ids(
            qids@,
        ) is None,
{
    let mut out: Vec<Id> = Vec::new();
    let mut rem: &str = qids;
    let ghost pieces = split_commas(qids@);
    proof {
        lemma_split_commas_len(qids@);
        assert(pieces =~= pieces.take(0) + split_commas(rem@));
    }
    loop
        invariant
            pieces == split_commas(qids@),
            pieces == pieces.take(out@.len() as int) + split_commas(rem@),
            out@.len() <= pieces.len(),
            forall|k: int|
                0 <= k < out@.len() ==> (#[trigger] ulid_decoded(pieces[k])) is Some && out@[k]
                    == (Id { bits: ulid_decoded(pieces[k]).unwrap() }),
        decreases rem@.len(),
    {
        proof {
            lemma_split_commas_len(rem@);
        }
        match find_comma(rem) {
            Some(c) => {
                let ghost done = out@.len() as int;
                let ghost rem0 = rem@;
                proof {
                    lemma_split_first_comma(rem0, c as int);
                    lemma_split_commas_len(rem0.skip(c as int + 1));
                    assert(split_commas(rem0)[0] == rem0.take(c as int));
                    assert(pieces[done] == rem0.take(c as int));
                }
                let piece = rem.substring_char(0, c);
                match Id::parse(piece) {
                    Some(id) => {
                        out.push(id);
                    },
                    None => {
                        proof {
                            assert(ulid_decoded(pieces[done]) is None);
                        }
                        return Err(ApiError::BadRequest);
                    },
                }
                let n = rem.unicode_len();
                rem = rem.substring_char(c + 1, n);
                proof {
                    assert(rem@ == rem0.subrange(c as int + 1, rem0.len() as int));
                    assert(rem@ =~= rem0.skip(c as int + 1));
                    assert(pieces.take(done + 1) =~= pieces.take(done).push(pieces[done]));
                    assert(pieces.take(done).push(rem0.take(c as int)) + split_commas(
                        rem0.skip(c as int + 1),
                    ) =~= pieces.take(done) + split_commas(rem0));
                    assert(pieces =~= pieces.take(done + 1) + split_commas(rem@));
                }
            },
            None => {
                proof {
                    lemma_split_no_comma(rem@);
                    assert(pieces[out@.len() as int] == rem@);
                    assert(pieces.len() == out@.len() + 1);
                }
                match Id::parse(rem) {
                    Some(id) => {
                        out.push(id);
                        proof {
                            assert(forall|k: int|
                                0 <= k < pieces.len() ==> (#[trigger] ulid_decoded(
                                    pieces[k],
                                )) is Some);
                            assert(Seq::new(
                                split_commas(qids@).len(),
                                |k: int| Id { bits: ulid_decoded(split_commas(qids@)[k]).unwrap() },
                            ) =~= out@);
                        }
                        return Ok(out);
                    },
                    None => {
                        proof {
                            assert(ulid_decoded(pieces[out@.len() as int]) is None);
                        }
                        return Err(ApiError::BadRequest);
                    },
                }
            },
        }
    }
}

/// Bulk fetch of questions by identifier, as named in a comma-separated
/// list: a malformed list is rejected; when none of the named questions
/// exists the result is not found; otherwise the found questions come
/// back in request order, unknown identifiers omitted.
pub fn questions(store: &Store, qids: &str) -> (r: Result<Vec<QuestionInfo>, ApiError>)
    requires
        store@.wf(),
    ensures
        parsed_ids(qids@) is None ==> r == Err::<Vec<QuestionInfo>, ApiError>(
            ApiError::BadRequest,
        ),
        parsed_ids(qids@) matches Some(ids) ==> ({
            let found = crate::store::batch_found(store@.questions, ids);
            &&& found.len() == 0 ==> r == Err::<Vec<QuestionInfo>, ApiError>(ApiError::NotFound)
            &&& found.len() > 0 ==> (r matches Ok(v) && v@.map_values(|x: QuestionInfo| x@)
                == found)
        }),
{
    let ids = match parse_question_ids(qids) {
        Ok(v) => v,
        Err(e) => {
            return Err(e);
        },
    };
    let got: BatchGetResult = store.batch_get(&ids);
    if got.found.len() == 0 {
        return Err(ApiError::NotFound);
    }
    Ok(got.found)
}

/// One question's text. A missing question surfaces as an internal
/// error, as malformed stored data would.
pub fn question(store: &Store, qid: Id) -> (r: Result<String, ApiError>)
    requires
        store@.wf(),
    ensures
        has_question(store@.questions, qid.bits) ==> (r matches Ok(t) && t@ == question_at(
            store@.questions,
            qid.bits,
        ).text),
        !has_question(store@.questions, qid.bits) ==> r == Err::<String, ApiError>(
            ApiError::Internal,
        ),
{
    match store.question(qid) {
        Ok(t) => Ok(t),
        Err(StoreError::NotFound) => Err(ApiError::Internal),
    }
}

} // verus!
