//! The in-memory record store.
//!
//! Durable storage for the two record kinds, events and questions, with
//! atomic vote counters, idempotent toggles and projection reads. This is
//! the in-process variant of the record store: one owned object, mutated
//! only through the operations here, each of which performs a short pure
//! data-structure update. A remote variant backed by a networked service
//! may stand in for it outside this crate; both must satisfy the contracts
//! stated here.
//!
//! The store is modelled as two sequences in insertion order, with record
//! identifiers unique and every question referring to an existing event.

use vstd::prelude::*;

use crate::ids::Id;
use crate::UpDown;

verus! {

/// Time-to-live attached to an event record, in seconds: advisory expiry
/// metadata for the durability layer, not enforced by the core logic.
pub const EVENT_TTL_SECONDS: u64 = 60 * 60 * 24 * 30;

/// Time-to-live attached to a question record, in seconds.
pub const QUESTION_TTL_SECONDS: u64 = 60 * 60 * 24 * 30;

/// A stored event: a Q&A session, gated by its secret.
pub struct EventRecord {
    pub id: Id,
    pub secret: String,
    pub when: u64,
    pub expire: u64,
}

/// A stored question, owned by an event.
pub struct QuestionRecord {
    pub id: Id,
    pub eid: Id,
    pub votes: u64,
    pub text: String,
    pub who: Option<String>,
    pub when: u64,
    pub expire: u64,
    pub hidden: bool,
    pub answered: Option<u64>,
}

/// Mathematical model of an event record.
pub struct EventV {
    pub id: u128,
    pub secret: Seq<char>,
    pub when: u64,
    pub expire: u64,
}

/// Mathematical model of a question record.
#[verifier::ext_equal]
pub struct QuestionV {
    pub id: u128,
    pub eid: u128,
    pub votes: u64,
    pub text: Seq<char>,
    pub who: Option<Seq<char>>,
    pub when: u64,
    pub expire: u64,
    pub hidden: bool,
    pub answered: Option<u64>,
}

/// Mathematical model of the whole store: both record sequences, in
/// insertion order.
#[verifier::ext_equal]
pub struct StoreV {
    pub events: Seq<EventV>,
    pub questions: Seq<QuestionV>,
}

impl View for EventRecord {
    type V = EventV;

    open spec fn view(&self) -> EventV {
        EventV {
            id: self.id.bits,
            secret: self.secret@,
            when: self.when,
            expire: self.expire,
        }
    }
}

impl View for QuestionRecord {
    type V = QuestionV;

    open spec fn view(&self) -> QuestionV {
        QuestionV {
            id: self.id.bits,
            eid: self.eid.bits,
            votes: self.votes,
            text: self.text@,
            who: match self.who {
                Some(w) => Some(w@),
                None => None,
            },
            when: self.when,
            expire: self.expire,
            hidden: self.hidden,
            answered: self.answered,
        }
    }
}

/// Whether an event with the given identifier exists.
pub open spec fn has_event(events: Seq<EventV>, id: u128) -> bool {
    exists|i: int| 0 <= i < events.len() && events[i].id == id
}

/// The position of the event with the given identifier (well defined when
/// identifiers are unique and the event exists).
pub open spec fn event_index(events: Seq<EventV>, id: u128) -> int {
    choose|i: int| 0 <= i < events.len() && events[i].id == id
}

/// The event with the given identifier.
pub open spec fn event_at(events: Seq<EventV>, id: u128) -> EventV {
    events[event_index(events, id)]
}

/// Whether a question with the given identifier exists.
pub open spec fn has_question(questions: Seq<QuestionV>, id: u128) -> bool {
    exists|i: int| 0 <= i < questions.len() && questions[i].id == id
}

/// The position of the question with the given identifier.
pub open spec fn question_index(questions: Seq<QuestionV>, id: u128) -> int {
    choose|i: int| 0 <= i < questions.len() && questions[i].id == id
}

/// The question with the given identifier.
pub open spec fn question_at(questions: Seq<QuestionV>, id: u128) -> QuestionV {
    questions[question_index(questions, id)]
}

/// Creating an event writes the record at its identifier: a fresh
/// identifier is appended, an existing one overwritten in place.
pub open spec fn upsert_event(events: Seq<EventV>, ev: EventV) -> Seq<EventV> {
    if has_event(events, ev.id) {
        events.update(event_index(events, ev.id), ev)
    } else {
        events.push(ev)
    }
}

/// Creating a question writes the record at its identifier, as for events.
pub open spec fn upsert_question(questions: Seq<QuestionV>, q: QuestionV) -> Seq<QuestionV> {
    if has_question(questions, q.id) {
        questions.update(question_index(questions, q.id), q)
    } else {
        questions.push(q)
    }
}

/// One vote applied to a counter: up always increments (held below the
/// machine bound), down decrements only above zero — at zero it is a no-op
/// that still succeeds.
pub open spec fn vote_applied(v: u64, direction: UpDown) -> u64 {
    match direction {
        UpDown::Up => if v < u64::MAX {
            (v + 1) as u64
        } else {
            v
        },
        UpDown::Down => if v > 0 {
            (v - 1) as u64
        } else {
            0
        },
    }
}

/// One vote applied to an unbounded counter: the abstract model of the
/// counter, free of any machine bound.
pub open spec fn vote_applied_int(v: int, direction: UpDown) -> int {
    match direction {
        UpDown::Up => v + 1,
        UpDown::Down => if v > 0 {
            v - 1
        } else {
            v
        },
    }
}

/// The counter after a whole sequence of votes, in the unbounded model.
pub open spec fn votes_after(start: int, directions: Seq<UpDown>) -> int
    decreases directions.len(),
{
    if directions.len() == 0 {
        start
    } else {
        votes_after(vote_applied_int(start, directions[0]), directions.drop_first())
    }
}

/// What a toggle writes: `Hidden` sets the flag to the requested value;
/// `Answered` sets the timestamp (turning on) or clears it (turning off).
#[derive(Debug, Clone, Copy, PartialEq, Eq, Structural)]
pub enum ToggleRequest {
    Hidden(bool),
    Answered(Option<u64>),
}

/// A toggle applied to one question.
pub open spec fn toggle_applied(q: QuestionV, req: ToggleRequest) -> QuestionV {
    match req {
        ToggleRequest::Hidden(b) => QuestionV { hidden: b, ..q },
        ToggleRequest::Answered(t) => QuestionV { answered: t, ..q },
    }
}

/// A toggle applied to the store (well defined when the question exists).
pub open spec fn store_toggle(s: StoreV, qid: u128, req: ToggleRequest) -> StoreV {
    StoreV {
        events: s.events,
        questions: s.questions.update(
            question_index(s.questions, qid),
            toggle_applied(question_at(s.questions, qid), req),
        ),
    }
}

impl StoreV {
    /// Well-formedness: identifiers of each record kind are unique, and
    /// every question belongs to an existing event.
    pub open spec fn wf(self) -> bool {
        &&& forall|i: int, j: int|
            0 <= i < j < self.events.len() ==> (#[trigger] self.events[i].id)
                != (#[trigger] self.events[j].id)
        &&& forall|i: int, j: int|
            0 <= i < j < self.questions.len() ==> (#[trigger] self.questions[i].id)
                != (#[trigger] self.questions[j].id)
        &&& forall|i: int|
            0 <= i < self.questions.len() ==> has_event(
                self.events,
                (#[trigger] self.questions[i]).eid,
            )
    }
}

/// The store's failure modes, distinguishable by callers: a missing
/// resource is not a service failure.
#[derive(Debug, Clone, Copy, PartialEq, Eq, Structural)]
pub enum StoreError {
    /// The addressed event or question does not exist.
    NotFound,
}

/// The in-memory record store.
pub struct Store {
    events: Vec<EventRecord>,
    questions: Vec<QuestionRecord>,
}

impl View for Store {
    type V = StoreV;

    closed spec fn view(&self) -> StoreV {
        StoreV {
            events: self.events@.map_values(|e: EventRecord| e@),
            questions: self.questions@.map_values(|q: QuestionRecord| q@),
        }
    }
}

impl Store {
    /// An empty store.
    pub fn new() -> (s: Store)
        ensures
            s@.events == Seq::<EventV>::empty(),
            s@.questions == Seq::<QuestionV>::empty(),
            s@.wf(),
    {
        let s = Store { events: Vec::new(), questions: Vec::new() };
        proof {
            assert(s@.events =~= Seq::<EventV>::empty());
            assert(s@.questions =~= Seq::<QuestionV>::empty());
        }
        s
    }

    /// The position of the event with this identifier, if any.
    fn find_event(&self, id: Id) -> (r: Option<usize>)
        ensures
            r matches Some(i) ==> i < self@.events.len() && self@.events[i as int].id == id.bits,
            r is None ==> !has_event(self@.events, id.bits),
    {
        let mut i: usize = 0;
        while i < self.events.len()
            invariant
                i <= self@.events.len(),
                self@.events.len() == self.events@.len(),
                forall|j: int| 0 <= j < i ==> (#[trigger] self@.events[j].id) != id.bits,
            decreases self@.events.len() - i,
        {
            if self.events[i].id == id {
                return Some(i);
            }
            i += 1;
        }
        None
    }

    /// The position of the question with this identifier, if any.
    fn find_question(&self, id: Id) -> (r: Option<usize>)
        ensures
            r matches Some(i) ==> i < self@.questions.len() && self@.questions[i as int].id
                == id.bits,
            r is None ==> !has_question(self@.questions, id.bits),
    {
        let mut i: usize = 0;
        while i < self.questions.len()
            invariant
                i <= self@.questions.len(),
                self@.questions.len() == self.questions@.len(),
                forall|j: int| 0 <= j < i ==> (#[trigger] self@.questions[j].id) != id.bits,
            decreases self@.questions.len() - i,
        {
            if self.questions[i].id == id {
                return Some(i);
            }
            i += 1;
        }
        None
    }

    /// Create an event: an upsert that always succeeds. Questions are left
    /// untouched.
    pub fn create_event(&mut self, id: Id, secret: String, now: u64)
        requires
            old(self)@.wf(),
            now + EVENT_TTL_SECONDS <= u64::MAX,
        ensures
            final(self)@.wf(),
            final(self)@.events == upsert_event(
                old(self)@.events,
                EventV {
                    id: id.bits,
                    secret: secret@,
                    when: now,
                    expire: (now + EVENT_TTL_SECONDS) as u64,
                },
            ),
            final(self)@.questions == old(self)@.questions,
    {
        let ghost ev = EventV {
            id: id.bits,
            secret: secret@,
            when: now,
            expire: (now + EVENT_TTL_SECONDS) as u64,
        };
        let rec = EventRecord { id, secret, when: now, expire: now + EVENT_TTL_SECONDS };
        match self.find_event(id) {
            Some(i) => {
                self.events[i] = rec;
                proof {
                    let es = old(self)@.events;
                    assert(event_index(es, id.bits) == i) by {
                        let j = event_index(es, id.bits);
                        assert(0 <= j < es.len() && es[j].id == id.bits);
                    }
                    assert(final(self)@.events =~= upsert_event(es, ev));
                    assert(final(self)@.questions =~= old(self)@.questions);
                    assert_upsert_event_wf(old(self)@, ev);
                }
            },
            None => {
                self.events.push(rec);
                proof {
                    assert(final(self)@.events =~= upsert_event(old(self)@.events, ev));
                    assert(final(self)@.questions =~= old(self)@.questions);
                    assert_upsert_event_wf(old(self)@, ev);
                }
            },
        }
    }
    /// Create a question under an existing event, with one vote (the
    /// asker's own), not hidden and not answered. Creation against an
    /// unknown event is rejected.
    pub fn create_question(
        &mut self,
        eid: Id,
        qid: Id,
        text: String,
        asker: Option<String>,
        now: u64,
    ) -> (r: Result<(), StoreError>)
        requires
            old(self)@.wf(),
            now + QUESTION_TTL_SECONDS <= u64::MAX,
        ensures
            final(self)@.wf(),
            final(self)@.events == old(self)@.events,
            has_event(old(self)@.events, eid.bits) ==> r == Ok::<(), StoreError>(())
                && final(self)@.questions == upsert_question(
                old(self)@.questions,
                new_question(eid.bits, qid.bits, text@, opt_view(asker), now),
            ),
            !has_event(old(self)@.events, eid.bits) ==> r == Err::<(), StoreError>(
                StoreError::NotFound,
            ) && final(self)@ == old(self)@,
    {
        if self.find_event(eid).is_none() {
            return Err(StoreError::NotFound);
        }
        let ghost qv = new_question(eid.bits, qid.bits, text@, opt_view(asker), now);
        let rec = QuestionRecord {
            id: qid,
            eid,
            votes: 1,
            text,
            who: asker,
            when: now,
            expire: now + QUESTION_TTL_SECONDS,
            hidden: false,
            answered: None,
        };
        match self.find_question(qid) {
            Some(i) => {
                self.questions[i] = rec;
                proof {
                    let qs = old(self)@.questions;
                    assert(question_index(qs, qid.bits) == i) by {
                        let j = question_index(qs, qid.bits);
                        assert(0 <= j < qs.len() && qs[j].id == qid.bits);
                    }
                    assert(final(self)@.questions =~= upsert_question(qs, qv));
                    assert(final(self)@.events =~= old(self)@.events);
                    assert_upsert_question_wf(old(self)@, qv);
                }
            },
            None => {
                self.questions.push(rec);
                proof {
                    assert(final(self)@.questions =~= upsert_question(old(self)@.questions, qv));
                    assert(final(self)@.events =~= old(self)@.events);
                    assert_upsert_question_wf(old(self)@, qv);
                }
            },
        }
        Ok(())
    }

    /// Adjust a question's vote counter atomically and report the new
    /// count. An up-vote at the machine bound and a down-vote at zero are
    /// no-ops that still succeed.
    pub fn vote(&mut self, qid: Id, direction: UpDown) -> (r: Result<u64, StoreError>)
        requires
            old(self)@.wf(),
        ensures
            final(self)@.wf(),
            final(self)@.events == old(self)@.events,
            ({
                let qs = old(self)@.questions;
                if has_question(qs, qid.bits) {
                    let qi = question_index(qs, qid.bits);
                    let n = vote_applied(qs[qi].votes, direction);
                    r == Ok::<u64, StoreError>(n) && final(self)@.questions == qs.update(
                        qi,
                        QuestionV { votes: n, ..qs[qi] },
                    )
                } else {
                    r == Err::<u64, StoreError>(StoreError::NotFound) && final(self)@ == old(
                        self,
                    )@
                }
            }),
    {
        match self.find_question(qid) {
            Some(i) => {
                let v = self.questions[i].votes;
                let n = match direction {
                    UpDown::Up => if v < u64::MAX {
                        v + 1
                    } else {
                        v
                    },
                    UpDown::Down => if v > 0 {
                        v - 1
                    } else {
                        0
                    },
                };
                self.questions[i].votes = n;
                proof {
                    let qs = old(self)@.questions;
                    assert(question_index(qs, qid.bits) == i) by {
                        let j = question_index(qs, qid.bits);
                        assert(0 <= j < qs.len() && qs[j].id == qid.bits);
                    }
                    assert(final(self)@.questions =~= qs.update(
                        i as int,
                        QuestionV { votes: n, ..qs[i as int] },
                    ));
                    assert(final(self)@.events =~= old(self)@.events);
                    assert_update_field_wf(old(self)@, i as int, final(self)@.questions[i as int]);
                }
                Ok(n)
            },
            None => Err(StoreError::NotFound),
        }
    }

    /// Set or clear one flag of a question and leave everything else as it
    /// was.
    pub fn toggle(&mut self, qid: Id, req: ToggleRequest) -> (r: Result<(), StoreError>)
        requires
            old(self)@.wf(),
        ensures
            final(self)@.wf(),
            has_question(old(self)@.questions, qid.bits) ==> r == Ok::<(), StoreError>(())
                && final(self)@ == store_toggle(old(self)@, qid.bits, req),
            !has_question(old(self)@.questions, qid.bits) ==> r == Err::<(), StoreError>(
                StoreError::NotFound,
            ) && final(self)@ == old(self)@,
    {
        match self.find_question(qid) {
            Some(i) => {
                match req {
                    ToggleRequest::Hidden(b) => {
                        self.questions[i].hidden = b;
                    },
                    ToggleRequest::Answered(t) => {
                        self.questions[i].answered = t;
                    },
                }
                proof {
                    let qs = old(self)@.questions;
                    assert(question_index(qs, qid.bits) == i) by {
                        let j = question_index(qs, qid.bits);
                        assert(0 <= j < qs.len() && qs[j].id == qid.bits);
                    }
                    assert(final(self)@.questions =~= qs.update(
                        i as int,
                        toggle_applied(qs[i as int], req),
                    ));
                    assert(final(self)@ =~= store_toggle(old(self)@, qid.bits, req));
                    assert_update_field_wf(old(self)@, i as int, final(self)@.questions[i as int]);
                }
                Ok(())
            },
            None => Err(StoreError::NotFound),
        }
    }

    /// Projection fetch of one question's text.
    pub fn question(&self, qid: Id) -> (r: Result<String, StoreError>)
        requires
            self@.wf(),
        ensures
            has_question(self@.questions, qid.bits) ==> (r matches Ok(t) && t@ == question_at(
                self@.questions,
                qid.bits,
            ).text),
            !has_question(self@.questions, qid.bits) ==> r == Err::<String, StoreError>(
                StoreError::NotFound,
            ),
    {
        match self.find_question(qid) {
            Some(i) => {
                let t = self.questions[i].text.clone();
                proof {
                    let qs = self@.questions;
                    assert(question_index(qs, qid.bits) == i) by {
                        let j = question_index(qs, qid.bits);
                        assert(0 <= j < qs.len() && qs[j].id == qid.bits);
                    }
                }
                Ok(t)
            },
            None => Err(StoreError::NotFound),
        }
    }

    /// The secret of an event, or `NotFound` if the event does not exist.
    pub fn get_secret(&self, eid: Id) -> (r: Result<String, StoreError>)
        requires
            self@.wf(),
        ensures
            has_event(self@.events, eid.bits) ==> (r matches Ok(s) && s@ == event_at(
                self@.events,
                eid.bits,
            ).secret),
            !has_event(self@.events, eid.bits) ==> r == Err::<String, StoreError>(
                StoreError::NotFound,
            ),
    {
        match self.find_event(eid) {
            Some(i) => {
                let s = self.events[i].secret.clone();
                proof {
                    let es = self@.events;
                    assert(event_index(es, eid.bits) == i) by {
                        let j = event_index(es, eid.bits);
                        assert(0 <= j < es.len() && es[j].id == eid.bits);
                    }
                }
                Ok(s)
            },
            None => Err(StoreError::NotFound),
        }
    }
}

/// What a listing shows of one question: the projection the ranking
/// engine and the listing response are built from.
#[derive(Debug, Clone, Copy, PartialEq, Eq)]
pub struct ListEntry {
    pub id: Id,
    pub votes: u64,
    pub hidden: bool,
    pub answered: Option<u64>,
}

/// The listing projection of one question.
pub open spec fn entry_of(q: QuestionV) -> ListEntry {
    ListEntry { id: Id { bits: q.id }, votes: q.votes, hidden: q.hidden, answered: q.answered }
}

/// Which questions a listing covers: those of the event, and only the
/// non-hidden ones unless hidden ones were asked for.
pub open spec fn listed_pred(eid: u128, include_hidden: bool) -> spec_fn(QuestionV) -> bool {
    |q: QuestionV| q.eid == eid && (include_hidden || !q.hidden)
}

/// The listing of an event: its covered questions, projected, in
/// insertion order.
pub open spec fn listed(questions: Seq<QuestionV>, eid: u128, include_hidden: bool) -> Seq<
    ListEntry,
> {
    questions.filter(listed_pred(eid, include_hidden)).map_values(|q: QuestionV| entry_of(q))
}

/// What a bulk projection fetch shows of one question.
#[derive(Debug, PartialEq, Eq)]
pub struct QuestionInfo {
    pub id: Id,
    pub text: String,
    pub who: Option<String>,
    pub when: u64,
}

/// Mathematical model of a bulk projection entry.
#[verifier::ext_equal]
pub struct QuestionInfoV {
    pub id: u128,
    pub text: Seq<char>,
    pub who: Option<Seq<char>>,
    pub when: u64,
}

impl View for QuestionInfo {
    type V = QuestionInfoV;

    open spec fn view(&self) -> QuestionInfoV {
        QuestionInfoV {
            id: self.id.bits,
            text: self.text@,
            who: match self.who {
                Some(w) => Some(w@),
                None => None,
            },
            when: self.when,
        }
    }
}

/// The bulk projection of one question.
pub open spec fn info_of(q: QuestionV) -> QuestionInfoV {
    QuestionInfoV { id: q.id, text: q.text, who: q.who, when: q.when }
}

/// The found part of a bulk fetch: the requested identifiers that exist,
/// in request order, projected.
pub open spec fn batch_found(questions: Seq<QuestionV>, ids: Seq<Id>) -> Seq<QuestionInfoV>
    decreases ids.len(),
{
    if ids.len() == 0 {
        Seq::empty()
    } else {
        let front = batch_found(questions, ids.drop_last());
        if has_question(questions, ids.last().bits) {
            front.push(info_of(question_at(questions, ids.last().bits)))
        } else {
            front
        }
    }
}

/// The missing part of a bulk fetch: the requested identifiers that do not
/// exist, in request order.
pub open spec fn batch_missing(questions: Seq<QuestionV>, ids: Seq<Id>) -> Seq<Id>
    decreases ids.len(),
{
    if ids.len() == 0 {
        Seq::empty()
    } else {
        let front = batch_missing(questions, ids.drop_last());
        if has_question(questions, ids.last().bits) {
            front
        } else {
            front.push(ids.last())
        }
    }
}

/// Outcome of a bulk projection fetch: found records plus the identifiers
/// that were not found, so that callers can retry or report them.
pub struct BatchGetResult {
    pub found: Vec<QuestionInfo>,
    pub missing: Vec<Id>,
}

/// Questions that survive deleting the event with the given identifier.
pub open spec fn not_of_event(eid: u128) -> spec_fn(QuestionV) -> bool {
    |q: QuestionV| q.eid != eid
}

/// Events other than the one with the given identifier.
pub open spec fn other_events(eid: u128) -> spec_fn(EventV) -> bool {
    |e: EventV| e.id != eid
}

/// The record a freshly asked question is stored with.
pub open spec fn new_question(
    eid: u128,
    qid: u128,
    text: Seq<char>,
    who: Option<Seq<char>>,
    now: u64,
) -> QuestionV {
    QuestionV {
        id: qid,
        eid: eid,
        votes: 1,
        text: text,
        who: who,
        when: now,
        expire: (now + QUESTION_TTL_SECONDS) as u64,
        hidden: false,
        answered: None,
    }
}

/// The view of an optional attribution string.
pub open spec fn opt_view(o: Option<String>) -> Option<Seq<char>> {
    match o {
        Some(s) => Some(s@),
        None => None,
    }
}

impl Store {
    /// All questions of an event (or only the non-hidden ones), projected
    /// for listing, in insertion order. Listing an unknown event is
    /// rejected, so that long-gone sessions are distinguishable from empty
    /// ones.
    pub fn list_questions(&self, eid: Id, include_hidden: bool) -> (r: Result<
        Vec<ListEntry>,
        StoreError,
    >)
        requires
            self@.wf(),
        ensures
            has_event(self@.events, eid.bits) ==> (r matches Ok(v) && v@ == listed(
                self@.questions,
                eid.bits,
                include_hidden,
            )),
            !has_event(self@.events, eid.bits) ==> r == Err::<Vec<ListEntry>, StoreError>(
                StoreError::NotFound,
            ),
    {
        if self.find_event(eid).is_none() {
            return Err(StoreError::NotFound);
        }
        let ghost qs = self@.questions;
        let ghost pred = listed_pred(eid.bits, include_hidden);
        let mut out: Vec<ListEntry> = Vec::new();
        let n = self.questions.len();
        let mut i: usize = 0;
        proof {
            assert(qs.take(0).filter(pred) =~= Seq::<QuestionV>::empty()) by {
                reveal(Seq::filter);
                assert(qs.take(0).len() == 0);
            }
            assert(out@ =~= listed(qs.take(0), eid.bits, include_hidden));
        }
        while i < n
            invariant
                i <= n,
                n == qs.len(),
                qs == self@.questions,
                pred == listed_pred(eid.bits, include_hidden),
                out@ == listed(qs.take(i as int), eid.bits, include_hidden),
            decreases n - i,
        {
            let q = &self.questions[i];
            if include_hidden || !q.hidden {
                if q.eid == eid {
                    out.push(ListEntry { id: q.id, votes: q.votes, hidden: q.hidden, answered: q.answered });
                }
            }
            proof {
                lemma_filter_take_step(qs, pred, i as int);
                assert(out@ =~= listed(qs.take(i + 1 as int), eid.bits, include_hidden));
            }
            i += 1;
        }
        proof {
            assert(qs.take(n as int) =~= qs);
        }
        Ok(out)
    }

    /// Bulk projection fetch: each requested question that exists is
    /// returned in request order; the identifiers that do not exist are
    /// reported back for the caller to retry or ignore.
    pub fn batch_get(&self, qids: &Vec<Id>) -> (r: BatchGetResult)
        requires
            self@.wf(),
        ensures
            r.found@.map_values(|x: QuestionInfo| x@) == batch_found(self@.questions, qids@),
            r.missing@ == batch_missing(self@.questions, qids@),
    {
        let ghost qs = self@.questions;
        let mut found: Vec<QuestionInfo> = Vec::new();
        let mut missing: Vec<Id> = Vec::new();
        let n = qids.len();
        let mut i: usize = 0;
        proof {
            assert(qids@.take(0).len() == 0);
            assert(found@.map_values(|x: QuestionInfo| x@) =~= batch_found(qs, qids@.take(0)));
            assert(missing@ =~= batch_missing(qs, qids@.take(0)));
        }
        while i < n
            invariant
                i <= n,
                n == qids@.len(),
                qs == self@.questions,
                self@.wf(),
                found@.map_values(|x: QuestionInfo| x@) == batch_found(qs, qids@.take(i as int)),
                missing@ == batch_missing(qs, qids@.take(i as int)),
            decreases n - i,
        {
            let qid = qids[i];
            match self.find_question(qid) {
                Some(j) => {
                    let rec = &self.questions[j];
                    let who = match &rec.who {
                        Some(w) => Some(w.clone()),
                        None => None,
                    };
                    found.push(QuestionInfo { id: qid, text: rec.text.clone(), who, when: rec.when });
                    proof {
                        assert(question_index(qs, qid.bits) == j) by {
                            let k = question_index(qs, qid.bits);
                            assert(0 <= k < qs.len() && qs[k].id == qid.bits);
                        }
                    }
                },
                None => {
                    missing.push(qid);
                },
            }
            proof {
                assert(qids@.take(i + 1 as int).drop_last() =~= qids@.take(i as int));
                assert(qids@.take(i + 1 as int).last() == qids@[i as int]);
                assert(found@.map_values(|x: QuestionInfo| x@) =~= batch_found(
                    qs,
                    qids@.take(i + 1 as int),
                ));
                assert(missing@ =~= batch_missing(qs, qids@.take(i + 1 as int)));
            }
            i += 1;
        }
        proof {
            assert(qids@.take(n as int) =~= qids@);
        }
        BatchGetResult { found, missing }
    }

    /// Remove an event and every question that belongs to it.
    pub fn delete_event(&mut self, eid: Id)
        requires
            old(self)@.wf(),
        ensures
            final(self)@.wf(),
            final(self)@.events == old(self)@.events.filter(other_events(eid.bits)),
            final(self)@.questions == old(self)@.questions.filter(not_of_event(eid.bits)),
    {
        let ghost s0 = old(self)@;
        let ghost qpred = not_of_event(eid.bits);
        let ghost epred = other_events(eid.bits);

        let mut kept_q: Vec<QuestionRecord> = Vec::new();
        let n = self.questions.len();
        let mut i: usize = 0;
        proof {
            assert(s0.questions.take(0).filter(qpred) =~= Seq::<QuestionV>::empty()) by {
                reveal(Seq::filter);
            }
            assert(self@.questions =~= s0.questions.skip(0));
        }
        while i < n
            invariant
                i <= n,
                n == s0.questions.len(),
                self@.events == s0.events,
                self@.questions == s0.questions.skip(i as int),
                kept_q@.map_values(|q: QuestionRecord| q@) == s0.questions.take(i as int).filter(
                    qpred,
                ),
                qpred == not_of_event(eid.bits),
            decreases n - i,
        {
            proof {
                assert(self@.questions.len() == s0.questions.len() - i);
                assert(self.questions@.map_values(|q: QuestionRecord| q@)[0] == self.questions@[0]@);
                assert(self.questions@[0]@ == s0.questions[i as int]);
            }
            let q = self.questions.remove(0);
            if !(q.eid == eid) {
                kept_q.push(q);
            }
            proof {
                assert(q@ == s0.questions[i as int]);
                assert(s0.questions.skip(i as int).remove(0) =~= s0.questions.skip(i as int + 1));
                lemma_filter_take_step(s0.questions, qpred, i as int);
                assert(kept_q@.map_values(|q: QuestionRecord| q@) =~= s0.questions.take(
                    i as int + 1,
                ).filter(qpred));
            }
            i += 1;
        }
        proof {
            assert(s0.questions.take(n as int) =~= s0.questions);
        }
        self.questions = kept_q;

        let mut kept_e: Vec<EventRecord> = Vec::new();
        let m = self.events.len();
        let mut j: usize = 0;
        proof {
            assert(s0.events.take(0).filter(epred) =~= Seq::<EventV>::empty()) by {
                reveal(Seq::filter);
            }
            assert(self@.events =~= s0.events.skip(0));
        }
        while j < m
            invariant
                j <= m,
                m == s0.events.len(),
                self@.events == s0.events.skip(j as int),
                self@.questions == s0.questions.filter(not_of_event(eid.bits)),
                kept_e@.map_values(|e: EventRecord| e@) == s0.events.take(j as int).filter(epred),
                epred == other_events(eid.bits),
            decreases m - j,
        {
            proof {
                assert(self@.events.len() == s0.events.len() - j);
                assert(self.events@.map_values(|e: EventRecord| e@)[0] == self.events@[0]@);
                assert(self.events@[0]@ == s0.events[j as int]);
            }
            let e = self.events.remove(0);
            if !(e.id == eid) {
                kept_e.push(e);
            }
            proof {
                assert(e@ == s0.events[j as int]);
                assert(s0.events.skip(j as int).remove(0) =~= s0.events.skip(j as int + 1));
                lemma_filter_take_step_events(s0.events, epred, j as int);
                assert(kept_e@.map_values(|e: EventRecord| e@) =~= s0.events.take(j as int + 1)
                    .filter(epred));
            }
            j += 1;
        }
        proof {
            assert(s0.events.take(m as int) =~= s0.events);
        }
        self.events = kept_e;

        proof {
            assert_delete_event_wf(s0, eid.bits);
        }
    }
}

/// One step of filtering a prefix: the filtered take grows by the next
/// element exactly when the predicate accepts it.
proof fn lemma_filter_take_step(s: Seq<QuestionV>, pred: spec_fn(QuestionV) -> bool, i: int)
    requires
        0 <= i < s.len(),
    ensures
        s.take(i + 1).filter(pred) == if pred(s[i]) {
            s.take(i).filter(pred).push(s[i])
        } else {
            s.take(i).filter(pred)
        },
{
    reveal(Seq::filter);
    assert(s.take(i + 1).drop_last() =~= s.take(i));
    assert(s.take(i + 1).last() == s[i]);
}

/// One step of filtering a prefix of events.
proof fn lemma_filter_take_step_events(s: Seq<EventV>, pred: spec_fn(EventV) -> bool, i: int)
    requires
        0 <= i < s.len(),
    ensures
        s.take(i + 1).filter(pred) == if pred(s[i]) {
            s.take(i).filter(pred).push(s[i])
        } else {
            s.take(i).filter(pred)
        },
{
    reveal(Seq::filter);
    assert(s.take(i + 1).drop_last() =~= s.take(i));
    assert(s.take(i + 1).last() == s[i]);
}

/// Every element of a filtered sequence occurs in the sequence it was
/// filtered from.
proof fn lemma_filter_subset<A>(s: Seq<A>, pred: spec_fn(A) -> bool)
    ensures
        forall|i: int|
            0 <= i < s.filter(pred).len() ==> s.contains(#[trigger] s.filter(pred)[i]),
    decreases s.len(),
{
    reveal(Seq::filter);
    if s.len() > 0 {
        lemma_filter_subset(s.drop_last(), pred);
        let f = s.filter(pred);
        let fd = s.drop_last().filter(pred);
        assert forall|i: int| 0 <= i < f.len() implies s.contains(f[i]) by {
            if i < fd.len() {
                assert(s.drop_last().contains(fd[i]));
                let w = choose|w: int| 0 <= w < s.drop_last().len() && s.drop_last()[w] == fd[i];
                assert(s[w] == f[i]);
            } else {
                assert(f[i] == s.last());
                assert(s[s.len() - 1] == s.last());
            }
        }
    }
}

/// Filtering keeps distinct question identifiers distinct.
proof fn lemma_filter_distinct_questions(s: Seq<QuestionV>, pred: spec_fn(QuestionV) -> bool)
    requires
        forall|i: int, j: int|
            0 <= i < j < s.len() ==> (#[trigger] s[i].id) != (#[trigger] s[j].id),
    ensures
        forall|i: int, j: int|
            0 <= i < j < s.filter(pred).len() ==> (#[trigger] s.filter(pred)[i].id) != (
            #[trigger] s.filter(pred)[j].id),
    decreases s.len(),
{
    reveal(Seq::filter);
    if s.len() > 0 {
        assert(forall|i: int, j: int|
            0 <= i < j < s.drop_last().len() ==> (#[trigger] s.drop_last()[i].id) != (
            #[trigger] s.drop_last()[j].id));
        lemma_filter_distinct_questions(s.drop_last(), pred);
        lemma_filter_subset(s.drop_last(), pred);
        let f = s.filter(pred);
        let fd = s.drop_last().filter(pred);
        assert forall|i: int, j: int| 0 <= i < j < f.len() implies f[i].id != f[j].id by {
            if j < fd.len() {
                assert(fd[i].id != fd[j].id);
            } else {
                // j names the pushed last element; f[i] sits in drop_last
                assert(f[j] == s.last());
                assert(s.drop_last().contains(fd[i]));
                let w = choose|w: int| 0 <= w < s.drop_last().len() && s.drop_last()[w] == fd[i];
                assert(s[w].id != s[s.len() - 1].id);
            }
        }
    }
}

/// Filtering keeps distinct event identifiers distinct.
proof fn lemma_filter_distinct_events(s: Seq<EventV>, pred: spec_fn(EventV) -> bool)
    requires
        forall|i: int, j: int|
            0 <= i < j < s.len() ==> (#[trigger] s[i].id) != (#[trigger] s[j].id),
    ensures
        forall|i: int, j: int|
            0 <= i < j < s.filter(pred).len() ==> (#[trigger] s.filter(pred)[i].id) != (
            #[trigger] s.filter(pred)[j].id),
    decreases s.len(),
{
    reveal(Seq::filter);
    if s.len() > 0 {
        assert(forall|i: int, j: int|
            0 <= i < j < s.drop_last().len() ==> (#[trigger] s.drop_last()[i].id) != (
            #[trigger] s.drop_last()[j].id));
        lemma_filter_distinct_events(s.drop_last(), pred);
        lemma_filter_subset(s.drop_last(), pred);
        let f = s.filter(pred);
        let fd = s.drop_last().filter(pred);
        assert forall|i: int, j: int| 0 <= i < j < f.len() implies f[i].id != f[j].id by {
            if j < fd.len() {
                assert(fd[i].id != fd[j].id);
            } else {
                assert(f[j] == s.last());
                assert(s.drop_last().contains(fd[i]));
                let w = choose|w: int| 0 <= w < s.drop_last().len() && s.drop_last()[w] == fd[i];
                assert(s[w].id != s[s.len() - 1].id);
            }
        }
    }
}

/// Deleting an event preserves well-formedness.
proof fn assert_delete_event_wf(s: StoreV, eid: u128)
    requires
        s.wf(),
    ensures
        (StoreV {
            events: s.events.filter(other_events(eid)),
            questions: s.questions.filter(not_of_event(eid)),
        }).wf(),
{
    let es = s.events.filter(other_events(eid));
    let qs = s.questions.filter(not_of_event(eid));
    lemma_filter_distinct_events(s.events, other_events(eid));
    lemma_filter_distinct_questions(s.questions, not_of_event(eid));
    lemma_filter_subset(s.questions, not_of_event(eid));
    assert forall|k: int| 0 <= k < qs.len() implies has_event(es, (#[trigger] qs[k]).eid) by {
        assert(s.questions.contains(qs[k]));
        let w = choose|w: int| 0 <= w < s.questions.len() && s.questions[w] == qs[k];
        assert(has_event(s.events, s.questions[w].eid));
        let j = event_index(s.events, s.questions[w].eid);
        assert(0 <= j < s.events.len() && s.events[j].id == qs[k].eid);
        assert(other_events(eid)(s.events[j]));
        s.events.lemma_filter_contains(other_events(eid), j);
        assert(es.contains(s.events[j]));
        let v = choose|v: int| 0 <= v < es.len() && es[v] == s.events[j];
        assert(es[v].id == qs[k].eid);
    }
}

/// Replacing one question by another with the same identifier and owning
/// event preserves well-formedness.
proof fn assert_update_field_wf(s: StoreV, i: int, q: QuestionV)
    requires
        s.wf(),
        0 <= i < s.questions.len(),
        q.id == s.questions[i].id,
        q.eid == s.questions[i].eid,
    ensures
        (StoreV { events: s.events, questions: s.questions.update(i, q) }).wf(),
{
}

/// Upserting a question whose event exists preserves well-formedness.
proof fn assert_upsert_question_wf(s: StoreV, q: QuestionV)
    requires
        s.wf(),
        has_event(s.events, q.eid),
    ensures
        (StoreV { events: s.events, questions: upsert_question(s.questions, q) }).wf(),
{
    if has_question(s.questions, q.id) {
        let i = question_index(s.questions, q.id);
        assert(0 <= i < s.questions.len() && s.questions[i].id == q.id);
    }
}

/// Vote floor: for any sequence of up and down votes starting from one,
/// the counter never goes below zero, and a down-vote at zero leaves it at
/// zero while still reporting success.
pub proof fn lemma_vote_floor(directions: Seq<UpDown>)
    ensures
        votes_after(1, directions) >= 0,
        vote_applied_int(0, UpDown::Down) == 0,
        vote_applied(0, UpDown::Down) == 0,
{
    lemma_votes_after_nonnegative(1, directions);
}

/// The counter stays non-negative from any non-negative start.
proof fn lemma_votes_after_nonnegative(start: int, directions: Seq<UpDown>)
    requires
        start >= 0,
    ensures
        votes_after(start, directions) >= 0,
    decreases directions.len(),
{
    if directions.len() > 0 {
        lemma_votes_after_nonnegative(
            vote_applied_int(start, directions[0]),
            directions.drop_first(),
        );
    }
}

/// Toggle round trip: hiding a question that was not hidden and then
/// unhiding it restores the store exactly, so both the guest-visible and
/// the host-visible state are as they were.
pub proof fn lemma_toggle_hidden_round_trip(s: StoreV, qid: u128)
    requires
        s.wf(),
        has_question(s.questions, qid),
        !question_at(s.questions, qid).hidden,
    ensures
        store_toggle(store_toggle(s, qid, ToggleRequest::Hidden(true)), qid, ToggleRequest::Hidden(
            false,
        )) =~= s,
{
    let qi = question_index(s.questions, qid);
    assert(0 <= qi < s.questions.len() && s.questions[qi].id == qid);
    let s1 = store_toggle(s, qid, ToggleRequest::Hidden(true));
    assert(has_question(s1.questions, qid)) by {
        assert(s1.questions[qi].id == qid);
    }
    assert(question_index(s1.questions, qid) == qi) by {
        let j = question_index(s1.questions, qid);
        assert(0 <= j < s1.questions.len() && s1.questions[j].id == qid);
        assert(forall|a: int, b: int|
            0 <= a < b < s1.questions.len() ==> (#[trigger] s1.questions[a].id) != (
            #[trigger] s1.questions[b].id));
    }
    let s2 = store_toggle(s1, qid, ToggleRequest::Hidden(false));
    assert(s2.questions[qi] =~= s.questions[qi]);
    assert(s2.questions =~= s.questions);
}

/// Upserting an event preserves well-formedness: identifiers stay unique
/// and every question's event remains present.
proof fn assert_upsert_event_wf(s: StoreV, ev: EventV)
    requires
        s.wf(),
    ensures
        (StoreV { events: upsert_event(s.events, ev), questions: s.questions }).wf(),
{
    let es2 = upsert_event(s.events, ev);
    if has_event(s.events, ev.id) {
        let i = event_index(s.events, ev.id);
        assert(0 <= i < s.events.len() && s.events[i].id == ev.id);
        assert forall|k: int| 0 <= k < s.questions.len() implies has_event(
            es2,
            (#[trigger] s.questions[k]).eid,
        ) by {
            let j = event_index(s.events, s.questions[k].eid);
            assert(0 <= j < s.events.len() && s.events[j].id == s.questions[k].eid);
            assert(es2[j].id == s.questions[k].eid);
        }
    } else {
        assert forall|k: int| 0 <= k < s.questions.len() implies has_event(
            es2,
            (#[trigger] s.questions[k]).eid,
        ) by {
            let j = event_index(s.events, s.questions[k].eid);
            assert(0 <= j < s.events.len() && s.events[j].id == s.questions[k].eid);
            assert(es2[j].id == s.questions[k].eid);
        }
    }
}

} // verus!
