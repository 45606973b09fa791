use wewerewondering_api::session::{self, ApiError, Property};
use wewerewondering_api::store::{Store, ToggleRequest};
use wewerewondering_api::{Id, UpDown};

const NOW: u64 = 1_700_000_000;
const NOW_MS: u64 = 1_700_000_000_000;

fn unknown_event() -> Id {
    Id::parse("00000000000000000000000001").unwrap()
}

#[test]
fn new_local() {
    let mut store = Store::new();
    let (eid, secret) = session::new(&mut store, NOW);
    assert_eq!(secret.len(), 30);
    assert!(secret.chars().all(|c| c.is_ascii_alphanumeric()));
    assert_eq!(session::event(&store, eid), Ok(()));
    store.delete_event(eid);
    assert_eq!(session::event(&store, eid), Err(ApiError::NotFound));
}

#[test]
fn ask_local() {
    let mut store = Store::new();
    let (eid, _secret) = session::new(&mut store, NOW);
    let q = session::ask(
        &mut store,
        eid,
        "hello world".into(),
        Some("person".into()),
        NOW,
    );
    assert!(q.is_ok());
    // the list tests check that it is actually returned
    store.delete_event(eid);
}

#[test]
fn ask_rejects_invalid_text() {
    let mut store = Store::new();
    let (eid, _secret) = session::new(&mut store, NOW);
    for bad in ["", "   ", "hello", "  hello  ", "\t\n"] {
        assert_eq!(
            session::ask(&mut store, eid, bad.into(), None, NOW),
            Err(ApiError::BadRequest),
            "text {bad:?} should have been rejected"
        );
    }
    assert!(session::ask(&mut store, eid, "  hello world  ".into(), None, NOW).is_ok());
}

#[test]
fn ask_unknown_event() {
    let mut store = Store::new();
    assert_eq!(
        session::ask(&mut store, unknown_event(), "hello world".into(), None, NOW),
        Err(ApiError::NotFound)
    );
}

#[test]
fn list_local() {
    let mut store = Store::new();
    let (eid, secret) = session::new(&mut store, NOW);
    let qid = session::ask(&mut store, eid, "hello world".into(), None, NOW).unwrap();

    let check = |entries: Vec<wewerewondering_api::store::ListEntry>| {
        assert_eq!(entries.len(), 1, "extra questions in response: {entries:?}");
        let q = &entries[0];
        assert_eq!(q.id, qid, "newly created question was not listed");
        assert_eq!(q.votes, 1);
        assert_eq!(q.answered, None);
        assert!(!q.hidden);
    };

    check(session::list_all(&store, eid, &secret, NOW_MS).unwrap());
    check(session::list(&store, eid, NOW_MS).unwrap());

    // lookup with wrong secret is unauthorized
    assert_eq!(
        session::list_all(&store, eid, "wrong", NOW_MS),
        Err(ApiError::Unauthorized)
    );

    // lookup for a non-existing event with a secret is not found
    assert_eq!(
        session::list_all(&store, unknown_event(), &secret, NOW_MS),
        Err(ApiError::NotFound)
    );

    store.delete_event(eid);

    // lookup for an empty but existing event succeeds
    let (eid, _secret) = session::new(&mut store, NOW);
    assert!(session::list(&store, eid, NOW_MS).unwrap().is_empty());
    store.delete_event(eid);

    // lookup for a non-existing event without a secret is not found
    assert_eq!(
        session::list(&store, unknown_event(), NOW_MS),
        Err(ApiError::NotFound)
    );
}

#[test]
fn vote_local() {
    let mut store = Store::new();
    let (eid, _secret) = session::new(&mut store, NOW);
    let qid1 = session::ask(&mut store, eid, "hello world".into(), None, NOW).unwrap();
    let qid2 = session::ask(
        &mut store,
        eid,
        "hello moon".into(),
        Some("person".into()),
        NOW,
    )
    .unwrap();

    let check = |entries: Vec<wewerewondering_api::store::ListEntry>, expect: &[(Id, u64)]| {
        for (was, should_be) in entries.iter().zip(expect) {
            assert_eq!(was.id, should_be.0);
            assert_eq!(was.votes, should_be.1);
        }
    };

    assert_eq!(session::vote(&mut store, qid2, UpDown::Up), Ok(2));
    check(
        session::list(&store, eid, NOW_MS).unwrap(),
        &[(qid2, 2), (qid1, 1)],
    );

    assert_eq!(session::vote(&mut store, qid1, UpDown::Up), Ok(2));
    assert_eq!(session::vote(&mut store, qid2, UpDown::Down), Ok(1));
    check(
        session::list(&store, eid, NOW_MS).unwrap(),
        &[(qid1, 2), (qid2, 1)],
    );

    store.delete_event(eid);
}

#[test]
fn vote_floor_at_zero() {
    let mut store = Store::new();
    let (eid, _secret) = session::new(&mut store, NOW);
    let qid = session::ask(&mut store, eid, "hello world".into(), None, NOW).unwrap();
    // starting from the asker's own vote, down-votes stop at zero
    assert_eq!(session::vote(&mut store, qid, UpDown::Down), Ok(0));
    assert_eq!(session::vote(&mut store, qid, UpDown::Down), Ok(0));
    assert_eq!(session::vote(&mut store, qid, UpDown::Up), Ok(1));
    assert_eq!(session::vote(&mut store, qid, UpDown::Down), Ok(0));
}

#[test]
fn vote_unknown_question() {
    let mut store = Store::new();
    assert_eq!(
        session::vote(&mut store, unknown_event(), UpDown::Up),
        Err(ApiError::Internal)
    );
}

#[test]
fn toggle_local() {
    let mut store = Store::new();
    let (eid, secret) = session::new(&mut store, NOW);
    let qid = session::ask(&mut store, eid, "hello world".into(), None, NOW).unwrap();

    let check = |entries: Vec<wewerewondering_api::store::ListEntry>,
                 expect: Option<(bool, Option<u64>, u64)>| {
        let q = entries.iter().find(|q| q.id == qid);
        if let Some((hidden, answered, votes)) = expect {
            let q = q.expect("newly created question was not listed");
            assert_eq!(q.votes, votes);
            assert_eq!(q.answered, answered);
            assert_eq!(q.hidden, hidden);
            assert_eq!(entries.len(), 1, "extra questions in response");
        } else {
            assert!(q.is_none(), "hidden question was listed: {entries:?}");
        }
    };

    // only the host should see a hidden question
    let res = session::toggle(&mut store, eid, &secret, qid, Property::Hidden, "on", NOW);
    assert_eq!(res, Ok(ToggleRequest::Hidden(true)));
    check(
        session::list_all(&store, eid, &secret, NOW_MS).unwrap(),
        Some((true, None, 1)),
    );
    check(session::list(&store, eid, NOW_MS).unwrap(), None);

    // and it should toggle back
    let res = session::toggle(&mut store, eid, &secret, qid, Property::Hidden, "off", NOW);
    assert_eq!(res, Ok(ToggleRequest::Hidden(false)));

    // and should now show up as answered
    let answered_at = NOW + 5;
    let res = session::toggle(
        &mut store,
        eid,
        &secret,
        qid,
        Property::Answered,
        "on",
        answered_at,
    );
    assert_eq!(res, Ok(ToggleRequest::Answered(Some(answered_at))));
    check(
        session::list_all(&store, eid, &secret, NOW_MS).unwrap(),
        Some((false, Some(answered_at), 1)),
    );
    check(
        session::list(&store, eid, NOW_MS).unwrap(),
        Some((false, Some(answered_at), 1)),
    );

    // answered should toggle back too
    let res = session::toggle(&mut store, eid, &secret, qid, Property::Answered, "off", NOW);
    assert_eq!(res, Ok(ToggleRequest::Answered(None)));
    check(
        session::list_all(&store, eid, &secret, NOW_MS).unwrap(),
        Some((false, None, 1)),
    );
    check(
        session::list(&store, eid, NOW_MS).unwrap(),
        Some((false, None, 1)),
    );

    store.delete_event(eid);
}

#[test]
fn toggle_requires_auth_and_valid_body() {
    let mut store = Store::new();
    let (eid, secret) = session::new(&mut store, NOW);
    let qid = session::ask(&mut store, eid, "hello world".into(), None, NOW).unwrap();

    assert_eq!(
        session::toggle(&mut store, eid, "wrong", qid, Property::Hidden, "on", NOW),
        Err(ApiError::Unauthorized)
    );
    assert_eq!(
        session::toggle(
            &mut store,
            unknown_event(),
            &secret,
            qid,
            Property::Hidden,
            "on",
            NOW
        ),
        Err(ApiError::NotFound)
    );
    assert_eq!(
        session::toggle(&mut store, eid, &secret, qid, Property::Hidden, "maybe", NOW),
        Err(ApiError::BadRequest)
    );
    // nothing of the above changed the question
    let entries = session::list(&store, eid, NOW_MS).unwrap();
    assert_eq!(entries.len(), 1);
    assert!(!entries[0].hidden);
}

#[test]
fn toggle_on_then_off_restores_visibility() {
    let mut store = Store::new();
    let (eid, secret) = session::new(&mut store, NOW);
    let qid = session::ask(&mut store, eid, "hello world".into(), None, NOW).unwrap();

    let guest_before = session::list(&store, eid, NOW_MS).unwrap();
    let host_before = session::list_all(&store, eid, &secret, NOW_MS).unwrap();

    session::toggle(&mut store, eid, &secret, qid, Property::Hidden, "on", NOW).unwrap();
    session::toggle(&mut store, eid, &secret, qid, Property::Hidden, "off", NOW).unwrap();

    let guest_after = session::list(&store, eid, NOW_MS).unwrap();
    let host_after = session::list_all(&store, eid, &secret, NOW_MS).unwrap();
    assert_eq!(guest_before.len(), guest_after.len());
    assert_eq!(host_before.len(), host_after.len());
    for (b, a) in guest_before.iter().zip(guest_after.iter()) {
        assert_eq!(b.id, a.id);
        assert_eq!(b.votes, a.votes);
        assert_eq!(b.hidden, a.hidden);
        assert_eq!(b.answered, a.answered);
    }
    for (b, a) in host_before.iter().zip(host_after.iter()) {
        assert_eq!(b.id, a.id);
        assert_eq!(b.votes, a.votes);
        assert_eq!(b.hidden, a.hidden);
        assert_eq!(b.answered, a.answered);
    }
}

#[test]
fn questions_local() {
    let mut store = Store::new();
    let (eid, _secret) = session::new(&mut store, NOW);
    let qid1 = session::ask(&mut store, eid, "hello world".into(), None, NOW).unwrap();
    let qid2 = session::ask(
        &mut store,
        eid,
        "hello moon".into(),
        Some("person".into()),
        NOW,
    )
    .unwrap();

    let list = format!("{},{}", qid1.encode(), qid2.encode());
    let infos = session::questions(&store, &list).unwrap();
    assert_eq!(infos.len(), 2);

    let q1 = &infos[0];
    assert_eq!(q1.id, qid1);
    assert_eq!(q1.text, "hello world");
    assert_eq!(q1.who, None);
    assert_eq!(q1.when, NOW);
    let q2 = &infos[1];
    assert_eq!(q2.id, qid2);
    assert_eq!(q2.text, "hello moon");
    assert_eq!(q2.who.as_deref(), Some("person"));
    assert_eq!(q2.when, NOW);

    store.delete_event(eid);
}

#[test]
fn questions_unknown_ids() {
    let mut store = Store::new();
    let (eid, _secret) = session::new(&mut store, NOW);
    let qid = session::ask(&mut store, eid, "hello world".into(), None, NOW).unwrap();

    // a malformed identifier list is rejected outright
    assert_eq!(
        session::questions(&store, "not-a-ulid"),
        Err(ApiError::BadRequest)
    );
    assert_eq!(session::questions(&store, ""), Err(ApiError::BadRequest));
    assert_eq!(
        session::questions(&store, &format!("{},", qid.encode())),
        Err(ApiError::BadRequest)
    );

    // an unknown identifier mixed with a valid one is omitted
    let mixed = format!("{},{}", qid.encode(), unknown_event().encode());
    let infos = session::questions(&store, &mixed).unwrap();
    assert_eq!(infos.len(), 1);
    assert_eq!(infos[0].id, qid);

    // when none of the named questions exists, the lookup is not found
    assert_eq!(
        session::questions(&store, &unknown_event().encode()),
        Err(ApiError::NotFound)
    );
}

#[test]
fn batch_get_reports_missing() {
    let mut store = Store::new();
    let (eid, _secret) = session::new(&mut store, NOW);
    let qid = session::ask(&mut store, eid, "hello world".into(), None, NOW).unwrap();
    let missing_id = unknown_event();
    let got = store.batch_get(&vec![qid, missing_id]);
    assert_eq!(got.found.len(), 1);
    assert_eq!(got.found[0].id, qid);
    assert_eq!(got.missing, vec![missing_id]);
}

#[test]
fn question_text_lookup() {
    let mut store = Store::new();
    let (eid, _secret) = session::new(&mut store, NOW);
    let qid = session::ask(&mut store, eid, "hello world".into(), None, NOW).unwrap();
    assert_eq!(session::question(&store, qid), Ok("hello world".to_string()));
    assert_eq!(
        session::question(&store, unknown_event()),
        Err(ApiError::Internal)
    );
}

#[test]
fn secrets_gate_access() {
    let mut store = Store::new();
    let (eid, secret) = session::new(&mut store, NOW);
    assert_eq!(session::check_secret(&store, eid, &secret), Ok(()));
    assert_eq!(
        session::check_secret(&store, eid, "nope"),
        Err(ApiError::Unauthorized)
    );
    assert_eq!(
        session::check_secret(&store, unknown_event(), &secret),
        Err(ApiError::NotFound)
    );
    assert_eq!(session::get_secret(&store, eid), Ok(secret));
    assert_eq!(
        session::get_secret(&store, unknown_event()),
        Err(ApiError::NotFound)
    );
}

#[test]
fn id_text_round_trip() {
    // the canonical all-zero identifier and a small value
    let one = Id::parse("00000000000000000000000001").unwrap();
    assert_eq!(one.bits, 1);
    let zero = Id { bits: 0 };
    assert_eq!(zero.encode(), "00000000000000000000000000");
    let some = Id {
        bits: 0x0123_4567_89ab_cdef_0123_4567_89ab_cdef,
    };
    let text = some.encode();
    assert_eq!(text.len(), 26);
    assert_eq!(Id::parse(&text), Some(some));
    assert_eq!(Id::parse("x"), None);
    assert_eq!(Id::parse(""), None);
}

#[test]
fn id_embeds_creation_time() {
    let ts_ms: u64 = 1_700_000_123_456;
    let id = Id {
        bits: (ts_ms as u128) << 80 | 0x1234,
    };
    assert_eq!(id.timestamp_ms(), ts_ms);
    let generated = Id::generate();
    // a freshly generated identifier carries a recent, plausible timestamp
    assert!(generated.timestamp_ms() > 1_500_000_000_000);
}
