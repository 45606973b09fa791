use wewerewondering_api::rank::{rank, top_n_sort, TOP_N};
use wewerewondering_api::store::ListEntry;
use wewerewondering_api::Id;

#[test]
fn test_top_n_sort() {
    let mut vec: Vec<i32> = vec![4, 5, 9, 8, 1, 3];
    top_n_sort(&mut vec, 2);
    assert_eq!(vec, vec![9, 8, 5, 4, 1, 3]);

    let mut vec: Vec<i32> = vec![9, 8, 1, 3];
    top_n_sort(&mut vec, 2);
    assert_eq!(vec, vec![9, 8, 1, 3]);

    let mut vec: Vec<i32> = vec![9];
    top_n_sort(&mut vec, 2);
    assert_eq!(vec, vec![9]);

    let mut vec: Vec<i32> = vec![4, 5, 9, 8, 1, 3];
    top_n_sort(&mut vec, 10);
    assert_eq!(vec, vec![9, 8, 5, 4, 3, 1]);

    let mut vec: Vec<i32> = vec![4, 5, 9, 8];
    top_n_sort(&mut vec, 4);
    assert_eq!(vec, vec![9, 8, 5, 4]);
}

// entries whose identifier embeds the given creation time (in ms)
fn entry(ts_ms: u64, tag: u64, votes: u64, hidden: bool, answered: Option<u64>) -> ListEntry {
    ListEntry {
        id: Id {
            bits: (ts_ms as u128) << 80 | tag as u128,
        },
        votes,
        hidden,
        answered,
    }
}

const T0: u64 = 1_700_000_000_000;

#[test]
fn tier_priority_beats_votes() {
    // one pending-visible question with 1 vote, one answered question with
    // 100 votes: the pending-visible one comes first regardless
    let pending = entry(T0, 1, 1, false, None);
    let answered = entry(T0, 2, 100, false, Some(123));
    let out = rank(&vec![answered, pending], false, T0);
    assert_eq!(out.len(), 2);
    assert_eq!(out[0].id, pending.id);
    assert_eq!(out[1].id, answered.id);

    // a hidden question ranks like an answered one for the host
    let hidden = entry(T0, 3, 100, true, None);
    let out = rank(&vec![hidden, pending], true, T0);
    assert_eq!(out[0].id, pending.id);
    assert_eq!(out[1].id, hidden.id);
}

#[test]
fn hidden_questions_invisible_to_guests() {
    let shown = entry(T0, 1, 5, false, None);
    let hidden = entry(T0, 2, 50, true, None);
    let guest = rank(&vec![shown, hidden], false, T0);
    assert_eq!(guest.len(), 1);
    assert_eq!(guest[0].id, shown.id);
    assert!(guest.iter().all(|e| !e.hidden));

    let host = rank(&vec![shown, hidden], true, T0);
    assert_eq!(host.len(), 2);
    assert!(host.iter().any(|e| e.id.bits == hidden.id.bits));
}

#[test]
fn votes_order_within_tier_and_ties_keep_order() {
    let a = entry(T0, 1, 3, false, None);
    let b = entry(T0, 2, 7, false, None);
    let c = entry(T0, 3, 7, false, None);
    let out = rank(&vec![a, b, c], false, T0);
    // higher votes first; the two tied questions keep their input order
    assert_eq!(out[0].id, b.id);
    assert_eq!(out[1].id, c.id);
    assert_eq!(out[2].id, a.id);
}

#[test]
fn remainder_ordered_by_hotness() {
    // fill the top slice with high-vote questions, then two beyond it with
    // equal votes but different ages: the newer one scores hotter
    let mut input = Vec::new();
    for k in 0..TOP_N as u64 {
        input.push(entry(T0, 100 + k, 1000, false, None));
    }
    let old = entry(T0 - 100 * 60 * 1000, 1, 1, false, None);
    let fresh = entry(T0, 2, 1, false, None);
    input.push(old);
    input.push(fresh);

    let now = T0 + 1000;
    let out = rank(&input, false, now);
    assert_eq!(out.len(), TOP_N + 2);
    // the top slice holds the high-vote questions
    for e in &out[..TOP_N] {
        assert_eq!(e.votes, 1000);
    }
    // beyond it, the fresher question (higher score) comes first even
    // though it was submitted later
    assert_eq!(out[TOP_N].id, fresh.id);
    assert_eq!(out[TOP_N + 1].id, old.id);
}

#[test]
fn hotness_is_votes_over_age() {
    // beyond the top slice, score = max(votes, 1) / (age_minutes + 1):
    // 3 votes at 5 minutes scores 3/6 = 0.5; 2 votes at 2 minutes scores
    // 2/3, so the younger question wins despite fewer votes
    let mut input = Vec::new();
    for k in 0..TOP_N as u64 {
        input.push(entry(T0, 100 + k, 1000, false, None));
    }
    let older = entry(T0 - 5 * 60 * 1000, 1, 3, false, None);
    let younger = entry(T0 - 2 * 60 * 1000, 2, 2, false, None);
    input.push(older);
    input.push(younger);

    let out = rank(&input, false, T0);
    assert_eq!(out[TOP_N].id, younger.id);
    assert_eq!(out[TOP_N + 1].id, older.id);

    // with 4 votes instead, the older question scores 4/6 = 2/3, a tie:
    // neither is strictly hotter, and the selection order stands
    let older_stronger = entry(T0 - 5 * 60 * 1000, 1, 4, false, None);
    let mut tied = input.clone();
    tied[TOP_N] = older_stronger;
    let out = rank(&tied, false, T0);
    let tail: Vec<u64> = out[TOP_N..].iter().map(|e| e.votes).collect();
    assert_eq!(tail.len(), 2);
    assert!(tail.contains(&4) && tail.contains(&2));
}

#[test]
fn rank_of_empty_snapshot() {
    let out = rank(&vec![], false, T0);
    assert!(out.is_empty());
}
