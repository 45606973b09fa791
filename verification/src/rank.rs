//! The ranking engine.
//!
//! A listing shows, for a given viewer, a filtered snapshot of an event's
//! questions in two parts: an exactly selected and ordered top slice,
//! ranked by tier (pending and visible before answered or hidden) and then
//! by votes, followed by the remaining questions ordered by a time-decayed
//! hotness score. The selection primitive `top_n_sort` rearranges a vector
//! so that its prefix holds the largest elements in descending order,
//! without fully sorting the rest.

use vstd::prelude::*;
use vstd::std_specs::cmp::OrdSpec;

use core::cmp::Ordering;

use crate::ids::id_timestamp_ms;
use crate::store::ListEntry;

verus! {

/// How many questions the exactly ordered top slice of a listing holds.
pub const TOP_N: usize = 20;

/// Descending order: `a` may stand before `b` when `a` is not below `b`.
pub open spec fn sort_ge<T: Ord>(a: T, b: T) -> bool {
    a.cmp_spec(&b) != Ordering::Less
}

/// The smaller of two integers.
pub open spec fn min_int(a: int, b: int) -> int {
    if a <= b {
        a
    } else {
        b
    }
}

/// The first `min(top, len)` elements stand in descending order.
pub open spec fn sorted_prefix<T: Ord>(s: Seq<T>, top: int) -> bool {
    forall|a: int, b: int|
        0 <= a < b < min_int(top, s.len() as int) ==> #[trigger] sort_ge(s[a], s[b])
}

/// Everything after the prefix is bounded by the prefix's last element.
pub open spec fn prefix_dominates<T: Ord>(s: Seq<T>, top: int, upto: int) -> bool {
    forall|j: int|
        min_int(top, upto) <= j < upto ==> #[trigger] sort_ge(
            s[min_int(top, upto) - 1],
            s[j],
        )
}

/// The laws `top_n_sort` asks of its element order: the comparison is a
/// total preorder whose two directions agree. They hold of integers and of
/// tuples of integers.
pub open spec fn total_order_laws<T: Ord>() -> bool {
    &&& forall|a: T, b: T| #[trigger] sort_ge(a, b) || #[trigger] sort_ge(b, a)
    &&& forall|a: T, b: T, c: T|
        #[trigger] sort_ge(a, b) && #[trigger] sort_ge(b, c) ==> sort_ge(a, c)
    &&& forall|a: T, b: T|
        (#[trigger] a.cmp_spec(&b)) == Ordering::Less <==> b.cmp_spec(&a) == Ordering::Greater
}

/// Where a new element belongs in the descending prefix `vec[..high]`:
/// directly before the first element it beats, after any it ties with.
fn insertion_point<T: Ord>(vec: &Vec<T>, high: usize, key: &T) -> (pos: usize)
    requires
        high <= vec@.len(),
        T::obeys_cmp_spec(),
    ensures
        pos <= high,
        forall|q: int| 0 <= q < pos ==> (#[trigger] (*key).cmp_spec(&vec@[q])) != Ordering::Greater,
        pos < high ==> (*key).cmp_spec(&vec@[pos as int]) == Ordering::Greater,
{
    let mut pos: usize = 0;
    while pos < high
        invariant
            pos <= high,
            high <= vec@.len(),
            T::obeys_cmp_spec(),
            forall|q: int|
                0 <= q < pos ==> (#[trigger] (*key).cmp_spec(&vec@[q])) != Ordering::Greater,
        decreases high - pos,
    {
        let c = key.cmp(&vec[pos]);
        match c {
            Ordering::Greater => {
                return pos;
            },
            _ => {},
        }
        pos += 1;
    }
    pos
}

/// Moving one element of a sequence somewhere else leaves its contents
/// unchanged.
proof fn lemma_move_element_multiset<T>(v0: Seq<T>, i: int, pos: int)
    requires
        0 <= i < v0.len(),
        0 <= pos <= v0.len() - 1,
    ensures
        v0.remove(i).insert(pos, v0[i]).to_multiset() == v0.to_multiset(),
{
    broadcast use vstd::seq_lib::group_to_multiset_ensures;

    let key = v0[i];
    let v1 = v0.remove(i);
    let v2 = v1.insert(pos, key);
    v0.remove_ensures(i);
    v1.insert_ensures(pos, key);
    assert(v2.remove(pos) =~= v1);
    assert(v1.to_multiset() == v0.to_multiset().remove(key));
    assert(v2.remove(pos).to_multiset() == v2.to_multiset().remove(v2[pos]));
    assert(v0.contains(key));
    assert(v2.contains(key)) by {
        assert(v2[pos] == key);
    }
    assert(v0.to_multiset().count(key) > 0);
    assert(v2.to_multiset().count(key) > 0);
    assert forall|x: T| v2.to_multiset().count(x) == v0.to_multiset().count(x) by {
        assert(v2.to_multiset().remove(key).count(x) == v0.to_multiset().remove(key).count(x));
        broadcast use vstd::multiset::group_multiset_axioms;

    }
    assert(v2.to_multiset() =~= v0.to_multiset());
}

/// What one insertion step of `top_n_sort` does to the ordering facts.
proof fn lemma_insert_step<T: Ord>(v0: Seq<T>, i: int, pos: int, top: int)
    requires
        total_order_laws::<T>(),
        1 <= top,
        1 <= i < v0.len(),
        0 <= pos <= min_int(top, i),
        sorted_prefix(v0, min_int(top, i)),
        prefix_dominates(v0, top, i),
        v0[min_int(top, i) - 1].cmp_spec(&v0[i]) != Ordering::Greater,
        forall|q: int|
            0 <= q < pos ==> (#[trigger] v0[i].cmp_spec(&v0[q])) != Ordering::Greater,
        pos < min_int(top, i) ==> v0[i].cmp_spec(&v0[pos]) == Ordering::Greater,
    ensures
        ({
            let v2 = v0.remove(i).insert(pos, v0[i]);
            &&& v2.len() == v0.len()
            &&& v2.to_multiset() == v0.to_multiset()
            &&& sorted_prefix(v2, min_int(top, i + 1))
            &&& prefix_dominates(v2, top, i + 1)
            &&& forall|q: int| i < q < v0.len() ==> v2[q] == v0[q]
        }),
{
    let h = min_int(top, i);
    let m = min_int(top, i + 1);
    let key = v0[i];
    let v1 = v0.remove(i);
    let v2 = v1.insert(pos, key);
    v0.remove_ensures(i);
    v1.insert_ensures(pos, key);
    lemma_move_element_multiset(v0, i, pos);

    // where each element of the new arrangement comes from
    assert(forall|q: int| 0 <= q < pos ==> v2[q] == v0[q]);
    assert(v2[pos] == key);
    assert(forall|q: int| pos < q <= i ==> v2[q] == v0[q - 1]);
    assert forall|q: int| i < q < v0.len() implies v2[q] == v0[q] by {
        assert(v2[q] == v1[q - 1]);
        assert(v1[q - 1] == v0[q]);
    }

    // order facts around the moved element
    assert(sort_ge(key, v0[h - 1]));
    assert(forall|q: int| 0 <= q < pos ==> sort_ge(#[trigger] v0[q], key));
    assert forall|q: int| pos <= q < h implies sort_ge(key, #[trigger] v0[q]) by {
        assert(sort_ge(key, v0[pos]));
        if pos < q {
            assert(sort_ge(v0[pos], v0[q]));
        }
    }

    assert forall|a: int, b: int| 0 <= a < b < m implies #[trigger] sort_ge(v2[a], v2[b]) by {
        if b < pos {
            assert(sort_ge(v0[a], v0[b]));
        } else if b == pos {
            assert(sort_ge(v0[a], key));
        } else if a < pos {
            assert(sort_ge(v0[a], v0[b - 1]));
        } else if a == pos {
            assert(sort_ge(key, v0[b - 1]));
        } else {
            assert(sort_ge(v0[a - 1], v0[b - 1]));
        }
    }

    assert forall|j: int| m <= j < i + 1 implies sort_ge(v2[m - 1], #[trigger] v2[j]) by {
        // only reachable when the prefix is already full
        assert(i >= top);
        assert(h == top && m == top);
        // the last prefix element of the new arrangement
        let x = v2[m - 1];
        assert(sort_ge(x, v0[top - 1])) by {
            if pos < top - 1 {
                assert(x == v0[top - 2]);
                assert(sort_ge(v0[top - 2], v0[top - 1]));
            } else if pos == top - 1 {
                assert(x == key);
            } else {
                assert(x == v0[top - 1]);
                assert(sort_ge(x, x));
            }
        }
        if j == pos {
            // the moved element itself sits right after the prefix
            assert(v2[j] == key);
            assert(sort_ge(v0[top - 1], key));
            assert(sort_ge(x, v2[j]));
        } else {
            assert(v2[j] == v0[j - 1]);
            if j - 1 == top - 1 {
                assert(sort_ge(x, v0[top - 1]));
            } else {
                assert(sort_ge(v0[top - 1], v0[j - 1]));
                assert(sort_ge(x, v2[j]));
            }
        }
    }
}

/// Rearrange `vec` so that its first `min(top, len)` elements are the
/// largest ones, in descending order. Elements beyond the prefix are left
/// in whatever order the selection produced: this is cheaper than a full
/// sort when `top` is small, and a full descending sort when `top >= len`.
pub fn top_n_sort<T: Ord>(vec: &mut Vec<T>, top: usize)
    requires
        top >= 1,
        T::obeys_cmp_spec(),
        total_order_laws::<T>(),
    ensures
        final(vec)@.len() == old(vec)@.len(),
        final(vec)@.to_multiset() == old(vec)@.to_multiset(),
        sorted_prefix(final(vec)@, top as int),
        prefix_dominates(final(vec)@, top as int, final(vec)@.len() as int),
{
    let ghost s0 = vec@;
    let mut i: usize = 1;
    while i < vec.len()
        invariant
            T::obeys_cmp_spec(),
            total_order_laws::<T>(),
            top >= 1,
            1 <= i,
            i <= vec@.len() || vec@.len() == 0,
            vec@.len() == s0.len(),
            vec@.to_multiset() == s0.to_multiset(),
            sorted_prefix(vec@, min_int(top as int, i as int)),
            prefix_dominates(vec@, top as int, i as int),
        decreases vec@.len() - i,
    {
        let ghost v0 = vec@;
        let high = if top < i {
            top
        } else {
            i
        };
        let c = vec[high - 1].cmp(&vec[i]);
        match c {
            Ordering::Greater => {
                proof {
                    let h = min_int(top as int, i as int);
                    let m = min_int(top as int, i as int + 1);
                    assert(sort_ge(v0[h - 1], v0[i as int]));
                    assert forall|a: int, b: int| 0 <= a < b < m implies #[trigger] sort_ge(
                        v0[a],
                        v0[b],
                    ) by {
                        if b == i as int {
                            assert(m == i + 1 && h == i);
                            if a < h - 1 {
                                assert(sort_ge(v0[a], v0[h - 1]));
                            }
                        }
                    }
                    assert forall|j: int| m <= j < i + 1 implies sort_ge(
                        v0[m - 1],
                        #[trigger] v0[j],
                    ) by {
                        if j == i as int {
                            assert(h == top as int && m == top as int);
                        }
                    }
                }
            },
            _ => {
                let key = vec.remove(i);
                let pos = insertion_point(vec, high, &key);
                proof {
                    assert(key == v0[i as int]);
                    v0.remove_ensures(i as int);
                    assert(forall|q: int| 0 <= q < high ==> vec@[q] == v0[q]);
                    lemma_insert_step(v0, i as int, pos as int, top as int);
                }
                vec.insert(pos, key);
                proof {
                    assert(vec@ == v0.remove(i as int).insert(pos as int, v0[i as int]));
                }
            },
        }
        i += 1;
    }
    proof {
        if vec@.len() == 0 {
            assert(sorted_prefix(vec@, top as int));
            assert(prefix_dominates(vec@, top as int, vec@.len() as int));
        } else {
            assert(i == vec@.len());
        }
    }
}

/// The sorting key of one question: tier and votes (what the top slice is
/// selected by), then the position in the filtered snapshot (so that ties
/// keep their relative order and every key is distinct), then the
/// creation time in milliseconds (for the hotness score). Keys compare
/// lexicographically, descending on each part.
pub type RankKey = ((u64, u64), (u64, u64));

/// A vote count never scores below one.
pub open spec fn eff_votes(v: u64) -> int {
    if v == 0 {
        1
    } else {
        v as int
    }
}

/// Whole minutes since a creation time, never negative.
pub open spec fn age_minutes(ts_ms: u64, now_ms: u64) -> int {
    if now_ms >= ts_ms {
        (((now_ms - ts_ms) as int) / 1000) / 60
    } else {
        0
    }
}

/// The hotness score of a question is its effective votes decayed by age:
/// `votes / (age_minutes + 1)`. One question is strictly hotter than
/// another when its score is strictly greater, compared exactly by cross
/// multiplication.
pub open spec fn key_hotter(a: RankKey, b: RankKey, now_ms: u64) -> bool {
    eff_votes(a.0.1) * (age_minutes(b.1.1, now_ms) + 1) > eff_votes(b.0.1) * (age_minutes(
        a.1.1,
        now_ms,
    ) + 1)
}

/// One question scores at least as hot as another.
pub open spec fn key_score_ge(a: RankKey, b: RankKey, now_ms: u64) -> bool {
    eff_votes(a.0.1) * (age_minutes(b.1.1, now_ms) + 1) >= eff_votes(b.0.1) * (age_minutes(
        a.1.1,
        now_ms,
    ) + 1)
}

/// Descending order by score.
pub open spec fn score_sorted(s: Seq<RankKey>, now_ms: u64) -> bool {
    forall|a: int, b: int|
        0 <= a < b < s.len() ==> #[trigger] key_score_ge(s[a], s[b], now_ms)
}

/// Whole minutes since a creation time.
fn age_minutes_exec(ts_ms: u64, now_ms: u64) -> (r: u64)
    ensures
        r == age_minutes(ts_ms, now_ms),
{
    if now_ms >= ts_ms {
        ((now_ms - ts_ms) / 1000) / 60
    } else {
        0
    }
}

/// Whether `a` is strictly hotter than `b`.
fn hotter(a: &RankKey, b: &RankKey, now_ms: u64) -> (r: bool)
    ensures
        r == key_hotter(*a, *b, now_ms),
{
    let ea: u64 = if a.0.1 == 0 {
        1
    } else {
        a.0.1
    };
    let eb: u64 = if b.0.1 == 0 {
        1
    } else {
        b.0.1
    };
    let da: u128 = age_minutes_exec(a.1.1, now_ms) as u128 + 1;
    let db: u128 = age_minutes_exec(b.1.1, now_ms) as u128 + 1;
    proof {
        assert((ea as int) * (db as int) <= (u64::MAX as int) * (u64::MAX as int + 1))
            by (nonlinear_arith)
            requires
                0 <= ea <= u64::MAX as int,
                0 <= db <= u64::MAX as int + 1,
        ;
        assert((eb as int) * (da as int) <= (u64::MAX as int) * (u64::MAX as int + 1))
            by (nonlinear_arith)
            requires
                0 <= eb <= u64::MAX as int,
                0 <= da <= u64::MAX as int + 1,
        ;
    }
    (ea as u128) * db > (eb as u128) * da
}

/// Scores are transitive: exact cross multiplication of non-negative
/// quantities preserves the order.
proof fn lemma_score_ge_trans(va: int, da: int, vb: int, db: int, vc: int, dc: int)
    requires
        va >= 1,
        vb >= 1,
        vc >= 1,
        da >= 1,
        db >= 1,
        dc >= 1,
        va * db >= vb * da,
        vb * dc >= vc * db,
    ensures
        va * dc >= vc * da,
{
    assert((va * dc) * db >= (vc * da) * db) by (nonlinear_arith)
        requires
            va * db >= vb * da,
            vb * dc >= vc * db,
            da >= 1,
            db >= 1,
            dc >= 1,
    ;
    assert(va * dc >= vc * da) by (nonlinear_arith)
        requires
            (va * dc) * db >= (vc * da) * db,
            db >= 1,
    ;
}

/// Transitivity in terms of keys.
proof fn lemma_key_score_ge_trans(a: RankKey, b: RankKey, c: RankKey, now_ms: u64)
    requires
        key_score_ge(a, b, now_ms),
        key_score_ge(b, c, now_ms),
    ensures
        key_score_ge(a, c, now_ms),
{
    lemma_score_ge_trans(
        eff_votes(a.0.1),
        age_minutes(a.1.1, now_ms) + 1,
        eff_votes(b.0.1),
        age_minutes(b.1.1, now_ms) + 1,
        eff_votes(c.0.1),
        age_minutes(c.1.1, now_ms) + 1,
    );
}

/// A new element inserted into a score-ordered sequence: it goes directly
/// before the first element it strictly beats, so elements it ties with
/// keep their place before it.
spec fn insert_by_score(s: Seq<RankKey>, x: RankKey, now_ms: u64) -> Seq<RankKey>
    decreases s.len(),
{
    if s.len() == 0 {
        seq![x]
    } else if key_hotter(x, s[0], now_ms) {
        seq![x] + s
    } else {
        seq![s[0]] + insert_by_score(s.drop_first(), x, now_ms)
    }
}

/// Stable descending sort by score: each element in turn inserted into
/// the sorted front.
spec fn sort_by_score(s: Seq<RankKey>, now_ms: u64) -> Seq<RankKey>
    decreases s.len(),
{
    if s.len() == 0 {
        s
    } else {
        insert_by_score(sort_by_score(s.drop_last(), now_ms), s.last(), now_ms)
    }
}

/// Where the insertion lands, element by element.
proof fn lemma_insert_by_score_at(s: Seq<RankKey>, x: RankKey, pos: int, now_ms: u64)
    requires
        0 <= pos <= s.len(),
        forall|q: int| 0 <= q < pos ==> !key_hotter(x, #[trigger] s[q], now_ms),
        pos < s.len() ==> key_hotter(x, s[pos], now_ms),
    ensures
        insert_by_score(s, x, now_ms) == s.take(pos) + seq![x] + s.skip(pos),
    decreases s.len(),
{
    if pos == 0 {
        if s.len() == 0 {
            assert(insert_by_score(s, x, now_ms) =~= s.take(0) + seq![x] + s.skip(0));
        } else {
            assert(key_hotter(x, s[0], now_ms));
            assert(seq![x] + s =~= s.take(0) + seq![x] + s.skip(0));
        }
    } else {
        assert(!key_hotter(x, s[0], now_ms));
        let d = s.drop_first();
        assert(forall|q: int| 0 <= q < pos - 1 ==> !key_hotter(x, #[trigger] d[q], now_ms)) by {
            assert(forall|q: int| 0 <= q < d.len() ==> d[q] == s[q + 1]);
        }
        assert(pos - 1 < d.len() ==> key_hotter(x, d[pos - 1], now_ms));
        lemma_insert_by_score_at(d, x, pos - 1, now_ms);
        assert(seq![s[0]] + (d.take(pos - 1) + seq![x] + d.skip(pos - 1)) =~= s.take(pos)
            + seq![x] + s.skip(pos));
    }
}

/// Insertion adds exactly the new element.
proof fn lemma_insert_by_score_multiset(s: Seq<RankKey>, x: RankKey, now_ms: u64)
    ensures
        insert_by_score(s, x, now_ms).len() == s.len() + 1,
        insert_by_score(s, x, now_ms).to_multiset() == s.to_multiset().insert(x),
    decreases s.len(),
{
    broadcast use vstd::seq_lib::group_to_multiset_ensures;
    broadcast use vstd::seq_lib::lemma_multiset_commutative;
    broadcast use vstd::multiset::group_multiset_axioms;

    let out = insert_by_score(s, x, now_ms);
    if s.len() == 0 {
        assert(seq![x] =~= Seq::<RankKey>::empty().push(x));
        assert(out.to_multiset() =~= s.to_multiset().insert(x));
    } else if key_hotter(x, s[0], now_ms) {
        assert(seq![x] =~= Seq::<RankKey>::empty().push(x));
        assert((seq![x] + s).to_multiset() == seq![x].to_multiset().add(s.to_multiset()));
        assert(out.to_multiset() =~= s.to_multiset().insert(x));
    } else {
        let d = s.drop_first();
        lemma_insert_by_score_multiset(d, x, now_ms);
        assert(seq![s[0]] =~= Seq::<RankKey>::empty().push(s[0]));
        assert(out == seq![s[0]] + insert_by_score(d, x, now_ms));
        assert(out.to_multiset() == seq![s[0]].to_multiset().add(
            insert_by_score(d, x, now_ms).to_multiset(),
        ));
        assert(s =~= seq![s[0]] + d);
        assert(s.to_multiset() == seq![s[0]].to_multiset().add(d.to_multiset()));
        assert(out.to_multiset() =~= s.to_multiset().insert(x));
    }
}

/// Insertion keeps the sequence score-ordered.
proof fn lemma_insert_by_score_sorted(s: Seq<RankKey>, x: RankKey, now_ms: u64)
    requires
        score_sorted(s, now_ms),
    ensures
        score_sorted(insert_by_score(s, x, now_ms), now_ms),
    decreases s.len(),
{
    broadcast use vstd::seq_lib::group_to_multiset_ensures;

    let out = insert_by_score(s, x, now_ms);
    if s.len() == 0 {
    } else if key_hotter(x, s[0], now_ms) {
        assert(out == seq![x] + s);
        assert forall|a: int, b: int| 0 <= a < b < out.len() implies #[trigger] key_score_ge(
            out[a],
            out[b],
            now_ms,
        ) by {
            if a == 0 {
                assert(key_score_ge(x, s[0], now_ms));
                if b > 1 {
                    assert(key_score_ge(s[0], s[b - 1], now_ms));
                    lemma_key_score_ge_trans(x, s[0], s[b - 1], now_ms);
                }
            } else {
                assert(key_score_ge(s[a - 1], s[b - 1], now_ms));
            }
        }
    } else {
        let d = s.drop_first();
        assert(score_sorted(d, now_ms)) by {
            assert(forall|q: int| 0 <= q < d.len() ==> d[q] == s[q + 1]);
            assert forall|a: int, b: int| 0 <= a < b < d.len() implies #[trigger] key_score_ge(
                d[a],
                d[b],
                now_ms,
            ) by {
                assert(key_score_ge(s[a + 1], s[b + 1], now_ms));
            }
        }
        lemma_insert_by_score_sorted(d, x, now_ms);
        lemma_insert_by_score_multiset(d, x, now_ms);
        let rest = insert_by_score(d, x, now_ms);
        assert(out == seq![s[0]] + rest);
        // the head is at least as hot as everything inserted after it
        assert forall|k: int| 0 <= k < rest.len() implies key_score_ge(
            s[0],
            #[trigger] rest[k],
            now_ms,
        ) by {
            assert(rest.to_multiset().count(rest[k]) > 0);
            assert(rest.contains(rest[k]));
            if rest[k] == x {
                assert(key_score_ge(s[0], x, now_ms));
            } else {
                assert(d.to_multiset().insert(x).count(rest[k]) > 0);
                assert(d.to_multiset().count(rest[k]) > 0);
                assert(d.contains(rest[k]));
                let w = choose|w: int| 0 <= w < d.len() && d[w] == rest[k];
                assert(d[w] == s[w + 1]);
                assert(key_score_ge(s[0], s[w + 1], now_ms));
            }
        }
        assert forall|a: int, b: int| 0 <= a < b < out.len() implies #[trigger] key_score_ge(
            out[a],
            out[b],
            now_ms,
        ) by {
            if a == 0 {
                assert(out[b] == rest[b - 1]);
            } else {
                assert(key_score_ge(rest[a - 1], rest[b - 1], now_ms));
            }
        }
    }
}

/// The stable score sort is a score-ordered permutation.
proof fn lemma_sort_by_score_ensures(s: Seq<RankKey>, now_ms: u64)
    ensures
        sort_by_score(s, now_ms).len() == s.len(),
        sort_by_score(s, now_ms).to_multiset() == s.to_multiset(),
        score_sorted(sort_by_score(s, now_ms), now_ms),
    decreases s.len(),
{
    broadcast use vstd::seq_lib::group_to_multiset_ensures;

    if s.len() > 0 {
        let d = s.drop_last();
        lemma_sort_by_score_ensures(d, now_ms);
        lemma_insert_by_score_multiset(sort_by_score(d, now_ms), s.last(), now_ms);
        lemma_insert_by_score_sorted(sort_by_score(d, now_ms), s.last(), now_ms);
        assert(s =~= d.push(s.last()));
        assert(s.to_multiset() == d.to_multiset().insert(s.last()));
    }
}

/// Where a new element belongs among the already sorted first `high`
/// elements: directly before the first one it strictly beats.
fn score_insertion_point(vec: &Vec<RankKey>, high: usize, key: &RankKey, now_ms: u64) -> (pos:
    usize)
    requires
        high <= vec@.len(),
    ensures
        pos <= high,
        forall|q: int| 0 <= q < pos ==> !key_hotter(*key, #[trigger] vec@[q], now_ms),
        pos < high ==> key_hotter(*key, vec@[pos as int], now_ms),
{
    let mut pos: usize = 0;
    while pos < high
        invariant
            pos <= high,
            high <= vec@.len(),
            forall|q: int| 0 <= q < pos ==> !key_hotter(*key, #[trigger] vec@[q], now_ms),
        decreases high - pos,
    {
        if hotter(key, &vec[pos], now_ms) {
            return pos;
        }
        pos += 1;
    }
    pos
}

/// Sort by hotness score, descending, stably: elements with equal scores
/// keep their relative order.
fn score_sort(vec: &mut Vec<RankKey>, now_ms: u64)
    ensures
        final(vec)@ == sort_by_score(old(vec)@, now_ms),
{
    let ghost s0 = vec@;
    let mut i: usize = 1;
    proof {
        if s0.len() > 0 {
            let e = Seq::<RankKey>::empty();
            assert(sort_by_score(e, now_ms) == e);
            assert(s0.take(1).drop_last() =~= e);
            assert(s0.take(1).len() == 1);
            assert(s0.take(1).last() == s0[0]);
            assert(sort_by_score(s0.take(1), now_ms) == insert_by_score(e, s0[0], now_ms));
            assert(insert_by_score(e, s0[0], now_ms) == seq![s0[0]]);
            assert(seq![s0[0]] =~= s0.take(1));
            assert(vec@ =~= s0.take(1) + s0.skip(1));
            lemma_sort_by_score_ensures(s0.take(1), now_ms);
        }
    }
    while i < vec.len()
        invariant
            1 <= i,
            i <= vec@.len() || vec@.len() == 0,
            vec@.len() == s0.len(),
            vec@.len() == 0 || vec@ == sort_by_score(s0.take(i as int), now_ms) + s0.skip(
                i as int,
            ),
            sort_by_score(s0.take(i as int), now_ms).len() == i || vec@.len() == 0,
            vec@.len() == 0 || score_sorted(sort_by_score(s0.take(i as int), now_ms), now_ms),
        decreases vec@.len() - i,
    {
        let ghost vpre = vec@;
        let ghost sorted_i = sort_by_score(s0.take(i as int), now_ms);
        proof {
            lemma_sort_by_score_ensures(s0.take(i as int), now_ms);
            assert(vpre[i as int] == s0.skip(i as int)[0]);
            assert(s0.skip(i as int)[0] == s0[i as int]);
            assert(forall|q: int| 0 <= q < i ==> vpre[q] == sorted_i[q]);
        }
        let key = vec[i];
        let pos = score_insertion_point(vec, i, &key, now_ms);
        let moved = vec.remove(i);
        vec.insert(pos, moved);
        proof {
            lemma_insert_by_score_at(sorted_i, key, pos as int, now_ms);
            assert(s0.take(i as int + 1).drop_last() =~= s0.take(i as int));
            assert(s0.take(i as int + 1).last() == s0[i as int]);
            assert(sort_by_score(s0.take(i as int + 1), now_ms) == insert_by_score(
                sorted_i,
                key,
                now_ms,
            ));
            vpre.remove_ensures(i as int);
            vpre.remove(i as int).insert_ensures(pos as int, key);
            assert(vec@ =~= sort_by_score(s0.take(i as int + 1), now_ms) + s0.skip(i as int + 1));
            lemma_sort_by_score_ensures(s0.take(i as int + 1), now_ms);
        }
        i += 1;
    }
    proof {
        if vec@.len() == 0 {
            assert(s0.len() == 0);
            assert(vec@ =~= sort_by_score(s0, now_ms));
        } else {
            assert(i == s0.len());
            assert(s0.take(i as int) =~= s0);
            assert(s0.skip(i as int) =~= Seq::<RankKey>::empty());
            assert(vec@ =~= sort_by_score(s0, now_ms));
        }
    }
}

/// A question that is neither hidden nor answered: the preferred tier.
pub open spec fn pending_visible(e: ListEntry) -> bool {
    !e.hidden && e.answered is None
}

/// The tier of a question: pending-visible questions outrank answered or
/// hidden ones; answered and hidden are equal to each other.
pub open spec fn entry_tier(e: ListEntry) -> u64 {
    if pending_visible(e) {
        1
    } else {
        0
    }
}

/// The comparator of the top slice: by tier, then by votes, descending.
pub open spec fn tier_votes_ge(a: ListEntry, b: ListEntry) -> bool {
    entry_tier(a) > entry_tier(b) || (entry_tier(a) == entry_tier(b) && a.votes >= b.votes)
}

/// What a viewer may see: with the secret everything, without it only
/// questions that are not hidden.
pub open spec fn visible_in(e: ListEntry, has_secret: bool) -> bool {
    has_secret || !e.hidden
}

/// The visibility filter as a predicate value.
pub open spec fn visible_pred(has_secret: bool) -> spec_fn(ListEntry) -> bool {
    |e: ListEntry| visible_in(e, has_secret)
}

/// The hotness comparison lifted to listing entries, with the creation
/// time read from the identifier.
pub open spec fn score_ge_entries(a: ListEntry, b: ListEntry, now_ms: u64) -> bool {
    eff_votes(a.votes) * (age_minutes(id_timestamp_ms(b.id.bits), now_ms) + 1) >= eff_votes(
        b.votes,
    ) * (age_minutes(id_timestamp_ms(a.id.bits), now_ms) + 1)
}

/// A permutation witness for a ranking: `f` names, for each output
/// position, the position in the visible snapshot the entry came from.
/// Within the top slice, entries that tie on tier and votes keep their
/// relative order of submission.
pub open spec fn rank_witness(
    vis: Seq<ListEntry>,
    output: Seq<ListEntry>,
    f: spec_fn(int) -> int,
) -> bool {
    &&& forall|s: int|
        0 <= s < output.len() ==> 0 <= #[trigger] f(s) < vis.len() && output[s] == vis[f(s)]
    &&& forall|a: int, b: int| 0 <= a < b < output.len() ==> #[trigger] f(a) != #[trigger] f(b)
    &&& forall|a: int, b: int|
        0 <= a < b < min_int(TOP_N as int, output.len() as int) && entry_tier(output[a])
            == entry_tier(output[b]) && output[a].votes == output[b].votes ==> #[trigger] f(a)
            < #[trigger] f(b)
}

/// What `rank` promises: the output is exactly the visible part of the
/// input, witnessed by a position map that keeps tied entries of the top
/// slice in submission order; the first `min(TOP_N, len)` entries are the
/// highest-ranked ones by tier and votes, in that order; everything after
/// them ranks no higher than the last of them and stands in descending
/// hotness order.
pub open spec fn rank_post(
    input: Seq<ListEntry>,
    output: Seq<ListEntry>,
    has_secret: bool,
    now_ms: u64,
) -> bool {
    let m = min_int(TOP_N as int, output.len() as int);
    &&& output.to_multiset() == input.filter(visible_pred(has_secret)).to_multiset()
    &&& exists|f: spec_fn(int) -> int|
        rank_witness(input.filter(visible_pred(has_secret)), output, f)
    &&& forall|k: int| 0 <= k < output.len() ==> visible_in(#[trigger] output[k], has_secret)
    &&& forall|a: int, b: int|
        0 <= a < b < m ==> #[trigger] tier_votes_ge(output[a], output[b])
    &&& forall|j: int| m <= j < output.len() ==> #[trigger] tier_votes_ge(output[m - 1], output[j])
    &&& forall|a: int, b: int|
        m <= a < b < output.len() ==> #[trigger] score_ge_entries(output[a], output[b], now_ms)
}

/// The key a question is ranked under, at its position in the filtered
/// snapshot: tier and votes first, then the reversed position (so that
/// earlier questions get larger keys and ties keep their relative order),
/// then the creation time for the score.
spec fn key_of(e: ListEntry, p: int) -> RankKey {
    ((entry_tier(e), e.votes), ((u64::MAX - p) as u64, id_timestamp_ms(e.id.bits)))
}

/// The position a key was built from.
spec fn key_pos(k: RankKey) -> int {
    u64::MAX - k.1.0
}

/// A key built from some position of the snapshot.
spec fn key_matches(k: RankKey, vis: Seq<ListEntry>) -> bool {
    exists|p: int| 0 <= p < vis.len() && k == #[trigger] key_of(vis[p], p)
}

/// Every key decodes to a position of the snapshot and carries that
/// entry's tier, votes and creation time.
spec fn keyed(ks: Seq<RankKey>, vis: Seq<ListEntry>) -> bool {
    forall|t: int| 0 <= t < ks.len() ==> key_matches(#[trigger] ks[t], vis)
}

/// The entry a key stands for.
spec fn entry_of_key(k: RankKey, vis: Seq<ListEntry>) -> ListEntry {
    vis[key_pos(k)]
}

/// One step of filtering a prefix, for any element type.
proof fn lemma_filter_take_step_gen<A>(s: Seq<A>, pred: spec_fn(A) -> bool, i: int)
    requires
        0 <= i < s.len(),
    ensures
        s.take(i + 1).filter(pred) == if pred(s[i]) {
            s.take(i).filter(pred).push(s[i])
        } else {
            s.take(i).filter(pred)
        },
{
    reveal(Seq::filter);
    assert(s.take(i + 1).drop_last() =~= s.take(i));
    assert(s.take(i + 1).last() == s[i]);
}

/// Mapping respects contents: sequences with the same contents map to
/// sequences with the same contents.
proof fn lemma_map_values_multiset<A, B>(s1: Seq<A>, s2: Seq<A>, f: spec_fn(A) -> B)
    requires
        s1.to_multiset() == s2.to_multiset(),
    ensures
        s1.map_values(f).to_multiset() == s2.map_values(f).to_multiset(),
    decreases s1.len(),
{
    broadcast use vstd::seq_lib::group_to_multiset_ensures;
    broadcast use vstd::multiset::group_multiset_axioms;

    if s1.len() == 0 {
        assert(s2.to_multiset().len() == 0);
        assert(s2.len() == 0);
        assert(s1.map_values(f) =~= s2.map_values(f));
    } else {
        let x = s1.last();
        assert(s1.contains(x)) by {
            assert(s1[s1.len() - 1] == x);
        }
        assert(s1.to_multiset().count(x) > 0);
        assert(s2.to_multiset().count(x) > 0);
        assert(s2.contains(x));
        let j = choose|j: int| 0 <= j < s2.len() && s2[j] == x;
        let s1d = s1.drop_last();
        let s2r = s2.remove(j);
        assert(s1.remove(s1.len() - 1) =~= s1d);
        assert(s1.remove(s1.len() - 1).to_multiset() == s1.to_multiset().remove(x));
        assert(s2r.to_multiset() == s2.to_multiset().remove(x));
        lemma_map_values_multiset(s1d, s2r, f);
        assert(s1.map_values(f) =~= s1d.map_values(f).push(f(x)));
        assert(s1.map_values(f).to_multiset() == s1d.map_values(f).to_multiset().insert(f(x)));
        assert(s2.map_values(f).remove(j) =~= s2r.map_values(f));
        assert(s2.map_values(f).remove(j).to_multiset() == s2.map_values(f).to_multiset().remove(
            f(x),
        ));
        assert(s2.map_values(f).contains(f(x))) by {
            assert(s2.map_values(f)[j] == f(x));
        }
        assert(s2.map_values(f).to_multiset().count(f(x)) > 0);
        assert forall|y: B|
            s1.map_values(f).to_multiset().count(y) == s2.map_values(f).to_multiset().count(
                y,
            ) by {
            assert(s1d.map_values(f).to_multiset().count(y) == s2r.map_values(f).to_multiset()
                .count(y));
        }
        assert(s1.map_values(f).to_multiset() =~= s2.map_values(f).to_multiset());
    }
}

/// Keys stay tied to the snapshot under any rearrangement.
proof fn lemma_keyed_from_multiset(ks: Seq<RankKey>, orig: Seq<RankKey>, vis: Seq<ListEntry>)
    requires
        ks.to_multiset() == orig.to_multiset(),
        keyed(orig, vis),
    ensures
        keyed(ks, vis),
{
    broadcast use vstd::seq_lib::group_to_multiset_ensures;

    assert forall|t: int| 0 <= t < ks.len() implies key_matches(#[trigger] ks[t], vis) by {
        assert(ks.contains(ks[t])) by {
            assert(ks[t] == ks[t]);
        }
        assert(ks.to_multiset().count(ks[t]) > 0);
        assert(orig.to_multiset().count(ks[t]) > 0);
        assert(orig.contains(ks[t]));
        let w = choose|w: int| 0 <= w < orig.len() && orig[w] == ks[t];
        assert(key_matches(orig[w], vis));
    }
}

/// A key ordered at least as high ranks its entry at least as high by
/// tier and votes.
proof fn lemma_key_ge_entries(e1: ListEntry, p1: int, e2: ListEntry, p2: int)
    requires
        sort_ge(key_of(e1, p1), key_of(e2, p2)),
    ensures
        tier_votes_ge(e1, e2),
{
}

/// The order laws hold of ranking keys: tuples of integers compare as a
/// total order.
proof fn lemma_rankkey_laws()
    ensures
        <RankKey as OrdSpec>::obeys_cmp_spec(),
        total_order_laws::<RankKey>(),
{
    assert(<RankKey as OrdSpec>::obeys_cmp_spec());
    assert forall|a: RankKey, b: RankKey| #[trigger] sort_ge(a, b) || #[trigger] sort_ge(
        b,
        a,
    ) by {}
    assert forall|a: RankKey, b: RankKey, c: RankKey|
        #[trigger] sort_ge(a, b) && #[trigger] sort_ge(b, c) implies sort_ge(a, c) by {}
    assert forall|a: RankKey, b: RankKey|
        (#[trigger] a.cmp_spec(&b)) == Ordering::Less <==> b.cmp_spec(&a)
            == Ordering::Greater by {}
}

/// From the facts the ranking pipeline establishes about its keys, the
/// promised properties of the output follow.
proof fn lemma_rank_assemble(
    input: Seq<ListEntry>,
    vis: Seq<ListEntry>,
    keys0: Seq<RankKey>,
    keys1: Seq<RankKey>,
    keys2: Seq<RankKey>,
    rest0: Seq<RankKey>,
    outv: Seq<ListEntry>,
    has_secret: bool,
    now_ms: u64,
    m: int,
)
    requires
        vis == input.filter(visible_pred(has_secret)),
        vis.len() <= u64::MAX,
        keys0.len() == vis.len(),
        forall|t: int| 0 <= t < keys0.len() ==> #[trigger] keys0[t] == key_of(vis[t], t),
        keys1.len() == keys0.len(),
        keys1.to_multiset() == keys0.to_multiset(),
        sorted_prefix(keys1, TOP_N as int),
        prefix_dominates(keys1, TOP_N as int, keys1.len() as int),
        m == min_int(TOP_N as int, keys1.len() as int),
        rest0 == keys1.skip(m),
        keys2 == keys1.take(m) + sort_by_score(rest0, now_ms),
        outv.len() == keys2.len(),
        forall|s: int| 0 <= s < outv.len() ==> #[trigger] outv[s] == entry_of_key(keys2[s], vis),
    ensures
        rank_post(input, outv, has_secret, now_ms),
{
    let pred = visible_pred(has_secret);
    lemma_sort_by_score_ensures(rest0, now_ms);
    assert(keys2.len() == keys1.len()) by {
        assert(rest0.len() == keys1.len() - m);
    }
    broadcast use vstd::seq_lib::lemma_multiset_commutative;

    assert(keys1 =~= keys1.take(m) + rest0);
    assert(keys2.to_multiset() == keys1.to_multiset());
    assert(keyed(keys0, vis)) by {
        assert forall|t: int| 0 <= t < keys0.len() implies key_matches(
            #[trigger] keys0[t],
            vis,
        ) by {
            assert(keys0[t] == key_of(vis[t], t));
        }
    }
    lemma_keyed_from_multiset(keys1, keys0, vis);
    lemma_keyed_from_multiset(keys2, keys0, vis);
    assert(forall|t: int| 0 <= t < m ==> #[trigger] keys2[t] == keys1[t]);

    let mi = min_int(TOP_N as int, outv.len() as int);
    assert(outv.len() == keys2.len() && keys2.len() == keys1.len() && keys1.len()
        == keys0.len() && keys0.len() == vis.len());
    assert(mi == m as int);

    // each output entry carries its key's data
    assert forall|s: int| 0 <= s < outv.len() implies (#[trigger] outv[s]) == entry_of_key(
        keys2[s],
        vis,
    ) && exists|q: int|
        0 <= q < vis.len() && keys2[s] == key_of(vis[q], q) && outv[s] == vis[q] by {
        let q = choose|q: int| 0 <= q < vis.len() && keys2[s] == key_of(vis[q], q);
        assert(key_pos(keys2[s]) == q);
        assert(outv[s] == vis[q]);
    }

    // visibility
    broadcast use vstd::seq_lib::group_filter_ensures;

    assert forall|k: int| 0 <= k < outv.len() implies visible_in(
        #[trigger] outv[k],
        has_secret,
    ) by {
        let q = choose|q: int| 0 <= q < vis.len() && keys2[k] == key_of(vis[q], q)
            && outv[k] == vis[q];
        assert(pred(vis[q]));
    }

    // the output is the visible snapshot, rearranged
    assert(outv =~= keys2.map_values(|k: RankKey| entry_of_key(k, vis)));
    assert(keys0.map_values(|k: RankKey| entry_of_key(k, vis)) =~= vis) by {
        assert forall|s: int| 0 <= s < keys0.len() implies keys0.map_values(
            |k: RankKey| entry_of_key(k, vis),
        )[s] == vis[s] by {
            assert(keys0[s] == key_of(vis[s], s));
            assert(key_pos(keys0[s]) == s);
        }
    }
    lemma_map_values_multiset(keys2, keys0, |k: RankKey| entry_of_key(k, vis));
    assert(outv.to_multiset() == vis.to_multiset());

    // the top slice is ordered by tier and votes
    assert forall|a: int, b: int| 0 <= a < b < mi implies #[trigger] tier_votes_ge(
        outv[a],
        outv[b],
    ) by {
        assert(sort_ge(keys1[a], keys1[b]));
        let qa = choose|q: int| 0 <= q < vis.len() && keys2[a] == key_of(vis[q], q)
            && outv[a] == vis[q];
        let qb = choose|q: int| 0 <= q < vis.len() && keys2[b] == key_of(vis[q], q)
            && outv[b] == vis[q];
        lemma_key_ge_entries(vis[qa], qa, vis[qb], qb);
    }

    // and bounds everything after it
    assert forall|j: int| mi <= j < outv.len() implies #[trigger] tier_votes_ge(
        outv[mi - 1],
        outv[j],
    ) by {
        broadcast use vstd::seq_lib::group_to_multiset_ensures;

        let srt = sort_by_score(rest0, now_ms);
        assert(keys2[j] == srt[j - m]);
        assert(srt.contains(srt[j - m])) by {
            assert(srt[j - m] == srt[j - m]);
        }
        assert(srt.to_multiset().count(srt[j - m]) > 0);
        assert(rest0.to_multiset().count(srt[j - m]) > 0);
        assert(rest0.contains(srt[j - m]));
        let w = choose|w: int| 0 <= w < rest0.len() && rest0[w] == keys2[j];
        assert(rest0[w] == keys1[m + w]);
        assert(sort_ge(keys1[m as int - 1], keys1[m + w])) by {
            assert(prefix_dominates(keys1, TOP_N as int, keys1.len() as int));
            assert(min_int(TOP_N as int, keys1.len() as int) == m as int);
        }
        let qa = choose|q: int| 0 <= q < vis.len() && keys2[mi - 1] == key_of(vis[q], q)
            && outv[mi - 1] == vis[q];
        let qb = choose|q: int| 0 <= q < vis.len() && keys2[j] == key_of(vis[q], q)
            && outv[j] == vis[q];
        assert(keys2[mi - 1] == keys1[mi - 1]);
        lemma_key_ge_entries(vis[qa], qa, vis[qb], qb);
    }

    // the stability witness: each output entry's position in the snapshot
    let f = |s: int| key_pos(keys2[s]);
    assert(keys0.no_duplicates()) by {
        assert forall|i: int, j: int|
            0 <= i < keys0.len() && 0 <= j < keys0.len() && i != j implies keys0[i]
            != keys0[j] by {
            assert(keys0[i] == key_of(vis[i], i));
            assert(keys0[j] == key_of(vis[j], j));
            assert(keys0[i].1.0 == (u64::MAX - i) as u64);
            assert(keys0[j].1.0 == (u64::MAX - j) as u64);
        }
    }
    keys0.lemma_multiset_has_no_duplicates();
    assert(forall|x: RankKey|
        keys2.to_multiset().contains(x) ==> keys2.to_multiset().count(x) == 1);
    keys2.lemma_multiset_has_no_duplicates_conv();
    assert(rank_witness(input.filter(visible_pred(has_secret)), outv, f)) by {
        assert forall|s: int| 0 <= s < outv.len() implies 0 <= #[trigger] f(s) < vis.len()
            && outv[s] == vis[f(s)] by {
            let q = choose|q: int| 0 <= q < vis.len() && keys2[s] == key_of(vis[q], q)
                && outv[s] == vis[q];
            assert(key_pos(keys2[s]) == q);
        }
        assert forall|a: int, b: int| 0 <= a < b < outv.len() implies #[trigger] f(a)
            != #[trigger] f(b) by {
            let qa = choose|q: int| 0 <= q < vis.len() && keys2[a] == key_of(vis[q], q)
                && outv[a] == vis[q];
            let qb = choose|q: int| 0 <= q < vis.len() && keys2[b] == key_of(vis[q], q)
                && outv[b] == vis[q];
            assert(f(a) == qa && f(b) == qb);
            if qa == qb {
                assert(keys2[a] == keys2[b]);
                assert(keys2[a] != keys2[b]);
            }
        }
        assert forall|a: int, b: int|
            0 <= a < b < min_int(TOP_N as int, outv.len() as int) && entry_tier(outv[a])
                == entry_tier(outv[b]) && outv[a].votes == outv[b].votes implies #[trigger] f(a)
            < #[trigger] f(b) by {
            let qa = choose|q: int| 0 <= q < vis.len() && keys2[a] == key_of(vis[q], q)
                && outv[a] == vis[q];
            let qb = choose|q: int| 0 <= q < vis.len() && keys2[b] == key_of(vis[q], q)
                && outv[b] == vis[q];
            assert(sort_ge(keys1[a], keys1[b]));
            assert(keys2[a] == keys1[a] && keys2[b] == keys1[b]);
            assert(keys2[a].0.0 == entry_tier(outv[a]) && keys2[a].0.1 == outv[a].votes);
            assert(keys2[b].0.0 == entry_tier(outv[b]) && keys2[b].0.1 == outv[b].votes);
            assert(keys2[a] != keys2[b]);
            // with tier and votes equal, the order falls to the reversed
            // submission position, which is distinct
            assert(keys2[a].1.0 >= keys2[b].1.0);
            assert(keys2[a].1.0 != keys2[b].1.0) by {
                if keys2[a].1.0 == keys2[b].1.0 {
                    assert(qa == qb);
                    assert(keys2[a] == keys2[b]);
                }
            }
            assert(f(a) == qa && f(b) == qb);
        }
    }

    // the remainder is in descending hotness order
    assert forall|a: int, b: int| mi <= a < b < outv.len() implies #[trigger] score_ge_entries(
        outv[a],
        outv[b],
        now_ms,
    ) by {
        let srt = sort_by_score(rest0, now_ms);
        assert(score_sorted(srt, now_ms));
        assert(keys2[a] == srt[a - m] && keys2[b] == srt[b - m]);
        assert(key_score_ge(srt[a - m], srt[b - m], now_ms));
        let qa = choose|q: int| 0 <= q < vis.len() && keys2[a] == key_of(vis[q], q)
            && outv[a] == vis[q];
        let qb = choose|q: int| 0 <= q < vis.len() && keys2[b] == key_of(vis[q], q)
            && outv[b] == vis[q];
        assert(keys2[a].0.1 == outv[a].votes && keys2[a].1.1 == id_timestamp_ms(
            outv[a].id.bits,
        ));
        assert(keys2[b].0.1 == outv[b].votes && keys2[b].1.1 == id_timestamp_ms(
            outv[b].id.bits,
        ));
    }

}

/// Turn a snapshot of an event's questions into what the viewer sees: the
/// hidden ones dropped unless the viewer holds the secret, the top slice
/// selected and ordered exactly by tier and votes (ties keeping their
/// order of creation), and the remainder ordered by decaying hotness.
pub fn rank(questions: &Vec<ListEntry>, has_secret: bool, now_ms: u64) -> (r: Vec<ListEntry>)
    ensures
        rank_post(questions@, r@, has_secret, now_ms),
{
    let ghost pred = visible_pred(has_secret);

    // Step 1: drop what the viewer may not see.
    let mut visible: Vec<ListEntry> = Vec::new();
    let nq = questions.len();
    let mut i: usize = 0;
    proof {
        assert(questions@.take(0).filter(pred) =~= Seq::<ListEntry>::empty()) by {
            reveal(Seq::filter);
        }
    }
    while i < nq
        invariant
            i <= nq,
            nq == questions@.len(),
            pred == visible_pred(has_secret),
            visible@ == questions@.take(i as int).filter(pred),
        decreases nq - i,
    {
        let e = questions[i];
        if has_secret || !e.hidden {
            visible.push(e);
        }
        proof {
            lemma_filter_take_step_gen(questions@, pred, i as int);
            assert(visible@ =~= questions@.take(i as int + 1).filter(pred));
        }
        i += 1;
    }
    proof {
        assert(questions@.take(nq as int) =~= questions@);
    }

    let ghost vis = visible@;
    let n = visible.len();

    // Step 2: build the ranking keys.
    let mut keys: Vec<RankKey> = Vec::new();
    let mut p: usize = 0;
    while p < n
        invariant
            p <= n,
            n == vis.len(),
            vis == visible@,
            keys@.len() == p,
            forall|t: int| 0 <= t < p ==> #[trigger] keys@[t] == key_of(vis[t], t),
        decreases n - p,
    {
        let e = visible[p];
        let tier: u64 = if !e.hidden && e.answered.is_none() {
            1
        } else {
            0
        };
        let ts = e.id.timestamp_ms();
        let inv = u64::MAX - (p as u64);
        keys.push(((tier, e.votes), (inv, ts)));
        p += 1;
    }
    let ghost keys0 = keys@;
    proof {
        assert(keyed(keys0, vis)) by {
            assert forall|t: int| 0 <= t < keys0.len() implies key_matches(
                #[trigger] keys0[t],
                vis,
            ) by {
                assert(keys0[t] == key_of(vis[t], t));
            }
        }
    }

    // Step 3: exact top slice by tier and votes.
    proof {
        lemma_rankkey_laws();
    }
    top_n_sort(&mut keys, TOP_N);
    let ghost keys1 = keys@;

    // Step 4: order the remainder by hotness.
    let m = if TOP_N < keys.len() {
        TOP_N
    } else {
        keys.len()
    };
    let mut rest = keys.split_off(m);
    let ghost rest0 = rest@;
    score_sort(&mut rest, now_ms);
    keys.append(&mut rest);
    let ghost keys2 = keys@;
    proof {
        broadcast use vstd::seq_lib::lemma_multiset_commutative;

        lemma_sort_by_score_ensures(rest0, now_ms);
        assert(keys1 =~= keys1.subrange(0, m as int) + rest0);
        assert(keys2 == keys1.subrange(0, m as int) + sort_by_score(rest0, now_ms));
        assert(keys2.to_multiset() == keys1.to_multiset());
        lemma_keyed_from_multiset(keys1, keys0, vis);
        lemma_keyed_from_multiset(keys2, keys0, vis);
        assert(forall|t: int| 0 <= t < m ==> #[trigger] keys2[t] == keys1[t]);
    }

    // Step 5: read the ordered entries back out of the snapshot.
    let mut out: Vec<ListEntry> = Vec::new();
    let nk = keys.len();
    let mut t: usize = 0;
    while t < nk
        invariant
            t <= nk,
            nk == keys@.len(),
            keys@ == keys2,
            vis == visible@,
            keyed(keys2, vis),
            out@.len() == t,
            forall|s: int| 0 <= s < t ==> #[trigger] out@[s] == entry_of_key(keys2[s], vis),
        decreases nk - t,
    {
        let k = keys[t];
        proof {
            assert(key_matches(keys2[t as int], vis));
            let q = choose|q: int| 0 <= q < vis.len() && keys2[t as int] == key_of(vis[q], q);
            assert(u64::MAX - k.1.0 == q);
        }
        let pos_w = u64::MAX - k.1.0;
        let pos = pos_w as usize;
        out.push(visible[pos]);
        proof {
            assert(out@[t as int] == entry_of_key(keys2[t as int], vis));
        }
        t += 1;
    }

    // The promised properties, read off the key-level facts.
    proof {
        lemma_rank_assemble(
            questions@,
            vis,
            keys0,
            keys1,
            keys2,
            rest0,
            out@,
            has_secret,
            now_ms,
            m as int,
        );
    }
    out
}

} // verus!
