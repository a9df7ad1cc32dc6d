//! Ranking of scored ids and selection of the best of them.

use vstd::prelude::*;
use crate::sid::{
    is_nan, lemma_rank_key_orders_by_value, lemma_ranking_is_total_order, rank_key, scaled_value,
    Sid,
};

verus! {

/// No entry of `s` is outranked by a later one: scores descend, and ids
/// ascend among equal scores.
pub open spec fn is_ranked(s: Seq<Sid>) -> bool {
    forall|i: int, j: int| 0 <= i < j < s.len() ==> !(#[trigger] s[j]).outranks(#[trigger] s[i])
}

/// The place at which `x` enters the ranked list `r`: before the entries
/// at the end of `r` that it outranks.
pub open spec fn place(r: Seq<Sid>, x: Sid) -> int
    decreases r.len(),
{
    if r.len() > 0 && x.outranks(r.last()) {
        place(r.drop_last(), x)
    } else {
        r.len() as int
    }
}

/// The ranking of `items`: each entry, in the order of the list, is put
/// into the ranking of those before it. Entries of which none outranks the
/// other keep the order in which the list has them.
pub open spec fn ranking(items: Seq<Sid>) -> Seq<Sid>
    decreases items.len(),
{
    if items.len() == 0 {
        Seq::empty()
    } else {
        let r = ranking(items.drop_last());
        r.insert(place(r, items.last()), items.last())
    }
}

/// The number of entries that a selection of at most `k` out of `n` holds.
pub open spec fn top_len(n: nat, k: nat) -> nat {
    if k < n {
        k
    } else {
        n
    }
}

/// The place of an entry lies within the list. The entries from it on are
/// outranked by the entry, and the one before it is not.
pub proof fn lemma_place_bounds(r: Seq<Sid>, x: Sid)
    ensures
        0 <= place(r, x) <= r.len(),
        forall|j: int| place(r, x) <= j < r.len() ==> x.outranks(#[trigger] r[j]),
        place(r, x) > 0 ==> !x.outranks(r[place(r, x) - 1]),
    decreases r.len(),
{
    if r.len() > 0 && x.outranks(r.last()) {
        lemma_place_bounds(r.drop_last(), x);
        assert forall|j: int| place(r, x) <= j < r.len() implies x.outranks(#[trigger] r[j]) by {
            if j < r.len() - 1 {
                assert(r.drop_last()[j] == r[j]);
            }
        }
        if place(r, x) > 0 {
            assert(r.drop_last()[place(r, x) - 1] == r[place(r, x) - 1]);
        }
    }
}

/// In a ranked list, no entry before the place of `x` is outranked by `x`.
pub proof fn lemma_place_in_ranked(r: Seq<Sid>, x: Sid)
    requires
        is_ranked(r),
    ensures
        forall|j: int| 0 <= j < place(r, x) ==> !x.outranks(#[trigger] r[j]),
{
    lemma_place_bounds(r, x);
    let p = place(r, x);
    if p > 0 {
        assert forall|j: int| 0 <= j < p implies !x.outranks(#[trigger] r[j]) by {
            if j < p - 1 {
                assert(!r[p - 1].outranks(r[j]));
            }
            lemma_ranking_is_total_order(x, r[j], r[p - 1]);
        }
    }
}

/// Putting an entry at its place leaves a ranked list ranked.
pub proof fn lemma_insert_keeps_ranked(r: Seq<Sid>, x: Sid)
    requires
        is_ranked(r),
    ensures
        is_ranked(r.insert(place(r, x), x)),
{
    lemma_place_bounds(r, x);
    lemma_place_in_ranked(r, x);
    let p = place(r, x);
    let t = r.insert(p, x);
    assert forall|i: int, j: int| 0 <= i < j < t.len() implies !(#[trigger] t[j]).outranks(
        #[trigger] t[i],
    ) by {
        if j == p {
            assert(t[i] == r[i]);
        } else if i == p {
            assert(t[j] == r[j - 1]);
            assert(x.outranks(r[j - 1]));
        } else {
            let a = if i < p {
                i
            } else {
                i - 1
            };
            let b = if j < p {
                j
            } else {
                j - 1
            };
            assert(t[i] == r[a]);
            assert(t[j] == r[b]);
        }
    }
}

/// A ranking is ranked, and it holds each entry of its list as often as
/// the list does.
pub proof fn lemma_ranking_sorts(items: Seq<Sid>)
    ensures
        is_ranked(ranking(items)),
        ranking(items).to_multiset() == items.to_multiset(),
        ranking(items).len() == items.len(),
    decreases items.len(),
{
    if items.len() == 0 {
        assert(items =~= Seq::<Sid>::empty());
    } else {
        let head = items.drop_last();
        let r = ranking(head);
        lemma_ranking_sorts(head);
        lemma_place_bounds(r, items.last());
        lemma_insert_keeps_ranked(r, items.last());
        vstd::seq_lib::to_multiset_insert(r, place(r, items.last()), items.last());
        vstd::seq_lib::to_multiset_build(head, items.last());
        assert(head.push(items.last()) =~= items);
    }
}

/// In a ranking, scores descend: an entry has a key at least as high as
/// each entry behind it.
pub proof fn lemma_ranked_scores_descend(s: Seq<Sid>, i: int, j: int)
    requires
        is_ranked(s),
        0 <= i <= j < s.len(),
    ensures
        rank_key(s[i].sc) >= rank_key(s[j].sc),
        rank_key(s[i].sc) == rank_key(s[j].sc) ==> s[i].id <= s[j].id,
{
    if i < j {
        assert(!s[j].outranks(s[i]));
    }
}

/// In a ranking without a NaN, the values of the scores descend.
pub proof fn lemma_ranked_values_descend(s: Seq<Sid>, i: int, j: int)
    requires
        is_ranked(s),
        0 <= i <= j < s.len(),
        !is_nan(s[i].sc),
        !is_nan(s[j].sc),
    ensures
        scaled_value(s[i].sc) >= scaled_value(s[j].sc),
{
    lemma_ranked_scores_descend(s, i, j);
    lemma_rank_key_orders_by_value(s[j].sc, s[i].sc);
}

/// No id comes twice in a list.
pub open spec fn distinct_ids(s: Seq<Sid>) -> bool {
    forall|i: int, j: int|
        0 <= i < s.len() && 0 <= j < s.len() && i != j ==> (#[trigger] s[i]).id != (
        #[trigger] s[j]).id
}

/// The ranking of a list in which no id comes twice is such a list, and so
/// is each head of it.
pub proof fn lemma_ranking_keeps_ids_distinct(items: Seq<Sid>, k: int)
    requires
        distinct_ids(items),
        0 <= k <= items.len(),
    ensures
        distinct_ids(ranking(items)),
        distinct_ids(ranking(items).take(k)),
    decreases items.len(),
{
    lemma_ranking_sorts(items);
    if items.len() > 0 {
        let head = items.drop_last();
        let x = items.last();
        let r = ranking(head);
        assert(distinct_ids(head)) by {
            assert forall|i: int, j: int|
                0 <= i < head.len() && 0 <= j < head.len() && i != j implies (
            #[trigger] head[i]).id != (#[trigger] head[j]).id by {
                assert(head[i] == items[i] && head[j] == items[j]);
            }
        }
        lemma_ranking_keeps_ids_distinct(head, 0);
        lemma_ranking_sorts(head);
        lemma_place_bounds(r, x);
        let p = place(r, x);
        let t = r.insert(p, x);
        assert forall|a: int| 0 <= a < r.len() implies (#[trigger] r[a]).id != x.id by {
            r.to_multiset_ensures();
            head.to_multiset_ensures();
            assert(r.contains(r[a]));
            assert(r.to_multiset().count(r[a]) > 0);
            assert(head.to_multiset().count(r[a]) > 0);
            assert(head.contains(r[a]));
            let i = choose|i: int| 0 <= i < head.len() && head[i] == r[a];
            assert(items[i] == head[i]);
            assert(items[items.len() - 1] == x);
        }
        assert forall|i: int, j: int|
            0 <= i < t.len() && 0 <= j < t.len() && i != j implies (#[trigger] t[i]).id != (
        #[trigger] t[j]).id by {
            let a = if i < p {
                i
            } else {
                i - 1
            };
            let b = if j < p {
                j
            } else {
                j - 1
            };
            if i != p {
                assert(t[i] == r[a]);
            }
            if j != p {
                assert(t[j] == r[b]);
            }
        }
    }
    let all = ranking(items);
    assert forall|i: int, j: int|
        0 <= i < all.take(k).len() && 0 <= j < all.take(k).len() && i != j implies (
    #[trigger] all.take(k)[i]).id != (#[trigger] all.take(k)[j]).id by {
        assert(all.take(k)[i] == all[i] && all.take(k)[j] == all[j]);
    }
}

/// The head of a ranking is ranked, and nothing behind it outranks any of
/// its entries.
pub proof fn lemma_head_holds_the_best(items: Seq<Sid>, k: int, i: int, j: int)
    requires
        0 <= i < k <= j < items.len(),
    ensures
        is_ranked(ranking(items).take(k)),
        !ranking(items)[j].outranks(ranking(items)[i]),
{
    lemma_ranking_sorts(items);
    let r = ranking(items);
    assert forall|a: int, b: int| 0 <= a < b < r.take(k).len() implies !(#[trigger] r.take(
        k,
    )[b]).outranks(#[trigger] r.take(k)[a]) by {
        assert(!r[b].outranks(r[a]));
    }
}

/// The place of an entry in the head of a ranked list is its place in the
/// list, or the end of the head where that lies beyond it.
proof fn lemma_place_in_head(r: Seq<Sid>, m: int, x: Sid)
    requires
        is_ranked(r),
        0 <= m <= r.len(),
    ensures
        place(r.take(m), x) == (if place(r, x) < m {
            place(r, x)
        } else {
            m
        }),
    decreases m,
{
    lemma_place_bounds(r, x);
    lemma_place_in_ranked(r, x);
    let h = r.take(m);
    if m > 0 {
        assert(h.last() == r[m - 1]);
        assert(h.drop_last() =~= r.take(m - 1));
        if x.outranks(r[m - 1]) {
            lemma_place_in_head(r, m - 1, x);
        }
    }
}

/// The place at which `x` enters the ranked list `best`.
fn entry_position(best: &Vec<Sid>, x: &Sid) -> (p: usize)
    ensures
        p == place(best@, *x),
{
    let mut p: usize = best.len();
    proof {
        assert(best@.take(p as int) =~= best@);
    }
    while p > 0 && x.ranks_before(&best[p - 1])
        invariant
            p <= best@.len(),
            place(best@, *x) == place(best@.take(p as int), *x),
        decreases p,
    {
        proof {
            assert(best@.take(p as int).last() == best@[p - 1]);
            assert(best@.take(p as int).drop_last() =~= best@.take(p - 1));
        }
        p = p - 1;
    }
    proof {
        if p > 0 {
            assert(best@.take(p as int).last() == best@[p - 1]);
        }
    }
    p
}

/// Ranks `items` and keeps the first `k` entries: the highest scores
/// first, the lower id first among equal scores, NaN scores last.
pub fn top_k(items: &Vec<Sid>, k: usize) -> (best: Vec<Sid>)
    ensures
        best@ == ranking(items@).take(top_len(items@.len(), k as nat) as int),
        best@.len() == top_len(items@.len(), k as nat),
        is_ranked(best@),
        distinct_ids(items@) ==> distinct_ids(best@),
{
    let mut best: Vec<Sid> = Vec::new();
    let n: usize = items.len();
    let mut i: usize = 0;
    proof {
        assert(items@.take(0) =~= Seq::<Sid>::empty());
        assert(ranking(items@.take(0)).take(0) =~= Seq::<Sid>::empty());
    }
    while i < n
        invariant
            i <= n,
            n == items@.len(),
            best@ == ranking(items@.take(i as int)).take(top_len(i as nat, k as nat) as int),
            best@.len() == top_len(i as nat, k as nat),
        decreases n - i,
    {
        let x: Sid = items[i];
        let p: usize = entry_position(&best, &x);
        let ghost seen: Seq<Sid> = items@.take(i as int);
        let ghost r: Seq<Sid> = ranking(seen);
        let ghost before: Seq<Sid> = best@;
        proof {
            assert(items@.take(i + 1).drop_last() =~= seen);
            assert(items@.take(i + 1).last() == x);
            lemma_ranking_sorts(seen);
            lemma_place_bounds(r, x);
            lemma_place_in_head(r, before.len() as int, x);
            assert(ranking(items@.take(i + 1)) == r.insert(place(r, x), x));
        }
        if best.len() < k {
            best.insert(p, x);
            proof {
                assert(before =~= r);
                assert(best@ =~= r.insert(place(r, x), x).take(i + 1));
            }
        } else if p < best.len() {
            best.insert(p, x);
            best.pop();
            proof {
                assert(best@ =~= r.insert(place(r, x), x).take(k as int));
            }
        } else {
            proof {
                assert(best@ =~= r.insert(place(r, x), x).take(k as int));
            }
        }
        i = i + 1;
    }
    proof {
        assert(items@.take(n as int) =~= items@);
        lemma_ranking_sorts(items@);
        if distinct_ids(items@) {
            lemma_ranking_keeps_ids_distinct(items@, best@.len() as int);
        }
        let r = ranking(items@);
        assert forall|a: int, b: int| 0 <= a < b < best@.len() implies !(
        #[trigger] best@[b]).outranks(#[trigger] best@[a]) by {
            assert(!r[b].outranks(r[a]));
        }
    }
    best
}

} // verus!
