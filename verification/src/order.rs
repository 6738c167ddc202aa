//! Deterministic descending ranking of table rows.
//!
//! Every read operation of the store lists rows in descending order of some
//! pair of integer keys (an instant, an access count, a confidence), with
//! ties resolved toward the smaller table index. `ranked_order` is the
//! mathematical ranking; `rank_desc` computes it.

use vstd::prelude::*;

verus! {

/// `Seq<usize>` as a sequence of mathematical integers.
pub open spec fn as_ints(s: Seq<usize>) -> Seq<int> {
    s.map_values(|x: usize| x as int)
}

/// Exec key pairs as mathematical pairs.
pub open spec fn key_seq(ks: Seq<(i64, i64)>) -> Seq<(int, int)> {
    ks.map_values(|k: (i64, i64)| (k.0 as int, k.1 as int))
}

/// Index `a` ranks strictly before index `b`: greater primary key, then
/// greater secondary key, then smaller index.
pub open spec fn comes_before(keys: Seq<(int, int)>, a: int, b: int) -> bool {
    ||| keys[a].0 > keys[b].0
    ||| (keys[a].0 == keys[b].0 && keys[a].1 > keys[b].1)
    ||| (keys[a].0 == keys[b].0 && keys[a].1 == keys[b].1 && a < b)
}

/// Insert index `j` into the ranked index sequence `order`, after every index
/// that ranks before it.
pub open spec fn insert_ranked(keys: Seq<(int, int)>, order: Seq<int>, j: int) -> Seq<int>
    decreases order.len(),
{
    if order.len() == 0 {
        seq![j]
    } else if comes_before(keys, order[0], j) {
        seq![order[0]] + insert_ranked(keys, order.drop_first(), j)
    } else {
        seq![j] + order
    }
}

/// The ranked order of the indices `0 .. n`.
pub open spec fn rank_prefix(keys: Seq<(int, int)>, n: int) -> Seq<int>
    decreases n,
{
    if n <= 0 {
        Seq::<int>::empty()
    } else {
        insert_ranked(keys, rank_prefix(keys, n - 1), n - 1)
    }
}

/// All indices of `keys`, ranked descending by key with ties toward the
/// smaller index.
pub open spec fn ranked_order(keys: Seq<(int, int)>) -> Seq<int> {
    rank_prefix(keys, keys.len() as int)
}

proof fn lemma_insert_ranked_at(keys: Seq<(int, int)>, order: Seq<int>, j: int, p: int)
    requires
        0 <= p <= order.len(),
        forall|q: int| 0 <= q < p ==> comes_before(keys, #[trigger] order[q], j),
        p < order.len() ==> !comes_before(keys, order[p], j),
    ensures
        insert_ranked(keys, order, j) == order.take(p) + seq![j] + order.skip(p),
    decreases order.len(),
{
    if order.len() == 0 {
        assert(insert_ranked(keys, order, j) =~= order.take(p) + seq![j] + order.skip(p));
    } else if p == 0 {
        assert(insert_ranked(keys, order, j) =~= order.take(0) + seq![j] + order.skip(0));
    } else {
        let rest = order.drop_first();
        assert(comes_before(keys, order[0], j));
        assert(forall|q: int| 0 <= q < p - 1 ==> comes_before(keys, #[trigger] rest[q], j));
        lemma_insert_ranked_at(keys, rest, j, p - 1);
        assert(insert_ranked(keys, order, j) =~= order.take(p) + seq![j] + order.skip(p));
    }
}

proof fn lemma_insert_ranked_props(keys: Seq<(int, int)>, order: Seq<int>, j: int, n: int)
    requires
        forall|i: int| 0 <= i < order.len() ==> 0 <= #[trigger] order[i] < n,
        forall|a: int, b: int|
            0 <= a < b < order.len() ==> #[trigger] comes_before(keys, order[a], order[b]),
        0 <= n <= j,
    ensures
        insert_ranked(keys, order, j).len() == order.len() + 1,
        forall|i: int|
            0 <= i < insert_ranked(keys, order, j).len() ==> (0 <= #[trigger] insert_ranked(
                keys,
                order,
                j,
            )[i] && (insert_ranked(keys, order, j)[i] < n || insert_ranked(keys, order, j)[i]
                == j)),
        forall|a: int, b: int|
            0 <= a < b < insert_ranked(keys, order, j).len() ==> #[trigger] comes_before(
                keys,
                insert_ranked(keys, order, j)[a],
                insert_ranked(keys, order, j)[b],
            ),
        forall|v: int| order.contains(v) ==> #[trigger] insert_ranked(keys, order, j).contains(v),
        insert_ranked(keys, order, j).contains(j),
    decreases order.len(),
{
    let result = insert_ranked(keys, order, j);
    if order.len() == 0 {
        assert(result[0] == j);
        assert(result.contains(j));
    } else if comes_before(keys, order[0], j) {
        let rest = order.drop_first();
        let sub = insert_ranked(keys, rest, j);
        lemma_insert_ranked_props(keys, rest, j, n);
        assert(result == seq![order[0]] + sub);
        assert(result[0] == order[0]);
        assert forall|b: int| 1 <= b < result.len() implies #[trigger] comes_before(
            keys,
            result[0],
            result[b],
        ) by {
            assert(result[b] == sub[b - 1]);
            if result[b] == j {
                // order[0] ranks before j by the branch taken.
            } else {
                // result[b] is some element of rest, which order places after
                // its head.
                let q = choose|q: int| 0 <= q < rest.len() && rest[q] == result[b];
                assert(exists|q: int| 0 <= q < rest.len() && rest[q] == result[b]) by {
                    assert(sub.contains(result[b]));
                    let w = choose|w: int| 0 <= w < sub.len() && sub[w] == result[b];
                    assert(rest.contains(result[b]) || result[b] == j) by {
                        lemma_insert_ranked_membership(keys, rest, j, result[b]);
                    }
                }
                assert(comes_before(keys, order[0], order[q + 1]));
            }
        }
        assert forall|v: int| order.contains(v) implies #[trigger] result.contains(v) by {
            let q = choose|q: int| 0 <= q < order.len() && order[q] == v;
            if q == 0 {
                assert(result[0] == v);
            } else {
                assert(rest[q - 1] == v);
                assert(rest.contains(v));
                assert(sub.contains(v));
                let w = choose|w: int| 0 <= w < sub.len() && sub[w] == v;
                assert(result[w + 1] == v);
            }
        }
        assert(sub.contains(j));
        let w = choose|w: int| 0 <= w < sub.len() && sub[w] == j;
        assert(result[w + 1] == j);
    } else {
        assert(result == seq![j] + order);
        assert forall|b: int| 1 <= b < result.len() implies #[trigger] comes_before(
            keys,
            result[0],
            result[b],
        ) by {
            assert(result[b] == order[b - 1]);
            assert(order[b - 1] != j);
            assert(!comes_before(keys, order[0], j));
            if b - 1 > 0 {
                assert(comes_before(keys, order[0], order[b - 1]));
            }
        }
        assert forall|v: int| order.contains(v) implies #[trigger] result.contains(v) by {
            let q = choose|q: int| 0 <= q < order.len() && order[q] == v;
            assert(result[q + 1] == v);
        }
        assert(result[0] == j);
        assert(result.contains(j));
    }
}

/// Membership in an insertion result comes from the old sequence or is `j`.
proof fn lemma_insert_ranked_membership(keys: Seq<(int, int)>, order: Seq<int>, j: int, v: int)
    requires
        insert_ranked(keys, order, j).contains(v),
    ensures
        order.contains(v) || v == j,
    decreases order.len(),
{
    let result = insert_ranked(keys, order, j);
    if order.len() == 0 {
    } else if comes_before(keys, order[0], j) {
        let rest = order.drop_first();
        let sub = insert_ranked(keys, rest, j);
        if v == order[0] {
            assert(order.contains(v)) by {
                assert(order[0] == v);
            }
        } else {
            let w = choose|w: int| 0 <= w < result.len() && result[w] == v;
            assert(sub[w - 1] == v);
            assert(sub.contains(v));
            lemma_insert_ranked_membership(keys, rest, j, v);
            if rest.contains(v) {
                let q = choose|q: int| 0 <= q < rest.len() && rest[q] == v;
                assert(order[q + 1] == v);
            }
        }
    } else {
        if v != j {
            let w = choose|w: int| 0 <= w < result.len() && result[w] == v;
            assert(order[w - 1] == v);
        }
    }
}

/// The ranking of `0 .. n` is a permutation of `0 .. n`, listed so that each
/// index ranks strictly before all later ones.
pub proof fn lemma_rank_prefix_props(keys: Seq<(int, int)>, n: int)
    requires
        n >= 0,
    ensures
        rank_prefix(keys, n).len() == n,
        forall|i: int| 0 <= i < n ==> 0 <= #[trigger] rank_prefix(keys, n)[i] < n,
        forall|a: int, b: int|
            0 <= a < b < n ==> #[trigger] comes_before(
                keys,
                rank_prefix(keys, n)[a],
                rank_prefix(keys, n)[b],
            ),
        forall|v: int| 0 <= v < n ==> #[trigger] rank_prefix(keys, n).contains(v),
    decreases n,
{
    if n > 0 {
        lemma_rank_prefix_props(keys, n - 1);
        let prev = rank_prefix(keys, n - 1);
        lemma_insert_ranked_props(keys, prev, n - 1, n - 1);
        assert forall|v: int| 0 <= v < n implies #[trigger] rank_prefix(keys, n).contains(v) by {
            if v < n - 1 {
                assert(prev.contains(v));
            }
        }
    }
}

/// Declarative reading of `ranked_order`.
pub proof fn lemma_ranked_order_props(keys: Seq<(int, int)>)
    ensures
        ranked_order(keys).len() == keys.len(),
        forall|i: int|
            0 <= i < keys.len() ==> 0 <= #[trigger] ranked_order(keys)[i] < keys.len(),
        forall|a: int, b: int|
            0 <= a < b < keys.len() ==> #[trigger] comes_before(
                keys,
                ranked_order(keys)[a],
                ranked_order(keys)[b],
            ),
        forall|v: int| 0 <= v < keys.len() ==> #[trigger] ranked_order(keys).contains(v),
{
    lemma_rank_prefix_props(keys, keys.len() as int);
}

/// Decide `comes_before` on two in-range indices.
fn cb_exec(keys: &Vec<(i64, i64)>, a: usize, b: usize) -> (r: bool)
    requires
        a < keys@.len(),
        b < keys@.len(),
    ensures
        r == comes_before(key_seq(keys@), a as int, b as int),
{
    let ka = keys[a];
    let kb = keys[b];
    ka.0 > kb.0 || (ka.0 == kb.0 && ka.1 > kb.1) || (ka.0 == kb.0 && ka.1 == kb.1 && a < b)
}

/// Rank all indices of `keys` in descending key order, ties toward the
/// smaller index.
pub fn rank_desc(keys: &Vec<(i64, i64)>) -> (order: Vec<usize>)
    ensures
        as_ints(order@) == ranked_order(key_seq(keys@)),
        order@.len() == keys@.len(),
{
    let ghost kseq = key_seq(keys@);
    let mut order: Vec<usize> = Vec::new();
    let mut j: usize = 0;
    while j < keys.len()
        invariant
            j <= keys@.len(),
            as_ints(order@) == rank_prefix(kseq, j as int),
            order@.len() == j,
            forall|i: int| 0 <= i < order@.len() ==> #[trigger] order@[i] < j,
            kseq == key_seq(keys@),
        decreases keys@.len() - j,
    {
        let mut p: usize = 0;
        while p < order.len() && cb_exec(keys, order[p], j)
            invariant
                p <= order@.len(),
                forall|q: int|
                    0 <= q < p ==> comes_before(kseq, #[trigger] as_ints(order@)[q], j as int),
                forall|i: int| 0 <= i < order@.len() ==> #[trigger] order@[i] < j,
                j < keys@.len(),
                kseq == key_seq(keys@),
            decreases order@.len() - p,
        {
            assert(as_ints(order@)[p as int] == order@[p as int] as int);
            p += 1;
        }
        proof {
            if (p as int) < order@.len() {
                assert(as_ints(order@)[p as int] == order@[p as int] as int);
            }
            lemma_insert_ranked_at(kseq, as_ints(order@), j as int, p as int);
        }
        let ghost before = order@;
        order.insert(p, j);
        proof {
            assert(as_ints(order@) =~= as_ints(before).take(p as int) + seq![j as int] + as_ints(
                before,
            ).skip(p as int)) by {
                assert(order@ == before.take(p as int) + seq![j] + before.skip(p as int));
                assert forall|i: int| 0 <= i < order@.len() implies as_ints(order@)[i] == (as_ints(
                    before,
                ).take(p as int) + seq![j as int] + as_ints(before).skip(p as int))[i] by {}
            }
        }
        j += 1;
    }
    order
}

} // verus!
