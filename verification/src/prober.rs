//! The pairwise relation prober's plan and result assembly.
//!
//! Given the entities collected from a neighborhood query, the engine
//! probes every unordered pair once for a direct-or-one-hop relation.
//! The pair plan walks the cross product of the collection with itself
//! in insertion order and keeps an ordered pair exactly when the first
//! entity's id exceeds the second's — which skips self-pairs and picks
//! each unordered pair once. The probes themselves are store round
//! trips made by the caller; [`confirmed_relations`] folds the boolean
//! answers back into the confirmed pair list.

use vstd::prelude::*;

use crate::entity::{ids_of, EntityMap};

verus! {

/// No id occurs twice.
pub open spec fn distinct_ids(ids: Seq<i32>) -> bool {
    forall|i: int, j: int| 0 <= i < j < ids.len() ==> ids[i] != ids[j]
}

/// The pairs kept from row `a` against columns `0 .. b`, in column
/// order.
pub open spec fn row_pairs(ids: Seq<i32>, a: int, b: int) -> Seq<(usize, usize)>
    decreases b,
{
    if b <= 0 {
        Seq::<(usize, usize)>::empty()
    } else {
        row_pairs(ids, a, b - 1) + if ids[a] > ids[b - 1] {
            seq![(a as usize, (b - 1) as usize)]
        } else {
            Seq::<(usize, usize)>::empty()
        }
    }
}

/// The pairs kept from rows `0 .. a`, each row against every column.
pub open spec fn pairs_upto(ids: Seq<i32>, a: int) -> Seq<(usize, usize)>
    decreases a,
{
    if a <= 0 {
        Seq::<(usize, usize)>::empty()
    } else {
        pairs_upto(ids, a - 1) + row_pairs(ids, a - 1, ids.len() as int)
    }
}

/// The probe plan: the index pairs `(a, b)` with `ids[a] > ids[b]`, in
/// row-major traversal order.
pub open spec fn probe_pairs(ids: Seq<i32>) -> Seq<(usize, usize)> {
    pairs_upto(ids, ids.len() as int)
}

/// Build the probe plan for a collection: one index pair per probe to
/// issue, in the order they are to be issued.
pub fn select_probe_pairs(m: &EntityMap) -> (pairs: Vec<(usize, usize)>)
    ensures
        pairs@ == probe_pairs(ids_of(m@)),
{
    let ghost ids = ids_of(m@);
    let n = m.len();
    let mut pairs: Vec<(usize, usize)> = Vec::new();
    let mut a: usize = 0;
    proof {
        assert(ids.len() == m@.len());
    }
    while a < n
        invariant
            n == m@.len(),
            ids == ids_of(m@),
            ids.len() == n,
            0 <= a <= n,
            pairs@ == pairs_upto(ids, a as int),
        decreases n - a,
    {
        let ida = m.entity_at(a).id;
        proof {
            assert(ids[a as int] == m@[a as int].0);
        }
        let mut b: usize = 0;
        while b < n
            invariant
                n == m@.len(),
                ids == ids_of(m@),
                ids.len() == n,
                0 <= a < n,
                0 <= b <= n,
                ida == ids[a as int],
                pairs@ == pairs_upto(ids, a as int) + row_pairs(ids, a as int, b as int),
            decreases n - b,
        {
            let idb = m.entity_at(b).id;
            proof {
                assert(ids[b as int] == m@[b as int].0);
            }
            if ida > idb {
                pairs.push((a, b));
            }
            b += 1;
            proof {
                assert(pairs@ =~= pairs_upto(ids, a as int) + row_pairs(
                    ids,
                    a as int,
                    b as int,
                ));
            }
        }
        a += 1;
        proof {
            assert(pairs@ =~= pairs_upto(ids, a as int));
        }
    }
    pairs
}

/// How many of the rows `0 .. k` have an id above `ids[w]`.
pub open spec fn col_count(ids: Seq<i32>, w: int, k: int) -> int
    decreases k,
{
    if k <= 0 {
        0
    } else {
        col_count(ids, w, k - 1) + if ids[k - 1] > ids[w] {
            1int
        } else {
            0int
        }
    }
}

/// Total number of pairs kept from rows `0 .. k` against columns
/// `0 .. w`.
pub open spec fn rows_len(ids: Seq<i32>, k: int, w: int) -> int
    decreases k,
{
    if k <= 0 {
        0
    } else {
        rows_len(ids, k - 1, w) + row_pairs(ids, k - 1, w).len()
    }
}

/// Widening every row by one column adds that column's count.
proof fn lemma_rows_len_widen(ids: Seq<i32>, k: int, w: int)
    requires
        0 <= w,
    ensures
        rows_len(ids, k, w + 1) == rows_len(ids, k, w) + col_count(ids, w, k),
    decreases k,
{
    if k > 0 {
        lemma_rows_len_widen(ids, k - 1, w);
    }
}

/// With distinct ids, row `w` and column `w` together meet every index
/// below `k` exactly once.
proof fn lemma_pairing(ids: Seq<i32>, w: int, k: int)
    requires
        0 <= k,
        0 <= w < ids.len(),
        forall|a: int| 0 <= a < k ==> ids[a] != ids[w],
    ensures
        row_pairs(ids, w, k).len() + col_count(ids, w, k) == k,
    decreases k,
{
    if k > 0 {
        lemma_pairing(ids, w, k - 1);
    }
}

/// The square of rows and columns `0 .. k` keeps `k·(k−1)/2` pairs.
proof fn lemma_square(ids: Seq<i32>, k: int)
    requires
        distinct_ids(ids),
        0 <= k <= ids.len(),
    ensures
        2 * rows_len(ids, k, k) == k * (k - 1),
    decreases k,
{
    if k > 0 {
        lemma_square(ids, k - 1);
        lemma_rows_len_widen(ids, k - 1, k - 1);
        assert forall|a: int| 0 <= a < k - 1 implies #[trigger] ids[a] != ids[k - 1] by {}
        lemma_pairing(ids, k - 1, k - 1);
        assert(row_pairs(ids, k - 1, k).len() == row_pairs(ids, k - 1, k - 1).len());
        assert(rows_len(ids, k, k) == rows_len(ids, k - 1, k) + row_pairs(ids, k - 1, k).len());
        assert(rows_len(ids, k, k) == rows_len(ids, k - 1, k - 1) + (k - 1));
        assert((k - 1) * ((k - 1) - 1) + 2 * (k - 1) == k * (k - 1)) by (nonlinear_arith);
    } else {
        assert(rows_len(ids, k, k) == 0);
        assert(k * (k - 1) == 0) by (nonlinear_arith)
            requires
                k == 0,
        ;
    }
}

/// The plan's length is the total of its rows' lengths.
proof fn lemma_pairs_upto_len(ids: Seq<i32>, k: int)
    ensures
        pairs_upto(ids, k).len() == rows_len(ids, k, ids.len() as int),
    decreases k,
{
    if k > 0 {
        lemma_pairs_upto_len(ids, k - 1);
    }
}

/// Shape of one row's pairs: first index fixed to the row, second
/// index strictly increasing below the bound, id order respected.
proof fn lemma_row_elems(ids: Seq<i32>, a: int, b: int)
    requires
        0 <= a < ids.len(),
        0 <= b <= ids.len(),
        ids.len() <= usize::MAX,
    ensures
        forall|t: int|
            0 <= t < row_pairs(ids, a, b).len() ==> ({
                let p = #[trigger] row_pairs(ids, a, b)[t];
                p.0 as int == a && (p.1 as int) < b && ids[p.0 as int] > ids[p.1 as int]
            }),
        forall|t: int, u: int|
            0 <= t < u < row_pairs(ids, a, b).len() ==> (#[trigger] row_pairs(ids, a, b)[t]).1 < (
            #[trigger] row_pairs(ids, a, b)[u]).1,
    decreases b,
{
    if b > 0 {
        lemma_row_elems(ids, a, b - 1);
        let prev = row_pairs(ids, a, b - 1);
        let cur = row_pairs(ids, a, b);
        assert forall|t: int| 0 <= t < cur.len() implies ({
            let p = #[trigger] cur[t];
            p.0 as int == a && (p.1 as int) < b && ids[p.0 as int] > ids[p.1 as int]
        }) by {
            if t < prev.len() {
                assert(cur[t] == prev[t]);
            } else {
                assert(cur[t] == (a as usize, (b - 1) as usize));
            }
        }
        assert forall|t: int, u: int| 0 <= t < u < cur.len() implies (#[trigger] cur[t]).1 < (
        #[trigger] cur[u]).1 by {
            if u < prev.len() {
                assert(cur[t] == prev[t] && cur[u] == prev[u]);
            } else {
                assert(cur[u] == (a as usize, (b - 1) as usize));
                assert(cur[t] == prev[t]);
                assert((prev[t].1 as int) < b - 1);
            }
        }
    }
}

/// Shape of the plan: pairs come row-major, so they are strictly
/// ordered by row then column.
proof fn lemma_upto_elems(ids: Seq<i32>, a: int)
    requires
        0 <= a <= ids.len(),
        ids.len() <= usize::MAX,
    ensures
        forall|t: int|
            0 <= t < pairs_upto(ids, a).len() ==> ({
                let p = #[trigger] pairs_upto(ids, a)[t];
                (p.0 as int) < a && (p.1 as int) < ids.len() && ids[p.0 as int] > ids[p.1 as int]
            }),
        forall|t: int, u: int|
            0 <= t < u < pairs_upto(ids, a).len() ==> ({
                let p = #[trigger] pairs_upto(ids, a)[t];
                let q = #[trigger] pairs_upto(ids, a)[u];
                p.0 < q.0 || (p.0 == q.0 && p.1 < q.1)
            }),
    decreases a,
{
    if a > 0 {
        lemma_upto_elems(ids, a - 1);
        lemma_row_elems(ids, a - 1, ids.len() as int);
        let prev = pairs_upto(ids, a - 1);
        let row = row_pairs(ids, a - 1, ids.len() as int);
        let cur = pairs_upto(ids, a);
        assert forall|t: int| 0 <= t < cur.len() implies ({
            let p = #[trigger] cur[t];
            (p.0 as int) < a && (p.1 as int) < ids.len() && ids[p.0 as int] > ids[p.1 as int]
        }) by {
            if t < prev.len() {
                assert(cur[t] == prev[t]);
            } else {
                assert(cur[t] == row[t - prev.len()]);
            }
        }
        assert forall|t: int, u: int| 0 <= t < u < cur.len() implies ({
            let p = #[trigger] cur[t];
            let q = #[trigger] cur[u];
            p.0 < q.0 || (p.0 == q.0 && p.1 < q.1)
        }) by {
            if u < prev.len() {
                assert(cur[t] == prev[t] && cur[u] == prev[u]);
            } else if t < prev.len() {
                assert(cur[t] == prev[t] && cur[u] == row[u - prev.len()]);
                assert((prev[t].0 as int) < a - 1);
                assert(row[u - prev.len()].0 as int == a - 1);
            } else {
                assert(cur[t] == row[t - prev.len()] && cur[u] == row[u - prev.len()]);
            }
        }
    }
}

/// A qualifying column is in its row's pairs.
proof fn lemma_row_contains(ids: Seq<i32>, a: int, bmax: int, b: int)
    requires
        0 <= a < ids.len(),
        0 <= b < bmax <= ids.len(),
        ids[a] > ids[b],
        ids.len() <= usize::MAX,
    ensures
        row_pairs(ids, a, bmax).contains((a as usize, b as usize)),
    decreases bmax,
{
    if b == bmax - 1 {
        let prev = row_pairs(ids, a, bmax - 1);
        assert(row_pairs(ids, a, bmax)[prev.len() as int] == (a as usize, b as usize));
    } else {
        lemma_row_contains(ids, a, bmax - 1, b);
        let prev = row_pairs(ids, a, bmax - 1);
        let t = choose|t: int| 0 <= t < prev.len() && prev[t] == (a as usize, b as usize);
        assert(row_pairs(ids, a, bmax)[t] == (a as usize, b as usize));
    }
}

/// Every qualifying index pair is in the plan.
proof fn lemma_upto_contains(ids: Seq<i32>, amax: int, a: int, b: int)
    requires
        0 <= a < amax <= ids.len(),
        0 <= b < ids.len(),
        ids[a] > ids[b],
        ids.len() <= usize::MAX,
    ensures
        pairs_upto(ids, amax).contains((a as usize, b as usize)),
    decreases amax,
{
    let prev = pairs_upto(ids, amax - 1);
    if a == amax - 1 {
        lemma_row_contains(ids, a, ids.len() as int, b);
        let row = row_pairs(ids, a, ids.len() as int);
        let t = choose|t: int| 0 <= t < row.len() && row[t] == (a as usize, b as usize);
        assert(pairs_upto(ids, amax)[prev.len() + t] == (a as usize, b as usize));
    } else {
        lemma_upto_contains(ids, amax - 1, a, b);
        let t = choose|t: int| 0 <= t < prev.len() && prev[t] == (a as usize, b as usize);
        assert(pairs_upto(ids, amax)[t] == (a as usize, b as usize));
    }
}

/// The pair-selection law: for entities with distinct ids the probe
/// plan pairs exactly the index pairs whose first id exceeds the
/// second — so each unordered pair of distinct entities is probed
/// exactly once, no entity is probed against itself, no pair repeats,
/// and the plan's length is `n·(n−1)/2` for `n` entities.
pub proof fn lemma_pair_selection(ids: Seq<i32>)
    requires
        distinct_ids(ids),
        ids.len() <= usize::MAX,
    ensures
        2 * probe_pairs(ids).len() == ids.len() * (ids.len() - 1),
        probe_pairs(ids).len() == ids.len() * (ids.len() - 1) / 2,
        forall|k: int|
            0 <= k < probe_pairs(ids).len() ==> ({
                let p = #[trigger] probe_pairs(ids)[k];
                (p.0 as int) < ids.len() && (p.1 as int) < ids.len() && p.0 != p.1 && ids[p.0 as int]
                    > ids[p.1 as int]
            }),
        forall|a: int, b: int|
            0 <= a < ids.len() && 0 <= b < ids.len() && ids[a] > ids[b]
                ==> #[trigger] probe_pairs(ids).contains((a as usize, b as usize)),
        forall|k: int, l: int|
            0 <= k < l < probe_pairs(ids).len() ==> #[trigger] probe_pairs(ids)[k]
                != #[trigger] probe_pairs(ids)[l],
{
    let n = ids.len() as int;
    lemma_upto_elems(ids, n);
    lemma_pairs_upto_len(ids, n);
    lemma_square(ids, n);
    assert forall|a: int, b: int|
        0 <= a < ids.len() && 0 <= b < ids.len() && ids[a] > ids[b] implies #[trigger] probe_pairs(
        ids,
    ).contains((a as usize, b as usize)) by {
        lemma_upto_contains(ids, n, a, b);
    }
    let ln = probe_pairs(ids).len();
    assert(2 * ln == n * (n - 1));
    assert(ln == n * (n - 1) / 2);
}

/// The confirmed relation list: for each planned pair whose probe came
/// back true, the ordered id pair, in plan order.
pub open spec fn confirmed(ids: Seq<i32>, pairs: Seq<(usize, usize)>, results: Seq<bool>) -> Seq<
    (i32, i32),
>
    decreases pairs.len(),
{
    if pairs.len() == 0 {
        Seq::<(i32, i32)>::empty()
    } else {
        confirmed(ids, pairs.drop_last(), results.drop_last()) + if results.last() {
            seq![(ids[pairs.last().0 as int], ids[pairs.last().1 as int])]
        } else {
            Seq::<(i32, i32)>::empty()
        }
    }
}

/// Fold the probes' boolean answers back into the confirmed relation
/// list, keeping plan order.
pub fn confirmed_relations(m: &EntityMap, pairs: &Vec<(usize, usize)>, results: &Vec<bool>) -> (rels:
    Vec<(i32, i32)>)
    requires
        results@.len() == pairs@.len(),
        forall|k: int|
            0 <= k < pairs@.len() ==> (#[trigger] pairs@[k]).0 < m@.len() && pairs@[k].1
                < m@.len(),
    ensures
        rels@ == confirmed(ids_of(m@), pairs@, results@),
{
    let ghost ids = ids_of(m@);
    let n = pairs.len();
    let mut rels: Vec<(i32, i32)> = Vec::new();
    let mut k: usize = 0;
    while k < n
        invariant
            n == pairs@.len(),
            results@.len() == n,
            ids == ids_of(m@),
            ids.len() == m@.len(),
            forall|t: int|
                0 <= t < n ==> (#[trigger] pairs@[t]).0 < m@.len() && pairs@[t].1 < m@.len(),
            0 <= k <= n,
            rels@ == confirmed(ids, pairs@.subrange(0, k as int), results@.subrange(0, k as int)),
        decreases n - k,
    {
        let ghost pp = pairs@.subrange(0, k as int);
        let ghost pc = pairs@.subrange(0, k + 1 as int);
        let ghost rp = results@.subrange(0, k as int);
        let ghost rc = results@.subrange(0, k + 1 as int);
        proof {
            assert(pc.drop_last() =~= pp);
            assert(rc.drop_last() =~= rp);
            assert(pc.last() == pairs@[k as int]);
            assert(rc.last() == results@[k as int]);
        }
        if results[k] {
            let pa = pairs[k].0;
            let pb = pairs[k].1;
            let id1 = m.entity_at(pa).id;
            let id2 = m.entity_at(pb).id;
            proof {
                assert(id1 == m@[pa as int].0 && ids[pa as int] == m@[pa as int].0);
                assert(id2 == m@[pb as int].0 && ids[pb as int] == m@[pb as int].0);
            }
            rels.push((id1, id2));
        }
        k += 1;
        proof {
            assert(rels@ =~= confirmed(ids, pc, rc));
            assert(pairs@.subrange(0, k as int) == pc);
            assert(results@.subrange(0, k as int) == rc);
        }
    }
    proof {
        assert(pairs@.subrange(0, n as int) =~= pairs@);
        assert(results@.subrange(0, n as int) =~= results@);
    }
    rels
}

} // verus!
