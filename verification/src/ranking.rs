//! Picking the best-scored entries, highest score first, ties in their
//! order of entry (what a stable descending sort followed by `take` gives).
use vstd::prelude::*;

verus! {

/// Entry `a` comes before entry `b` in a stable sort by descending score.
pub open spec fn ranks_before(scores: Seq<u16>, a: int, b: int) -> bool {
    scores[a] > scores[b] || (scores[a] == scores[b] && a < b)
}

/// `r` holds the first `min(k, scores.len())` entries of the stable sort of
/// `0..scores.len()` by descending score, in that order.
pub open spec fn is_top_k(scores: Seq<u16>, k: int, r: Seq<usize>) -> bool {
    &&& r.len() == if k < scores.len() { k } else { scores.len() as int }
    &&& forall|i: int| 0 <= i < r.len() ==> #[trigger] r[i] < scores.len()
    &&& forall|i: int, j: int|
        0 <= i < j < r.len() ==> ranks_before(scores, #[trigger] r[i] as int, #[trigger] r[j] as int)
    &&& forall|i: int, j: usize|
        #![trigger r[i], r.contains(j)]
        0 <= i < r.len() && j < scores.len() && !r.contains(j) ==> ranks_before(
            scores,
            r[i] as int,
            j as int,
        )
}

proof fn lemma_unpicked_exists(r: Seq<usize>, n: usize)
    requires
        forall|x: int, y: int| 0 <= x < y < r.len() ==> r[x] != r[y],
        forall|i: int| 0 <= i < r.len() ==> #[trigger] r[i] < n,
        r.len() < n,
    ensures
        exists|m: usize| m < n && !r.contains(m),
{
    broadcast use vstd::seq_lib::seq_to_set_is_finite;

    let ri = r.map_values(|x: usize| x as int);
    assert forall|x: int, y: int| 0 <= x < ri.len() && 0 <= y < ri.len() && x != y implies ri[x]
        != ri[y] by {
        if x < y {
            assert(r[x] != r[y]);
        } else {
            assert(r[y] != r[x]);
        }
    }
    assert(ri.no_duplicates());
    ri.unique_seq_to_set();
    vstd::set_lib::lemma_int_range(0, n as int);
    if forall|m: usize| m < n ==> r.contains(m) {
        assert forall|m: int| vstd::set_lib::set_int_range(0, n as int).contains(m) implies ri.to_set().contains(m) by {
            assert(r.contains(m as usize));
            let q = choose|q: int| 0 <= q < r.len() && r[q] == m as usize;
            assert(ri[q] == m);
        }
        vstd::set_lib::lemma_len_subset(vstd::set_lib::set_int_range(0, n as int), ri.to_set());
        assert(false);
    }
}

spec fn after_last(scores: Seq<u16>, has_last: bool, last: usize, m: int) -> bool {
    !has_last || ranks_before(scores, last as int, m)
}

/// Indices of the `k` best scores, best first; equal scores keep their order.
pub fn top_k(scores: &Vec<u16>, k: usize) -> (r: Vec<usize>)
    ensures
        is_top_k(scores@, k as int, r@),
        r@ == top_k_spec(scores@, k as int),
{
    let n = scores.len();
    let goal = if k < n {
        k
    } else {
        n
    };
    let mut r: Vec<usize> = Vec::new();
    while r.len() < goal
        invariant
            n == scores.len(),
            goal <= n,
            goal == if k < n { k } else { n },
            r.len() <= goal,
            forall|i: int| 0 <= i < r.len() ==> #[trigger] r@[i] < n,
            forall|i: int, j: int|
                0 <= i < j < r.len() ==> ranks_before(
                    scores@,
                    #[trigger] r@[i] as int,
                    #[trigger] r@[j] as int,
                ),
            forall|i: int, j: usize|
                #![trigger r@[i], r@.contains(j)]
                0 <= i < r.len() && j < n && !r@.contains(j) ==> ranks_before(
                    scores@,
                    r@[i] as int,
                    j as int,
                ),
        decreases goal - r.len(),
    {
        // the best entry that ranks after everything picked so far
        let has_last = r.len() > 0;
        let last: usize = if has_last {
            r[r.len() - 1]
        } else {
            0
        };
        let mut best: usize = n;
        let mut j: usize = 0;
        while j < n
            invariant
                n == scores.len(),
                has_last == (r.len() > 0),
                has_last ==> last == r@[r.len() - 1],
                has_last ==> last < n,
                j <= n,
                best == n || (best < j && (!has_last || ranks_before(
                    scores@,
                    last as int,
                    best as int,
                ))),
                forall|m: int|
                    0 <= m < j && #[trigger] after_last(scores@, has_last, last, m) ==> (best < n
                        && (m == best || ranks_before(scores@, best as int, m))),
            decreases n - j,
        {
            let ghost old_best = best;
            let eligible = !has_last || scores[last] > scores[j] || (scores[last] == scores[j]
                && last < j);
            if eligible {
                if best == n || scores[j] > scores[best] {
                    best = j;
                }
            }
            proof {
                assert forall|m: int|
                    0 <= m < j + 1 && #[trigger] after_last(scores@, has_last, last, m) implies (
                best < n && (m == best || ranks_before(scores@, best as int, m))) by {
                    if m < j {
                        assert(old_best < n && (m == old_best || ranks_before(
                            scores@,
                            old_best as int,
                            m,
                        )));
                    } else {
                        assert(eligible);
                    }
                }
            }
            j += 1;
        }
        proof {
            // some entry is not picked yet, and it ranks after the last pick
            if best == n {
                assert forall|x: int, y: int| 0 <= x < y < r.len() implies r@[x] != r@[y] by {
                    assert(ranks_before(scores@, r@[x] as int, r@[y] as int));
                }
                lemma_unpicked_exists(r@, n);
                let m = choose|m: usize| m < n && !r@.contains(m);
                if has_last {
                    assert(r@.contains(r@[r.len() - 1]));
                    assert(ranks_before(scores@, r@[r.len() - 1] as int, m as int));
                }
                assert(after_last(scores@, has_last, last, m as int));
            }
        }
        let ghost old_r = r@;
        r.push(best);
        proof {
            assert forall|x: int, y: int| 0 <= x < y < r.len() implies ranks_before(
                scores@,
                #[trigger] r@[x] as int,
                #[trigger] r@[y] as int,
            ) by {
                if y == r.len() - 1 && x < y {
                    if x < old_r.len() - 1 {
                        assert(ranks_before(scores@, old_r[x] as int, last as int));
                    }
                }
            }
            assert forall|i: int, m: usize|
                0 <= i < r.len() && m < n && !r@.contains(m) implies #[trigger] ranks_before(
                scores@,
                r@[i] as int,
                m as int,
            ) by {
                assert(!old_r.contains(m)) by {
                    if old_r.contains(m) {
                        let q = choose|q: int| 0 <= q < old_r.len() && old_r[q] == m;
                        assert(r@[q] == m);
                    }
                }
                assert(r@[r.len() - 1] == best);
                assert(r@.contains(best));
                if i < old_r.len() {
                    assert(r@[i] == old_r[i]);
                    assert(old_r.contains(old_r[i]));
                } else {
                    if has_last {
                        assert(old_r.contains(last)) by {
                            assert(old_r[old_r.len() - 1] == last);
                        }
                        assert(ranks_before(scores@, last as int, m as int));
                    }
                    assert(after_last(scores@, has_last, last, m as int));
                    assert(m != best);
                }
            }
        }
    }
    proof {
        lemma_top_k_unique(scores@, k as int, r@);
    }
    r
}

/// The ranking that `top_k` computes.
pub open spec fn top_k_spec(scores: Seq<u16>, k: int) -> Seq<usize> {
    choose|r: Seq<usize>| is_top_k(scores, k, r)
}

proof fn lemma_top_k_entry(scores: Seq<u16>, k: int, r1: Seq<usize>, r2: Seq<usize>, p: int)
    requires
        is_top_k(scores, k, r1),
        is_top_k(scores, k, r2),
        0 <= p < r1.len(),
    ensures
        r1[p] == r2[p],
    decreases p,
{
    assert forall|q: int| 0 <= q < p implies r1[q] == r2[q] by {
        lemma_top_k_entry(scores, k, r1, r2, q);
    }
    let x = r1[p];
    let y = r2[p];
    if x != y {
        // y ranks before x
        if r2.contains(x) {
            let q = choose|q: int| 0 <= q < r2.len() && r2[q] == x;
            if q < p {
                assert(r1[q] == r2[q]);
                assert(ranks_before(scores, r1[q] as int, r1[p] as int));
            }
            assert(q > p);
            assert(ranks_before(scores, r2[p] as int, r2[q] as int));
        } else {
            assert(ranks_before(scores, r2[p] as int, x as int));
        }
        // x ranks before y
        if r1.contains(y) {
            let q = choose|q: int| 0 <= q < r1.len() && r1[q] == y;
            if q < p {
                assert(r1[q] == r2[q]);
                assert(ranks_before(scores, r2[q] as int, r2[p] as int));
            }
            assert(q > p);
            assert(ranks_before(scores, r1[p] as int, r1[q] as int));
        } else {
            assert(ranks_before(scores, r1[p] as int, y as int));
        }
        assert(false);
    }
}

/// There is exactly one top-`k` ranking of a score list.
pub proof fn lemma_top_k_unique(scores: Seq<u16>, k: int, r: Seq<usize>)
    requires
        is_top_k(scores, k, r),
    ensures
        top_k_spec(scores, k) == r,
{
    let c = top_k_spec(scores, k);
    assert(is_top_k(scores, k, c));
    assert forall|p: int| 0 <= p < r.len() implies c[p] == r[p] by {
        lemma_top_k_entry(scores, k, c, r, p);
    }
    assert(c =~= r);
}

} // verus!
