//! Picking the first entries of a list ordered by a key, largest first, with
//! ties kept in list order (what a stable descending sort followed by a
//! truncation gives).

use vstd::prelude::*;

verus! {

/// Entry `a` comes before entry `b`: a larger key, or an equal key and an
/// earlier position.
pub open spec fn ranks_before(keys: Seq<u64>, a: int, b: int) -> bool {
    keys[a] > keys[b] || (keys[a] == keys[b] && a < b)
}

/// Number of entries among the first `n` that come before entry `i`.
pub open spec fn count_before(keys: Seq<u64>, i: int, n: int) -> nat
    decreases n,
{
    if n <= 0 {
        0
    } else {
        count_before(keys, i, n - 1) + if ranks_before(keys, n - 1, i) { 1nat } else { 0nat }
    }
}

/// The position of entry `i` once the list is ordered: the number of
/// entries that come before it.
pub open spec fn rank(keys: Seq<u64>, i: int) -> nat {
    count_before(keys, i, keys.len() as int)
}

/// `out` lists, in order, exactly the entries whose rank is below `limit`.
pub open spec fn is_top_ranked(out: Seq<usize>, keys: Seq<u64>, limit: int) -> bool {
    &&& forall|p: int, q: int| 0 <= p < q < out.len() ==> ranks_before(keys, out[p] as int, out[q] as int)
    &&& forall|p: int| 0 <= p < out.len() ==> (#[trigger] out[p]) < keys.len() && rank(keys, out[p] as int) < limit
    &&& forall|i: int| 0 <= i < keys.len() && rank(keys, i) < limit ==> out.contains(i as usize)
}

/// Computes the rank of entry `i`.
fn rank_of(keys: &Vec<u64>, i: usize) -> (r: usize)
    requires
        i < keys@.len(),
    ensures
        r == rank(keys@, i as int),
{
    let mut count: usize = 0;
    let mut j: usize = 0;
    while j < keys.len()
        invariant
            i < keys@.len(),
            j <= keys@.len(),
            count == count_before(keys@, i as int, j as int),
            count <= j,
        decreases keys@.len() - j,
    {
        if keys[j] > keys[i] || (keys[j] == keys[i] && j < i) {
            count += 1;
        }
        j += 1;
    }
    count
}

/// The entries whose rank is below `limit`, in rank order.
pub fn top_ranked(keys: &Vec<u64>, limit: usize) -> (out: Vec<usize>)
    ensures
        is_top_ranked(out@, keys@, limit as int),
{
    let mut out: Vec<usize> = Vec::new();
    let mut i: usize = 0;
    while i < keys.len()
        invariant
            i <= keys@.len(),
            forall|p: int, q: int| 0 <= p < q < out@.len() ==> ranks_before(keys@, out@[p] as int, out@[q] as int),
            forall|p: int| 0 <= p < out@.len() ==> (#[trigger] out@[p]) < i && rank(keys@, out@[p] as int) < limit,
            forall|k: int| 0 <= k < i && rank(keys@, k) < limit ==> out@.contains(k as usize),
        decreases keys@.len() - i,
    {
        let r = rank_of(keys, i);
        if r < limit {
            let mut p: usize = 0;
            while p < out.len() && !(keys[i] > keys[out[p]])
                invariant
                    i < keys@.len(),
                    p <= out@.len(),
                    forall|q: int| 0 <= q < out@.len() ==> (#[trigger] out@[q]) < i,
                    forall|q: int| 0 <= q < p ==> ranks_before(keys@, #[trigger] out@[q] as int, i as int),
                decreases out@.len() - p,
            {
                p += 1;
            }
            let ghost o = out@;
            proof {
                if p < o.len() {
                    assert(ranks_before(keys@, i as int, o[p as int] as int));
                    assert forall|q: int| p <= q < o.len() implies ranks_before(keys@, i as int, #[trigger] o[q] as int) by {
                        if q > p {
                            assert(ranks_before(keys@, o[p as int] as int, o[q] as int));
                        }
                    }
                }
            }
            out.insert(p, i);
            proof {
                let n = out@;
                assert(n == o.insert(p as int, i));
                assert forall|a: int, b: int| 0 <= a < b < n.len() implies ranks_before(keys@, n[a] as int, n[b] as int) by {
                    if b < p {
                        assert(n[a] == o[a] && n[b] == o[b]);
                    } else if b == p {
                        assert(n[a] == o[a]);
                    } else if a < p {
                        assert(n[a] == o[a] && n[b] == o[b - 1]);
                        assert(ranks_before(keys@, i as int, o[b - 1] as int));
                    } else if a == p {
                        assert(n[b] == o[b - 1]);
                        assert(ranks_before(keys@, i as int, o[b - 1] as int));
                    } else {
                        assert(n[a] == o[a - 1] && n[b] == o[b - 1]);
                    }
                }
                assert forall|q: int| 0 <= q < n.len() implies (#[trigger] n[q]) < i + 1 && rank(keys@, n[q] as int) < limit by {
                    if q < p {
                        assert(n[q] == o[q]);
                    } else if q > p {
                        assert(n[q] == o[q - 1]);
                    }
                }
                assert forall|k: int| 0 <= k < i + 1 && rank(keys@, k) < limit implies n.contains(k as usize) by {
                    if k == i {
                        assert(n[p as int] == i);
                    } else {
                        assert(o.contains(k as usize));
                        let q = choose|q: int| 0 <= q < o.len() && o[q] == k as usize;
                        if q < p {
                            assert(n[q] == o[q]);
                        } else {
                            assert(n[q + 1] == o[q]);
                        }
                    }
                }
            }
        }
        i += 1;
    }
    out
}


/// An entry that comes before another has a smaller rank.
pub proof fn lemma_rank_increases(keys: Seq<u64>, a: int, b: int)
    requires
        0 <= a < keys.len(),
        0 <= b < keys.len(),
        ranks_before(keys, a, b),
    ensures
        rank(keys, a) < rank(keys, b),
{
    lemma_count_before_step(keys, a, b, keys.len() as int);
}

proof fn lemma_count_before_step(keys: Seq<u64>, a: int, b: int, n: int)
    requires
        0 <= a < keys.len(),
        0 <= b < keys.len(),
        0 <= n <= keys.len(),
        ranks_before(keys, a, b),
    ensures
        count_before(keys, a, n) + (if a < n { 1int } else { 0int }) <= count_before(keys, b, n),
    decreases n,
{
    if n > 0 {
        lemma_count_before_step(keys, a, b, n - 1);
    }
}

/// The ordered entries have ranks at least their positions.
proof fn lemma_rank_at_least_position(out: Seq<usize>, keys: Seq<u64>, limit: int, p: int)
    requires
        is_top_ranked(out, keys, limit),
        0 <= p < out.len(),
    ensures
        rank(keys, out[p] as int) >= p,
    decreases p,
{
    if p > 0 {
        lemma_rank_at_least_position(out, keys, limit, p - 1);
        assert(ranks_before(keys, out[p - 1] as int, out[p] as int));
        assert(out[p - 1] < keys.len());
        assert(out[p] < keys.len());
        lemma_rank_increases(keys, out[p - 1] as int, out[p] as int);
    }
}

/// The first entries by key are at most `limit` many, and none left out has
/// a larger key than one kept.
pub proof fn law_top_ranked(out: Seq<usize>, keys: Seq<u64>, limit: int, kept: int, dropped: int)
    requires
        is_top_ranked(out, keys, limit),
        0 <= kept < out.len(),
        0 <= dropped < keys.len(),
        !out.contains(dropped as usize),
    ensures
        out.len() <= limit,
        keys[out[kept] as int] >= keys[dropped],
{
    let last = out.len() - 1;
    lemma_rank_at_least_position(out, keys, limit, last);
    assert(rank(keys, out[last] as int) < limit);
    let i = out[kept] as int;
    assert(i < keys.len());
    if keys[dropped] > keys[i] {
        lemma_rank_increases(keys, dropped, i);
        assert(rank(keys, i) < limit);
        assert(out.contains(dropped as usize));
    }
}

/// The first entries by key are at most `limit` many.
pub proof fn lemma_top_ranked_len(out: Seq<usize>, keys: Seq<u64>, limit: int)
    requires
        is_top_ranked(out, keys, limit),
    ensures
        out.len() <= if limit >= 0 { limit } else { 0 },
{
    if out.len() > 0 {
        let last = out.len() - 1;
        lemma_rank_at_least_position(out, keys, limit, last);
        assert(rank(keys, out[last] as int) < limit);
    }
}

} // verus!
