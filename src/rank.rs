//! Top-k selection over integer keys: highest key first, equal keys in the
//! order of their positions.
use vstd::prelude::*;

verus! {

/// Position `i` ranks ahead of position `j`: a higher key, or an equal key
/// at an earlier position. On distinct positions this is a strict total order.
pub open spec fn ranks_before(keys: Seq<u32>, i: int, j: int) -> bool {
    keys[i] > keys[j] || (keys[i] == keys[j] && i < j)
}

/// `idx` lists, best first, the `min(k, n)` positions of `keys` that rank
/// ahead of all others (n is the number of keys).
pub open spec fn is_top_k(keys: Seq<u32>, k: nat, idx: Seq<usize>) -> bool {
    &&& idx.len() == if k < keys.len() { k } else { keys.len() }
    &&& forall|p: int| 0 <= p < idx.len() ==> idx[p] < keys.len()
    &&& forall|p: int, q: int|
        0 <= p < q < idx.len() ==> #[trigger] ranks_before(keys, idx[p] as int, idx[q] as int)
    &&& forall|p: int, j: int|
        0 <= p < idx.len() && 0 <= j < keys.len() && !idx.contains(j as usize)
            ==> ranks_before(keys, idx[p] as int, j)
}

/// A sequence that holds every position below `n` is at least `n` long.
proof fn lemma_covering_len(s: Seq<usize>, n: nat)
    requires
        forall|j: usize| j < n ==> s.contains(j),
        n <= usize::MAX + 1,
    ensures
        s.len() >= n,
    decreases n,
{
    if n > 0 {
        let last = (n - 1) as usize;
        assert(last < n);
        assert(s.contains(last));
        let at = choose|i: int| 0 <= i < s.len() && s[i] == last;
        let rest = s.remove(at);
        assert forall|j: usize| j < n - 1 implies rest.contains(j) by {
            assert(s.contains(j));
            let w = choose|i: int| 0 <= i < s.len() && s[i] == j;
            if w < at {
                assert(rest[w] == j);
            } else {
                assert(w != at);
                assert(rest[w - 1] == j);
            }
        }
        lemma_covering_len(rest, (n - 1) as nat);
    }
}

/// Given agreement on the first `p - 1` positions, a top-`k` list ranks its
/// entry at `p - 1` ahead of the other list's entry there.
proof fn lemma_next_ranks_ahead(keys: Seq<u32>, k: nat, x: Seq<usize>, y: Seq<usize>, p: int)
    requires
        is_top_k(keys, k, x),
        is_top_k(keys, k, y),
        0 <= p < x.len(),
        forall|i: int| 0 <= i < p ==> x[i] == y[i],
        x[p] != y[p],
    ensures
        ranks_before(keys, x[p] as int, y[p] as int),
{
    let b = y[p];
    if x.contains(b) {
        let q = choose|i: int| 0 <= i < x.len() && x[i] == b;
        if q < p {
            assert(y[q] == b);
            assert(ranks_before(keys, y[q] as int, y[p] as int));
        } else {
            assert(ranks_before(keys, x[p] as int, x[q] as int));
        }
    }
}

/// Agreement of two top-`k` lists on their first `p` positions.
proof fn lemma_prefix_agrees(keys: Seq<u32>, k: nat, x: Seq<usize>, y: Seq<usize>, p: int)
    requires
        is_top_k(keys, k, x),
        is_top_k(keys, k, y),
        0 <= p <= x.len(),
    ensures
        forall|i: int| 0 <= i < p ==> x[i] == y[i],
    decreases p,
{
    if p > 0 {
        lemma_prefix_agrees(keys, k, x, y, p - 1);
        if x[p - 1] != y[p - 1] {
            lemma_next_ranks_ahead(keys, k, x, y, p - 1);
            lemma_next_ranks_ahead(keys, k, y, x, p - 1);
        }
    }
}

/// A top-`k` list is determined by the keys and `k`.
pub proof fn lemma_top_k_unique(keys: Seq<u32>, k: nat, x: Seq<usize>, y: Seq<usize>)
    requires
        is_top_k(keys, k, x),
        is_top_k(keys, k, y),
    ensures
        x == y,
{
    lemma_prefix_agrees(keys, k, x, y, x.len() as int);
    assert(x =~= y);
}

/// The positions of the `k` best keys, best first; equal keys keep their
/// relative order.
pub fn top_k(keys: &Vec<u32>, k: usize) -> (r: Vec<usize>)
    ensures
        is_top_k(keys@, k as nat, r@),
{
    let n = keys.len();
    let m: usize = if k < n { k } else { n };
    let mut taken: Vec<bool> = Vec::new();
    let mut t: usize = 0;
    while t < n
        invariant
            t <= n,
            n == keys.len(),
            taken@.len() == t,
            forall|j: int| 0 <= j < t ==> !taken@[j],
        decreases n - t,
    {
        taken.push(false);
        t = t + 1;
    }
    let mut r: Vec<usize> = Vec::new();
    while r.len() < m
        invariant
            n == keys.len(),
            m <= n,
            m == if k < n { k } else { n },
            r@.len() <= m,
            taken@.len() == n,
            forall|p: int| 0 <= p < r@.len() ==> r@[p] < n,
            forall|j: int| 0 <= j < n ==> (taken@[j] <==> r@.contains(j as usize)),
            forall|p: int, q: int|
                0 <= p < q < r@.len() ==> #[trigger] ranks_before(keys@, r@[p] as int, r@[q] as int),
            forall|p: int, j: int|
                0 <= p < r@.len() && 0 <= j < n && !taken@[j]
                    ==> ranks_before(keys@, r@[p] as int, j),
        decreases m - r@.len(),
    {
        proof {
            if forall|j: int| 0 <= j < n ==> taken@[j] {
                assert forall|j: usize| j < n implies r@.contains(j) by {
                    assert(taken@[j as int]);
                }
                lemma_covering_len(r@, n as nat);
            }
        }
        let mut best: usize = n;
        let mut j: usize = 0;
        while j < n
            invariant
                n == keys.len(),
                taken@.len() == n,
                j <= n,
                best == n || (best < j && !taken@[best as int]),
                best == n ==> forall|i: int| 0 <= i < j ==> taken@[i],
                best < n ==> forall|i: int|
                    0 <= i < j && !taken@[i] && i != best ==> ranks_before(keys@, best as int, i),
            decreases n - j,
        {
            if !taken[j] && (best == n || keys[j] > keys[best]) {
                best = j;
            }
            j = j + 1;
        }
        assert(best < n);
        proof {
            assert forall|p: int| 0 <= p < r@.len() implies ranks_before(
                keys@,
                r@[p] as int,
                best as int,
            ) by {}
        }
        let ghost before = r@;
        r.push(best);
        taken.set(best, true);
        proof {
            assert forall|j: int| 0 <= j < n implies (taken@[j] <==> r@.contains(j as usize)) by {
                if j == best {
                    assert(r@[before.len() as int] == best);
                } else {
                    if r@.contains(j as usize) {
                        let w = choose|i: int| 0 <= i < r@.len() && r@[i] == j as usize;
                        assert(before[w] == j as usize);
                    }
                    if before.contains(j as usize) {
                        let w = choose|i: int| 0 <= i < before.len() && before[i] == j as usize;
                        assert(r@[w] == j as usize);
                    }
                }
            }
        }
    }
    proof {
        assert forall|p: int, j: int|
            0 <= p < r@.len() && 0 <= j < keys@.len() && !r@.contains(j as usize) implies ranks_before(
            keys@,
            r@[p] as int,
            j,
        ) by {
            assert(!taken@[j]);
        }
    }
    r
}

} // verus!
