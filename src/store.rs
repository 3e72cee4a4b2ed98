//! The in-memory, brute-force store: at most one record per identifier,
//! records kept in the order in which their identifiers first arrived.
use vstd::prelude::*;

use crate::rank::{is_top_k, lemma_top_k_unique, ranks_before, top_k};
use crate::score::{lemma_score_key_fits, order_key, score_key};

verus! {

/// Caller-assigned identifier of one logical vector.
pub type Id = u64;

/// A stored vector: its components as single-precision bit patterns.
pub type Vector = Vec<u32>;

/// The abstract content of a store: (identifier, components) in store order.
pub type Records = Seq<(u64, Seq<u32>)>;

/// One identifier with its vector.
pub struct Record {
    pub id: Id,
    pub vector: Vector,
}

impl View for Record {
    type V = (u64, Seq<u32>);

    open spec fn view(&self) -> (u64, Seq<u32>) {
        (self.id, self.vector@)
    }
}

/// One hit of a search: the record's identifier and the bit pattern of its
/// similarity score.
#[derive(Clone, Copy, Debug, PartialEq, Eq, Structural)]
pub struct SearchResult {
    pub id: Id,
    pub score_bits: u32,
}

/// No two records share an identifier.
pub open spec fn ids_unique(s: Records) -> bool {
    forall|i: int, j: int| 0 <= i < s.len() && 0 <= j < s.len() && s[i].0 == s[j].0 ==> i == j
}

/// Some record carries `id`.
pub open spec fn has_id(s: Records, id: u64) -> bool {
    exists|i: int| 0 <= i < s.len() && s[i].0 == id
}

/// The records after inserting `v` under `id`: the vector of an existing
/// record is replaced in place, otherwise a new record is appended.
pub open spec fn upsert(s: Records, id: u64, v: Seq<u32>) -> Records {
    if has_id(s, id) {
        s.map_values(|r: (u64, Seq<u32>)| if r.0 == id { (id, v) } else { r })
    } else {
        s.push((id, v))
    }
}

/// The rank keys of a sequence of scores.
pub open spec fn score_keys(scores: Seq<u32>) -> Seq<u32> {
    scores.map_values(|b: u32| score_key(b) as u32)
}

/// The hit for record `i` under the given scores.
pub open spec fn hit(s: Records, scores: Seq<u32>, i: usize) -> SearchResult {
    SearchResult { id: s[i as int].0, score_bits: scores[i as int] }
}

/// `r` is the answer to a top-`k` search over `s` with `scores[i]` the score
/// of record `i`: the hits of the best `min(k, n)` records, highest score
/// first, records of equal score in store order.
pub open spec fn is_search_result(s: Records, scores: Seq<u32>, k: nat, r: Seq<SearchResult>) -> bool {
    exists|idx: Seq<usize>|
        is_top_k(score_keys(scores), k, idx) && r == idx.map_values(
            |i: usize| hit(s, scores, i),
        )
}

/// Every stored vector has `n` components.
pub open spec fn all_of_dimension(s: Records, n: nat) -> bool {
    forall|i: int| 0 <= i < s.len() ==> s[i].1.len() == n
}

/// After an insert the identifier is present, identifiers stay unique, and
/// the record under `id` holds `v`.
pub proof fn lemma_upsert_wf(s: Records, id: u64, v: Seq<u32>)
    requires
        ids_unique(s),
    ensures
        ids_unique(upsert(s, id, v)),
        has_id(upsert(s, id, v), id),
        forall|i: int|
            0 <= i < upsert(s, id, v).len() && upsert(s, id, v)[i].0 == id ==> upsert(s, id, v)[i].1
                == v,
{
    let t = upsert(s, id, v);
    if has_id(s, id) {
        let w = choose|i: int| 0 <= i < s.len() && s[i].0 == id;
        assert(t[w].0 == id);
        assert forall|i: int, j: int|
            0 <= i < t.len() && 0 <= j < t.len() && t[i].0 == t[j].0 implies i == j by {
            assert(s[i].0 == t[i].0);
            assert(s[j].0 == t[j].0);
        }
    } else {
        assert(t[s.len() as int].0 == id);
    }
}

/// Inserting the same identifier and vector twice leaves the store as
/// inserting them once.
pub proof fn lemma_insert_idempotent(store: InMemoryVectorStore, id: u64, v: Seq<u32>)
    requires
        store.wf(),
    ensures
        upsert(upsert(store@, id, v), id, v) == upsert(store@, id, v),
{
    let once = upsert(store@, id, v);
    lemma_upsert_wf(store@, id, v);
    assert(upsert(once, id, v) =~= once);
}

/// Inserting `v1` and then `v2` under one identifier gives the store that
/// inserting `v2` alone gives: exactly one record carries `id`, and it
/// holds `v2`.
pub proof fn lemma_insert_overwrites(store: InMemoryVectorStore, id: u64, v1: Seq<u32>, v2: Seq<u32>)
    requires
        store.wf(),
    ensures
        upsert(upsert(store@, id, v1), id, v2) == upsert(store@, id, v2),
        exists|i: int|
            0 <= i < upsert(store@, id, v2).len() && #[trigger] upsert(store@, id, v2)[i] == (id, v2)
                && forall|j: int|
                0 <= j < upsert(store@, id, v2).len() && upsert(store@, id, v2)[j].0 == id ==> j
                    == i,
{
    let s = store@;
    let first = upsert(s, id, v1);
    lemma_upsert_wf(s, id, v1);
    lemma_upsert_wf(s, id, v2);
    if has_id(s, id) {
        assert(upsert(first, id, v2) =~= upsert(s, id, v2));
    } else {
        assert(first.len() == s.len() + 1);
        assert(upsert(first, id, v2) =~= upsert(s, id, v2));
    }
    let t = upsert(s, id, v2);
    let w = choose|i: int| 0 <= i < t.len() && t[i].0 == id;
    assert(t[w] == (id, v2));
}

/// A search answer is determined by the records, the scores and `k`: two
/// stores with the same records answer a search alike.
pub proof fn lemma_search_result_unique(
    s: Records,
    scores: Seq<u32>,
    k: nat,
    r1: Seq<SearchResult>,
    r2: Seq<SearchResult>,
)
    requires
        is_search_result(s, scores, k, r1),
        is_search_result(s, scores, k, r2),
    ensures
        r1 == r2,
{
    let x = choose|idx: Seq<usize>|
        is_top_k(score_keys(scores), k, idx) && r1 == idx.map_values(|i: usize| hit(s, scores, i));
    let y = choose|idx: Seq<usize>|
        is_top_k(score_keys(scores), k, idx) && r2 == idx.map_values(|i: usize| hit(s, scores, i));
    lemma_top_k_unique(score_keys(scores), k, x, y);
}

/// The brute-force store.
pub struct InMemoryVectorStore {
    data: Vec<Record>,
}

impl View for InMemoryVectorStore {
    type V = Records;

    closed spec fn view(&self) -> Records {
        self.data@.map_values(|r: Record| r@)
    }
}

impl InMemoryVectorStore {
    /// The store's invariant: identifiers are unique.
    pub open spec fn wf(&self) -> bool {
        ids_unique(self@)
    }

    /// An empty store.
    pub fn new() -> (r: Self)
        ensures
            r.wf(),
            r@ == Seq::<(u64, Seq<u32>)>::empty(),
    {
        let r = InMemoryVectorStore { data: Vec::new() };
        assert(r@ =~= Seq::<(u64, Seq<u32>)>::empty());
        r
    }

    /// The number of records.
    pub fn len(&self) -> (r: usize)
        ensures
            r == self@.len(),
    {
        self.data.len()
    }

    /// Whether the store holds no record.
    pub fn is_empty(&self) -> (r: bool)
        ensures
            r == (self@.len() == 0),
    {
        self.data.len() == 0
    }

    /// The records in store order.
    pub fn records(&self) -> (r: &Vec<Record>)
        ensures
            r@.map_values(|x: Record| x@) == self@,
    {
        &self.data
    }

    /// The position of the record that carries `id`, if any.
    fn position(&self, id: u64) -> (r: Option<usize>)
        ensures
            match r {
                Some(i) => i < self@.len() && self@[i as int].0 == id,
                None => !has_id(self@, id),
            },
    {
        let mut i: usize = 0;
        while i < self.data.len()
            invariant
                i <= self.data@.len(),
                forall|j: int| 0 <= j < i ==> self@[j].0 != id,
            decreases self.data@.len() - i,
        {
            if self.data[i].id == id {
                return Some(i);
            }
            i = i + 1;
        }
        None
    }

    /// The vector stored under `id`, if any.
    pub fn get(&self, id: Id) -> (r: Option<&Vector>)
        requires
            self.wf(),
        ensures
            match r {
                Some(v) => exists|i: int| 0 <= i < self@.len() && #[trigger] self@[i] == (id, v@),
                None => !has_id(self@, id),
            },
    {
        match self.position(id) {
            Some(i) => {
                assert(self@[i as int] == (id, self.data@[i as int].vector@));
                Some(&self.data[i].vector)
            },
            None => None,
        }
    }

    /// Inserts `vector` under `id`: replaces the vector of the record that
    /// carries `id`, or appends a new record when none does.
    pub fn insert(&mut self, id: Id, vector: Vector)
        requires
            old(self).wf(),
        ensures
            final(self).wf(),
            final(self)@ == upsert(old(self)@, id, vector@),
    {
        let ghost s0 = self@;
        let ghost v = vector@;
        proof {
            lemma_upsert_wf(s0, id, v);
        }
        match self.position(id) {
            Some(i) => {
                self.data.set(i, Record { id, vector });
                proof {
                    assert forall|j: int| 0 <= j < s0.len() && j != i implies s0[j].0 != id by {}
                    assert(self@ =~= upsert(s0, id, v));
                }
            },
            None => {
                self.data.push(Record { id, vector });
                assert(self@ =~= upsert(s0, id, v));
            },
        }
    }

    /// Whether every stored vector has `n` components.
    pub fn dims_match(&self, n: usize) -> (r: bool)
        ensures
            r == all_of_dimension(self@, n as nat),
    {
        let mut i: usize = 0;
        while i < self.data.len()
            invariant
                i <= self.data@.len(),
                forall|j: int| 0 <= j < i ==> self@[j].1.len() == n,
            decreases self.data@.len() - i,
        {
            if self.data[i].vector.len() != n {
                assert(self@[i as int].1.len() != n);
                return false;
            }
            i = i + 1;
        }
        true
    }

    /// The best `k` records, given `scores[i]`, the bit pattern of the
    /// similarity between the query and record `i`. Highest score first; NaN
    /// ranks below every other score; records of equal score keep store
    /// order. Fewer than `k` hits come back only when fewer records are
    /// stored.
    pub fn search(&self, scores: &Vec<u32>, k: usize) -> (r: Vec<SearchResult>)
        requires
            scores@.len() == self@.len(),
        ensures
            is_search_result(self@, scores@, k as nat, r@),
            r@.len() == if k < self@.len() { k as int } else { self@.len() as int },
            forall|p: int|
                0 <= p < r@.len() - 1 ==> score_key(#[trigger] r@[p].score_bits) >= score_key(
                    r@[p + 1].score_bits,
                ),
    {
        let n = self.data.len();
        let mut keys: Vec<u32> = Vec::new();
        let mut i: usize = 0;
        while i < n
            invariant
                n == self@.len(),
                n == scores@.len(),
                i <= n,
                keys@ =~= score_keys(scores@).take(i as int),
            decreases n - i,
        {
            keys.push(order_key(scores[i]));
            i = i + 1;
        }
        assert(keys@ =~= score_keys(scores@));
        let idx = top_k(&keys, k);
        let ghost hits = idx@.map_values(|j: usize| hit(self@, scores@, j));
        let mut out: Vec<SearchResult> = Vec::new();
        let mut p: usize = 0;
        while p < idx.len()
            invariant
                n == self@.len(),
                n == scores@.len(),
                is_top_k(score_keys(scores@), k as nat, idx@),
                hits == idx@.map_values(|j: usize| hit(self@, scores@, j)),
                p <= idx@.len(),
                out@ =~= hits.take(p as int),
            decreases idx@.len() - p,
        {
            let j = idx[p];
            assert(self@[j as int].0 == self.data@[j as int].id);
            out.push(SearchResult { id: self.data[j].id, score_bits: scores[j] });
            p = p + 1;
        }
        assert(out@ =~= hits);
        proof {
            assert forall|q: int| 0 <= q < out@.len() - 1 implies score_key(
                #[trigger] out@[q].score_bits,
            ) >= score_key(out@[q + 1].score_bits) by {
                assert(ranks_before(score_keys(scores@), idx@[q] as int, idx@[q + 1] as int));
                lemma_score_key_fits(scores@[idx@[q] as int]);
                lemma_score_key_fits(scores@[idx@[q + 1] as int]);
            }
        }
        out
    }
}

} // verus!
