//! Namespace-partitioned vector store with brute-force similarity search.
//!
//! Namespaces are created implicitly on first store and hold their vectors in
//! insertion order, which makes search tie-breaking deterministic.  All
//! vectors of a namespace share one embedding dimension, established by the
//! first vector ever stored there; storing under an existing id replaces the
//! previous vector (upsert).  Every mutation is all-or-nothing: a failed call
//! leaves the store exactly as it was.

use vstd::prelude::*;
use crate::error::ContragError;
use crate::similarity::{coords_ok, cosine_similarity, rank_le, rank_le_exec, sim_inv, spec_cosine, Similarity, DIM_LIMIT};
use crate::similarity::lemma_rank_le_total;
use crate::similarity::lemma_cosine_inv;
use crate::similarity::lemma_rank_le_trans;
use crate::types::{SearchResult, Vector, VectorMetadata};

verus! {

/// Mathematical model of one namespace.
#[verifier::ext_equal]
pub ghost struct NsModel {
    pub name: Seq<char>,
    pub dim: int,
    pub vectors: Seq<Vector>,
}

/// Index of the namespace called `name`, or -1 when absent.
pub open spec fn ns_index(m: Seq<NsModel>, name: Seq<char>) -> int
    decreases m.len(),
{
    if m.len() == 0 {
        -1
    } else if m[0].name == name {
        0
    } else {
        let r = ns_index(m.drop_first(), name);
        if r < 0 {
            -1
        } else {
            r + 1
        }
    }
}

/// Index of the vector with the given id, or -1 when absent.
pub open spec fn id_index(vs: Seq<Vector>, id: Seq<char>) -> int
    decreases vs.len(),
{
    if vs.len() == 0 {
        -1
    } else if vs[0].id@ == id {
        0
    } else {
        let r = id_index(vs.drop_first(), id);
        if r < 0 {
            -1
        } else {
            r + 1
        }
    }
}

pub proof fn lemma_ns_index(m: Seq<NsModel>, name: Seq<char>)
    ensures
        -1 <= ns_index(m, name) < m.len(),
        ns_index(m, name) >= 0 ==> m[ns_index(m, name)].name == name && forall|j: int|
            0 <= j < ns_index(m, name) ==> (#[trigger] m[j]).name != name,
        ns_index(m, name) < 0 ==> forall|j: int|
            0 <= j < m.len() ==> (#[trigger] m[j]).name != name,
    decreases m.len(),
{
    if m.len() > 0 && m[0].name != name {
        lemma_ns_index(m.drop_first(), name);
        let r = ns_index(m.drop_first(), name);
        assert forall|j: int| 1 <= j < m.len() implies m.drop_first()[j - 1] == #[trigger] m[j] by {}
        if r >= 0 {
            assert(m[r + 1].name == name);
        }
    }
}

pub proof fn lemma_id_index(vs: Seq<Vector>, id: Seq<char>)
    ensures
        -1 <= id_index(vs, id) < vs.len(),
        id_index(vs, id) >= 0 ==> vs[id_index(vs, id)].id@ == id && forall|j: int|
            0 <= j < id_index(vs, id) ==> (#[trigger] vs[j]).id@ != id,
        id_index(vs, id) < 0 ==> forall|j: int|
            0 <= j < vs.len() ==> (#[trigger] vs[j]).id@ != id,
    decreases vs.len(),
{
    if vs.len() > 0 && vs[0].id@ != id {
        lemma_id_index(vs.drop_first(), id);
        let r = id_index(vs.drop_first(), id);
        assert forall|j: int| 1 <= j < vs.len() implies vs.drop_first()[j - 1] == #[trigger] vs[j] by {}
        if r >= 0 {
            assert(vs[r + 1].id@ == id);
        }
    }
}

/// Well-formedness of one namespace: its dimension is in range, every vector
/// has that dimension with in-range coordinates, and ids are unique.
pub open spec fn ns_inv(ns: NsModel) -> bool {
    &&& 0 <= ns.dim <= DIM_LIMIT
    &&& forall|k: int| 0 <= k < ns.vectors.len()
        ==> (#[trigger] ns.vectors[k]).embedding@.len() == ns.dim
            && coords_ok(ns.vectors[k].embedding@)
    &&& forall|k: int, l: int| 0 <= k < l < ns.vectors.len()
        ==> (#[trigger] ns.vectors[k]).id@ != (#[trigger] ns.vectors[l]).id@
}

/// Well-formedness of the whole store: namespace names are unique and every
/// namespace is well-formed.
pub open spec fn store_inv(m: Seq<NsModel>) -> bool {
    &&& forall|i: int, j: int| 0 <= i < j < m.len()
        ==> (#[trigger] m[i]).name != (#[trigger] m[j]).name
    &&& forall|i: int| 0 <= i < m.len() ==> ns_inv(#[trigger] m[i])
}

/// Whether `store` accepts `v` into namespace `name`: the namespace is new,
/// or the vector matches its established dimension.
pub open spec fn store_accepts(m: Seq<NsModel>, name: Seq<char>, v: Vector) -> bool {
    ns_index(m, name) < 0 || m[ns_index(m, name)].dim == v.embedding@.len()
}

/// The store model after a successful `store` of `v` into `name`.
pub open spec fn spec_store(m: Seq<NsModel>, name: Seq<char>, v: Vector) -> Seq<NsModel> {
    let ni = ns_index(m, name);
    if ni < 0 {
        m.push(NsModel { name: name, dim: v.embedding@.len() as int, vectors: seq![v] })
    } else {
        let ns = m[ni];
        let vi = id_index(ns.vectors, v.id@);
        let nvs = if vi < 0 {
            ns.vectors.push(v)
        } else {
            ns.vectors.update(vi, v)
        };
        m.update(ni, NsModel { name: ns.name, dim: ns.dim, vectors: nvs })
    }
}

/// The store model after deleting id `id` from namespace `name`.
pub open spec fn spec_delete(m: Seq<NsModel>, name: Seq<char>, id: Seq<char>) -> Seq<NsModel> {
    let ni = ns_index(m, name);
    if ni < 0 {
        m
    } else {
        let ns = m[ni];
        let vi = id_index(ns.vectors, id);
        if vi < 0 {
            m
        } else {
            m.update(ni, NsModel { name: ns.name, dim: ns.dim, vectors: ns.vectors.remove(vi) })
        }
    }
}

/// The store model after deleting the whole namespace `name`.
pub open spec fn spec_delete_namespace(m: Seq<NsModel>, name: Seq<char>) -> Seq<NsModel> {
    let ni = ns_index(m, name);
    if ni < 0 {
        m
    } else {
        m.remove(ni)
    }
}

/// Number of vectors currently held by namespace `name` (0 when absent).
pub open spec fn spec_count(m: Seq<NsModel>, name: Seq<char>) -> int {
    let ni = ns_index(m, name);
    if ni < 0 {
        0
    } else {
        m[ni].vectors.len() as int
    }
}

/// The store model after storing a whole batch, first element first.
pub open spec fn spec_store_batch(m: Seq<NsModel>, name: Seq<char>, vs: Seq<Vector>) -> Seq<NsModel>
    decreases vs.len(),
{
    if vs.len() == 0 {
        m
    } else {
        spec_store_batch(spec_store(m, name, vs[0]), name, vs.drop_first())
    }
}

/// The first dimension error a batch would hit, as `(expected, actual)`, or
/// `None` when every element is accepted.
pub open spec fn batch_error(m: Seq<NsModel>, name: Seq<char>, vs: Seq<Vector>) -> Option<(int, int)>
    decreases vs.len(),
{
    if vs.len() == 0 {
        None
    } else if !store_accepts(m, name, vs[0]) {
        Some((m[ns_index(m, name)].dim, vs[0].embedding@.len() as int))
    } else {
        batch_error(spec_store(m, name, vs[0]), name, vs.drop_first())
    }
}

/// Storing a batch extended by one element stores the batch, then the element.
pub proof fn lemma_batch_snoc(m: Seq<NsModel>, name: Seq<char>, vs: Seq<Vector>, v: Vector)
    ensures
        spec_store_batch(m, name, vs.push(v))
            == spec_store(spec_store_batch(m, name, vs), name, v),
    decreases vs.len(),
{
    if vs.len() == 0 {
        assert(vs.push(v)[0] == v);
        assert(vs.push(v).drop_first() =~= Seq::<Vector>::empty());
        assert(spec_store_batch(m, name, vs.push(v))
            == spec_store_batch(spec_store(m, name, v), name, vs.push(v).drop_first()));
        assert(spec_store_batch(spec_store(m, name, v), name, vs.push(v).drop_first())
            == spec_store(m, name, v));
        assert(spec_store_batch(m, name, vs) == m);
    } else {
        assert(vs.push(v)[0] == vs[0]);
        assert(vs.push(v).drop_first() =~= vs.drop_first().push(v));
        lemma_batch_snoc(spec_store(m, name, vs[0]), name, vs.drop_first(), v);
        assert(spec_store_batch(m, name, vs.push(v))
            == spec_store_batch(spec_store(m, name, vs[0]), name, vs.drop_first().push(v)));
        assert(spec_store_batch(m, name, vs)
            == spec_store_batch(spec_store(m, name, vs[0]), name, vs.drop_first()));
    }
}

/// `ns_index` is exactly "the first index whose name matches".
pub proof fn lemma_ns_index_is(m: Seq<NsModel>, name: Seq<char>, i: int)
    requires
        0 <= i < m.len(),
        m[i].name == name,
        forall|j: int| 0 <= j < i ==> (#[trigger] m[j]).name != name,
    ensures
        ns_index(m, name) == i,
{
    lemma_ns_index(m, name);
}

/// `id_index` is exactly "the first index whose id matches".
pub proof fn lemma_id_index_is(vs: Seq<Vector>, id: Seq<char>, i: int)
    requires
        0 <= i < vs.len(),
        vs[i].id@ == id,
        forall|j: int| 0 <= j < i ==> (#[trigger] vs[j]).id@ != id,
    ensures
        id_index(vs, id) == i,
{
    lemma_id_index(vs, id);
}

/// What one accepted `store` does to the model: it preserves the invariant,
/// leaves every other namespace untouched, and grows the target namespace by
/// at most one vector.
pub proof fn lemma_store_effect(m: Seq<NsModel>, name: Seq<char>, v: Vector)
    requires
        store_inv(m),
        coords_ok(v.embedding@),
        store_accepts(m, name, v),
    ensures
        store_inv(spec_store(m, name, v)),
        ns_index(m, name) < 0 ==> spec_store(m, name, v).len() == m.len() + 1
            && ns_index(spec_store(m, name, v), name) == m.len()
            && spec_store(m, name, v)[m.len() as int].dim == v.embedding@.len()
            && spec_store(m, name, v)[m.len() as int].vectors =~= seq![v]
            && forall|j: int| 0 <= j < m.len()
                ==> #[trigger] spec_store(m, name, v)[j] == m[j],
        ns_index(m, name) >= 0 ==> spec_store(m, name, v).len() == m.len()
            && ns_index(spec_store(m, name, v), name) == ns_index(m, name)
            && spec_store(m, name, v)[ns_index(m, name)].dim == m[ns_index(m, name)].dim
            && forall|j: int| 0 <= j < m.len() && j != ns_index(m, name)
                ==> #[trigger] spec_store(m, name, v)[j] == m[j],
        ns_index(m, name) >= 0 ==> spec_count(spec_store(m, name, v), name) == (
            if id_index(m[ns_index(m, name)].vectors, v.id@) >= 0 {
                spec_count(m, name)
            } else {
                spec_count(m, name) + 1
            }
        ),
{
    lemma_ns_index(m, name);
    let m2 = spec_store(m, name, v);
    let ni = ns_index(m, name);
    if ni < 0 {
        lemma_ns_index_is(m2, name, m.len() as int);
        assert forall|i: int| 0 <= i < m2.len() implies ns_inv(#[trigger] m2[i]) by {
            if i < m.len() {
                assert(m2[i] == m[i]);
            } else {
                assert(m2[i].vectors == seq![v]);
                assert(m2[i].vectors[0] == v);
            }
        }
    } else {
        let ns = m[ni];
        let vi = id_index(ns.vectors, v.id@);
        lemma_id_index(ns.vectors, v.id@);
        lemma_ns_index_is(m2, name, ni);
        assert forall|i: int| 0 <= i < m2.len() implies ns_inv(#[trigger] m2[i]) by {
            if i != ni {
                assert(m2[i] == m[i]);
            } else {
                let nvs = m2[ni].vectors;
                assert(ns_inv(m[ni]));
                if vi < 0 {
                    assert forall|k: int, l: int| 0 <= k < l < nvs.len() implies
                        (#[trigger] nvs[k]).id@ != (#[trigger] nvs[l]).id@ by {
                        if l == nvs.len() - 1 {
                            assert(nvs[k] == ns.vectors[k]);
                            assert(nvs[l] == v);
                        } else {
                            assert(nvs[k] == ns.vectors[k]);
                            assert(nvs[l] == ns.vectors[l]);
                        }
                    }
                } else {
                    assert(ns.vectors[vi].id@ == v.id@);
                    assert forall|k: int, l: int| 0 <= k < l < nvs.len() implies
                        (#[trigger] nvs[k]).id@ != (#[trigger] nvs[l]).id@ by {
                        assert(ns.vectors[k].id@ != ns.vectors[l].id@);
                    }
                }
            }
        }
    }
}

/// The score of every stored vector against the query, in storage order.
pub open spec fn scores_of(q: Seq<i64>, vs: Seq<Vector>) -> Seq<Similarity> {
    Seq::new(vs.len(), |i: int| spec_cosine(q, vs[i].embedding@))
}

/// Every score in the sequence is well-formed.
pub open spec fn scores_inv(scores: Seq<Similarity>) -> bool {
    forall|i: int| 0 <= i < scores.len() ==> sim_inv(#[trigger] scores[i])
}

/// Index `i` ranks no later than index `j` in a search: a strictly higher
/// score comes first, and equal scores break the tie by insertion order.
pub open spec fn idx_le(scores: Seq<Similarity>, i: int, j: int) -> bool {
    rank_le(scores[j], scores[i]) && (rank_le(scores[i], scores[j]) ==> i <= j)
}

/// `idx_le` is reflexive and total.
pub proof fn lemma_idx_le_total(scores: Seq<Similarity>, i: int, j: int)
    ensures
        idx_le(scores, i, i),
        idx_le(scores, i, j) || idx_le(scores, j, i),
{
    lemma_rank_le_total(scores[i], scores[j]);
    lemma_rank_le_total(scores[i], scores[i]);
}

/// `idx_le` is transitive over well-formed scores.
pub proof fn lemma_idx_le_trans(scores: Seq<Similarity>, i: int, j: int, k: int)
    requires
        0 <= i < scores.len(),
        0 <= j < scores.len(),
        0 <= k < scores.len(),
        scores_inv(scores),
        idx_le(scores, i, j),
        idx_le(scores, j, k),
    ensures
        idx_le(scores, i, k),
{
    lemma_rank_le_trans(scores[k], scores[j], scores[i]);
    if rank_le(scores[i], scores[k]) {
        lemma_rank_le_trans(scores[i], scores[k], scores[j]);
        lemma_rank_le_trans(scores[j], scores[i], scores[k]);
    }
}

/// Position (within `s`) of the first element that ranks before all others.
pub open spec fn min_pos(scores: Seq<Similarity>, s: Seq<int>) -> int
    decreases s.len(),
{
    if s.len() <= 1 {
        0
    } else {
        let q = min_pos(scores, s.drop_first()) + 1;
        if idx_le(scores, s[0], s[q]) {
            0
        } else {
            q
        }
    }
}

/// All elements of `s` are valid indices into `scores`.
pub open spec fn idxs_ok(scores: Seq<Similarity>, s: Seq<int>) -> bool {
    forall|t: int| 0 <= t < s.len() ==> 0 <= #[trigger] s[t] < scores.len()
}

/// `min_pos` points at the first minimal element.
pub proof fn lemma_min_pos(scores: Seq<Similarity>, s: Seq<int>)
    requires
        s.len() > 0,
        idxs_ok(scores, s),
        scores_inv(scores),
    ensures
        0 <= min_pos(scores, s) < s.len(),
        forall|q: int| 0 <= q < s.len()
            ==> idx_le(scores, s[min_pos(scores, s)], #[trigger] s[q]),
        forall|q: int| 0 <= q < min_pos(scores, s)
            ==> !idx_le(scores, #[trigger] s[q], s[min_pos(scores, s)]),
    decreases s.len(),
{
    let p = min_pos(scores, s);
    if s.len() == 1 {
        lemma_idx_le_total(scores, s[0], s[0]);
    } else {
        let rest = s.drop_first();
        lemma_min_pos(scores, rest);
        let q0 = min_pos(scores, rest) + 1;
        assert forall|t: int| 1 <= t < s.len() implies rest[t - 1] == #[trigger] s[t] by {}
        if idx_le(scores, s[0], s[q0]) {
            assert(p == 0);
            assert forall|q: int| 0 <= q < s.len() implies idx_le(scores, s[p], #[trigger] s[q]) by {
                if q == 0 {
                    lemma_idx_le_total(scores, s[0], s[0]);
                } else {
                    assert(idx_le(scores, rest[q0 - 1], rest[q - 1]));
                    lemma_idx_le_trans(scores, s[0], s[q0], s[q]);
                }
            }
        } else {
            assert(p == q0);
            lemma_idx_le_total(scores, s[0], s[q0]);
            assert forall|q: int| 0 <= q < s.len() implies idx_le(scores, s[p], #[trigger] s[q]) by {
                if q >= 1 {
                    assert(idx_le(scores, rest[q0 - 1], rest[q - 1]));
                }
            }
            assert forall|q: int| 0 <= q < p implies !idx_le(scores, #[trigger] s[q], s[p]) by {
                if q >= 1 {
                    assert(!idx_le(scores, rest[q - 1], rest[q0 - 1]));
                }
            }
        }
    }
}

/// A position that is minimal and first is exactly `min_pos`.
pub proof fn lemma_min_pos_is(scores: Seq<Similarity>, s: Seq<int>, p: int)
    requires
        s.len() > 0,
        idxs_ok(scores, s),
        scores_inv(scores),
        0 <= p < s.len(),
        forall|q: int| 0 <= q < s.len() ==> idx_le(scores, s[p], #[trigger] s[q]),
        forall|q: int| 0 <= q < p ==> !idx_le(scores, #[trigger] s[q], s[p]),
    ensures
        min_pos(scores, s) == p,
{
    let p0 = min_pos(scores, s);
    lemma_min_pos(scores, s);
    if p0 < p {
        assert(idx_le(scores, s[p0], s[p]));
        assert(!idx_le(scores, s[p0], s[p]));
    }
    if p < p0 {
        assert(idx_le(scores, s[p], s[p0]));
        assert(!idx_le(scores, s[p], s[p0]));
    }
}

/// The ranking of the index list `s`: repeatedly take the first minimal
/// element.  This is the unique sort of `s` under `idx_le`.
pub open spec fn spec_sort_idx(scores: Seq<Similarity>, s: Seq<int>) -> Seq<int>
    decreases s.len(),
{
    if s.len() == 0 {
        Seq::empty()
    } else {
        let p = min_pos(scores, s);
        if 0 <= p < s.len() {
            seq![s[p]] + spec_sort_idx(scores, s.remove(p))
        } else {
            Seq::empty()
        }
    }
}

/// The identity index sequence `0, 1, ..., n-1`.
pub open spec fn idx_seq(n: int) -> Seq<int> {
    Seq::new(n as nat, |i: int| i)
}

/// The ranking is a permutation of its input, sorted by `idx_le`.
pub proof fn lemma_sort_idx_ensures(scores: Seq<Similarity>, s: Seq<int>)
    requires
        idxs_ok(scores, s),
        scores_inv(scores),
    ensures
        spec_sort_idx(scores, s).len() == s.len(),
        spec_sort_idx(scores, s).to_multiset() == s.to_multiset(),
        forall|t: int, u: int| 0 <= t < u < s.len()
            ==> idx_le(scores, spec_sort_idx(scores, s)[t], spec_sort_idx(scores, s)[u]),
        forall|t: int| 0 <= t < s.len()
            ==> 0 <= #[trigger] spec_sort_idx(scores, s)[t] < scores.len(),
    decreases s.len(),
{
    broadcast use vstd::seq_lib::group_to_multiset_ensures;

    let r = spec_sort_idx(scores, s);
    if s.len() > 0 {
        lemma_min_pos(scores, s);
        let p = min_pos(scores, s);
        let rest = s.remove(p);
        assert forall|t: int| 0 <= t < rest.len() implies 0 <= #[trigger] rest[t]
            < scores.len() by {
            if t < p {
                assert(rest[t] == s[t]);
            } else {
                assert(rest[t] == s[t + 1]);
            }
        }
        lemma_sort_idx_ensures(scores, rest);
        let rr = spec_sort_idx(scores, rest);
        assert(r == seq![s[p]] + rr);
        assert(r.len() == s.len());
        assert(r.to_multiset() =~= s.to_multiset()) by {
            assert(rest.to_multiset() =~= s.to_multiset().remove(s[p]));
            assert(rr.to_multiset() == rest.to_multiset());
            assert(r =~= rr.insert(0, s[p]));
            assert(r.to_multiset() =~= rr.to_multiset().insert(s[p]));
            assert(s.to_multiset().contains(s[p]));
        }
        assert forall|t: int, u: int| 0 <= t < u < s.len() implies
            idx_le(scores, r[t], r[u]) by {
            if t == 0 {
                assert(r[u] == rr[u - 1]);
                assert(rr.to_multiset().contains(rr[u - 1]));
                assert(rest.to_multiset().contains(rr[u - 1]));
                assert(rest.contains(rr[u - 1]));
                let w = choose|w: int| 0 <= w < rest.len() && rest[w] == rr[u - 1];
                if w < p {
                    assert(rest[w] == s[w]);
                    assert(idx_le(scores, s[p], s[w]));
                } else {
                    assert(rest[w] == s[w + 1]);
                    assert(idx_le(scores, s[p], s[w + 1]));
                }
            } else {
                assert(r[t] == rr[t - 1]);
                assert(r[u] == rr[u - 1]);
            }
        }
        assert forall|t: int| 0 <= t < s.len() implies 0 <= #[trigger] r[t] < scores.len() by {
            if t == 0 {
            } else {
                assert(r[t] == rr[t - 1]);
            }
        }
    }
}

/// Storing twice under one id leaves one vector in the namespace, holding the
/// later payload: the upsert law.
pub proof fn lemma_store_upsert(m: Seq<NsModel>, name: Seq<char>, v1: Vector, v2: Vector)
    requires
        store_inv(m),
        coords_ok(v1.embedding@),
        coords_ok(v2.embedding@),
        v1.id@ == v2.id@,
        v1.embedding@.len() == v2.embedding@.len(),
        store_accepts(m, name, v1),
    ensures
        store_accepts(spec_store(m, name, v1), name, v2),
        spec_count(spec_store(spec_store(m, name, v1), name, v2), name)
            == spec_count(spec_store(m, name, v1), name),
        ns_index(m, name) < 0
            ==> spec_count(spec_store(spec_store(m, name, v1), name, v2), name) == 1,
        ({
            let m2 = spec_store(spec_store(m, name, v1), name, v2);
            let ni = ns_index(m2, name);
            &&& 0 <= ni < m2.len()
            &&& id_index(m2[ni].vectors, v2.id@) >= 0
            &&& m2[ni].vectors[id_index(m2[ni].vectors, v2.id@)] == v2
        }),
{
    lemma_ns_index(m, name);
    lemma_store_effect(m, name, v1);
    let m1 = spec_store(m, name, v1);
    let ni0 = ns_index(m, name);
    let ni1 = ns_index(m1, name);
    if ni0 < 0 {
        assert(m1[ni1].vectors =~= seq![v1]);
        lemma_id_index_is(m1[ni1].vectors, v2.id@, 0);
    } else {
        let vi0 = id_index(m[ni0].vectors, v1.id@);
        lemma_id_index(m[ni0].vectors, v1.id@);
        if vi0 < 0 {
            assert(m1[ni1].vectors == m[ni0].vectors.push(v1));
            assert forall|j: int| 0 <= j < m[ni0].vectors.len() implies
                (#[trigger] m1[ni1].vectors[j]).id@ != v2.id@ by {
                assert(m1[ni1].vectors[j] == m[ni0].vectors[j]);
            }
            assert(m1[ni1].vectors[m[ni0].vectors.len() as int] == v1);
            lemma_id_index_is(m1[ni1].vectors, v2.id@, m[ni0].vectors.len() as int);
        } else {
            assert(m1[ni1].vectors == m[ni0].vectors.update(vi0, v1));
            assert forall|j: int| 0 <= j < vi0 implies
                (#[trigger] m1[ni1].vectors[j]).id@ != v2.id@ by {
                assert(m1[ni1].vectors[j] == m[ni0].vectors[j]);
            }
            assert(m1[ni1].vectors[vi0] == v1);
            lemma_id_index_is(m1[ni1].vectors, v2.id@, vi0);
        }
    }
    let vi1 = id_index(m1[ni1].vectors, v2.id@);
    assert(0 <= vi1 < m1[ni1].vectors.len());
    assert(store_accepts(m1, name, v2));
    lemma_store_effect(m1, name, v2);
    let m2 = spec_store(m1, name, v2);
    let ni2 = ns_index(m2, name);
    assert(ni2 == ni1);
    assert(m2[ni2].vectors == m1[ni1].vectors.update(vi1, v2));
    lemma_id_index_is(m2[ni2].vectors, v2.id@, vi1);
}

/// The results of a search are ranked: scores never increase from one result
/// to the next, every result's score is well-formed, and the result count is
/// `k` clamped to the namespace size.
pub proof fn lemma_search_ordering(q: Seq<i64>, vs: Seq<Vector>, k: int)
    requires
        coords_ok(q),
        forall|i: int| 0 <= i < vs.len() ==> coords_ok((#[trigger] vs[i]).embedding@),
        k >= 0,
    ensures
        spec_search(q, vs, k).len() == (if k < vs.len() as int {
            k
        } else {
            vs.len() as int
        }),
        forall|t: int, u: int| 0 <= t < u < spec_search(q, vs, k).len() ==> rank_le(
            #[trigger] spec_search(q, vs, k)[u].score,
            #[trigger] spec_search(q, vs, k)[t].score,
        ),
        forall|t: int| 0 <= t < spec_search(q, vs, k).len()
            ==> sim_inv(#[trigger] spec_search(q, vs, k)[t].score),
        forall|t: int| 0 <= t < spec_search(q, vs, k).len() ==> exists|i: int|
            0 <= i < vs.len() && #[trigger] spec_search(q, vs, k)[t] == (SearchResult {
                vector_id: vs[i].id,
                text: vs[i].text,
                score: spec_cosine(q, vs[i].embedding@),
                metadata: vs[i].metadata,
            }),
{
    let scores = scores_of(q, vs);
    assert forall|i: int| 0 <= i < scores.len() implies sim_inv(#[trigger] scores[i]) by {
        lemma_cosine_inv(q, vs[i].embedding@);
    }
    lemma_sort_idx_ensures(scores, idx_seq(vs.len() as int));
    let ranked = spec_sort_idx(scores, idx_seq(vs.len() as int));
    let r = spec_search(q, vs, k);
    assert forall|t: int, u: int| 0 <= t < u < r.len() implies rank_le(
        #[trigger] r[u].score,
        #[trigger] r[t].score,
    ) by {
        assert(idx_le(scores, ranked[t], ranked[u]));
    }
}

/// Everything a search returns, pinned exactly: vectors are scored against
/// the query, ranked best-first with ties broken by insertion order, and the
/// first `k` (clamped to the namespace size) are reported.
pub open spec fn spec_search(q: Seq<i64>, vs: Seq<Vector>, k: int) -> Seq<SearchResult> {
    let scores = scores_of(q, vs);
    let ranked = spec_sort_idx(scores, idx_seq(vs.len() as int));
    let kk = if k < vs.len() as int {
        k
    } else {
        vs.len() as int
    };
    Seq::new(
        kk as nat,
        |t: int| SearchResult {
            vector_id: vs[ranked[t]].id,
            text: vs[ranked[t]].text,
            score: scores[ranked[t]],
            metadata: vs[ranked[t]].metadata,
        },
    )
}

/// One namespace of the store, as held in memory.
struct NamespaceEntry {
    name: String,
    dim: usize,
    vectors: Vec<Vector>,
}

/// In-memory vector store.  The host keeps it alive across upgrades through
/// its own checkpointing; `init` and `persist` are the hook points.
pub struct StableMemoryVectorStore {
    namespaces: Vec<NamespaceEntry>,
}

impl View for StableMemoryVectorStore {
    type V = Seq<NsModel>;

    closed spec fn view(&self) -> Seq<NsModel> {
        self.namespaces@.map(
            |i: int, e: NamespaceEntry| NsModel { name: e.name@, dim: e.dim as int, vectors: e.vectors@ },
        )
    }
}

impl StableMemoryVectorStore {
    /// Creates an empty store.
    pub fn new() -> (r: Self)
        ensures
            r@ == Seq::<NsModel>::empty(),
            store_inv(r@),
    {
        let r = StableMemoryVectorStore { namespaces: Vec::new() };
        proof {
            assert(r@ =~= Seq::<NsModel>::empty());
        }
        r
    }

    /// Host hook called on startup or after an upgrade; the in-memory index
    /// is the source of truth, so there is nothing to reload here.
    pub fn init(&self) {
    }

    /// Host hook called before an upgrade; persistence itself is the host's
    /// responsibility, so there is nothing to flush here.
    pub fn persist(&self) {
    }

    /// Index of the namespace named `key`, mirroring `ns_index` on the model.
    fn find_namespace(&self, key: &String) -> (r: Option<usize>)
        ensures
            match r {
                Some(i) => ns_index(self@, key@) == i,
                None => ns_index(self@, key@) == -1,
            },
    {
        proof {
            lemma_ns_index(self@, key@);
        }
        let n = self.namespaces.len();
        let mut i: usize = 0;
        while i < n
            invariant
                n == self.namespaces@.len(),
                n == self@.len(),
                0 <= i <= n,
                forall|j: int| 0 <= j < i ==> (#[trigger] self@[j]).name != key@,
                forall|j: int| 0 <= j < n ==> (#[trigger] self@[j]).name == self.namespaces@[j].name@,
            decreases n - i,
        {
            if self.namespaces[i].name == *key {
                proof {
                    lemma_ns_index(self@, key@);
                    assert(self@[i as int].name == key@);
                    let idx = ns_index(self@, key@);
                    if 0 <= idx < i {
                        assert(self@[idx].name != key@);
                    }
                }
                return Some(i);
            }
            i = i + 1;
        }
        proof {
            lemma_ns_index(self@, key@);
        }
        None
    }

    /// Stores `vector` into `namespace`, creating the namespace when absent.
    /// An existing id is replaced in place (upsert).  A vector whose length
    /// differs from the namespace's established dimension is rejected with
    /// `DimensionMismatch`, and the store is left unchanged.
    pub fn store(&mut self, namespace: &str, vector: Vector) -> (r: Result<(), ContragError>)
        requires
            store_inv(old(self)@),
            coords_ok(vector.embedding@),
        ensures
            store_inv(final(self)@),
            store_accepts(old(self)@, namespace@, vector) ==> r is Ok
                && final(self)@ == spec_store(old(self)@, namespace@, vector),
            !store_accepts(old(self)@, namespace@, vector) ==> final(self)@ == old(self)@
                && r == Err::<(), ContragError>(ContragError::DimensionMismatch {
                    expected: old(self)@[ns_index(old(self)@, namespace@)].dim as usize,
                    actual: vector.embedding@.len() as usize,
                }),
    {
        let ghost m0 = self@;
        let key: String = namespace.to_owned();
        match self.find_namespace(&key) {
            None => {
                proof {
                    lemma_store_effect(m0, key@, vector);
                }
                let dim = vector.embedding.len();
                let mut vs: Vec<Vector> = Vec::new();
                vs.push(vector);
                self.namespaces.push(NamespaceEntry { name: key, dim, vectors: vs });
                proof {
                    assert(self@ =~~= spec_store(m0, namespace@, vector));
                }
                Ok(())
            },
            Some(ni) => {
                proof {
                    lemma_ns_index(m0, key@);
                }
                let dim = self.namespaces[ni].dim;
                if vector.embedding.len() != dim {
                    proof {
                        assert(!store_accepts(m0, namespace@, vector));
                    }
                    return Err(ContragError::DimensionMismatch {
                        expected: dim,
                        actual: vector.embedding.len(),
                    });
                }
                proof {
                    lemma_store_effect(m0, key@, vector);
                }
                match find_id(&self.namespaces[ni].vectors, &vector.id) {
                    None => {
                        self.namespaces[ni].vectors.push(vector);
                        proof {
                            assert(self@ =~~= spec_store(m0, namespace@, vector));
                        }
                        Ok(())
                    },
                    Some(vi) => {
                        proof {
                            lemma_id_index(self.namespaces@[ni as int].vectors@, vector.id@);
                        }
                        self.namespaces[ni].vectors[vi] = vector;
                        proof {
                            assert(self@ =~~= spec_store(m0, namespace@, vector));
                        }
                        Ok(())
                    },
                }
            },
        }
    }

    /// Stores a batch of vectors into `namespace` as one indivisible step.
    /// If any element would be rejected, the whole batch is rejected with the
    /// first element's dimension error and nothing is stored.
    pub fn store_batch(&mut self, namespace: &str, vectors: Vec<Vector>) -> (r: Result<
        (),
        ContragError,
    >)
        requires
            store_inv(old(self)@),
            forall|k: int| 0 <= k < vectors@.len()
                ==> coords_ok((#[trigger] vectors@[k]).embedding@),
        ensures
            store_inv(final(self)@),
            batch_error(old(self)@, namespace@, vectors@) is None ==> r is Ok
                && final(self)@ == spec_store_batch(old(self)@, namespace@, vectors@),
            batch_error(old(self)@, namespace@, vectors@) matches Some(ea)
                ==> final(self)@ == old(self)@
                && r == Err::<(), ContragError>(ContragError::DimensionMismatch {
                    expected: ea.0 as usize,
                    actual: ea.1 as usize,
                }),
    {
        let ghost m0 = self@;
        let ghost vs0 = vectors@;
        let key: String = namespace.to_owned();

        // Validation pass: simulate the batch without touching the store.
        let mut cur_dim: Option<usize> = match self.find_namespace(&key) {
            Some(ni) => {
                proof {
                    lemma_ns_index(m0, key@);
                }
                Some(self.namespaces[ni].dim)
            },
            None => None,
        };
        let ghost mut mg = m0;
        let n = vectors.len();
        let mut i: usize = 0;
        proof {
            assert(vs0.take(0) =~= Seq::<Vector>::empty());
            assert(vs0.skip(0) =~= vs0);
        }
        while i < n
            invariant
                0 <= i <= n,
                n == vectors@.len(),
                vectors@ == vs0,
                m0 == old(self)@,
                self@ == m0,
                key@ == namespace@,
                store_inv(m0),
                store_inv(mg),
                forall|k: int| 0 <= k < vs0.len()
                    ==> coords_ok((#[trigger] vs0[k]).embedding@),
                mg == spec_store_batch(m0, key@, vs0.take(i as int)),
                batch_error(m0, key@, vs0) == batch_error(mg, key@, vs0.skip(i as int)),
                match cur_dim {
                    Some(d) => ns_index(mg, key@) >= 0 && mg[ns_index(mg, key@)].dim == d,
                    None => ns_index(mg, key@) < 0,
                },
            decreases n - i,
        {
            let vlen = vectors[i].embedding.len();
            proof {
                assert(vs0.skip(i as int)[0] == vs0[i as int]);
                assert(vs0.skip(i as int).drop_first() =~= vs0.skip(i as int + 1));
            }
            match cur_dim {
                Some(d) => {
                    if vlen != d {
                        proof {
                            assert(!store_accepts(mg, key@, vs0[i as int]));
                            assert(batch_error(m0, key@, vs0)
                                == Some((d as int, vlen as int)));
                        }
                        return Err(ContragError::DimensionMismatch {
                            expected: d,
                            actual: vlen,
                        });
                    }
                },
                None => {
                    cur_dim = Some(vlen);
                },
            }
            proof {
                assert(store_accepts(mg, key@, vs0[i as int]));
                lemma_store_effect(mg, key@, vs0[i as int]);
                assert(vs0.take(i as int + 1) =~= vs0.take(i as int).push(vs0[i as int]));
                lemma_batch_snoc(m0, key@, vs0.take(i as int), vs0[i as int]);
                mg = spec_store(mg, key@, vs0[i as int]);
            }
            i = i + 1;
        }
        proof {
            assert(vs0.skip(n as int) =~= Seq::<Vector>::empty());
            assert(batch_error(m0, key@, vs0) is None);
        }

        // Commit pass: every store below is accepted.
        let mut rest = vectors;
        let mut k: usize = 0;
        proof {
            assert(vs0.take(0) =~= Seq::<Vector>::empty());
            assert(vs0.skip(0) =~= vs0);
        }
        while rest.len() > 0
            invariant
                0 <= k <= n,
                n == vs0.len(),
                m0 == old(self)@,
                key@ == namespace@,
                store_inv(m0),
                rest@ =~= vs0.skip(k as int),
                store_inv(self@),
                forall|j: int| 0 <= j < vs0.len()
                    ==> coords_ok((#[trigger] vs0[j]).embedding@),
                self@ == spec_store_batch(m0, key@, vs0.take(k as int)),
                batch_error(self@, key@, vs0.skip(k as int)) is None,
            decreases rest@.len(),
        {
            let v = rest.remove(0);
            proof {
                assert(v == vs0[k as int]);
                assert(vs0.skip(k as int)[0] == vs0[k as int]);
                assert(store_accepts(self@, key@, vs0[k as int]));
                assert(vs0.skip(k as int).drop_first() =~= vs0.skip(k as int + 1));
                assert(rest@ =~= vs0.skip(k as int + 1));
                assert(vs0.take(k as int + 1) =~= vs0.take(k as int).push(vs0[k as int]));
                lemma_batch_snoc(m0, key@, vs0.take(k as int), vs0[k as int]);
            }
            let res = self.store(namespace, v);
            proof {
                assert(res is Ok);
            }
            k = k + 1;
        }
        proof {
            assert(k == n);
            assert(vs0.take(n as int) =~= vs0);
        }
        Ok(())
    }

    /// Brute-force similarity search: scores every vector of `namespace`
    /// against the query, sorts descending by exact score with ties broken by
    /// ascending insertion order, and returns at most `k` results.  A
    /// namespace that has never been created is an error; an existing empty
    /// namespace yields an empty result.
    pub fn search(&self, namespace: &str, query_embedding: Vec<i64>, k: usize) -> (r: Result<
        Vec<SearchResult>,
        ContragError,
    >)
        requires
            store_inv(self@),
            coords_ok(query_embedding@),
        ensures
            ns_index(self@, namespace@) < 0 ==> (r matches Err(e)
                && (e matches ContragError::NamespaceNotFound(n) && n@ == namespace@)),
            ns_index(self@, namespace@) >= 0 ==> (r matches Ok(res) && res@ == spec_search(
                query_embedding@,
                self@[ns_index(self@, namespace@)].vectors,
                k as int,
            )),
    {
        let ghost q = query_embedding@;
        let key: String = namespace.to_owned();
        let ni = match self.find_namespace(&key) {
            None => {
                return Err(ContragError::NamespaceNotFound(key));
            },
            Some(ni) => ni,
        };
        proof {
            lemma_ns_index(self@, key@);
        }
        let vs = &self.namespaces[ni].vectors;
        let ghost vsg = vs@;
        proof {
            assert(vsg == self@[ni as int].vectors);
            assert(ns_inv(self@[ni as int]));
        }
        let n = vs.len();

        // Score every stored vector against the query.
        let mut scores: Vec<Similarity> = Vec::new();
        let mut i: usize = 0;
        while i < n
            invariant
                0 <= i <= n,
                vs@ == vsg,
                n == vsg.len(),
                coords_ok(q),
                query_embedding@ == q,
                forall|j: int| 0 <= j < n ==> coords_ok((#[trigger] vsg[j]).embedding@),
                scores@.len() == i,
                forall|j: int| 0 <= j < i ==> #[trigger] scores@[j] == spec_cosine(
                    q,
                    vsg[j].embedding@,
                ) && sim_inv(scores@[j]),
            decreases n - i,
        {
            let s = cosine_similarity(&query_embedding, &vs[i].embedding);
            scores.push(s);
            i = i + 1;
        }
        proof {
            assert(scores@ =~= scores_of(q, vsg));
            lemma_sort_idx_ensures(scores@, idx_seq(n as int));
        }
        let ghost target = spec_sort_idx(scores@, idx_seq(n as int));

        // Rank the indices: repeatedly pick the first best-scoring index.
        let mut rem: Vec<usize> = Vec::new();
        let mut i2: usize = 0;
        while i2 < n
            invariant
                0 <= i2 <= n,
                rem@.len() == i2,
                forall|t: int| 0 <= t < i2 ==> #[trigger] rem@[t] == t,
            decreases n - i2,
        {
            rem.push(i2);
            i2 = i2 + 1;
        }
        let ghost mut remg: Seq<int> = idx_seq(n as int);
        proof {
            assert forall|t: int| 0 <= t < remg.len() implies #[trigger] remg[t]
                == rem@[t] as int by {}
        }

        let mut out: Vec<usize> = Vec::new();
        while rem.len() > 0
            invariant
                scores@ == scores_of(q, vsg),
                scores@.len() == n,
                scores_inv(scores@),
                target == spec_sort_idx(scores@, idx_seq(n as int)),
                remg.len() == rem@.len(),
                forall|t: int| 0 <= t < remg.len() ==> #[trigger] remg[t] == rem@[t] as int,
                idxs_ok(scores@, remg),
                out@.len() + rem@.len() == n,
                target =~= out@.map_values(|v: usize| v as int) + spec_sort_idx(scores@, remg),
            decreases rem@.len(),
        {
            let m = rem.len();
            let mut best: usize = 0;
            let mut pos: usize = 1;
            while pos < m
                invariant
                    m == rem@.len(),
                    m > 0,
                    remg.len() == m,
                    forall|t: int| 0 <= t < remg.len() ==> #[trigger] remg[t] == rem@[t] as int,
                    idxs_ok(scores@, remg),
                    scores_inv(scores@),
                    0 <= best < pos <= m,
                    forall|t: int| 0 <= t < pos ==> idx_le(
                        scores@,
                        remg[best as int],
                        #[trigger] remg[t],
                    ),
                    forall|t: int| 0 <= t < best ==> !idx_le(
                        scores@,
                        #[trigger] remg[t],
                        remg[best as int],
                    ),
                decreases m - pos,
            {
                let a = rem[best];
                let b = rem[pos];
                proof {
                    assert(remg[pos as int] == rem@[pos as int] as int);
                    assert(0 <= remg[pos as int] < scores@.len());
                    assert(remg[best as int] == rem@[best as int] as int);
                    assert(0 <= remg[best as int] < scores@.len());
                    assert(sim_inv(scores@[a as int]));
                    assert(sim_inv(scores@[b as int]));
                }
                let le_ba = rank_le_exec(&scores[b], &scores[a]);
                let le_ab = rank_le_exec(&scores[a], &scores[b]);
                let a_le_b = le_ba && (!le_ab || a <= b);
                proof {
                    assert(a_le_b == idx_le(scores@, remg[best as int], remg[pos as int]));
                }
                if !a_le_b {
                    proof {
                        lemma_idx_le_total(scores@, remg[best as int], remg[pos as int]);
                        assert(idx_le(scores@, remg[pos as int], remg[best as int]));
                        assert forall|t: int| 0 <= t < pos + 1 implies idx_le(
                            scores@,
                            remg[pos as int],
                            #[trigger] remg[t],
                        ) by {
                            if t < pos {
                                lemma_idx_le_trans(
                                    scores@,
                                    remg[pos as int],
                                    remg[best as int],
                                    remg[t],
                                );
                            } else {
                                lemma_idx_le_total(scores@, remg[pos as int], remg[pos as int]);
                            }
                        }
                        assert forall|t: int| 0 <= t < pos implies !idx_le(
                            scores@,
                            #[trigger] remg[t],
                            remg[pos as int],
                        ) by {
                            if idx_le(scores@, remg[t], remg[pos as int]) {
                                lemma_idx_le_trans(
                                    scores@,
                                    remg[best as int],
                                    remg[t],
                                    remg[pos as int],
                                );
                            }
                        }
                    }
                    best = pos;
                }
                pos = pos + 1;
            }
            proof {
                lemma_min_pos_is(scores@, remg, best as int);
            }
            let chosen = rem[best];
            out.push(chosen);
            rem.remove(best);
            let ghost remg_old = remg;
            let ghost out_old = out@.map_values(|v: usize| v as int);
            proof {
                remg = remg_old.remove(best as int);
                assert forall|t: int| 0 <= t < remg.len() implies #[trigger] remg[t]
                    == rem@[t] as int by {
                    if t < best {
                        assert(remg[t] == remg_old[t]);
                    } else {
                        assert(remg[t] == remg_old[t + 1]);
                    }
                }
                assert(spec_sort_idx(scores@, remg_old) =~= seq![remg_old[best as int]]
                    + spec_sort_idx(scores@, remg));
                assert(out@.map_values(|v: usize| v as int) =~= out_old.drop_last().push(
                    chosen as int,
                ));
                assert(target =~= out@.map_values(|v: usize| v as int) + spec_sort_idx(
                    scores@,
                    remg,
                ));
            }
        }
        proof {
            assert(spec_sort_idx(scores@, remg) =~= Seq::<int>::empty());
            assert(target =~= out@.map_values(|v: usize| v as int));
        }

        // Emit the first k ranked results.
        let kk = if k < n {
            k
        } else {
            n
        };
        let ghost expect = spec_search(q, vsg, k as int);
        let mut results: Vec<SearchResult> = Vec::new();
        let mut t: usize = 0;
        while t < kk
            invariant
                0 <= t <= kk,
                kk <= n,
                kk as int == (if (k as int) < vsg.len() as int { k as int } else { vsg.len() as int }),
                vs@ == vsg,
                n == vsg.len(),
                scores@ == scores_of(q, vsg),
                scores@.len() == n,
                out@.len() == n,
                target == spec_sort_idx(scores@, idx_seq(n as int)),
                forall|u: int| 0 <= u < n ==> #[trigger] out@[u] as int == target[u],
                forall|u: int| 0 <= u < n ==> 0 <= #[trigger] target[u] < n,
                expect == spec_search(q, vsg, k as int),
                results@.len() == t,
                forall|u: int| 0 <= u < t ==> #[trigger] results@[u] == expect[u],
            decreases kk - t,
        {
            let oi = out[t];
            let v = &vs[oi];
            let sr = SearchResult {
                vector_id: v.id.clone(),
                text: v.text.clone(),
                score: scores[oi],
                metadata: VectorMetadata {
                    entity_type: v.metadata.entity_type.clone(),
                    entity_id: v.metadata.entity_id.clone(),
                    chunk_index: v.metadata.chunk_index,
                    total_chunks: v.metadata.total_chunks,
                    timestamp: v.metadata.timestamp,
                    custom: match &v.metadata.custom {
                        Some(c) => Some(c.clone()),
                        None => None,
                    },
                },
            };
            proof {
                assert(sr.metadata == vsg[oi as int].metadata);
                assert(sr == expect[t as int]);
            }
            results.push(sr);
            t = t + 1;
        }
        proof {
            assert(results@ =~= expect);
        }
        Ok(results)
    }

    /// Deletes the vector with id `vector_id` from `namespace`.  A missing
    /// namespace or id is a successful no-op.
    pub fn delete(&mut self, namespace: &str, vector_id: &str) -> (r: Result<(), ContragError>)
        requires
            store_inv(old(self)@),
        ensures
            store_inv(final(self)@),
            r is Ok,
            final(self)@ == spec_delete(old(self)@, namespace@, vector_id@),
    {
        let ghost m0 = self@;
        let key: String = namespace.to_owned();
        let id: String = vector_id.to_owned();
        match self.find_namespace(&key) {
            None => Ok(()),
            Some(ni) => {
                proof {
                    lemma_ns_index(m0, key@);
                }
                match find_id(&self.namespaces[ni].vectors, &id) {
                    None => Ok(()),
                    Some(vi) => {
                        proof {
                            lemma_id_index(self.namespaces@[ni as int].vectors@, id@);
                        }
                        self.namespaces[ni].vectors.remove(vi);
                        proof {
                            assert(self@ =~~= spec_delete(m0, namespace@, vector_id@));
                            let m2 = self@;
                            let vs0 = m0[ni as int].vectors;
                            assert forall|i: int| 0 <= i < m2.len() implies
                                ns_inv(#[trigger] m2[i]) by {
                                assert(ns_inv(m0[i]));
                                if i == ni {
                                    assert forall|k: int, l: int|
                                        0 <= k < l < m2[i].vectors.len() implies
                                        (#[trigger] m2[i].vectors[k]).id@
                                            != (#[trigger] m2[i].vectors[l]).id@ by {
                                        let k0: int = if k < vi { k } else { k + 1 };
                                        let l0: int = if l < vi { l } else { l + 1 };
                                        assert(m2[i].vectors[k] == vs0[k0]);
                                        assert(m2[i].vectors[l] == vs0[l0]);
                                    }
                                }
                            }
                        }
                        Ok(())
                    },
                }
            },
        }
    }

    /// Deletes a whole namespace with all its vectors; a missing namespace is
    /// a successful no-op.
    pub fn delete_namespace(&mut self, namespace: &str) -> (r: Result<(), ContragError>)
        requires
            store_inv(old(self)@),
        ensures
            store_inv(final(self)@),
            r is Ok,
            final(self)@ == spec_delete_namespace(old(self)@, namespace@),
    {
        let ghost m0 = self@;
        let key: String = namespace.to_owned();
        match self.find_namespace(&key) {
            None => Ok(()),
            Some(ni) => {
                proof {
                    lemma_ns_index(m0, key@);
                }
                self.namespaces.remove(ni);
                proof {
                    assert(self@ =~~= spec_delete_namespace(m0, namespace@));
                    let m2 = self@;
                    assert forall|i: int, j: int| 0 <= i < j < m2.len() implies
                        (#[trigger] m2[i]).name != (#[trigger] m2[j]).name by {
                        let i0: int = if i < ni { i } else { i + 1 };
                        let j0: int = if j < ni { j } else { j + 1 };
                        assert(m2[i] == m0[i0]);
                        assert(m2[j] == m0[j0]);
                    }
                    assert forall|i: int| 0 <= i < m2.len() implies ns_inv(#[trigger] m2[i]) by {
                        let i0: int = if i < ni { i } else { i + 1 };
                        assert(m2[i] == m0[i0]);
                    }
                }
                Ok(())
            },
        }
    }

    /// Number of vectors currently stored in `namespace` (0 when absent).
    pub fn count(&self, namespace: &str) -> (r: Result<usize, ContragError>)
        ensures
            r == Ok::<usize, ContragError>(spec_count(self@, namespace@) as usize),
    {
        let key: String = namespace.to_owned();
        match self.find_namespace(&key) {
            None => Ok(0),
            Some(ni) => {
                proof {
                    lemma_ns_index(self@, key@);
                }
                Ok(self.namespaces[ni].vectors.len())
            },
        }
    }

    /// All namespace names, in order of first creation.
    pub fn list_namespaces(&self) -> (r: Result<Vec<String>, ContragError>)
        ensures
            r is Ok,
            r matches Ok(names) && names@.len() == self@.len() && forall|i: int|
                0 <= i < self@.len() ==> (#[trigger] names@[i])@ == self@[i].name,
    {
        let n = self.namespaces.len();
        let mut names: Vec<String> = Vec::new();
        let mut i: usize = 0;
        while i < n
            invariant
                n == self.namespaces@.len(),
                n == self@.len(),
                0 <= i <= n,
                names@.len() == i,
                forall|j: int| 0 <= j < i ==> (#[trigger] names@[j])@ == self@[j].name,
            decreases n - i,
        {
            names.push(self.namespaces[i].name.clone());
            i = i + 1;
        }
        Ok(names)
    }
}

/// Creates a fresh, empty vector store.
pub fn create_vector_store() -> (r: StableMemoryVectorStore)
    ensures
        r@ == Seq::<NsModel>::empty(),
        store_inv(r@),
{
    StableMemoryVectorStore::new()
}

/// Index of the vector with id `id` in `vs`, mirroring `id_index`.
fn find_id(vs: &Vec<Vector>, id: &String) -> (r: Option<usize>)
    ensures
        match r {
            Some(i) => id_index(vs@, id@) == i,
            None => id_index(vs@, id@) == -1,
        },
{
    proof {
        lemma_id_index(vs@, id@);
    }
    let n = vs.len();
    let mut i: usize = 0;
    while i < n
        invariant
            n == vs@.len(),
            0 <= i <= n,
            forall|j: int| 0 <= j < i ==> (#[trigger] vs@[j]).id@ != id@,
        decreases n - i,
    {
        if vs[i].id == *id {
            proof {
                lemma_id_index(vs@, id@);
            }
            return Some(i);
        }
        i = i + 1;
    }
    proof {
        lemma_id_index(vs@, id@);
    }
    None
}

} // verus!
