//! Vertex welding: mesh corners whose quantised positions agree become one vertex.
use vstd::prelude::*;
use std::collections::BTreeMap;

verus! {

broadcast use vstd::std_specs::btree::group_btree_axioms, vstd::laws_cmp::group_laws_cmp;

/// The quantised position of a vertex; corners with equal keys are merged.
pub type WeldKey = (i64, i64, i64);

/// The key of every corner of the index buffer, in buffer order.
pub open spec fn corner_keys(indices: Seq<u32>, vertex_keys: Seq<WeldKey>) -> Seq<WeldKey> {
    Seq::new(indices.len(), |j: int| vertex_keys[indices[j] as int])
}

/// Corner `j` is the first one that carries its key.
pub open spec fn is_first_with_key(ks: Seq<WeldKey>, j: int) -> bool {
    !ks.take(j).contains(ks[j])
}

/// How many of the first `n` corners are the first to carry their key.
pub open spec fn count_first(ks: Seq<WeldKey>, n: int) -> nat
    decreases n,
{
    if n <= 0 {
        0
    } else {
        count_first(ks, n - 1) + if is_first_with_key(ks, n - 1) { 1nat } else { 0nat }
    }
}

/// `remapped` and `sources` are what welding the corners with keys `ks` gives:
/// welded vertices are numbered in order of the first corner with their key,
/// each takes the position of that corner's source vertex, and every corner is
/// mapped to the welded vertex of its key.
pub open spec fn welds(
    ks: Seq<WeldKey>,
    indices: Seq<u32>,
    remapped: Seq<usize>,
    sources: Seq<usize>,
) -> bool {
    &&& remapped.len() == ks.len()
    &&& sources.len() == count_first(ks, ks.len() as int)
    &&& forall|j: int| 0 <= j < ks.len() ==> #[trigger] remapped[j] < sources.len()
    &&& forall|j: int|
        #![trigger remapped[j]]
        0 <= j < ks.len() && is_first_with_key(ks, j) ==> {
            &&& remapped[j] == count_first(ks, j)
            &&& sources[remapped[j] as int] == indices[j]
        }
    &&& forall|i: int, j: int|
        #![trigger remapped[i], remapped[j]]
        0 <= i < j < ks.len() && ks[i] == ks[j] ==> remapped[i] == remapped[j]
}

proof fn lemma_count_first_step(ks: Seq<WeldKey>, n: int)
    requires
        0 <= n,
    ensures
        count_first(ks, n + 1) == count_first(ks, n) + if is_first_with_key(ks, n) { 1nat } else { 0nat },
{
}

/// Welds the corners of an index buffer.
///
/// `vertex_keys[v]` is the quantised position of source vertex `v`. Returns, for
/// every corner, the welded vertex it refers to, and for every welded vertex the
/// source vertex whose position it takes.
pub fn weld_vertices(indices: &Vec<u32>, vertex_keys: &Vec<WeldKey>) -> (res: (Vec<usize>, Vec<usize>))
    requires
        forall|j: int| 0 <= j < indices.len() ==> (#[trigger] indices[j]) < vertex_keys.len(),
    ensures
        welds(corner_keys(indices@, vertex_keys@), indices@, res.0@, res.1@),
        forall|j: int|
            #![trigger res.0[j]]
            0 <= j < indices.len() ==> {
                &&& res.0[j] < res.1.len()
                &&& res.1[res.0[j] as int] < vertex_keys.len()
                &&& vertex_keys[res.1[res.0[j] as int] as int] == vertex_keys[indices[j] as int]
            },
        forall|i: int, j: int|
            0 <= i < indices.len() && 0 <= j < indices.len() ==> (#[trigger] res.0[i] == #[trigger] res.0[j]
                <==> vertex_keys[indices[i] as int] == vertex_keys[indices[j] as int]),
{
    let ghost ks = corner_keys(indices@, vertex_keys@);
    let mut lookup: BTreeMap<WeldKey, usize> = BTreeMap::new();
    let mut remapped: Vec<usize> = Vec::new();
    let mut sources: Vec<usize> = Vec::new();
    let mut j: usize = 0;
    while j < indices.len()
        invariant
            ks == corner_keys(indices@, vertex_keys@),
            forall|j: int| 0 <= j < indices.len() ==> (#[trigger] indices[j]) < vertex_keys.len(),
            0 <= j <= indices.len(),
            remapped.len() == j,
            sources.len() == count_first(ks, j as int),
            forall|k: int| 0 <= k < sources.len() ==> (#[trigger] sources[k]) < vertex_keys.len(),
            forall|a: int|
                #![trigger remapped[a]]
                0 <= a < j && is_first_with_key(ks, a) ==> {
                    &&& remapped[a] == count_first(ks, a)
                    &&& sources[remapped[a] as int] == indices[a]
                },
            forall|a: int|
                #![trigger remapped[a]]
                0 <= a < j ==> {
                    &&& remapped[a] < sources.len()
                    &&& vertex_keys[sources[remapped[a] as int] as int] == ks[a]
                    &&& lookup@.contains_key(ks[a])
                    &&& lookup@[ks[a]] == remapped[a]
                },
            forall|key: WeldKey| #[trigger] lookup@.contains_key(key) ==> ks.take(j as int).contains(key),
            forall|k: int|
                #![trigger sources[k]]
                0 <= k < sources.len() ==> lookup@.contains_key(vertex_keys[sources[k] as int])
                    && lookup@[vertex_keys[sources[k] as int]] == k,
        decreases indices.len() - j,
    {
        let ghost old_remapped = remapped@;
        let v = indices[j] as usize;
        let key = vertex_keys[v];
        assert(key == ks[j as int]);
        proof {
            lemma_count_first_step(ks, j as int);
            assert(ks.take(j as int + 1) =~= ks.take(j as int).push(ks[j as int]));
        }
        match lookup.get(&key) {
            Some(mapped) => {
                let mapped = *mapped;
                assert(ks.take(j as int).contains(key));
                let ghost a = choose|a: int| 0 <= a < j && ks.take(j as int)[a] == key;
                assert(ks[a] == key);
                assert(remapped[a] == mapped);
                assert(vertex_keys[sources[mapped as int] as int] == key);
                remapped.push(mapped);
            },
            None => {
                assert(!ks.take(j as int).contains(key)) by {
                    assert(!lookup@.contains_key(key));
                    if ks.take(j as int).contains(key) {
                        let a = choose|a: int| 0 <= a < j && ks.take(j as int)[a] == key;
                        assert(ks.take(j as int)[a] == ks[a]);
                        assert(0 <= a < j);
                        assert(remapped[a] < sources.len());
                        assert(lookup@.contains_key(ks[a]));
                    }
                }
                assert forall|a: int| 0 <= a < j implies ks[a] != key by {
                    assert(ks.take(j as int)[a] == ks[a]);
                }
                let mapped = sources.len();
                sources.push(v);
                lookup.insert(key, mapped);
                remapped.push(mapped);
            },
        }
        assert forall|a: int| 0 <= a < j + 1 implies {
                    &&& #[trigger] remapped[a] < sources.len()
                    &&& vertex_keys[sources[remapped[a] as int] as int] == ks[a]
                    &&& lookup@.contains_key(ks[a])
                    &&& lookup@[ks[a]] == remapped[a]
                } by {
            if a < j {
                assert(remapped[a] == old_remapped[a]);
            }
        }
        assert forall|k: WeldKey| #[trigger] lookup@.contains_key(k) implies ks.take(j as int + 1).contains(k) by {
            if k != key {
                assert(ks.take(j as int).contains(k));
                let a = choose|a: int| 0 <= a < j && ks.take(j as int)[a] == k;
                assert(ks.take(j as int + 1)[a] == k);
            } else {
                assert(ks.take(j as int + 1)[j as int] == k);
            }
        }
        j += 1;
    }
    proof {
        assert(ks.take(indices.len() as int) =~= ks);
        assert forall|a: int, b: int|
            #![trigger remapped[a], remapped[b]]
            0 <= a < b < ks.len() && ks[a] == ks[b] implies remapped[a] == remapped[b] by {
            assert(remapped[a] < sources.len());
            assert(remapped[b] < sources.len());
        }
        assert forall|a: int, b: int|
            0 <= a < indices.len() && 0 <= b < indices.len() implies (#[trigger] remapped[a] == #[trigger] remapped[b]
                <==> vertex_keys[indices[a] as int] == vertex_keys[indices[b] as int]) by {
            assert(ks[a] == vertex_keys[indices[a] as int]);
            assert(ks[b] == vertex_keys[indices[b] as int]);
        }
    }
    (remapped, sources)
}

} // verus!
