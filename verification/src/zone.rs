//! The data a zone is made of: triangles with their neighbours, and groups.
use vstd::prelude::*;

verus! {

/// One triangle of a navigation mesh.
///
/// `id` is the triangle's index within its group (within the whole mesh while
/// the zone is being built), `neighbours[k]` is a triangle that shares the edge
/// `portals[k]` with it, and `vertex_indices` are its corners as welded vertices.
#[derive(Debug, Clone)]
pub struct PolygonInput {
    pub id: usize,
    pub group_id: i32,
    pub neighbours: Vec<usize>,
    pub portals: Vec<[usize; 2]>,
    pub vertex_indices: [usize; 3],
}

/// A built zone: its connected groups of triangles, and for every welded
/// vertex the source vertex (an index into the caller's position buffer) whose
/// position it takes.
#[derive(Debug, Clone)]
pub struct ZoneInput {
    pub groups: Vec<Vec<PolygonInput>>,
    pub vertices: Vec<usize>,
}

/// Every node's id is its index within its group.
pub open spec fn ids_local(zone: ZoneInput) -> bool {
    forall|g: int, i: int|
        0 <= g < zone.groups.len() && 0 <= i < zone.groups[g]@.len() ==> (#[trigger] zone.groups[g]@[i]).id == i
}

/// The corner triples of a sequence of triangles.
pub open spec fn corner_triples(tris: Seq<PolygonInput>) -> Seq<[usize; 3]> {
    Seq::new(tris.len(), |t: int| tris[t].vertex_indices)
}

} // verus!
