//! Building a zone from a triangle mesh: checking the buffers, welding the
//! vertices, linking adjacent triangles and splitting them into connected
//! groups.
use vstd::prelude::*;
use crate::zone::{PolygonInput, ZoneInput, corner_triples, ids_local};
use crate::weld::{WeldKey, corner_keys, welds, weld_vertices};
use crate::adjacency::{build_triangles, link_neighbours, link_ids, link_portals, lemma_links_shape, lemma_links_symmetric, first_portal_for, lemma_first_portal_symmetric, step_portal, edge_of, last_with_edge, partner, lemma_last_with_edge_found, lemma_partner_linked};
use crate::group::{NeighborLink, node_links, links_of, first_portal_to};
use crate::grouping::{adjacency, group_ids, numbers_components, assign_groups, in_range, symmetric, groups_closed};
use crate::split::{members, local_index, split_groups, splits_into};

verus! {

/// Why a mesh cannot become a zone.
#[derive(Debug, Clone, Copy, PartialEq, Eq)]
pub enum MeshError {
    /// The position buffer does not hold whole `x, y, z` triples.
    PositionsNotTriples,
    /// The index buffer does not hold whole triangles.
    IndicesNotTriangles,
    /// An index refers past the last vertex.
    IndexOutOfBounds,
}

impl MeshError {
    /// The text of the error.
    pub open spec fn message_spec(self) -> Seq<char> {
        match self {
            MeshError::PositionsNotTriples => "positions length must be multiple of 3"@,
            MeshError::IndicesNotTriangles => "indices length must be multiple of 3"@,
            MeshError::IndexOutOfBounds => "index out of bounds for positions"@,
        }
    }

    /// The text of the error.
    pub fn message(&self) -> (s: String)
        ensures
            s@ == self.message_spec(),
    {
        match self {
            MeshError::PositionsNotTriples => String::from_str("positions length must be multiple of 3"),
            MeshError::IndicesNotTriangles => String::from_str("indices length must be multiple of 3"),
            MeshError::IndexOutOfBounds => String::from_str("index out of bounds for positions"),
        }
    }
}

/// Some index refers past the last of `vertex_count` vertices.
pub open spec fn has_index_out_of_bounds(indices: Seq<u32>, vertex_count: int) -> bool {
    exists|j: int| 0 <= j < indices.len() && #[trigger] indices[j] >= vertex_count
}

/// The error, if any, that a mesh with `positions_len` coordinates and the
/// index buffer `indices` is refused with; checks are made in this order.
pub open spec fn mesh_error(positions_len: int, indices: Seq<u32>) -> Option<MeshError> {
    if positions_len % 3 != 0 {
        Some(MeshError::PositionsNotTriples)
    } else if indices.len() % 3 != 0 {
        Some(MeshError::IndicesNotTriangles)
    } else if has_index_out_of_bounds(indices, positions_len / 3) {
        Some(MeshError::IndexOutOfBounds)
    } else {
        None
    }
}

/// Checks that `positions_len` coordinates make whole vertices, that the index
/// buffer makes whole triangles and that every index names a vertex.
pub fn check_mesh(positions_len: usize, indices: &Vec<u32>) -> (res: Result<(), MeshError>)
    ensures
        res matches Err(e) ==> mesh_error(positions_len as int, indices@) == Some(e),
        res is Ok <==> mesh_error(positions_len as int, indices@) is None,
{
    if !positions_len.is_multiple_of(3) {
        return Err(MeshError::PositionsNotTriples);
    }
    if !indices.len().is_multiple_of(3) {
        return Err(MeshError::IndicesNotTriangles);
    }
    let vertex_count = positions_len / 3;
    let mut j: usize = 0;
    while j < indices.len()
        invariant
            j <= indices.len(),
            positions_len % 3 == 0,
            indices.len() % 3 == 0,
            vertex_count == positions_len / 3,
            forall|i: int| 0 <= i < j ==> (#[trigger] indices[i]) < vertex_count,
        decreases indices.len() - j,
    {
        if indices[j] as usize >= vertex_count {
            assert(indices@[j as int] >= vertex_count);
            assert(has_index_out_of_bounds(indices@, positions_len as int / 3));
            return Err(MeshError::IndexOutOfBounds);
        }
        j += 1;
    }
    Ok(())
}

/// The corner triples of a welded index buffer, one per triangle.
pub open spec fn triples(r: Seq<usize>) -> Seq<[usize; 3]> {
    Seq::new(r.len() / 3, |t: int| [r[3 * t], r[3 * t + 1], r[3 * t + 2]])
}

/// The neighbour lists that linking gives the triangles `vs`.
pub open spec fn linked_adjacency(vs: Seq<[usize; 3]>) -> Seq<Seq<usize>> {
    Seq::new(vs.len(), |t: int| link_ids(vs, t, 3 * vs.len() as int))
}

/// `z` lays out the triangles `vs`, linked and numbered into `count` groups by
/// `grp`: group `g` holds the triangles of `g` in order, each renumbered to its
/// index in the group, with its neighbours renumbered the same way and the
/// shared edges as portals.
pub open spec fn zone_layout(z: ZoneInput, vs: Seq<[usize; 3]>, grp: Seq<i32>, count: int) -> bool {
    let n = vs.len() as int;
    &&& z.groups.len() == count
    &&& forall|g: int|
        #![trigger z.groups[g]]
        0 <= g < count ==> {
            &&& z.groups[g].len() == members(grp, g, n).len()
            &&& forall|i: int|
                #![trigger z.groups[g][i]]
                0 <= i < z.groups[g].len() ==> {
                    let t = members(grp, g, n)[i];
                    &&& z.groups[g][i].id == i
                    &&& z.groups[g][i].group_id == grp[t]
                    &&& z.groups[g][i].vertex_indices == vs[t]
                    &&& z.groups[g][i].portals@ == link_portals(vs, t, 3 * n)
                    &&& z.groups[g][i].neighbours@ == link_ids(vs, t, 3 * n).map_values(
                        |b: usize| local_index(grp, b as int) as usize,
                    )
                }
        }
}

/// `z` is built from `indices` and `vertex_keys` by way of the welded index
/// buffer `r` and the group numbering `grp`.
pub open spec fn built_via(indices: Seq<u32>, vertex_keys: Seq<WeldKey>, z: ZoneInput, r: Seq<usize>, grp: Seq<i32>) -> bool {
    &&& indices.len() <= usize::MAX
    &&& r.len() % 3 == 0
    &&& welds(corner_keys(indices, vertex_keys), indices, r, z.vertices@)
    &&& numbers_components(linked_adjacency(triples(r)), grp, z.groups.len() as int)
    &&& zone_layout(z, triples(r), grp, z.groups.len() as int)
}

/// `z` is the zone that the index buffer `indices` over vertices with the
/// weld keys `vertex_keys` makes: its vertices are the welded vertices, and its
/// groups are the connected parts of the welded triangles' adjacency, numbered
/// in the order of their first triangle.
pub open spec fn builds_zone(indices: Seq<u32>, vertex_keys: Seq<WeldKey>, z: ZoneInput) -> bool {
    exists|r: Seq<usize>, grp: Seq<i32>| #[trigger] built_via(indices, vertex_keys, z, r, grp)
}

/// Welds, links and groups a checked mesh.
fn build_zone_impl(indices: &Vec<u32>, vertex_keys: &Vec<WeldKey>) -> (zone: ZoneInput)
    requires
        indices.len() % 3 == 0,
        indices.len() / 3 <= i32::MAX,
        forall|j: int| 0 <= j < indices.len() ==> (#[trigger] indices[j]) < vertex_keys.len(),
    ensures
        builds_zone(indices@, vertex_keys@, zone),
{
    let (remapped, vertices) = weld_vertices(indices, vertex_keys);
    let ghost r = remapped@;
    let mut triangles = build_triangles(&remapped);
    let ghost vs = corner_triples(triangles@);
    proof {
        assert(vs =~= triples(r));
    }
    link_neighbours(&mut triangles);
    let ghost linked = triangles@;
    let ghost n = linked.len() as int;
    proof {
        assert(adjacency(linked) =~= linked_adjacency(vs));
        assert forall|a: int, k: int|
            0 <= a < adjacency(linked).len() && 0 <= k < adjacency(linked)[a].len() implies (#[trigger] adjacency(
                linked,
            )[a][k]) < adjacency(linked).len() by {
            lemma_links_shape(vs, a, 3 * n);
        }
        assert forall|a: usize, b: usize|
            a < adjacency(linked).len() && b < adjacency(linked).len() && (#[trigger] adjacency(
                linked,
            )[a as int].contains(b)) implies #[trigger] adjacency(linked)[b as int].contains(a) by {
            lemma_links_symmetric(vs, a as int, b as int, 3 * n);
        }
        assert(in_range(adjacency(linked)));
        assert(symmetric(adjacency(linked)));
    }
    let count = assign_groups(&mut triangles);
    let ghost grouped = triangles@;
    let ghost grp = group_ids(grouped);
    proof {
        assert(adjacency(grouped) =~= adjacency(linked));
        assert forall|t: int|
            #![trigger grouped[t]]
            0 <= t < grouped.len() implies {
                &&& grouped[t].id == t
                &&& 0 <= grouped[t].group_id < count
                &&& forall|k: int|
                    0 <= k < grouped[t].neighbours@.len() ==> (#[trigger] grouped[t].neighbours@[k])
                        < grouped.len()
            } by {
            assert(grp[t] == grouped[t].group_id);
            assert(grouped[t].neighbours@ == adjacency(linked)[t]);
        }
    }
    let groups = split_groups(triangles, count);
    let zone = ZoneInput { groups, vertices };
    proof {
        assert forall|g: int|
            #![trigger zone.groups[g]]
            0 <= g < count implies {
                &&& zone.groups[g].len() == members(grp, g, n).len()
                &&& forall|i: int|
                    #![trigger zone.groups[g][i]]
                    0 <= i < zone.groups[g].len() ==> {
                        let t = members(grp, g, n)[i];
                        &&& zone.groups[g][i].id == i
                        &&& zone.groups[g][i].group_id == grp[t]
                        &&& zone.groups[g][i].vertex_indices == vs[t]
                        &&& zone.groups[g][i].portals@ == link_portals(vs, t, 3 * n)
                        &&& zone.groups[g][i].neighbours@ == link_ids(vs, t, 3 * n).map_values(
                            |b: usize| local_index(grp, b as int) as usize,
                        )
                    }
            } by {
            assert forall|i: int| 0 <= i < zone.groups[g].len() implies {
                let t = members(grp, g, n)[i];
                &&& (#[trigger] zone.groups[g][i]).id == i
                &&& zone.groups[g][i].group_id == grp[t]
                &&& zone.groups[g][i].vertex_indices == vs[t]
                &&& zone.groups[g][i].portals@ == link_portals(vs, t, 3 * n)
                &&& zone.groups[g][i].neighbours@ == link_ids(vs, t, 3 * n).map_values(
                    |b: usize| local_index(grp, b as int) as usize,
                )
            } by {
                let t = members(grp, g, n)[i];
                assert(zone.groups@[g][i] == zone.groups[g][i]);
                crate::split::lemma_members_bound(grp, g, n);
                assert(grouped[t].neighbours@ == linked[t].neighbours@);
            }
        }
        assert(zone_layout(zone, vs, grp, count as int));
        assert(built_via(indices@, vertex_keys@, zone, r, grp));
    }
    zone
}

/// Builds a zone from a mesh with `positions_len` coordinates (three per
/// vertex) and the index buffer `indices` (three per triangle), where
/// `vertex_keys[v]` is the quantised position of vertex `v`. Refuses a mesh as
/// `mesh_error` says.
pub fn create_zone(positions_len: usize, indices: &Vec<u32>, vertex_keys: &Vec<WeldKey>) -> (res: Result<ZoneInput, MeshError>)
    requires
        vertex_keys.len() == positions_len / 3,
        indices.len() / 3 <= i32::MAX,
    ensures
        match res {
            Ok(zone) => mesh_error(positions_len as int, indices@) is None && builds_zone(
                indices@,
                vertex_keys@,
                zone,
            ) && ids_local(zone),
            Err(e) => mesh_error(positions_len as int, indices@) == Some(e),
        },
{
    match check_mesh(positions_len, indices) {
        Err(e) => Err(e),
        Ok(()) => {
            assert forall|j: int| 0 <= j < indices.len() implies (#[trigger] indices[j]) < vertex_keys.len() by {
                if indices[j] >= vertex_keys.len() {
                    assert(has_index_out_of_bounds(indices@, (positions_len / 3) as int));
                }
            }
            let zone = build_zone_impl(indices, vertex_keys);
            proof {
                law_built_zone_ids_local(indices@, vertex_keys@, zone);
            }
            Ok(zone)
        },
    }
}

/// The number of nodes in the first `c` groups.
pub open spec fn node_total(groups: Seq<Vec<PolygonInput>>, c: int) -> int
    decreases c,
{
    if c <= 0 {
        0
    } else {
        node_total(groups, c - 1) + groups[c - 1].len()
    }
}

spec fn members_total(grp: Seq<i32>, c: int, m: int) -> int
    decreases c,
{
    if c <= 0 {
        0
    } else {
        members_total(grp, c - 1, m) + members(grp, c - 1, m).len()
    }
}

proof fn lemma_members_total_step(grp: Seq<i32>, c: int, m: int)
    requires
        0 <= m,
        0 <= c,
    ensures
        members_total(grp, c, m + 1) == members_total(grp, c, m) + if 0 <= grp[m] < c { 1int } else { 0int },
    decreases c,
{
    if c > 0 {
        lemma_members_total_step(grp, c - 1, m);
    }
}

proof fn lemma_members_total(grp: Seq<i32>, c: int, m: int)
    requires
        0 <= m <= grp.len(),
        0 <= c,
        forall|u: int| 0 <= u < m ==> 0 <= #[trigger] grp[u] < c,
    ensures
        members_total(grp, c, m) == m,
    decreases m,
{
    if m == 0 {
        lemma_members_total_zero(grp, c);
    } else {
        lemma_members_total(grp, c, m - 1);
        lemma_members_total_step(grp, c, m - 1);
    }
}

proof fn lemma_members_total_zero(grp: Seq<i32>, c: int)
    requires
        0 <= c,
    ensures
        members_total(grp, c, 0) == 0,
    decreases c,
{
    if c > 0 {
        lemma_members_total_zero(grp, c - 1);
    }
}

proof fn lemma_node_total(z: ZoneInput, grp: Seq<i32>, n: int, c: int)
    requires
        0 <= c <= z.groups.len(),
        forall|g: int| 0 <= g < z.groups.len() ==> (#[trigger] z.groups[g]).len() == members(grp, g, n).len(),
    ensures
        node_total(z.groups@, c) == members_total(grp, c, n),
    decreases c,
{
    if c > 0 {
        lemma_node_total(z, grp, n, c - 1);
        assert(z.groups@[c - 1] == z.groups[c - 1]);
    }
}

/// Every triangle of the mesh lands in exactly one group: the groups of a
/// built zone hold as many nodes together as the index buffer has triangles.
pub proof fn law_every_triangle_in_one_group(indices: Seq<u32>, vertex_keys: Seq<WeldKey>, zone: ZoneInput)
    requires
        builds_zone(indices, vertex_keys, zone),
    ensures
        node_total(zone.groups@, zone.groups.len() as int) == indices.len() / 3,
{
    let (r, grp) = choose|r: Seq<usize>, grp: Seq<i32>| #[trigger] built_via(indices, vertex_keys, zone, r, grp);
    let vs = triples(r);
    let n = vs.len() as int;
    let c = zone.groups.len() as int;
    assert forall|u: int| 0 <= u < n implies 0 <= #[trigger] grp[u] < c by {}
    lemma_members_total(grp, c, n);
    lemma_node_total(zone, grp, n, c);
}

/// Node ids are local to their group: node `i` of group `g` has id `i` and
/// group id `g`.
pub proof fn law_node_ids_are_local(indices: Seq<u32>, vertex_keys: Seq<WeldKey>, zone: ZoneInput, g: int, i: int)
    requires
        builds_zone(indices, vertex_keys, zone),
        0 <= g < zone.groups.len(),
        0 <= i < zone.groups[g].len(),
    ensures
        zone.groups[g][i].id == i,
        zone.groups[g][i].group_id == g,
{
    let (r, grp) = choose|r: Seq<usize>, grp: Seq<i32>| #[trigger] built_via(indices, vertex_keys, zone, r, grp);
    let n = triples(r).len() as int;
    crate::split::lemma_members_bound(grp, g, n);
}

/// The corners of every node are welded vertices of the zone.
pub proof fn law_corners_are_vertices(indices: Seq<u32>, vertex_keys: Seq<WeldKey>, zone: ZoneInput, g: int, i: int, c: int)
    requires
        builds_zone(indices, vertex_keys, zone),
        0 <= g < zone.groups.len(),
        0 <= i < zone.groups[g].len(),
        0 <= c < 3,
    ensures
        zone.groups[g][i].vertex_indices[c] < zone.vertices.len(),
{
    let (r, grp) = choose|r: Seq<usize>, grp: Seq<i32>| #[trigger] built_via(indices, vertex_keys, zone, r, grp);
    let n = triples(r).len() as int;
    crate::split::lemma_members_bound(grp, g, n);
    let t = members(grp, g, n)[i];
    assert(0 <= t < n);
    assert(3 * t + c < r.len());
    assert(r[3 * t + c] < zone.vertices.len());
}

/// Every node has one portal per neighbour, and its neighbours are other
/// nodes of the same group.
pub proof fn law_neighbours_in_group(indices: Seq<u32>, vertex_keys: Seq<WeldKey>, zone: ZoneInput, g: int, i: int, k: int)
    requires
        builds_zone(indices, vertex_keys, zone),
        0 <= g < zone.groups.len(),
        0 <= i < zone.groups[g].len(),
        0 <= k < zone.groups[g][i].neighbours.len(),
    ensures
        zone.groups[g][i].portals.len() == zone.groups[g][i].neighbours.len(),
        zone.groups[g][i].neighbours[k] < zone.groups[g].len(),
        zone.groups[g][i].neighbours[k] != i,
{
    let (r, grp) = choose|r: Seq<usize>, grp: Seq<i32>| #[trigger] built_via(indices, vertex_keys, zone, r, grp);
    let vs = triples(r);
    let n = vs.len() as int;
    crate::split::lemma_members_bound(grp, g, n);
    let t = members(grp, g, n)[i];
    lemma_links_shape(vs, t, 3 * n);
    let b = link_ids(vs, t, 3 * n)[k] as int;
    let adj = linked_adjacency(vs);
    assert(adj[t][k] == b);
    assert(grp[b] == grp[t]);
    crate::split::lemma_local_index(grp, b, n);
    if local_index(grp, b) == i {
        assert(members(grp, g, n)[i] == b);
    }
}

/// Adjacency is mutual within a group: if node `j` is a neighbour of node
/// `i`, then `i` is a neighbour of `j`.
pub proof fn law_neighbours_are_mutual(indices: Seq<u32>, vertex_keys: Seq<WeldKey>, zone: ZoneInput, g: int, i: int, j: int)
    requires
        builds_zone(indices, vertex_keys, zone),
        0 <= g < zone.groups.len(),
        0 <= i < zone.groups[g].len(),
        0 <= j < zone.groups[g].len(),
        zone.groups[g][i].neighbours@.contains(j as usize),
    ensures
        zone.groups[g][j].neighbours@.contains(i as usize),
{
    let (r, grp) = choose|r: Seq<usize>, grp: Seq<i32>| #[trigger] built_via(indices, vertex_keys, zone, r, grp);
    let vs = triples(r);
    let n = vs.len() as int;
    let adj = linked_adjacency(vs);
    crate::split::lemma_members_bound(grp, g, n);
    let ti = members(grp, g, n)[i];
    let tj = members(grp, g, n)[j];
    let k = choose|k: int| 0 <= k < zone.groups[g][i].neighbours@.len() && zone.groups[g][i].neighbours@[k] == j as usize;
    lemma_links_shape(vs, ti, 3 * n);
    let b = link_ids(vs, ti, 3 * n)[k] as int;
    assert(adj[ti][k] == b);
    assert(grp[b] == grp[ti]);
    crate::split::lemma_local_index(grp, b, n);
    assert(local_index(grp, b) as usize == j as usize);
    assert(b == tj);
    assert(link_ids(vs, ti, 3 * n).contains(tj as usize));
    lemma_links_symmetric(vs, ti, tj, 3 * n);
    let lj = link_ids(vs, tj, 3 * n);
    let k2 = choose|k2: int| 0 <= k2 < lj.len() && lj[k2] == ti as usize;
    crate::split::lemma_local_of_member(grp, g, i, n);
    assert(zone.groups[g][j].neighbours@[k2] == i as usize);
}

/// Neighbours and portals paired up, slot by slot.
pub open spec fn zip_links(nbrs: Seq<usize>, ports: Seq<[usize; 2]>) -> Seq<NeighborLink> {
    Seq::new(nbrs.len(), |k: int| NeighborLink { index: nbrs[k], portal: ports[k] })
}

proof fn lemma_node_links_zip(nodes: Seq<PolygonInput>, x: int, m: int)
    requires
        0 <= x < nodes.len(),
        0 <= m <= nodes[x].neighbours@.len(),
        nodes[x].neighbours@.len() == nodes[x].portals@.len(),
        forall|k: int| 0 <= k < nodes[x].neighbours@.len() ==> (#[trigger] nodes[x].neighbours@[k]) < nodes.len(),
    ensures
        node_links(nodes, x, m) == zip_links(nodes[x].neighbours@.take(m), nodes[x].portals@.take(m)),
    decreases m,
{
    if m > 0 {
        lemma_node_links_zip(nodes, x, m - 1);
        assert(zip_links(nodes[x].neighbours@.take(m), nodes[x].portals@.take(m)) =~= zip_links(
            nodes[x].neighbours@.take(m - 1),
            nodes[x].portals@.take(m - 1),
        ).push(NeighborLink { index: nodes[x].neighbours@[m - 1], portal: nodes[x].portals@[m - 1] }));
    } else {
        assert(zip_links(nodes[x].neighbours@.take(0), nodes[x].portals@.take(0)) =~= Seq::<NeighborLink>::empty());
    }
}

/// In a built zone, the links of every node pair its neighbours with their
/// portals, slot by slot: no neighbour is left out.
pub proof fn law_links_pair_neighbours_with_portals(indices: Seq<u32>, vertex_keys: Seq<WeldKey>, zone: ZoneInput, g: int, i: int)
    requires
        builds_zone(indices, vertex_keys, zone),
        0 <= g < zone.groups.len(),
        0 <= i < zone.groups[g].len(),
    ensures
        links_of(zone.groups[g]@, i) == zip_links(zone.groups[g][i].neighbours@, zone.groups[g][i].portals@),
{
    let nodes = zone.groups[g]@;
    let node = zone.groups[g][i];
    if node.neighbours@.len() > 0 {
        law_neighbours_in_group(indices, vertex_keys, zone, g, i, 0);
    } else {
        let (r, grp) = choose|r: Seq<usize>, grp: Seq<i32>| #[trigger] built_via(indices, vertex_keys, zone, r, grp);
        let vs = triples(r);
        let n = vs.len() as int;
        crate::split::lemma_members_bound(grp, g, n);
        lemma_links_shape(vs, members(grp, g, n)[i], 3 * n);
    }
    assert forall|k: int| 0 <= k < nodes[i].neighbours@.len() implies (#[trigger] nodes[i].neighbours@[k]) < nodes.len() by {
        law_neighbours_in_group(indices, vertex_keys, zone, g, i, k);
    }
    lemma_node_links_zip(nodes, i, node.neighbours@.len() as int);
    assert(node.neighbours@.take(node.neighbours@.len() as int) =~= node.neighbours@);
    assert(node.portals@.take(node.portals@.len() as int) =~= node.portals@);
}

proof fn lemma_first_portal_zip(nbrs: Seq<usize>, ports: Seq<[usize; 2]>, y: usize)
    requires
        nbrs.len() == ports.len(),
    ensures
        first_portal_to(zip_links(nbrs, ports), y) == first_portal_for(nbrs, ports, y),
    decreases nbrs.len(),
{
    if nbrs.len() > 0 {
        assert(zip_links(nbrs, ports).drop_first() =~= zip_links(nbrs.drop_first(), ports.drop_first()));
        lemma_first_portal_zip(nbrs.drop_first(), ports.drop_first(), y);
    }
}

proof fn lemma_first_portal_map(ids: Seq<usize>, ports: Seq<[usize; 2]>, f: spec_fn(usize) -> usize, b: usize)
    requires
        ids.len() == ports.len(),
        forall|k: int| 0 <= k < ids.len() && f(#[trigger] ids[k]) == f(b) ==> ids[k] == b,
    ensures
        first_portal_for(ids.map_values(f), ports, f(b)) == first_portal_for(ids, ports, b),
    decreases ids.len(),
{
    if ids.len() > 0 {
        assert(ids.map_values(f).drop_first() =~= ids.drop_first().map_values(f));
        assert forall|k: int| 0 <= k < ids.drop_first().len() && f(#[trigger] ids.drop_first()[k]) == f(b) implies ids.drop_first()[k] == b by {
            assert(ids.drop_first()[k] == ids[k + 1]);
        }
        lemma_first_portal_map(ids.drop_first(), ports.drop_first(), f, b);
    }
}

/// Between two nodes of a built zone, the first link of each to the other
/// crosses the same portal: the portal from `i` to `j` is the portal from `j`
/// to `i`.
pub proof fn law_portals_agree(indices: Seq<u32>, vertex_keys: Seq<WeldKey>, zone: ZoneInput, g: int, i: int, j: int)
    requires
        builds_zone(indices, vertex_keys, zone),
        0 <= g < zone.groups.len(),
        0 <= i < zone.groups[g].len(),
        0 <= j < zone.groups[g].len(),
    ensures
        first_portal_to(links_of(zone.groups[g]@, i), j as usize) == first_portal_to(links_of(zone.groups[g]@, j), i as usize),
{
    let (r, grp) = choose|r: Seq<usize>, grp: Seq<i32>| #[trigger] built_via(indices, vertex_keys, zone, r, grp);
    let vs = triples(r);
    let n = vs.len() as int;
    let adj = linked_adjacency(vs);
    crate::split::lemma_members_bound(grp, g, n);
    let ti = members(grp, g, n)[i];
    let tj = members(grp, g, n)[j];
    let f = |b: usize| local_index(grp, b as int) as usize;
    law_links_pair_neighbours_with_portals(indices, vertex_keys, zone, g, i);
    law_links_pair_neighbours_with_portals(indices, vertex_keys, zone, g, j);
    let ids_i = link_ids(vs, ti, 3 * n);
    let ids_j = link_ids(vs, tj, 3 * n);
    let ports_i = link_portals(vs, ti, 3 * n);
    let ports_j = link_portals(vs, tj, 3 * n);
    lemma_links_shape(vs, ti, 3 * n);
    lemma_links_shape(vs, tj, 3 * n);
    assert(zone.groups[g][i].neighbours@ == ids_i.map_values(f));
    assert(zone.groups[g][j].neighbours@ == ids_j.map_values(f));
    lemma_first_portal_zip(ids_i.map_values(f), ports_i, j as usize);
    lemma_first_portal_zip(ids_j.map_values(f), ports_j, i as usize);
    crate::split::lemma_local_of_member(grp, g, i, n);
    crate::split::lemma_local_of_member(grp, g, j, n);
    assert(f(tj as usize) == j as usize);
    assert(f(ti as usize) == i as usize);
    assert forall|k: int| 0 <= k < ids_i.len() && f(#[trigger] ids_i[k]) == f(tj as usize) implies ids_i[k] == tj as usize by {
        let b = ids_i[k] as int;
        assert(adj[ti][k] == ids_i[k]);
        assert(grp[b] == grp[ti]);
        crate::split::lemma_local_index(grp, b, n);
        crate::split::lemma_local_index(grp, tj, n);
    }
    assert forall|k: int| 0 <= k < ids_j.len() && f(#[trigger] ids_j[k]) == f(ti as usize) implies ids_j[k] == ti as usize by {
        let b = ids_j[k] as int;
        assert(adj[tj][k] == ids_j[k]);
        assert(grp[b] == grp[tj]);
        crate::split::lemma_local_index(grp, b, n);
        crate::split::lemma_local_index(grp, ti, n);
    }
    lemma_first_portal_map(ids_i, ports_i, f, tj as usize);
    lemma_first_portal_map(ids_j, ports_j, f, ti as usize);
    lemma_first_portal_symmetric(vs, ti, tj, 3 * n);
}

/// The node ids of every group of a built zone count up from 0: they are
/// `0 .. group_node_count`, in order.
pub proof fn law_group_node_ids_count_up(indices: Seq<u32>, vertex_keys: Seq<WeldKey>, zone: ZoneInput, g: int)
    requires
        builds_zone(indices, vertex_keys, zone),
        0 <= g < zone.groups.len(),
    ensures
        zone.groups[g]@.map_values(|node: PolygonInput| node.id as u32) =~= Seq::new(
            zone.groups[g]@.len(),
            |i: int| i as u32,
        ),
{
    assert forall|i: int| 0 <= i < zone.groups[g]@.len() implies #[trigger] zone.groups[g]@[i].id == i by {
        law_node_ids_are_local(indices, vertex_keys, zone, g, i);
    }
}

/// In a built zone every node's id is its index within its group.
pub proof fn law_built_zone_ids_local(indices: Seq<u32>, vertex_keys: Seq<WeldKey>, zone: ZoneInput)
    requires
        builds_zone(indices, vertex_keys, zone),
    ensures
        ids_local(zone),
{
    assert forall|g: int, i: int| 0 <= g < zone.groups.len() && 0 <= i < zone.groups[g]@.len() implies (
    #[trigger] zone.groups[g]@[i]).id == i by {
        law_node_ids_are_local(indices, vertex_keys, zone, g, i);
    }
}

/// The corners `v` of a triangle have the undirected edge `e`.
pub open spec fn tri_has_edge(v: [usize; 3], e: (usize, usize)) -> bool {
    ||| edge_of([v[0], v[1]]) == e
    ||| edge_of([v[1], v[2]]) == e
    ||| edge_of([v[2], v[0]]) == e
}

/// Two edge steps over the same undirected edge belong to triangles of the
/// same group.
proof fn lemma_edge_steps_same_group(vs: Seq<[usize; 3]>, grp: Seq<i32>, count: int, p: int, s: int)
    requires
        numbers_components(linked_adjacency(vs), grp, count),
        vs.len() <= usize::MAX,
        0 <= p < s < 3 * vs.len(),
        edge_of(step_portal(vs, p)) == edge_of(step_portal(vs, s)),
    ensures
        grp[p / 3] == grp[s / 3],
    decreases s,
{
    let e = edge_of(step_portal(vs, s));
    let n = vs.len() as int;
    let adj = linked_adjacency(vs);
    lemma_last_with_edge_found(vs, e, s, p);
    let q = last_with_edge(vs, e, s).unwrap();
    if q / 3 != s / 3 {
        assert(partner(vs, s) == Some(q / 3));
        lemma_partner_linked(vs, s, 3 * n);
        let x = s / 3;
        assert(adj[x] == link_ids(vs, x, 3 * n));
        let k = choose|k: int| 0 <= k < adj[x].len() && adj[x][k] == (q / 3) as usize;
        assert(0 <= grp[x]);
        assert(groups_closed(adj, grp));
        assert(grp[adj[x][k] as int] == grp[x]);
    }
    if p < q {
        lemma_edge_steps_same_group(vs, grp, count, p, q);
    }
}

/// Edge step `3 * t + k` is edge `k` of triangle `t`.
proof fn lemma_step_of_triangle(vs: Seq<[usize; 3]>, t: int, k: int)
    requires
        0 <= k < 3,
    ensures
        (3 * t + k) / 3 == t,
        (3 * t + k) % 3 == k,
        step_portal(vs, 3 * t + k) == if k == 0 {
            [vs[t][0], vs[t][1]]
        } else if k == 1 {
            [vs[t][1], vs[t][2]]
        } else {
            [vs[t][2], vs[t][0]]
        },
{
    assert((3 * t + k) / 3 == t) by (nonlinear_arith)
        requires
            0 <= k < 3,
    ;
    assert((3 * t + k) % 3 == k) by (nonlinear_arith)
        requires
            0 <= k < 3,
    ;
}

/// The edge step of triangle `t` that visits `e`, where it has that edge.
proof fn lemma_edge_step(vs: Seq<[usize; 3]>, t: int, e: (usize, usize)) -> (s: int)
    requires
        0 <= t < vs.len(),
        tri_has_edge(vs[t], e),
    ensures
        3 * t <= s < 3 * t + 3,
        s / 3 == t,
        edge_of(step_portal(vs, s)) == e,
{
    lemma_step_of_triangle(vs, t, 0);
    lemma_step_of_triangle(vs, t, 1);
    lemma_step_of_triangle(vs, t, 2);
    if edge_of([vs[t][0], vs[t][1]]) == e {
        3 * t
    } else if edge_of([vs[t][1], vs[t][2]]) == e {
        3 * t + 1
    } else {
        3 * t + 2
    }
}

/// Triangles that share an edge are in the same group: where two triangles of
/// the welded mesh have an undirected edge in common, the numbering `grp` that
/// builds the zone gives them the same group.
pub proof fn law_shared_edge_same_group(
    indices: Seq<u32>,
    vertex_keys: Seq<WeldKey>,
    zone: ZoneInput,
    r: Seq<usize>,
    grp: Seq<i32>,
    a: int,
    b: int,
    e: (usize, usize),
)
    requires
        built_via(indices, vertex_keys, zone, r, grp),
        0 <= a < triples(r).len(),
        0 <= b < triples(r).len(),
        tri_has_edge(triples(r)[a], e),
        tri_has_edge(triples(r)[b], e),
    ensures
        grp[a] == grp[b],
        0 <= grp[a] < zone.groups.len(),
{
    let vs = triples(r);
    let sa = lemma_edge_step(vs, a, e);
    let sb = lemma_edge_step(vs, b, e);
    assert(r.len() == indices.len());
    if sa < sb {
        lemma_edge_steps_same_group(vs, grp, zone.groups.len() as int, sa, sb);
    } else if sb < sa {
        lemma_edge_steps_same_group(vs, grp, zone.groups.len() as int, sb, sa);
    }
}

/// A mesh is accepted exactly when its positions are whole `x, y, z`
/// triples, its indices whole triangles, and every index names one of its
/// vertices; each failed check gives its own error, the positions checked
/// first, then the indices.
pub proof fn law_mesh_accepted_iff_whole(positions_len: int, indices: Seq<u32>)
    ensures
        mesh_error(positions_len, indices) is None <==> (positions_len % 3 == 0 && indices.len() % 3 == 0 && forall|j: int|
            0 <= j < indices.len() ==> (#[trigger] indices[j]) < positions_len / 3),
        positions_len % 3 != 0 ==> mesh_error(positions_len, indices) == Some(MeshError::PositionsNotTriples),
        positions_len % 3 == 0 && indices.len() % 3 != 0 ==> mesh_error(positions_len, indices) == Some(
            MeshError::IndicesNotTriangles,
        ),
        positions_len % 3 == 0 && indices.len() % 3 == 0 && (exists|j: int|
            0 <= j < indices.len() && (#[trigger] indices[j]) >= positions_len / 3) ==> mesh_error(positions_len, indices)
            == Some(MeshError::IndexOutOfBounds),
{
}

} // verus!
