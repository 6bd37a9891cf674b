use pathfinding3d::adjacency::{build_triangles, link_neighbours};
use pathfinding3d::builder::{check_mesh, create_zone, MeshError};
use pathfinding3d::grouping::{assign_groups, spread_group_id};
use pathfinding3d::split::split_groups;
use pathfinding3d::weld::{weld_vertices, WeldKey};
use pathfinding3d::zone::{PolygonInput, ZoneInput};

fn square_keys() -> Vec<WeldKey> {
    vec![(0, 0, 0), (10000, 0, 0), (0, 0, 10000), (10000, 0, 10000)]
}

fn square_zone() -> ZoneInput {
    let indices = vec![0u32, 1, 2, 1, 3, 2];
    create_zone(12, &indices, &square_keys()).expect("zone builds")
}

#[test]
fn square_builds_one_group_of_two_neighbours() {
    let zone = square_zone();
    assert_eq!(zone.vertices, vec![0, 1, 2, 3]);
    assert_eq!(zone.groups.len(), 1);
    let group = &zone.groups[0];
    assert_eq!(group.len(), 2);
    assert_eq!(group[0].id, 0);
    assert_eq!(group[1].id, 1);
    assert_eq!(group[0].group_id, 0);
    assert_eq!(group[1].group_id, 0);
    assert_eq!(group[0].vertex_indices, [0, 1, 2]);
    assert_eq!(group[1].vertex_indices, [1, 3, 2]);
    assert_eq!(group[0].neighbours, vec![1]);
    assert_eq!(group[1].neighbours, vec![0]);
    assert_eq!(group[0].portals, vec![[2, 1]]);
    assert_eq!(group[1].portals, vec![[2, 1]]);
}

#[test]
fn positions_not_triples_is_refused() {
    let indices = vec![0u32, 1, 2];
    let keys: Vec<WeldKey> = vec![(0, 0, 0), (1, 0, 0), (0, 0, 1)];
    let err = create_zone(10, &indices, &keys).unwrap_err();
    assert_eq!(err, MeshError::PositionsNotTriples);
    assert_eq!(err.message(), "positions length must be multiple of 3");
}

#[test]
fn indices_not_triangles_is_refused() {
    let indices = vec![0u32, 1];
    let err = create_zone(12, &indices, &square_keys()).unwrap_err();
    assert_eq!(err, MeshError::IndicesNotTriangles);
    assert_eq!(err.message(), "indices length must be multiple of 3");
}

#[test]
fn index_out_of_bounds_is_refused() {
    let indices = vec![0u32, 1, 4];
    let err = create_zone(12, &indices, &square_keys()).unwrap_err();
    assert_eq!(err, MeshError::IndexOutOfBounds);
    assert_eq!(err.message(), "index out of bounds for positions");
}

#[test]
fn check_mesh_reports_first_problem() {
    assert_eq!(check_mesh(7, &vec![0u32, 1]), Err(MeshError::PositionsNotTriples));
    assert_eq!(check_mesh(9, &vec![0u32, 1]), Err(MeshError::IndicesNotTriangles));
    assert_eq!(check_mesh(9, &vec![0u32, 1, 3]), Err(MeshError::IndexOutOfBounds));
    assert_eq!(check_mesh(9, &vec![0u32, 1, 2]), Ok(()));
    assert_eq!(check_mesh(0, &vec![]), Ok(()));
}

#[test]
fn empty_mesh_builds_empty_zone() {
    let zone = create_zone(0, &vec![], &vec![]).expect("empty zone builds");
    assert_eq!(zone.groups.len(), 0);
    assert_eq!(zone.vertices.len(), 0);
}

#[test]
fn welding_merges_equal_keys_in_first_seen_order() {
    // Vertices 1 and 3 share a key, as do 0 and 4.
    let keys: Vec<WeldKey> = vec![(5, 5, 5), (1, 0, 0), (2, 0, 0), (1, 0, 0), (5, 5, 5)];
    let indices = vec![2u32, 3, 4, 1, 0, 2];
    let (remapped, sources) = weld_vertices(&indices, &keys);
    assert_eq!(remapped, vec![0, 1, 2, 1, 2, 0]);
    assert_eq!(sources, vec![2, 3, 4]);
}

#[test]
fn duplicate_vertices_are_welded_so_triangles_connect() {
    // Two triangles that touch along an edge whose vertices are duplicated.
    let keys: Vec<WeldKey> = vec![(0, 0, 0), (1, 0, 0), (0, 0, 1), (1, 0, 0), (0, 0, 1), (1, 0, 1)];
    let indices = vec![0u32, 1, 2, 3, 5, 4];
    let zone = create_zone(18, &indices, &keys).expect("zone builds");
    assert_eq!(zone.vertices, vec![0, 1, 2, 5]);
    assert_eq!(zone.groups.len(), 1);
    assert_eq!(zone.groups[0][0].neighbours, vec![1]);
    assert_eq!(zone.groups[0][1].neighbours, vec![0]);
    assert_eq!(zone.groups[0][1].vertex_indices, [1, 3, 2]);
}

#[test]
fn separate_parts_become_separate_groups_with_local_ids() {
    // Triangle A (0,1,2), triangle B far away (3,4,5), triangle C sharing edge 1-2 with A.
    let keys: Vec<WeldKey> = vec![(0, 0, 0), (1, 0, 0), (0, 0, 1), (9, 0, 9), (10, 0, 9), (9, 0, 10), (1, 0, 1)];
    let indices = vec![0u32, 1, 2, 3, 4, 5, 1, 6, 2];
    let zone = create_zone(21, &indices, &keys).expect("zone builds");
    assert_eq!(zone.groups.len(), 2);
    assert_eq!(zone.groups[0].len(), 2);
    assert_eq!(zone.groups[1].len(), 1);
    // Group 0 holds triangles 0 and 2, renumbered 0 and 1.
    assert_eq!(zone.groups[0][0].vertex_indices, [0, 1, 2]);
    assert_eq!(zone.groups[0][1].vertex_indices, [1, 6, 2]);
    assert_eq!(zone.groups[0][1].id, 1);
    assert_eq!(zone.groups[0][0].neighbours, vec![1]);
    assert_eq!(zone.groups[0][1].neighbours, vec![0]);
    assert_eq!(zone.groups[1][0].id, 0);
    assert_eq!(zone.groups[1][0].group_id, 1);
    assert!(zone.groups[1][0].neighbours.is_empty());
    // Every triangle lands in exactly one group.
    let total: usize = zone.groups.iter().map(|g| g.len()).sum();
    assert_eq!(total, 3);
}

#[test]
fn neighbours_are_mutual_in_a_fan() {
    // A fan of three triangles around vertex 0.
    let keys: Vec<WeldKey> = vec![(0, 0, 0), (1, 0, 0), (1, 0, 1), (0, 0, 1), (-1, 0, 1)];
    let indices = vec![0u32, 1, 2, 0, 2, 3, 0, 3, 4];
    let zone = create_zone(15, &indices, &keys).expect("zone builds");
    assert_eq!(zone.groups.len(), 1);
    let group = &zone.groups[0];
    assert_eq!(group[0].neighbours, vec![1]);
    assert_eq!(group[1].neighbours, vec![0, 2]);
    assert_eq!(group[2].neighbours, vec![1]);
    for (i, node) in group.iter().enumerate() {
        assert_eq!(node.neighbours.len(), node.portals.len());
        for &j in &node.neighbours {
            assert!(group[j].neighbours.contains(&i));
            assert_ne!(j, i);
        }
    }
}

#[test]
fn degenerate_triangle_is_not_its_own_neighbour() {
    let keys: Vec<WeldKey> = vec![(0, 0, 0), (1, 0, 0)];
    let indices = vec![0u32, 0, 1];
    let zone = create_zone(6, &indices, &keys).expect("zone builds");
    assert_eq!(zone.groups.len(), 1);
    assert!(zone.groups[0][0].neighbours.is_empty());
}

#[test]
fn building_steps_compose() {
    let remapped = vec![0usize, 1, 2, 1, 3, 2];
    let mut triangles = build_triangles(&remapped);
    assert_eq!(triangles.len(), 2);
    assert_eq!(triangles[1].group_id, -1);
    link_neighbours(&mut triangles);
    assert_eq!(triangles[0].neighbours, vec![1]);
    let count = assign_groups(&mut triangles);
    assert_eq!(count, 1);
    assert_eq!(triangles[0].group_id, 0);
    assert_eq!(triangles[1].group_id, 0);
    let groups = split_groups(triangles, count);
    assert_eq!(groups.len(), 1);
    assert_eq!(groups[0].len(), 2);
}

#[test]
fn spread_reaches_only_the_seed_part() {
    let mut triangles: Vec<PolygonInput> = (0..3)
        .map(|t| PolygonInput {
            id: t,
            group_id: -1,
            neighbours: vec![],
            portals: vec![],
            vertex_indices: [0, 0, 0],
        })
        .collect();
    triangles[0].neighbours = vec![1];
    triangles[0].portals = vec![[0, 1]];
    triangles[1].neighbours = vec![0];
    triangles[1].portals = vec![[0, 1]];
    triangles[0].group_id = 0;
    spread_group_id(&mut triangles, 0, 0);
    assert_eq!(triangles[1].group_id, 0);
    assert_eq!(triangles[2].group_id, -1);
}

#[test]
fn spread_skips_outside_ids_and_stops_at_grouped_triangles() {
    let mut triangles: Vec<PolygonInput> = (0..4)
        .map(|t| PolygonInput {
            id: t,
            group_id: -1,
            neighbours: vec![],
            portals: vec![],
            vertex_indices: [0, 0, 0],
        })
        .collect();
    // 0 -> 9 (outside), 0 -> 1, 1 -> 2 (already grouped), 2 -> 3, one way only.
    triangles[0].neighbours = vec![9, 1];
    triangles[1].neighbours = vec![2];
    triangles[2].neighbours = vec![3];
    triangles[2].group_id = 5;
    spread_group_id(&mut triangles, 0, 7);
    assert_eq!(triangles[0].group_id, 7);
    assert_eq!(triangles[1].group_id, 7);
    assert_eq!(triangles[2].group_id, 5);
    assert_eq!(triangles[3].group_id, -1);
    assert_eq!(triangles[0].neighbours, vec![9, 1]);
}

#[test]
fn shared_edge_triangles_share_a_group() {
    // Three triangles on one edge (0, 1), and one apart from them.
    let keys: Vec<WeldKey> = vec![(0, 0, 0), (1, 0, 0), (0, 0, 1), (0, 1, 0), (0, 0, -1), (5, 0, 5), (6, 0, 5), (5, 0, 6)];
    let indices = vec![0u32, 1, 2, 1, 0, 3, 0, 1, 4, 5, 6, 7];
    let zone = create_zone(24, &indices, &keys).unwrap();
    assert_eq!(zone.groups.len(), 2);
    assert_eq!(zone.groups[0].len(), 3);
    assert_eq!(zone.groups[1].len(), 1);
    for node in &zone.groups[0] {
        assert!(node.vertex_indices.contains(&0) && node.vertex_indices.contains(&1));
    }
}
