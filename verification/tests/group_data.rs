use pathfinding3d::builder::create_zone;
use pathfinding3d::group::{GroupData, NeighborLink};
use pathfinding3d::weld::WeldKey;
use pathfinding3d::zone::PolygonInput;

fn node(id: usize, neighbours: Vec<usize>, portals: Vec<[usize; 2]>) -> PolygonInput {
    PolygonInput { id, group_id: 0, neighbours, portals, vertex_indices: [0, 1, 2] }
}

#[test]
fn links_skip_slots_without_portal_or_outside_group() {
    let nodes = vec![
        node(0, vec![1, 5, 1], vec![[1, 2], [3, 4]]),
        node(1, vec![0], vec![[1, 2]]),
    ];
    let data = GroupData::from_nodes(&nodes);
    assert_eq!(data.len(), 2);
    assert_eq!(data.neighbours(0), &[NeighborLink { index: 1, portal: [1, 2] }]);
    assert_eq!(data.neighbours(1), &[NeighborLink { index: 0, portal: [1, 2] }]);
    assert!(data.neighbours(2).is_empty());
}

#[test]
fn portal_between_takes_first_link() {
    let nodes = vec![
        node(0, vec![1, 1], vec![[7, 8], [8, 9]]),
        node(1, vec![0], vec![[7, 8]]),
    ];
    let data = GroupData::from_nodes(&nodes);
    assert_eq!(data.portal_between_indices(0, 1), Some([7, 8]));
    assert_eq!(data.portal_between_indices(1, 0), Some([7, 8]));
    assert_eq!(data.portal_between_indices(0, 0), None);
    assert_eq!(data.portal_between_indices(5, 0), None);
}

#[test]
fn node_by_id_looks_up_group_nodes() {
    let nodes = vec![node(0, vec![], vec![]), node(1, vec![], vec![])];
    let data = GroupData::from_nodes(&nodes);
    assert_eq!(data.node_by_id(&nodes, 1).map(|n| n.id), Some(1));
    assert!(data.node_by_id(&nodes, 2).is_none());
}

#[test]
fn built_square_portals_match_both_ways() {
    let keys: Vec<WeldKey> = vec![(0, 0, 0), (10000, 0, 0), (0, 0, 10000), (10000, 0, 10000)];
    let zone = create_zone(12, &vec![0u32, 1, 2, 1, 3, 2], &keys).unwrap();
    let data = GroupData::from_nodes(&zone.groups[0]);
    assert_eq!(data.len(), 2);
    assert_eq!(data.portal_between_indices(0, 1), Some([2, 1]));
    assert_eq!(data.portal_between_indices(1, 0), Some([2, 1]));
}

#[test]
fn fan_links_pair_neighbours_with_portals_and_agree() {
    let keys: Vec<WeldKey> = vec![(0, 0, 0), (1, 0, 0), (1, 0, 1), (0, 0, 1), (-1, 0, 1)];
    let zone = create_zone(15, &vec![0u32, 1, 2, 0, 2, 3, 0, 3, 4], &keys).unwrap();
    let group = &zone.groups[0];
    let data = GroupData::from_nodes(group);
    for (i, node) in group.iter().enumerate() {
        let links = data.neighbours(i);
        assert_eq!(links.len(), node.neighbours.len());
        for (k, link) in links.iter().enumerate() {
            assert_eq!(link.index, node.neighbours[k]);
            assert_eq!(link.portal, node.portals[k]);
        }
        for j in 0..group.len() {
            assert_eq!(data.portal_between_indices(i, j), data.portal_between_indices(j, i));
        }
    }
    assert_eq!(data.portal_between_indices(1, 2), Some([0, 3]));
    assert_eq!(data.portal_between_indices(0, 2), None);
}

#[test]
fn cloned_group_data_gives_same_links() {
    let nodes = vec![
        node(0, vec![1], vec![[4, 5]]),
        node(1, vec![0], vec![[4, 5]]),
    ];
    let data = GroupData::from_nodes(&nodes);
    let copy = data.clone();
    assert_eq!(copy.len(), 2);
    assert_eq!(copy.neighbours(0), data.neighbours(0));
    assert_eq!(copy.portal_between_indices(1, 0), Some([4, 5]));
}
