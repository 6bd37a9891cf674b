use pathfinding3d::builder::create_zone;
use pathfinding3d::registry::{build_zone_runtime_data, PathfindingWasm, ZoneData};
use pathfinding3d::weld::WeldKey;

fn square(tag: u8) -> ZoneData<u8> {
    let keys: Vec<WeldKey> = vec![(0, 0, 0), (10000, 0, 0), (0, 0, 10000), (10000, 0, 10000)];
    let zone = create_zone(12, &vec![0u32, 1, 2, 1, 3, 2], &keys).unwrap();
    build_zone_runtime_data(zone, tag)
}

fn two_parts() -> ZoneData<u8> {
    let keys: Vec<WeldKey> = vec![(0, 0, 0), (1, 0, 0), (0, 0, 1), (9, 0, 9), (10, 0, 9), (9, 0, 10)];
    let zone = create_zone(18, &vec![0u32, 1, 2, 3, 4, 5], &keys).unwrap();
    build_zone_runtime_data(zone, 7)
}

#[test]
fn handles_start_at_one_and_count_up() {
    let mut p: PathfindingWasm<u8> = PathfindingWasm::new();
    assert_eq!(p.create_zone_handle(square(1)), 1);
    assert_eq!(p.create_zone_handle(square(2)), 2);
    assert_eq!(p.group_count_by_handle(1), Some(1));
    assert_eq!(p.zone_by_handle(2).map(|z| z.runtime), Some(2));
    assert_eq!(p.group_count_by_handle(3), None);
}

#[test]
fn named_zone_reads_back() {
    let mut p: PathfindingWasm<u8> = PathfindingWasm::new();
    p.create_zone("level-1".to_string(), two_parts());
    assert_eq!(p.group_count("level-1".to_string()), Some(2));
    assert_eq!(p.group_node_count("level-1".to_string(), 0), Some(1));
    assert_eq!(p.group_node_count("level-1".to_string(), 2), None);
    assert_eq!(p.group_node_ids("level-1".to_string(), 1), Some(vec![0]));
    assert_eq!(p.group_count("level-2".to_string()), None);
    assert_eq!(p.group_node_ids("level-2".to_string(), 0), None);
}

#[test]
fn recreating_a_name_replaces_its_zone() {
    let mut p: PathfindingWasm<u8> = PathfindingWasm::new();
    p.create_zone("a".to_string(), square(1));
    p.create_zone("b".to_string(), square(2));
    p.create_zone("a".to_string(), two_parts());
    assert_eq!(p.group_count("a".to_string()), Some(2));
    assert_eq!(p.group_count("b".to_string()), Some(1));
    // The zone that "a" named before (handle 1) is gone; "a" now names handle 3.
    assert_eq!(p.group_count_by_handle(1), None);
    assert_eq!(p.group_count_by_handle(3), Some(2));
    assert_eq!(p.zone_from_name(&"a".to_string()).map(|z| z.runtime), Some(7));
}

#[test]
fn group_node_ids_are_local() {
    let mut p: PathfindingWasm<u8> = PathfindingWasm::new();
    p.create_zone("sq".to_string(), square(0));
    assert_eq!(p.group_node_ids("sq".to_string(), 0), Some(vec![0, 1]));
    let data = p.zone_from_name(&"sq".to_string()).unwrap();
    assert_eq!(data.group_data.len(), 1);
    assert_eq!(data.group_data[0].len(), 2);
    assert_eq!(data.group_data[0].portal_between_indices(0, 1), Some([2, 1]));
}
