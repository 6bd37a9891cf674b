use pathfinding3d::builder::create_zone;
use pathfinding3d::group::GroupData;
use pathfinding3d::output::plan_output;
use pathfinding3d::search::{path_portals, trace_path, AstarScratch};
use pathfinding3d::weld::WeldKey;

#[test]
fn new_scratch_is_clean() {
    let s = AstarScratch::with_len(3);
    assert_eq!(s.len(), 3);
    for i in 0..3 {
        assert!(!s.is_closed(i));
        assert!(!s.is_visited(i));
        assert!(!s.has_heuristic(i));
    }
    assert!(s.touched().is_empty());
    assert!(s.path().is_empty());
}

#[test]
fn reset_clears_touched_marks() {
    let mut s = AstarScratch::with_len(4);
    s.open_start(2);
    s.close(2);
    s.mark_heuristic(2);
    s.touch_if_unseen(2);
    assert_eq!(s.touched(), &[2]);
    assert!(s.is_visited(2) && s.is_closed(2) && s.has_heuristic(2));
    s.reset(4);
    for i in 0..4 {
        assert!(!s.is_closed(i));
        assert!(!s.is_visited(i));
        assert!(!s.has_heuristic(i));
    }
    assert!(s.touched().is_empty());
    assert!(s.path().is_empty());
}

#[test]
fn reset_to_other_length_starts_over() {
    let mut s = AstarScratch::with_len(2);
    s.open_start(1);
    s.reset(5);
    assert_eq!(s.len(), 5);
    for i in 0..5 {
        assert!(!s.is_visited(i));
    }
    assert!(s.touched().is_empty());
}

#[test]
fn relax_sets_parent_to_linked_node_and_traces() {
    let keys: Vec<WeldKey> = vec![(0, 0, 0), (1, 0, 0), (1, 0, 1), (0, 0, 1), (-1, 0, 1)];
    let zone = create_zone(15, &vec![0u32, 1, 2, 0, 2, 3, 0, 3, 4], &keys).unwrap();
    let data = GroupData::from_nodes(&zone.groups[0]);
    let mut s = AstarScratch::with_len(data.len());
    s.open_start(0);
    s.close(0);
    assert_eq!(data.neighbours(0)[0].index, 1);
    assert_eq!(s.relax(&data, 0, 0), 1);
    assert!(s.is_visited(1));
    assert_eq!(data.neighbours(1)[1].index, 2);
    assert_eq!(s.relax(&data, 1, 1), 2);
    assert_eq!(s.touched(), &[0, 1, 2]);
    assert!(s.trace_to(0, 2));
    assert_eq!(s.path(), &[1, 2]);
    assert!(!s.trace_to(1, 0));
    assert!(s.path().is_empty());
    s.reset(3);
    assert!(!s.is_visited(2) && !s.is_closed(0));
    assert!(s.touched().is_empty());
}

#[test]
fn traced_path_follows_parents() {
    let parent = vec![usize::MAX, 0, 1, 2];
    assert_eq!(trace_path(&parent, 0, 3), Some(vec![1, 2, 3]));
    assert_eq!(trace_path(&parent, 0, 0), Some(vec![]));
    assert_eq!(trace_path(&parent, 1, 2), Some(vec![2]));
}

#[test]
fn broken_parent_chain_gives_none() {
    let cyclic = vec![1usize, 0, 1];
    assert_eq!(trace_path(&cyclic, 2, 0), None);
    let leaving = vec![usize::MAX, 7];
    assert_eq!(trace_path(&leaving, 0, 1), None);
}

#[test]
fn portals_along_a_path() {
    let keys: Vec<WeldKey> = vec![(0, 0, 0), (1, 0, 0), (1, 0, 1), (0, 0, 1), (-1, 0, 1)];
    let zone = create_zone(15, &vec![0u32, 1, 2, 0, 2, 3, 0, 3, 4], &keys).unwrap();
    let data = GroupData::from_nodes(&zone.groups[0]);
    assert_eq!(path_portals(&data, &[0, 1, 2]), vec![[0, 2], [0, 3]]);
    assert_eq!(path_portals(&data, &[0, 2]), Vec::<[usize; 2]>::new());
    assert_eq!(path_portals(&data, &[1]), Vec::<[usize; 2]>::new());
    assert_eq!(path_portals(&data, &[]), Vec::<[usize; 2]>::new());
}

#[test]
fn output_plan_counts_points_after_start() {
    assert_eq!(plan_output(0, 0), (0, Some(0)));
    assert_eq!(plan_output(1, 0), (0, Some(0)));
    assert_eq!(plan_output(3, 6), (2, Some(6)));
    assert_eq!(plan_output(3, 100), (2, Some(6)));
    assert_eq!(plan_output(3, 5), (2, None));
}

#[test]
fn short_buffer_gets_same_count_and_no_write() {
    let (long_count, long_write) = plan_output(4, 9);
    let (short_count, short_write) = plan_output(4, 8);
    assert_eq!(long_count, 3);
    assert_eq!(long_write, Some(9));
    assert_eq!(short_count, long_count);
    assert_eq!(short_write, None);
}
