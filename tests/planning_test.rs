use rustplanning::planning::rrt::{extend_tree, grow_tree, rewire_tree, rrt, PlanError};
use rustplanning::tree::Tree;
use std::cell::Cell;
use std::time::Duration;

#[test]
fn test_rewire_tree() {
    // Tree is: 2 -> 4 -> 1
    let mut tree: Tree<i32> = Tree::new(2);
    assert!(tree.add_child(&2, 4).is_ok());
    assert!(tree.add_child(&4, 1).is_ok());
    let is_valid_fn = |_: &i32, _: &i32| -> bool { true };

    assert_eq!(tree.get_parent(&4).unwrap(), &2);
    assert_eq!(tree.get_parent(&1).unwrap(), &4);
    assert_eq!(tree.cost(&1).unwrap(), 5);

    // When we rewire at 2, 1 should be reparented
    // 2 -> 1
    //   -> 4
    rewire_tree(&mut tree, &is_valid_fn, &2, 5);
    assert_eq!(tree.get_parent(&4).unwrap(), &2);
    assert_eq!(tree.get_parent(&1).unwrap(), &2);
    assert_eq!(tree.cost(&1).unwrap(), 1);
}

#[test]
fn test_extend_tree() {
    let tree: Tree<i32> = Tree::new(1);
    let extend_fn = |from: &i32, _: &i32| from + 1;
    let connectable_fn = |from: &i32, to: &i32| (to - from).abs() == 1;

    // The sample is right next to the nearest node, so it should connect directly
    let (new_points, nearest) = extend_tree(&tree, 2, &extend_fn, &connectable_fn, false);
    let nearest_path = vec![2];
    assert_eq!(nearest, 1);
    assert_eq!(new_points, nearest_path);

    // Extend the path by exactly 1
    let (new_points, nearest) = extend_tree(&tree, 3, &extend_fn, &connectable_fn, false);
    let nearest_path = vec![2];
    assert_eq!(nearest, 1);
    assert_eq!(new_points, nearest_path);

    // Connect all the way to the sample
    let (new_points, nearest) = extend_tree(&tree, 5, &extend_fn, &connectable_fn, true);
    let nearest_path = vec![2, 3, 4, 5];
    assert_eq!(nearest, 1);
    assert_eq!(new_points, nearest_path);
}

#[test]
fn extend_tree_gives_up_without_progress() {
    let tree: Tree<i32> = Tree::new(1);
    // stepping away from the sample never gets closer
    let extend_fn = |from: &i32, _: &i32| from - 1;
    let connectable_fn = |from: &i32, to: &i32| (to - from).abs() == 1;
    let (new_points, nearest) = extend_tree(&tree, 5, &extend_fn, &connectable_fn, true);
    assert_eq!(nearest, 1);
    assert!(new_points.is_empty());
    // a single step away is still connectable
    let (new_points, _) = extend_tree(&tree, 5, &extend_fn, &connectable_fn, false);
    assert_eq!(new_points, vec![0]);
}

#[test]
fn extend_tree_stops_at_blocked_edge() {
    let tree: Tree<i32> = Tree::new(1);
    let extend_fn = |from: &i32, _: &i32| from + 1;
    // nothing may step onto 4
    let connectable_fn = |from: &i32, to: &i32| (to - from).abs() == 1 && *to != 4;
    let (new_points, nearest) = extend_tree(&tree, 6, &extend_fn, &connectable_fn, true);
    assert_eq!(nearest, 1);
    assert_eq!(new_points, vec![2, 3]);
}

#[test]
fn rewire_moves_only_cheaper_connectable_leaves() {
    // 0 -> 10 -> 12, and 0 -> 11
    let mut tree: Tree<i32> = Tree::new(0);
    assert!(tree.add_child(&0, 10).is_ok());
    assert!(tree.add_child(&10, 12).is_ok());
    assert!(tree.add_child(&0, 11).is_ok());
    // 12 costs 12; through 11 it would cost 12 as well: no move.
    let all = |_: &i32, _: &i32| true;
    rewire_tree(&mut tree, &all, &11, 5);
    assert_eq!(tree.get_parent(&12), Some(&10));
    // a pivot that is not in the tree changes nothing
    rewire_tree(&mut tree, &all, &99, 1000);
    assert_eq!(tree.get_parent(&12), Some(&10));
    assert_eq!(tree.size(), 4);
}

#[test]
fn rewire_respects_connectable() {
    let mut tree: Tree<i32> = Tree::new(2);
    assert!(tree.add_child(&2, 4).is_ok());
    assert!(tree.add_child(&4, 1).is_ok());
    let none = |_: &i32, _: &i32| false;
    rewire_tree(&mut tree, &none, &2, 5);
    assert_eq!(tree.get_parent(&1), Some(&4));
    assert_eq!(tree.cost(&1), Ok(5));
}

#[test]
fn grow_tree_attaches_goal() {
    let mut tree: Tree<i32> = Tree::new(0);
    let extend_fn = |from: &i32, to: &i32| if to > from { from + 1 } else { from - 1 };
    let connectable_fn = |from: &i32, to: &i32| (to - from).abs() <= 1;
    assert!(!grow_tree(&mut tree, 3, &10, &extend_fn, &connectable_fn, false, 1, true));
    assert_eq!(tree.path(&3).unwrap(), vec![0, 1, 2, 3]);
    assert!(grow_tree(&mut tree, 9, &10, &extend_fn, &connectable_fn, false, 1, true));
    assert_eq!(tree.path(&10).unwrap(), vec![0, 1, 2, 3, 4, 5, 6, 7, 8, 9, 10]);
}

fn line_plan(start: i32, goal: i32, samples: Vec<i32>, iterations: u64) -> Result<(Vec<i32>, Tree<i32>), PlanError> {
    let next = Cell::new(0usize);
    let sample_fn = || {
        let k = next.get();
        next.set(k + 1);
        samples[k % samples.len()]
    };
    let extend_fn = |from: &i32, to: &i32| if to > from { from + 1 } else { from - 1 };
    let connectable_fn = |from: &i32, to: &i32| (to - from).abs() <= 1;
    rrt(
        &start,
        &goal,
        sample_fn,
        extend_fn,
        connectable_fn,
        false,
        2,
        true,
        iterations,
        Duration::from_secs(30),
        true,
    )
}

#[test]
fn plan_with_no_iterations_finds_nothing() {
    assert_eq!(line_plan(0, 5, vec![5], 0).err(), Some(PlanError::NoPathFound));
}

#[test]
fn plan_from_goal_to_itself() {
    let (path, tree) = line_plan(3, 3, vec![7], 0).unwrap();
    assert_eq!(path, vec![3]);
    assert_eq!(tree.size(), 1);
    let (path, _) = line_plan(3, 3, vec![7], 4).unwrap();
    assert_eq!(path[0], 3);
    assert_eq!(*path.last().unwrap(), 3);
}

#[test]
fn plan_on_a_line() {
    let (path, tree) = line_plan(0, 6, vec![5], 10).unwrap();
    assert_eq!(path, vec![0, 1, 2, 3, 4, 5, 6]);
    assert_eq!(tree.cost(&6), Ok(6));
}

#[test]
fn plan_runs_out_of_iterations() {
    // samples never come near the goal
    assert_eq!(line_plan(0, 50, vec![-3], 5).err(), Some(PlanError::NoPathFound));
}
