use rustplanning::tree::{Distance, Tree, TreeError};

#[test]
fn test_tree_children() {
    // Construct tree with a single node
    let mut tree: Tree<i32> = Tree::new(1);
    assert_eq!(tree.size(), 1);
    assert_eq!(tree.get_node(&1).unwrap().value(), &1);

    // Add a child and make sure everything is ok
    assert!(tree.add_child(&1, 2).is_ok());
    assert_eq!(tree.size(), 2);

    // Make the tree bigger
    assert!(tree.add_child(&1, 3).is_ok());
    assert!(tree.add_child(&2, 4).is_ok());
    assert_eq!(tree.size(), 4);

    // Validate costs
    assert_eq!(tree.get_node(&2).unwrap().cost(), 1);
    assert_eq!(tree.get_node(&3).unwrap().cost(), 2);
    assert_eq!(tree.get_node(&4).unwrap().cost(), 3);

    // Add an existing child and everything is not ok
    assert!(tree.add_child(&1, 2).is_err());

    // Add to a nonexistent parent and everything is not ok
    assert!(tree.add_child(&3, 2).is_err());
}

#[test]
fn test_tree_reparenting() {
    let mut tree: Tree<i32> = Tree::new(1);
    assert!(tree.add_child(&1, 2).is_ok());
    assert!(tree.add_child(&2, 0).is_ok());
    assert_eq!(tree.get_node(&0).unwrap().cost(), 3);
    assert_eq!(tree.get_node(&1).unwrap().num_children(), 1);
    assert_eq!(tree.get_node(&2).unwrap().num_children(), 1);

    // Validate failures
    assert!(tree.set_parent(&2, &1).is_err());
    assert!(tree.set_parent(&1, &4).is_err());
    assert!(tree.set_parent(&3, &2).is_err());

    // Reparent and validate the tree
    assert!(tree.set_parent(&1, &0).is_ok());
    assert_eq!(tree.get_node(&0).unwrap().cost(), 1);
    assert_eq!(tree.get_node(&1).unwrap().num_children(), 2);
    assert_eq!(tree.get_node(&2).unwrap().num_children(), 0);
}

#[test]
fn test_tree_get_nearest() {
    // Construct tree with many nodes
    let mut tree: Tree<i32> = Tree::new(1);

    assert!(tree.add_child(&1, 2).is_ok());
    assert!(tree.add_child(&1, 3).is_ok());
    assert!(tree.add_child(&2, 4).is_ok());
    assert!(tree.add_child(&2, 5).is_ok());
    assert!(tree.add_child(&2, 6).is_ok());

    // Make assertions
    assert_eq!(tree.nearest_neighbor(&7), &6);
    assert_eq!(tree.nearest_neighbor(&-1), &1);
    assert_eq!(tree.nearest_neighbor(&3), &3);
}

#[test]
fn test_tree_compute_back_path() {
    // Construct tree with many nodes
    let mut tree: Tree<i32> = Tree::new(1);

    assert!(tree.add_child(&1, 2).is_ok());
    assert!(tree.add_child(&1, 3).is_ok());
    assert!(tree.add_child(&2, 4).is_ok());
    assert!(tree.add_child(&2, 5).is_ok());
    assert!(tree.add_child(&3, 7).is_ok());
    assert!(tree.add_child(&5, 6).is_ok());

    // Verify expected paths to different nodes
    let ep1 = vec![1, 2, 5, 6];
    let cp1 = tree.path(&6).unwrap();
    assert_eq!(cp1, ep1);

    let ep2 = vec![1, 3, 7];
    let cp2 = tree.path(&7).unwrap();
    assert_eq!(cp2, ep2);

    // Invalid node
    assert!(tree.path(&8).is_err());
}

#[test]
fn test_tree_nearest_neighbors() {
    let mut tree: Tree<i32> = Tree::new(1);

    assert!(tree.add_child(&1, 2).is_ok());
    assert!(tree.add_child(&1, 4).is_ok());
    assert!(tree.add_child(&2, 5).is_ok());
    assert!(tree.add_child(&4, 7).is_ok());

    // Verify the cost and the nearest node
    // 5 is the closest to 4... duh.
    let neighbors = tree.nearest_neighbors(&4, 2);
    assert_eq!(neighbors.len(), 3);
    assert!(neighbors.contains_key(&2));
    assert!(neighbors.contains_key(&5));
    assert_eq!(*neighbors.get(&2).unwrap(), 2);
    assert_eq!(*neighbors.get(&5).unwrap(), 1);
}

#[test]
fn distance_on_a_line() {
    assert_eq!(3i32.distance(&7), 4);
    assert_eq!(7i32.distance(&3), 4);
    assert_eq!((-5i32).distance(&5), 10);
    assert_eq!(i32::MIN.distance(&i32::MAX), u32::MAX as u64);
    assert_eq!(9i32.distance(&9), 0);
}

#[test]
fn add_child_errors_leave_tree_unchanged() {
    let mut tree: Tree<i32> = Tree::new(1);
    assert_eq!(tree.add_child(&1, 1), Err(TreeError::ChildAlreadyPresent));
    assert_eq!(tree.add_child(&9, 2), Err(TreeError::ParentNotFound));
    assert_eq!(tree.size(), 1);
    assert_eq!(tree.path(&1).unwrap(), vec![1]);
}

#[test]
fn cost_of_each_node_follows_parent() {
    let mut tree: Tree<i32> = Tree::new(10);
    assert!(tree.add_child(&10, 4).is_ok());
    assert!(tree.add_child(&4, 7).is_ok());
    assert!(tree.add_child(&10, 15).is_ok());
    assert_eq!(tree.cost(&10), Ok(0));
    assert_eq!(tree.cost(&4), Ok(6));
    assert_eq!(tree.cost(&7), Ok(9));
    assert_eq!(tree.cost(&15), Ok(5));
    assert_eq!(tree.cost(&3), Err(TreeError::NotFound));
}

#[test]
fn large_costs_add_up() {
    let mut tree: Tree<i32> = Tree::new(i32::MIN);
    let mut prev = i32::MIN;
    // a zig-zag between the ends of the i32 range
    for k in 0..3 {
        let next = if k % 2 == 0 { i32::MAX - k } else { i32::MIN + k };
        assert!(tree.add_child(&prev, next).is_ok());
        prev = next;
    }
    assert_eq!(tree.cost(&(i32::MAX - 2)), Ok(3 * (u32::MAX as u64) - 4));
}

#[test]
fn set_parent_errors() {
    let mut tree: Tree<i32> = Tree::new(1);
    assert!(tree.add_child(&1, 2).is_ok());
    assert!(tree.add_child(&2, 3).is_ok());
    assert_eq!(tree.set_parent(&9, &2), Err(TreeError::ParentNotFound));
    assert_eq!(tree.set_parent(&2, &9), Err(TreeError::ChildNotFound));
    assert_eq!(tree.set_parent(&2, &1), Err(TreeError::CannotReparentRoot));
    assert_eq!(tree.set_parent(&1, &2), Err(TreeError::ChildHasChildren));
    assert_eq!(tree.set_parent(&3, &3), Err(TreeError::ParentIsChild));
    assert_eq!(tree.path(&3).unwrap(), vec![1, 2, 3]);
}

#[test]
fn set_parent_to_current_parent_is_idempotent() {
    let mut tree: Tree<i32> = Tree::new(1);
    assert!(tree.add_child(&1, 2).is_ok());
    assert!(tree.add_child(&1, 3).is_ok());
    assert!(tree.set_parent(&1, &2).is_ok());
    assert_eq!(tree.get_node(&1).unwrap().num_children(), 2);
    assert!(tree.set_parent(&1, &2).is_ok());
    assert_eq!(tree.get_node(&1).unwrap().num_children(), 2);
    assert_eq!(tree.get_parent(&2), Some(&1));
    assert_eq!(tree.cost(&2), Ok(1));
    assert_eq!(tree.path(&2).unwrap(), vec![1, 2]);
}

#[test]
fn rewiring_scenario_moves_leaf_and_updates_cost() {
    let mut tree: Tree<i32> = Tree::new(2);
    assert!(tree.add_child(&2, 4).is_ok());
    assert!(tree.add_child(&4, 1).is_ok());
    assert_eq!(tree.cost(&1), Ok(5));
    assert!(tree.set_parent(&2, &1).is_ok());
    assert_eq!(tree.get_parent(&1), Some(&2));
    assert_eq!(tree.get_parent(&4), Some(&2));
    assert_eq!(tree.get_parent(&2), None);
    assert_eq!(tree.cost(&1), Ok(1));
    assert_eq!(tree.path(&1).unwrap(), vec![2, 1]);
}

#[test]
fn path_after_add_child_extends_parent_path() {
    let mut tree: Tree<i32> = Tree::new(0);
    assert!(tree.add_child(&0, 5).is_ok());
    assert!(tree.add_child(&5, 8).is_ok());
    let parent_path = tree.path(&8).unwrap();
    assert!(tree.add_child(&8, 9).is_ok());
    let child_path = tree.path(&9).unwrap();
    assert_eq!(child_path.len(), parent_path.len() + 1);
    assert_eq!(*child_path.last().unwrap(), 9);
    assert_eq!(child_path[0], 0);
}

#[test]
fn root_only_tree() {
    let tree: Tree<i32> = Tree::new(42);
    assert_eq!(tree.path(&42).unwrap(), vec![42]);
    assert_eq!(tree.nearest_neighbor(&-1000), &42);
    assert_eq!(tree.nearest_neighbor(&42), &42);
    assert_eq!(tree.nearest_neighbor(&1000), &42);
}

#[test]
fn nearest_neighbor_prefers_first_added_on_ties() {
    let mut tree: Tree<i32> = Tree::new(0);
    assert!(tree.add_child(&0, 10).is_ok());
    assert!(tree.add_child(&0, 6).is_ok());
    assert!(tree.add_child(&0, 2).is_ok());
    // 6 and 2 are both 2 away from 4; 6 was added first
    assert_eq!(tree.nearest_neighbor(&4), &6);
}

#[test]
fn zero_radius_neighbors() {
    let mut tree: Tree<i32> = Tree::new(1);
    assert!(tree.add_child(&1, 3).is_ok());
    let hit = tree.nearest_neighbors(&3, 0);
    assert_eq!(hit.len(), 1);
    assert_eq!(hit.get(&3), Some(&0));
    let miss = tree.nearest_neighbors(&2, 0);
    assert!(miss.is_empty());
}

#[test]
fn neighbors_are_exactly_those_within_radius() {
    let mut tree: Tree<i32> = Tree::new(0);
    for v in 1..10 {
        assert!(tree.add_child(&(v - 1), v).is_ok());
    }
    let n = tree.nearest_neighbors(&4, 3);
    let mut keys: Vec<i32> = n.keys().cloned().collect();
    keys.sort();
    assert_eq!(keys, vec![1, 2, 3, 4, 5, 6, 7]);
    assert_eq!(n.get(&1), Some(&3));
    assert_eq!(n.get(&7), Some(&3));
}

fn walk(tree: &Tree<i32>) -> Vec<i32> {
    let mut it = tree.iter_depth_first();
    let mut order = Vec::new();
    while let Some(v) = it.next() {
        order.push(v);
    }
    order
}

#[test]
fn test_tree_dfs() {
    // Construct tree with many nodes
    let mut tree: Tree<i32> = Tree::new(1);

    assert!(tree.add_child(&1, 2).is_ok());
    assert!(tree.add_child(&1, 3).is_ok());
    assert!(tree.add_child(&2, 4).is_ok());
    assert!(tree.add_child(&2, 5).is_ok());
    assert!(tree.add_child(&3, 6).is_ok());

    // Expected order
    let expected_dfs_order = vec![1, 2, 4, 5, 3, 6];
    let dfs_order: Vec<i32> = walk(&tree);

    // Compare
    assert_eq!(dfs_order, expected_dfs_order);
}

#[test]
fn dfs_is_the_same_for_the_same_insertions() {
    let build = || {
        let mut tree: Tree<i32> = Tree::new(0);
        for (p, c) in [(0, 5), (0, -3), (5, 9), (-3, -4), (5, 6), (0, 1)] {
            assert!(tree.add_child(&p, c).is_ok());
        }
        tree
    };
    let a = build();
    let b = build();
    assert_eq!(walk(&a), walk(&b));
    assert_eq!(walk(&a), vec![0, 5, 9, 6, -3, -4, 1]);
}

#[test]
fn dfs_follows_reparenting() {
    let mut tree: Tree<i32> = Tree::new(0);
    assert!(tree.add_child(&0, 1).is_ok());
    assert!(tree.add_child(&0, 2).is_ok());
    assert!(tree.add_child(&1, 3).is_ok());
    assert!(tree.set_parent(&2, &3).is_ok());
    assert_eq!(walk(&tree), vec![0, 1, 2, 3]);
    let mut it = tree.iter_depth_first();
    for _ in 0..4 {
        assert!(it.next().is_some());
    }
    assert_eq!(it.next(), None);
    assert_eq!(it.next(), None);
}
