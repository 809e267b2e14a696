use ego_tree::arena::{NodeId, Tree};

/// Build a tree whose root holds `root_val` and whose root children hold
/// `vals`, appended in creation order.
fn tree_with_children(root_val: u64, vals: &[u64]) -> (Tree, NodeId) {
    let mut tree = Tree::new(root_val);
    let root = tree.root();
    for &v in vals {
        tree.append_child(root, v);
    }
    (tree, root)
}

fn child_values(tree: &Tree, id: NodeId) -> Vec<u64> {
    tree.children(id).iter().map(|&c| tree.value(c)).collect()
}

fn child_indices(tree: &Tree, id: NodeId) -> Vec<usize> {
    tree.children(id).iter().map(|c| c.to_index()).collect()
}

#[test]
fn sort_ascending_by_value() {
    // values 'd', 'c', 'b' in creation order
    let (tree, root) = tree_with_children(0, &[100, 99, 98]);
    let mut node = tree.node_mut(root);
    node.sort();
    let tree = node.into_tree();
    assert_eq!(vec![98, 99, 100], child_values(&tree, root));
}

#[test]
fn sort_id_restores_creation_order() {
    let (tree, root) = tree_with_children(0, &[100, 99, 98]);
    let mut node = tree.node_mut(root);
    node.sort();
    let tree = node.into_tree();
    assert_ne!(vec![100, 99, 98], child_values(&tree, root));
    let mut node = tree.node_mut(root);
    node.sort_id();
    let tree = node.into_tree();
    assert_eq!(vec![100, 99, 98], child_values(&tree, root));
    assert_eq!(vec![1, 2, 3], child_indices(&tree, root));
}

#[test]
fn sort_by_descending() {
    // values 'c', 'd', 'b'; a reversed comparison sorts descending
    let (tree, root) = tree_with_children(0, &[99, 100, 98]);
    let mut node = tree.node_mut(root);
    node.sort_by(|a: u64, b: u64| b.cmp(&a));
    let tree = node.into_tree();
    assert_eq!(vec![100, 99, 98], child_values(&tree, root));
}

#[test]
fn sort_by_key_numeric_prefix() {
    // values 21 ("2b"), 43 ("4c"), 32 ("3d"); key = leading digit
    let (tree, root) = tree_with_children(11, &[21, 43, 32]);
    let mut node = tree.node_mut(root);
    node.sort_by_key(|v: u64| v / 10);
    let tree = node.into_tree();
    assert_eq!(vec![21, 32, 43], child_values(&tree, root));
}

#[test]
fn sort_by_key_is_stable_on_equal_keys() {
    // keys 2, 1, 2: the two children with key 2 keep their creation order
    let (tree, root) = tree_with_children(0, &[21, 11, 29]);
    let mut node = tree.node_mut(root);
    node.sort_by_key(|v: u64| v / 10);
    let tree = node.into_tree();
    assert_eq!(vec![11, 21, 29], child_values(&tree, root));
    assert_eq!(vec![2, 1, 3], child_indices(&tree, root));
}

#[test]
fn sort_by_id_descending() {
    let (tree, root) = tree_with_children(0, &[100, 98, 99]);
    let mut node = tree.node_mut(root);
    node.sort_by_id(|a: usize, b: usize| b.cmp(&a));
    let tree = node.into_tree();
    assert_eq!(vec![3, 2, 1], child_indices(&tree, root));
    assert_eq!(vec![99, 98, 100], child_values(&tree, root));
}

#[test]
fn sort_by_id_key_mixed() {
    // identifiers 1, 2, 3 with values d=100, b=98, c=99;
    // key = index + value gives 101, 100, 102, hence order b, d, c
    let (tree, root) = tree_with_children(0, &[100, 98, 99]);
    let mut node = tree.node_mut(root);
    node.sort_by_id_key(|i: usize, v: u64| i as u64 + v);
    let tree = node.into_tree();
    assert_eq!(vec![98, 100, 99], child_values(&tree, root));
    assert_eq!(vec![2, 1, 3], child_indices(&tree, root));
}

#[test]
fn sort_is_stable_on_equal_values() {
    let (tree, root) = tree_with_children(0, &[5, 3, 5, 1]);
    let mut node = tree.node_mut(root);
    node.sort();
    let tree = node.into_tree();
    assert_eq!(vec![1, 3, 5, 5], child_values(&tree, root));
    // the two equal values keep their creation order: id 1 before id 3
    assert_eq!(vec![4, 2, 1, 3], child_indices(&tree, root));
}

#[test]
fn sort_twice_equals_sort_once() {
    let (tree, root) = tree_with_children(0, &[7, 7, 2, 9, 2]);
    let mut node = tree.node_mut(root);
    node.sort();
    let tree = node.into_tree();
    let once = child_indices(&tree, root);
    let mut node = tree.node_mut(root);
    node.sort();
    let tree = node.into_tree();
    assert_eq!(once, child_indices(&tree, root));
}

#[test]
fn sort_id_twice_equals_sort_id_once() {
    let (tree, root) = tree_with_children(0, &[7, 1, 4]);
    let mut node = tree.node_mut(root);
    node.sort_by(|a: u64, b: u64| b.cmp(&a));
    let tree = node.into_tree();
    let mut node = tree.node_mut(root);
    node.sort_id();
    let tree = node.into_tree();
    let once = child_indices(&tree, root);
    let mut node = tree.node_mut(root);
    node.sort_id();
    let tree = node.into_tree();
    assert_eq!(once, child_indices(&tree, root));
    assert_eq!(vec![1, 2, 3], child_indices(&tree, root));
}

#[test]
fn no_children_is_a_no_op() {
    let tree = Tree::new(42);
    let root = tree.root();
    let mut node = tree.node_mut(root);
    assert!(!node.has_children());
    node.sort();
    node.sort_id();
    node.sort_by(|a: u64, b: u64| a.cmp(&b));
    let tree = node.into_tree();
    assert_eq!(Vec::<u64>::new(), child_values(&tree, root));
}

#[test]
fn single_child_is_a_no_op() {
    let (tree, root) = tree_with_children(0, &[13]);
    let mut node = tree.node_mut(root);
    node.sort();
    node.sort_by_key(|v: u64| v + 1);
    node.sort_id();
    let tree = node.into_tree();
    assert_eq!(vec![13], child_values(&tree, root));
    assert_eq!(vec![1], child_indices(&tree, root));
}

#[test]
fn equal_comparator_keeps_order() {
    let (tree, root) = tree_with_children(0, &[30, 10, 20]);
    let mut node = tree.node_mut(root);
    node.sort_by(|_a: u64, _b: u64| std::cmp::Ordering::Equal);
    let tree = node.into_tree();
    assert_eq!(vec![30, 10, 20], child_values(&tree, root));
}

#[test]
fn permutation_closure_under_any_sort() {
    let (tree, root) = tree_with_children(0, &[9, 4, 6, 1, 8]);
    let before = {
        let mut v = child_indices(&tree, root);
        v.sort();
        v
    };
    let mut node = tree.node_mut(root);
    node.sort_by(|a: u64, b: u64| b.cmp(&a));
    node.sort_by_key(|v: u64| v % 3);
    node.sort();
    let tree = node.into_tree();
    let after_sorted = {
        let mut v = child_indices(&tree, root);
        v.sort();
        v
    };
    assert_eq!(before, after_sorted);
    assert_eq!(5, tree.children(root).len());
}

#[test]
fn subtrees_travel_untouched() {
    let mut tree = Tree::new(0);
    let root = tree.root();
    let x = tree.append_child(root, 50); // id 1
    let y = tree.append_child(root, 40); // id 2
    let _gx1 = tree.append_child(x, 7); // id 3
    let _gx2 = tree.append_child(x, 3); // id 4
    let _gy1 = tree.append_child(y, 9); // id 5
    let mut node = tree.node_mut(root);
    node.sort();
    let tree = node.into_tree();
    // the two children swapped, but each keeps its own children in order
    assert_eq!(vec![40, 50], child_values(&tree, root));
    assert_eq!(vec![2, 1], child_indices(&tree, root));
    assert_eq!(vec![7, 3], child_values(&tree, x));
    assert_eq!(vec![3, 4], child_indices(&tree, x));
    assert_eq!(vec![9], child_values(&tree, y));
    assert_eq!(50, tree.value(x));
    assert_eq!(40, tree.value(y));
}

#[test]
fn reversal_exercises_the_carry() {
    // a full reversal drives the applier through its carry-active state on
    // every position
    let (tree, root) = tree_with_children(0, &[5, 4, 3, 2, 1]);
    let mut node = tree.node_mut(root);
    node.sort();
    let tree = node.into_tree();
    assert_eq!(vec![1, 2, 3, 4, 5], child_values(&tree, root));
    assert_eq!(vec![5, 4, 3, 2, 1], child_indices(&tree, root));
}

#[test]
fn interleaved_permutation() {
    let (tree, root) = tree_with_children(0, &[2, 9, 1, 8, 3, 7]);
    let mut node = tree.node_mut(root);
    node.sort();
    let tree = node.into_tree();
    assert_eq!(vec![1, 2, 3, 7, 8, 9], child_values(&tree, root));
    let mut node = tree.node_mut(root);
    node.sort_id();
    let tree = node.into_tree();
    assert_eq!(vec![2, 9, 1, 8, 3, 7], child_values(&tree, root));
}
