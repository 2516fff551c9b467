use exercises::bst::{BinarySearchTree, TreeNode};

#[test]
fn test_insert_and_search() {
    let mut bst = BinarySearchTree::new();

    assert_eq!(bst.search(1), false);

    bst.insert(5);
    bst.insert(3);
    bst.insert(7);
    bst.insert(2);
    bst.insert(4);

    assert_eq!(bst.search(5), true);
    assert_eq!(bst.search(3), true);
    assert_eq!(bst.search(7), true);
    assert_eq!(bst.search(2), true);
    assert_eq!(bst.search(4), true);

    assert_eq!(bst.search(1), false);
    assert_eq!(bst.search(6), false);
}

#[test]
fn test_insert_duplicate() {
    let mut bst = BinarySearchTree::new();

    bst.insert(1);
    bst.insert(1);

    assert_eq!(bst.search(1), true);

    match bst.root {
        Some(ref node) => {
            assert!(node.left.is_none());
            assert!(node.right.is_none());
        }
        None => panic!("Root should not be None after insertion"),
    }
}

#[test]
fn node_insert_places_smaller_left_and_larger_right() {
    let mut node = TreeNode::new(10);
    assert!(node.left.is_none() && node.right.is_none());
    node.insert(4);
    node.insert(15);
    node.insert(12);
    node.insert(4);
    assert_eq!(node.value, 10);
    let left = node.left.as_ref().unwrap();
    assert_eq!(left.value, 4);
    assert!(left.left.is_none() && left.right.is_none());
    let right = node.right.as_ref().unwrap();
    assert_eq!(right.value, 15);
    assert_eq!(right.left.as_ref().unwrap().value, 12);
    assert!(right.right.is_none());
}

#[test]
fn tree_of_many_values() {
    let mut bst = BinarySearchTree::new();
    let mut x: i32 = 7;
    for _ in 0..200 {
        x = (x * 31 + 11) % 1009;
        bst.insert(x);
    }
    let mut y: i32 = 7;
    for _ in 0..200 {
        y = (y * 31 + 11) % 1009;
        assert!(bst.search(y));
    }
    assert!(!bst.search(-1));
    assert!(!bst.search(1009));
}
