use alda::tree::binary_tree::{BinaryTree, Node};

fn new_tree() -> BinaryTree<isize> {
    let mut tree = BinaryTree::new();

    let mut root = Node::new(7);
    let mut left_child = Node::new(5);
    let lc = Node::new(4);
    left_child.left = Some(lc);

    root.left = Some(left_child);

    let mut right = Node::new(9);
    let rc = Node::new(8);
    right.left = Some(rc);

    root.right = Some(right);

    tree.root = Some(root);
    return tree;
}

#[test]
fn insert_builds_the_same_tree() {
    let mut tree = BinaryTree::new();
    for key in [7, 5, 4, 9, 8] {
        tree.insert(key);
    }
    assert_eq!(format!("{:?}", tree), format!("{:?}", new_tree()));
}

#[test]
fn test_search() {
    let tree = new_tree();
    assert_eq!(tree.search(&8).unwrap().key, 8);
    assert_eq!(tree.parent_of(&8).unwrap().key, 9);
    assert_eq!(
        tree.search(&5)
            .unwrap()
            .left
            .as_ref()
            .unwrap()
            .key,
        4
    );
}

#[test]
fn test_iterative_search() {
    let tree = new_tree();
    assert_eq!(tree.iterative_search(&8).unwrap().key, 8);
    assert_eq!(tree.parent_of(&8).unwrap().key, 9);
    assert_eq!(
        tree.iterative_search(&5)
            .unwrap()
            .left
            .as_ref()
            .unwrap()
            .key,
        4
    );
}

#[test]
fn test_maximum() {
    let tree = new_tree();
    assert_eq!(tree.max().unwrap().key, 9);
}

#[test]
fn test_minimum() {
    let tree = new_tree();
    assert_eq!(tree.min().unwrap().key, 4);
}

#[test]
fn test_successor() {
    let tree = new_tree();
    assert_eq!(tree.successor(&8).unwrap().key, 9);
    assert!(tree.successor(&9).is_none());
}

#[test]
fn test_insert() {
    let mut tree = BinaryTree::new();
    tree.insert(0);
    assert_eq!(tree.root.unwrap().key, 0);

    let mut tree = new_tree();
    tree.insert(14);
    assert_eq!(tree.parent_of(&14).unwrap().key, 9)
}

#[test]
fn keys_are_read_in_ascending_order() {
    let mut tree = new_tree();
    assert_eq!(tree.keys(), vec![&4, &5, &7, &8, &9]);
    tree.insert(7);
    tree.insert(6);
    assert_eq!(tree.keys(), vec![&4, &5, &6, &7, &7, &8, &9]);
    assert_eq!(*tree.parent_of(&6).unwrap().get(), 5);
    assert_eq!(*tree.search(&5).unwrap().right_child().unwrap().get(), 6);
    assert!(tree.search(&3).is_none());
    assert!(tree.iterative_search(&10).is_none());
    assert!(tree.parent_of(&7).is_none());
    assert!(tree.parent_of(&1).is_none());
    assert_eq!(*tree.successor(&4).unwrap().get(), 5);
    assert_eq!(*tree.successor(&7).unwrap().get(), 8);
    assert!(tree.successor(&6).is_some());
    assert!(tree.successor(&1).is_none());
}

#[test]
fn an_empty_tree_and_a_tree_of_one_node() {
    let tree: BinaryTree<isize> = BinaryTree::new();
    assert!(tree.min().is_none());
    assert!(tree.max().is_none());
    assert!(tree.search(&1).is_none());
    assert!(tree.keys().is_empty());
    let mut tree = BinaryTree::new();
    tree.root = Some(Node::new(9));
    assert_eq!(*tree.min().unwrap().get(), 9);
    assert_eq!(*tree.max().unwrap().get(), 9);
    assert!(tree.successor(&9).is_none());
}

fn written(keys: Vec<&isize>) -> String {
    keys.iter().map(|k| format!("{:?}", k)).collect()
}

#[test]
fn test_print_keys() {
    let mut tree: BinaryTree<isize> = BinaryTree::new();

    let mut root = Node::new(9);

    let left = Node::new(7);

    root.left = Some(left);
    tree.root = Some(root);

    assert_eq!(written(tree.keys()).len(), 2);
}

#[test]
fn test_iterative_print_keys() {
    let mut tree = BinaryTree::new();

    let mut root = Node::new(3);

    root.right = Some(Node::new(4));
    let left = Node::new(2);

    root.left = Some(left);
    tree.root = Some(root);

    assert_eq!(written(tree.iterative_keys()), "234");
}

#[test]
fn both_ways_to_read_the_keys_agree() {
    let mut tree = BinaryTree::new();
    for key in [50, 20, 70, 10, 30, 60, 80, 25, 35, 65, 20] {
        tree.insert(key);
        assert_eq!(tree.keys(), tree.iterative_keys());
    }
    assert_eq!(
        tree.iterative_keys(),
        vec![&10, &20, &20, &25, &30, &35, &50, &60, &65, &70, &80]
    );
}
