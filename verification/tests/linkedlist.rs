use alda::linkedlist::{LinkedList, Node};

#[test]
fn test_search_empty() {
    let link: LinkedList<isize> = LinkedList::new();
    assert_eq!(link.search(&0), None);
}

#[test]
fn test_does_not_contain_node() {
    let mut link = LinkedList::new();
    link.insert(Node::new(2));
    assert!(link.search(&9).is_none());
}

#[test]
fn test_insert_one_node() {
    let mut link = LinkedList::new();
    assert_eq!(link.len(), 0);
    link.insert(Node::new(7));
    assert_eq!(link.len(), 1);
}

#[test]
fn every_inserted_node_is_found() {
    let xs = [3, -1, 4, 1, -5, 9, 2, 6];
    let mut link = LinkedList::new();
    for x in xs {
        link.insert(Node::new(x));
    }
    for x in xs.iter().rev() {
        assert_eq!(*link.search(x).unwrap().get(), *x);
    }
    assert_eq!(link.len(), xs.len());
}

#[test]
fn a_deleted_node_is_gone() {
    let mut link = LinkedList::new();
    for x in [1, 2, 3, 2] {
        link.insert(Node::new(x));
    }
    assert_eq!(link.delete(&Node::new(2)), Ok(()));
    assert_eq!(link.len(), 3);
    assert!(link.search(&2).is_some());
    assert_eq!(link.delete(&Node::new(2)), Ok(()));
    assert!(link.search(&2).is_none());
    assert_eq!(link.delete(&Node::new(1)), Ok(()));
    assert_eq!(link.delete(&Node::new(3)), Ok(()));
    assert_eq!(link.len(), 0);
}
