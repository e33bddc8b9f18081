use alda::list::List;

#[test]
fn list_operations() {
    let mut list = List::default();
    list.insert(1);
    list.insert(2);
    list.insert(3);
    list.insert(4);
}
