use tree_graph::linked_list::SingleLinkedList;

#[test]
fn test_single_linked_list() {
    let mut list = SingleLinkedList::new();
    list.push(1);
    list.push(2);
    list.push(3);
    // dbg!(list);

    while let Some(value) = list.pop() {
        println!("value: {value}");
    }
}

#[test]
fn pop_gives_the_last_pushed_first() {
    let mut list = SingleLinkedList::new();
    assert_eq!(list.len(), 0);
    assert_eq!(list.pop(), None::<i32>);
    list.push(1);
    list.push(2);
    list.push(3);
    assert_eq!(list.len(), 3);
    assert_eq!(list.pop(), Some(3));
    assert_eq!(list.len(), 2);
    list.push(4);
    assert_eq!(list.pop(), Some(4));
    assert_eq!(list.pop(), Some(2));
    assert_eq!(list.pop(), Some(1));
    assert_eq!(list.pop(), None);
    assert_eq!(list.len(), 0);
}

#[test]
fn clone_keeps_values_and_order() {
    let mut list = SingleLinkedList::new();
    list.push(1);
    list.push(2);
    let mut copy = list.clone();
    assert_eq!(copy.len(), 2);
    assert_eq!(copy.pop(), Some(2));
    assert_eq!(copy.pop(), Some(1));
    assert_eq!(copy.pop(), None);
    assert_eq!(list.len(), 2);
    assert_eq!(list.pop(), Some(2));
}
