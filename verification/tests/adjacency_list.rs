use tree_graph::adjacency_list::{AdjacencyList, AdjacencyListOpError};

#[test]
fn test_adjacency_list_print() {
    let mut adj_list = AdjacencyList::new();
    adj_list.add_head(1).unwrap();
    println!("{}", adj_list.debug_text());

    adj_list.add_head(2).unwrap();
    println!("{}", adj_list.debug_text());

    adj_list.append_to_head(1, 2).unwrap();
    adj_list.append_to_head(1, 3).unwrap();
    adj_list.append_to_head(1, 4).unwrap();
    adj_list.append_to_head(1, 5).unwrap();
    println!("{}", adj_list.debug_text());
}

#[test]
fn debug_text_has_a_line_for_every_head() {
    let mut adj_list = AdjacencyList::new();
    assert_eq!(adj_list.debug_text(), "");
    adj_list.add_head(1).unwrap();
    assert_eq!(adj_list.debug_text(), "1: None\n");
    adj_list.add_head(2).unwrap();
    assert_eq!(adj_list.debug_text(), "1: None\n2: None\n");
    adj_list.append_to_head(1, 2).unwrap();
    adj_list.append_to_head(1, 3).unwrap();
    adj_list.append_to_head(1, 4).unwrap();
    adj_list.append_to_head(1, 5).unwrap();
    assert_eq!(adj_list.debug_text(), "1: 5 -> 4 -> 3 -> 2\n2: None\n");
    adj_list.append_to_head(2, -7).unwrap();
    assert_eq!(adj_list.debug_text(), "1: 5 -> 4 -> 3 -> 2\n2: -7\n");
}

#[test]
fn a_head_is_added_once() {
    let mut adj_list = AdjacencyList::new();
    assert!(!adj_list.has_head(&1));
    adj_list.add_head(1).unwrap();
    assert!(adj_list.has_head(&1));
    assert!(matches!(
        adj_list.add_head(1),
        Err(AdjacencyListOpError::HeadAlreadyExists)
    ));
    assert_eq!(adj_list.len(), 1);
}

#[test]
fn a_successor_needs_its_head() {
    let mut adj_list = AdjacencyList::new();
    adj_list.add_head(1).unwrap();
    assert!(matches!(
        adj_list.append_to_head(2, 1),
        Err(AdjacencyListOpError::RequiredHeadNotExists)
    ));
    assert_eq!(adj_list.debug_text(), "1: None\n");
}

#[test]
fn row_hands_out_a_copy() {
    let mut adj_list = AdjacencyList::new();
    adj_list.add_head(1).unwrap();
    adj_list.append_to_head(1, 2).unwrap();
    adj_list.append_to_head(1, 3).unwrap();
    let (head, mut successors) = adj_list.row(0);
    assert_eq!(head, 1);
    assert_eq!(successors.pop(), Some(3));
    assert_eq!(successors.pop(), Some(2));
    assert_eq!(successors.pop(), None);
    assert_eq!(adj_list.debug_text(), "1: 3 -> 2\n");
}
