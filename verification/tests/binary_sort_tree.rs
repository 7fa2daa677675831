use tree_graph::binary_sort_tree::{BinarySortTree, BinarySortTreeError, Node};

fn sample_tree() -> BinarySortTree<i32> {
    let mut tree = BinarySortTree::new();
    for key in [37, 5, 8, 15, 9, 45, 46, 21, 18, 22] {
        tree.insert(key).unwrap();
    }
    tree
}

#[test]
fn solution() {
    // let testdata = random_i32(10, 50);
    let testdata = vec![37, 5, 8, 15, 9, 45, 46, 21, 18, 22];
    let mut tree = BinarySortTree::new();
    testdata.into_iter().for_each(|ele| {
        tree.insert(ele).unwrap();
    });

    assert_eq!(tree.height(), 6, "tree height: {}", tree.height());
    assert_eq!(
        tree.leaves(),
        Some(vec![9, 18, 22, 46]),
        "tree leaves: {:?}",
        tree.leaves()
    );
    assert_eq!(
        tree.inorder_traversal().as_str(),
        "5 -> 8 -> 9 -> 15 -> 18 -> 21 -> 22 -> 37 -> 45 -> 46",
        "tree inorder traversal: {}",
        tree.inorder_traversal()
    );
}

#[test]
fn empty_tree_has_nothing() {
    let tree: BinarySortTree<i32> = BinarySortTree::new();
    assert_eq!(tree.height(), 0);
    assert_eq!(tree.leaves(), None);
    assert_eq!(tree.inorder(), Vec::<i32>::new());
    assert_eq!(tree.inorder_traversal(), "");
    assert!(!tree.contains(&1));
    assert_eq!(tree.get_addr(&1), None);
    assert!(tree.adjacency_list().is_none());
    assert_eq!(tree.topology_sort(), "");
}

#[test]
fn single_node_has_height_one() {
    let mut tree = BinarySortTree::new();
    tree.insert(7).unwrap();
    assert_eq!(tree.height(), 1);
    assert_eq!(tree.leaves(), Some(vec![7]));
    assert_eq!(tree.inorder_traversal(), "7");
}

#[test]
fn full_tree_of_three_levels_has_height_three() {
    let mut tree = BinarySortTree::new();
    for key in [4, 2, 6, 1, 3, 5, 7] {
        tree.insert(key).unwrap();
    }
    assert_eq!(tree.height(), 3);
    assert_eq!(tree.leaves(), Some(vec![1, 3, 5, 7]));
}

#[test]
fn degenerate_tree_is_as_high_as_it_has_keys() {
    let mut tree = BinarySortTree::new();
    for key in 1..=20 {
        tree.insert(key).unwrap();
    }
    assert_eq!(tree.height(), 20);
    assert_eq!(tree.leaves(), Some(vec![20]));
}

#[test]
fn inorder_is_strictly_increasing() {
    let tree = sample_tree();
    let keys = tree.inorder();
    assert_eq!(keys, vec![5, 8, 9, 15, 18, 21, 22, 37, 45, 46]);
    assert!(keys.windows(2).all(|pair| pair[0] < pair[1]));
}

#[test]
fn insert_refuses_a_key_twice() {
    let mut tree = sample_tree();
    assert!(matches!(
        tree.insert(15),
        Err(BinarySortTreeError::ValueAlreadyExisted)
    ));
    assert_eq!(tree.inorder(), vec![5, 8, 9, 15, 18, 21, 22, 37, 45, 46]);
    assert_eq!(tree.height(), 6);
}

#[test]
fn inserted_key_is_found_until_it_is_removed() {
    let mut tree = BinarySortTree::new();
    assert!(!tree.contains(&10));
    tree.insert(10).unwrap();
    assert!(tree.contains(&10));
    tree.insert(4).unwrap();
    tree.insert(12).unwrap();
    assert!(tree.contains(&10));
    tree.remove(&4).unwrap();
    assert!(tree.contains(&10));
    tree.remove(&10).unwrap();
    assert!(!tree.contains(&10));
    assert!(tree.contains(&12));
}

#[test]
fn remove_reports_a_missing_key() {
    let mut tree = sample_tree();
    assert!(matches!(
        tree.remove(&100),
        Err(BinarySortTreeError::NodeNotFound)
    ));
    assert_eq!(tree.inorder(), vec![5, 8, 9, 15, 18, 21, 22, 37, 45, 46]);
    let mut empty: BinarySortTree<i32> = BinarySortTree::new();
    assert!(matches!(
        empty.remove(&1),
        Err(BinarySortTreeError::NodeNotFound)
    ));
}

#[test]
fn remove_a_node_without_children() {
    let mut tree = sample_tree();
    tree.remove(&9).unwrap();
    assert_eq!(tree.inorder(), vec![5, 8, 15, 18, 21, 22, 37, 45, 46]);
    assert_eq!(tree.leaves(), Some(vec![18, 22, 46]));
    assert!(!tree.contains(&9));
}

#[test]
fn remove_a_node_with_one_child() {
    let mut tree = sample_tree();
    tree.remove(&8).unwrap();
    assert_eq!(tree.inorder(), vec![5, 9, 15, 18, 21, 22, 37, 45, 46]);
    assert_eq!(tree.height(), 5);
    tree.remove(&45).unwrap();
    assert_eq!(tree.inorder(), vec![5, 9, 15, 18, 21, 22, 37, 46]);
    assert_eq!(tree.leaves(), Some(vec![9, 18, 22, 46]));
}

#[test]
fn remove_a_node_with_two_children_takes_the_predecessor() {
    let mut tree = sample_tree();
    // 15 has the children 9 and 21: 9 takes its place
    tree.remove(&15).unwrap();
    assert_eq!(tree.inorder(), vec![5, 8, 9, 18, 21, 22, 37, 45, 46]);
    assert_eq!(tree.leaves(), Some(vec![18, 22, 46]));
    assert_eq!(
        tree.adjacency_list().unwrap().debug_text(),
        "37: 45 -> 5\n5: 8\n45: 46\n8: 9\n46: None\n9: 21\n21: 22 -> 18\n18: None\n22: None\n"
    );
    // the root has two children: 22 is the largest key on its left
    tree.remove(&37).unwrap();
    assert_eq!(tree.inorder(), vec![5, 8, 9, 18, 21, 22, 45, 46]);
    assert_eq!(
        tree.adjacency_list().unwrap().debug_text(),
        "22: 45 -> 5\n5: 8\n45: 46\n8: 9\n46: None\n9: 21\n21: 18\n18: None\n"
    );
}

#[test]
fn remove_every_key_leaves_the_empty_tree() {
    let mut tree = sample_tree();
    for key in [37, 5, 8, 15, 9, 45, 46, 21, 18, 22] {
        tree.remove(&key).unwrap();
        assert!(!tree.contains(&key));
        let keys = tree.inorder();
        assert!(keys.windows(2).all(|pair| pair[0] < pair[1]));
    }
    assert_eq!(tree.height(), 0);
    assert_eq!(tree.leaves(), None);
}

#[test]
fn leaves_have_no_children() {
    let tree = sample_tree();
    let adj_list = tree.adjacency_list().unwrap();
    let leaves = tree.leaves().unwrap();
    let mut childless = Vec::new();
    for i in 0..adj_list.len() {
        let (head, mut successors) = adj_list.row(i);
        if successors.pop().is_none() {
            childless.push(head);
        }
    }
    childless.sort();
    assert_eq!(leaves, childless);
}

#[test]
fn identities_tell_nodes_apart_and_stay() {
    let mut tree = sample_tree();
    let keys = tree.inorder();
    let ids: Vec<usize> = keys.iter().map(|k| tree.get_addr(k).unwrap()).collect();
    for i in 0..ids.len() {
        for j in 0..i {
            assert_ne!(ids[i], ids[j]);
        }
    }
    assert_eq!(tree.get_addr(&100), None);
    let id_of_46 = tree.get_addr(&46).unwrap();
    tree.insert(40).unwrap();
    tree.remove(&9).unwrap();
    assert_eq!(tree.get_addr(&46), Some(id_of_46));
    assert_eq!(tree.get_addr(&9), None);
    // a node with two children keeps its identity and takes the key
    // of its predecessor
    let mut tree = sample_tree();
    let id_of_15 = tree.get_addr(&15).unwrap();
    let id_of_21 = tree.get_addr(&21).unwrap();
    tree.remove(&15).unwrap();
    assert_eq!(tree.get_addr(&15), None);
    assert_eq!(tree.get_addr(&9), Some(id_of_15));
    assert_eq!(tree.get_addr(&21), Some(id_of_21));
}

#[test]
fn identities_are_given_out_in_turn() {
    let mut tree = BinarySortTree::new();
    tree.insert(5).unwrap();
    tree.insert(3).unwrap();
    assert!(tree.insert(3).is_err());
    tree.insert(8).unwrap();
    assert_eq!(tree.get_addr(&5), Some(0));
    assert_eq!(tree.get_addr(&3), Some(1));
    assert_eq!(tree.get_addr(&8), Some(2));
    tree.remove(&3).unwrap();
    tree.insert(3).unwrap();
    assert_eq!(tree.get_addr(&3), Some(3));
}

#[test]
fn adjacency_list_goes_level_by_level() {
    let tree = sample_tree();
    let adj_list = tree.adjacency_list().unwrap();
    assert_eq!(adj_list.len(), 10);
    let heads: Vec<i32> = (0..adj_list.len()).map(|i| adj_list.row(i).0).collect();
    assert_eq!(heads, vec![37, 5, 45, 8, 46, 15, 9, 21, 18, 22]);
    assert_eq!(
        adj_list.debug_text(),
        "37: 45 -> 5\n5: 8\n45: 46\n8: 15\n46: None\n15: 21 -> 9\n9: None\n21: 22 -> 18\n18: None\n22: None\n"
    );
}

#[test]
fn topology_sort_walks_the_adjacency_list() {
    let tree = sample_tree();
    assert_eq!(
        tree.topology_sort(),
        "37 -> 45 -> 5 -> 8 -> 46 -> 15 -> 21 -> 9 -> 22 -> 18"
    );
    let mut small = BinarySortTree::new();
    small.insert(2).unwrap();
    assert_eq!(small.topology_sort(), "2");
    small.insert(1).unwrap();
    small.insert(3).unwrap();
    assert_eq!(small.topology_sort(), "2 -> 3 -> 1");
}

#[test]
fn clone_is_a_tree_of_its_own() {
    let tree = sample_tree();
    let mut copy = tree.clone();
    assert_eq!(copy.inorder(), tree.inorder());
    assert_eq!(copy.height(), tree.height());
    assert_eq!(copy.get_addr(&21), tree.get_addr(&21));
    copy.remove(&21).unwrap();
    copy.insert(1).unwrap();
    assert!(tree.contains(&21));
    assert!(!tree.contains(&1));
    assert!(!copy.contains(&21));
    assert!(copy.contains(&1));
}

#[test]
fn trees_of_unsigned_keys() {
    let mut tree: BinarySortTree<usize> = BinarySortTree::new();
    for key in [3usize, 1, 2] {
        tree.insert(key).unwrap();
    }
    assert_eq!(tree.inorder_traversal(), "1 -> 2 -> 3");
    assert_eq!(tree.height(), 3);
}

#[test]
fn a_new_child_takes_the_place_of_the_old_one() {
    let mut node = Node::new(5, 0);
    assert_eq!(
        format!("{:?}", node),
        "Node { val: 5, id: 0, left: None, right: None }"
    );
    node.set_left(3, 1);
    node.set_right(8, 2);
    node.set_left(4, 3);
    assert_eq!(
        format!("{:?}", node),
        "Node { val: 5, id: 0, \
         left: Some(Node { val: 4, id: 3, left: None, right: None }), \
         right: Some(Node { val: 8, id: 2, left: None, right: None }) }"
    );
    let copy = node.clone();
    assert_eq!(format!("{:?}", copy), format!("{:?}", node));
}
