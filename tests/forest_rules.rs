use permission_tree::{Permission, Tree, TreeError};

fn perm(tree: &Tree, id: u32) -> Permission {
    tree.nodes.get(&id).unwrap().permission
}

fn chain_of_four() -> Tree {
    let mut tree = Tree::new();
    for id in 1..=4 {
        assert_eq!(tree.add_node(id, Permission::Public), Ok(()));
    }
    assert_eq!(tree.connect_nodes(1, 2), Ok(()));
    assert_eq!(tree.connect_nodes(2, 3), Ok(()));
    assert_eq!(tree.connect_nodes(3, 4), Ok(()));
    tree
}

#[test]
fn privacy_flows_on_link_and_relocate() {
    let mut tree = Tree::new();
    assert_eq!(tree.add_node(1, Permission::Public), Ok(()));
    assert_eq!(tree.add_node(2, Permission::Public), Ok(()));
    assert_eq!(tree.add_node(3, Permission::Private), Ok(()));
    assert_eq!(tree.add_node(4, Permission::Public), Ok(()));
    assert_eq!(tree.add_node(5, Permission::Public), Ok(()));
    assert_eq!(tree.connect_nodes(1, 2), Ok(()));
    assert_eq!(tree.connect_nodes(1, 3), Ok(()));
    assert_eq!(tree.connect_nodes(2, 4), Ok(()));
    assert_eq!(tree.connect_nodes(2, 5), Ok(()));
    assert_eq!(tree.add_node(6, Permission::Public), Ok(()));
    assert_eq!(tree.connect_nodes(3, 6), Ok(()));
    assert_eq!(perm(&tree, 6), Permission::Private);
    assert_eq!(perm(&tree, 2), Permission::Public);

    assert_eq!(tree.move_subtree(2, 3), Ok(()));
    assert_eq!(perm(&tree, 2), Permission::Private);
    assert_eq!(perm(&tree, 4), Permission::Private);
    assert_eq!(perm(&tree, 5), Permission::Private);
    assert_eq!(perm(&tree, 1), Permission::Public);
    assert_eq!(tree.parent_map.get(&2), Some(&3));
    assert!(tree.nodes.get(&3).unwrap().children.contains(&2));
    assert!(!tree.nodes.get(&1).unwrap().children.contains(&2));
}

#[test]
fn tags_added_before_link_are_inherited() {
    let mut tree = Tree::new();
    for id in 1..=3 {
        assert_eq!(tree.add_node(id, Permission::Public), Ok(()));
    }
    assert_eq!(tree.connect_nodes(1, 2), Ok(()));
    assert_eq!(tree.add_tag_to_node(1, "t".to_string()), Ok(()));
    assert!(tree.nodes.get(&2).unwrap().has_tag("t"));
    assert!(tree.nodes.get(&3).unwrap().tags.is_none());
    assert_eq!(tree.connect_nodes(1, 3), Ok(()));
    assert!(tree.nodes.get(&3).unwrap().has_tag("t"));
}

#[test]
fn relocating_under_a_descendant_is_rejected() {
    let mut tree = chain_of_four();
    assert_eq!(tree.move_subtree(3, 4), Err(TreeError::CycleDetected));
    assert_eq!(tree.parent_map.get(&2), Some(&1));
    assert_eq!(tree.parent_map.get(&3), Some(&2));
    assert_eq!(tree.parent_map.get(&4), Some(&3));
    assert_eq!(tree.parent_map.get(&1), None);
    assert_eq!(tree.nodes.get(&3).unwrap().children, vec![4]);
    assert!(tree.nodes.get(&4).unwrap().children.is_empty());
}

#[test]
fn relocating_under_itself_is_rejected() {
    let mut tree = chain_of_four();
    assert_eq!(tree.move_subtree(2, 2), Err(TreeError::CycleDetected));
    assert_eq!(tree.move_subtree(1, 4), Err(TreeError::CycleDetected));
    assert_eq!(tree.parent_map.get(&2), Some(&1));
    assert_eq!(tree.parent_map.len(), 3);
}

#[test]
fn linking_errors_are_reported() {
    let mut tree = chain_of_four();
    assert_eq!(tree.connect_nodes(1, 9), Err(TreeError::MissingNode));
    assert_eq!(tree.connect_nodes(9, 1), Err(TreeError::MissingNode));
    assert_eq!(tree.connect_nodes(2, 2), Err(TreeError::SelfParent));
    assert_eq!(tree.connect_nodes(1, 3), Err(TreeError::AlreadyParented));
    assert_eq!(tree.connect_nodes(4, 1), Err(TreeError::CycleDetected));
    assert_eq!(tree.parent_map.get(&1), None);
    assert_eq!(tree.parent_map.get(&3), Some(&2));
    assert!(!tree.nodes.get(&1).unwrap().children.contains(&3));
}

#[test]
fn other_errors_are_reported() {
    let mut tree = Tree::new();
    assert_eq!(tree.add_node(7, Permission::Private), Ok(()));
    assert_eq!(tree.add_node(7, Permission::Public), Err(TreeError::DuplicateKey));
    assert_eq!(tree.nodes.get(&7).unwrap().permission, Permission::Private);
    assert_eq!(tree.add_tag_to_node(8, "x".to_string()), Err(TreeError::MissingNode));
    assert_eq!(tree.move_subtree(7, 8), Err(TreeError::MissingNode));
    assert_eq!(tree.move_subtree(8, 7), Err(TreeError::MissingNode));
    assert_eq!(tree.nodes.len(), 1);
}

#[test]
fn private_node_keeps_its_subtree_private() {
    let mut tree = chain_of_four();
    assert_eq!(tree.add_node(5, Permission::Private), Ok(()));
    assert_eq!(tree.add_node(6, Permission::Public), Ok(()));
    assert_eq!(tree.connect_nodes(5, 6), Ok(()));
    assert_eq!(tree.move_subtree(2, 6), Ok(()));
    for id in 2..=6 {
        assert_eq!(perm(&tree, id), Permission::Private);
    }
    assert_eq!(perm(&tree, 1), Permission::Public);
    assert!(tree.is_descendant(5, 4));
    assert!(!tree.is_descendant(1, 4));
}

#[test]
fn tags_cover_every_ancestor() {
    let mut tree = chain_of_four();
    assert_eq!(tree.add_tag_to_node(1, "a".to_string()), Ok(()));
    assert_eq!(tree.add_tag_to_node(3, "b".to_string()), Ok(()));
    assert_eq!(tree.add_tag_to_node(3, "b".to_string()), Ok(()));
    assert!(tree.nodes.get(&4).unwrap().has_tag("a"));
    assert!(tree.nodes.get(&4).unwrap().has_tag("b"));
    assert!(!tree.nodes.get(&2).unwrap().has_tag("b"));
    assert_eq!(tree.nodes.get(&3).unwrap().tags.as_ref().unwrap().len(), 2);
    assert!(!tree.nodes.get(&1).unwrap().has_tag("b"));
}

#[test]
fn relocation_keeps_earlier_tags_and_adds_new_ones() {
    let mut tree = chain_of_four();
    assert_eq!(tree.add_node(5, Permission::Public), Ok(()));
    assert_eq!(tree.add_tag_to_node(2, "old".to_string()), Ok(()));
    assert_eq!(tree.add_tag_to_node(5, "new".to_string()), Ok(()));
    assert_eq!(tree.move_subtree(3, 5), Ok(()));
    let four = tree.nodes.get(&4).unwrap();
    assert!(four.has_tag("old"));
    assert!(four.has_tag("new"));
    assert!(!tree.nodes.get(&2).unwrap().has_tag("new"));
    assert_eq!(tree.parent_map.get(&3), Some(&5));
}

#[test]
fn untagged_link_leaves_tags_absent() {
    let mut tree = chain_of_four();
    for id in 1..=4 {
        assert!(tree.nodes.get(&id).unwrap().tags.is_none());
    }
    assert!(!tree.nodes.get(&1).unwrap().has_tag("a"));
}

#[test]
fn shared_tags_are_held_once() {
    let mut tree = Tree::new();
    assert_eq!(tree.add_node(1, Permission::Public), Ok(()));
    assert_eq!(tree.add_node(2, Permission::Public), Ok(()));
    assert_eq!(tree.add_tag_to_node(1, "s".to_string()), Ok(()));
    assert_eq!(tree.add_tag_to_node(2, "s".to_string()), Ok(()));
    assert_eq!(tree.connect_nodes(1, 2), Ok(()));
    assert_eq!(tree.nodes.get(&2).unwrap().tags, Some(vec!["s".to_string()]));
    assert_eq!(tree.add_tag_to_node(1, "s".to_string()), Ok(()));
    assert_eq!(tree.nodes.get(&1).unwrap().tags, Some(vec!["s".to_string()]));
}
