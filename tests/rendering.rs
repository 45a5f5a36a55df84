use permission_tree::{tag_set_text, Permission, Tree};

#[test]
fn renders_nested_lines_with_tags() {
    let mut tree = Tree::new();
    assert_eq!(tree.add_node(1, Permission::Public), Ok(()));
    assert_eq!(tree.add_node(2, Permission::Private), Ok(()));
    assert_eq!(tree.connect_nodes(1, 2), Ok(()));
    assert_eq!(tree.add_tag_to_node(1, "a".to_string()), Ok(()));
    assert_eq!(tree.add_tag_to_node(2, "b".to_string()), Ok(()));
    assert_eq!(
        tree.print_tree(1, 0),
        "- node 1 (Public), tags: Some({\"a\"})\n    - node 2 (Private), tags: Some({\"a\", \"b\"})\n"
    );
}

#[test]
fn renders_untagged_nodes_and_multi_digit_keys() {
    let mut tree = Tree::new();
    assert_eq!(tree.add_node(40, Permission::Public), Ok(()));
    assert_eq!(tree.add_node(123, Permission::Public), Ok(()));
    assert_eq!(tree.add_node(7, Permission::Public), Ok(()));
    assert_eq!(tree.connect_nodes(40, 123), Ok(()));
    assert_eq!(tree.connect_nodes(123, 7), Ok(()));
    assert_eq!(
        tree.print_tree(40, 2),
        "  - node 40 (Public), tags: None\n      - node 123 (Public), tags: None\n          - node 7 (Public), tags: None\n"
    );
    assert_eq!(tree.print_tree(7, 0), "- node 7 (Public), tags: None\n");
}

#[test]
fn renders_nothing_for_a_missing_root() {
    let tree = Tree::new();
    assert_eq!(tree.print_tree(5, 0), "");
}

#[test]
fn renders_children_in_link_order() {
    let mut tree = Tree::new();
    for id in 1..=3 {
        assert_eq!(tree.add_node(id, Permission::Public), Ok(()));
    }
    assert_eq!(tree.connect_nodes(1, 3), Ok(()));
    assert_eq!(tree.connect_nodes(1, 2), Ok(()));
    assert_eq!(
        tree.print_tree(1, 0),
        "- node 1 (Public), tags: None\n    - node 3 (Public), tags: None\n    - node 2 (Public), tags: None\n"
    );
}

#[test]
fn renders_tags_in_escaped_form() {
    let mut tree = Tree::new();
    assert_eq!(tree.add_node(1, Permission::Public), Ok(()));
    assert_eq!(tree.add_tag_to_node(1, "\"".to_string()), Ok(()));
    assert_eq!(tree.print_tree(1, 0), "- node 1 (Public), tags: Some({\"\\\"\"})\n");
    let mut other = Tree::new();
    assert_eq!(other.add_node(2, Permission::Private), Ok(()));
    assert_eq!(other.add_tag_to_node(2, "a\nb\\".to_string()), Ok(()));
    let text = other.print_tree(2, 0);
    assert_eq!(text, "- node 2 (Private), tags: Some({\"a\\nb\\\\\"})\n");
    assert_eq!(text.lines().count(), 1);
}

#[test]
fn relocation_keeps_the_order_of_remaining_children() {
    let mut tree = Tree::new();
    for id in 1..=5 {
        assert_eq!(tree.add_node(id, Permission::Public), Ok(()));
    }
    assert_eq!(tree.connect_nodes(1, 2), Ok(()));
    assert_eq!(tree.connect_nodes(1, 3), Ok(()));
    assert_eq!(tree.connect_nodes(1, 4), Ok(()));
    assert_eq!(tree.move_subtree(3, 5), Ok(()));
    assert_eq!(tree.nodes.get(&1).unwrap().children, vec![2, 4]);
    assert_eq!(tree.nodes.get(&5).unwrap().children, vec![3]);
    assert_eq!(
        tree.print_tree(1, 0),
        "- node 1 (Public), tags: None\n    - node 2 (Public), tags: None\n    - node 4 (Public), tags: None\n"
    );
}

#[test]
fn writes_a_tag_set_from_formatted_labels() {
    assert_eq!(tag_set_text(&vec![]), "Some({})");
    assert_eq!(tag_set_text(&vec!["\"x\"".to_string()]), "Some({\"x\"})");
    assert_eq!(
        tag_set_text(&vec!["\"a\"".to_string(), "\"b\\\"\"".to_string()]),
        "Some({\"a\", \"b\\\"\"})"
    );
}
