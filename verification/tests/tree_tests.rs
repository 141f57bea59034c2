use menu_engine::tree::MenuTree;

#[test]
fn new_tree_has_root_and_renders_nothing() {
    let tree = MenuTree::new();
    assert_eq!(tree.current_node_id, "root");
    assert_eq!(tree.selected_child_index, 0);
    assert_eq!(tree.render(), "");
}

#[test]
fn single_child_renders_one_line_and_select_next_is_noop() {
    let mut tree = MenuTree::new();
    assert!(tree.add_node("root", "x", "X"));
    let rendered = tree.render();
    assert_eq!(rendered.lines().count(), 1);
    assert!(rendered.contains("X"));
    assert_eq!(rendered, ">X<\n");
    tree.select_next();
    assert_eq!(tree.selected_child_index, 0);
    assert_eq!(tree.render(), ">X<\n");
}

#[test]
fn render_marks_only_the_selected_child() {
    let mut tree = MenuTree::new();
    assert!(tree.add_node("root", "a", "Alpha"));
    assert!(tree.add_node("root", "b", "Beta"));
    assert!(tree.add_node("root", "c", "Gamma"));
    assert_eq!(tree.render(), ">Alpha<\n Beta \n Gamma \n");
    tree.select_next();
    assert_eq!(tree.render(), " Alpha \n>Beta<\n Gamma \n");
}

#[test]
fn select_cycles_both_ways() {
    let mut tree = MenuTree::new();
    assert!(tree.add_node("root", "a", "A"));
    assert!(tree.add_node("root", "b", "B"));
    assert!(tree.add_node("root", "c", "C"));
    tree.select_next();
    tree.select_next();
    assert_eq!(tree.selected_child_index, 2);
    tree.select_next();
    assert_eq!(tree.selected_child_index, 0);
    tree.select_previous();
    assert_eq!(tree.selected_child_index, 2);
    tree.select_previous();
    assert_eq!(tree.selected_child_index, 1);
}

#[test]
fn descend_then_ascend_round_trip() {
    let mut tree = MenuTree::new();
    assert!(tree.add_node("root", "menu", "Menu"));
    assert!(tree.add_node("root", "other", "Other"));
    assert!(tree.add_node("menu", "leaf", "Leaf"));
    tree.select_next();
    tree.select_previous();
    let before = tree.current_node_id.clone();
    assert!(tree.descend());
    assert_eq!(tree.current_node_id, "menu");
    assert_eq!(tree.selected_child_index, 0);
    tree.select_next();
    assert!(tree.ascend());
    assert_eq!(tree.current_node_id, before);
    assert_eq!(tree.selected_child_index, 0);
}

#[test]
fn descend_without_children_is_reported_noop() {
    let mut tree = MenuTree::new();
    assert!(tree.add_node("root", "x", "X"));
    assert!(tree.descend());
    assert_eq!(tree.current_node_id, "x");
    assert!(!tree.descend());
    assert_eq!(tree.current_node_id, "x");
}

#[test]
fn ascend_from_root_is_reported_noop() {
    let mut tree = MenuTree::new();
    assert!(!tree.ascend());
    assert_eq!(tree.current_node_id, "root");
    assert!(tree.add_node("root", "x", "X"));
    assert!(!tree.ascend());
    assert_eq!(tree.current_node_id, "root");
}

#[test]
fn add_node_rejects_unknown_parent() {
    let mut tree = MenuTree::new();
    assert!(!tree.add_node("ghost", "x", "X"));
    assert_eq!(tree.render(), "");
}

#[test]
fn add_node_rejects_duplicate_identifier() {
    let mut tree = MenuTree::new();
    assert!(tree.add_node("root", "x", "X"));
    assert!(!tree.add_node("root", "x", "again"));
    assert!(!tree.add_node("x", "root", "loop"));
    assert_eq!(tree.render(), ">X<\n");
}

#[test]
fn add_node_rejects_empty_identifier() {
    let mut tree = MenuTree::new();
    assert!(!tree.add_node("root", "", "empty"));
    assert_eq!(tree.render(), "");
}

#[test]
fn selection_resets_when_entering_a_child() {
    let mut tree = MenuTree::new();
    assert!(tree.add_node("root", "m", "Menu"));
    assert!(tree.add_node("m", "a", "A"));
    assert!(tree.add_node("m", "b", "B"));
    assert!(tree.descend());
    tree.select_next();
    assert_eq!(tree.render(), " A \n>B<\n");
    assert!(tree.descend());
    assert_eq!(tree.current_node_id, "b");
    assert_eq!(tree.selected_child_index, 0);
}
