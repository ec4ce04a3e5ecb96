use i3state::label::default_rules;
use i3state::tree::{child_names, child_names_by_ws, workspace_state, Node};

fn leaf(id: i64, title: &str) -> Node {
    Node { id, name: Some(title.to_string()), nodes: Vec::new() }
}

fn inner(id: i64, name: Option<&str>, nodes: Vec<Node>) -> Node {
    Node { id, name: name.map(|s| s.to_string()), nodes }
}

/// root
/// ├── workspace "1": terminal, two browser windows
/// └── workspace "2": split container holding two terminals
fn sample_tree() -> Node {
    inner(
        1,
        None,
        vec![
            inner(
                2,
                Some("1"),
                vec![leaf(10, "term"), leaf(11, "Firefox Nightly"), leaf(12, "Nightly news")],
            ),
            inner(3, Some("2"), vec![inner(4, None, vec![leaf(20, "term"), leaf(21, "term")])]),
        ],
    )
}

#[test]
fn child_names_canonicalizes_leaves_in_order() {
    let rules = default_rules();
    let names = child_names(&sample_tree(), &rules);
    assert_eq!(names, vec!["term", "firefox", "firefox", "term", "term"]);
}

#[test]
fn child_names_of_leaf_is_its_own_name() {
    let rules = default_rules();
    let names = child_names(&leaf(7, "term"), &rules);
    assert_eq!(names, vec!["term"]);
    let unnamed = Node { id: 8, name: None, nodes: Vec::new() };
    assert_eq!(child_names(&unnamed, &rules), vec![""]);
}

#[test]
fn resolves_owner_of_direct_child() {
    let rules = default_rules();
    let ws = workspace_state(&sample_tree(), 10, &rules).expect("owner");
    assert_eq!(ws.workspace, "1");
    assert_eq!(ws.names, vec!["firefox", "term"]);
}

#[test]
fn resolves_owner_one_level_up_not_the_node_itself() {
    let rules = default_rules();
    // the id names workspace "2" itself, so the owner is its parent: the
    // root, whose name is empty — never workspace "2"
    let ws = workspace_state(&sample_tree(), 3, &rules).expect("owner");
    assert_eq!(ws.workspace, "");
}

#[test]
fn resolves_owner_of_nested_window() {
    let rules = default_rules();
    // window 20 sits in a split container; the owner is that container,
    // not the workspace above it
    let ws = workspace_state(&sample_tree(), 20, &rules).expect("owner");
    assert_eq!(ws.workspace, "");
    assert_eq!(ws.names, vec!["term"]);
}

#[test]
fn no_owner_for_absent_id() {
    let rules = default_rules();
    assert!(workspace_state(&sample_tree(), 999, &rules).is_none());
    assert!(workspace_state(&leaf(7, "term"), 7, &rules).is_none());
    // the root's own id has no parent to own it
    assert!(workspace_state(&sample_tree(), 1, &rules).is_none());
}

#[test]
fn names_by_workspace_name() {
    let rules = default_rules();
    let names = child_names_by_ws(&sample_tree(), "1", &rules);
    assert_eq!(names, vec!["firefox", "term"]);
    let names = child_names_by_ws(&sample_tree(), "2", &rules);
    assert_eq!(names, vec!["term"]);
}

#[test]
fn names_by_unknown_workspace_is_empty() {
    let rules = default_rules();
    let names = child_names_by_ws(&sample_tree(), "3", &rules);
    assert!(names.is_empty());
}

#[test]
fn empty_workspace_contributes_nothing_by_name() {
    let rules = default_rules();
    // a workspace with no windows is a leaf of the layout tree: looking
    // its name up yields no window names
    let tree = inner(1, None, vec![inner(2, Some("1"), Vec::new())]);
    let names = child_names_by_ws(&tree, "1", &rules);
    assert!(names.is_empty());
}
