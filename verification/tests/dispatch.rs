use i3state::label::default_rules;
use i3state::listener::{conn_step, ConnAction, ConnEvent, ConnPhase, WindowChange, I3};
use i3state::registry::{ConsumerView, I3Change, Registry, WorkspaceInfo};
use i3state::tree::Node;

fn leaf(id: i64, title: &str) -> Node {
    Node { id, name: Some(title.to_string()), nodes: Vec::new() }
}

fn inner(id: i64, name: Option<&str>, nodes: Vec<Node>) -> Node {
    Node { id, name: name.map(|s| s.to_string()), nodes }
}

fn ws(name: &str, visible: bool) -> WorkspaceInfo {
    WorkspaceInfo { name: name.to_string(), visible }
}

#[test]
fn registration_emits_bootstrap_not_visible() {
    let mut reg = Registry::new();
    let boot = reg.register("3".to_string());
    assert_eq!(boot.state, Some(false));
    assert!(boot.title.is_none());
    assert_eq!(reg.entries.len(), 1);
    assert_eq!(reg.entries[0].0, "3");
    assert_eq!(reg.entries[0].1.old_state, false);
    assert_eq!(reg.entries[0].1.old_title, "");
}

#[test]
fn second_registration_silently_replaces_the_first() {
    let mut reg = Registry::new();
    reg.register("3".to_string());
    reg.entries[0].1.old_state = true;
    reg.entries[0].1.old_title = "term".to_string();
    let boot = reg.register("3".to_string());
    assert_eq!(boot.state, Some(false));
    assert_eq!(reg.entries.len(), 1);
    assert_eq!(reg.entries[0].1.old_state, false);
    assert_eq!(reg.entries[0].1.old_title, "");
}

#[test]
fn focus_dispatches_only_where_visibility_differs() {
    let mut reg = Registry::new();
    reg.register("1".to_string());
    reg.register("2".to_string());
    let out = reg.handle_focus(&vec![ws("1", true), ws("2", false), ws("9", true)]);
    // "1" flips to visible, "2" already records false, "9" has no subscriber
    assert_eq!(out.len(), 1);
    assert_eq!(out[0].0, "1");
    assert_eq!(out[0].1.state, Some(true));
    assert!(out[0].1.title.is_none());
    // a second identical report changes nothing
    let out = reg.handle_focus(&vec![ws("1", true), ws("2", false), ws("9", true)]);
    assert!(out.is_empty());
}

#[test]
fn focus_reconciles_from_the_full_list() {
    let mut reg = Registry::new();
    reg.register("1".to_string());
    reg.register("2".to_string());
    reg.handle_focus(&vec![ws("1", true), ws("2", true)]);
    let out = reg.handle_focus(&vec![ws("1", false), ws("2", true)]);
    assert_eq!(out.len(), 1);
    assert_eq!(out[0].0, "1");
    assert_eq!(out[0].1.state, Some(false));
}

#[test]
fn convergence_does_not_depend_on_lost_events() {
    // two registries that diverged while events were lost: after one
    // successful full query both record the reported state
    let mut a = Registry::new();
    a.register("1".to_string());
    let mut b = Registry::new();
    b.register("1".to_string());
    b.entries[0].1.old_state = true;
    let report = vec![ws("1", true), ws("7", false)];
    a.handle_focus(&report);
    b.handle_focus(&report);
    assert_eq!(a.entries[0].1.old_state, true);
    assert_eq!(b.entries[0].1.old_state, true);
}

#[test]
fn empty_event_dispatches_unconditionally() {
    let mut reg = Registry::new();
    reg.register("1".to_string());
    // visibility is already false: the empty event still dispatches
    let out = reg.handle_empty(&"1".to_string());
    let c = out.expect("forced dispatch");
    assert_eq!(c.state, Some(false));
    assert!(c.title.is_none());
    assert_eq!(reg.entries[0].1.old_state, false);
}

#[test]
fn empty_event_for_unknown_workspace_is_dropped() {
    let mut reg = Registry::new();
    reg.register("1".to_string());
    assert!(reg.handle_empty(&"2".to_string()).is_none());
}

#[test]
fn title_dispatches_only_on_change() {
    let mut reg = Registry::new();
    reg.register("1".to_string());
    let out = reg.handle_title(&"1".to_string(), "term".to_string());
    let c = out.expect("label changed");
    assert!(c.state.is_none());
    assert_eq!(c.title.as_deref(), Some("term"));
    // the same label again is suppressed
    assert!(reg.handle_title(&"1".to_string(), "term".to_string()).is_none());
    // an unknown workspace is ignored
    assert!(reg.handle_title(&"2".to_string(), "term".to_string()).is_none());
}

#[test]
fn new_window_relabels_its_workspace() {
    let rules = default_rules();
    let old_tree = inner(1, None, vec![inner(2, Some("1"), vec![leaf(10, "term")])]);
    let mut core = I3::new(old_tree, rules);
    core.add("1".to_string());
    let fresh = inner(
        1,
        None,
        vec![inner(2, Some("1"), vec![leaf(10, "term"), leaf(11, "Firefox Nightly")])],
    );
    let out = core.handle_window_event(WindowChange::New, 11, fresh);
    assert_eq!(out.len(), 1);
    assert_eq!(out[0].0, "1");
    assert_eq!(out[0].1.title.as_deref(), Some("mixed"));
    assert!(out[0].1.state.is_none());
}

#[test]
fn close_relabels_from_the_refreshed_tree() {
    let rules = default_rules();
    let old_tree = inner(
        1,
        None,
        vec![inner(2, Some("1"), vec![leaf(10, "term"), leaf(11, "Firefox Nightly")])],
    );
    let mut core = I3::new(old_tree, rules);
    core.add("1".to_string());
    core.registry.entries[0].1.old_title = "mixed".to_string();
    let fresh = inner(1, None, vec![inner(2, Some("1"), vec![leaf(10, "term")])]);
    let out = core.handle_window_event(WindowChange::Close, 11, fresh);
    assert_eq!(out.len(), 1);
    assert_eq!(out[0].0, "1");
    assert_eq!(out[0].1.title.as_deref(), Some("term"));
}

#[test]
fn move_of_sole_window_yields_exactly_two_dispatches() {
    let rules = default_rules();
    // workspace "1" holds the one window; workspace "2" is empty
    let old_tree = inner(
        1,
        None,
        vec![
            inner(2, Some("1"), vec![leaf(10, "Firefox Nightly")]),
            inner(3, Some("2"), Vec::new()),
        ],
    );
    let mut core = I3::new(old_tree, rules);
    core.add("1".to_string());
    core.add("2".to_string());
    core.registry.entries[0].1.old_title = "firefox".to_string();
    core.registry.entries[1].1.old_title = "empty".to_string();
    // after the move the window sits on workspace "2"
    let fresh = inner(
        1,
        None,
        vec![
            inner(2, Some("1"), Vec::new()),
            inner(3, Some("2"), vec![leaf(10, "Firefox Nightly")]),
        ],
    );
    let out = core.handle_window_event(WindowChange::Move, 10, fresh);
    assert_eq!(out.len(), 2);
    assert_eq!(out[0].0, "1");
    assert_eq!(out[0].1.title.as_deref(), Some("empty"));
    assert_eq!(out[1].0, "2");
    assert_eq!(out[1].1.title.as_deref(), Some("firefox"));
}

#[test]
fn move_with_stale_id_produces_no_dispatch() {
    let rules = default_rules();
    let old_tree = inner(1, None, vec![inner(2, Some("1"), vec![leaf(10, "term")])]);
    let mut core = I3::new(old_tree, rules);
    core.add("1".to_string());
    let fresh = inner(1, None, vec![inner(2, Some("1"), Vec::new())]);
    let out = core.handle_window_event(WindowChange::Move, 999, fresh);
    assert!(out.is_empty());
}

#[test]
fn label_dispatch_suppressed_when_unchanged() {
    let rules = default_rules();
    let old_tree = inner(1, None, vec![inner(2, Some("1"), vec![leaf(10, "term")])]);
    let mut core = I3::new(old_tree, rules);
    core.add("1".to_string());
    core.registry.entries[0].1.old_title = "mixed".to_string();
    let fresh = inner(
        1,
        None,
        vec![inner(2, Some("1"), vec![leaf(10, "term"), leaf(11, "editor")])],
    );
    let out = core.handle_window_event(WindowChange::New, 11, fresh);
    assert!(out.is_empty());
}

#[test]
fn visibility_follows_list_except_after_empty_event() {
    // the last word on a key's visibility is the most recent full list,
    // unless an empty event for the key came after it
    let mut reg = Registry::new();
    reg.register("1".to_string());
    reg.handle_focus(&vec![ws("1", true)]);
    assert_eq!(reg.entries[0].1.old_state, true);
    reg.handle_empty(&"1".to_string());
    assert_eq!(reg.entries[0].1.old_state, false);
    reg.handle_focus(&vec![ws("1", true)]);
    assert_eq!(reg.entries[0].1.old_state, true);
}

#[test]
fn consumer_merges_fields_independently() {
    let mut view = ConsumerView::new();
    assert_eq!(view.visible, true);
    assert_eq!(view.label, "empty");
    // the bootstrap delta flips visibility and asks for a redraw
    assert!(view.merge(&I3Change::new(Some(false), None)));
    assert_eq!(view.visible, false);
    assert_eq!(view.label, "empty");
    // an unchanged field asks for no redraw
    assert!(!view.merge(&I3Change::new(Some(false), None)));
    // a label delta leaves visibility alone
    assert!(view.merge(&I3Change::new(None, Some("term".to_string()))));
    assert_eq!(view.visible, false);
    assert_eq!(view.label, "term");
    assert!(!view.merge(&I3Change::new(None, Some("term".to_string()))));
}

#[test]
fn connection_life_cycle_reconnects_forever() {
    // a stream failure always leads through the backoff to a new attempt
    let (p, a) = conn_step(ConnPhase::Listening, ConnEvent::StreamError);
    assert!(matches!(p, ConnPhase::Backoff));
    assert!(matches!(a, ConnAction::Sleep));
    let (p, a) = conn_step(p, ConnEvent::BackoffElapsed);
    assert!(matches!(p, ConnPhase::Connecting));
    assert!(matches!(a, ConnAction::OpenConnections));
    let (p, a) = conn_step(p, ConnEvent::ConnectFailed);
    assert!(matches!(p, ConnPhase::Backoff));
    assert!(matches!(a, ConnAction::Sleep));
    let (p, _) = conn_step(p, ConnEvent::BackoffElapsed);
    let (p, a) = conn_step(p, ConnEvent::ConnectOk);
    assert!(matches!(p, ConnPhase::Listening));
    assert!(matches!(a, ConnAction::ReadEvent));
    let (p, a) = conn_step(p, ConnEvent::EventRead);
    assert!(matches!(p, ConnPhase::Listening));
    assert!(matches!(a, ConnAction::HandleEvent));
}
