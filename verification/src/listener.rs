//! The event-listener core: the shared tree snapshot, the window-event
//! handler, and the connection life cycle.
//!
//! The surrounding process owns the two window-manager connections. For
//! each window event it queries a fresh tree and hands it in; every
//! decision — which workspace is affected, what its label becomes, who is
//! told — is taken here and returned as a list of dispatches.

use crate::label::{label_of_set, lemma_label_of_sorted_names, CanonRule};
use crate::registry::{title_fold, I3Change, Registry};
use crate::tree::{
    find_owner, leaf_names, match_count, matched_leaves, name_or_empty, child_names_by_ws,
    workspace_state, Node,
};
use vstd::prelude::*;

verus! {

/// The window-event kinds the core consumes; every other kind is ignored
/// by the surrounding loop.
pub enum WindowChange {
    New,
    Move,
    Close,
}

/// The workspace name and derived label a resolved owner yields.
pub open spec fn state_label(rules: Seq<CanonRule>, tree: Node, id: int) -> Option<
    (Seq<char>, Seq<char>),
> {
    match find_owner(tree, id) {
        None => None,
        Some(o) => Some((name_or_empty(o), label_of_set(leaf_names(rules, o).to_set()))),
    }
}

/// The label recomputed for a named workspace from a refreshed tree.
pub open spec fn recompute_label(rules: Seq<CanonRule>, tree: Node, wsname: Seq<char>) -> Seq<
    char,
> {
    label_of_set(matched_leaves(rules, tree, wsname).to_set())
}

/// An optional workspace/label pair as a dispatch list.
pub open spec fn opt_to_seq(o: Option<(Seq<char>, Seq<char>)>) -> Seq<(Seq<char>, Seq<char>)> {
    match o {
        None => Seq::<(Seq<char>, Seq<char>)>::empty(),
        Some(p) => seq![p],
    }
}

/// The snapshot left behind by a window event: refreshed except when a
/// move or close names a container the old snapshot cannot resolve.
pub open spec fn window_post_tree(old_tree: Node, fresh: Node, change: WindowChange, id: int) -> Node {
    match change {
        WindowChange::New => fresh,
        _ => if find_owner(old_tree, id) is Some {
            fresh
        } else {
            old_tree
        },
    }
}

/// The workspace/label recomputations a window event asks for, in order:
/// a new window relabels its owner; a move relabels the source workspace,
/// resolved against the old snapshot, and then the destination; a close
/// relabels the closing window's workspace.
pub open spec fn window_updates(
    rules: Seq<CanonRule>,
    old_tree: Node,
    fresh: Node,
    change: WindowChange,
    id: int,
) -> Seq<(Seq<char>, Seq<char>)> {
    match change {
        WindowChange::New => opt_to_seq(state_label(rules, fresh, id)),
        WindowChange::Move => match find_owner(old_tree, id) {
            None => Seq::<(Seq<char>, Seq<char>)>::empty(),
            Some(src) => seq![
                (name_or_empty(src), recompute_label(rules, fresh, name_or_empty(src))),
            ] + opt_to_seq(state_label(rules, fresh, id)),
        },
        WindowChange::Close => match find_owner(old_tree, id) {
            None => Seq::<(Seq<char>, Seq<char>)>::empty(),
            Some(src) => seq![
                (name_or_empty(src), recompute_label(rules, fresh, name_or_empty(src))),
            ],
        },
    }
}

/// Whether the refreshed tree names the recomputed workspace at most
/// once — the normal shape, since the window manager keeps workspace
/// names unique.
pub open spec fn window_unambiguous(
    old_tree: Node,
    fresh: Node,
    change: WindowChange,
    id: int,
) -> bool {
    match change {
        WindowChange::New => true,
        _ => match find_owner(old_tree, id) {
            None => true,
            Some(src) => match_count(fresh, name_or_empty(src)) <= 1,
        },
    }
}

/// The event-listener core: the subscriber registry, the shared tree
/// snapshot, and the canonicalization rule table.
pub struct I3 {
    pub registry: Registry,
    pub tree: Node,
    pub rules: Vec<CanonRule>,
}

impl I3 {
    /// Starts the core from an initial tree query and a rule table, with
    /// no subscribers yet.
    pub fn new(tree: Node, rules: Vec<CanonRule>) -> (r: Self)
        ensures
            r.registry.wf(),
            r.registry.v() == Seq::<(Seq<char>, bool, Seq<char>)>::empty(),
            r.tree == tree,
            r.rules == rules,
    {
        I3 { registry: Registry::new(), tree, rules }
    }

    /// Registers a consumer for a workspace key; the returned bootstrap
    /// delta, visibility false, is to be delivered to it first.
    pub fn add(&mut self, workspace: String) -> (boot: I3Change)
        requires
            old(self).registry.wf(),
        ensures
            final(self).registry.wf(),
            final(self).tree == old(self).tree,
            final(self).rules == old(self).rules,
            boot.state == Some(false),
            boot.title is None,
            final(self).registry.v() == if crate::registry::has_key(
                old(self).registry.v(),
                workspace@,
            ) {
                old(self).registry.v().update(
                    crate::registry::idx_of(old(self).registry.v(), workspace@),
                    (workspace@, false, Seq::<char>::empty()),
                )
            } else {
                old(self).registry.v().push((workspace@, false, Seq::<char>::empty()))
            },
    {
        self.registry.register(workspace)
    }

    /// Handles one window event against the snapshot taken before it and
    /// the fresh tree queried after it: resolves the affected workspaces,
    /// installs the refreshed snapshot, and returns the label dispatches,
    /// each sent only to a subscriber whose recorded label differed.
    pub fn handle_window_event(&mut self, change: WindowChange, id: i64, fresh: Node) -> (out:
        Vec<(String, I3Change)>)
        requires
            old(self).registry.wf(),
        ensures
            final(self).registry.wf(),
            final(self).rules == old(self).rules,
            final(self).tree == window_post_tree(old(self).tree, fresh, change, id as int),
            final(self).registry.v().len() == old(self).registry.v().len(),
            forall|i: int|
                0 <= i < old(self).registry.v().len()
                    ==> (#[trigger] final(self).registry.v()[i]).0 == old(self).registry.v()[i].0
                    && final(self).registry.v()[i].1 == old(self).registry.v()[i].1,
            window_unambiguous(old(self).tree, fresh, change, id as int) ==> ({
                let ups = window_updates(
                    old(self).rules@,
                    old(self).tree,
                    fresh,
                    change,
                    id as int,
                );
                let emitted = title_fold(old(self).registry.v(), ups).1;
                final(self).registry.v() == title_fold(old(self).registry.v(), ups).0
                    && out@.len() == emitted.len() && forall|j: int|
                    0 <= j < emitted.len() ==> (#[trigger] out@[j]).0@ == emitted[j].0
                        && out@[j].1.state is None && (out@[j].1.title matches Some(l) && l@
                        == emitted[j].1)
            }),
    {
        let ghost oldtree = self.tree;
        let ghost rv = self.rules@;
        let ghost unamb = window_unambiguous(self.tree, fresh, change, id as int);
        let ghost ups = window_updates(rv, self.tree, fresh, change, id as int);
        let mut pairs: Vec<(String, String)> = Vec::new();
        match change {
            WindowChange::New => {
                self.tree = fresh;
                let ws = workspace_state(&self.tree, id, &self.rules);
                match ws {
                    Some(ws) => {
                        proof {
                            lemma_label_of_sorted_names(ws.names.deep_view());
                        }
                        let label = crate::label::derive_label(&ws.names);
                        pairs.push((ws.workspace, label));
                        proof {
                            assert(crate::registry::pairs_view(pairs@) =~= ups);
                        }
                    },
                    None => {
                        proof {
                            assert(crate::registry::pairs_view(pairs@) =~= ups);
                        }
                    },
                }
            },
            WindowChange::Move => {
                let ws = workspace_state(&self.tree, id, &self.rules);
                match ws {
                    Some(ws) => {
                        self.tree = fresh;
                        let names = child_names_by_ws(
                            &self.tree,
                            ws.workspace.as_str(),
                            &self.rules,
                        );
                        proof {
                            if unamb {
                                lemma_label_of_sorted_names(names.deep_view());
                            }
                        }
                        let label = crate::label::derive_label(&names);
                        pairs.push((ws.workspace, label));
                        let ws2 = workspace_state(&self.tree, id, &self.rules);
                        match ws2 {
                            Some(ws2) => {
                                proof {
                                    lemma_label_of_sorted_names(ws2.names.deep_view());
                                }
                                let label2 = crate::label::derive_label(&ws2.names);
                                pairs.push((ws2.workspace, label2));
                                proof {
                                    if unamb {
                                        assert(crate::registry::pairs_view(pairs@) =~= ups);
                                    }
                                }
                            },
                            None => {
                                proof {
                                    if unamb {
                                        assert(crate::registry::pairs_view(pairs@) =~= ups);
                                    }
                                }
                            },
                        }
                    },
                    None => {
                        proof {
                            assert(crate::registry::pairs_view(pairs@) =~= ups);
                        }
                    },
                }
            },
            WindowChange::Close => {
                let ws = workspace_state(&self.tree, id, &self.rules);
                match ws {
                    Some(ws) => {
                        self.tree = fresh;
                        let names = child_names_by_ws(
                            &self.tree,
                            ws.workspace.as_str(),
                            &self.rules,
                        );
                        proof {
                            if unamb {
                                lemma_label_of_sorted_names(names.deep_view());
                            }
                        }
                        let label = crate::label::derive_label(&names);
                        pairs.push((ws.workspace, label));
                        proof {
                            if unamb {
                                assert(crate::registry::pairs_view(pairs@) =~= ups);
                            }
                        }
                    },
                    None => {
                        proof {
                            assert(crate::registry::pairs_view(pairs@) =~= ups);
                        }
                    },
                }
            },
        }
        let out = self.registry.dispatch_titles(&pairs);
        proof {
            crate::laws::lemma_title_fold_preserves(
                old(self).registry.v(),
                crate::registry::pairs_view(pairs@),
            );
        }
        out
    }
}

/// The phases of one event-class connection: it is being opened, it is
/// delivering events, or it failed and the fixed backoff is running.
pub enum ConnPhase {
    Connecting,
    Listening,
    Backoff,
}

/// What the connection loop observes in each phase.
pub enum ConnEvent {
    ConnectOk,
    ConnectFailed,
    EventRead,
    StreamError,
    BackoffElapsed,
}

/// What the connection loop is to do next.
pub enum ConnAction {
    OpenConnections,
    ReadEvent,
    HandleEvent,
    Sleep,
}

/// The connection life cycle: reconnection is unconditional and infinite —
/// every failure leads through the fixed backoff straight back to a new
/// connection attempt, and no phase is terminal.
pub open spec fn spec_conn_step(phase: ConnPhase, event: ConnEvent) -> (ConnPhase, ConnAction) {
    match (phase, event) {
        (ConnPhase::Connecting, ConnEvent::ConnectOk) => (ConnPhase::Listening, ConnAction::ReadEvent),
        (ConnPhase::Connecting, _) => (ConnPhase::Backoff, ConnAction::Sleep),
        (ConnPhase::Listening, ConnEvent::EventRead) => (ConnPhase::Listening, ConnAction::HandleEvent),
        (ConnPhase::Listening, _) => (ConnPhase::Backoff, ConnAction::Sleep),
        (ConnPhase::Backoff, _) => (ConnPhase::Connecting, ConnAction::OpenConnections),
    }
}

/// Advances one event-class connection by one observation.
pub fn conn_step(phase: ConnPhase, event: ConnEvent) -> (r: (ConnPhase, ConnAction))
    ensures
        r == spec_conn_step(phase, event),
{
    match (phase, event) {
        (ConnPhase::Connecting, ConnEvent::ConnectOk) => (ConnPhase::Listening, ConnAction::ReadEvent),
        (ConnPhase::Connecting, _) => (ConnPhase::Backoff, ConnAction::Sleep),
        (ConnPhase::Listening, ConnEvent::EventRead) => (ConnPhase::Listening, ConnAction::HandleEvent),
        (ConnPhase::Listening, _) => (ConnPhase::Backoff, ConnAction::Sleep),
        (ConnPhase::Backoff, _) => (ConnPhase::Connecting, ConnAction::OpenConnections),
    }
}

} // verus!
