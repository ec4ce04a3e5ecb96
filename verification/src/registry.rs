//! The subscriber registry and the dispatch/dedup protocol.
//!
//! A consumer registers one workspace key and is afterwards told about
//! visibility and label changes for that key, each only when it differs
//! from the value last dispatched to it. The handlers are pure state
//! transitions; the surrounding process queries the window manager and
//! performs the channel sends.

use crate::label::str_eq;
use vstd::prelude::*;

verus! {

/// The delta message sent to a consumer: each field is present only when
/// it changed. Never are both absent.
pub struct I3Change {
    pub state: Option<bool>,
    pub title: Option<String>,
}

impl I3Change {
    /// Builds a delta carrying at least one of the two fields.
    pub fn new(state: Option<bool>, title: Option<String>) -> (r: Self)
        requires
            state is Some || title is Some,
        ensures
            r.state == state,
            r.title == title,
    {
        Self { state, title }
    }
}

/// One subscriber's record: the visibility and label last dispatched to it.
pub struct I3Listener {
    pub old_state: bool,
    pub old_title: String,
}

impl I3Listener {
    /// A fresh record: not visible, empty label.
    pub fn new() -> (r: Self)
        ensures
            r.old_state == false,
            r.old_title@ == Seq::<char>::empty(),
    {
        Self { old_state: false, old_title: String::new() }
    }
}

/// The registry as contracts speak of it: per entry the key, the last
/// dispatched visibility and the last dispatched label.
pub type RegView = Seq<(Seq<char>, bool, Seq<char>)>;

/// No key is registered twice.
pub open spec fn distinct_keys(s: RegView) -> bool {
    forall|i: int, j: int| 0 <= i < j < s.len() ==> (#[trigger] s[i]).0 != (#[trigger] s[j]).0
}

/// Whether `k` is a registered key.
pub open spec fn has_key(s: RegView, k: Seq<char>) -> bool {
    exists|i: int| 0 <= i < s.len() && (#[trigger] s[i]).0 == k
}

/// The position of key `k`.
pub open spec fn idx_of(s: RegView, k: Seq<char>) -> int {
    choose|i: int| 0 <= i < s.len() && (#[trigger] s[i]).0 == k
}

/// The visibility last dispatched for key `k`.
pub open spec fn vis_of(s: RegView, k: Seq<char>) -> bool {
    s[idx_of(s, k)].1
}

/// The label last dispatched for key `k`.
pub open spec fn title_of(s: RegView, k: Seq<char>) -> Seq<char> {
    s[idx_of(s, k)].2
}

/// A position holding key `k` is the position of `k`.
pub proof fn lemma_idx_of_unique(s: RegView, k: Seq<char>, j: int)
    requires
        distinct_keys(s),
        0 <= j < s.len(),
        s[j].0 == k,
    ensures
        has_key(s, k),
        idx_of(s, k) == j,
{
    assert(has_key(s, k));
    let i = idx_of(s, k);
    assert(0 <= i < s.len() && s[i].0 == k);
    if i < j {
        assert(s[i].0 != s[j].0);
    } else if j < i {
        assert(s[j].0 != s[i].0);
    }
}

/// One workspace as the window manager reports it in a full list: its name
/// and whether it is visible.
pub struct WorkspaceInfo {
    pub name: String,
    pub visible: bool,
}

/// The reported list as contracts speak of it.
pub open spec fn ws_view(ws: Seq<WorkspaceInfo>) -> Seq<(Seq<char>, bool)> {
    ws.map(|i: int, w: WorkspaceInfo| (w.name@, w.visible))
}

/// One reconciliation step of the focus handler: a registered key whose
/// reported visibility differs from the recorded one is updated and a
/// visibility delta is emitted; everything else is left alone.
pub open spec fn focus_step(s: RegView, w: (Seq<char>, bool)) -> (RegView, Seq<(Seq<char>, bool)>) {
    if has_key(s, w.0) && vis_of(s, w.0) != w.1 {
        (s.update(idx_of(s, w.0), (w.0, w.1, title_of(s, w.0))), seq![(w.0, w.1)])
    } else {
        (s, Seq::<(Seq<char>, bool)>::empty())
    }
}

/// The focus handler over a whole reported list, in list order.
pub open spec fn focus_fold(s: RegView, ws: Seq<(Seq<char>, bool)>) -> (
    RegView,
    Seq<(Seq<char>, bool)>,
)
    decreases ws.len(),
{
    if ws.len() == 0 {
        (s, Seq::<(Seq<char>, bool)>::empty())
    } else {
        let first = focus_step(s, ws[0]);
        let rest = focus_fold(first.0, ws.drop_first());
        (rest.0, first.1 + rest.1)
    }
}

/// The workspace-empty step: the key's visibility is forced to false and a
/// delta is emitted unconditionally — the empty event is authoritative.
pub open spec fn empty_step(s: RegView, name: Seq<char>) -> (RegView, Seq<(Seq<char>, bool)>) {
    if has_key(s, name) {
        (s.update(idx_of(s, name), (name, false, title_of(s, name))), seq![(name, false)])
    } else {
        (s, Seq::<(Seq<char>, bool)>::empty())
    }
}

/// One label-dispatch step: a registered key whose freshly derived label
/// differs from the recorded one is updated and a label delta is emitted.
pub open spec fn title_step(s: RegView, key: Seq<char>, label: Seq<char>) -> (
    RegView,
    Seq<(Seq<char>, Seq<char>)>,
) {
    if has_key(s, key) && title_of(s, key) != label {
        (s.update(idx_of(s, key), (key, vis_of(s, key), label)), seq![(key, label)])
    } else {
        (s, Seq::<(Seq<char>, Seq<char>)>::empty())
    }
}

/// The label dispatch over a list of recomputed workspace states, in order.
pub open spec fn title_fold(s: RegView, ups: Seq<(Seq<char>, Seq<char>)>) -> (
    RegView,
    Seq<(Seq<char>, Seq<char>)>,
)
    decreases ups.len(),
{
    if ups.len() == 0 {
        (s, Seq::<(Seq<char>, Seq<char>)>::empty())
    } else {
        let first = title_step(s, ups[0].0, ups[0].1);
        let rest = title_fold(first.0, ups.drop_first());
        (rest.0, first.1 + rest.1)
    }
}

/// The subscriber registry: one record per registered workspace key.
pub struct Registry {
    pub entries: Vec<(String, I3Listener)>,
}

/// Looks a key up among the entries.
fn find_index(entries: &Vec<(String, I3Listener)>, key: &str) -> (r: Option<usize>)
    ensures
        r matches Some(j) ==> 0 <= j < entries@.len() && entries@[j as int].0@ == key@,
        r is None ==> forall|i: int| 0 <= i < entries@.len() ==> (#[trigger] entries@[i]).0@
            != key@,
{
    let mut j: usize = 0;
    while j < entries.len()
        invariant
            j <= entries@.len(),
            forall|i: int| 0 <= i < j ==> (#[trigger] entries@[i]).0@ != key@,
        decreases entries@.len() - j,
    {
        if str_eq(entries[j].0.as_str(), key) {
            return Some(j);
        }
        j = j + 1;
    }
    None
}

impl Registry {
    /// The registry as contracts speak of it.
    pub open spec fn v(self) -> RegView {
        self.entries@.map(
            |i: int, e: (String, I3Listener)| (e.0@, e.1.old_state, e.1.old_title@),
        )
    }

    /// Well-formed: no key registered twice.
    pub open spec fn wf(self) -> bool {
        distinct_keys(self.v())
    }

    /// An empty registry.
    pub fn new() -> (r: Self)
        ensures
            r.wf(),
            r.v() == Seq::<(Seq<char>, bool, Seq<char>)>::empty(),
    {
        let r = Registry { entries: Vec::new() };
        proof {
            assert(r.v() =~= Seq::<(Seq<char>, bool, Seq<char>)>::empty());
        }
        r
    }

    /// Registers a consumer under `workspace`: a fresh record replaces any
    /// earlier one under the same key — last writer wins, no error — and
    /// the returned bootstrap delta, visibility false, is to be delivered
    /// to the consumer before anything else.
    pub fn register(&mut self, workspace: String) -> (boot: I3Change)
        requires
            old(self).wf(),
        ensures
            final(self).wf(),
            boot.state == Some(false),
            boot.title is None,
            final(self).v() == if has_key(old(self).v(), workspace@) {
                old(self).v().update(
                    idx_of(old(self).v(), workspace@),
                    (workspace@, false, Seq::<char>::empty()),
                )
            } else {
                old(self).v().push((workspace@, false, Seq::<char>::empty()))
            },
    {
        let boot = I3Change::new(Some(false), None);
        let found = find_index(&self.entries, workspace.as_str());
        match found {
            Some(j) => {
                proof {
                    lemma_idx_of_unique(self.v(), workspace@, j as int);
                }
                self.entries[j] = (workspace, I3Listener::new());
                proof {
                    let oldv = old(self).v();
                    let newv = self.v();
                    assert(newv =~= oldv.update(
                        idx_of(oldv, workspace@),
                        (workspace@, false, Seq::<char>::empty()),
                    ));
                    assert forall|a: int, b: int|
                        0 <= a < b < newv.len() implies (#[trigger] newv[a]).0
                        != (#[trigger] newv[b]).0 by {
                        assert(newv[a].0 == oldv[a].0);
                        assert(newv[b].0 == oldv[b].0);
                    }
                }
            },
            None => {
                proof {
                    assert(!has_key(old(self).v(), workspace@));
                }
                self.entries.push((workspace, I3Listener::new()));
                proof {
                    let oldv = old(self).v();
                    let newv = self.v();
                    assert(newv =~= oldv.push((workspace@, false, Seq::<char>::empty())));
                    assert forall|a: int, b: int|
                        0 <= a < b < newv.len() implies (#[trigger] newv[a]).0
                        != (#[trigger] newv[b]).0 by {
                        if b < oldv.len() {
                            assert(newv[a].0 == oldv[a].0);
                            assert(newv[b].0 == oldv[b].0);
                        } else {
                            assert(newv[a].0 == oldv[a].0);
                        }
                    }
                }
            },
        }
        boot
    }

    /// Reconciles the registry against a full reported workspace list: for
    /// every registered key the list names, the recorded visibility is
    /// brought up to the reported one, and a visibility delta is emitted
    /// exactly where it differed.
    pub fn handle_focus(&mut self, workspaces: &Vec<WorkspaceInfo>) -> (out: Vec<
        (String, I3Change),
    >)
        requires
            old(self).wf(),
        ensures
            final(self).wf(),
            final(self).v() == focus_fold(old(self).v(), ws_view(workspaces@)).0,
            ({
                let emitted = focus_fold(old(self).v(), ws_view(workspaces@)).1;
                out@.len() == emitted.len() && forall|j: int|
                    0 <= j < emitted.len() ==> (#[trigger] out@[j]).0@ == emitted[j].0
                        && out@[j].1.state == Some(emitted[j].1) && out@[j].1.title is None
            }),
    {
        let ghost oldv = self.v();
        let ghost full = ws_view(workspaces@);
        let mut out: Vec<(String, I3Change)> = Vec::new();
        let mut t: usize = 0;
        proof {
            assert(full.skip(0) =~= full);
            assert(focus_fold(oldv, full).1 =~= Seq::<(Seq<char>, bool)>::empty() + focus_fold(
                self.v(),
                full.skip(0),
            ).1);
        }
        while t < workspaces.len()
            invariant
                t <= workspaces@.len(),
                full == ws_view(workspaces@),
                full.len() == workspaces@.len(),
                distinct_keys(self.v()),
                focus_fold(oldv, full).0 == focus_fold(self.v(), full.skip(t as int)).0,
                out@.len() + focus_fold(self.v(), full.skip(t as int)).1.len() == focus_fold(
                    oldv,
                    full,
                ).1.len(),
                forall|j: int|
                    0 <= j < out@.len() ==> (#[trigger] out@[j]).0@ == focus_fold(
                        oldv,
                        full,
                    ).1[j].0 && out@[j].1.state == Some(focus_fold(oldv, full).1[j].1)
                        && out@[j].1.title is None,
                focus_fold(oldv, full).1 == out_keys_vis(out@) + focus_fold(
                    self.v(),
                    full.skip(t as int),
                ).1,
            decreases workspaces@.len() - t,
        {
            let ghost pre = self.v();
            let ghost w = full[t as int];
            proof {
                assert(full.skip(t as int)[0] == full[t as int]);
                assert(full.skip(t as int).drop_first() =~= full.skip(t as int + 1));
            }
            let wname = &workspaces[t].name;
            let wvis = workspaces[t].visible;
            proof {
                assert(w == (wname@, wvis));
            }
            let found = find_index(&self.entries, wname.as_str());
            match found {
                Some(j) => {
                    proof {
                        lemma_idx_of_unique(pre, wname@, j as int);
                    }
                    if self.entries[j].1.old_state != wvis {
                        self.entries[j].1.old_state = wvis;
                        out.push((wname.clone(), I3Change::new(Some(wvis), None)));
                        proof {
                            assert(self.v() =~= pre.update(
                                idx_of(pre, w.0),
                                (w.0, w.1, title_of(pre, w.0)),
                            ));
                            assert(focus_step(pre, w).0 == self.v());
                            assert(focus_step(pre, w).1 =~= seq![(w.0, w.1)]);
                            assert forall|a: int, b: int|
                                0 <= a < b < self.v().len() implies (#[trigger] self.v()[a]).0
                                != (#[trigger] self.v()[b]).0 by {
                                assert(self.v()[a].0 == pre[a].0);
                                assert(self.v()[b].0 == pre[b].0);
                            }
                            assert(out_keys_vis(out@) =~= out_keys_vis(out@.drop_last())
                                + seq![(w.0, w.1)]);
                            assert(out_keys_vis(out@.drop_last()) + (seq![(w.0, w.1)]
                                + focus_fold(self.v(), full.skip(t as int + 1)).1) =~= (
                            out_keys_vis(out@.drop_last()) + seq![(w.0, w.1)]) + focus_fold(
                                self.v(),
                                full.skip(t as int + 1),
                            ).1);
                        }
                    } else {
                        proof {
                            assert(focus_step(pre, w).0 == pre);
                            assert(focus_step(pre, w).1 =~= Seq::<(Seq<char>, bool)>::empty());
                            assert(Seq::<(Seq<char>, bool)>::empty() + focus_fold(
                                self.v(),
                                full.skip(t as int + 1),
                            ).1 =~= focus_fold(self.v(), full.skip(t as int + 1)).1);
                        }
                    }
                },
                None => {
                    proof {
                        assert(!has_key(pre, w.0));
                        assert(focus_step(pre, w).0 == pre);
                        assert(focus_step(pre, w).1 =~= Seq::<(Seq<char>, bool)>::empty());
                        assert(Seq::<(Seq<char>, bool)>::empty() + focus_fold(
                            self.v(),
                            full.skip(t as int + 1),
                        ).1 =~= focus_fold(self.v(), full.skip(t as int + 1)).1);
                    }
                },
            }
            t = t + 1;
        }
        proof {
            assert(full.skip(t as int) =~= Seq::<(Seq<char>, bool)>::empty());
            assert(out_keys_vis(out@) + focus_fold(self.v(), full.skip(t as int)).1
                =~= out_keys_vis(out@));
        }
        out
    }

    /// Handles a workspace-empty event for `name`: if a subscriber is
    /// registered there, its visibility is forced to false and a delta is
    /// emitted unconditionally, whatever was recorded before.
    pub fn handle_empty(&mut self, name: &String) -> (out: Option<I3Change>)
        requires
            old(self).wf(),
        ensures
            final(self).wf(),
            final(self).v() == empty_step(old(self).v(), name@).0,
            out is Some <==> has_key(old(self).v(), name@),
            out matches Some(c) ==> c.state == Some(false) && c.title is None,
    {
        let ghost pre = self.v();
        let found = find_index(&self.entries, name.as_str());
        match found {
            Some(j) => {
                proof {
                    lemma_idx_of_unique(pre, name@, j as int);
                }
                self.entries[j].1.old_state = false;
                proof {
                    assert(self.v() =~= pre.update(
                        idx_of(pre, name@),
                        (name@, false, title_of(pre, name@)),
                    ));
                    assert forall|a: int, b: int|
                        0 <= a < b < self.v().len() implies (#[trigger] self.v()[a]).0
                        != (#[trigger] self.v()[b]).0 by {
                        assert(self.v()[a].0 == pre[a].0);
                        assert(self.v()[b].0 == pre[b].0);
                    }
                }
                Some(I3Change::new(Some(false), None))
            },
            None => {
                proof {
                    assert(!has_key(pre, name@));
                }
                None
            },
        }
    }

    /// Dispatches a batch of freshly recomputed workspace labels, in
    /// order: each goes only to a registered subscriber whose recorded
    /// label differs, and is recorded as that subscriber's last label.
    pub fn dispatch_titles(&mut self, updates: &Vec<(String, String)>) -> (out: Vec<
        (String, I3Change),
    >)
        requires
            old(self).wf(),
        ensures
            final(self).wf(),
            final(self).v() == title_fold(old(self).v(), pairs_view(updates@)).0,
            ({
                let emitted = title_fold(old(self).v(), pairs_view(updates@)).1;
                out@.len() == emitted.len() && forall|j: int|
                    0 <= j < emitted.len() ==> (#[trigger] out@[j]).0@ == emitted[j].0
                        && out@[j].1.state is None && (out@[j].1.title matches Some(l) && l@
                        == emitted[j].1)
            }),
    {
        let ghost oldv = self.v();
        let ghost full = pairs_view(updates@);
        let mut out: Vec<(String, I3Change)> = Vec::new();
        let mut t: usize = 0;
        proof {
            assert(full.skip(0) =~= full);
            assert(out_keys_titles(out@) =~= Seq::<(Seq<char>, Seq<char>)>::empty());
            assert(Seq::<(Seq<char>, Seq<char>)>::empty() + title_fold(
                self.v(),
                full.skip(0),
            ).1 =~= title_fold(self.v(), full.skip(0)).1);
        }
        while t < updates.len()
            invariant
                t <= updates@.len(),
                full == pairs_view(updates@),
                full.len() == updates@.len(),
                distinct_keys(self.v()),
                title_fold(oldv, full).0 == title_fold(self.v(), full.skip(t as int)).0,
                out@.len() + title_fold(self.v(), full.skip(t as int)).1.len() == title_fold(
                    oldv,
                    full,
                ).1.len(),
                forall|j: int|
                    0 <= j < out@.len() ==> (#[trigger] out@[j]).0@ == title_fold(
                        oldv,
                        full,
                    ).1[j].0 && out@[j].1.state is None && (out@[j].1.title matches Some(l)
                        && l@ == title_fold(oldv, full).1[j].1),
                title_fold(oldv, full).1 == out_keys_titles(out@) + title_fold(
                    self.v(),
                    full.skip(t as int),
                ).1,
            decreases updates@.len() - t,
        {
            let ghost pre = self.v();
            let ghost u = full[t as int];
            proof {
                assert(full.skip(t as int)[0] == full[t as int]);
                assert(full.skip(t as int).drop_first() =~= full.skip(t as int + 1));
            }
            let key = &updates[t].0;
            let label = updates[t].1.clone();
            proof {
                assert(u == (key@, label@));
            }
            let r = self.handle_title(key, label);
            match r {
                Some(c) => {
                    out.push((key.clone(), c));
                    proof {
                        assert(title_step(pre, u.0, u.1).0 == self.v());
                        assert(title_step(pre, u.0, u.1).1 =~= seq![(u.0, u.1)]);
                        assert(out_keys_titles(out@) =~= out_keys_titles(out@.drop_last())
                            + seq![(u.0, u.1)]);
                        assert(out_keys_titles(out@.drop_last()) + (seq![(u.0, u.1)]
                            + title_fold(self.v(), full.skip(t as int + 1)).1) =~= (
                        out_keys_titles(out@.drop_last()) + seq![(u.0, u.1)]) + title_fold(
                            self.v(),
                            full.skip(t as int + 1),
                        ).1);
                    }
                },
                None => {
                    proof {
                        assert(title_step(pre, u.0, u.1).0 == self.v());
                        assert(title_step(pre, u.0, u.1).1 =~= Seq::<
                            (Seq<char>, Seq<char>),
                        >::empty());
                        assert(Seq::<(Seq<char>, Seq<char>)>::empty() + title_fold(
                            self.v(),
                            full.skip(t as int + 1),
                        ).1 =~= title_fold(self.v(), full.skip(t as int + 1)).1);
                    }
                },
            }
            t = t + 1;
        }
        proof {
            assert(full.skip(t as int) =~= Seq::<(Seq<char>, Seq<char>)>::empty());
            assert(out_keys_titles(out@) + title_fold(self.v(), full.skip(t as int)).1
                =~= out_keys_titles(out@));
        }
        out
    }

    /// Dispatches a freshly derived label for `workspace`: only a
    /// registered subscriber whose recorded label differs is updated and
    /// handed a label delta.
    pub fn handle_title(&mut self, workspace: &String, label: String) -> (out: Option<I3Change>)
        requires
            old(self).wf(),
        ensures
            final(self).wf(),
            final(self).v() == title_step(old(self).v(), workspace@, label@).0,
            out is Some <==> (has_key(old(self).v(), workspace@) && title_of(
                old(self).v(),
                workspace@,
            ) != label@),
            out matches Some(c) ==> c.state is None && (c.title matches Some(l) && l@ == label@),
    {
        let ghost pre = self.v();
        let found = find_index(&self.entries, workspace.as_str());
        match found {
            Some(j) => {
                proof {
                    lemma_idx_of_unique(pre, workspace@, j as int);
                }
                if !str_eq(self.entries[j].1.old_title.as_str(), label.as_str()) {
                    self.entries[j].1.old_title = label.clone();
                    proof {
                        assert(self.v() =~= pre.update(
                            idx_of(pre, workspace@),
                            (workspace@, vis_of(pre, workspace@), label@),
                        ));
                        assert forall|a: int, b: int|
                            0 <= a < b < self.v().len() implies (#[trigger] self.v()[a]).0
                            != (#[trigger] self.v()[b]).0 by {
                            assert(self.v()[a].0 == pre[a].0);
                            assert(self.v()[b].0 == pre[b].0);
                        }
                    }
                    Some(I3Change::new(None, Some(label)))
                } else {
                    proof {
                        assert(title_step(pre, workspace@, label@).0 == pre);
                    }
                    None
                }
            },
            None => {
                proof {
                    assert(!has_key(pre, workspace@));
                }
                None
            },
        }
    }
}

/// One consumer's local view of its workspace, kept current by merging
/// the deltas it receives.
pub struct ConsumerView {
    pub visible: bool,
    pub label: String,
}

impl ConsumerView {
    /// The view a consumer renders before its bootstrap delta arrives.
    pub fn new() -> (r: Self)
        ensures
            r.visible == true,
            r.label@ == "empty"@,
    {
        ConsumerView { visible: true, label: "empty".to_owned() }
    }

    /// Merges one delta: each field is taken independently — neither
    /// implies the other arrived — and a redraw is asked for exactly when
    /// a present field differs from the view.
    pub fn merge(&mut self, change: &I3Change) -> (redraw: bool)
        ensures
            final(self).visible == (match change.state {
                Some(v) => v,
                None => old(self).visible,
            }),
            final(self).label@ == (match change.title {
                Some(t) => t@,
                None => old(self).label@,
            }),
            redraw == ((change.state matches Some(v) && v != old(self).visible) || (
            change.title matches Some(t) && t@ != old(self).label@)),
    {
        let mut redraw = false;
        match change.state {
            Some(v) => {
                if v != self.visible {
                    self.visible = v;
                    redraw = true;
                }
            },
            None => {},
        }
        match &change.title {
            Some(t) => {
                if !str_eq(t.as_str(), self.label.as_str()) {
                    self.label = t.clone();
                    redraw = true;
                }
            },
            None => {},
        }
        redraw
    }
}

/// The emitted visibility deltas as contracts speak of them.
pub open spec fn out_keys_vis(out: Seq<(String, I3Change)>) -> Seq<(Seq<char>, bool)> {
    out.map(
        |i: int, e: (String, I3Change)| (e.0@, e.1.state->0),
    )
}

/// The emitted label deltas as contracts speak of them.
pub open spec fn out_keys_titles(out: Seq<(String, I3Change)>) -> Seq<(Seq<char>, Seq<char>)> {
    out.map(
        |i: int, e: (String, I3Change)| (e.0@, e.1.title->0@),
    )
}

/// A list of workspace/label pairs as contracts speak of it.
pub open spec fn pairs_view(ps: Seq<(String, String)>) -> Seq<(Seq<char>, Seq<char>)> {
    ps.map(|i: int, p: (String, String)| (p.0@, p.1@))
}

} // verus!
