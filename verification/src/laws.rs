//! The dispatch protocol's laws: what the registry records after any
//! sequence of workspace events, that dispatches happen only on change,
//! and that a full report reconciles the registry regardless of what was
//! missed before it.

use crate::registry::{
    distinct_keys, empty_step, focus_fold, focus_step, has_key, idx_of, lemma_idx_of_unique,
    title_step, title_fold, vis_of, title_of, RegView,
};
use vstd::prelude::*;

verus! {

/// One workspace-class event as the handlers see it: a focus change with
/// the full reported list queried after it, or an empty event naming one
/// workspace.
pub enum WsEvent {
    Focus(Seq<(Seq<char>, bool)>),
    Empty(Seq<char>),
}

/// The registry after one workspace-class event.
pub open spec fn apply_ws_event(s: RegView, e: WsEvent) -> RegView {
    match e {
        WsEvent::Focus(list) => focus_fold(s, list).0,
        WsEvent::Empty(name) => empty_step(s, name).0,
    }
}

/// The registry after a sequence of workspace-class events, in order.
pub open spec fn apply_ws_events(s: RegView, es: Seq<WsEvent>) -> RegView
    decreases es.len(),
{
    if es.len() == 0 {
        s
    } else {
        apply_ws_event(apply_ws_events(s, es.drop_last()), es.last())
    }
}

/// Whether a reported list names key `k`.
pub open spec fn list_has(list: Seq<(Seq<char>, bool)>, k: Seq<char>) -> bool {
    exists|i: int| 0 <= i < list.len() && (#[trigger] list[i]).0 == k
}

/// The visibility the list reports for `k` at its last occurrence.
pub open spec fn last_reported(list: Seq<(Seq<char>, bool)>, k: Seq<char>) -> bool
    decreases list.len(),
{
    if list.len() == 0 {
        false
    } else if list_has(list.drop_first(), k) {
        last_reported(list.drop_first(), k)
    } else if list[0].0 == k {
        list[0].1
    } else {
        false
    }
}

/// The visibility a subscriber should record after a sequence of events:
/// what the most recent full list reported for its key — except that an
/// empty event for the key afterwards forces it to false — and the prior
/// recorded value where no event spoke of the key.
pub open spec fn expected_vis(es: Seq<WsEvent>, k: Seq<char>, init: bool) -> bool
    decreases es.len(),
{
    if es.len() == 0 {
        init
    } else {
        match es.last() {
            WsEvent::Empty(name) => if name == k {
                false
            } else {
                expected_vis(es.drop_last(), k, init)
            },
            WsEvent::Focus(list) => if list_has(list, k) {
                last_reported(list, k)
            } else {
                expected_vis(es.drop_last(), k, init)
            },
        }
    }
}

/// What one focus step does: keys and labels stay, the named key's
/// visibility becomes the reported one, every other key keeps its value.
proof fn lemma_focus_step_props(s: RegView, w: (Seq<char>, bool))
    requires
        distinct_keys(s),
    ensures
        ({
            let s1 = focus_step(s, w).0;
            s1.len() == s.len() && distinct_keys(s1) && (forall|i: int|
                0 <= i < s.len() ==> (#[trigger] s1[i]).0 == s[i].0 && s1[i].2 == s[i].2) && (
            forall|k: Seq<char>| has_key(s1, k) == has_key(s, k)) && (forall|k: Seq<char>|
                has_key(s, k) && k != w.0 ==> #[trigger] vis_of(s1, k) == vis_of(s, k)) && (
            has_key(s, w.0) ==> vis_of(s1, w.0) == w.1) && (forall|k: Seq<char>|
                has_key(s, k) ==> #[trigger] title_of(s1, k) == title_of(s, k))
        }),
{
    let s1 = focus_step(s, w).0;
    if has_key(s, w.0) && vis_of(s, w.0) != w.1 {
        let j = idx_of(s, w.0);
        assert(0 <= j < s.len() && s[j].0 == w.0);
        assert forall|k: Seq<char>| has_key(s1, k) implies has_key(s, k) by {
            let i = choose|i: int| 0 <= i < s1.len() && (#[trigger] s1[i]).0 == k;
            assert(s[i].0 == k);
        }
        assert forall|k: Seq<char>| has_key(s, k) implies has_key(s1, k) by {
            let i = choose|i: int| 0 <= i < s.len() && (#[trigger] s[i]).0 == k;
            assert(s1[i].0 == k);
        }
        assert forall|k: Seq<char>| has_key(s, k) implies idx_of(s1, k) == idx_of(s, k)
            && #[trigger] title_of(s1, k) == title_of(s, k) by {
            let i = idx_of(s, k);
            assert(0 <= i < s.len() && s[i].0 == k);
            assert(s1[i].0 == k);
            lemma_idx_of_unique(s1, k, i);
        }
        assert forall|k: Seq<char>|
            has_key(s, k) && k != w.0 implies #[trigger] vis_of(s1, k) == vis_of(s, k) by {
            let i = idx_of(s, k);
            assert(i != j);
        }
        assert(vis_of(s1, w.0) == w.1);
    }
}

/// What one empty step does: keys and labels stay, the named key's
/// visibility is forced to false, every other key keeps its value.
proof fn lemma_empty_step_props(s: RegView, name: Seq<char>)
    requires
        distinct_keys(s),
    ensures
        ({
            let s1 = empty_step(s, name).0;
            s1.len() == s.len() && distinct_keys(s1) && (forall|i: int|
                0 <= i < s.len() ==> (#[trigger] s1[i]).0 == s[i].0 && s1[i].2 == s[i].2) && (
            forall|k: Seq<char>| has_key(s1, k) == has_key(s, k)) && (forall|k: Seq<char>|
                has_key(s, k) && k != name ==> #[trigger] vis_of(s1, k) == vis_of(s, k)) && (
            has_key(s, name) ==> vis_of(s1, name) == false) && (forall|k: Seq<char>|
                has_key(s, k) ==> #[trigger] title_of(s1, k) == title_of(s, k))
        }),
{
    let s1 = empty_step(s, name).0;
    if has_key(s, name) {
        let j = idx_of(s, name);
        assert(0 <= j < s.len() && s[j].0 == name);
        assert forall|k: Seq<char>| has_key(s1, k) implies has_key(s, k) by {
            let i = choose|i: int| 0 <= i < s1.len() && (#[trigger] s1[i]).0 == k;
            assert(s[i].0 == k);
        }
        assert forall|k: Seq<char>| has_key(s, k) implies has_key(s1, k) by {
            let i = choose|i: int| 0 <= i < s.len() && (#[trigger] s[i]).0 == k;
            assert(s1[i].0 == k);
        }
        assert forall|k: Seq<char>| has_key(s, k) implies idx_of(s1, k) == idx_of(s, k)
            && #[trigger] title_of(s1, k) == title_of(s, k) by {
            let i = idx_of(s, k);
            assert(0 <= i < s.len() && s[i].0 == k);
            assert(s1[i].0 == k);
            lemma_idx_of_unique(s1, k, i);
        }
        assert forall|k: Seq<char>|
            has_key(s, k) && k != name implies #[trigger] vis_of(s1, k) == vis_of(s, k) by {
            let i = idx_of(s, k);
            assert(i != j);
        }
        assert(vis_of(s1, name) == false);
    }
}

/// What the whole focus reconciliation does for one registered key: it
/// records exactly what the list last reported for it, and touches
/// nothing if the list does not name it.
pub proof fn lemma_focus_fold_vis(s: RegView, list: Seq<(Seq<char>, bool)>, k: Seq<char>)
    requires
        distinct_keys(s),
        has_key(s, k),
    ensures
        ({
            let s1 = focus_fold(s, list).0;
            s1.len() == s.len() && distinct_keys(s1) && (forall|i: int|
                0 <= i < s.len() ==> (#[trigger] s1[i]).0 == s[i].0 && s1[i].2 == s[i].2)
                && has_key(s1, k) && vis_of(s1, k) == (if list_has(list, k) {
                last_reported(list, k)
            } else {
                vis_of(s, k)
            })
        }),
    decreases list.len(),
{
    if list.len() == 0 {
    } else {
        let w = list[0];
        let df = list.drop_first();
        let s1 = focus_step(s, w).0;
        lemma_focus_step_props(s, w);
        lemma_focus_fold_vis(s1, df, k);
        let fin = focus_fold(s, list).0;
        assert(fin == focus_fold(s1, df).0);
        assert forall|i: int|
            0 <= i < s.len() implies (#[trigger] fin[i]).0 == s[i].0 && fin[i].2 == s[i].2 by {
            assert(fin[i].0 == s1[i].0 && fin[i].2 == s1[i].2);
        }
        if list_has(df, k) {
            assert(last_reported(list, k) == last_reported(df, k));
            let i = choose|i: int| 0 <= i < df.len() && (#[trigger] df[i]).0 == k;
            assert(list[i + 1].0 == k);
            assert(list_has(list, k));
        } else {
            if w.0 == k {
                assert(list_has(list, k));
                assert(vis_of(s1, k) == w.1);
                assert(last_reported(list, k) == list[0].1);
            } else {
                assert(vis_of(s1, k) == vis_of(s, k));
                if list_has(list, k) {
                    let i = choose|i: int| 0 <= i < list.len() && (#[trigger] list[i]).0 == k;
                    assert(i != 0);
                    assert(df[i - 1].0 == k);
                    assert(list_has(df, k));
                }
            }
        }
    }
}

/// A subscriber's recorded visibility after any sequence of workspace
/// events equals what the most recent full list reported for its key,
/// except that an empty event for the key afterwards forces it to false;
/// events that never spoke of the key leave the prior value.
pub proof fn lemma_visibility_tracks_reports(init: RegView, events: Seq<WsEvent>, k: Seq<char>)
    requires
        distinct_keys(init),
        has_key(init, k),
    ensures
        ({
            let fin = apply_ws_events(init, events);
            fin.len() == init.len() && distinct_keys(fin) && has_key(fin, k) && vis_of(fin, k)
                == expected_vis(events, k, vis_of(init, k))
        }),
    decreases events.len(),
{
    if events.len() > 0 {
        let prefix = events.drop_last();
        lemma_visibility_tracks_reports(init, prefix, k);
        let mid = apply_ws_events(init, prefix);
        assert(has_key(mid, k));
        match events.last() {
            WsEvent::Focus(list) => {
                lemma_focus_fold_vis(mid, list, k);
            },
            WsEvent::Empty(name) => {
                lemma_empty_step_props(mid, name);
            },
        }
    }
}

/// Once one full workspace list is reconciled, the recorded visibility of
/// every key the list names equals the list's report, whatever the
/// registry held before — so two registries that diverged while events
/// were lost converge on the first successful full query.
pub proof fn lemma_focus_reconciles_independently(
    a: RegView,
    b: RegView,
    list: Seq<(Seq<char>, bool)>,
    k: Seq<char>,
)
    requires
        distinct_keys(a),
        distinct_keys(b),
        has_key(a, k),
        has_key(b, k),
        list_has(list, k),
    ensures
        vis_of(focus_fold(a, list).0, k) == last_reported(list, k),
        vis_of(focus_fold(b, list).0, k) == last_reported(list, k),
{
    lemma_focus_fold_vis(a, list, k);
    lemma_focus_fold_vis(b, list, k);
}

/// What one label dispatch does: keys and visibilities stay, the named
/// key's recorded label becomes the dispatched one, every other key keeps
/// its label.
pub proof fn lemma_title_step_props(s: RegView, key: Seq<char>, label: Seq<char>)
    requires
        distinct_keys(s),
    ensures
        ({
            let s1 = title_step(s, key, label).0;
            s1.len() == s.len() && distinct_keys(s1) && (forall|i: int|
                0 <= i < s.len() ==> (#[trigger] s1[i]).0 == s[i].0 && s1[i].1 == s[i].1) && (
            forall|k: Seq<char>| has_key(s1, k) == has_key(s, k)) && (forall|k: Seq<char>|
                has_key(s, k) && k != key ==> #[trigger] title_of(s1, k) == title_of(s, k)) && (
            has_key(s, key) ==> title_of(s1, key) == label) && (forall|k: Seq<char>|
                has_key(s, k) ==> #[trigger] vis_of(s1, k) == vis_of(s, k))
        }),
{
    let s1 = title_step(s, key, label).0;
    if has_key(s, key) && title_of(s, key) != label {
        let j = idx_of(s, key);
        assert(0 <= j < s.len() && s[j].0 == key);
        assert forall|k: Seq<char>| has_key(s1, k) implies has_key(s, k) by {
            let i = choose|i: int| 0 <= i < s1.len() && (#[trigger] s1[i]).0 == k;
            assert(s[i].0 == k);
        }
        assert forall|k: Seq<char>| has_key(s, k) implies has_key(s1, k) by {
            let i = choose|i: int| 0 <= i < s.len() && (#[trigger] s[i]).0 == k;
            assert(s1[i].0 == k);
        }
        assert forall|k: Seq<char>| has_key(s, k) implies idx_of(s1, k) == idx_of(s, k)
            && #[trigger] vis_of(s1, k) == vis_of(s, k) by {
            let i = idx_of(s, k);
            assert(0 <= i < s.len() && s[i].0 == k);
            assert(s1[i].0 == k);
            lemma_idx_of_unique(s1, k, i);
        }
        assert forall|k: Seq<char>|
            has_key(s, k) && k != key implies #[trigger] title_of(s1, k) == title_of(s, k) by {
            let i = idx_of(s, k);
            assert(i != j);
        }
        assert(title_of(s1, key) == label);
    }
}

/// After a label dispatch for a registered key the recorded label equals
/// the freshly derived one, whatever was recorded before — the label side
/// of convergence after an outage.
pub proof fn lemma_title_converges_independently(
    a: RegView,
    b: RegView,
    key: Seq<char>,
    label: Seq<char>,
)
    requires
        distinct_keys(a),
        distinct_keys(b),
        has_key(a, key),
        has_key(b, key),
    ensures
        title_of(title_step(a, key, label).0, key) == label,
        title_of(title_step(b, key, label).0, key) == label,
{
    lemma_title_step_props(a, key, label);
    lemma_title_step_props(b, key, label);
}

/// A focus reconciliation over a list that names each workspace once
/// dispatches a visibility delta only where the reported value differs
/// from the one last dispatched to that subscriber.
pub proof fn lemma_focus_dispatch_only_on_change(s: RegView, list: Seq<(Seq<char>, bool)>)
    requires
        distinct_keys(s),
        forall|i: int, j: int|
            0 <= i < j < list.len() ==> (#[trigger] list[i]).0 != (#[trigger] list[j]).0,
    ensures
        ({
            let emitted = focus_fold(s, list).1;
            forall|j: int|
                0 <= j < emitted.len() ==> has_key(s, (#[trigger] emitted[j]).0) && vis_of(
                    s,
                    emitted[j].0,
                ) != emitted[j].1 && list_has(list, emitted[j].0)
        }),
    decreases list.len(),
{
    if list.len() > 0 {
        let w = list[0];
        let df = list.drop_first();
        let s1 = focus_step(s, w).0;
        let e1 = focus_step(s, w).1;
        lemma_focus_step_props(s, w);
        assert forall|i: int, j: int|
            0 <= i < j < df.len() implies (#[trigger] df[i]).0 != (#[trigger] df[j]).0 by {
            assert(df[i] == list[i + 1]);
            assert(df[j] == list[j + 1]);
        }
        lemma_focus_dispatch_only_on_change(s1, df);
        let rest = focus_fold(s1, df).1;
        let emitted = focus_fold(s, list).1;
        assert(emitted == e1 + rest);
        assert forall|j: int|
            0 <= j < emitted.len() implies has_key(s, (#[trigger] emitted[j]).0) && vis_of(
                s,
                emitted[j].0,
            ) != emitted[j].1 && list_has(list, emitted[j].0) by {
            if j < e1.len() {
                assert(emitted[j] == e1[j]);
                assert(e1.len() == 1);
                assert(emitted[j] == (w.0, w.1));
                assert(list[0].0 == w.0);
                assert(list_has(list, w.0));
            } else {
                assert(emitted[j] == rest[j - e1.len()]);
                let e = rest[j - e1.len()];
                assert(has_key(s1, e.0) && vis_of(s1, e.0) != e.1 && list_has(df, e.0));
                let i = choose|i: int| 0 <= i < df.len() && (#[trigger] df[i]).0 == e.0;
                assert(list[i + 1].0 == e.0);
                assert(list_has(list, e.0));
                assert(e.0 != w.0);
                assert(vis_of(s1, e.0) == vis_of(s, e.0));
            }
        }
    }
}

/// A batch of label dispatches over distinct workspaces dispatches a
/// label delta only where the derived label differs from the one last
/// dispatched to that subscriber.
pub proof fn lemma_titles_dispatch_only_on_change(s: RegView, ups: Seq<(Seq<char>, Seq<char>)>)
    requires
        distinct_keys(s),
        forall|i: int, j: int|
            0 <= i < j < ups.len() ==> (#[trigger] ups[i]).0 != (#[trigger] ups[j]).0,
    ensures
        ({
            let emitted = title_fold(s, ups).1;
            forall|j: int|
                0 <= j < emitted.len() ==> has_key(s, (#[trigger] emitted[j]).0) && title_of(
                    s,
                    emitted[j].0,
                ) != emitted[j].1
        }),
    decreases ups.len(),
{
    if ups.len() > 0 {
        let u = ups[0];
        let df = ups.drop_first();
        let s1 = title_step(s, u.0, u.1).0;
        let e1 = title_step(s, u.0, u.1).1;
        lemma_title_step_props(s, u.0, u.1);
        assert forall|i: int, j: int|
            0 <= i < j < df.len() implies (#[trigger] df[i]).0 != (#[trigger] df[j]).0 by {
            assert(df[i] == ups[i + 1]);
            assert(df[j] == ups[j + 1]);
        }
        lemma_titles_dispatch_only_on_change(s1, df);
        let rest = title_fold(s1, df).1;
        let emitted = title_fold(s, ups).1;
        assert(emitted == e1 + rest);
        assert forall|j: int|
            0 <= j < emitted.len() implies has_key(s, (#[trigger] emitted[j]).0) && title_of(
                s,
                emitted[j].0,
            ) != emitted[j].1 by {
            if j < e1.len() {
                assert(emitted[j] == e1[j]);
                assert(e1.len() == 1);
                assert(emitted[j] == (u.0, u.1));
            } else {
                assert(emitted[j] == rest[j - e1.len()]);
                let e = rest[j - e1.len()];
                assert(has_key(s1, e.0) && title_of(s1, e.0) != e.1);
                // a later update never concerns the first key again
                let i = title_emitted_key_in(s1, df, j - e1.len());
                assert(e.0 != u.0);
                assert(title_of(s1, e.0) == title_of(s, e.0));
            }
        }
    }
}

/// The focus reconciliation never sends a redundant delta: whenever a
/// step emits, the reported visibility differed from the value recorded
/// for that subscriber at that moment.
pub open spec fn focus_nonredundant(s: RegView, list: Seq<(Seq<char>, bool)>) -> bool
    decreases list.len(),
{
    if list.len() == 0 {
        true
    } else {
        let w = list[0];
        (focus_step(s, w).1.len() > 0 ==> has_key(s, w.0) && vis_of(s, w.0) != w.1)
            && focus_nonredundant(focus_step(s, w).0, list.drop_first())
    }
}

/// Every visibility delta is sent only on change, measured against the
/// record as it stood when that delta was sent — the dedup property with
/// no assumption on the reported list.
pub proof fn lemma_focus_fold_nonredundant(s: RegView, list: Seq<(Seq<char>, bool)>)
    ensures
        focus_nonredundant(s, list),
    decreases list.len(),
{
    if list.len() > 0 {
        lemma_focus_fold_nonredundant(focus_step(s, list[0]).0, list.drop_first());
    }
}

/// The label dispatch never sends a redundant delta: whenever a step
/// emits, the derived label differed from the one recorded for that
/// subscriber at that moment.
pub open spec fn titles_nonredundant(s: RegView, ups: Seq<(Seq<char>, Seq<char>)>) -> bool
    decreases ups.len(),
{
    if ups.len() == 0 {
        true
    } else {
        let u = ups[0];
        (title_step(s, u.0, u.1).1.len() > 0 ==> has_key(s, u.0) && title_of(s, u.0) != u.1)
            && titles_nonredundant(title_step(s, u.0, u.1).0, ups.drop_first())
    }
}

/// Every label delta is sent only on change, measured against the record
/// as it stood when that delta was sent — so even the two recomputations
/// a single move event can aim at one workspace never repeat a label.
pub proof fn lemma_titles_fold_nonredundant(s: RegView, ups: Seq<(Seq<char>, Seq<char>)>)
    ensures
        titles_nonredundant(s, ups),
    decreases ups.len(),
{
    if ups.len() > 0 {
        lemma_titles_fold_nonredundant(title_step(s, ups[0].0, ups[0].1).0, ups.drop_first());
    }
}

/// A batch of label dispatches, whatever it holds, never adds or removes
/// a subscriber and never touches a recorded visibility.
pub proof fn lemma_title_fold_preserves(s: RegView, ups: Seq<(Seq<char>, Seq<char>)>)
    requires
        distinct_keys(s),
    ensures
        ({
            let s1 = title_fold(s, ups).0;
            s1.len() == s.len() && distinct_keys(s1) && (forall|i: int|
                0 <= i < s.len() ==> (#[trigger] s1[i]).0 == s[i].0 && s1[i].1 == s[i].1)
        }),
    decreases ups.len(),
{
    if ups.len() > 0 {
        let s1 = title_step(s, ups[0].0, ups[0].1).0;
        lemma_title_step_props(s, ups[0].0, ups[0].1);
        lemma_title_fold_preserves(s1, ups.drop_first());
        let fin = title_fold(s, ups).0;
        assert forall|i: int|
            0 <= i < s.len() implies (#[trigger] fin[i]).0 == s[i].0 && fin[i].1 == s[i].1 by {
            assert(fin[i].0 == s1[i].0 && fin[i].1 == s1[i].1);
        }
    }
}

/// The keys a title fold emits for all occur in its update list; returns
/// a witness position.
proof fn title_emitted_key_in(s: RegView, ups: Seq<(Seq<char>, Seq<char>)>, j: int) -> (i: int)
    requires
        0 <= j < title_fold(s, ups).1.len(),
    ensures
        0 <= i < ups.len(),
        ups[i].0 == title_fold(s, ups).1[j].0,
    decreases ups.len(),
{
    let u = ups[0];
    let s1 = title_step(s, u.0, u.1).0;
    let e1 = title_step(s, u.0, u.1).1;
    let rest = title_fold(s1, ups.drop_first()).1;
    assert(title_fold(s, ups).1 == e1 + rest);
    if j < e1.len() {
        assert(e1[j] == (u.0, u.1));
        0
    } else {
        let i = title_emitted_key_in(s1, ups.drop_first(), j - e1.len());
        assert(ups.drop_first()[i] == ups[i + 1]);
        i + 1
    }
}

} // verus!
