//! The layout-tree snapshot and the workspace resolver.
//!
//! The resolver walks a tree snapshot depth first. A workspace owns a
//! container when the container is one of its immediate children; the
//! owner's leaf descendants, canonicalized, give the workspace's name set.

use crate::label::{canon, canonicalize, sort_dedup, strictly_sorted, str_eq, CanonRule};
use vstd::prelude::*;

verus! {

/// One container of the window manager's layout tree: a workspace, a split
/// container, or a leaf window. A leaf (no children) carries the
/// application-visible title used for labeling.
pub struct Node {
    pub id: i64,
    pub name: Option<String>,
    pub nodes: Vec<Node>,
}

/// The name a node reports, with a missing name read as the empty string.
pub open spec fn name_or_empty(n: Node) -> Seq<char> {
    match n.name {
        Some(s) => s@,
        None => Seq::<char>::empty(),
    }
}

/// Whether `id` occurs anywhere in the subtree rooted at `n`.
pub open spec fn subtree_contains_id(n: Node, id: int) -> bool
    decreases n,
{
    n.id == id || exists|i: int|
        0 <= i < n.nodes@.len() && subtree_contains_id(#[trigger] n.nodes@[i], id)
}

/// The canonicalized names of the leaves under `n`, in tree order.
pub open spec fn leaf_names(rules: Seq<CanonRule>, n: Node) -> Seq<Seq<char>>
    decreases n, n.nodes@.len() + 1,
{
    if n.nodes@.len() == 0 {
        seq![canon(rules, name_or_empty(n))]
    } else {
        leaf_names_from(rules, n, 0)
    }
}

/// The leaf names contributed by children `i..` of `n`.
pub open spec fn leaf_names_from(rules: Seq<CanonRule>, n: Node, i: int) -> Seq<Seq<char>>
    decreases n, n.nodes@.len() - i,
{
    if i < 0 || i >= n.nodes@.len() {
        Seq::<Seq<char>>::empty()
    } else {
        leaf_names(rules, n.nodes@[i]) + leaf_names_from(rules, n, i + 1)
    }
}

/// The workspace owning `id`: the first node, depth first, with an
/// immediate child whose identifier is `id`. Containment is decided one
/// level above the matched container.
pub open spec fn find_owner(n: Node, id: int) -> Option<Node>
    decreases n, n.nodes@.len() + 1,
{
    if n.nodes@.len() == 0 {
        None
    } else {
        find_owner_from(n, id, 0)
    }
}

/// The owner search over children `i..` of `n`.
pub open spec fn find_owner_from(n: Node, id: int, i: int) -> Option<Node>
    decreases n, n.nodes@.len() - i,
{
    if i < 0 || i >= n.nodes@.len() {
        None
    } else if n.nodes@[i].id == id {
        Some(n)
    } else {
        match find_owner(n.nodes@[i], id) {
            Some(o) => Some(o),
            None => find_owner_from(n, id, i + 1),
        }
    }
}

/// An identifier that occurs nowhere in the snapshot has no owner.
pub proof fn lemma_no_owner_for_absent_id(n: Node, id: int)
    requires
        !subtree_contains_id(n, id),
    ensures
        find_owner(n, id) is None,
    decreases n, n.nodes@.len() + 1,
{
    if n.nodes@.len() > 0 {
        lemma_no_owner_from(n, id, 0);
    }
}

proof fn lemma_no_owner_from(n: Node, id: int, i: int)
    requires
        !subtree_contains_id(n, id),
    ensures
        find_owner_from(n, id, i) is None,
    decreases n, n.nodes@.len() - i,
{
    if 0 <= i < n.nodes@.len() {
        assert(!subtree_contains_id(n.nodes@[i], id));
        assert(n.nodes@[i].id != id);
        lemma_no_owner_for_absent_id(n.nodes@[i], id);
        lemma_no_owner_from(n, id, i + 1);
    }
}

/// The resolver's output for one workspace: the workspace's reported name
/// and the distinct canonical names of the windows on it.
pub struct WorkspaceState {
    pub names: Vec<String>,
    pub workspace: String,
}

/// Collects the canonicalized name of every leaf under `node`, in tree
/// order.
pub fn child_names(node: &Node, rules: &Vec<CanonRule>) -> (r: Vec<String>)
    ensures
        r.deep_view() == leaf_names(rules@, *node),
    decreases *node,
{
    if node.nodes.len() == 0 {
        let raw: String = match &node.name {
            Some(s) => s.clone(),
            None => String::new(),
        };
        let c = canonicalize(rules, &raw);
        let mut v: Vec<String> = Vec::new();
        v.push(c);
        proof {
            assert(v.deep_view() =~= leaf_names(rules@, *node));
        }
        v
    } else {
        let mut out: Vec<String> = Vec::new();
        let mut i: usize = 0;
        proof {
            assert(out.deep_view() + leaf_names_from(rules@, *node, 0) =~= leaf_names_from(
                rules@,
                *node,
                0,
            ));
        }
        while i < node.nodes.len()
            invariant
                i <= node.nodes@.len(),
                0 < node.nodes@.len(),
                out.deep_view() + leaf_names_from(rules@, *node, i as int) == leaf_names_from(
                    rules@,
                    *node,
                    0,
                ),
            decreases node.nodes@.len() - i,
        {
            let ghost pre = out.deep_view();
            let mut sub = child_names(&node.nodes[i], rules);
            let ghost subv = sub.deep_view();
            out.append(&mut sub);
            proof {
                assert(out.deep_view() =~= pre + subv);
                assert((pre + subv) + leaf_names_from(rules@, *node, i + 1) =~= pre + (subv
                    + leaf_names_from(rules@, *node, i + 1)));
                assert(subv + leaf_names_from(rules@, *node, i + 1) == leaf_names_from(
                    rules@,
                    *node,
                    i as int,
                ));
            }
            i = i + 1;
        }
        proof {
            assert(out.deep_view() + leaf_names_from(rules@, *node, i as int) =~= out.deep_view());
        }
        out
    }
}

/// Resolves the workspace owning `id` and reduces it to its state: the
/// workspace's name and the sorted distinct canonical names of its leaves.
pub fn workspace_state(node: &Node, id: i64, rules: &Vec<CanonRule>) -> (r: Option<
    WorkspaceState,
>)
    ensures
        r is Some <==> find_owner(*node, id as int) is Some,
        !subtree_contains_id(*node, id as int) ==> r is None,
        r matches Some(ws) ==> find_owner(*node, id as int) matches Some(owner)
            && ws.workspace@ == name_or_empty(owner) && strictly_sorted(ws.names.deep_view())
            && ws.names.deep_view().to_set() == leaf_names(rules@, owner).to_set(),
    decreases *node,
{
    proof {
        if !subtree_contains_id(*node, id as int) {
            lemma_no_owner_for_absent_id(*node, id as int);
        }
    }
    if node.nodes.len() == 0 {
        return None;
    }
    let mut i: usize = 0;
    while i < node.nodes.len()
        invariant
            0 < node.nodes@.len(),
            i <= node.nodes@.len(),
            find_owner(*node, id as int) == find_owner_from(*node, id as int, i as int),
            !subtree_contains_id(*node, id as int) ==> find_owner(*node, id as int) is None,
        decreases node.nodes@.len() - i,
    {
        if node.nodes[i].id == id {
            let raw = child_names(node, rules);
            let names = sort_dedup(&raw);
            let workspace: String = match &node.name {
                Some(s) => s.clone(),
                None => String::new(),
            };
            return Some(WorkspaceState { names, workspace });
        }
        let sub = workspace_state(&node.nodes[i], id, rules);
        if sub.is_some() {
            return sub;
        }
        i = i + 1;
    }
    None
}

/// How many containers-with-children named `name` the subtree holds.
pub open spec fn match_count(n: Node, name: Seq<char>) -> nat
    decreases n, n.nodes@.len() + 1,
{
    if n.nodes@.len() == 0 {
        0
    } else if name_matches(n, name) {
        1
    } else {
        match_count_from(n, name, 0)
    }
}

/// The match count over children `i..` of `n`.
pub open spec fn match_count_from(n: Node, name: Seq<char>, i: int) -> nat
    decreases n, n.nodes@.len() - i,
{
    if i < 0 || i >= n.nodes@.len() {
        0
    } else {
        match_count(n.nodes@[i], name) + match_count_from(n, name, i + 1)
    }
}

/// Whether `n` carries exactly the name `name`.
pub open spec fn name_matches(n: Node, name: Seq<char>) -> bool {
    n.name matches Some(nm) && nm@ == name
}

/// The leaf names under every matched subtree, in tree order.
pub open spec fn matched_leaves(rules: Seq<CanonRule>, n: Node, name: Seq<char>) -> Seq<
    Seq<char>,
>
    decreases n, n.nodes@.len() + 1,
{
    if n.nodes@.len() == 0 {
        Seq::<Seq<char>>::empty()
    } else if name_matches(n, name) {
        leaf_names(rules, n)
    } else {
        matched_leaves_from(rules, n, name, 0)
    }
}

/// The matched leaf names over children `i..` of `n`.
pub open spec fn matched_leaves_from(
    rules: Seq<CanonRule>,
    n: Node,
    name: Seq<char>,
    i: int,
) -> Seq<Seq<char>>
    decreases n, n.nodes@.len() - i,
{
    if i < 0 || i >= n.nodes@.len() {
        Seq::<Seq<char>>::empty()
    } else {
        matched_leaves(rules, n.nodes@[i], name) + matched_leaves_from(rules, n, name, i + 1)
    }
}

/// A subtree without a match contributes no names.
proof fn lemma_no_match_no_leaves(rules: Seq<CanonRule>, n: Node, name: Seq<char>)
    requires
        match_count(n, name) == 0,
    ensures
        matched_leaves(rules, n, name) == Seq::<Seq<char>>::empty(),
    decreases n, n.nodes@.len() + 1,
{
    if n.nodes@.len() > 0 && !name_matches(n, name) {
        lemma_no_match_no_leaves_from(rules, n, name, 0);
    }
}

proof fn lemma_no_match_no_leaves_from(rules: Seq<CanonRule>, n: Node, name: Seq<char>, i: int)
    requires
        match_count_from(n, name, i) == 0,
    ensures
        matched_leaves_from(rules, n, name, i) == Seq::<Seq<char>>::empty(),
    decreases n, n.nodes@.len() - i,
{
    if 0 <= i < n.nodes@.len() {
        lemma_no_match_no_leaves(rules, n.nodes@[i], name);
        lemma_no_match_no_leaves_from(rules, n, name, i + 1);
        assert(matched_leaves_from(rules, n, name, i) =~= Seq::<Seq<char>>::empty());
    }
}

/// Joining two name lists joins their name sets.
proof fn lemma_concat_to_set(a: Seq<Seq<char>>, b: Seq<Seq<char>>)
    ensures
        (a + b).to_set() == a.to_set().union(b.to_set()),
{
    let c = a + b;
    assert forall|x: Seq<char>| c.to_set().contains(x) implies a.to_set().union(
        b.to_set(),
    ).contains(x) by {
        let w = choose|w: int| 0 <= w < c.len() && c[w] == x;
        if w < a.len() {
            assert(a[w] == x);
            assert(a.contains(x));
        } else {
            assert(b[w - a.len()] == x);
            assert(b.contains(x));
        }
    }
    assert forall|x: Seq<char>| a.to_set().union(b.to_set()).contains(x) implies c.to_set()
        .contains(x) by {
        if a.to_set().contains(x) {
            let w = choose|w: int| 0 <= w < a.len() && a[w] == x;
            assert(c[w] == x);
        } else {
            let w = choose|w: int| 0 <= w < b.len() && b[w] == x;
            assert(c[w + a.len()] == x);
        }
        assert(c.contains(x));
    }
    assert(c.to_set() =~= a.to_set().union(b.to_set()));
}

/// A name list with no names is empty.
proof fn lemma_to_set_empty_seq(s: Seq<Seq<char>>)
    requires
        s.to_set() == Set::<Seq<char>>::empty(),
    ensures
        s.len() == 0,
{
    if s.len() > 0 {
        assert(s.contains(s[0]));
        assert(s.to_set().contains(s[0]));
    }
}

/// Collects the distinct canonical leaf names of every subtree named
/// `name`. With at most one such subtree — the normal shape, since the
/// window manager names workspaces uniquely — the result is sorted and
/// duplicate free.
pub fn child_names_by_ws(node: &Node, name: &str, rules: &Vec<CanonRule>) -> (r: Vec<String>)
    ensures
        r.deep_view().to_set() == matched_leaves(rules@, *node, name@).to_set(),
        match_count(*node, name@) <= 1 ==> strictly_sorted(r.deep_view()),
    decreases *node,
{
    if node.nodes.len() == 0 {
        let r: Vec<String> = Vec::new();
        proof {
            assert(r.deep_view().to_set() =~= matched_leaves(rules@, *node, name@).to_set());
        }
        return r;
    }
    let is_match = match &node.name {
        Some(nm) => str_eq(nm.as_str(), name),
        None => false,
    };
    if is_match {
        let raw = child_names(node, rules);
        let r = sort_dedup(&raw);
        return r;
    }
    let mut out: Vec<String> = Vec::new();
    let mut i: usize = 0;
    proof {
        assert(out.deep_view().to_set().union(
            matched_leaves_from(rules@, *node, name@, 0).to_set(),
        ) =~= matched_leaves_from(rules@, *node, name@, 0).to_set());
    }
    while i < node.nodes.len()
        invariant
            0 < node.nodes@.len(),
            i <= node.nodes@.len(),
            !name_matches(*node, name@),
            out.deep_view().to_set().union(
                matched_leaves_from(rules@, *node, name@, i as int).to_set(),
            ) == matched_leaves_from(rules@, *node, name@, 0).to_set(),
            match_count_from(*node, name@, i as int) <= match_count_from(*node, name@, 0),
            match_count_from(*node, name@, 0) <= 1 ==> strictly_sorted(out.deep_view()),
            match_count_from(*node, name@, 0) <= 1 && out.deep_view().len() > 0
                ==> match_count_from(*node, name@, i as int) == 0,
        decreases node.nodes@.len() - i,
    {
        let ghost pre = out.deep_view();
        let mut sub = child_names_by_ws(&node.nodes[i], name, rules);
        let ghost subv = sub.deep_view();
        let ghost child = node.nodes@[i as int];
        out.append(&mut sub);
        proof {
            assert(out.deep_view() =~= pre + subv);
            lemma_concat_to_set(pre, subv);
            lemma_concat_to_set(
                matched_leaves(rules@, child, name@),
                matched_leaves_from(rules@, *node, name@, i + 1),
            );
            assert(matched_leaves(rules@, child, name@) + matched_leaves_from(
                rules@,
                *node,
                name@,
                i + 1,
            ) == matched_leaves_from(rules@, *node, name@, i as int));
            assert((pre + subv).to_set().union(
                matched_leaves_from(rules@, *node, name@, i + 1).to_set(),
            ) =~= pre.to_set().union(
                matched_leaves_from(rules@, *node, name@, i as int).to_set(),
            ));
            assert(match_count(child, name@) + match_count_from(*node, name@, i + 1)
                == match_count_from(*node, name@, i as int));
            if match_count_from(*node, name@, 0) <= 1 {
                if pre.len() > 0 {
                    assert(match_count_from(*node, name@, i as int) == 0);
                    assert(match_count(child, name@) == 0);
                    lemma_no_match_no_leaves(rules@, child, name@);
                    assert(subv.to_set() =~= Set::<Seq<char>>::empty());
                    lemma_to_set_empty_seq(subv);
                    assert(out.deep_view() =~= pre);
                } else {
                    assert(pre =~= Seq::<Seq<char>>::empty());
                    assert(out.deep_view() =~= subv);
                    assert(match_count(child, name@) <= 1);
                    if match_count(child, name@) == 0 {
                        lemma_no_match_no_leaves(rules@, child, name@);
                        assert(subv.to_set() =~= Set::<Seq<char>>::empty());
                        lemma_to_set_empty_seq(subv);
                    }
                }
            }
        }
        i = i + 1;
    }
    proof {
        assert(out.deep_view().to_set().union(
            matched_leaves_from(rules@, *node, name@, i as int).to_set(),
        ) =~= out.deep_view().to_set());
        assert(matched_leaves(rules@, *node, name@) == matched_leaves_from(
            rules@,
            *node,
            name@,
            0,
        ));
    }
    out
}

} // verus!
