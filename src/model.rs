//! The mathematical value of a tree, and what every operation reads of it:
//! names, kinds, locations, well-formedness and name spans.

use crate::entry::{Entry, EntryGroup, EntryLocation, cmp_location};
use crate::tree::EntryTree;
use std::cmp::Ordering;
use vstd::prelude::*;

verus! {

/// The mathematical value of a tree node.
pub enum Node {
    Leaf(nat),
    Parent { raw_name: Seq<char>, group: Option<nat>, children: Seq<Node> },
}

pub open spec fn opt_nat(o: Option<usize>) -> Option<nat> {
    match o {
        Some(g) => Some(g as nat),
        None => None,
    }
}

pub open spec fn node_view(t: EntryTree) -> Node
    decreases t,
{
    match t {
        EntryTree::Leaf(i) => Node::Leaf(i as nat),
        EntryTree::Parent { raw_name, group, children } => Node::Parent {
            raw_name: raw_name@,
            group: opt_nat(group),
            children: forest_view(children@),
        },
    }
}

pub open spec fn forest_view(s: Seq<EntryTree>) -> Seq<Node>
    decreases s,
{
    if s.len() == 0 {
        Seq::empty()
    } else {
        forest_view(s.subrange(0, s.len() - 1)).push(node_view(s[s.len() - 1]))
    }
}

impl View for EntryTree {
    type V = Node;

    open spec fn view(&self) -> Node {
        node_view(*self)
    }
}

pub proof fn lemma_forest_view(s: Seq<EntryTree>)
    ensures
        forest_view(s).len() == s.len(),
        forall|i: int| 0 <= i < s.len() ==> #[trigger] forest_view(s)[i] == node_view(s[i]),
    decreases s.len(),
{
    if s.len() > 0 {
        let t = s.subrange(0, s.len() - 1);
        lemma_forest_view(t);
        assert forall|i: int| 0 <= i < s.len() implies #[trigger] forest_view(s)[i] == node_view(s[i]) by {
            if i < s.len() - 1 {
                assert(t[i] == s[i]);
            }
        }
    }
}

/// A raw segment name without its raw-identifier escape `r#`.
pub open spec fn strip_raw(s: Seq<char>) -> Seq<char> {
    if s.len() >= 2 && s[0] == 'r' && s[1] == '#' {
        s.subrange(2, s.len() as int)
    } else {
        s
    }
}

/// Leaves come before parents.
pub open spec fn kind_of(n: Node) -> int {
    match n {
        Node::Leaf(_) => 0,
        Node::Parent { .. } => 1,
    }
}

/// The name that a node is shown and ordered by.
pub open spec fn name_of(n: Node, entries: Seq<Entry>, groups: Seq<EntryGroup>) -> Seq<char> {
    match n {
        Node::Leaf(i) => entries[i as int].display_name@,
        Node::Parent { group: Some(g), .. } => groups[g as int].display_name@,
        Node::Parent { raw_name, group: None, .. } => strip_raw(raw_name),
    }
}

/// The earlier of two optional locations; an absent one comes last.
pub open spec fn min_opt(a: Option<EntryLocation>, b: Option<EntryLocation>) -> Option<EntryLocation> {
    match (a, b) {
        (None, _) => b,
        (_, None) => a,
        (Some(x), Some(y)) => if cmp_location(y, x) == Ordering::Less {
            b
        } else {
            a
        },
    }
}

/// A leaf's or a grouped parent's own location; for an ungrouped parent,
/// the earliest location among its children.
pub open spec fn location_of(n: Node, entries: Seq<Entry>, groups: Seq<EntryGroup>) -> Option<EntryLocation>
    decreases n,
{
    match n {
        Node::Leaf(i) => Some(entries[i as int].location),
        Node::Parent { group: Some(g), .. } => Some(groups[g as int].location),
        Node::Parent { group: None, children, .. } => min_location(children, entries, groups),
    }
}

/// The earliest location among the nodes of a sequence.
pub open spec fn min_location(s: Seq<Node>, entries: Seq<Entry>, groups: Seq<EntryGroup>) -> Option<EntryLocation>
    decreases s,
{
    if s.len() == 0 {
        None
    } else {
        min_opt(
            min_location(s.subrange(0, s.len() - 1), entries, groups),
            location_of(s[s.len() - 1], entries, groups),
        )
    }
}

/// Every index refers into the slices, and no parent is empty.
pub open spec fn node_wf(n: Node, ne: nat, ng: nat) -> bool
    decreases n,
{
    match n {
        Node::Leaf(i) => i < ne,
        Node::Parent { group, children, .. } => {
            &&& children.len() > 0
            &&& (group matches Some(g) ==> g < ng)
            &&& forall|i: int| 0 <= i < children.len() ==> node_wf(#[trigger] children[i], ne, ng)
        },
    }
}

pub open spec fn forest_wf(f: Seq<Node>, ne: nat, ng: nat) -> bool {
    forall|i: int| 0 <= i < f.len() ==> node_wf(#[trigger] f[i], ne, ng)
}

pub proof fn lemma_wf_push(s: Seq<Node>, x: Node, ne: nat, ng: nat)
    requires
        forest_wf(s, ne, ng),
        node_wf(x, ne, ng),
    ensures
        forest_wf(s.push(x), ne, ng),
{
    assert forall|i: int| 0 <= i < s.push(x).len() implies node_wf(#[trigger] s.push(x)[i], ne, ng) by {
        if i < s.len() {
            assert(s.push(x)[i] == s[i]);
        }
    }
}

/// No two parents among siblings share a raw name, at any level below a node.
pub open spec fn distinct_below(n: Node) -> bool
    decreases n,
{
    match n {
        Node::Leaf(_) => true,
        Node::Parent { children, .. } => {
            &&& level_distinct(children)
            &&& forall|i: int| 0 <= i < children.len() ==> distinct_below(#[trigger] children[i])
        },
    }
}

/// No two parents in `s` share a raw name.
pub open spec fn level_distinct(s: Seq<Node>) -> bool {
    forall|i: int, j: int|
        #![trigger s[i], s[j]]
        0 <= i < j < s.len() && s[i] is Parent && s[j] is Parent ==> s[i]->raw_name != s[j]->raw_name
}

/// No two parents among siblings share a raw name, at any level.
pub open spec fn forest_distinct(s: Seq<Node>) -> bool {
    &&& level_distinct(s)
    &&& forall|i: int| 0 <= i < s.len() ==> distinct_below(#[trigger] s[i])
}

/// Whether a node is a parent with the given raw name.
pub open spec fn is_parent_named(n: Node, name: Seq<char>) -> bool {
    n matches Node::Parent { raw_name, .. } && raw_name == name
}

/// Index of the first parent in `s` named `name`.
pub open spec fn first_parent(s: Seq<Node>, name: Seq<char>) -> Option<int>
    decreases s.len(),
{
    if s.len() == 0 {
        None
    } else {
        match first_parent(s.subrange(0, s.len() - 1), name) {
            Some(i) => Some(i),
            None => if is_parent_named(s[s.len() - 1], name) {
                Some(s.len() - 1)
            } else {
                None
            },
        }
    }
}

pub proof fn lemma_first_parent(s: Seq<Node>, name: Seq<char>)
    ensures
        match first_parent(s, name) {
            Some(i) => 0 <= i < s.len() && is_parent_named(s[i], name) && forall|k: int|
                0 <= k < i ==> !is_parent_named(#[trigger] s[k], name),
            None => forall|k: int| 0 <= k < s.len() ==> !is_parent_named(#[trigger] s[k], name),
        },
    decreases s.len(),
{
    if s.len() > 0 {
        let t = s.subrange(0, s.len() - 1);
        lemma_first_parent(t, name);
        assert forall|k: int| 0 <= k < t.len() implies t[k] == s[k] by {}
    }
}

pub open spec fn opt_loc(o: Option<&EntryLocation>) -> Option<EntryLocation> {
    match o {
        Some(x) => Some(*x),
        None => None,
    }
}

/// The indices that a node itself holds refer into the slices.
pub open spec fn refs_ok(n: Node, ne: nat, ng: nat) -> bool {
    match n {
        Node::Leaf(i) => i < ne,
        Node::Parent { group: Some(g), .. } => g < ng,
        Node::Parent { group: None, .. } => true,
    }
}

/// Width of a node's name at `depth`, four columns per level, or of the
/// widest name below it.
pub open spec fn span_node(n: Node, entries: Seq<Entry>, groups: Seq<EntryGroup>, depth: nat) -> nat
    decreases n,
{
    let own = name_of(n, entries, groups).len() + 4 * depth;
    match n {
        Node::Parent { children, .. } => {
            let below = span_forest(children, entries, groups, depth + 1);
            if own >= below {
                own
            } else {
                below
            }
        },
        Node::Leaf(_) => own,
    }
}

/// The widest span over the nodes of a forest; zero for an empty one.
pub open spec fn span_forest(s: Seq<Node>, entries: Seq<Entry>, groups: Seq<EntryGroup>, depth: nat) -> nat
    decreases s,
{
    if s.len() == 0 {
        0
    } else {
        let a = span_forest(s.subrange(0, s.len() - 1), entries, groups, depth);
        let b = span_node(s[s.len() - 1], entries, groups, depth);
        if a >= b {
            a
        } else {
            b
        }
    }
}

pub proof fn lemma_span_bound(s: Seq<Node>, entries: Seq<Entry>, groups: Seq<EntryGroup>, depth: nat)
    ensures
        forall|k: int| 0 <= k < s.len() ==> span_node(#[trigger] s[k], entries, groups, depth) <= span_forest(s, entries, groups, depth),
        forall|k: int| 0 <= k <= s.len() ==> span_forest(#[trigger] s.subrange(0, k), entries, groups, depth) <= span_forest(s, entries, groups, depth),
    decreases s.len(),
{
    if s.len() > 0 {
        let t = s.subrange(0, s.len() - 1);
        lemma_span_bound(t, entries, groups, depth);
        assert forall|k: int| 0 <= k < s.len() implies span_node(#[trigger] s[k], entries, groups, depth) <= span_forest(s, entries, groups, depth) by {
            if k < s.len() - 1 {
                assert(t[k] == s[k]);
            }
        }
        assert forall|k: int| 0 <= k <= s.len() implies span_forest(#[trigger] s.subrange(0, k), entries, groups, depth) <= span_forest(s, entries, groups, depth) by {
            if k < s.len() {
                assert(t.subrange(0, k) =~= s.subrange(0, k));
            } else {
                assert(s.subrange(0, k) =~= s);
            }
        }
    }
}

pub proof fn lemma_first_parent_of(tree: Seq<EntryTree>, name: Seq<char>, r: Option<usize>)
    requires
        match r {
            Some(i) => i < tree.len() && is_parent_named(tree[i as int]@, name) && forall|k: int|
                0 <= k < i ==> !is_parent_named(#[trigger] tree[k]@, name),
            None => forall|k: int| 0 <= k < tree.len() ==> !is_parent_named(#[trigger] tree[k]@, name),
        },
    ensures
        first_parent(forest_view(tree), name) == match r {
            Some(i) => Some(i as int),
            None => None::<int>,
        },
{
    let f = forest_view(tree);
    lemma_forest_view(tree);
    lemma_first_parent(f, name);
    if let Some(j) = first_parent(f, name) {
        assert(f[j] == node_view(tree[j]));
        assert(is_parent_named(tree[j]@, name));
        if let Some(i) = r {
            assert(f[i as int] == node_view(tree[i as int]));
            if j < i {
                assert(!is_parent_named(tree[j]@, name));
            } else if i < j {
                assert(!is_parent_named(f[i as int], name));
            }
        }
    } else {
        if let Some(i) = r {
            assert(f[i as int] == node_view(tree[i as int]));
        }
    }
}

} // verus!
