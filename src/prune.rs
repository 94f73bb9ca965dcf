//! Pruning a forest by a filter on the display paths of its leaves.

use crate::entry::{Entry, EntryGroup};
use crate::model::{Node, forest_wf, lemma_wf_push, name_of, node_wf};
use vstd::prelude::*;

verus! {

/// The display path of a node named `name` below the path `pp`; segments
/// are joined by `::`.
pub open spec fn join_path(pp: Seq<char>, name: Seq<char>) -> Seq<char> {
    if pp.len() == 0 {
        name
    } else {
        pp + seq![':', ':'] + name
    }
}

/// A node below path `pp` after pruning: a leaf stays if `keep` holds of
/// its display path; a parent stays, with its pruned children, if any of
/// them stays.
pub open spec fn prune_node(n: Node, pp: Seq<char>, keep: spec_fn(Seq<char>) -> bool, entries: Seq<Entry>, groups: Seq<EntryGroup>) -> Option<Node>
    decreases n,
{
    let path = join_path(pp, name_of(n, entries, groups));
    match n {
        Node::Leaf(_) => if keep(path) {
            Some(n)
        } else {
            None
        },
        Node::Parent { raw_name, group, children } => {
            let c = prune_forest(children, path, keep, entries, groups);
            if c.len() > 0 {
                Some(Node::Parent { raw_name, group, children: c })
            } else {
                None
            }
        },
    }
}

/// The nodes of a forest below path `pp` that stay after pruning, in order.
pub open spec fn prune_forest(s: Seq<Node>, pp: Seq<char>, keep: spec_fn(Seq<char>) -> bool, entries: Seq<Entry>, groups: Seq<EntryGroup>) -> Seq<Node>
    decreases s,
{
    if s.len() == 0 {
        Seq::empty()
    } else {
        let r = prune_forest(s.subrange(0, s.len() - 1), pp, keep, entries, groups);
        match prune_node(s[s.len() - 1], pp, keep, entries, groups) {
            Some(x) => r.push(x),
            None => r,
        }
    }
}

/// Whether `filter` answers `true` for the path `p`.
pub open spec fn verdict<F: Fn(&str) -> bool>(filter: F, p: Seq<char>) -> bool {
    exists|s: &str| s@ == p && #[trigger] filter.ensures((s,), true)
}

pub open spec fn keep_of<F: Fn(&str) -> bool>(filter: F) -> spec_fn(Seq<char>) -> bool {
    |p: Seq<char>| verdict(filter, p)
}

/// The filter's answer depends on the characters of the path alone.
pub open spec fn path_determined<F: Fn(&str) -> bool>(filter: F) -> bool {
    forall|s1: &str, s2: &str, b1: bool, b2: bool|
        s1@ == s2@ && #[trigger] filter.ensures((s1,), b1) && #[trigger] filter.ensures((s2,), b2) ==> b1 == b2
}

/// Pruning keeps a forest well formed: no parent is left empty.
pub proof fn lemma_prune_wf(s: Seq<Node>, pp: Seq<char>, keep: spec_fn(Seq<char>) -> bool, entries: Seq<Entry>, groups: Seq<EntryGroup>)
    requires
        forest_wf(s, entries.len() as nat, groups.len() as nat),
    ensures
        forest_wf(prune_forest(s, pp, keep, entries, groups), entries.len() as nat, groups.len() as nat),
    decreases s,
{
    if s.len() > 0 {
        let t = s.subrange(0, s.len() - 1);
        assert forall|i: int| 0 <= i < t.len() implies node_wf(#[trigger] t[i], entries.len() as nat, groups.len() as nat) by {
            assert(t[i] == s[i]);
        }
        lemma_prune_wf(t, pp, keep, entries, groups);
        let x = s[s.len() - 1];
        assert(node_wf(x, entries.len() as nat, groups.len() as nat));
        if let Node::Parent { children, .. } = x {
            let path = join_path(pp, name_of(x, entries, groups));
            lemma_prune_wf(children, path, keep, entries, groups);
        }
        let r = prune_forest(t, pp, keep, entries, groups);
        if let Some(y) = prune_node(x, pp, keep, entries, groups) {
            lemma_wf_push(r, y, entries.len() as nat, groups.len() as nat);
        }
    }
}

/// Pruning with a filter that keeps every path leaves a well-formed forest
/// as it is.
pub proof fn lemma_prune_keep_all(s: Seq<Node>, pp: Seq<char>, keep: spec_fn(Seq<char>) -> bool, entries: Seq<Entry>, groups: Seq<EntryGroup>)
    requires
        forall|p: Seq<char>| #[trigger] keep(p),
        forest_wf(s, entries.len() as nat, groups.len() as nat),
    ensures
        prune_forest(s, pp, keep, entries, groups) == s,
    decreases s,
{
    if s.len() > 0 {
        let t = s.subrange(0, s.len() - 1);
        assert forall|i: int| 0 <= i < t.len() implies node_wf(#[trigger] t[i], entries.len() as nat, groups.len() as nat) by {
            assert(t[i] == s[i]);
        }
        lemma_prune_keep_all(t, pp, keep, entries, groups);
        let x = s[s.len() - 1];
        assert(node_wf(x, entries.len() as nat, groups.len() as nat));
        if let Node::Parent { children, .. } = x {
            let path = join_path(pp, name_of(x, entries, groups));
            lemma_prune_keep_all(children, path, keep, entries, groups);
        }
        assert(keep(join_path(pp, name_of(x, entries, groups))));
        assert(prune_node(x, pp, keep, entries, groups) == Some(x));
        assert(t.push(x) =~= s);
    } else {
        assert(s =~= Seq::<Node>::empty());
    }
}

/// Pruning with a filter that keeps no path leaves an empty forest.
pub proof fn lemma_prune_keep_none(s: Seq<Node>, pp: Seq<char>, keep: spec_fn(Seq<char>) -> bool, entries: Seq<Entry>, groups: Seq<EntryGroup>)
    requires
        forall|p: Seq<char>| !#[trigger] keep(p),
    ensures
        prune_forest(s, pp, keep, entries, groups).len() == 0,
    decreases s,
{
    if s.len() > 0 {
        let t = s.subrange(0, s.len() - 1);
        lemma_prune_keep_none(t, pp, keep, entries, groups);
        let x = s[s.len() - 1];
        if let Node::Parent { children, .. } = x {
            let path = join_path(pp, name_of(x, entries, groups));
            lemma_prune_keep_none(children, path, keep, entries, groups);
        }
        assert(!keep(join_path(pp, name_of(x, entries, groups))));
        assert(prune_node(x, pp, keep, entries, groups) is None);
    }
}

} // verus!
