//! Binding a group to the parent that its path reaches.

use crate::entry::{Entry, EntryGroup};
use crate::model::{Node, first_parent, forest_wf, is_parent_named, lemma_first_parent, location_of, name_of, node_wf};
use vstd::prelude::*;

verus! {

/// The parent reached by following the first parent of each name in `p`.
pub open spec fn node_at(f: Seq<Node>, p: Seq<Seq<char>>) -> Option<Node>
    decreases p.len(),
{
    if p.len() == 0 {
        None
    } else {
        match first_parent(f, p[0]) {
            None => None,
            Some(i) => if p.len() == 1 {
                Some(f[i])
            } else {
                node_at(f[i]->children, p.drop_first())
            },
        }
    }
}

/// The forest with group `g` bound to the parent at path `p`, if there is one.
pub open spec fn bind(f: Seq<Node>, p: Seq<Seq<char>>, g: nat) -> Seq<Node>
    decreases p.len(),
{
    if p.len() == 0 {
        f
    } else {
        match first_parent(f, p[0]) {
            None => f,
            Some(i) => if p.len() == 1 {
                f.update(i, Node::Parent { raw_name: f[i]->raw_name, group: Some(g), children: f[i]->children })
            } else {
                f.update(
                    i,
                    Node::Parent {
                        raw_name: f[i]->raw_name,
                        group: f[i]->group,
                        children: bind(f[i]->children, p.drop_first(), g),
                    },
                )
            },
        }
    }
}

/// Binding a group whose path reaches no parent leaves the forest as it was.
pub proof fn lemma_bind_unmatched(f: Seq<Node>, p: Seq<Seq<char>>, g: nat)
    requires
        node_at(f, p) is None,
    ensures
        bind(f, p, g) == f,
    decreases p.len(),
{
    if p.len() > 1 {
        if let Some(i) = first_parent(f, p[0]) {
            lemma_first_parent(f, p[0]);
            lemma_bind_unmatched(f[i]->children, p.drop_first(), g);
            assert(f.update(i, f[i]) =~= f);
        }
    }
}

/// Binding a group whose path reaches a parent makes that parent show the
/// group's display name and take the group's location; its raw name and
/// children stay.
pub proof fn lemma_bind_matched(f: Seq<Node>, p: Seq<Seq<char>>, g: nat, entries: Seq<Entry>, groups: Seq<EntryGroup>)
    requires
        node_at(f, p) is Some,
    ensures
        ({
            let n = node_at(f, p)->0;
            let m = node_at(bind(f, p, g), p)->0;
            &&& node_at(bind(f, p, g), p) is Some
            &&& m == Node::Parent { raw_name: n->raw_name, group: Some(g), children: n->children }
            &&& name_of(m, entries, groups) == groups[g as int].display_name@
            &&& location_of(m, entries, groups) == Some(groups[g as int].location)
        }),
    decreases p.len(),
{
    let i = first_parent(f, p[0])->0;
    lemma_first_parent(f, p[0]);
    let b = bind(f, p, g);
    assert(is_parent_named(b[i], p[0]));
    assert forall|k: int| 0 <= k < i implies !is_parent_named(#[trigger] b[k], p[0]) by {
        assert(b[k] == f[k]);
    }
    lemma_first_parent(b, p[0]);
    if first_parent(b, p[0]) != Some(i) {
        let j = first_parent(b, p[0])->0;
        assert(!is_parent_named(b[i], p[0]) || j <= i);
        if j < i {
            assert(b[j] == f[j]);
        }
    }
    if p.len() > 1 {
        lemma_bind_matched(f[i]->children, p.drop_first(), g, entries, groups);
    }
}

/// Binding a group keeps the forest well formed.
pub proof fn lemma_bind_wf(f: Seq<Node>, p: Seq<Seq<char>>, g: nat, ne: nat, ng: nat)
    requires
        forest_wf(f, ne, ng),
        g < ng,
    ensures
        forest_wf(bind(f, p, g), ne, ng),
        bind(f, p, g).len() == f.len(),
    decreases p.len(),
{
    if p.len() > 0 {
        if let Some(i) = first_parent(f, p[0]) {
            lemma_first_parent(f, p[0]);
            assert(node_wf(f[i], ne, ng));
            if p.len() > 1 {
                lemma_bind_wf(f[i]->children, p.drop_first(), g, ne, ng);
            }
            let b = bind(f, p, g);
            assert(node_wf(b[i], ne, ng));
            assert forall|k: int| 0 <= k < b.len() implies node_wf(#[trigger] b[k], ne, ng) by {
                if k != i {
                    assert(b[k] == f[k]);
                }
            }
        }
    }
}

} // verus!
