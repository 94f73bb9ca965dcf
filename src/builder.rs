//! What building a forest from entries yields, and how many leaves of each
//! entry sit at each path.

use crate::entry::Entry;
use crate::model::{Node, first_parent};
use vstd::prelude::*;

verus! {

/// How many leaves of entry `e` sit at raw path `p` below a node.
pub open spec fn count_node(n: Node, p: Seq<Seq<char>>, e: nat) -> nat
    decreases n,
{
    match n {
        Node::Leaf(i) => if p.len() == 0 && i == e {
            1
        } else {
            0
        },
        Node::Parent { raw_name, children, .. } => if p.len() > 0 && p[0] == raw_name {
            count_forest(children, p.drop_first(), e)
        } else {
            0
        },
    }
}

/// How many leaves of entry `e` sit at raw path `p` in a forest.
pub open spec fn count_forest(s: Seq<Node>, p: Seq<Seq<char>>, e: nat) -> nat
    decreases s,
{
    if s.len() == 0 {
        0
    } else {
        count_forest(s.subrange(0, s.len() - 1), p, e) + count_node(s[s.len() - 1], p, e)
    }
}

pub proof fn lemma_count_push(s: Seq<Node>, x: Node, p: Seq<Seq<char>>, e: nat)
    ensures
        count_forest(s.push(x), p, e) == count_forest(s, p, e) + count_node(x, p, e),
{
    assert(s.push(x).subrange(0, s.len() as int) =~= s);
}

pub proof fn lemma_count_update(s: Seq<Node>, i: int, x: Node, p: Seq<Seq<char>>, e: nat)
    requires
        0 <= i < s.len(),
    ensures
        count_forest(s.update(i, x), p, e) + count_node(s[i], p, e) == count_forest(s, p, e)
            + count_node(x, p, e),
    decreases s.len(),
{
    let t = s.subrange(0, s.len() - 1);
    if i < s.len() - 1 {
        lemma_count_update(t, i, x, p, e);
        assert(s.update(i, x).subrange(0, s.len() - 1) =~= t.update(i, x));
    } else {
        assert(s.update(i, x).subrange(0, s.len() - 1) =~= t);
    }
}

pub proof fn lemma_seq_split(q: Seq<Seq<char>>)
    requires
        q.len() > 0,
    ensures
        q =~= seq![q[0]] + q.drop_first(),
{
}

/// A chain of parents named by `p` that ends in a leaf of entry `e`.
pub open spec fn chain(e: nat, p: Seq<Seq<char>>) -> Node
    decreases p.len(),
{
    if p.len() == 0 {
        Node::Leaf(e)
    } else {
        Node::Parent { raw_name: p[0], group: None, children: seq![chain(e, p.drop_first())] }
    }
}

/// The forest with a leaf of entry `e` added at path `p`: down the first
/// parent of each name while one exists, then a new chain appended.
pub open spec fn insert_leaf(f: Seq<Node>, e: nat, p: Seq<Seq<char>>) -> Seq<Node>
    decreases p.len(),
{
    if p.len() > 0 && first_parent(f, p[0]) is Some {
        let i = first_parent(f, p[0])->0;
        f.update(
            i,
            Node::Parent {
                raw_name: f[i]->raw_name,
                group: f[i]->group,
                children: insert_leaf(f[i]->children, e, p.drop_first()),
            },
        )
    } else {
        f.push(chain(e, p))
    }
}

/// The forest built from `entries`, one entry after another.
pub open spec fn build(entries: Seq<Entry>) -> Seq<Node>
    decreases entries.len(),
{
    if entries.len() == 0 {
        Seq::empty()
    } else {
        insert_leaf(
            build(entries.subrange(0, entries.len() - 1)),
            (entries.len() - 1) as nat,
            entries[entries.len() - 1].path_spec(),
        )
    }
}

} // verus!
