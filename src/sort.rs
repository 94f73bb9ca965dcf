//! The order that siblings are sorted into, and the shape of a forest with
//! the order of siblings forgotten.

use crate::entry::{Entry, EntryGroup, SortingAttr, cmp_opt_location, lemma_cmp_opt_location_flip, tie_breakers};
use crate::model::{Node, kind_of, location_of, name_of};
use crate::order::{cmp_chars, cmp_int, flip, lemma_cmp_chars_flip, lemma_cmp_int_flip};
use std::cmp::Ordering;
use vstd::multiset::Multiset;
use vstd::prelude::*;

verus! {

/// Two nodes compared by one attribute.
pub open spec fn cmp_attr(a: Node, b: Node, attr: SortingAttr, entries: Seq<Entry>, groups: Seq<EntryGroup>) -> Ordering {
    match attr {
        SortingAttr::Kind => cmp_int(kind_of(a), kind_of(b)),
        SortingAttr::Name => cmp_chars(name_of(a, entries, groups), name_of(b, entries, groups)),
        SortingAttr::Location => cmp_opt_location(location_of(a, entries, groups), location_of(b, entries, groups)),
    }
}

/// Two nodes compared by `attr`, ties broken by the other attributes.
#[verifier::opaque]
pub open spec fn cmp_nodes(a: Node, b: Node, attr: SortingAttr, entries: Seq<Entry>, groups: Seq<EntryGroup>) -> Ordering {
    let c = tie_breakers(attr);
    let o1 = cmp_attr(a, b, c[0], entries, groups);
    let o2 = cmp_attr(a, b, c[1], entries, groups);
    if o1 != Ordering::Equal {
        o1
    } else if o2 != Ordering::Equal {
        o2
    } else {
        cmp_attr(a, b, c[2], entries, groups)
    }
}

/// The order that siblings are sorted into: `cmp_nodes`, turned round as a
/// whole when `reverse` is set.
pub open spec fn ordered(a: Node, b: Node, attr: SortingAttr, reverse: bool, entries: Seq<Entry>, groups: Seq<EntryGroup>) -> Ordering {
    if reverse {
        flip(cmp_nodes(a, b, attr, entries, groups))
    } else {
        cmp_nodes(a, b, attr, entries, groups)
    }
}

pub proof fn lemma_ordered_flip(a: Node, b: Node, attr: SortingAttr, reverse: bool, entries: Seq<Entry>, groups: Seq<EntryGroup>)
    ensures
        ordered(b, a, attr, reverse, entries, groups) == flip(ordered(a, b, attr, reverse, entries, groups)),
{
    reveal(cmp_nodes);
    lemma_cmp_int_flip(kind_of(a), kind_of(b));
    lemma_cmp_chars_flip(name_of(a, entries, groups), name_of(b, entries, groups));
    lemma_cmp_opt_location_flip(location_of(a, entries, groups), location_of(b, entries, groups));
}

/// Each sibling orders no later than the next one.
pub open spec fn level_sorted(s: Seq<Node>, attr: SortingAttr, reverse: bool, entries: Seq<Entry>, groups: Seq<EntryGroup>) -> bool {
    forall|i: int| 0 <= i < s.len() - 1 ==> #[trigger] ordered(s[i], s[i + 1], attr, reverse, entries, groups) != Ordering::Greater
}

/// Siblings are sorted at every level below a node.
pub open spec fn deep_sorted(n: Node, attr: SortingAttr, reverse: bool, entries: Seq<Entry>, groups: Seq<EntryGroup>) -> bool
    decreases n,
{
    match n {
        Node::Leaf(_) => true,
        Node::Parent { children, .. } => {
            &&& level_sorted(children, attr, reverse, entries, groups)
            &&& forall|i: int| 0 <= i < children.len() ==> deep_sorted(#[trigger] children[i], attr, reverse, entries, groups)
        },
    }
}

/// Siblings are sorted at every level of a forest.
pub open spec fn forest_sorted(s: Seq<Node>, attr: SortingAttr, reverse: bool, entries: Seq<Entry>, groups: Seq<EntryGroup>) -> bool {
    &&& level_sorted(s, attr, reverse, entries, groups)
    &&& forall|i: int| 0 <= i < s.len() ==> deep_sorted(#[trigger] s[i], attr, reverse, entries, groups)
}

/// A node with the order of siblings forgotten at every level.
pub enum Shape {
    Leaf(nat),
    Parent { raw_name: Seq<char>, group: Option<nat>, children: Multiset<Shape> },
}

pub open spec fn shape_of(n: Node) -> Shape
    decreases n,
{
    match n {
        Node::Leaf(i) => Shape::Leaf(i),
        Node::Parent { raw_name, group, children } => Shape::Parent { raw_name, group, children: shapes(children) },
    }
}

/// The shapes of the nodes of a forest, in no order.
pub open spec fn shapes(s: Seq<Node>) -> Multiset<Shape>
    decreases s,
{
    if s.len() == 0 {
        Multiset::empty()
    } else {
        shapes(s.subrange(0, s.len() - 1)).insert(shape_of(s[s.len() - 1]))
    }
}

pub proof fn lemma_shapes_insert(s: Seq<Node>, j: int, x: Node)
    requires
        0 <= j <= s.len(),
    ensures
        shapes(s.insert(j, x)) =~= shapes(s).insert(shape_of(x)),
    decreases s.len(),
{
    let t = s.insert(j, x);
    if j == s.len() {
        assert(t.subrange(0, t.len() - 1) =~= s);
    } else {
        let u = s.subrange(0, s.len() - 1);
        lemma_shapes_insert(u, j, x);
        assert(t.subrange(0, t.len() - 1) =~= u.insert(j, x));
        assert(t[t.len() - 1] == s[s.len() - 1]);
    }
}

pub proof fn lemma_shapes_move(s: Seq<Node>, i: int, j: int)
    requires
        0 <= j <= i < s.len(),
    ensures
        shapes(s.remove(i).insert(j, s[i])) == shapes(s),
{
    lemma_shapes_insert(s.remove(i), j, s[i]);
    lemma_shapes_insert(s.remove(i), i, s[i]);
    assert(s.remove(i).insert(i, s[i]) =~= s);
}

pub proof fn lemma_shapes_pointwise(a: Seq<Node>, b: Seq<Node>)
    requires
        a.len() == b.len(),
        forall|t: int| 0 <= t < a.len() ==> shape_of(#[trigger] a[t]) == shape_of(b[t]),
    ensures
        shapes(a) == shapes(b),
    decreases a.len(),
{
    if a.len() > 0 {
        let a1 = a.subrange(0, a.len() - 1);
        let b1 = b.subrange(0, b.len() - 1);
        assert forall|t: int| 0 <= t < a1.len() implies shape_of(#[trigger] a1[t]) == shape_of(b1[t]) by {
            assert(a1[t] == a[t]);
            assert(b1[t] == b[t]);
        }
        lemma_shapes_pointwise(a1, b1);
    }
}

/// Where element `t` comes from when the element at `i` moves to `j <= i`.
pub open spec fn moved_from(t: int, i: int, j: int) -> int {
    if t < j {
        t
    } else if t == j {
        i
    } else if t <= i {
        t - 1
    } else {
        t
    }
}

pub proof fn lemma_move<A>(s: Seq<A>, i: int, j: int)
    requires
        0 <= j <= i < s.len(),
    ensures
        s.remove(i).insert(j, s[i]).len() == s.len(),
        forall|t: int| 0 <= t < s.len() ==> #[trigger] s.remove(i).insert(j, s[i])[t] == s[moved_from(t, i, j)],
{
}

} // verus!
