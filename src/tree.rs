//! The display tree of entries and the operations on it.

use crate::bind::bind;
use crate::builder::{build, chain, count_forest, count_node, insert_leaf, lemma_count_push, lemma_count_update, lemma_seq_split};
use crate::entry::{Entry, EntryGroup, EntryLocation, SortingAttr, path_view, tie_breakers};
use crate::model::{Node, distinct_below, forest_distinct, forest_view, forest_wf, is_parent_named, kind_of, lemma_first_parent_of, lemma_forest_view, lemma_span_bound, lemma_wf_push, level_distinct, location_of, min_location, name_of, node_view, node_wf, opt_loc, refs_ok, span_forest, span_node};
use crate::order::compare_str;
use crate::prune::{join_path, keep_of, lemma_prune_wf, path_determined, prune_forest, prune_node, verdict};
use crate::sort::{cmp_attr, cmp_nodes, deep_sorted, forest_sorted, lemma_move, lemma_ordered_flip, lemma_shapes_move, lemma_shapes_pointwise, moved_from, ordered, shape_of, shapes};
use std::cmp::Ordering;
use vstd::prelude::*;
use vstd::string::StrSliceExecFns;

verus! {

/// A node of the display tree. Entries and groups are referred to by their
/// index in the slices that the caller holds.
pub enum EntryTree {
    Leaf(usize),
    Parent { raw_name: String, group: Option<usize>, children: Vec<EntryTree> },
}

impl EntryTree {
    /// Index of the first parent among `tree` whose raw name is `name`.
    fn get_children(tree: &Vec<EntryTree>, name: &String) -> (r: Option<usize>)
        ensures
            match r {
                Some(i) => i < tree@.len() && is_parent_named(tree@[i as int]@, name@) && forall|k: int|
                    0 <= k < i ==> !is_parent_named(#[trigger] tree@[k]@, name@),
                None => forall|k: int| 0 <= k < tree@.len() ==> !is_parent_named(#[trigger] tree@[k]@, name@),
            },
    {
        let mut i: usize = 0;
        while i < tree.len()
            invariant
                i <= tree@.len(),
                forall|k: int| 0 <= k < i ==> !is_parent_named(#[trigger] tree@[k]@, name@),
            decreases tree@.len() - i,
        {
            match &tree[i] {
                EntryTree::Parent { raw_name, .. } => {
                    if *raw_name == *name {
                        return Some(i);
                    }
                },
                EntryTree::Leaf(_) => {},
            }
            i = i + 1;
        }
        None
    }

    /// A chain of parents named by `path[depth..]` that ends in a leaf of `entry`.
    fn from_path(entry: usize, path: &Vec<String>, depth: usize, Ghost(ne): Ghost<nat>) -> (r: EntryTree)
        requires
            depth < path@.len(),
            entry < ne,
        ensures
            r@ == chain(entry as nat, path_view(path@).subrange(depth as int, path@.len() as int)),
            is_parent_named(r@, path@[depth as int]@),
            node_wf(r@, ne, 0),
            distinct_below(r@),
            forall|q: Seq<Seq<char>>, j: nat| #[trigger] count_node(r@, q, j) == if q == path_view(path@).subrange(depth as int, path@.len() as int) && j == entry {
                1nat
            } else {
                0nat
            },
        decreases path@.len() - depth,
    {
        let child = if depth < path.len() - 1 {
            Self::from_path(entry, path, depth + 1, Ghost(ne))
        } else {
            EntryTree::Leaf(entry)
        };
        let mut children: Vec<EntryTree> = Vec::new();
        children.push(child);
        let r = EntryTree::Parent { raw_name: path[depth].clone(), group: None, children };
        proof {
            let cs = seq![child];
            assert(children@ =~= cs);
            lemma_forest_view(children@);
            assert(forest_view(children@) =~= seq![child@]);
            let pv = path_view(path@).subrange(depth as int, path@.len() as int);
            assert forall|q: Seq<Seq<char>>, j: nat| #[trigger] count_node(r@, q, j) == if q == pv && j == entry {
                1nat
            } else {
                0nat
            } by {
                assert(pv.drop_first() =~= path_view(path@).subrange(depth + 1, path@.len() as int));
                if q.len() > 0 {
                    assert(Seq::<Node>::empty().push(child@) =~= seq![child@]);
                    lemma_count_push(Seq::<Node>::empty(), child@, q.drop_first(), j);
                    lemma_seq_split(q);
                    lemma_seq_split(pv);
                }
            }
            assert(node_wf(child@, ne, 0));
            assert(distinct_below(child@));
            assert(pv[0] == path@[depth as int]@);
            assert(pv.drop_first() =~= path_view(path@).subrange(depth + 1, path@.len() as int));
            assert(child@ == chain(entry as nat, pv.drop_first()));
            assert(level_distinct(seq![child@]));
        }
        r
    }

    /// Adds a leaf of `entry` at path `path[depth..]` below `tree`, reusing
    /// the first parent of each matching name.
    fn insert_entry(tree: &mut Vec<EntryTree>, entry: usize, path: &Vec<String>, depth: usize, Ghost(ne): Ghost<nat>)
        requires
            depth <= path@.len(),
            entry < ne,
            forest_wf(forest_view(old(tree)@), ne, 0),
            forest_distinct(forest_view(old(tree)@)),
        ensures
            forest_view(final(tree)@) == insert_leaf(
                forest_view(old(tree)@),
                entry as nat,
                path_view(path@).subrange(depth as int, path@.len() as int),
            ),
            final(tree)@.len() >= old(tree)@.len(),
            forest_wf(forest_view(final(tree)@), ne, 0),
            forest_distinct(forest_view(final(tree)@)),
            forall|q: Seq<Seq<char>>, j: nat| #[trigger] count_forest(forest_view(final(tree)@), q, j) == count_forest(forest_view(old(tree)@), q, j) + if q == path_view(path@).subrange(depth as int, path@.len() as int) && j == entry {
                1nat
            } else {
                0nat
            },
        decreases path@.len() - depth,
    {
        let ghost pv = path_view(path@).subrange(depth as int, path@.len() as int);
        let ghost old_f = forest_view(tree@);
        proof {
            lemma_forest_view(tree@);
        }
        if depth < path.len() {
            let found = Self::get_children(tree, &path[depth]);
            proof {
                lemma_first_parent_of(tree@, path@[depth as int]@, found);
                assert(pv[0] == path@[depth as int]@);
                assert(pv.drop_first() =~= path_view(path@).subrange(depth + 1, path@.len() as int));
            }
            match found {
                Some(i) => {
                    let ghost old_node = tree@[i as int];
                    proof {
                        assert(node_wf(old_f[i as int], ne, 0));
                        assert(distinct_below(old_f[i as int]));
                    }
                    let node = &mut tree[i];
                    match node {
                        EntryTree::Parent { children, .. } => {
                            proof {
                                lemma_forest_view(children@);
                            }
                            Self::insert_entry(children, entry, path, depth + 1, Ghost(ne));
                        },
                        EntryTree::Leaf(_) => {},
                    }
                    proof {
                        let new_node = tree@[i as int];
                        lemma_forest_view(tree@);
                        assert(forest_view(tree@) =~= old_f.update(i as int, new_node@));
                        assert(pv.drop_first() =~= path_view(path@).subrange(depth + 1, path@.len() as int));
                        assert forall|q: Seq<Seq<char>>, j: nat| #[trigger] count_forest(forest_view(tree@), q, j) == count_forest(old_f, q, j) + if q == pv && j == entry {
                            1nat
                        } else {
                            0nat
                        } by {
                            lemma_count_update(old_f, i as int, new_node@, q, j);
                            assert(old_f[i as int] == old_node@);
                            match (old_node, new_node) {
                                (EntryTree::Parent { raw_name: r0, children: c0, .. }, EntryTree::Parent { raw_name: r1, children: c1, .. }) => {
                                    assert(r0 == r1);
                                    assert(pv[0] == r0@);
                                    if q.len() > 0 && q[0] == r0@ {
                                        assert(count_forest(forest_view(c1@), q.drop_first(), j) == count_forest(forest_view(c0@), q.drop_first(), j) + if q.drop_first() == pv.drop_first() && j == entry {
                                            1nat
                                        } else {
                                            0nat
                                        });
                                        lemma_seq_split(q);
                                        lemma_seq_split(pv);
                                    }
                                },
                                _ => {},
                            }
                        }
                        let nf = forest_view(tree@);
                        assert forall|k: int| 0 <= k < nf.len() implies (nf[k] is Parent <==> old_f[k] is Parent) && (nf[k] is Parent ==> nf[k]->raw_name == old_f[k]->raw_name) && distinct_below(#[trigger] nf[k]) by {
                            if k == i {
                                lemma_forest_view(new_node->children@);
                                assert(distinct_below(old_f[k]));
                            }
                        }
                        assert(level_distinct(nf)) by {
                            assert forall|a: int, b: int| #![trigger nf[a], nf[b]] 0 <= a < b < nf.len() && nf[a] is Parent && nf[b] is Parent implies nf[a]->raw_name != nf[b]->raw_name by {
                                assert(distinct_below(nf[a]));
                                assert(distinct_below(nf[b]));
                                assert(old_f[a] is Parent && old_f[b] is Parent);
                            }
                        }
                        assert forall|k: int| 0 <= k < forest_view(tree@).len() implies node_wf(#[trigger] forest_view(tree@)[k], ne, 0) by {
                            if k == i {
                                lemma_forest_view(new_node->children@);
                                lemma_forest_view(old_node->children@);
                                assert(node_wf(old_f[k], ne, 0));
                            } else {
                                assert(node_wf(old_f[k], ne, 0));
                            }
                        }
                    }
                },
                None => {
                    let sub = Self::from_path(entry, path, depth, Ghost(ne));
                    tree.push(sub);
                    proof {
                        lemma_forest_view(tree@);
                        assert(forest_view(tree@) =~= old_f.push(sub@));
                        lemma_wf_push(old_f, sub@, ne, 0);
                        let nf = old_f.push(sub@);
                        assert forall|a: int, b: int| #![trigger nf[a], nf[b]] 0 <= a < b < nf.len() && nf[a] is Parent && nf[b] is Parent implies nf[a]->raw_name != nf[b]->raw_name by {
                            if b == old_f.len() {
                                assert(nf[a] == old_f[a]);
                                assert(!is_parent_named(tree@[a]@, path@[depth as int]@));
                                assert(forest_view(tree@)[a] == node_view(tree@[a]));
                            } else {
                                assert(nf[a] == old_f[a]);
                                assert(nf[b] == old_f[b]);
                            }
                        }
                        assert forall|k: int| 0 <= k < nf.len() implies distinct_below(#[trigger] nf[k]) by {
                            if k < old_f.len() {
                                assert(nf[k] == old_f[k]);
                            }
                        }
                        assert forall|q: Seq<Seq<char>>, j: nat| #[trigger] count_forest(forest_view(tree@), q, j) == count_forest(old_f, q, j) + if q == pv && j == entry {
                            1nat
                        } else {
                            0nat
                        } by {
                            lemma_count_push(old_f, sub@, q, j);
                        }
                    }
                },
            }
        } else {
            tree.push(EntryTree::Leaf(entry));
            proof {
                let leaf = EntryTree::Leaf(entry);
                assert(pv.len() == 0);
                assert(chain(entry as nat, pv) == leaf@);
                lemma_forest_view(tree@);
                assert(forest_view(tree@) =~= old_f.push(leaf@));
                lemma_wf_push(old_f, leaf@, ne, 0);
                let nf = old_f.push(leaf@);
                assert forall|a: int, b: int| #![trigger nf[a], nf[b]] 0 <= a < b < nf.len() && nf[a] is Parent && nf[b] is Parent implies nf[a]->raw_name != nf[b]->raw_name by {
                    assert(nf[a] == old_f[a]);
                    assert(nf[b] == old_f[b]);
                }
                assert forall|k: int| 0 <= k < nf.len() implies distinct_below(#[trigger] nf[k]) by {
                    if k < old_f.len() {
                        assert(nf[k] == old_f[k]);
                    }
                }
                assert(pv =~= Seq::<Seq<char>>::empty());
                assert forall|q: Seq<Seq<char>>, j: nat| #[trigger] count_forest(forest_view(tree@), q, j) == count_forest(old_f, q, j) + if q == pv && j == entry {
                    1nat
                } else {
                    0nat
                } by {
                    lemma_count_push(old_f, leaf@, q, j);
                    if q.len() == 0 {
                        assert(q =~= pv);
                    }
                }
            }
        }
    }

    /// Builds a forest from `entries`, in their order: each entry becomes a
    /// leaf below the chain of parents named by its path segments.
    pub fn from_entries(entries: &[Entry]) -> (r: Vec<EntryTree>)
        ensures
            forest_view(r@) == build(entries@),
            forest_wf(forest_view(r@), entries@.len() as nat, 0),
            forest_distinct(forest_view(r@)),
            forall|e: int| 0 <= e < entries@.len() ==> #[trigger] count_forest(forest_view(r@), entries@[e].path_spec(), e as nat) == 1,
            forall|p: Seq<Seq<char>>, e: nat| #[trigger] count_forest(forest_view(r@), p, e) > 0 ==> e < entries@.len() && p == entries@[e as int].path_spec(),
    {
        let mut result: Vec<EntryTree> = Vec::new();
        let ghost ne = entries@.len() as nat;
        let mut k: usize = 0;
        proof {
            lemma_forest_view(result@);
        }
        while k < entries.len()
            invariant
                k <= entries@.len(),
                ne == entries@.len(),
                forest_view(result@) == build(entries@.subrange(0, k as int)),
                forest_wf(forest_view(result@), ne, 0),
                forest_distinct(forest_view(result@)),
                forall|p: Seq<Seq<char>>, e: nat| #[trigger] count_forest(forest_view(result@), p, e) == if e < k && p == entries@[e as int].path_spec() {
                    1nat
                } else {
                    0nat
                },
            decreases entries@.len() - k,
        {
            let ghost before = forest_view(result@);
            Self::insert_entry(&mut result, k, &entries[k].path, 0, Ghost(ne));
            proof {
                assert(path_view(entries@[k as int].path@).subrange(0, entries@[k as int].path@.len() as int) =~= entries@[k as int].path_spec());
                assert(entries@.subrange(0, k + 1).subrange(0, k as int) =~= entries@.subrange(0, k as int));
                assert(entries@.subrange(0, k + 1)[k as int] == entries@[k as int]);
            }
            k = k + 1;
        }
        proof {
            assert(entries@.subrange(0, entries@.len() as int) =~= entries@);
            assert forall|e: int| 0 <= e < entries@.len() implies #[trigger] count_forest(forest_view(result@), entries@[e].path_spec(), e as nat) == 1 by {}
        }
        result
    }

    /// Binds `g` to the parent at the rest of the group's path from `depth` on.
    fn bind_at(tree: &mut Vec<EntryTree>, group: &EntryGroup, g: usize, depth: usize)
        requires
            depth <= group.path@.len(),
        ensures
            forest_view(final(tree)@) == bind(
                forest_view(old(tree)@),
                group.full_path().subrange(depth as int, group.full_path().len() as int),
                g as nat,
            ),
        decreases group.path@.len() - depth,
    {
        let ghost full = group.full_path();
        let ghost p = full.subrange(depth as int, full.len() as int);
        let ghost old_f = forest_view(tree@);
        proof {
            lemma_forest_view(tree@);
            assert(p.drop_first() =~= full.subrange(depth + 1, full.len() as int));
        }
        let name = if depth < group.path.len() {
            &group.path[depth]
        } else {
            &group.raw_name
        };
        let found = Self::get_children(tree, name);
        proof {
            assert(p[0] == name@);
            lemma_first_parent_of(tree@, name@, found);
        }
        match found {
            None => {},
            Some(i) => {
                if depth == group.path.len() {
                    match &mut tree[i] {
                        EntryTree::Parent { group: slot, .. } => {
                            *slot = Some(g);
                        },
                        EntryTree::Leaf(_) => {},
                    }
                } else {
                    match &mut tree[i] {
                        EntryTree::Parent { children, .. } => {
                            Self::bind_at(children, group, g, depth + 1);
                        },
                        EntryTree::Leaf(_) => {},
                    }
                }
                proof {
                    lemma_forest_view(tree@);
                    assert(forest_view(tree@) =~= bind(old_f, p, g as nat));
                }
            },
        }
    }

    /// Binds group `group` to the parent whose raw names from the root match
    /// the group's path followed by its raw name, taking the first parent of
    /// each name. Where no parent matches, nothing changes; a group already
    /// bound there is replaced.
    pub fn insert_group(tree: &mut Vec<EntryTree>, groups: &[EntryGroup], group: usize)
        requires
            group < groups@.len(),
        ensures
            forest_view(final(tree)@) == bind(forest_view(old(tree)@), groups@[group as int].full_path(), group as nat),
    {
        let gr = &groups[group];
        Self::bind_at(tree, gr, group, 0);
        proof {
            assert(gr.full_path().subrange(0, gr.full_path().len() as int) =~= gr.full_path());
        }
    }

    /// The node's children; none for a leaf.
    pub fn children(&self) -> (r: &[EntryTree])
        ensures
            match self {
                EntryTree::Leaf(_) => r@.len() == 0,
                EntryTree::Parent { children, .. } => r@ == children@,
            },
    {
        match self {
            EntryTree::Leaf(_) => &[],
            EntryTree::Parent { children, .. } => children.as_slice(),
        }
    }

    /// 0 for a leaf, 1 for a parent: leaves order before parents.
    pub fn kind(&self) -> (r: i32)
        ensures
            r == kind_of(self@),
    {
        match self {
            EntryTree::Leaf(_) => 0,
            EntryTree::Parent { .. } => 1,
        }
    }

    /// The name the node is shown by: the entry's display name for a leaf,
    /// the bound group's display name, or the raw name without `r#`.
    pub fn display_name<'a>(&'a self, entries: &'a [Entry], groups: &'a [EntryGroup]) -> (r: &'a str)
        requires
            refs_ok(self@, entries@.len() as nat, groups@.len() as nat),
        ensures
            r@ == name_of(self@, entries@, groups@),
    {
        match self {
            EntryTree::Leaf(i) => entries[*i].display_name.as_str(),
            EntryTree::Parent { group: Some(g), .. } => groups[*g].display_name.as_str(),
            EntryTree::Parent { raw_name, group: None, .. } => {
                let raw = raw_name.as_str();
                let len = raw.unicode_len();
                if len >= 2 && raw.get_char(0) == 'r' && raw.get_char(1) == '#' {
                    raw.substring_char(2, len)
                } else {
                    raw
                }
            },
        }
    }

    /// The location that the node orders by: its entry's or group's own, or
    /// for an ungrouped parent the earliest among its children.
    #[verifier::loop_isolation(false)]
    fn location<'a>(&'a self, entries: &'a [Entry], groups: &'a [EntryGroup]) -> (r: Option<&'a EntryLocation>)
        requires
            node_wf(self@, entries@.len() as nat, groups@.len() as nat),
        ensures
            opt_loc(r) == location_of(self@, entries@, groups@),
        decreases self,
    {
        match self {
            EntryTree::Leaf(i) => Some(&entries[*i].location),
            EntryTree::Parent { group: Some(g), .. } => Some(&groups[*g].location),
            EntryTree::Parent { group: None, children, .. } => {
                let ghost cv = forest_view(children@);
                proof {
                    lemma_forest_view(children@);
                }
                let mut best: Option<&EntryLocation> = None;
                let mut k: usize = 0;
                while k < children.len()
                    invariant
                        k <= children@.len(),
                        cv == forest_view(children@),
                        cv.len() == children@.len(),
                        forall|j: int| 0 <= j < children@.len() ==> #[trigger] cv[j] == node_view(children@[j]),
                        forall|j: int| 0 <= j < cv.len() ==> node_wf(#[trigger] cv[j], entries@.len() as nat, groups@.len() as nat),
                        opt_loc(best) == min_location(cv.subrange(0, k as int), entries@, groups@),
                    decreases children@.len() - k,
                {
                    proof {
                        assert(cv[k as int] == node_view(children@[k as int]));
                        assert(node_wf(cv[k as int], entries@.len() as nat, groups@.len() as nat));
                        assert(decreases_to!(*self => children@[k as int]));
                    }
                    let here = children[k].location(entries, groups);
                    proof {
                        assert(cv.subrange(0, k + 1).subrange(0, k as int) =~= cv.subrange(0, k as int));
                        assert(cv.subrange(0, k + 1)[k as int] == cv[k as int]);
                    }
                    match (best, here) {
                        (None, _) => {
                            best = here;
                        },
                        (Some(b), Some(h)) => {
                            if let Ordering::Less = h.compare(b) {
                                best = here;
                            }
                        },
                        (Some(_), None) => {},
                    }
                    k = k + 1;
                }
                proof {
                    assert(cv.subrange(0, cv.len() as int) =~= cv);
                }
                best
            },
        }
    }

    /// The widest name span in `tree`: each node's display-name length in
    /// characters plus four columns per level of `depth`, the maximum over all
    /// nodes and their descendants one level deeper; 0 for an empty forest.
    pub fn max_name_span(tree: &[EntryTree], entries: &[Entry], groups: &[EntryGroup], depth: usize) -> (r: usize)
        requires
            forest_wf(forest_view(tree@), entries@.len() as nat, groups@.len() as nat),
            span_forest(forest_view(tree@), entries@, groups@, depth as nat) <= usize::MAX,
        ensures
            r == span_forest(forest_view(tree@), entries@, groups@, depth as nat),
        decreases tree@,
    {
        let ghost f = forest_view(tree@);
        proof {
            lemma_forest_view(tree@);
            lemma_span_bound(f, entries@, groups@, depth as nat);
        }
        let mut best: usize = 0;
        let mut k: usize = 0;
        while k < tree.len()
            invariant
                k <= tree@.len(),
                f == forest_view(tree@),
                f.len() == tree@.len(),
                forall|j: int| 0 <= j < tree@.len() ==> #[trigger] f[j] == node_view(tree@[j]),
                forest_wf(f, entries@.len() as nat, groups@.len() as nat),
                span_forest(f, entries@, groups@, depth as nat) <= usize::MAX,
                forall|j: int| 0 <= j < f.len() ==> span_node(#[trigger] f[j], entries@, groups@, depth as nat) <= span_forest(f, entries@, groups@, depth as nat),
                best == span_forest(f.subrange(0, k as int), entries@, groups@, depth as nat),
            decreases tree@.len() - k,
        {
            let node = &tree[k];
            proof {
                assert(node_wf(f[k as int], entries@.len() as nat, groups@.len() as nat));
                assert(f.subrange(0, k + 1).subrange(0, k as int) =~= f.subrange(0, k as int));
                assert(f.subrange(0, k + 1)[k as int] == f[k as int]);
            }
            let name_len = node.display_name(entries, groups).unicode_len();
            assert(span_node(f[k as int], entries@, groups@, depth as nat) <= usize::MAX);
            let own = name_len + depth * 4;
            let span = match node {
                EntryTree::Parent { children, .. } => {
                    proof {
                        lemma_forest_view(children@);
                        assert(forest_view(children@).len() > 0);
                        lemma_span_bound(forest_view(children@), entries@, groups@, depth as nat + 1);
                        assert(span_node(forest_view(children@)[0], entries@, groups@, depth as nat + 1) >= 4 * (depth + 1));
                    }
                    let below = Self::max_name_span(children.as_slice(), entries, groups, depth + 1);
                    if own >= below {
                        own
                    } else {
                        below
                    }
                },
                EntryTree::Leaf(_) => own,
            };
            if span > best {
                best = span;
            }
            k = k + 1;
        }
        proof {
            assert(f.subrange(0, f.len() as int) =~= f);
        }
        best
    }

    fn cmp_one(&self, other: &EntryTree, attr: SortingAttr, entries: &[Entry], groups: &[EntryGroup]) -> (r: Ordering)
        requires
            node_wf(self@, entries@.len() as nat, groups@.len() as nat),
            node_wf(other@, entries@.len() as nat, groups@.len() as nat),
        ensures
            r == cmp_attr(self@, other@, attr, entries@, groups@),
    {
        match attr {
            SortingAttr::Kind => {
                let a = self.kind();
                let b = other.kind();
                if a < b {
                    Ordering::Less
                } else if a == b {
                    Ordering::Equal
                } else {
                    Ordering::Greater
                }
            },
            SortingAttr::Name => compare_str(self.display_name(entries, groups), other.display_name(entries, groups)),
            SortingAttr::Location => match (self.location(entries, groups), other.location(entries, groups)) {
                (None, None) => Ordering::Equal,
                (None, Some(_)) => Ordering::Greater,
                (Some(_), None) => Ordering::Less,
                (Some(x), Some(y)) => x.compare(y),
            },
        }
    }

    /// Compares two nodes by `attr`, then by the other attributes in turn.
    fn cmp_by_attr(&self, other: &EntryTree, attr: SortingAttr, entries: &[Entry], groups: &[EntryGroup]) -> (r: Ordering)
        requires
            node_wf(self@, entries@.len() as nat, groups@.len() as nat),
            node_wf(other@, entries@.len() as nat, groups@.len() as nat),
        ensures
            r == cmp_nodes(self@, other@, attr, entries@, groups@),
    {
        let chain: [SortingAttr; 3] = match attr {
            SortingAttr::Kind => [SortingAttr::Kind, SortingAttr::Name, SortingAttr::Location],
            SortingAttr::Name => [SortingAttr::Name, SortingAttr::Location, SortingAttr::Kind],
            SortingAttr::Location => [SortingAttr::Location, SortingAttr::Name, SortingAttr::Kind],
        };
        proof {
            assert(chain@ =~= tie_breakers(attr));
        }
        let mut k: usize = 0;
        while k < 3
            invariant
                k <= 3,
                chain@ == tie_breakers(attr),
                node_wf(self@, entries@.len() as nat, groups@.len() as nat),
                node_wf(other@, entries@.len() as nat, groups@.len() as nat),
                forall|t: int| 0 <= t < k ==> cmp_attr(self@, other@, #[trigger] chain@[t], entries@, groups@) == Ordering::Equal,
            decreases 3 - k,
        {
            let o = self.cmp_one(other, chain[k], entries, groups);
            match o {
                Ordering::Equal => {},
                _ => {
                    proof {
                        reveal(cmp_nodes);
                    }
                    return o;
                },
            }
            k = k + 1;
        }
        proof {
            reveal(cmp_nodes);
        }
        Ordering::Equal
    }

    /// The comparison that siblings are sorted by.
    fn cmp_ordered(a: &EntryTree, b: &EntryTree, attr: SortingAttr, reverse: bool, entries: &[Entry], groups: &[EntryGroup]) -> (r: Ordering)
        requires
            node_wf(a@, entries@.len() as nat, groups@.len() as nat),
            node_wf(b@, entries@.len() as nat, groups@.len() as nat),
        ensures
            r == ordered(a@, b@, attr, reverse, entries@, groups@),
    {
        let o = a.cmp_by_attr(b, attr, entries, groups);
        if reverse {
            match o {
                Ordering::Less => Ordering::Greater,
                Ordering::Equal => Ordering::Equal,
                Ordering::Greater => Ordering::Less,
            }
        } else {
            o
        }
    }

    /// Sorts the siblings at every level by `attr`, ties broken by the other
    /// attributes in turn, the whole order turned round when `reverse` is set.
    /// Each parent's children are sorted before the parent's own level.
    #[verifier::loop_isolation(false)]
    #[verifier::spinoff_prover]
    #[verifier::rlimit(60)]
    pub fn sort_by_attr(tree: &mut Vec<EntryTree>, entries: &[Entry], groups: &[EntryGroup], attr: SortingAttr, reverse: bool)
        requires
            forest_wf(forest_view(old(tree)@), entries@.len() as nat, groups@.len() as nat),
        ensures
            final(tree)@.len() == old(tree)@.len(),
            forest_wf(forest_view(final(tree)@), entries@.len() as nat, groups@.len() as nat),
            shapes(forest_view(final(tree)@)) == shapes(forest_view(old(tree)@)),
            forest_sorted(forest_view(final(tree)@), attr, reverse, entries@, groups@),
            forest_sorted(forest_view(old(tree)@), attr, reverse, entries@, groups@) ==> forest_view(final(tree)@)
                == forest_view(old(tree)@),
        decreases old(tree)@,
    {
        let ghost ne = entries@.len() as nat;
        let ghost ng = groups@.len() as nat;
        let ghost ot = tree@;
        let ghost o = forest_view(tree@);
        let ghost was_sorted = forest_sorted(o, attr, reverse, entries@, groups@);
        proof {
            lemma_forest_view(tree@);
        }
        let n = tree.len();
        proof {
            assert forall|t: int| 0 <= t < n implies node_wf(#[trigger] tree@[t]@, ne, ng) by {
                assert(o[t] == node_view(tree@[t]));
            }
        }
        let mut k: usize = 0;
        while k < n
            invariant
                n == tree@.len(),
                o.len() == n,
                forall|t: int| k <= t < n ==> tree@[t] == ot[t],
                forall|t: int| 0 <= t < n ==> node_wf(#[trigger] tree@[t]@, ne, ng),
                forall|t: int| 0 <= t < n ==> shape_of(#[trigger] tree@[t]@) == shape_of(o[t]),
                forall|t: int| 0 <= t < k ==> deep_sorted(#[trigger] tree@[t]@, attr, reverse, entries@, groups@),
                was_sorted ==> forall|t: int| 0 <= t < n ==> #[trigger] tree@[t]@ == o[t],
            decreases n - k,
        {
            let ghost before = tree@[k as int];
            proof {
                assert(o[k as int] == node_view(ot[k as int]));
                assert(node_wf(tree@[k as int]@, ne, ng));
                if was_sorted {
                    assert(deep_sorted(o[k as int], attr, reverse, entries@, groups@));
                }
            }
            match &mut tree[k] {
                EntryTree::Parent { children, .. } => {
                    proof {
                        lemma_forest_view(children@);
                        assert(decreases_to!(ot => ot[k as int]));
                    }
                    Self::sort_by_attr(children, entries, groups, attr, reverse);
                },
                EntryTree::Leaf(_) => {},
            }
            proof {
                let after = tree@[k as int];
                if let EntryTree::Parent { children, .. } = after {
                    lemma_forest_view(children@);
                    lemma_forest_view(before->children@);
                    assert(forest_view(children@).len() > 0);
                }
            }
            k = k + 1;
        }
        proof {
            lemma_forest_view(tree@);
            assert forall|t: int| 0 <= t < n implies #[trigger] forest_view(tree@)[t] == tree@[t]@ by {}
            lemma_shapes_pointwise(forest_view(tree@), o);
        }
        let mut i: usize = 0;
        while i < n
            invariant
                n == tree@.len(),
                forall|t: int| 0 <= t < n ==> node_wf(#[trigger] tree@[t]@, ne, ng),
                forall|t: int| 0 <= t < n ==> deep_sorted(#[trigger] tree@[t]@, attr, reverse, entries@, groups@),
                shapes(forest_view(tree@)) == shapes(o),
                forall|a: int| 0 <= a && a + 1 < i ==> #[trigger] ordered(tree@[a]@, tree@[a + 1]@, attr, reverse, entries@, groups@) != Ordering::Greater,
                was_sorted ==> forall|t: int| 0 <= t < n ==> #[trigger] tree@[t]@ == o[t],
                i <= n,
            decreases n - i,
        {
            let mut j: usize = i;
            let mut go = true;
            while go && j > 0
                invariant
                    j <= i,
                    forall|t: int| j <= t < i ==> #[trigger] ordered(tree@[t]@, tree@[i as int]@, attr, reverse, entries@, groups@) == Ordering::Greater,
                    was_sorted ==> j == i,
                    !go ==> j > 0 && ordered(tree@[j - 1]@, tree@[i as int]@, attr, reverse, entries@, groups@) != Ordering::Greater,
                decreases j + if go {
                    1int
                } else {
                    0int
                },
            {
                let c = Self::cmp_ordered(&tree[j - 1], &tree[i], attr, reverse, entries, groups);
                match c {
                    Ordering::Greater => {
                        proof {
                            if was_sorted {
                                let b = j - 1;
                                assert(ordered(o[b], o[b + 1], attr, reverse, entries@, groups@) != Ordering::Greater);
                                assert(tree@[b]@ == o[b]);
                                assert(tree@[b + 1]@ == o[b + 1]);
                            }
                        }
                        j = j - 1;
                    },
                    _ => {
                        go = false;
                    },
                }
            }
            if j < i {
                let ghost prev = tree@;
                let ghost pf = forest_view(tree@);
                let x = tree.remove(i);
                tree.insert(j, x);
                proof {
                    let ii = i as int;
                    let jj = j as int;
                    lemma_move(prev, ii, jj);
                    assert(tree@ == prev.remove(ii).insert(jj, prev[ii]));
                    lemma_forest_view(prev);
                    lemma_forest_view(tree@);
                    lemma_move(pf, ii, jj);
                    assert(forest_view(tree@) =~= pf.remove(ii).insert(jj, pf[ii]));
                    lemma_shapes_move(pf, ii, jj);
                    assert forall|t: int| 0 <= t < n implies #[trigger] tree@[t] == prev[moved_from(t, ii, jj)] by {}
                    assert forall|a: int| 0 <= a && a + 1 < i + 1 implies #[trigger] ordered(tree@[a]@, tree@[a + 1]@, attr, reverse, entries@, groups@) != Ordering::Greater by {
                        assert(tree@[a] == prev[moved_from(a, ii, jj)]);
                        assert(tree@[a + 1] == prev[moved_from(a + 1, ii, jj)]);
                        if a + 1 < jj {
                        } else if a + 1 == jj {
                        } else if a == jj {
                            assert(ordered(prev[jj]@, prev[ii]@, attr, reverse, entries@, groups@) == Ordering::Greater);
                            lemma_ordered_flip(prev[jj]@, prev[ii]@, attr, reverse, entries@, groups@);
                        } else {
                            let b = a - 1;
                            assert(0 <= b && b + 1 < i);
                            assert(ordered(prev[b]@, prev[b + 1]@, attr, reverse, entries@, groups@) != Ordering::Greater);
                            assert(prev[b + 1] == prev[a]);
                        }
                    }
                    assert forall|t: int| 0 <= t < n implies node_wf(#[trigger] tree@[t]@, ne, ng) && deep_sorted(tree@[t]@, attr, reverse, entries@, groups@) by {
                        assert(tree@[t] == prev[moved_from(t, ii, jj)]);
                    }
                }
            }
            i = i + 1;
        }
        proof {
            lemma_forest_view(tree@);
            let f = forest_view(tree@);
            assert forall|t: int| 0 <= t < f.len() implies node_wf(#[trigger] f[t], ne, ng) by {
                assert(f[t] == tree@[t]@);
            }
            assert forall|t: int| 0 <= t < f.len() implies deep_sorted(#[trigger] f[t], attr, reverse, entries@, groups@) by {
                assert(f[t] == tree@[t]@);
            }
            assert forall|a: int| 0 <= a < f.len() - 1 implies #[trigger] ordered(f[a], f[a + 1], attr, reverse, entries@, groups@) != Ordering::Greater by {
                assert(f[a] == tree@[a]@);
                assert(f[a + 1] == tree@[a + 1]@);
            }
            if was_sorted {
                assert forall|t: int| 0 <= t < f.len() implies f[t] == o[t] by {
                    assert(f[t] == tree@[t]@);
                }
                assert(f =~= o);
            }
        }
    }

    /// The display path of `node` below the path `pp`.
    fn path_of(node: &EntryTree, pp: &str, entries: &[Entry], groups: &[EntryGroup]) -> (r: String)
        requires
            refs_ok(node@, entries@.len() as nat, groups@.len() as nat),
        ensures
            r@ == join_path(pp@, name_of(node@, entries@, groups@)),
    {
        let name = node.display_name(entries, groups);
        if pp.unicode_len() == 0 {
            String::from_str(name)
        } else {
            let mut s = String::from_str(pp);
            s.append("::");
            s.append(name);
            proof {
                reveal_strlit("::");
                assert(s@ =~= pp@ + seq![':', ':'] + name@);
            }
            s
        }
    }

    /// Prunes `tree`, whose nodes sit below the display path `pp`.
    #[verifier::loop_isolation(false)]
    fn retain_at<F: Fn(&str) -> bool>(tree: &mut Vec<EntryTree>, pp: &str, entries: &[Entry], groups: &[EntryGroup], filter: &F)
        requires
            forest_wf(forest_view(old(tree)@), entries@.len() as nat, groups@.len() as nat),
            forall|s: &str| filter.requires((s,)),
            path_determined(*filter),
        ensures
            forest_view(final(tree)@) == prune_forest(forest_view(old(tree)@), pp@, keep_of(*filter), entries@, groups@),
        decreases old(tree)@,
    {
        let ghost ne = entries@.len() as nat;
        let ghost ng = groups@.len() as nat;
        let ghost keep = keep_of(*filter);
        let ghost o = forest_view(tree@);
        let ghost ot = tree@;
        proof {
            lemma_forest_view(tree@);
        }
        let n = tree.len();
        let mut m: usize = 0;
        let mut k: usize = 0;
        proof {
            assert(o.subrange(0, 0) =~= Seq::<Node>::empty());
        }
        while m < n
            invariant
                k <= m <= n,
                n == ot.len(),
                tree@.len() == k + (n - m),
                prune_forest(o.subrange(0, m as int), pp@, keep, entries@, groups@).len() == k,
                forall|t: int| 0 <= t < k ==> #[trigger] tree@[t]@ == prune_forest(o.subrange(0, m as int), pp@, keep, entries@, groups@)[t],
                forall|t: int| 0 <= t < n - m ==> #[trigger] tree@[k + t] == ot[m + t],
            decreases n - m,
        {
            let ghost before = tree@;
            let ghost p0 = prune_forest(o.subrange(0, m as int), pp@, keep, entries@, groups@);
            proof {
                assert(tree@[k + 0] == ot[m + 0]);
                assert(o[m as int] == node_view(ot[m as int]));
                assert(node_wf(o[m as int], ne, ng));
                assert(o.subrange(0, m + 1).subrange(0, m as int) =~= o.subrange(0, m as int));
                assert(o.subrange(0, m + 1)[m as int] == o[m as int]);
            }
            let path = Self::path_of(&tree[k], pp, entries, groups);
            let keep_it: bool = match &mut tree[k] {
                EntryTree::Leaf(_) => {
                    let ps = path.as_str();
                    let b = filter(ps);
                    proof {
                        if !b && verdict(*filter, path@) {
                            let s = choose|s: &str| s@ == path@ && #[trigger] filter.ensures((s,), true);
                            assert(filter.ensures((ps,), b));
                        }
                    }
                    b
                },
                EntryTree::Parent { children, .. } => {
                    proof {
                        lemma_forest_view(children@);
                        assert(decreases_to!(ot => ot[m as int]));
                    }
                    Self::retain_at(children, path.as_str(), entries, groups, filter);
                    children.len() > 0
                },
            };
            proof {
                let x = o[m as int];
                assert(before[k as int]@ == x);
                assert(path@ == join_path(pp@, name_of(x, entries@, groups@)));
                match before[k as int] {
                    EntryTree::Leaf(_) => {
                        assert(tree@[k as int] == before[k as int]);
                        assert(keep(path@) == verdict(*filter, path@));
                        assert(keep_it == prune_node(x, pp@, keep, entries@, groups@) is Some);
                    },
                    EntryTree::Parent { children: c0, .. } => {
                        let after = tree@[k as int];
                        lemma_forest_view(after->children@);
                        lemma_forest_view(c0@);
                        assert(keep_it == prune_node(x, pp@, keep, entries@, groups@) is Some);
                    },
                }
                assert(keep_it ==> tree@[k as int]@ == prune_node(x, pp@, keep, entries@, groups@)->0);
            }
            if keep_it {
                k = k + 1;
            } else {
                tree.remove(k);
            }
            m = m + 1;
            proof {
                let p1 = prune_forest(o.subrange(0, m as int), pp@, keep, entries@, groups@);
                assert forall|t: int| 0 <= t < n - m implies #[trigger] tree@[k + t] == ot[m + t] by {
                    if keep_it {
                        assert(tree@[k + t] == before[(k - 1) + (t + 1)]);
                    } else {
                        assert(tree@[k + t] == before[k + (t + 1)]);
                    }
                }
                assert forall|t: int| 0 <= t < k implies #[trigger] tree@[t]@ == p1[t] by {
                    if t < p0.len() {
                        assert(tree@[t] == before[t]);
                    }
                }
            }
        }
        proof {
            lemma_forest_view(tree@);
            assert(o.subrange(0, n as int) =~= o);
            let pf = prune_forest(o, pp@, keep, entries@, groups@);
            assert forall|t: int| 0 <= t < k implies forest_view(tree@)[t] == pf[t] by {
                assert(forest_view(tree@)[t] == node_view(tree@[t]));
                assert(tree@[t]@ == pf[t]);
            }
            assert(forest_view(tree@) =~= pf);
        }
    }

    /// Removes the leaves whose display path (display names from the root,
    /// joined by `::`) `filter` rejects, and the parents that are left
    /// without children. `filter` is never asked about a parent, and must
    /// give the same answer for paths of the same characters.
    pub fn retain<F: Fn(&str) -> bool>(tree: &mut Vec<EntryTree>, entries: &[Entry], groups: &[EntryGroup], filter: F)
        requires
            forest_wf(forest_view(old(tree)@), entries@.len() as nat, groups@.len() as nat),
            forall|s: &str| filter.requires((s,)),
            path_determined(filter),
        ensures
            forest_view(final(tree)@) == prune_forest(forest_view(old(tree)@), Seq::empty(), keep_of(filter), entries@, groups@),
            forest_wf(forest_view(final(tree)@), entries@.len() as nat, groups@.len() as nat),
    {
        proof {
            reveal_strlit("");
            assert(""@ =~= Seq::<char>::empty());
        }
        Self::retain_at(tree, "", entries, groups, &filter);
        proof {
            lemma_prune_wf(forest_view(old(tree)@), Seq::empty(), keep_of(filter), entries@, groups@);
        }
    }
}

} // verus!
