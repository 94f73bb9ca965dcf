use entry_tree::entry::{Entry, EntryGroup, EntryLocation, SortingAttr};
use entry_tree::tree::EntryTree;

fn loc(file: &str, line: u32) -> EntryLocation {
    EntryLocation { file: file.to_string(), line, col: 1 }
}

fn entry(name: &str, path: &[&str], line: u32) -> Entry {
    Entry {
        display_name: name.to_string(),
        path: path.iter().map(|s| s.to_string()).collect(),
        location: loc("lib.rs", line),
    }
}

fn group(raw: &str, display: &str, path: &[&str], line: u32) -> EntryGroup {
    EntryGroup {
        raw_name: raw.to_string(),
        display_name: display.to_string(),
        path: path.iter().map(|s| s.to_string()).collect(),
        location: loc("lib.rs", line),
    }
}

fn names(tree: &[EntryTree], entries: &[Entry], groups: &[EntryGroup]) -> Vec<String> {
    tree.iter().map(|t| t.display_name(entries, groups).to_string()).collect()
}

fn kids(node: &EntryTree) -> &Vec<EntryTree> {
    match node {
        EntryTree::Parent { children, .. } => children,
        EntryTree::Leaf(_) => panic!("expected a parent"),
    }
}

#[test]
fn build_groups_shared_prefix() {
    let entries = vec![entry("b", &["a"], 1), entry("c", &["a"], 2), entry("root", &[], 3)];
    let groups: Vec<EntryGroup> = vec![];
    let tree = EntryTree::from_entries(&entries);
    assert_eq!(tree.len(), 2);
    match &tree[0] {
        EntryTree::Parent { raw_name, group, children } => {
            assert_eq!(raw_name, "a");
            assert!(group.is_none());
            assert_eq!(children.len(), 2);
            assert!(matches!(children[0], EntryTree::Leaf(0)));
            assert!(matches!(children[1], EntryTree::Leaf(1)));
            assert_eq!(names(children, &entries, &groups), vec!["b", "c"]);
        }
        EntryTree::Leaf(_) => panic!("expected a parent"),
    }
    assert!(matches!(tree[1], EntryTree::Leaf(2)));
}

#[test]
fn build_nested_paths_once_each() {
    let entries = vec![entry("x", &["a", "b"], 1), entry("y", &["a", "c"], 2), entry("z", &["a", "b"], 3)];
    let tree = EntryTree::from_entries(&entries);
    assert_eq!(tree.len(), 1);
    let a = kids(&tree[0]);
    assert_eq!(a.len(), 2);
    let b = kids(&a[0]);
    assert!(matches!(b[0], EntryTree::Leaf(0)));
    assert!(matches!(b[1], EntryTree::Leaf(2)));
    let c = kids(&a[1]);
    assert_eq!(c.len(), 1);
    assert!(matches!(c[0], EntryTree::Leaf(1)));
}

#[test]
fn build_empty() {
    let entries: Vec<Entry> = vec![];
    let tree = EntryTree::from_entries(&entries);
    assert!(tree.is_empty());
    assert_eq!(EntryTree::max_name_span(&tree, &entries, &[], 3), 0);
}

#[test]
fn max_name_span_example() {
    let entries = vec![entry("bench", &[], 1), entry("x", &["mod"], 2)];
    let tree = EntryTree::from_entries(&entries);
    assert_eq!(EntryTree::max_name_span(&tree, &entries, &[], 0), 5);
}

#[test]
fn max_name_span_counts_depth() {
    let entries = vec![entry("ab", &[], 1), entry("leaf", &["m", "n"], 2)];
    let tree = EntryTree::from_entries(&entries);
    // "leaf" sits at depth 2: 4 + 2 * 4.
    assert_eq!(EntryTree::max_name_span(&tree, &entries, &[], 0), 12);
    assert_eq!(EntryTree::max_name_span(&tree, &entries, &[], 1), 16);
}

#[test]
fn max_name_span_counts_chars() {
    let entries = vec![entry("ééé", &[], 1)];
    let tree = EntryTree::from_entries(&entries);
    assert_eq!(EntryTree::max_name_span(&tree, &entries, &[], 0), 3);
}

#[test]
fn display_name_strips_raw_prefix() {
    let entries = vec![entry("t", &["r#type"], 1), entry("u", &["r"], 2)];
    let tree = EntryTree::from_entries(&entries);
    assert_eq!(names(&tree, &entries, &[]), vec!["type", "r"]);
}

#[test]
fn kind_of_nodes() {
    let entries = vec![entry("t", &["m"], 1), entry("u", &[], 2)];
    let tree = EntryTree::from_entries(&entries);
    assert_eq!(tree[0].kind(), 1);
    assert_eq!(tree[1].kind(), 0);
}

#[test]
fn insert_group_matching_path() {
    let entries = vec![entry("t", &["a", "b"], 10)];
    let groups = vec![group("b", "Bee", &["a"], 3)];
    let mut tree = EntryTree::from_entries(&entries);
    EntryTree::insert_group(&mut tree, &groups, 0);
    let a = kids(&tree[0]);
    match &a[0] {
        EntryTree::Parent { raw_name, group, children } => {
            assert_eq!(raw_name, "b");
            assert_eq!(*group, Some(0));
            assert_eq!(children.len(), 1);
        }
        EntryTree::Leaf(_) => panic!("expected a parent"),
    }
    assert_eq!(a[0].display_name(&entries, &groups), "Bee");
    assert_eq!(tree[0].display_name(&entries, &groups), "a");
}

#[test]
fn insert_group_no_match_changes_nothing() {
    let entries = vec![entry("t", &["a", "b"], 10)];
    let groups = vec![group("c", "See", &["a"], 3), group("b", "Bee", &["x"], 4), group("t", "Tee", &["a", "b"], 5)];
    let mut tree = EntryTree::from_entries(&entries);
    for g in 0..groups.len() {
        EntryTree::insert_group(&mut tree, &groups, g);
    }
    let a = kids(&tree[0]);
    assert!(matches!(tree[0], EntryTree::Parent { group: None, .. }));
    assert!(matches!(a[0], EntryTree::Parent { group: None, .. }));
    assert!(matches!(kids(&a[0])[0], EntryTree::Leaf(0)));
}

#[test]
fn insert_group_overwrites() {
    let entries = vec![entry("t", &["a"], 10)];
    let groups = vec![group("a", "First", &[], 3), group("a", "Second", &[], 4)];
    let mut tree = EntryTree::from_entries(&entries);
    EntryTree::insert_group(&mut tree, &groups, 0);
    EntryTree::insert_group(&mut tree, &groups, 1);
    assert_eq!(tree[0].display_name(&entries, &groups), "Second");
}

#[test]
fn retain_all_keeps_everything() {
    let entries = vec![entry("x", &["a"], 1), entry("y", &[], 2)];
    let mut tree = EntryTree::from_entries(&entries);
    EntryTree::retain(&mut tree, &entries, &[], |_p: &str| true);
    assert_eq!(tree.len(), 2);
    assert_eq!(kids(&tree[0]).len(), 1);
}

#[test]
fn retain_none_empties() {
    let entries = vec![entry("x", &["a"], 1), entry("y", &[], 2)];
    let mut tree = EntryTree::from_entries(&entries);
    EntryTree::retain(&mut tree, &entries, &[], |_p: &str| false);
    assert!(tree.is_empty());
}

#[test]
fn retain_uses_display_paths_and_drops_empty_parents() {
    let entries = vec![entry("x", &["a", "b"], 1), entry("y", &["a"], 2), entry("z", &["c"], 3)];
    let groups = vec![group("a", "Alpha", &[], 1)];
    let mut tree = EntryTree::from_entries(&entries);
    EntryTree::insert_group(&mut tree, &groups, 0);
    EntryTree::retain(&mut tree, &entries, &groups, |p: &str| p == "Alpha::y" || p == "c::z");
    assert_eq!(names(&tree, &entries, &groups), vec!["Alpha", "c"]);
    let a = kids(&tree[0]);
    assert_eq!(a.len(), 1);
    assert!(matches!(a[0], EntryTree::Leaf(1)));
}

#[test]
fn sort_by_kind_puts_leaves_first() {
    let entries = vec![entry("x", &["a"], 1), entry("z", &[], 2)];
    let mut tree = EntryTree::from_entries(&entries);
    EntryTree::sort_by_attr(&mut tree, &entries, &[], SortingAttr::Kind, false);
    assert!(matches!(tree[0], EntryTree::Leaf(1)));
    assert!(matches!(tree[1], EntryTree::Parent { .. }));
}

#[test]
fn sort_by_name_reverse_and_nested() {
    let entries = vec![
        entry("b", &[], 1),
        entry("c", &[], 2),
        entry("a", &[], 3),
        entry("q", &["m"], 4),
        entry("p", &["m"], 5),
    ];
    let mut tree = EntryTree::from_entries(&entries);
    EntryTree::sort_by_attr(&mut tree, &entries, &[], SortingAttr::Name, false);
    assert_eq!(names(&tree, &entries, &[]), vec!["a", "b", "c", "m"]);
    assert_eq!(names(kids(&tree[3]), &entries, &[]), vec!["p", "q"]);
    EntryTree::sort_by_attr(&mut tree, &entries, &[], SortingAttr::Name, true);
    assert_eq!(names(&tree, &entries, &[]), vec!["m", "c", "b", "a"]);
    assert_eq!(names(kids(&tree[0]), &entries, &[]), vec!["q", "p"]);
}

#[test]
fn sort_by_location_uses_earliest_child() {
    let entries = vec![entry("late", &[], 30), entry("inner", &["m"], 5), entry("early", &[], 10)];
    let mut tree = EntryTree::from_entries(&entries);
    EntryTree::sort_by_attr(&mut tree, &entries, &[], SortingAttr::Location, false);
    assert_eq!(names(&tree, &entries, &[]), vec!["m", "early", "late"]);
}

#[test]
fn sort_by_location_ties_broken_by_name() {
    let entries = vec![entry("b", &[], 7), entry("a", &[], 7)];
    let mut tree = EntryTree::from_entries(&entries);
    EntryTree::sort_by_attr(&mut tree, &entries, &[], SortingAttr::Location, false);
    assert_eq!(names(&tree, &entries, &[]), vec!["a", "b"]);
}

#[test]
fn sort_twice_is_same_order() {
    let entries = vec![entry("b", &["n"], 1), entry("a", &[], 2), entry("c", &["n"], 3), entry("b", &[], 4)];
    let mut tree = EntryTree::from_entries(&entries);
    EntryTree::sort_by_attr(&mut tree, &entries, &[], SortingAttr::Name, false);
    let first = names(&tree, &entries, &[]);
    let first_leaves: Vec<bool> = tree.iter().map(|t| matches!(t, EntryTree::Leaf(3))).collect();
    EntryTree::sort_by_attr(&mut tree, &entries, &[], SortingAttr::Name, false);
    assert_eq!(names(&tree, &entries, &[]), first);
    let second_leaves: Vec<bool> = tree.iter().map(|t| matches!(t, EntryTree::Leaf(3))).collect();
    assert_eq!(first_leaves, second_leaves);
    assert_eq!(first, vec!["a", "b", "n"]);
}

#[test]
fn location_compare_orders_file_line_col() {
    let a = EntryLocation { file: "a.rs".to_string(), line: 9, col: 9 };
    let b = EntryLocation { file: "b.rs".to_string(), line: 1, col: 1 };
    let c = EntryLocation { file: "b.rs".to_string(), line: 1, col: 2 };
    assert_eq!(a.compare(&b), std::cmp::Ordering::Less);
    assert_eq!(c.compare(&b), std::cmp::Ordering::Greater);
    assert_eq!(b.compare(&b), std::cmp::Ordering::Equal);
}

#[test]
fn children_of_leaf_and_parent() {
    let entries = vec![entry("x", &["m"], 1), entry("y", &["m"], 2), entry("z", &[], 3)];
    let tree = EntryTree::from_entries(&entries);
    assert_eq!(tree[0].children().len(), 2);
    assert!(tree[1].children().is_empty());
}
