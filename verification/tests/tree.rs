use macdirstat::path::FilePath;
use macdirstat::scanner::DiscoveredEntry;
use macdirstat::tree::{
    replace_usage, subtract_usage, NodeKind, SizeMode, SortDirection, SortKey, SortSpec, Tree,
    UsageStats, VisibleNode,
};

fn path(text: &str) -> FilePath {
    FilePath::from_text(text)
}

fn entry(name: &str, kind: NodeKind, size: Option<u64>) -> DiscoveredEntry {
    DiscoveredEntry {
        path: path("/tmp").join(&path(name)),
        name: path(name),
        kind,
        usage: size.map(|size| UsageStats { logical: size, physical: size, files: 1 }),
        error: None,
        identity: None,
        modified: None,
        mountpoint: false,
    }
}

#[test]
fn flattening_respects_expansion() {
    let mut tree = Tree::new(path("/tmp"));
    let root = tree.root_id;
    let a = tree.add_child(root, entry("a", NodeKind::Directory, Some(10))).unwrap();
    let b = tree.add_child(root, entry("b", NodeKind::File, Some(5))).unwrap();
    let x = tree.add_child(a, entry("x", NodeKind::File, Some(1))).unwrap();

    let row = |node_id, depth| VisibleNode { node_id, depth, matched: false };
    assert_eq!(tree.flatten_visible(), vec![row(a, 0), row(b, 0)]);

    tree.expand_ancestors(x);
    assert_eq!(tree.flatten_visible(), vec![row(a, 0), row(x, 1), row(b, 0)]);
}

#[test]
fn sorting_puts_pending_first_then_descending_sizes() {
    let mut tree = Tree::new(path("/tmp"));
    let root = tree.root_id;
    let small = tree.add_child(root, entry("small", NodeKind::File, Some(2))).unwrap();
    let pending = tree.add_child(root, entry("pending", NodeKind::Directory, None)).unwrap();
    let large = tree.add_child(root, entry("large", NodeKind::File, Some(10))).unwrap();

    tree.sort_children(root, SortSpec::default(), SizeMode::Logical);
    assert_eq!(tree.get(root).unwrap().children, [pending, large, small]);
}

#[test]
fn removing_subtree_keeps_parent_and_siblings() {
    let mut tree = Tree::new(path("/tmp"));
    let root = tree.root_id;
    let directory = tree.add_child(root, entry("directory", NodeKind::Directory, Some(10))).unwrap();
    let child = tree.add_child(directory, entry("child", NodeKind::File, Some(5))).unwrap();
    let sibling = tree.add_child(root, entry("sibling", NodeKind::File, Some(2))).unwrap();

    let removed = tree.remove_subtree(directory);

    assert!(removed.contains(&directory));
    assert!(removed.contains(&child));
    assert!(!tree.contains_key(directory));
    assert!(!tree.contains_key(child));
    assert!(tree.contains_key(sibling));
    assert_eq!(tree.get(root).unwrap().children, [sibling]);
}

#[test]
fn the_root_cannot_be_removed() {
    let mut tree = Tree::new(path("/tmp"));
    let root = tree.root_id;
    assert!(tree.remove_subtree(root).is_empty());
    assert!(tree.contains_key(root));
    assert_eq!(tree.len(), 1);
}

#[test]
fn names_of_removed_nodes_are_not_used_again() {
    let mut tree = Tree::new(path("/tmp"));
    let root = tree.root_id;
    let first = tree.add_child(root, entry("first", NodeKind::File, Some(1))).unwrap();
    tree.remove_subtree(first);
    let second = tree.add_child(root, entry("second", NodeKind::File, Some(1))).unwrap();
    assert_ne!(first, second);
    assert!(tree.get(first).is_none());
    assert!(tree.add_child(first, entry("lost", NodeKind::File, Some(1))).is_none());
}

#[test]
fn clearing_a_directory_leaves_it_empty() {
    let mut tree = Tree::new(path("/tmp"));
    let root = tree.root_id;
    let directory = tree.add_child(root, entry("directory", NodeKind::Directory, None)).unwrap();
    let inner = tree.add_child(directory, entry("inner", NodeKind::Directory, None)).unwrap();
    tree.add_child(inner, entry("leaf", NodeKind::File, Some(1))).unwrap();
    tree.add_child(directory, entry("other", NodeKind::File, Some(1))).unwrap();
    tree.clear_children(directory);
    assert!(tree.get(directory).unwrap().children.is_empty());
    assert_eq!(tree.len(), 2);
}

#[test]
fn other_orders_sort_by_name_files_and_kind() {
    let mut tree = Tree::new(path("/tmp"));
    let root = tree.root_id;
    let b = tree.add_child(root, entry("B", NodeKind::File, Some(1))).unwrap();
    let a = tree.add_child(root, entry("a", NodeKind::Other, Some(3))).unwrap();
    let c = tree.add_child(root, entry("c", NodeKind::Symlink, Some(2))).unwrap();
    let by = |tree: &mut Tree, key, direction| {
        let sort = SortSpec { key, direction };
        let root = tree.root_id;
        tree.sort_all_loaded(sort, SizeMode::Logical);
        tree.get(root).unwrap().children.clone()
    };
    assert_eq!(by(&mut tree, SortKey::Name, SortDirection::Ascending), [a, b, c]);
    assert_eq!(by(&mut tree, SortKey::Name, SortDirection::Descending), [c, b, a]);
    assert_eq!(by(&mut tree, SortKey::Size, SortDirection::Ascending), [b, c, a]);
    assert_eq!(by(&mut tree, SortKey::Size, SortDirection::Descending), [a, c, b]);
}

#[test]
fn a_query_keeps_the_directories_above_its_matches() {
    let mut tree = Tree::new(path("/tmp"));
    let root = tree.root_id;
    let parent = tree.add_child(root, entry("parent", NodeKind::Directory, None)).unwrap();
    let needle = tree.add_child(parent, entry("Needle", NodeKind::File, Some(1))).unwrap();
    tree.add_child(root, entry("hay", NodeKind::File, Some(1))).unwrap();
    let rows = tree.flatten_visible_filtered(Some("needle"));
    assert_eq!(
        rows,
        vec![
            VisibleNode { node_id: parent, depth: 0, matched: false },
            VisibleNode { node_id: needle, depth: 1, matched: true },
        ]
    );
    assert_eq!(tree.all_loaded().len(), 3);
    assert_eq!(tree.ancestors_of(needle), [parent, root]);
}

#[test]
fn the_root_shows_what_its_entries_take_up() {
    let mut tree = Tree::new(path("/tmp"));
    let root = tree.root_id;
    tree.add_child(root, entry("one", NodeKind::File, Some(10))).unwrap();
    tree.add_child(root, entry("two", NodeKind::File, Some(32))).unwrap();
    tree.add_child(root, entry("unknown", NodeKind::Directory, None)).unwrap();
    assert_eq!(tree.root_known_usage(), UsageStats { logical: 42, physical: 42, files: 2 });
    assert_eq!(tree.root_known_size(), 42);
}

#[test]
fn usages_add_up_and_can_be_taken_apart() {
    let part = UsageStats { logical: 10, physical: 4, files: 1 };
    let total = UsageStats { logical: 100, physical: 40, files: 7 };
    assert_eq!(total.saturating_add(part), UsageStats { logical: 110, physical: 44, files: 8 });
    assert_eq!(subtract_usage(total.saturating_add(part), part), total);
    assert_eq!(subtract_usage(part, total), UsageStats::default());
    assert_eq!(
        replace_usage(total, part, UsageStats { logical: 1, physical: 1, files: 1 }),
        UsageStats { logical: 91, physical: 37, files: 7 }
    );
    let large = UsageStats { logical: u64::MAX, physical: 1, files: 1 };
    assert_eq!(large.saturating_add(part).logical, u64::MAX);
}

#[test]
fn removing_takes_what_lies_below_and_nothing_else() {
    let mut tree = Tree::new(path("/tmp"));
    let root = tree.root_id;
    let a = tree.add_child(root, entry("a", NodeKind::Directory, None)).unwrap();
    let b = tree.add_child(a, entry("b", NodeKind::Directory, None)).unwrap();
    let c = tree.add_child(b, entry("c", NodeKind::File, Some(1))).unwrap();
    let d = tree.add_child(a, entry("d", NodeKind::File, Some(2))).unwrap();
    let e = tree.add_child(root, entry("e", NodeKind::File, Some(3))).unwrap();
    tree.remove_subtree(b);
    assert!(!tree.contains_key(b) && !tree.contains_key(c));
    assert!(tree.contains_key(a) && tree.contains_key(d) && tree.contains_key(e));
    assert_eq!(tree.get(a).unwrap().children, vec![d]);
    tree.clear_children(a);
    assert!(!tree.contains_key(d));
    assert!(tree.contains_key(a) && tree.contains_key(e));
    assert_eq!(tree.get(root).unwrap().children, vec![a, e]);
}

#[test]
fn sorting_shows_the_same_rows() {
    let mut tree = Tree::new(path("/tmp"));
    let root = tree.root_id;
    let a = tree.add_child(root, entry("a", NodeKind::Directory, Some(3))).unwrap();
    let b = tree.add_child(root, entry("b", NodeKind::File, Some(9))).unwrap();
    let x = tree.add_child(a, entry("x", NodeKind::File, Some(1))).unwrap();
    let y = tree.add_child(a, entry("y", NodeKind::File, Some(2))).unwrap();
    tree.expand_ancestors(x);
    let ids = |tree: &Tree| -> Vec<_> {
        tree.flatten_visible().iter().map(|row| row.node_id).collect()
    };
    assert_eq!(ids(&tree), vec![a, x, y, b]);
    let down = SortSpec { key: SortKey::Size, direction: SortDirection::Descending };
    tree.sort_all_loaded(down, SizeMode::Logical);
    assert_eq!(ids(&tree), vec![a, y, x, b]);
    let up = SortSpec { key: SortKey::Size, direction: SortDirection::Ascending };
    tree.sort_all_loaded(up, SizeMode::Logical);
    assert_eq!(ids(&tree), vec![a, x, y, b]);
}
