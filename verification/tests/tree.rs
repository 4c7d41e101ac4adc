use dua::aggregate::{aggregate, RootWalk};
use dua::common::{
    ByteFormat, Color, Entry, Inode, Metadata, TraversalSorting, WalkItem, WalkOptions,
};
use dua::traverse::{path_of, Traversal, Tree};

fn plain_options() -> WalkOptions {
    WalkOptions {
        threads: 0,
        byte_format: ByteFormat::Metric,
        color: Color::Off,
        apparent_size: false,
        count_hard_links: false,
        sorting: TraversalSorting::Unsorted,
    }
}

fn found(name: &str, depth: usize, is_dir: bool, size: u64, inode: Option<(u64, u64)>) -> WalkItem {
    WalkItem::Found(Entry {
        name: name.to_string(),
        depth,
        metadata: Some(Metadata {
            is_dir,
            len: size,
            inode: inode.map(|(device, number)| Inode { device, number }),
            size_on_disk: Some(size),
        }),
    })
}

fn size(tree: &Tree, index: usize) -> u64 {
    tree.node_weight(index).unwrap().size
}

#[test]
fn a_new_tree_holds_only_the_node_above_the_roots() {
    let tree = Tree::new();
    assert_eq!(tree.node_count(), 1);
    assert_eq!(size(&tree, 0), 0);
    assert!(tree.children_of(0).is_empty());
    assert_eq!(tree.parent_of(0), None);
    assert!(tree.node_weight(1).is_none());
    assert_eq!(path_of(&tree, 0), "");
}

#[test]
fn totals_are_own_size_plus_children() {
    let mut tree = Tree::new();
    let root = tree.add_child(0, "/r".to_string(), true, 0, false).unwrap();
    let a = tree.add_child(root, "a".to_string(), true, 0, false).unwrap();
    let x = tree.add_child(a, "x".to_string(), false, 100, false).unwrap();
    let y = tree.add_child(a, "y".to_string(), false, 20, false).unwrap();
    let b = tree.add_child(root, "b".to_string(), false, 3, true).unwrap();
    assert_eq!((root, a, x, y, b), (1, 2, 3, 4, 5));
    assert_eq!(size(&tree, x), 100);
    assert_eq!(size(&tree, y), 20);
    assert_eq!(size(&tree, a), 120);
    assert_eq!(size(&tree, b), 3);
    assert_eq!(size(&tree, root), 123);
    assert_eq!(size(&tree, 0), 123);
    assert_eq!(tree.children_of(root), &vec![a, b]);
    assert_eq!(tree.children_of(a), &vec![x, y]);
    assert_eq!(tree.parent_of(y), Some(a));
    assert!(tree.node_weight(b).unwrap().metadata_io_error);
    assert!(tree.entry_of(a).is_dir);
    for node in 0..tree.node_count() {
        let below: u64 = tree.children_of(node).iter().map(|&c| size(&tree, c)).sum();
        let own = if tree.children_of(node).is_empty() { size(&tree, node) } else { 0 };
        assert_eq!(size(&tree, node), own + below);
        if let Some(parent) = tree.parent_of(node) {
            assert!(size(&tree, parent) >= size(&tree, node));
        }
    }
}

#[test]
fn a_directory_with_a_size_of_its_own_counts_it() {
    let mut tree = Tree::new();
    let d = tree.add_child(0, "d".to_string(), true, 7, false).unwrap();
    tree.add_child(d, "f".to_string(), false, 5, false).unwrap();
    assert_eq!(size(&tree, d), 12);
    assert_eq!(size(&tree, 0), 12);
}

#[test]
fn a_child_needs_a_parent_and_room_for_its_size() {
    let mut tree = Tree::new();
    assert_eq!(tree.add_child(1, "x".to_string(), false, 1, false), None);
    assert_eq!(tree.node_count(), 1);
    let a = tree.add_child(0, "a".to_string(), false, u64::MAX - 1, false).unwrap();
    assert_eq!(tree.add_child(0, "b".to_string(), false, 2, false), None);
    assert_eq!(tree.node_count(), 2);
    assert_eq!(size(&tree, 0), u64::MAX - 1);
    assert_eq!(size(&tree, a), u64::MAX - 1);
    assert_eq!(tree.add_child(0, "c".to_string(), false, 1, false), Some(2));
    assert_eq!(size(&tree, 0), u64::MAX);
}

#[test]
fn paths_join_the_names_from_the_root_down() {
    let mut tree = Tree::new();
    let root = tree.add_child(0, "/tmp/a".to_string(), true, 0, false).unwrap();
    let sub = tree.add_child(root, "sub".to_string(), true, 0, false).unwrap();
    let file = tree.add_child(sub, "file.txt".to_string(), false, 1, false).unwrap();
    let other = tree.add_child(0, "rel".to_string(), true, 0, false).unwrap();
    assert_eq!(path_of(&tree, root), "/tmp/a");
    assert_eq!(path_of(&tree, sub), "/tmp/a/sub");
    assert_eq!(path_of(&tree, file), "/tmp/a/sub/file.txt");
    assert_eq!(path_of(&tree, other), "rel");
}

#[test]
fn a_walk_becomes_a_tree() {
    let roots = vec![
        RootWalk {
            path: "/data".to_string(),
            is_file: false,
            items: vec![
                found("data", 0, true, 0, None),
                found("a", 1, true, 0, None),
                found("x", 2, false, 100, Some((1, 1))),
                found("deep", 2, true, 0, None),
                found("y", 3, false, 7, None),
                WalkItem::Failed,
                found("b", 1, false, 20, None),
                found("link", 1, false, 100, Some((1, 1))),
            ],
        },
        RootWalk {
            path: "single".to_string(),
            is_file: true,
            items: vec![found("single", 0, false, 5, None)],
        },
    ];
    let traversal = Traversal::from_walk(&plain_options(), &roots).unwrap();
    let tree = &traversal.tree;
    assert_eq!(tree.node_count(), 9);
    assert_eq!(traversal.io_errors, 1);
    assert_eq!(traversal.entries_traversed, 9);
    let names: Vec<&str> =
        (1..9).map(|i| tree.node_weight(i).unwrap().name.as_str()).collect();
    assert_eq!(names, vec!["/data", "a", "x", "deep", "y", "b", "link", "single"]);
    let parents: Vec<Option<usize>> = (1..9).map(|i| tree.parent_of(i)).collect();
    assert_eq!(
        parents,
        vec![Some(0), Some(1), Some(2), Some(2), Some(4), Some(1), Some(1), Some(0)]
    );
    let sizes: Vec<u64> = (0..9).map(|i| size(tree, i)).collect();
    assert_eq!(sizes, vec![132, 127, 107, 100, 7, 7, 20, 0, 5]);
    assert_eq!(path_of(tree, 5), "/data/a/deep/y");
    let report = aggregate(&plain_options(), true, false, &roots).unwrap();
    assert_eq!(report.lines[2].num_bytes, size(tree, 0));
    assert_eq!(report.lines[0].num_bytes, size(tree, 1));
    assert_eq!(report.result.num_errors, traversal.io_errors);
}

#[test]
fn an_entry_never_lies_more_than_one_level_below_the_one_before() {
    let roots = vec![RootWalk {
        path: "r".to_string(),
        is_file: false,
        items: vec![found("ignored", 3, true, 0, None), found("far", 5, false, 1, None)],
    }];
    let traversal = Traversal::from_walk(&plain_options(), &roots).unwrap();
    let tree = &traversal.tree;
    assert_eq!(tree.node_weight(1).unwrap().name, "r");
    assert_eq!(tree.parent_of(1), Some(0));
    assert_eq!(tree.node_weight(2).unwrap().name, "far");
    assert_eq!(tree.parent_of(2), Some(1));
}

#[test]
fn a_walk_that_counts_too_much_makes_no_tree() {
    let roots = vec![RootWalk {
        path: "r".to_string(),
        is_file: false,
        items: vec![found("a", 0, false, u64::MAX, None), found("b", 0, false, 1, None)],
    }];
    assert!(Traversal::from_walk(&plain_options(), &roots).is_none());
    assert!(Traversal::from_walk(&plain_options(), &Vec::new()).is_some());
}
