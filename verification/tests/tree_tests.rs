use file_tree::builder::{build, ScanEntry};
use file_tree::errors::BuildErr;
use file_tree::node::Node;
use file_tree::tree::FileTree;

fn leaf(path: &str, name: &str, size: u64, modified: u64) -> ScanEntry {
    ScanEntry::Item {
        path: path.to_string(),
        name: Some(name.to_string()),
        is_file: true,
        is_symlink: false,
        size,
        created: modified,
        modified,
        entries: Vec::new(),
        listing_err: None,
    }
}

fn branch(path: &str, name: &str, entries: Vec<ScanEntry>) -> ScanEntry {
    ScanEntry::Item {
        path: path.to_string(),
        name: Some(name.to_string()),
        is_file: false,
        is_symlink: false,
        size: 0,
        created: 1,
        modified: 1,
        entries,
        listing_err: None,
    }
}

fn two_files() -> FileTree {
    let snapshot = branch(
        "/d",
        "d",
        vec![leaf("/d/x.txt", "x.txt", 1, 1), leaf("/d/y.txt", "y.txt", 1, 1)],
    );
    build(&snapshot).unwrap().0
}

fn catalogue_names(tree: &FileTree, id: usize) -> Vec<String> {
    tree.build_catalogue(id)
        .iter()
        .map(|&v| tree.nodes[v].name.clone())
        .collect()
}

#[test]
fn add_child_refuses_duplicates() {
    let mut node = Node::new("dir".to_string(), false, 0, 0, 0, None);
    assert!(node.add_child("a".to_string(), 1).is_ok());
    let second = node.add_child("a".to_string(), 2);
    assert!(matches!(second, Err(BuildErr::DuplicateNameErr(_))));
    assert_eq!(node.get_child("a"), Some(1));
    assert_eq!(node.get_child("b"), None);
    assert_eq!(node.get_children(), vec![1]);
    assert!(!node.is_leaf());
    assert!(Node::new("f".to_string(), true, 0, 0, 0, None).is_leaf());
}

#[test]
fn resolver_edge_cases() {
    let snapshot = branch(
        "/docs",
        "docs",
        vec![
            leaf("/docs/a.txt", "a.txt", 10, 5),
            branch("/docs/sub", "sub", vec![leaf("/docs/sub/b.txt", "b.txt", 20, 6)]),
        ],
    );
    let tree = build(&snapshot).unwrap().0;
    assert!(tree.get_file("").is_none());
    assert!(tree.get_file("/").is_none());
    assert!(tree.get_file("a.txt").is_some());
    assert!(tree.get_file("/a.txt").is_some());
    assert!(tree.get_file("  a.txt  ").is_some());
    assert!(tree.get_file("sub/b.txt").is_some());
    assert!(tree.get_file("sub//b.txt").is_none());
    assert!(tree.get_file("sub/").is_none());
    assert!(tree.get_file("a.txt/b").is_none());
    assert!(tree.get_file("missing").is_none());
    assert_eq!(tree.get_children("sub").map(|v| v.len()), Some(1));
    assert!(tree.get_children("a.txt").is_none());
}

#[test]
fn view_improves_rank() {
    // equal scores tie-break by name: x.txt first; one view moves y.txt ahead
    let mut tree = two_files();
    assert_eq!(
        catalogue_names(&tree, 0),
        vec!["x.txt".to_string(), "y.txt".to_string()]
    );
    tree.record_view("y.txt");
    assert_eq!(
        catalogue_names(&tree, 0),
        vec!["y.txt".to_string(), "x.txt".to_string()]
    );
    let y = tree.resolve("y.txt").unwrap();
    assert_eq!(y.total_views, 1);
    assert_eq!(y.popularity, 1);
}

#[test]
fn like_outweighs_single_view() {
    let mut tree = two_files();
    tree.record_view("x.txt");
    tree.record_like("y.txt");
    // one like counts ten, one view counts one
    assert_eq!(
        catalogue_names(&tree, 0),
        vec!["y.txt".to_string(), "x.txt".to_string()]
    );
    let y = tree.resolve("y.txt").unwrap();
    assert_eq!(y.likes, 1);
    assert_eq!(y.popularity, 10);
}

#[test]
fn unresolved_updates_are_noops() {
    let mut tree = two_files();
    tree.record_view("missing.txt");
    tree.record_like("also/missing");
    let x = tree.resolve("x.txt").unwrap();
    let y = tree.resolve("y.txt").unwrap();
    assert_eq!(x.total_views + y.total_views, 0);
    assert_eq!(x.likes + y.likes, 0);
}

#[test]
fn touch_reorders_recency() {
    let tree0 = two_files();
    let x_id = tree0.get_file("x.txt").unwrap();
    let y_id = tree0.get_file("y.txt").unwrap();
    let mut tree = tree0;
    // equal times tie-break by name: "d" (root) before x.txt before y.txt
    tree.touch_at(y_id, 99);
    assert_eq!(tree.by_recency[0], y_id);
    tree.touch_at(x_id, 100);
    assert_eq!(tree.by_recency[0], x_id);
    assert_eq!(tree.by_recency[1], y_id);
    assert_eq!(tree.resolve("x.txt").unwrap().date_modified, 100);
}

#[test]
fn weekly_rotation_caps_totals() {
    // eight week boundaries with one view per week: at most seven survive
    let snapshot = branch("/d", "d", vec![leaf("/d/f.txt", "f.txt", 1, 1)]);
    let mut tree = build(&snapshot).unwrap().0;
    for _ in 0..8 {
        tree.record_view("f.txt");
        tree.rotate_weeks();
    }
    let f = tree.resolve("f.txt").unwrap();
    assert!(f.total_views <= 7);
    assert_eq!(f.total_views, 6);
}

#[test]
fn rotation_shifts_buckets() {
    let snapshot = branch("/d", "d", vec![leaf("/d/f.txt", "f.txt", 1, 1)]);
    let mut tree = build(&snapshot).unwrap().0;
    tree.record_view("f.txt");
    tree.record_view("f.txt");
    assert_eq!(tree.resolve("f.txt").unwrap().total_views, 2);
    tree.rotate_weeks();
    // the two views moved to last week's bucket and still count
    assert_eq!(tree.resolve("f.txt").unwrap().total_views, 2);
    for _ in 0..6 {
        tree.rotate_weeks();
    }
    // seven boundaries later the bucket has rotated out
    assert_eq!(tree.resolve("f.txt").unwrap().total_views, 0);
}

#[test]
fn catalogue_lists_files_by_popularity() {
    let snapshot = branch(
        "/d",
        "d",
        vec![
            leaf("/d/a.txt", "a.txt", 1, 1),
            branch(
                "/d/sub",
                "sub",
                vec![
                    leaf("/d/sub/p.txt", "p.txt", 1, 1),
                    leaf("/d/sub/q.txt", "q.txt", 1, 1),
                    leaf("/d/sub/r.txt", "r.txt", 1, 1),
                ],
            ),
        ],
    );
    let mut tree = build(&snapshot).unwrap().0;
    tree.record_view("sub/r.txt");

    let sub_cat = tree.catalogue("sub", None);
    let names: Vec<&str> = sub_cat.iter().map(|v| v.name.as_str()).collect();
    // descendants of sub only, most popular first, directories are scopes
    assert_eq!(names, vec!["r.txt", "p.txt", "q.txt"]);

    let limited = tree.catalogue("sub", Some(2));
    assert_eq!(limited.len(), 2);
    assert_eq!(limited[0].name, "r.txt");

    // a file has no catalogued descendants; an unresolved path yields nothing
    assert!(tree.catalogue("a.txt", None).is_empty());
    assert!(tree.catalogue("nope", None).is_empty());

    // the whole-tree catalogue excludes the directory sub itself
    let all = catalogue_names(&tree, 0);
    assert_eq!(all, vec!["r.txt", "a.txt", "p.txt", "q.txt"]);
}

#[test]
fn node_view_projection() {
    let snapshot = branch(
        "/docs",
        "docs",
        vec![
            leaf("/docs/a.txt", "a.txt", 10, 5),
            branch("/docs/sub", "sub", vec![leaf("/docs/sub/b.txt", "b.txt", 20, 6)]),
        ],
    );
    let tree = build(&snapshot).unwrap().0;
    let sub = tree.resolve("sub").unwrap();
    assert_eq!(sub.name, "sub");
    assert!(!sub.is_file);
    assert_eq!(sub.child_count, 1);
    assert_eq!(sub.total_views, 0);
    assert_eq!(sub.likes, 0);
    let a = tree.resolve("a.txt").unwrap();
    assert_eq!(a.size, 10);
    assert_eq!(a.date_created, 5);
    assert_eq!(a.date_modified, 5);
    assert_eq!(a.child_count, 0);
}

#[test]
fn saturating_counters() {
    let mut node = Node::new("f".to_string(), true, 0, 0, 0, None);
    node.likes = u32::MAX;
    let mut tree = two_files();
    let x_id = tree.get_file("x.txt").unwrap();
    for _ in 0..3 {
        tree.record_like_at(x_id);
    }
    assert_eq!(tree.resolve("x.txt").unwrap().likes, 3);
    assert_eq!(node.likes, u32::MAX);
}
