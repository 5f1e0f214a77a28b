use file_tree::builder::{build, IoErrKind, ScanEntry};
use file_tree::errors::BuildErr;

fn file_entry(path: &str, name: &str, size: u64, modified: u64) -> ScanEntry {
    ScanEntry::Item {
        path: path.to_string(),
        name: Some(name.to_string()),
        is_file: true,
        is_symlink: false,
        size,
        created: modified,
        modified,
        entries: Vec::new(),
        listing_err: None,
    }
}

fn dir_entry(path: &str, name: &str, entries: Vec<ScanEntry>) -> ScanEntry {
    ScanEntry::Item {
        path: path.to_string(),
        name: Some(name.to_string()),
        is_file: false,
        is_symlink: false,
        size: 0,
        created: 1,
        modified: 1,
        entries,
        listing_err: None,
    }
}

#[test]
fn concrete_scenario() {
    // /docs holds a.txt (size 10) and sub/b.txt (size 20)
    let snapshot = dir_entry(
        "/docs",
        "docs",
        vec![
            file_entry("/docs/a.txt", "a.txt", 10, 5),
            dir_entry("/docs/sub", "sub", vec![file_entry("/docs/sub/b.txt", "b.txt", 20, 6)]),
        ],
    );
    let (tree, warnings) = build(&snapshot).unwrap();
    assert!(warnings.is_empty());

    let b = tree.resolve("sub/b.txt").unwrap();
    assert_eq!(b.size, 20);
    assert!(b.is_file);

    let sub_children = tree.children_of("sub").unwrap();
    assert_eq!(sub_children.len(), 1);
    assert_eq!(sub_children[0].name, "b.txt");

    assert!(tree.children_of("a.txt").is_none());
}

#[test]
fn partial_build() {
    // one unreadable subdirectory and two readable files: the build succeeds
    // with the two files and a warning naming the unreadable entry
    let snapshot = dir_entry(
        "/docs",
        "docs",
        vec![
            file_entry("/docs/a.txt", "a.txt", 1, 1),
            ScanEntry::Failed {
                path: "/docs/locked".to_string(),
                kind: IoErrKind::Permission,
            },
            file_entry("/docs/b.txt", "b.txt", 2, 2),
        ],
    );
    let (tree, warnings) = build(&snapshot).unwrap();
    assert!(tree.get_file("a.txt").is_some());
    assert!(tree.get_file("b.txt").is_some());
    assert!(tree.get_file("locked").is_none());
    assert!(!warnings.is_empty());
    assert!(warnings
        .iter()
        .any(|w| matches!(w, BuildErr::PermissionErr(p) if p == "/docs/locked")));
}

#[test]
fn symlink_excluded() {
    // a symbolic link entry never appears among the built children
    let snapshot = dir_entry(
        "/docs",
        "docs",
        vec![
            file_entry("/docs/real.txt", "real.txt", 1, 1),
            ScanEntry::Item {
                path: "/docs/link".to_string(),
                name: Some("link".to_string()),
                is_file: false,
                is_symlink: true,
                size: 0,
                created: 1,
                modified: 1,
                entries: vec![file_entry("/docs/link/inner.txt", "inner.txt", 9, 9)],
                listing_err: None,
            },
        ],
    );
    let (tree, warnings) = build(&snapshot).unwrap();
    let children = tree.children_of("").unwrap_or_default();
    assert!(children.is_empty()); // the root itself has no resolvable path
    let root_children = tree.nodes[0]
        .get_children()
        .iter()
        .map(|&id| tree.nodes[id].name.clone())
        .collect::<Vec<_>>();
    assert_eq!(root_children, vec!["real.txt".to_string()]);
    assert!(tree.get_file("link").is_none());
    assert!(tree.get_file("link/inner.txt").is_none());
    assert!(warnings
        .iter()
        .any(|w| matches!(w, BuildErr::IsSymlinkErr(p) if p == "/docs/link")));
}

#[test]
fn root_failures() {
    let perm = ScanEntry::Failed {
        path: "/top".to_string(),
        kind: IoErrKind::Permission,
    };
    assert!(matches!(build(&perm), Err(BuildErr::PermissionErr(p)) if p == "/top"));

    let missing = ScanEntry::Failed {
        path: "/gone".to_string(),
        kind: IoErrKind::NotFound,
    };
    assert!(matches!(build(&missing), Err(BuildErr::NotFoundErr(p)) if p == "/gone"));

    let other = ScanEntry::Failed {
        path: "/odd".to_string(),
        kind: IoErrKind::Other,
    };
    assert!(matches!(build(&other), Err(BuildErr::IoErr(p)) if p == "/odd"));

    let mut link_root = dir_entry("/docs", "docs", vec![]);
    if let ScanEntry::Item { is_symlink, .. } = &mut link_root {
        *is_symlink = true;
    }
    assert!(matches!(build(&link_root), Err(BuildErr::IsSymlinkErr(p)) if p == "/docs"));

    let mut nameless = dir_entry("/", "x", vec![]);
    if let ScanEntry::Item { name, .. } = &mut nameless {
        *name = None;
    }
    assert!(matches!(build(&nameless), Err(BuildErr::InvalidPathErr(p)) if p == "/"));
}

#[test]
fn duplicate_name_kept_once() {
    // the first sibling under a name is kept; the second leaves a warning
    let snapshot = dir_entry(
        "/d",
        "d",
        vec![
            file_entry("/d/a.txt", "a.txt", 1, 1),
            file_entry("/d/a.txt", "a.txt", 2, 2),
        ],
    );
    let (tree, warnings) = build(&snapshot).unwrap();
    assert_eq!(tree.nodes.len(), 2);
    let kept = tree.resolve("a.txt").unwrap();
    assert_eq!(kept.size, 1);
    assert!(warnings
        .iter()
        .any(|w| matches!(w, BuildErr::DuplicateNameErr(p) if p == "/d/a.txt")));
}

#[test]
fn bad_child_names_skipped() {
    let mut nameless = file_entry("/d/x", "x", 1, 1);
    if let ScanEntry::Item { name, .. } = &mut nameless {
        *name = None;
    }
    let snapshot = dir_entry(
        "/d",
        "d",
        vec![nameless, file_entry("/d/weird", "we/ird", 1, 1)],
    );
    let (tree, warnings) = build(&snapshot).unwrap();
    assert_eq!(tree.nodes.len(), 1);
    let invalid = warnings
        .iter()
        .filter(|w| matches!(w, BuildErr::InvalidPathErr(_)))
        .count();
    assert_eq!(invalid, 2);
}

#[test]
fn listing_error_recorded() {
    let unreadable = ScanEntry::Item {
        path: "/d/sub".to_string(),
        name: Some("sub".to_string()),
        is_file: false,
        is_symlink: false,
        size: 0,
        created: 1,
        modified: 1,
        entries: Vec::new(),
        listing_err: Some(IoErrKind::Permission),
    };
    let snapshot = dir_entry("/d", "d", vec![unreadable]);
    let (tree, warnings) = build(&snapshot).unwrap();
    assert!(tree.get_file("sub").is_some());
    assert!(warnings
        .iter()
        .any(|w| matches!(w, BuildErr::PermissionErr(p) if p == "/d/sub")));
}
