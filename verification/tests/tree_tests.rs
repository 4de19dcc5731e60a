use explorer_core::tree::{FileTreeNode, NodeKind};
use explorer_core::sorter::sort_tree;
use explorer_core::walker::{
    get_file_tree, read_dir_recursive_inner, should_expand, use_parallel, RawListing, RawNode,
    PARALLEL_MAX_ENTRIES, PARALLEL_MIN_ENTRIES,
};

fn raw_file(name: &str, path: &str, size: u64) -> RawNode {
    RawNode::Entry {
        path: path.to_string(),
        name: Some(name.to_string()),
        kind: NodeKind::File,
        is_file: true,
        size,
        modified: Some(1700000000),
        listing: None,
    }
}

fn raw_dir(name: &str, path: &str, listing: Option<RawListing>) -> RawNode {
    RawNode::Entry {
        path: path.to_string(),
        name: Some(name.to_string()),
        kind: NodeKind::Directory,
        is_file: false,
        size: 0,
        modified: Some(1700000000),
        listing,
    }
}

fn entries(list: Vec<RawNode>) -> Option<RawListing> {
    Some(RawListing::Entries { entries: list })
}

#[test]
fn test_build_single_file() {
    let raw = raw_file("a.txt", "/r/a.txt", 42);
    let node = read_dir_recursive_inner(&raw).unwrap();
    assert_eq!(node.name, "a.txt");
    assert_eq!(node.path, "/r/a.txt");
    assert_eq!(node.node_type, NodeKind::File);
    assert_eq!(node.size, Some(42));
    assert_eq!(node.modified, Some(1700000000));
    assert!(node.children.is_none());
}

#[test]
fn test_depth_boundary_children_absent_vs_empty() {
    // Not expanded (cut off by the depth limit): children absent.
    let cut = raw_dir("root", "/root", None);
    let node = read_dir_recursive_inner(&cut).unwrap();
    assert!(node.children.is_none());

    // Expanded and genuinely empty: children present and empty.
    let empty = raw_dir("root", "/root", entries(vec![]));
    let node = read_dir_recursive_inner(&empty).unwrap();
    assert_eq!(node.children.as_ref().map(|c| c.len()), Some(0));

    // Depth one: immediate children present, each directory child unexpanded.
    let one = raw_dir(
        "root",
        "/root",
        entries(vec![raw_dir("sub", "/root/sub", None), raw_file("f", "/root/f", 1)]),
    );
    let node = read_dir_recursive_inner(&one).unwrap();
    let children = node.children.unwrap();
    assert_eq!(children.len(), 2);
    for child in &children {
        assert!(child.children.is_none());
    }
}

#[test]
fn test_build_unreadable_is_io_error() {
    let raw = RawNode::Unreadable { message: "No such file or directory (os error 2)".to_string() };
    let err = get_file_tree(&raw).unwrap_err();
    assert_eq!(err.error_type, "io");
    assert_eq!(err.message, "No such file or directory (os error 2)");
}

#[test]
fn test_build_nameless_path_is_invalid_path_error() {
    let raw = RawNode::Entry {
        path: "/".to_string(),
        name: None,
        kind: NodeKind::Directory,
        is_file: false,
        size: 0,
        modified: None,
        listing: None,
    };
    let err = read_dir_recursive_inner(&raw).unwrap_err();
    assert_eq!(err.error_type, "custom");
    assert_eq!(err.message, "Invalid path");
}

#[test]
fn test_build_failed_listing_aborts_with_first_error() {
    let raw = raw_dir(
        "root",
        "/root",
        entries(vec![
            raw_file("ok.txt", "/root/ok.txt", 1),
            RawNode::Unreadable { message: "permission denied".to_string() },
            RawNode::Unreadable { message: "later error".to_string() },
        ]),
    );
    let err = read_dir_recursive_inner(&raw).unwrap_err();
    assert_eq!(err.error_type, "io");
    assert_eq!(err.message, "permission denied");
}

#[test]
fn test_sorted_tree_files_before_directories_case_insensitive() {
    let raw = raw_dir(
        "root",
        "/root",
        entries(vec![
            raw_dir("docs", "/root/docs", entries(vec![])),
            raw_file("Zeta.txt", "/root/Zeta.txt", 1),
            raw_file("alpha.txt", "/root/alpha.txt", 2),
            raw_dir("Assets", "/root/Assets", entries(vec![])),
        ]),
    );
    let node = get_file_tree(&raw).unwrap();
    let children = node.children.unwrap();
    let names: Vec<&str> = children.iter().map(|c| c.name.as_str()).collect();
    assert_eq!(names, vec!["alpha.txt", "Zeta.txt", "Assets", "docs"]);
    assert_eq!(children[0].node_type, NodeKind::File);
    assert_eq!(children[1].node_type, NodeKind::File);
    assert_eq!(children[2].node_type, NodeKind::Directory);
    assert_eq!(children[3].node_type, NodeKind::Directory);
}

#[test]
fn test_sort_is_stable_for_equal_keys() {
    let raw = raw_dir(
        "root",
        "/root",
        entries(vec![
            raw_file("README", "/root/README", 1),
            raw_file("ReadMe", "/root/ReadMe", 2),
            raw_file("readme", "/root/readme", 3),
        ]),
    );
    let node = get_file_tree(&raw).unwrap();
    let children = node.children.unwrap();
    let names: Vec<&str> = children.iter().map(|c| c.name.as_str()).collect();
    // Equal case-insensitive keys keep their enumeration order.
    assert_eq!(names, vec!["README", "ReadMe", "readme"]);
}

#[test]
fn test_sort_recurses_into_subdirectories() {
    let raw = raw_dir(
        "root",
        "/root",
        entries(vec![raw_dir(
            "sub",
            "/root/sub",
            entries(vec![
                raw_file("b.txt", "/root/sub/b.txt", 1),
                raw_file("A.txt", "/root/sub/A.txt", 2),
            ]),
        )]),
    );
    let node = get_file_tree(&raw).unwrap();
    let sub = &node.children.unwrap()[0];
    let names: Vec<String> = sub.children.as_ref().unwrap().iter().map(|c| c.name.clone()).collect();
    assert_eq!(names, vec!["A.txt".to_string(), "b.txt".to_string()]);
}

#[test]
fn test_sort_applied_twice_is_idempotent() {
    let raw = raw_dir(
        "root",
        "/root",
        entries(vec![
            raw_dir("zz", "/root/zz", entries(vec![raw_file("x", "/root/zz/x", 1)])),
            raw_file("M.txt", "/root/M.txt", 1),
            raw_file("a.txt", "/root/a.txt", 2),
        ]),
    );
    let built = read_dir_recursive_inner(&raw).unwrap();
    let once = sort_tree(&built);
    let twice = sort_tree(&once);
    assert_eq!(once, twice);
}

#[test]
fn test_parallel_and_sequential_orders_agree_as_sets() {
    // The same entries handed over in two enumeration orders, as a worker
    // pool may finish them: the produced child set does not change.
    let mut forward = Vec::new();
    let mut backward = Vec::new();
    for i in 0..12 {
        forward.push(raw_file(&format!("f{}", i), &format!("/r/f{}", i), i as u64));
    }
    for i in (0..12).rev() {
        backward.push(raw_file(&format!("f{}", i), &format!("/r/f{}", i), i as u64));
    }
    let a = get_file_tree(&raw_dir("r", "/r", entries(forward))).unwrap();
    let b = get_file_tree(&raw_dir("r", "/r", entries(backward))).unwrap();
    // After the deterministic sort pass the two trees agree entirely.
    assert_eq!(a, b);
}

#[test]
fn test_use_parallel_sweet_spot() {
    assert!(!use_parallel(10, PARALLEL_MIN_ENTRIES, PARALLEL_MAX_ENTRIES));
    assert!(use_parallel(11, PARALLEL_MIN_ENTRIES, PARALLEL_MAX_ENTRIES));
    assert!(use_parallel(49, PARALLEL_MIN_ENTRIES, PARALLEL_MAX_ENTRIES));
    assert!(!use_parallel(50, PARALLEL_MIN_ENTRIES, PARALLEL_MAX_ENTRIES));
    assert!(!use_parallel(0, PARALLEL_MIN_ENTRIES, PARALLEL_MAX_ENTRIES));
}

#[test]
fn test_should_expand_depth_rule() {
    assert!(!should_expand(NodeKind::Directory, 0, 0));
    assert!(should_expand(NodeKind::Directory, 0, 1));
    assert!(should_expand(NodeKind::Directory, 3, 4));
    assert!(!should_expand(NodeKind::Directory, 4, 4));
    assert!(!should_expand(NodeKind::File, 0, 10));
}

#[test]
fn test_special_file_has_no_size() {
    // An entry that is neither a directory nor a plain file keeps the
    // file kind but carries no size.
    let raw = RawNode::Entry {
        path: "/dev/null".to_string(),
        name: Some("null".to_string()),
        kind: NodeKind::File,
        is_file: false,
        size: 0,
        modified: None,
        listing: None,
    };
    let node = read_dir_recursive_inner(&raw).unwrap();
    assert_eq!(node.node_type, NodeKind::File);
    assert_eq!(node.size, None);
    assert_eq!(node.modified, None);
}
