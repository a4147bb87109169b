use filetree::file_tree::{FileNode, FileTree};
use filetree::fs::{EntryInfo, FsSnapshot};

fn entry(name: &str, is_dir: bool) -> EntryInfo {
    EntryInfo::new(name.to_string(), is_dir)
}

/// The directory layout most of these tests browse: two directories, two
/// files, and a hidden directory and file beside them.
fn test_snapshot(base: &str) -> FsSnapshot {
    let mut fs = FsSnapshot::new();
    fs.add_dir(
        base.to_string(),
        vec![
            entry("dir_a", true),
            entry("dir_b", true),
            entry(".hidden_dir", true),
            entry("file1.txt", false),
            entry("file2.rs", false),
            entry(".hidden_file", false),
        ],
    );
    fs.add_dir(format!("{}/dir_a", base), vec![entry("nested.txt", false)]);
    fs.add_dir(format!("{}/dir_b", base), vec![]);
    fs.add_dir(format!("{}/.hidden_dir", base), vec![]);
    fs
}

#[test]
fn test_file_node_new_file() {
    let node = FileNode::new("/base/file1.txt".to_string(), false, 1);

    assert_eq!(node.path, "/base/file1.txt");
    assert_eq!(node.name, "file1.txt");
    assert!(!node.is_dir);
    assert!(!node.expanded);
    assert_eq!(node.depth, 1);
    assert!(node.children.is_empty());
}

#[test]
fn test_file_node_new_directory() {
    let node = FileNode::new("/base/dir_a".to_string(), true, 2);

    assert_eq!(node.path, "/base/dir_a");
    assert_eq!(node.name, "dir_a");
    assert!(node.is_dir);
    assert!(!node.expanded);
    assert_eq!(node.depth, 2);
}

#[test]
fn test_file_node_load_children_excludes_hidden() {
    let fs = test_snapshot("/base");
    let mut node = FileNode::new("/base".to_string(), true, 0);

    node.load_children(fs.listing("/base").unwrap(), false);

    let names: Vec<&str> = node.children.iter().map(|c| c.name.as_str()).collect();
    assert!(names.contains(&"dir_a"));
    assert!(names.contains(&"dir_b"));
    assert!(names.contains(&"file1.txt"));
    assert!(!names.contains(&".hidden_dir"));
    assert!(!names.contains(&".hidden_file"));
}

#[test]
fn test_file_node_load_children_includes_hidden() {
    let fs = test_snapshot("/base");
    let mut node = FileNode::new("/base".to_string(), true, 0);

    node.load_children(fs.listing("/base").unwrap(), true);

    let names: Vec<&str> = node.children.iter().map(|c| c.name.as_str()).collect();
    assert!(names.contains(&"dir_a"));
    assert!(names.contains(&".hidden_dir"));
    assert!(names.contains(&".hidden_file"));
}

#[test]
fn test_file_node_load_children_sorts_dirs_first() {
    let fs = test_snapshot("/base");
    let mut node = FileNode::new("/base".to_string(), true, 0);

    node.load_children(fs.listing("/base").unwrap(), false);

    let first_file_idx = node
        .children
        .iter()
        .position(|c| !c.is_dir)
        .unwrap_or(node.children.len());

    for child in node.children.iter().take(first_file_idx) {
        assert!(child.is_dir, "{} should be a directory", child.name);
    }

    for child in node.children.iter().skip(first_file_idx) {
        assert!(!child.is_dir, "{} should be a file", child.name);
    }
}

#[test]
fn test_file_node_toggle_expand_loads_once() {
    let fs = test_snapshot("/base");
    let mut node = FileNode::new("/base/dir_a".to_string(), true, 1);
    node.toggle_expand(fs.listing("/base/dir_a").unwrap(), false);
    assert!(node.expanded);
    assert_eq!(node.children.len(), 1);
    node.toggle_expand(fs.listing("/base/dir_a").unwrap(), false);
    assert!(!node.expanded);
    // children are retained on collapse
    assert_eq!(node.children.len(), 1);
}

#[test]
fn test_file_tree_new() {
    let fs = test_snapshot("/base");
    let tree = FileTree::new("/base".to_string(), false, &fs).unwrap();

    assert!(tree.root.expanded);
    assert!(!tree.root.children.is_empty());
    assert!(!tree.flat_list.is_empty());
}

#[test]
fn test_file_tree_new_fails_without_root_listing() {
    let fs = FsSnapshot::new();
    assert!(FileTree::new("/base".to_string(), false, &fs).is_err());
}

#[test]
fn test_file_tree_len() {
    let fs = test_snapshot("/base");
    let tree = FileTree::new("/base".to_string(), false, &fs).unwrap();

    // Root + 2 dirs + 2 files (hidden excluded)
    assert_eq!(tree.len(), 5);
}

#[test]
fn test_file_tree_get_node() {
    let fs = test_snapshot("/base");
    let tree = FileTree::new("/base".to_string(), false, &fs).unwrap();

    let node = tree.get_node(0);
    assert!(node.is_some());
    assert_eq!(node.unwrap().path, "/base");

    let invalid = tree.get_node(1000);
    assert!(invalid.is_none());
}

#[test]
fn test_file_tree_collapse_all() {
    let fs = test_snapshot("/base");
    let mut tree = FileTree::new("/base".to_string(), false, &fs).unwrap();

    if let Some(dir_idx) = (0..tree.len()).find(|&i| {
        tree.get_node(i)
            .map(|n| n.is_dir && n.name == "dir_a")
            .unwrap_or(false)
    }) {
        tree.expand_node(dir_idx, &fs).unwrap();
    }

    tree.collapse_all();

    assert!(tree.root.expanded);
    for child in &tree.root.children {
        assert!(!child.expanded);
    }
}

#[test]
fn test_file_tree_set_show_hidden() {
    let fs = test_snapshot("/base");
    let mut tree = FileTree::new("/base".to_string(), false, &fs).unwrap();

    let count_without_hidden = tree.len();

    tree.set_show_hidden(true, &fs).unwrap();

    let count_with_hidden = tree.len();

    assert!(count_with_hidden > count_without_hidden);
}

#[test]
fn test_file_tree_refresh() {
    let fs = test_snapshot("/base");
    let mut tree = FileTree::new("/base".to_string(), false, &fs).unwrap();

    let initial_len = tree.len();

    // The same directory with one more file on disk.
    let mut fs2 = FsSnapshot::new();
    fs2.add_dir(
        "/base".to_string(),
        vec![
            entry("dir_a", true),
            entry("dir_b", true),
            entry("file1.txt", false),
            entry("file2.rs", false),
            entry("new_file.txt", false),
        ],
    );
    tree.refresh(&fs2).unwrap();

    assert_eq!(tree.len(), initial_len + 1);
}

#[test]
fn test_file_tree_expand_and_collapse_node() {
    let fs = test_snapshot("/base");
    let mut tree = FileTree::new("/base".to_string(), false, &fs).unwrap();

    let dir_idx = (0..tree.len())
        .find(|&i| {
            tree.get_node(i)
                .map(|n| n.is_dir && n.name == "dir_a")
                .unwrap_or(false)
        })
        .unwrap();

    let len_before = tree.len();

    tree.expand_node(dir_idx, &fs).unwrap();
    let len_after_expand = tree.len();
    assert!(len_after_expand > len_before);

    tree.collapse_node(dir_idx).unwrap();
    let len_after_collapse = tree.len();
    assert_eq!(len_after_collapse, len_before);
}

#[test]
fn test_file_tree_is_empty() {
    let mut fs = FsSnapshot::new();
    fs.add_dir("/empty".to_string(), vec![]);
    let tree = FileTree::new("/empty".to_string(), false, &fs).unwrap();

    // Tree has at least root
    assert!(!tree.is_empty());
}

#[test]
fn scenario_flat_order_dirs_first_then_lexicographic() {
    // Tree rooted at a directory containing files b.txt, a.txt and
    // subdirectory sub: flat order is root, sub, a.txt, b.txt.
    let mut fs = FsSnapshot::new();
    fs.add_dir(
        "/r".to_string(),
        vec![entry("b.txt", false), entry("a.txt", false), entry("sub", true)],
    );
    fs.add_dir("/r/sub".to_string(), vec![]);
    let tree = FileTree::new("/r".to_string(), false, &fs).unwrap();

    let names: Vec<String> = (0..tree.len())
        .map(|i| tree.get_node(i).unwrap().name.clone())
        .collect();
    assert_eq!(names, vec!["r", "sub", "a.txt", "b.txt"]);
}

#[test]
fn scenario_show_hidden_grows_and_shrinks_exactly() {
    // Directory with .env and readme.md: toggling show-hidden on grows the
    // flat list by exactly the hidden count, toggling back restores it.
    let mut fs = FsSnapshot::new();
    fs.add_dir(
        "/r".to_string(),
        vec![entry(".env", false), entry("readme.md", false)],
    );
    let mut tree = FileTree::new("/r".to_string(), false, &fs).unwrap();
    let without_hidden = tree.len();
    assert_eq!(without_hidden, 2);

    tree.set_show_hidden(true, &fs).unwrap();
    assert_eq!(tree.len(), without_hidden + 1);

    tree.set_show_hidden(false, &fs).unwrap();
    assert_eq!(tree.len(), without_hidden);
}

#[test]
fn scenario_flat_len_tracks_expansion() {
    // The flat list always counts exactly the nodes whose ancestors are all
    // expanded, across any sequence of expand/collapse operations.
    let fs = test_snapshot("/base");
    let mut tree = FileTree::new("/base".to_string(), false, &fs).unwrap();
    assert_eq!(tree.len(), 5);

    let dir_idx = tree.find_index_by_path("/base/dir_a").unwrap();
    tree.expand_node(dir_idx, &fs).unwrap();
    assert_eq!(tree.len(), 6); // nested.txt became visible

    let dir_b = tree.find_index_by_path("/base/dir_b").unwrap();
    tree.expand_node(dir_b, &fs).unwrap();
    assert_eq!(tree.len(), 6); // dir_b is empty

    tree.collapse_node(dir_idx).unwrap();
    assert_eq!(tree.len(), 5);

    tree.expand_node(dir_idx, &fs).unwrap();
    assert_eq!(tree.len(), 6);
}

#[test]
fn refresh_preserves_expansion_of_surviving_paths() {
    let fs = test_snapshot("/base");
    let mut tree = FileTree::new("/base".to_string(), false, &fs).unwrap();
    let dir_idx = tree.find_index_by_path("/base/dir_a").unwrap();
    tree.expand_node(dir_idx, &fs).unwrap();
    assert!(tree.find_index_by_path("/base/dir_a/nested.txt").is_some());

    tree.refresh(&fs).unwrap();

    // dir_a is still expanded after the rescan, so its child stays visible.
    assert!(tree.find_index_by_path("/base/dir_a/nested.txt").is_some());
}
