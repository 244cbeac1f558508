use amalgamate::order::sort_children;
use amalgamate::rows::create_tree_items;
use amalgamate::tree::{
    count_visible_nodes, toggle_at, toggle_node_expansion, toggle_node_selection, FileTreeNode,
    Toggle,
};

fn file(p: &str) -> FileTreeNode {
    FileTreeNode::file(p.to_string())
}

// r/ { a.rs, b.rs, sub/ { c.rs, deep/ { d.rs } } }
fn sample() -> FileTreeNode {
    let deep = FileTreeNode::directory("r/sub/deep".to_string(), vec![file("r/sub/deep/d.rs")]);
    let sub = FileTreeNode::directory("r/sub".to_string(), vec![deep, file("r/sub/c.rs")]);
    FileTreeNode::directory("r".to_string(), vec![sub, file("r/b.rs"), file("r/a.rs")])
}

fn paths(rows: &[String]) -> Vec<&str> {
    rows.iter().map(|s| s.as_str()).collect()
}

fn row_paths(root: &FileTreeNode) -> Vec<String> {
    create_tree_items(root).into_iter().map(|r| r.path).collect()
}

#[test]
fn new_nodes_are_selected_and_collapsed() {
    let f = file("x");
    assert!(f.is_selected && !f.is_expanded && !f.is_dir && f.children.is_empty());
    let d = FileTreeNode::directory("d".to_string(), vec![]);
    assert!(d.is_selected && !d.is_expanded && d.is_dir);
}

#[test]
fn children_sorted_files_first_then_by_path() {
    let root = sample();
    let names: Vec<&str> = root.children.iter().map(|c| c.path.as_str()).collect();
    assert_eq!(names, vec!["r/a.rs", "r/b.rs", "r/sub"]);
    let sorted = sort_children(vec![
        FileTreeNode::directory("a".to_string(), vec![]),
        file("z"),
        file("b"),
        file("ab"),
    ]);
    let names: Vec<&str> = sorted.iter().map(|c| c.path.as_str()).collect();
    assert_eq!(names, vec!["ab", "b", "z", "a"]);
}

#[test]
fn collapsed_root_shows_one_row() {
    let root = sample();
    assert_eq!(count_visible_nodes(&root), 1);
    assert_eq!(create_tree_items(&root).len(), 1);
}

#[test]
fn count_matches_rows_when_expanded() {
    let mut root = sample();
    toggle_node_expansion(&mut root, 0);
    assert_eq!(count_visible_nodes(&root), 4);
    toggle_node_expansion(&mut root, 3);
    assert_eq!(count_visible_nodes(&root), 6);
    toggle_node_expansion(&mut root, 5);
    assert_eq!(count_visible_nodes(&root), 7);
    let rows = create_tree_items(&root);
    assert_eq!(rows.len(), count_visible_nodes(&root));
    let p = row_paths(&root);
    assert_eq!(
        paths(&p),
        vec!["r", "r/a.rs", "r/b.rs", "r/sub", "r/sub/c.rs", "r/sub/deep", "r/sub/deep/d.rs"]
    );
    let depths: Vec<usize> = rows.iter().map(|r| r.depth).collect();
    assert_eq!(depths, vec![0, 1, 1, 1, 2, 2, 3]);
}

#[test]
fn expansion_on_file_row_changes_nothing() {
    let mut root = sample();
    toggle_node_expansion(&mut root, 0);
    let before = row_paths(&root);
    toggle_node_expansion(&mut root, 1);
    assert_eq!(row_paths(&root), before);
    assert_eq!(count_visible_nodes(&root), 4);
    assert!(root.children[0].is_selected && !root.children[0].is_expanded);
}

#[test]
fn expansion_past_last_row_changes_nothing() {
    let mut root = sample();
    toggle_node_expansion(&mut root, 0);
    toggle_at(&mut root, 9, Toggle::Expansion);
    assert_eq!(count_visible_nodes(&root), 4);
}

#[test]
fn selection_cascades_to_every_descendant() {
    let mut root = sample();
    toggle_node_expansion(&mut root, 0);
    // row 3 is r/sub, collapsed
    toggle_node_selection(&mut root, 3);
    let sub = &root.children[2];
    assert!(!sub.is_selected);
    assert!(sub.children.iter().all(|c| !c.is_selected));
    assert!(!sub.children[1].children[0].is_selected);
    assert_eq!(paths(&root.collect_selected_files()), vec!["r/a.rs", "r/b.rs"]);
    toggle_node_selection(&mut root, 3);
    assert!(root.children[2].children[1].children[0].is_selected);
    assert_eq!(
        paths(&root.collect_selected_files()),
        vec!["r/a.rs", "r/b.rs", "r/sub/c.rs", "r/sub/deep/d.rs"]
    );
}

#[test]
fn selection_on_file_row_flips_that_file() {
    let mut root = sample();
    toggle_node_expansion(&mut root, 0);
    toggle_node_selection(&mut root, 2);
    assert!(!root.children[1].is_selected);
    assert!(root.children[0].is_selected);
    assert_eq!(paths(&root.collect_selected_files()), vec!["r/a.rs", "r/sub/c.rs", "r/sub/deep/d.rs"]);
}

#[test]
fn collect_includes_collapsed_and_skips_directories() {
    let root = sample();
    assert_eq!(
        paths(&root.collect_selected_files()),
        vec!["r/a.rs", "r/b.rs", "r/sub/c.rs", "r/sub/deep/d.rs"]
    );
}

#[test]
fn nothing_to_write_without_selection() {
    let mut root = sample();
    toggle_node_selection(&mut root, 0);
    assert!(root.collect_selected_files().is_empty());
    assert!(root.files_to_write().is_none());
    toggle_node_selection(&mut root, 0);
    assert_eq!(root.files_to_write().map(|f| f.len()), Some(4));
}
