use amalgamate::output::{file_body, file_header};
use amalgamate::session::{Action, Key, Session};
use amalgamate::tree::{count_visible_nodes, FileTreeNode};

fn flat() -> FileTreeNode {
    FileTreeNode::directory(
        "r".to_string(),
        vec![
            FileTreeNode::file("r/c".to_string()),
            FileTreeNode::file("r/a".to_string()),
            FileTreeNode::file("r/b".to_string()),
        ],
    )
}

#[test]
fn session_starts_on_first_row_with_root_open() {
    let s = Session::new(flat());
    assert!(s.focus_on_tree);
    assert_eq!(s.cursor, 0);
    assert!(s.root.is_expanded);
    assert_eq!(count_visible_nodes(&s.root), 4);
}

#[test]
fn deselect_b_then_confirm_writes_a_and_c() {
    let mut s = Session::new(flat());
    assert!(matches!(s.handle(Key::Down), Action::Continue));
    assert!(matches!(s.handle(Key::Down), Action::Continue));
    assert_eq!(s.cursor, 2);
    assert!(matches!(s.handle(Key::ToggleSelect), Action::Continue));
    assert!(matches!(s.handle(Key::SwitchFocus), Action::Continue));
    match s.handle(Key::Confirm) {
        Action::Write(files) => {
            assert_eq!(files, vec!["r/a".to_string(), "r/c".to_string()]);
            let mut out = String::new();
            for (f, text) in files.iter().zip(["A", "C"]) {
                out.push_str(&file_header(f));
                out.push_str(&file_body(text));
            }
            assert_eq!(out, "// File: r/a\nA\n\n// File: r/c\nC\n\n");
            assert!(!out.contains("r/b"));
        }
        _ => panic!("expected files to write"),
    }
}

#[test]
fn empty_selection_exits_without_writing() {
    let mut s = Session::new(flat());
    s.handle(Key::ToggleSelect);
    assert!(!s.root.is_selected);
    s.handle(Key::SwitchFocus);
    assert!(matches!(s.handle(Key::Confirm), Action::Exit));
}

#[test]
fn cursor_stays_in_range() {
    let mut s = Session::new(flat());
    for _ in 0..10 {
        s.handle(Key::Down);
    }
    assert_eq!(s.cursor, 3);
    for _ in 0..10 {
        s.handle(Key::Up);
    }
    assert_eq!(s.cursor, 0);
}

#[test]
fn root_stays_open() {
    let mut s = Session::new(flat());
    s.handle(Key::Confirm);
    assert!(s.root.is_expanded);
    assert_eq!(s.cursor, 0);
    s.handle(Key::Down);
    assert_eq!(s.cursor, 1);
}

#[test]
fn collapsing_a_directory_keeps_cursor_valid() {
    let sub = FileTreeNode::directory(
        "r/sub".to_string(),
        vec![FileTreeNode::file("r/sub/x".to_string())],
    );
    let mut s = Session::new(FileTreeNode::directory("r".to_string(), vec![sub]));
    s.handle(Key::Down);
    s.handle(Key::Confirm);
    assert_eq!(count_visible_nodes(&s.root), 3);
    s.handle(Key::Down);
    assert_eq!(s.cursor, 2);
    s.handle(Key::Up);
    s.handle(Key::Confirm);
    assert_eq!(s.cursor, 1);
    assert_eq!(count_visible_nodes(&s.root), 2);
}

#[test]
fn keys_other_than_switch_and_confirm_ignored_on_button() {
    let mut s = Session::new(flat());
    s.handle(Key::Down);
    s.handle(Key::SwitchFocus);
    s.handle(Key::Down);
    s.handle(Key::Up);
    s.handle(Key::ToggleSelect);
    assert_eq!(s.cursor, 1);
    assert!(s.root.children[0].is_selected);
    s.handle(Key::SwitchFocus);
    assert!(s.focus_on_tree);
}

#[test]
fn quit_ends_the_session() {
    let mut s = Session::new(flat());
    assert!(matches!(s.handle(Key::Quit), Action::Exit));
    assert!(matches!(s.handle(Key::Other), Action::Continue));
}
