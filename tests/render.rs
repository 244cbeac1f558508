use amalgamate::render::row_label;
use amalgamate::rows::TreeRow;

fn row(depth: usize, path: &str, is_dir: bool, is_expanded: bool, is_selected: bool) -> TreeRow {
    TreeRow {
        depth,
        path: path.to_string(),
        is_dir,
        is_expanded,
        is_selected,
    }
}

#[test]
fn label_of_collapsed_directory() {
    assert_eq!(row_label(&row(0, "/tmp/x/repo", true, false, true)), "▶ [✓] repo");
}

#[test]
fn label_of_expanded_directory() {
    assert_eq!(row_label(&row(1, "/tmp/x/repo/src", true, true, false)), "  ▼ [ ] src");
}

#[test]
fn label_of_nested_file() {
    assert_eq!(row_label(&row(2, "/tmp/x/repo/src/lib.rs", false, false, true)), "      [✓] lib.rs");
}

#[test]
fn label_of_path_without_separator() {
    assert_eq!(row_label(&row(0, "name", false, false, false)), "  [ ] name");
}
