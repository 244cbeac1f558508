use amalgamate::output::{file_body, file_header};

#[test]
fn header_names_the_path() {
    assert_eq!(file_header("/tmp/r/src/a.rs"), "// File: /tmp/r/src/a.rs\n");
}

#[test]
fn body_ends_with_blank_line() {
    assert_eq!(file_body("fn main() {}"), "fn main() {}\n\n");
    assert_eq!(file_body(""), "\n\n");
}
