use amalgamate::url::{archive_url, is_directory_entry, resolve_url};

#[test]
fn test_url_resolution() {
    let test_cases = vec![
        (
            "https://github.com/typst/typst.git",
            "https://github.com/typst/typst",
        ),
        (
            "https://github.com/typst/typst/",
            "https://github.com/typst/typst",
        ),
        (
            "https://github.com/typst/typst",
            "https://github.com/typst/typst",
        ),
        (
            "https://github.com/typst/typst.git/",
            "https://github.com/typst/typst",
        ),
    ];

    for (input, expected) in test_cases {
        assert_eq!(resolve_url(input), expected);
    }
}

#[test]
fn resolve_twice_equals_once() {
    for input in ["https://host/x.git/", "https://host/x", "https://host/x/", "https://host/x.git"] {
        let once = resolve_url(input);
        assert_eq!(resolve_url(&once), once);
    }
}

#[test]
fn resolve_strips_one_suffix_of_each_kind() {
    assert_eq!(resolve_url("https://host/x//"), "https://host/x/");
    assert_eq!(resolve_url("https://host/x.git.git"), "https://host/x.git");
    assert_eq!(resolve_url(""), "");
    assert_eq!(resolve_url("/"), "");
    assert_eq!(resolve_url(".git"), "");
    assert_eq!(resolve_url("git/"), "git");
}

#[test]
fn archive_url_of_default_branch() {
    assert_eq!(
        archive_url("https://github.com/typst/typst"),
        "https://github.com/typst/typst/zipball/master"
    );
}

#[test]
fn directory_entries_end_in_slash() {
    assert!(is_directory_entry("repo-abc/src/"));
    assert!(!is_directory_entry("repo-abc/src/main.rs"));
    assert!(!is_directory_entry(""));
}

#[test]
fn resolve_strips_slash_before_git() {
    assert_eq!(resolve_url("https://host/x/.git"), "https://host/x");
    assert_eq!(resolve_url(&resolve_url("https://host/x/.git")), "https://host/x");
}
