use amalgamate::archive::read_archive;
use std::io::Write;

fn sample_zip() -> Vec<u8> {
    let mut w = zip::ZipWriter::new(std::io::Cursor::new(Vec::new()));
    let opts = zip::write::FileOptions::default();
    w.add_directory("repo-1/", opts).unwrap();
    w.start_file("repo-1/a.txt", opts).unwrap();
    w.write_all(b"alpha").unwrap();
    w.add_directory("repo-1/src/", opts).unwrap();
    w.start_file("repo-1/src/b.rs", opts).unwrap();
    w.write_all(b"fn b() {}").unwrap();
    w.finish().unwrap().into_inner()
}

#[test]
fn reads_entries_in_order() {
    let entries = read_archive(sample_zip()).unwrap();
    let names: Vec<&str> = entries.iter().map(|e| e.name.as_str()).collect();
    assert_eq!(names, vec!["repo-1/", "repo-1/a.txt", "repo-1/src/", "repo-1/src/b.rs"]);
    let dirs: Vec<bool> = entries.iter().map(|e| e.is_dir).collect();
    assert_eq!(dirs, vec![true, false, true, false]);
    assert_eq!(entries[1].data, b"alpha".to_vec());
    assert_eq!(entries[3].data, b"fn b() {}".to_vec());
}

#[test]
fn rejects_bytes_that_are_no_archive() {
    assert!(read_archive(b"not a zip archive at all".to_vec()).is_err());
    assert!(read_archive(Vec::new()).is_err());
}
