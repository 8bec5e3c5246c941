use automod::{source_files, Entry, Error, FsNode};

fn file(name: &str) -> Entry {
    Entry { name: name.to_string(), node: FsNode::File }
}

fn dir(name: &str, entries: Vec<Entry>) -> Entry {
    Entry { name: name.to_string(), node: FsNode::Dir(entries) }
}

fn other(name: &str) -> Entry {
    Entry { name: name.to_string(), node: FsNode::Other }
}

fn unreadable(name: &str, kind: std::io::ErrorKind, msg: &str) -> Entry {
    Entry { name: name.to_string(), node: FsNode::Unreadable(std::io::Error::new(kind, msg)) }
}

fn pairs(refs: &[(String, String)]) -> Vec<(&str, &str)> {
    refs.iter().map(|p| (p.0.as_str(), p.1.as_str())).collect()
}

#[test]
fn flat_dir_basic() {
    let entries = vec![file("b-c.rs"), file("mod.rs"), file("a.rs")];
    let refs = source_files("root", entries).unwrap();
    assert_eq!(pairs(&refs), vec![("root/a.rs", "a"), ("root/b-c.rs", "b_c")]);
}

#[test]
fn hyphen_replaced() {
    let refs = source_files("tests", vec![file("my-mod.rs")]).unwrap();
    assert_eq!(pairs(&refs), vec![("tests/my-mod.rs", "my_mod")]);
}

#[test]
fn marker_dir_single_reference() {
    let entries = vec![dir("sub", vec![file("mod.rs"), file("extra.rs")])];
    let refs = source_files("root", entries).unwrap();
    assert_eq!(pairs(&refs), vec![("root/sub/mod.rs", "sub")]);
}

#[test]
fn marker_must_be_a_file() {
    // A directory named mod.rs is no marker: the parent is recursed into.
    let entries = vec![dir("sub", vec![dir("mod.rs", vec![]), file("extra.rs")])];
    let refs = source_files("root", entries).unwrap();
    assert_eq!(pairs(&refs), vec![("root/sub/extra.rs", "sub_extra")]);
}

#[test]
fn plain_dir_recursed() {
    let entries = vec![dir("parent", vec![file("child.rs")])];
    let refs = source_files("root", entries).unwrap();
    assert_eq!(pairs(&refs), vec![("root/parent/child.rs", "parent_child")]);
}

#[test]
fn nested_two_levels() {
    let entries = vec![dir("a", vec![dir("b", vec![file("c.rs")])])];
    let refs = source_files("root", entries).unwrap();
    assert_eq!(pairs(&refs), vec![("root/a/b/c.rs", "a_b_c")]);
}

#[test]
fn hyphen_in_directory_name() {
    let entries = vec![dir("my-dir", vec![file("child.rs")])];
    let refs = source_files("root", entries).unwrap();
    assert_eq!(pairs(&refs), vec![("root/my-dir/child.rs", "my_dir_child")]);
}

#[test]
fn empty_listing_is_empty_error() {
    match source_files("root", vec![]) {
        Err(Error::Empty) => {}
        _ => panic!("expected the empty error"),
    }
}

#[test]
fn no_qualifying_entries_is_empty_error() {
    let entries = vec![
        file("mod.rs"),
        file("lib.rs"),
        file("main.rs"),
        file("notes.txt"),
        file("noext"),
        other("socket"),
        dir("empty", vec![]),
    ];
    match source_files("root", entries) {
        Err(Error::Empty) => {}
        _ => panic!("expected the empty error"),
    }
}

#[test]
fn unreadable_fails_with_io() {
    let entries = vec![
        file("a.rs"),
        unreadable("locked", std::io::ErrorKind::PermissionDenied, "denied"),
    ];
    match source_files("root", entries) {
        Err(Error::Io(err)) => {
            assert_eq!(err.kind(), std::io::ErrorKind::PermissionDenied);
            assert_eq!(err.to_string(), "denied");
        }
        _ => panic!("expected the I/O error"),
    }
}

#[test]
fn unreadable_nested_fails_with_io() {
    let entries = vec![dir(
        "outer",
        vec![unreadable("inner", std::io::ErrorKind::NotFound, "gone")],
    )];
    match source_files("root", entries) {
        Err(Error::Io(err)) => assert_eq!(err.kind(), std::io::ErrorKind::NotFound),
        _ => panic!("expected the I/O error"),
    }
}

#[test]
fn unreadable_below_marker_dir_is_not_read() {
    let entries = vec![dir(
        "sub",
        vec![
            file("mod.rs"),
            unreadable("locked", std::io::ErrorKind::PermissionDenied, "denied"),
        ],
    )];
    let refs = source_files("root", entries).unwrap();
    assert_eq!(pairs(&refs), vec![("root/sub/mod.rs", "sub")]);
}

#[test]
fn reserved_names_skipped_everywhere() {
    let entries = vec![
        file("lib.rs"),
        file("main.rs"),
        dir("sub", vec![file("lib.rs"), file("keep.rs")]),
    ];
    let refs = source_files("root", entries).unwrap();
    assert_eq!(pairs(&refs), vec![("root/sub/keep.rs", "sub_keep")]);
}

#[test]
fn extension_rules() {
    let entries = vec![
        file("a.txt"),
        file("noext"),
        file(".rs"),
        file("keep.rs"),
    ];
    let refs = source_files("root", entries).unwrap();
    assert_eq!(pairs(&refs), vec![("root/keep.rs", "keep")]);
}

#[test]
fn output_is_sorted_by_path() {
    let entries = vec![file("zeta.rs"), dir("mid", vec![file("inner.rs")]), file("alpha.rs")];
    let refs = source_files("root", entries).unwrap();
    assert_eq!(
        pairs(&refs),
        vec![
            ("root/alpha.rs", "alpha"),
            ("root/mid/inner.rs", "mid_inner"),
            ("root/zeta.rs", "zeta"),
        ]
    );
}

#[test]
fn scan_is_deterministic_across_listing_orders() {
    let one = vec![file("b.rs"), dir("d", vec![file("x.rs")]), file("a.rs")];
    let two = vec![file("a.rs"), file("b.rs"), dir("d", vec![file("x.rs")])];
    let r1 = source_files("root", one).unwrap();
    let r2 = source_files("root", two).unwrap();
    assert_eq!(r1, r2);
}

#[test]
fn empty_error_message() {
    assert_eq!(Error::Empty.message(), "no source files found");
}

#[test]
fn io_error_message_preserved() {
    let err = std::io::Error::new(std::io::ErrorKind::PermissionDenied, "denied");
    let wrapped = Error::from(err);
    match &wrapped {
        Error::Io(inner) => assert_eq!(inner.kind(), std::io::ErrorKind::PermissionDenied),
        _ => panic!("expected the I/O variant"),
    }
    assert_eq!(wrapped.message(), "denied");
}
