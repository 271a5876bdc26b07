use std::path::Path;
use zed_rmate_server::path::{file_name, join, same_path, split_segments};

const PATHS: [&str; 36] = [
    "", "/", "//", ".", "./", "./.", "..", "../", "/..", "/.", "a", "a/", "a//", "a/.", "a/./", "a/..",
    "a/b", "a//b", "a/./b", "./a", "./a/b", "././a", "/a", "//a", "/./a", "/a/b/", "/a/b/.", "/a/b/..",
    "...", "a/...", ".a", "a.", "../a", "a/../b", "/usr/bin/", "foo.txt/.//",
];

#[test]
fn file_name_is_that_of_the_standard_library() {
    for s in PATHS {
        let expected = Path::new(s).file_name().map(|n| n.to_string_lossy().to_string());
        assert_eq!(file_name(s), expected, "{:?}", s);
    }
}

#[test]
fn same_path_is_that_of_the_standard_library() {
    for a in PATHS {
        for b in PATHS {
            assert_eq!(same_path(a, b), Path::new(a) == Path::new(b), "{:?} {:?}", a, b);
        }
    }
}

#[test]
fn file_name_examples() {
    assert_eq!(file_name("/usr/bin/"), Some("bin".to_string()));
    assert_eq!(file_name("tmp/foo.txt"), Some("foo.txt".to_string()));
    assert_eq!(file_name("foo.txt/."), Some("foo.txt".to_string()));
    assert_eq!(file_name("foo.txt/.."), None);
    assert_eq!(file_name("/"), None);
}

#[test]
fn segments_are_what_stands_between_slashes() {
    assert_eq!(split_segments("/a//b/"), vec!["", "a", "", "b", ""]);
    assert_eq!(split_segments(""), vec![""]);
    assert_eq!(split_segments("a"), vec!["a"]);
}

#[test]
fn a_plain_name_stays_in_its_directory() {
    for dir in ["/tmp/x", "/tmp/x/", ".", "a", ""] {
        let path = join(dir, "name~1.txt");
        assert_eq!(file_name(&path), Some("name~1.txt".to_string()));
        assert!(same_path(&path, &Path::new(dir).join("name~1.txt").to_string_lossy()));
    }
}

#[test]
fn join_is_that_of_the_standard_library_for_plain_names() {
    for dir in PATHS {
        for name in ["a", "a.b", "~", "...", "a b"] {
            let expected = Path::new(dir).join(name).to_string_lossy().to_string();
            assert_eq!(join(dir, name), expected, "{:?} {:?}", dir, name);
        }
    }
}

#[test]
fn files_differ_by_their_directory_or_their_name() {
    assert!(same_path(&join("/t/1", "a"), &join("/t//1/", "a")));
    assert!(!same_path(&join("/t/1", "a"), &join("/t/2", "a")));
    assert!(!same_path(&join("/t/1", "a"), &join("/t/1", "b")));
    assert!(!same_path(&join("", "a"), &join("/", "a")));
}
