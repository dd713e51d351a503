//! Paths: components, order, extensions and text.

use cdi::listing::is_cdi_spec_file;
use cdi::path::HostPath;
use std::path::Path;

fn path(text: &str) -> HostPath {
    HostPath::from_text(text)
}

const SPELLINGS: [&str; 24] = [
    "", "/", "//", ".", "./", "..", "/..", "/.", "a", "./a", "a/", "a/.", "a//b", "a/b", "a/./b",
    "a/../b", "/a", "//a/", "/a/b.yaml", "/a/.yaml", "/!x", "/a-b/c", "/a/b/c", "/\u{e9}.x",
];

#[test]
fn same_paths_are_those_with_the_same_components() {
    for a in SPELLINGS {
        for b in SPELLINGS {
            assert_eq!(
                path(a).is_same_path(&path(b)),
                Path::new(a) == Path::new(b),
                "{a:?} and {b:?}"
            );
            assert_eq!(path(a) == path(b), Path::new(a) == Path::new(b), "{a:?} and {b:?}");
        }
    }
    assert!(path("/dev//null/").is_same_path(&path("/dev/./null")));
    assert!(!path("./a").is_same_path(&path("a")));
}

#[test]
fn paths_are_ordered_by_components() {
    for a in SPELLINGS {
        for b in SPELLINGS {
            assert_eq!(
                path(a).is_before(&path(b)),
                Path::new(a) < Path::new(b),
                "{a:?} and {b:?}"
            );
        }
    }
    assert!(path("/a/b").is_before(&path("/a-b")));
    assert!(path("..").is_before(&path("!")));
}

#[test]
fn absolute_paths_start_at_the_root() {
    for a in SPELLINGS {
        assert_eq!(path(a).is_absolute(), Path::new(a).is_absolute(), "{a:?}");
        assert_eq!(path(a).is_absolute(), a.starts_with('/'), "{a:?}");
    }
}

#[test]
fn extensions_follow_the_last_dot_of_the_file_name() {
    for a in ["/a.yaml", "a.b.yaml", ".yaml", "yaml", "a.", "a.yaml/", "a.yaml/.", "a.yaml/..", "..yaml",
        "..", "/", "", "a.yaml/b", "a.YAML", "\u{e9}.yaml"]
    {
        assert_eq!(
            path(a).has_extension("yaml"),
            Path::new(a).extension().and_then(|found| found.to_str()) == Some("yaml"),
            "{a:?}"
        );
    }
    assert!(path("a.").has_extension(""));
}

#[test]
fn spec_files_are_known_by_their_extension() {
    for yes in ["/etc/cdi/a.json", "a.yaml", "x/y.z.yml"] {
        assert!(is_cdi_spec_file(&path(yes)), "{yes:?}");
    }
    for no in ["/etc/cdi/json", ".yaml", "a.yaml.bak", "a.yaml/b", "a.Json", "a.xml", "/"] {
        assert!(!is_cdi_spec_file(&path(no)), "{no:?}");
    }
    let name_not_utf8 = HostPath::from_bytes(vec![b'/', 0xff, b'.', b'y', b'm', b'l']);
    assert!(is_cdi_spec_file(&name_not_utf8));
    let extension_not_utf8 = HostPath::from_bytes(vec![b'/', b'a', b'.', 0xff]);
    assert!(!is_cdi_spec_file(&extension_not_utf8));
}

#[test]
fn paths_are_shown_as_text() {
    for a in SPELLINGS {
        assert_eq!(path(a).display(), a);
    }
    assert_eq!(
        HostPath::from_bytes(vec![b'/', 0xff, b'a', 0xe2, 0x82]).display(),
        "/\u{fffd}a\u{fffd}"
    );
}

#[test]
fn clones_keep_the_bytes() {
    assert_eq!(path("/a//b/").clone().bytes, b"/a//b/".to_vec());
}
