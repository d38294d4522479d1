use cp2::path::{append_bytes, copy_bytes, is_dot, is_dot_dot, same_bytes, NormalizedPath};
use std::path::{Component, PathBuf};

// The library takes and gives paths as bytes; most of these tests write
// them as text.
fn text(path: &[u8]) -> String {
    String::from_utf8(path.to_vec()).unwrap()
}

fn split_segments(path: &str) -> Vec<String> {
    cp2::path::split_segments(path.as_bytes()).iter().map(|s| text(s)).collect()
}

fn join_path(base: &str, path: &str) -> String {
    text(&cp2::path::join_path(base.as_bytes(), path.as_bytes()))
}

fn starts_at_root(path: &str) -> bool {
    cp2::path::starts_at_root(path.as_bytes())
}

fn file_name(path: &str) -> Option<String> {
    cp2::path::file_name(path.as_bytes()).map(|name| text(&name))
}

fn normalize_path(path: &str) -> NormalizedPath {
    cp2::copy::normalize_path(path.as_bytes())
}

fn resolve_path(cwd: &str, path: &str) -> NormalizedPath {
    cp2::copy::resolve_path(cwd.as_bytes(), path.as_bytes())
}

fn components(path: &str) -> Vec<String> {
    normalize_path(path).components.iter().map(|c| text(c)).collect()
}

fn normal(parts: &[&str]) -> NormalizedPath {
    NormalizedPath { components: parts.iter().map(|p| p.as_bytes().to_vec()).collect() }
}

#[test]
fn segments_are_the_pieces_between_separators() {
    assert_eq!(split_segments(""), vec![""]);
    assert_eq!(split_segments("a"), vec!["a"]);
    assert_eq!(split_segments("/"), vec!["", ""]);
    assert_eq!(split_segments("/a/b"), vec!["", "a", "b"]);
    assert_eq!(split_segments("a//b/"), vec!["a", "", "b", ""]);
    assert_eq!(split_segments("./../x"), vec![".", "..", "x"]);
}

#[test]
fn join_puts_one_separator_between() {
    assert_eq!(join_path("/a", "b"), "/a/b");
    assert_eq!(join_path("/a/", "b"), "/a/b");
    assert_eq!(join_path("a", "b/c"), "a/b/c");
    assert_eq!(join_path("/", "b"), "/b");
}

#[test]
fn join_with_an_absolute_path_gives_that_path() {
    assert_eq!(join_path("/a", "/b"), "/b");
    assert_eq!(join_path("", "/b"), "/b");
}

#[test]
fn join_with_an_empty_side() {
    assert_eq!(join_path("", "b"), "b");
    assert_eq!(join_path("/a", ""), "/a/");
    assert_eq!(join_path("/a/", ""), "/a/");
    assert_eq!(join_path("", ""), "");
}

#[test]
fn absolute_paths_start_with_the_separator() {
    assert!(starts_at_root("/"));
    assert!(starts_at_root("/a"));
    assert!(!starts_at_root(""));
    assert!(!starts_at_root("a/"));
    assert!(!starts_at_root("./a"));
}

#[test]
fn file_name_is_the_last_name() {
    assert_eq!(file_name("/a/b.txt"), Some("b.txt".to_string()));
    assert_eq!(file_name("b.txt"), Some("b.txt".to_string()));
    assert_eq!(file_name("/a/b/"), Some("b".to_string()));
    assert_eq!(file_name("/a/b/."), Some("b".to_string()));
    assert_eq!(file_name("a//"), Some("a".to_string()));
    assert_eq!(file_name("./a"), Some("a".to_string()));
}

#[test]
fn file_name_is_absent_where_the_path_names_nothing() {
    assert_eq!(file_name(""), None);
    assert_eq!(file_name("/"), None);
    assert_eq!(file_name("."), None);
    assert_eq!(file_name(".."), None);
    assert_eq!(file_name("a/.."), None);
    assert_eq!(file_name("a/../."), None);
}

#[test]
fn a_path_lies_inside_another_when_it_extends_it() {
    let a = normal(&["/", "a"]);
    assert!(normal(&["/", "a", "b"]).is_strictly_inside(&a));
    assert!(normal(&["/", "a", "b", "c"]).is_strictly_inside(&a));
    assert!(normal(&["/"]).is_strictly_inside(&normal(&[])));
    assert!(normal(&["x"]).is_strictly_inside(&normal(&[])));
}

#[test]
fn a_path_does_not_lie_inside_itself_or_beside() {
    let a = normal(&["/", "a"]);
    assert!(!a.is_strictly_inside(&a));
    assert!(!normal(&["/"]).is_strictly_inside(&a));
    assert!(!normal(&["/", "ab", "c"]).is_strictly_inside(&a));
    assert!(!normal(&["/", "b", "a"]).is_strictly_inside(&a));
    assert!(!normal(&["a", "b"]).is_strictly_inside(&a));
    assert!(!normal(&[]).is_strictly_inside(&normal(&[])));
}

#[test]
fn equal_normal_forms_name_the_same_place() {
    assert_eq!(normalize_path("/a/b/../c/./d/"), normalize_path("/a/c/d"));
    assert_eq!(normalize_path("/a/c/d"), normal(&["/", "a", "c", "d"]));
    assert_ne!(normalize_path("a/c"), normalize_path("/a/c"));
}

const SAMPLES: [&str; 24] = [
    "", "/", "//", ".", "..", "a", "/a", "a/", "a/b", "/a/b/", "./a", "../a", "a/..", "a/.",
    "a/./b", "a//b", "/a/../..", "a/../../b", "...", "/.", "/..", ".hidden", "a/.hidden/..", "a b/c",
];

// The components that the standard library sees in a path, resolved in the
// same way: names are pushed, `..` pops, everything else is passed over.
fn resolved_by_std(path: &str) -> Vec<String> {
    let mut out = PathBuf::new();
    for component in std::path::Path::new(path).components() {
        match component {
            Component::RootDir => out.push("/"),
            Component::Normal(name) => out.push(name),
            Component::ParentDir => {
                out.pop();
            }
            _ => {}
        }
    }
    out.components().map(|c| c.as_os_str().to_string_lossy().into_owned()).collect()
}

#[test]
fn join_agrees_with_the_standard_library() {
    for base in SAMPLES {
        for path in SAMPLES {
            let expected = std::path::Path::new(base).join(path);
            assert_eq!(join_path(base, path), expected.to_string_lossy(), "{:?} {:?}", base, path);
        }
    }
}

#[test]
fn file_name_agrees_with_the_standard_library() {
    for path in SAMPLES {
        let expected = std::path::Path::new(path).file_name().map(|n| n.to_string_lossy().into_owned());
        assert_eq!(file_name(path), expected, "{:?}", path);
    }
}

#[test]
fn normal_form_agrees_with_the_standard_library() {
    for base in SAMPLES {
        for path in SAMPLES {
            let whole = join_path(base, path);
            assert_eq!(components(&whole), resolved_by_std(&whole), "{:?}", whole);
        }
    }
}

#[test]
fn lying_inside_agrees_with_the_standard_library() {
    for first in SAMPLES {
        for second in SAMPLES {
            let a: std::path::PathBuf = resolved_by_std(first).iter().collect();
            let b: std::path::PathBuf = resolved_by_std(second).iter().collect();
            let expected = a.starts_with(&b) && a != b;
            let inside = normalize_path(first).is_strictly_inside(&normalize_path(second));
            assert_eq!(inside, expected, "{:?} {:?}", first, second);
        }
    }
}

#[test]
fn paths_are_resolved_against_the_working_directory() {
    assert_eq!(resolve_path("/home/u", "a/../b"), normal(&["/", "home", "u", "b"]));
    assert_eq!(resolve_path("/home/u", "../../.."), normal(&["/"]));
    assert_eq!(resolve_path("/home/u", "/etc/./x"), normal(&["/", "etc", "x"]));
    assert_eq!(resolve_path("/home/u/", ""), normal(&["/", "home", "u"]));
    assert_eq!(resolve_path("/", "."), normal(&["/"]));
}

#[test]
fn names_that_are_not_text_pass_through_unchanged() {
    let odd: &[u8] = &[0xff, b'a', 0x80];
    let mut path = b"/x/./".to_vec();
    path.extend_from_slice(odd);
    path.extend_from_slice(b"/../");
    path.extend_from_slice(odd);
    assert_eq!(
        cp2::copy::normalize_path(&path).components,
        vec![b"/".to_vec(), b"x".to_vec(), odd.to_vec()]
    );
    assert_eq!(cp2::path::file_name(&path), Some(odd.to_vec()));
    let mut joined = b"dir/".to_vec();
    joined.extend_from_slice(odd);
    assert_eq!(cp2::path::join_path(b"dir", odd), joined);
}

#[test]
fn bytes_are_copied_appended_and_compared() {
    assert_eq!(copy_bytes(b"abc"), b"abc".to_vec());
    assert_eq!(copy_bytes(b""), Vec::<u8>::new());
    let mut out = b"ab".to_vec();
    append_bytes(&mut out, b"cd");
    append_bytes(&mut out, b"");
    assert_eq!(out, b"abcd".to_vec());
    assert!(same_bytes(b"abc", b"abc"));
    assert!(same_bytes(b"", b""));
    assert!(!same_bytes(b"abc", b"abd"));
    assert!(!same_bytes(b"abc", b"ab"));
}

#[test]
fn dot_and_dot_dot_are_told_apart() {
    assert!(is_dot(b"."));
    assert!(!is_dot(b".."));
    assert!(!is_dot(b""));
    assert!(!is_dot(b"a"));
    assert!(is_dot_dot(b".."));
    assert!(!is_dot_dot(b"."));
    assert!(!is_dot_dot(b"..."));
    assert!(!is_dot_dot(b".a"));
}
