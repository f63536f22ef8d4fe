use std::path::{Component, Path, PathBuf};
use tokio_tar::fs::{normalize_absolute, normalize_relative};

fn absolute(path: &str) -> Option<String> {
    normalize_absolute(path.as_bytes()).map(|p| String::from_utf8(p).unwrap())
}

fn relative(dst: &str, path: &str) -> Option<String> {
    normalize_relative(dst.as_bytes(), path.as_bytes()).map(|p| String::from_utf8(p).unwrap())
}

#[test]
fn fs_test_normalize_absolute() {
    // Basic absolute path.
    assert_eq!(absolute("/a/b/c"), Some("/a/b/c".to_string()));

    // Path with `..` (should remove `b`).
    assert_eq!(absolute("/a/b/../c"), Some("/a/c".to_string()));

    // Path with `.`, should be ignored.
    assert_eq!(absolute("/a/./b"), Some("/a/b".to_string()));

    // Excessive `..` that escapes root.
    assert_eq!(absolute("/../b"), None);
}

#[test]
fn test_normalize_relative() {
    let dst = "/home/user/dst";

    // Basic relative path.
    assert_eq!(relative(dst, "a/b/c"), Some("/home/user/dst/a/b/c".to_string()));

    // Path with `..`, should remove `b`.
    assert_eq!(relative(dst, "a/b/../c"), Some("/home/user/dst/a/c".to_string()));

    // Path with `.` should be ignored.
    assert_eq!(relative(dst, "./a/b"), Some("/home/user/dst/a/b".to_string()));

    // Path escaping `dst`, should return None.
    assert_eq!(relative(dst, "../../../../outside"), None);

    // Excessive `..`, escaping `dst`.
    assert_eq!(relative(dst, "../../../../"), None);
}

#[test]
fn normalizing_keeps_what_is_normal() {
    assert_eq!(absolute("/"), Some("/".to_string()));
    assert_eq!(absolute("/.."), None);
    assert_eq!(absolute("/a/.."), Some("/".to_string()));
    assert_eq!(absolute("//a//b/"), Some("/a/b".to_string()));
    for path in ["/a/b/../c", "/a/./b", "//x///y/../z/"] {
        let once = absolute(path).unwrap();
        assert_eq!(absolute(&once), Some(once.clone()));
    }
}

#[test]
fn relative_paths_resolve_like_joined_ones() {
    for path in ["a/b", "../x", "./y/../z", "", "../../.."] {
        let joined = format!("/srv/data/{}", path);
        assert_eq!(relative("/srv/data", path), absolute(&joined));
    }
    assert_eq!(relative("/srv/data", "/etc"), None);
}

/// Every text of up to `most` of the characters that matter in paths.
fn texts(most: usize) -> Vec<String> {
    let mut all = vec![String::new()];
    let mut last = all.clone();
    for _ in 0..most {
        let mut longer = Vec::new();
        for text in &last {
            for c in ["a", "/", "."] {
                longer.push(format!("{text}{c}"));
            }
        }
        all.extend(longer.iter().cloned());
        last = longer;
    }
    all
}

/// Where the components of a path lead to, with the paths of the standard
/// library.
fn followed(from: &str, path: &str, rooted: bool) -> Option<String> {
    let mut resolved = PathBuf::from(from);
    for component in Path::new(path).components() {
        match component {
            Component::Prefix(_) => return None,
            Component::RootDir if rooted => resolved.push("/"),
            Component::RootDir => return None,
            Component::CurDir => {}
            Component::ParentDir => {
                if !resolved.pop() {
                    return None;
                }
            }
            Component::Normal(segment) => resolved.push(segment),
        }
    }
    Some(resolved.to_str().unwrap().to_string())
}

#[test]
fn the_text_of_the_destination_is_kept() {
    assert_eq!(relative("/a//b", ""), Some("/a//b".to_string()));
    assert_eq!(relative("/a/", ""), Some("/a/".to_string()));
    assert_eq!(relative("/a//", "c"), Some("/a//c".to_string()));
    assert_eq!(relative("/a//b/./", ".."), Some("/a".to_string()));
    assert_eq!(relative("/a", ".."), Some("/".to_string()));
}

#[test]
fn paths_are_normalized_as_the_standard_library_has_them() {
    let paths = texts(4);
    for dst in texts(6) {
        for path in &paths {
            assert_eq!(
                relative(&dst, path),
                followed(&dst, path, false),
                "{dst:?} {path:?}"
            );
        }
    }
    for path in texts(8) {
        assert_eq!(absolute(&path), followed("", &path, true), "{path:?}");
    }
}
