use tokio_tar::visit::{Visit, Walk};

fn visit(relative: &[u8], is_dir: bool) -> Visit {
    Visit { relative: relative.to_vec(), is_dir, is_symlink: false }
}

#[test]
fn a_walk_begins_with_its_directory() {
    let mut walk = Walk::new();
    let first = walk.next().unwrap();
    assert!(first.relative.is_empty() && first.is_dir && !first.is_symlink);
    assert!(walk.next().is_none());
}

#[test]
fn a_directory_comes_before_what_is_in_it() {
    let mut walk = Walk::new();
    let mut seen = Vec::new();
    while let Some(v) = walk.next() {
        match v.relative.as_slice() {
            b"" => walk.found(vec![visit(b"a", false), visit(b"b", true), visit(b"c", true)]),
            b"b" => walk.found(vec![visit(b"b/x", false), visit(b"b/y", false)]),
            b"c" => walk.found(vec![]),
            _ => assert!(!v.is_dir),
        }
        seen.push(String::from_utf8(v.relative).unwrap());
    }
    assert_eq!(seen, ["", "c", "b", "b/y", "b/x", "a"]);
    assert!(walk.next().is_none());
}
