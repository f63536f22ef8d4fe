use tokio_tar::unpack::{
    check_symlink, member_destination, mode_to_set, order_directories, starts_with_path,
    unpack_action, unpacks_at_once, UnpackAction,
};
use tokio_tar::EntryType;

#[test]
fn directories_come_after_what_is_in_them() {
    let paths = vec![
        b"a".to_vec(),
        b"b/c".to_vec(),
        b"a/b".to_vec(),
        b"b".to_vec(),
    ];
    let order = order_directories(&paths);
    let sorted: Vec<Vec<u8>> = order.iter().map(|i| paths[*i].clone()).collect();
    assert_eq!(
        sorted,
        [b"b/c".to_vec(), b"b".to_vec(), b"a/b".to_vec(), b"a".to_vec()]
    );
}

#[test]
fn equal_directories_keep_their_order() {
    let paths = vec![b"a".to_vec(), b"b".to_vec(), b"a".to_vec()];
    assert_eq!(order_directories(&paths), [1, 0, 2]);
}

#[test]
fn members_stay_inside() {
    assert_eq!(member_destination(b"a/./b").unwrap(), b"a/b");
    assert_eq!(member_destination(b"/a/b").unwrap(), b"a/b");
    assert_eq!(member_destination(b"a/../b"), None);
    assert_eq!(member_destination(b"../b"), None);
}

#[test]
fn paths_inside_a_directory() {
    assert!(starts_with_path(b"/a/b/c", b"/a/b"));
    assert!(starts_with_path(b"/a/b", b"/a/b/"));
    assert!(!starts_with_path(b"/a/bc", b"/a/b"));
    assert!(!starts_with_path(b"/a", b"/a/b"));
}

#[test]
fn symlinks_that_lead_outside() {
    let dst = b"/dst";
    assert!(check_symlink(b"foo", b"/bar", b"/dst", dst, true).is_ok());
    let err = check_symlink(b"foo", b"/bar", b"/dst", dst, false).unwrap_err();
    assert_eq!(
        err.to_string(),
        "symlink destination for foo is outside of the target directory"
    );
    assert!(check_symlink(b"foo", b"../../../../", b"/dst", dst, false).is_err());
    assert!(check_symlink(b"foo/bar", b"../baz", b"/dst/foo", dst, false).is_ok());
    assert!(check_symlink(b"foo", b"/dst/x/../y", b"/dst", dst, false).is_ok());
    let err = check_symlink(b"f\xff", b"", b"/dst", dst, true).unwrap_err();
    assert_eq!(err.to_string(), "symlink destination for f\u{fffd} is empty");
}

#[test]
fn directories_wait() {
    assert!(!unpacks_at_once(EntryType::Directory));
    assert!(unpacks_at_once(EntryType::Regular));
    assert!(unpacks_at_once(EntryType::Symlink));
}

#[test]
fn permissions_are_set_where_they_are_preserved() {
    assert_eq!(mode_to_set(true, 0o100644), Some(0o644));
    assert_eq!(mode_to_set(true, 0o4755), Some(0o4755));
    assert_eq!(mode_to_set(true, 0), Some(0));
    assert_eq!(mode_to_set(false, 0o755), None);
}

#[test]
fn kinds_are_unpacked_each_in_its_way() {
    assert_eq!(unpack_action(EntryType::Directory), UnpackAction::Directory);
    assert_eq!(unpack_action(EntryType::Link), UnpackAction::HardLink);
    assert_eq!(unpack_action(EntryType::Symlink), UnpackAction::Symlink);
    for kind in [
        EntryType::XGlobalHeader,
        EntryType::XHeader,
        EntryType::GNULongName,
        EntryType::GNULongLink,
    ] {
        assert_eq!(unpack_action(kind), UnpackAction::Nothing);
    }
    assert_eq!(unpack_action(EntryType::Regular), UnpackAction::File);
    assert_eq!(unpack_action(EntryType::Continuous), UnpackAction::File);
    assert_eq!(unpack_action(EntryType::GNUSparse), UnpackAction::File);
}
