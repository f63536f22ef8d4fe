use tokio_tar::windows::{forward_slashes, windows_link_target, windows_name};
use tokio_tar::{LinkTarget, Name};

#[test]
fn name_validation_and_normalization() {
    assert_eq!(Name::try_from("filer").unwrap().as_str(), "filer");
    assert_eq!(
        Name::try_from("dossier/\u{e9}").unwrap().as_str(),
        "dossier/\u{e9}"
    );
    assert_eq!(Name::try_from("./a/./b/").unwrap().as_str(), "a/b/");
    assert_eq!(Name::try_from(".").unwrap().as_str(), ".");
    for invalid in [
        "",
        "/absolute",
        "../outside",
        "line\nbreak",
        "control-\u{85}",
    ] {
        assert!(Name::try_from(invalid).is_err());
    }
}

#[test]
fn link_target_validation_and_meaning() {
    assert_eq!(
        LinkTarget::try_from("../\u{e9}/file").unwrap().as_str(),
        "../\u{e9}/file"
    );
    assert_eq!(
        LinkTarget::try_from("/root/./file").unwrap().as_str(),
        "/root/./file"
    );
    for invalid in ["", "line\nbreak", "control-\u{85}"] {
        assert!(LinkTarget::try_from(invalid).is_err());
    }
}

#[test]
fn unix_names_require_utf8_and_preserve_backslashes() {
    let invalid: &[u8] = b"bad-\xff";
    assert!(Name::try_from(invalid).is_err());
    assert!(LinkTarget::try_from(invalid).is_err());
    assert_eq!(Name::try_from(r"foo\bar").unwrap().as_str(), r"foo\bar");
}

#[test]
fn windows_names_normalize_separators() {
    assert_eq!(windows_name(r"foo\bar").unwrap().as_str(), "foo/bar");
    assert_eq!(windows_link_target(r"..\bar").unwrap().as_str(), "../bar");
}

#[test]
fn windows_names_are_checked() {
    assert_eq!(windows_name(r".\a\.\b/c\").unwrap().as_str(), "a/b/c/");
    assert_eq!(windows_name("\u{e9}\\x:y").unwrap().as_str(), "\u{e9}/x:y");
    for absolute in [r"C:\a", r"c:a", r"\a", r"\\server\share\a", r"\\?\C:\a", r"C:..\a"] {
        let err = windows_name(absolute).unwrap_err();
        assert_eq!(err.to_string(), "paths in archives must be relative");
    }
    let err = windows_name("C:a\n").unwrap_err();
    assert_eq!(
        err.to_string(),
        "archive names must not contain Unicode control characters"
    );
    let err = windows_name(r"a\..\b").unwrap_err();
    assert_eq!(err.to_string(), "paths in archives must not have `..`");
    assert!(windows_name("").is_err());
    assert_eq!(windows_name("1:a").unwrap().as_str(), "1:a");
    assert_eq!(windows_link_target(r"C:\a\.\b").unwrap().as_str(), "C:/a/./b");
    assert!(windows_link_target("").is_err());
    assert!(windows_link_target("a\u{85}").is_err());
}

#[test]
fn slashes_stand_for_backslashes() {
    assert_eq!(forward_slashes("a\\\u{20ac}\\\\\u{10348}/"), "a/\u{20ac}//\u{10348}/");
    assert_eq!(forward_slashes(""), "");
}
