use tokio_tar::{
    EntryType, ErrorKind, GnuExtSparseHeader, GnuHeader, GnuSparseHeader, Header, OldHeader,
    UstarHeader,
};

fn gnu_header() -> GnuHeader {
    let mut header: GnuHeader = GnuHeader::zeroed();
    header.magic = *b"ustar ";
    header.version = *b" \0";
    header.mtime = *b"00000000000\0";
    header
}

fn old_header() -> OldHeader {
    let mut header: OldHeader = OldHeader::zeroed();
    header.mtime = *b"00000000000\0";
    header
}

fn ustar_header() -> UstarHeader {
    let mut header: UstarHeader = UstarHeader::zeroed();
    header.magic = *b"ustar\0";
    header.version = *b"00";
    header.mtime = *b"00000000000\0";
    header
}

#[test]
fn goto_gnu() {
    let h = gnu_header();
    assert!(h.as_header().as_gnu().is_some());
    assert!(h.as_header().as_ustar().is_none());
}

#[test]
fn goto_old() {
    let h = old_header();
    assert!(h.as_header().as_gnu().is_none());
    assert!(h.as_header().as_ustar().is_none());
}

#[test]
fn goto_ustar() {
    let h = ustar_header();
    assert!(h.as_header().as_gnu().is_none());
    assert!(h.as_header().as_ustar().is_some());
}

#[test]
fn link_name() {
    let mut h = ustar_header();
    h.linkname[..10].copy_from_slice(b"../foo/bar");
    assert_eq!(
        std::str::from_utf8(&h.as_header().link_name_bytes().unwrap()).ok(),
        Some("../foo/bar")
    );

    h.linkname = [0; 100];
    h.linkname[..8].copy_from_slice(b"foo\\bar\0");
    assert_eq!(
        std::str::from_utf8(&h.as_header().link_name_bytes().unwrap()).ok(),
        Some("foo\\bar")
    );
}

#[test]
fn mtime() {
    assert_eq!(gnu_header().as_header().mtime().unwrap(), 0);
    assert_eq!(ustar_header().as_header().mtime().unwrap(), 0);
    assert_eq!(old_header().as_header().mtime().unwrap(), 0);
}

#[test]
fn user_and_group_name() {
    let mut h = gnu_header();
    h.uname[..3].copy_from_slice(b"foo");
    h.gname[..3].copy_from_slice(b"bar");
    assert_eq!(h.as_header().username().unwrap().as_deref(), Some("foo"));
    assert_eq!(h.as_header().groupname().unwrap().as_deref(), Some("bar"));

    let mut h = ustar_header();
    h.uname[..3].copy_from_slice(b"foo");
    h.gname[..3].copy_from_slice(b"bar");
    assert_eq!(h.as_header().username().unwrap().as_deref(), Some("foo"));
    assert_eq!(h.as_header().groupname().unwrap().as_deref(), Some("bar"));

    let h = old_header();
    assert_eq!(h.as_header().username().unwrap().as_deref(), None);
    assert_eq!(h.as_header().groupname().unwrap().as_deref(), None);
}

#[test]
fn dev_major_minor() {
    let mut h = ustar_header();
    h.dev_major = *b"0000001\0";
    h.dev_minor = *b"0000002\0";
    assert_eq!(h.as_header().device_major().unwrap(), Some(1));
    assert_eq!(h.as_header().device_minor().unwrap(), Some(2));

    h.dev_major[0] = 0x7f;
    h.dev_minor[0] = b'g';
    assert!(h.as_header().device_major().is_err());
    assert!(h.as_header().device_minor().is_err());

    let h = old_header();
    assert_eq!(h.as_header().device_major().unwrap(), None);
    assert_eq!(h.as_header().device_minor().unwrap(), None);
}

#[test]
fn path() {
    let mut h = ustar_header();
    h.name[..3].copy_from_slice(b"bar");
    h.prefix[..3].copy_from_slice(b"foo");
    assert_eq!(
        std::str::from_utf8(&h.as_header().path_bytes()).ok(),
        Some("foo/bar")
    );

    h.name = [0; 100];
    h.prefix = [0; 155];
    h.name[..7].copy_from_slice(b"foo\\bar");
    assert_eq!(
        std::str::from_utf8(&h.as_header().path_bytes()).ok(),
        Some("foo\\bar")
    );
}

#[test]
fn extended_numeric_format_reading() {
    let mut h = ustar_header();
    h.size = *b"00000000052\0";
    h.gid = *b"0000052\0";
    assert_eq!(h.as_header().size().unwrap(), 42);
    assert_eq!(h.as_header().gid().unwrap(), 42);

    let mut h = gnu_header();
    h.size = [0x80, 0, 0, 0, 0, 0, 0, 0x02, 0, 0, 0, 0];
    assert_eq!(h.as_header().entry_size().unwrap(), 0x0200000000);
    h.uid = [0x80, 0x00, 0x00, 0x00, 0x12, 0x34, 0x56, 0x78];
    assert_eq!(h.as_header().uid().unwrap(), 0x12345678);
    h.mtime = [
        0x80, 0, 0, 0, 0x01, 0x23, 0x45, 0x67, 0x89, 0xab, 0xcd, 0xef,
    ];
    assert_eq!(h.as_header().mtime().unwrap(), 0x0123456789abcdef);
    h.realsize = [0x80, 0, 0, 0, 0, 0x12, 0x34, 0x56, 0x78, 0x9a, 0xbc, 0xde];
    assert_eq!(h.real_size().unwrap(), 0x00123456789abcde);
    h.sparse[0].offset = [0x80, 0, 0, 0, 0, 0x01, 0x23, 0x45, 0x67, 0x89, 0xab, 0xcd];
    assert_eq!(h.sparse[0].offset().unwrap(), 0x000123456789abcd);
    h.sparse[0].numbytes = [0x80, 0, 0, 0, 0, 0, 0x12, 0x34, 0x56, 0x78, 0x9a, 0xbc];
    assert_eq!(h.sparse[0].length().unwrap(), 0x0000123456789abc);
}

#[test]
fn byte_slice_conversion() {
    let h = ustar_header();
    let b = h.as_header();
    let b = b.as_bytes();
    let b_conv = Header::from_byte_slice(b);
    let b_conv = b_conv.as_bytes();
    assert_eq!(b, b_conv);
}

#[test]
fn numbers_in_a_header_are_read_back() {
    for n in [0u64, 1, 0o7777777, 0o10000000, 0x7fff_ffff_ffff_ffff] {
        let mut h = Header::new_ustar();
        h.set_uid(n);
        h.set_gid(n);
        h.set_mtime(n);
        h.set_size(n);
        assert_eq!(h.uid().unwrap(), n);
        assert_eq!(h.gid().unwrap(), n);
        assert_eq!(h.mtime().unwrap(), n);
        assert_eq!(h.size().unwrap(), n);
        assert_eq!(h.entry_size().unwrap(), n);
    }
    let mut h = Header::new_ustar();
    h.set_mode(0o1777777);
    assert_eq!(h.mode().unwrap(), 0o1777777);
}

#[test]
fn octal_fields_have_their_exact_text() {
    let mut h = Header::new_ustar();
    h.set_mode(0o644);
    h.set_uid(0o7777777);
    h.set_size(42);
    assert_eq!(&h.as_bytes()[100..108], b"0000644\0");
    assert_eq!(&h.as_bytes()[108..116], b"7777777\0");
    assert_eq!(&h.as_bytes()[124..136], b"00000000052\0");
    h.set_uid(0o10000000);
    assert_eq!(&h.as_bytes()[108..116], &[0x80, 0, 0, 0, 0, 0x20, 0, 0]);
}

#[test]
fn texts_in_a_header_are_read_back() {
    let mut h = Header::new_ustar();
    h.set_username(b"someone").unwrap();
    h.set_groupname(b"somegroup").unwrap();
    h.set_link_name(b"some/where").unwrap();
    h.set_path(b"a/b/c").unwrap();
    assert_eq!(h.username_bytes().unwrap(), b"someone");
    assert_eq!(h.groupname_bytes().unwrap(), b"somegroup");
    assert_eq!(h.link_name_bytes().unwrap(), b"some/where");
    assert_eq!(h.path_bytes(), b"a/b/c");
}

#[test]
fn owner_names_that_are_no_text() {
    let mut h = ustar_header();
    h.uname[..2].copy_from_slice(b"\xff\xfe");
    assert!(h.as_header().username().is_err());
    assert!(h.as_header().groupname().unwrap().is_some());
}

#[test]
fn texts_that_do_not_fit_are_refused() {
    let mut h = Header::new_ustar();
    let err = h.set_username(&[b'x'; 33]).unwrap_err();
    assert_eq!(err.to_string(), "provided value is too long");
    let err = h.set_username(b"a\0b").unwrap_err();
    assert_eq!(err.to_string(), "provided value contains a nul byte");
    assert_eq!(err.kind(), ErrorKind::Other);
    let mut h = Header::new_old();
    assert!(h.set_username(b"a").is_err());
    assert!(h.set_device_major(1).is_err());
}

#[test]
fn a_long_path_is_split_at_a_slash() {
    let mut h = Header::new_ustar();
    let front = "p".repeat(120);
    let path = format!("{front}/name");
    h.set_path(path.as_bytes()).unwrap();
    let form = h.as_ustar().unwrap();
    assert_eq!(&form.prefix[..120], front.as_bytes());
    assert_eq!(&form.name[..5], b"name\0");
    assert_eq!(h.path_bytes(), path.as_bytes());
    let whole = "q".repeat(101);
    assert!(Header::new_ustar().set_path(whole.as_bytes()).is_err());
}

#[test]
fn the_checksum_counts_its_own_field_as_spaces() {
    let mut h = Header::new_old();
    h.set_cksum();
    assert_eq!(h.cksum().unwrap(), 784);
    let mut h = Header::new_ustar();
    h.set_path(b"a").unwrap();
    h.set_cksum();
    assert_eq!(h.cksum().unwrap(), h.calculate_cksum());
    let sum: u32 = h
        .as_bytes()
        .iter()
        .enumerate()
        .map(|(i, b)| if (148..156).contains(&i) { 32 } else { *b as u32 })
        .sum();
    assert_eq!(h.cksum().unwrap(), sum);
}

#[test]
fn numeric_fields_that_are_no_numbers() {
    let mut h = ustar_header();
    h.size = *b"0000000005x\0";
    let err = h.as_header().size().unwrap_err();
    assert_eq!(
        err.to_string(),
        "numeric field was not a number: 0000000005x when getting size for "
    );
    let mut h = ustar_header();
    h.name[..1].copy_from_slice(b"n");
    h.mtime = *b"\x30\xff\xff00000000\0";
    let err = h.as_header().mtime().unwrap_err();
    assert_eq!(
        err.to_string(),
        "numeric field did not have utf-8 text: 0\u{fffd}\u{fffd}00000000 when getting mtime for n"
    );
}

#[test]
fn typeflags_are_read_back() {
    for byte in 0..=255u8 {
        let kind = EntryType::new(byte);
        assert_eq!(EntryType::new(kind.as_byte()), kind);
    }
    assert_eq!(EntryType::new(b'0'), EntryType::Regular);
    assert_eq!(EntryType::new(0), EntryType::Regular);
    assert!(EntryType::new(b'L').is_gnu_longname());
    assert!(EntryType::new(b'K').is_gnu_longlink());
    assert!(EntryType::new(b'S').is_gnu_sparse());
    assert!(EntryType::new(b'x').is_pax_local_extensions());
    assert!(EntryType::new(b'g').is_pax_global_extensions());
}

#[test]
fn forms_of_a_header_are_the_same_bytes() {
    let mut h = Header::new_gnu();
    h.set_path(b"name").unwrap();
    h.set_size(77);
    let form = h.as_gnu().unwrap();
    assert_eq!(form.as_header().as_bytes(), h.as_bytes());
    assert_eq!(h.as_old().as_header().as_bytes(), h.as_bytes());
    let u = Header::new_ustar();
    assert_eq!(u.as_ustar().unwrap().as_header().as_bytes(), u.as_bytes());
}

#[test]
fn sparse_continuation_blocks() {
    let mut b = [0u8; 512];
    b[..12].copy_from_slice(b"00000001000\0");
    b[12..24].copy_from_slice(b"00000000005\0");
    b[504] = 1;
    let block = GnuExtSparseHeader::from_byte_slice(&b);
    assert!(block.is_extended());
    assert_eq!(block.sparse(0).offset().unwrap(), 512);
    assert_eq!(block.sparse(0).length().unwrap(), 5);
    assert!(block.sparse(20).is_empty());
    assert!(!GnuExtSparseHeader::new().is_extended());
    assert!(GnuSparseHeader::zeroed().is_empty());
}
