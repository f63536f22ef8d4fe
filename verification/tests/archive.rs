use portable_atomic::{AtomicU64, Ordering};
use tokio_tar::counter::reserve_with_limit;
use tokio_tar::header::BLOCK_SIZE;
use tokio_tar::options::{ArchiveOptions, Usage};
use tokio_tar::sparse::advance_sparse_positions;
use tokio_tar::{
    Archive, ArchiveBuilder, Builder, Entries, Entry, EntryIo, EntryType, Error, ErrorKind, Header,
    RawEntries, Step, UstarHeader,
};

fn raw_header(
    path: &[u8],
    target: Option<&[u8]>,
    typeflag: u8,
    size: u64,
    mode: u32,
) -> UstarHeader {
    let mut header: UstarHeader = UstarHeader::zeroed();
    header.name[..path.len()].copy_from_slice(path);
    if let Some(target) = target {
        header.linkname[..target.len()].copy_from_slice(target);
    }
    header.typeflag = [typeflag];
    header.magic = *b"ustar\0";
    header.version = *b"00";
    encode_octal(&mut header.mode, mode as u64);
    encode_octal(&mut header.uid, 0);
    encode_octal(&mut header.gid, 0);
    encode_octal(&mut header.size, size);
    encode_octal(&mut header.mtime, 0);
    let checksum = header
        .as_header()
        .as_bytes()
        .iter()
        .enumerate()
        .map(|(offset, byte)| {
            if (148..156).contains(&offset) {
                b' ' as u32
            } else {
                *byte as u32
            }
        })
        .sum::<u32>();
    encode_octal(&mut header.cksum, checksum as u64);
    header
}

fn encode_octal(dst: &mut [u8], value: u64) {
    let octal = format!("{value:o}");
    let value = std::iter::once(b'\0').chain(octal.bytes().rev().chain(std::iter::repeat(b'0')));
    for (slot, value) in dst.iter_mut().rev().zip(value) {
        *slot = value;
    }
}

fn append_raw(bytes: &mut Vec<u8>, header: &Header, data: &[u8]) {
    bytes.extend_from_slice(header.as_bytes());
    bytes.extend_from_slice(data);
    let padding = (512 - data.len() % 512) % 512;
    bytes.extend_from_slice(&vec![0; padding]);
}

fn append_member(bytes: &mut Vec<u8>, path: &[u8], typeflag: u8, data: &[u8]) {
    let header = raw_header(path, None, typeflag, data.len() as u64, 0o644);
    append_raw(bytes, &header.as_header(), data);
}

fn all_entries(archive: Archive<Vec<u8>>) -> Vec<Result<(Entry, Vec<u8>), Error>> {
    let mut archive = archive;
    let mut entries = archive.entries().unwrap();
    let mut out = Vec::new();
    while let Some(result) = archive.next_entry(&mut entries, 4096) {
        match result {
            Ok(mut entry) => {
                let data = archive.read_contents(&mut entry);
                out.push(Ok((entry, data)));
            }
            Err(err) => {
                out.push(Err(err));
                break;
            }
        }
    }
    out
}

fn only_error(archive: Archive<Vec<u8>>) -> Error {
    all_entries(archive).pop().unwrap().map(|_| ()).unwrap_err()
}

fn raw_entries(archive: &mut Archive<Vec<u8>>) -> Vec<Result<Entry, Error>> {
    let mut entries: RawEntries = archive.entries_raw().unwrap();
    let mut out = Vec::new();
    let mut step = entries.step(archive, None);
    loop {
        match step {
            Step::Read(n) => {
                let at = archive.position() as usize;
                let source = archive.get_ref();
                let to = source.len().min(at + n as usize);
                let chunk = source[at..to].to_vec();
                step = entries.step(archive, Some(&chunk[..]));
            }
            Step::Ready(None) => return out,
            Step::Ready(Some(result)) => {
                let failed = result.is_err();
                out.push(result);
                if failed {
                    return out;
                }
                step = entries.step(archive, None);
            }
        }
    }
}

#[test]
fn reserve_with_limit_accepts_exact_boundary() {
    let mut counter = AtomicU64::new(7);

    reserve_with_limit(&mut counter, 3, 10, "limit exceeded").unwrap();

    assert_eq!(counter.load(Ordering::Relaxed), 10);
}

#[test]
fn reserve_with_limit_does_not_mutate_counter_on_rejection() {
    let mut counter = AtomicU64::new(7);

    let err = reserve_with_limit(&mut counter, 4, 10, "limit exceeded").unwrap_err();

    assert_eq!(err.kind(), ErrorKind::InvalidData);
    assert_eq!(counter.load(Ordering::Relaxed), 7);
}

#[test]
fn reserve_with_limit_rejects_counter_overflow() {
    let mut counter = AtomicU64::new(u64::MAX);

    let err = reserve_with_limit(&mut counter, 1, u64::MAX, "limit exceeded").unwrap_err();

    assert_eq!(err.kind(), ErrorKind::InvalidData);
    assert_eq!(counter.load(Ordering::Relaxed), u64::MAX);
}

#[test]
fn advance_sparse_positions_accepts_exact_boundary() {
    let mut next = u64::MAX - BLOCK_SIZE;
    let mut file_pos = u64::MAX - BLOCK_SIZE;

    advance_sparse_positions(&mut next, &mut file_pos).unwrap();

    assert_eq!(next, u64::MAX);
    assert_eq!(file_pos, u64::MAX);
}

#[test]
fn advance_sparse_positions_does_not_commit_on_next_overflow() {
    let mut next = u64::MAX - BLOCK_SIZE + 1;
    let mut file_pos = 17;

    let err = advance_sparse_positions(&mut next, &mut file_pos).unwrap_err();

    assert_eq!(err.to_string(), "position overflow");
    assert_eq!(next, u64::MAX - BLOCK_SIZE + 1);
    assert_eq!(file_pos, 17);
}

#[test]
fn advance_sparse_positions_does_not_commit_on_file_position_overflow() {
    let mut next = 23;
    let mut file_pos = u64::MAX - BLOCK_SIZE + 1;

    let err = advance_sparse_positions(&mut next, &mut file_pos).unwrap_err();

    assert_eq!(err.to_string(), "position overflow");
    assert_eq!(next, 23);
    assert_eq!(file_pos, u64::MAX - BLOCK_SIZE + 1);
}

#[test]
fn malformed_pax_path_is_an_error_of_the_stream() {
    let mut bytes = Vec::new();
    append_member(&mut bytes, b"PaxHeaders/file", b'x', b"99 path=test.txt\n");
    append_member(&mut bytes, b"file", b'0', b"test");

    let err = only_error(Archive::new(bytes));
    assert_eq!(err.to_string(), "malformed pax extension");
}

#[test]
fn absolute_symlink_is_read_back() {
    let mut ar = Builder::new(Vec::new());
    ar.append_symlink(b"foo", b"/bar").unwrap();
    let bytes = ar.into_inner().unwrap();

    let entries = all_entries(Archive::new(bytes));
    assert_eq!(entries.len(), 1);
    let (entry, data) = entries[0].as_ref().unwrap();
    assert_eq!(entry.link_name_bytes().unwrap().unwrap(), b"/bar");
    assert_eq!(entry.path_bytes().unwrap(), b"foo");
    assert_eq!(entry.entry_type(), EntryType::Symlink);
    assert!(data.is_empty());
}

#[test]
fn hard_links_are_read_as_they_stand() {
    let mut bytes = Vec::new();
    let header = raw_header(b"foo", Some(b"../test"), b'1', 0, 0o644);
    append_raw(&mut bytes, &header.as_header(), &[]);
    let mut ar = Builder::new(bytes);
    ar.append_data(b"foo", 1, b"x").unwrap();
    let bytes = ar.into_inner().unwrap();

    let entries = all_entries(Archive::new(bytes));
    assert_eq!(entries.len(), 2);
    let (link, _) = entries[0].as_ref().unwrap();
    assert_eq!(link.entry_type(), EntryType::Link);
    assert_eq!(link.link_name_bytes().unwrap().unwrap(), b"../test");
    let (file, data) = entries[1].as_ref().unwrap();
    assert_eq!(file.path_bytes().unwrap(), b"foo");
    assert_eq!(data, b"x");
}

#[test]
fn members_have_their_places_in_the_archive() {
    let mut bytes = Vec::new();
    append_member(&mut bytes, b"one", b'0', &[1; 513]);
    append_member(&mut bytes, b"two", b'0', b"2");
    bytes.extend_from_slice(&[0; 1024]);
    let entries = all_entries(Archive::new(bytes));
    let (one, data) = entries[0].as_ref().unwrap();
    assert_eq!((one.header_pos, one.file_pos, one.size), (0, 512, 513));
    assert_eq!(data, &[1; 513]);
    let (two, data) = entries[1].as_ref().unwrap();
    assert_eq!((two.header_pos, two.file_pos, two.size), (1536, 2048, 1));
    assert_eq!(data, b"2");
    assert_eq!(entries.len(), 2);
}

#[test]
fn members_that_are_not_read_are_skipped() {
    let mut bytes = Vec::new();
    append_member(&mut bytes, b"one", b'0', &[1; 70000]);
    append_member(&mut bytes, b"two", b'0', b"2");
    let mut archive = Archive::new(bytes);
    let mut entries = archive.entries().unwrap();
    archive.next_entry(&mut entries, 1000).unwrap().unwrap();
    let two = archive.next_entry(&mut entries, 1000).unwrap().unwrap();
    assert_eq!(two.path_bytes().unwrap(), b"two");
    assert!(archive.next_entry(&mut entries, 1000).is_none());
}

#[test]
fn data_that_is_cut_short_is_an_error() {
    let mut bytes = Vec::new();
    append_member(&mut bytes, b"one", b'0', &[1; 700]);
    bytes.truncate(1000);
    let mut archive = Archive::new(bytes);
    let mut entries = archive.entries().unwrap();
    archive.next_entry(&mut entries, 1000).unwrap().unwrap();
    let end = archive.next_entry(&mut entries, 1000).unwrap();
    assert_eq!(end.unwrap_err().to_string(), "unexpected EOF during skip");
}

#[test]
fn it_does_not_matter_how_many_bytes_come_at_once() {
    let mut bytes = Vec::new();
    append_member(&mut bytes, b"l", b'L', &[b'n'; 700]);
    append_member(&mut bytes, b"k", b'K', b"target\0");
    append_member(&mut bytes, b"p", b'x', b"11 size=42\n");
    append_member(&mut bytes, b"short", b'0', &[7; 42]);
    append_member(&mut bytes, b"other", b'0', b"");
    bytes.extend_from_slice(&[0; 1024]);
    for most in [1usize, 2, 511, 512, 513, 100000] {
        let mut archive = Archive::new(bytes.clone());
        let mut entries = archive.entries().unwrap();
        let mut one = archive.next_entry(&mut entries, most).unwrap().unwrap();
        assert_eq!(one.path_bytes().unwrap(), [b'n'; 700]);
        assert_eq!(one.link_name_bytes().unwrap().unwrap(), b"target");
        assert_eq!(archive.read_contents(&mut one), [7; 42]);
        let two = archive.next_entry(&mut entries, most).unwrap().unwrap();
        assert_eq!(two.path_bytes().unwrap(), b"other");
        assert!(two.long_pathname.is_none() && two.pax_extensions.is_none());
        assert!(archive.next_entry(&mut entries, most).is_none());
    }
}

#[test]
fn a_wrong_checksum_is_refused() {
    let mut bytes = Vec::new();
    append_member(&mut bytes, b"one", b'0', b"1");
    bytes[0] = b'x';
    let err = only_error(Archive::new(bytes));
    assert_eq!(err.to_string(), "archive header checksum mismatch");
    assert_eq!(err.kind(), ErrorKind::Other);
}

#[test]
fn a_ustar_header_without_version_is_refused() {
    let mut header = raw_header(b"one", None, b'0', 0, 0o644);
    header.version = *b"\0\0";
    let mut header = header.as_header();
    header.set_cksum();
    let err = only_error(Archive::new(header.as_bytes().to_vec()));
    assert_eq!(
        err.to_string(),
        "NUL-version USTAR header is ambiguous and not supported"
    );
}

#[test]
fn a_block_that_is_cut_short_is_an_error() {
    let mut bytes = Vec::new();
    append_member(&mut bytes, b"one", b'0', b"");
    bytes.extend_from_slice(&[1; 100]);
    let err = only_error(Archive::new(bytes));
    assert_eq!(err.to_string(), "failed to read entire block");
}

#[test]
fn the_end_of_the_input_ends_the_archive() {
    assert!(all_entries(Archive::new(Vec::new())).is_empty());
    let mut bytes = Vec::new();
    append_member(&mut bytes, b"one", b'0', b"");
    assert_eq!(all_entries(Archive::new(bytes)).len(), 1);
}

#[test]
fn zeroed_headers_end_the_archive_unless_they_are_ignored() {
    let mut bytes = Vec::new();
    append_member(&mut bytes, b"one", b'0', b"1");
    bytes.extend_from_slice(&[0; 1024]);
    append_member(&mut bytes, b"two", b'0', b"2");
    assert_eq!(all_entries(Archive::new(bytes.clone())).len(), 1);
    let archive = ArchiveBuilder::new(bytes).set_ignore_zeros(true).build();
    let entries = all_entries(archive);
    assert_eq!(entries.len(), 2);
    let (two, data) = entries[1].as_ref().unwrap();
    assert_eq!(two.header_pos, 2048);
    assert_eq!(data, b"2");
}

#[test]
fn descriptions_that_contradict_are_errors() {
    let cases: [(&[u8], u8, &[u8], u8, &str); 6] = [
        (
            b"14 path=other\n",
            b'x',
            b"name",
            b'L',
            "ambiguous path: pax path and GNU longname describe the same member",
        ),
        (
            b"18 linkpath=other\n",
            b'x',
            b"name",
            b'K',
            "ambiguous link target: pax linkpath and GNU longlink describe the same member",
        ),
        (
            b"name",
            b'L',
            b"14 path=other\n",
            b'x',
            "ambiguous path: pax path and GNU longname describe the same member",
        ),
        (
            b"name",
            b'K',
            b"18 linkpath=other\n",
            b'x',
            "ambiguous link target: pax linkpath and GNU longlink describe the same member",
        ),
        (
            b"name",
            b'L',
            b"name",
            b'L',
            "two long name entries describing the same member",
        ),
        (
            b"14 path=other\n",
            b'x',
            b"14 path=other\n",
            b'x',
            "two pax extensions entries describing the same member",
        ),
    ];
    for (first, first_kind, second, second_kind, message) in cases {
        let mut bytes = Vec::new();
        append_member(&mut bytes, b"e1", first_kind, first);
        append_member(&mut bytes, b"e2", second_kind, second);
        append_member(&mut bytes, b"f", b'0', b"");
        let err = only_error(Archive::new(bytes));
        assert_eq!(err.to_string(), message);
    }
}

#[test]
fn an_empty_pax_value_is_an_error() {
    let mut bytes = Vec::new();
    append_member(&mut bytes, b"e", b'x', b"8 path=\n");
    append_member(&mut bytes, b"f", b'0', b"");
    assert_eq!(
        only_error(Archive::new(bytes)).to_string(),
        "empty values are not supported in local pax extensions"
    );
}

#[test]
fn extension_entries_need_a_member() {
    let mut bytes = Vec::new();
    append_member(&mut bytes, b"e", b'x', b"14 path=other\n");
    let message = "extension entry was not followed by a member";
    assert_eq!(
        only_error(Archive::new(bytes.clone())).to_string(),
        message
    );
    let archive = ArchiveBuilder::new(bytes.clone()).set_pax_only(true).build();
    assert_eq!(
        only_error(archive).to_string(),
        "local pax header is not followed by an archive entry"
    );
    bytes.extend_from_slice(&[0; 1024]);
    assert_eq!(only_error(Archive::new(bytes)).to_string(), message);
}

#[test]
fn extension_entries_need_a_header_that_allows_them() {
    let mut header = Header::new_old();
    header.set_size(0);
    header.set_entry_type(EntryType::new(b'L'));
    header.set_cksum();
    assert_eq!(
        only_error(Archive::new(header.as_bytes().to_vec())).to_string(),
        "extension typeflag is not permitted on an unrecognized header"
    );
    let mut header = Header::new_gnu();
    header.set_size(0);
    header.set_entry_type(EntryType::new(b'x'));
    header.set_cksum();
    assert_eq!(
        only_error(Archive::new(header.as_bytes().to_vec())).to_string(),
        "extension typeflag is not permitted on an unrecognized header"
    );
}

#[test]
fn pax_records_override_the_header() {
    let mut bytes = Vec::new();
    append_member(
        &mut bytes,
        b"e",
        b'x',
        b"9 size=9\n9 size=3\n9 uid=70\n9 gid=80\n12 uname=me\n12 gname=us\n9 path=p\n",
    );
    append_member(&mut bytes, b"f", b'0', b"abc");
    let entries = all_entries(Archive::new(bytes));
    let (entry, data) = entries[0].as_ref().unwrap();
    assert_eq!(entry.size, 3);
    assert_eq!(data, b"abc");
    assert_eq!(entry.header().uid().unwrap(), 70);
    assert_eq!(entry.header().gid().unwrap(), 80);
    assert_eq!(entry.header().username_bytes().unwrap(), b"me");
    assert_eq!(entry.header().groupname_bytes().unwrap(), b"us");
    assert_eq!(entry.pax_username.as_deref(), Some(&b"me"[..]));
    assert_eq!(entry.pax_groupname.as_deref(), Some(&b"us"[..]));
    assert_eq!(entry.path_bytes().unwrap(), b"p");
}

#[test]
fn pax_numbers_must_be_decimal() {
    for (record, message) in [
        (&b"11 size=+1\n"[..], "failed to parse pax size"),
        (&b"11 uid=1x2\n"[..], "failed to parse pax uid"),
        (&b"30 gid=18446744073709551616.\n"[..], "malformed pax extension"),
        (&b"28 gid=18446744073709551616\n"[..], "failed to parse pax gid"),
        (&b"9 uid=\xff\xff\n"[..], "failed to parse pax uid as string"),
    ] {
        let mut bytes = Vec::new();
        append_member(&mut bytes, b"e", b'x', record);
        append_member(&mut bytes, b"f", b'0', b"");
        let err = only_error(Archive::new(bytes));
        assert_eq!(err.to_string(), message, "{record:?}");
    }
}

#[test]
fn orphaned_sparse_records_are_refused() {
    let mut bytes = Vec::new();
    append_member(&mut bytes, b"e", b'x', b"21 GNU.sparse.name=x\n");
    append_member(&mut bytes, b"f", b'0', b"");
    assert_eq!(
        only_error(Archive::new(bytes)).to_string(),
        "orphaned GNU sparse pax metadata is not supported"
    );
    let mut bytes = Vec::new();
    append_member(
        &mut bytes,
        b"e",
        b'x',
        b"22 GNU.sparse.major=1\n22 GNU.sparse.minor=0\n",
    );
    append_member(&mut bytes, b"f", b'0', b"");
    assert_eq!(all_entries(Archive::new(bytes)).len(), 1);
}

#[test]
fn pax_only_archives() {
    let message = "archive header is not allowed by pax-only mode";
    for typeflag in [b'L', b'K', b'g', b'S', b'7'] {
        let mut bytes = Vec::new();
        append_member(&mut bytes, b"e", typeflag, b"");
        let archive = ArchiveBuilder::new(bytes).set_pax_only(true).build();
        assert_eq!(only_error(archive).to_string(), message);
    }
    let mut header = Header::new_ustar();
    header.set_path(b"f").unwrap();
    header.set_mode(0o644);
    header.set_uid(0o10000000);
    header.set_cksum();
    let archive = ArchiveBuilder::new(header.as_bytes().to_vec())
        .set_pax_only(true)
        .build();
    assert_eq!(only_error(archive).to_string(), message);
    let mut bytes = Vec::new();
    append_member(&mut bytes, b"e", b'x', b"14 path=other\n");
    append_member(&mut bytes, b"f", b'0', b"");
    let archive = ArchiveBuilder::new(bytes).set_pax_only(true).build();
    let entries = all_entries(archive);
    assert_eq!(entries[0].as_ref().unwrap().0.path_bytes().unwrap(), b"other");
}

#[test]
fn entries_start_at_the_start() {
    let mut bytes = Vec::new();
    append_member(&mut bytes, b"f", b'0', b"");
    let mut archive = Archive::new(bytes.clone());
    archive.advance(1);
    assert_eq!(
        archive.entries().map(|_: Entries| ()).unwrap_err().to_string(),
        "cannot call entries unless archive is at position 0"
    );
    assert_eq!(
        archive
            .entries_raw()
            .map(|_: RawEntries| ())
            .unwrap_err()
            .to_string(),
        "cannot call entries_raw unless archive is at position 0"
    );
    let mut archive = ArchiveBuilder::new(bytes.clone()).set_pax_only(true).build();
    assert_eq!(
        archive
            .entries_raw()
            .map(|_: RawEntries| ())
            .unwrap_err()
            .to_string(),
        "raw entries are not supported by pax-only mode"
    );
    assert_eq!(archive.into_inner().ok(), Some(bytes));
}

#[test]
fn raw_entries_are_the_physical_ones() {
    let mut bytes = Vec::new();
    append_member(&mut bytes, b"e", b'x', b"14 path=other\n");
    append_member(&mut bytes, b"l", b'L', b"long");
    append_member(&mut bytes, b"f", b'0', b"abc");
    bytes.extend_from_slice(&[0; 1024]);
    let mut archive = Archive::new(bytes);
    let entries = raw_entries(&mut archive);
    let kinds: Vec<EntryType> = entries
        .iter()
        .map(|e| e.as_ref().unwrap().entry_type())
        .collect();
    assert_eq!(
        kinds,
        [EntryType::XHeader, EntryType::GNULongName, EntryType::Regular]
    );
    let last = entries[2].as_ref().unwrap();
    assert_eq!(last.path_bytes().unwrap(), b"f");
    assert_eq!(last.data.front(), Some(&EntryIo::Data(3)));
}

#[test]
fn limits_on_extension_entries() {
    let mut bytes = Vec::new();
    append_member(&mut bytes, b"l", b'L', b"long");
    append_member(&mut bytes, b"f", b'0', b"");
    append_member(&mut bytes, b"l", b'L', b"longer");
    append_member(&mut bytes, b"g", b'0', b"");

    let archive = ArchiveBuilder::new(bytes.clone())
        .set_max_extension_entry_size(5)
        .build();
    let err = only_error(archive);
    assert_eq!(err.kind(), ErrorKind::InvalidData);
    assert_eq!(err.to_string(), "archive extension entry size limit exceeded");

    let archive = ArchiveBuilder::new(bytes.clone())
        .set_max_total_extension_size(9)
        .build();
    let entries = all_entries(archive);
    assert_eq!(entries.len(), 2);
    let err = entries[1].as_ref().map(|_| ()).unwrap_err();
    assert_eq!(err.to_string(), "archive total extension size limit exceeded");

    let archive = ArchiveBuilder::new(bytes)
        .set_max_total_extension_size(10)
        .set_max_extension_entry_size(6)
        .build();
    assert_eq!(all_entries(archive).len(), 2);
}

#[test]
fn limits_on_physical_entries() {
    let mut bytes = Vec::new();
    append_member(&mut bytes, b"f", b'0', b"");
    append_member(&mut bytes, b"g", b'0', b"");
    append_member(&mut bytes, b"h", b'0', b"");
    let archive = ArchiveBuilder::new(bytes.clone())
        .set_max_physical_entries(3)
        .build();
    assert_eq!(all_entries(archive).len(), 3);
    let archive = ArchiveBuilder::new(bytes)
        .set_max_physical_entries(2)
        .build();
    let entries = all_entries(archive);
    assert_eq!(entries.len(), 3);
    let err = entries[2].as_ref().map(|_| ()).unwrap_err();
    assert_eq!(err.kind(), ErrorKind::InvalidData);
    assert_eq!(err.to_string(), "archive physical entry limit exceeded");
}

#[test]
fn limits_of_zero_reject_everything() {
    let mut bytes = Vec::new();
    append_member(&mut bytes, b"l", b'L', b"");
    append_member(&mut bytes, b"f", b'0', b"");
    for archive in [
        ArchiveBuilder::new(bytes.clone())
            .set_max_extension_entry_size(0)
            .build(),
        ArchiveBuilder::new(bytes.clone())
            .set_max_total_extension_size(0)
            .build(),
        ArchiveBuilder::new(bytes.clone())
            .set_max_physical_entries(0)
            .build(),
    ] {
        assert_eq!(only_error(archive).kind(), ErrorKind::InvalidData);
    }
}

#[test]
fn limits_are_shared_by_the_streams_of_an_archive() {
    let mut options = ArchiveOptions::default();
    options.max_physical_entries = Some(2);
    options.max_total_extension_size = Some(100);
    let mut usage = Usage::new();
    usage.reserve_entry(&options, 100, true).unwrap();
    assert!(usage.reserve_entry(&options, 1, true).is_err());
    assert!(usage.reserve_entry(&options, 0, false).is_err());
}

#[test]
fn a_size_beyond_all_bounds_is_refused() {
    let mut bytes = Vec::new();
    append_member(
        &mut bytes,
        b"e",
        b'x',
        b"29 size=18446744073709551615\n",
    );
    append_member(&mut bytes, b"f", b'0', b"");
    assert_eq!(only_error(Archive::new(bytes)).to_string(), "size overflow");
}

#[test]
fn the_options_of_an_archive_come_with_its_entries() {
    let mut bytes = Vec::new();
    append_member(&mut bytes, b"f", b'0', b"");
    let archive = ArchiveBuilder::new(bytes.clone())
        .set_unpack_xattrs(true)
        .set_preserve_permissions(true)
        .set_preserve_mtime(false)
        .set_overwrite(false)
        .set_allow_external_symlinks(false)
        .build();
    let entries = all_entries(archive);
    let unpack = entries[0].as_ref().unwrap().0.unpack;
    assert!(unpack.unpack_xattrs && unpack.preserve_permissions);
    assert!(!unpack.preserve_mtime && !unpack.overwrite && !unpack.allow_external_symlinks);
    let entries = all_entries(Archive::new(bytes));
    let unpack = entries[0].as_ref().unwrap().0.unpack;
    assert!(!unpack.unpack_xattrs && !unpack.preserve_permissions);
    assert!(unpack.preserve_mtime && unpack.overwrite && unpack.allow_external_symlinks);
}
