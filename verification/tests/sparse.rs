use tokio_tar::options::ArchiveOptions;
use tokio_tar::sparse::{parse_sparse_block, SparseState};
use tokio_tar::{
    Archive, ArchiveBuilder, EntryIo, EntryType, Error, ErrorKind, GnuHeader, GnuSparseHeader,
    Header,
};

fn octal(value: u64) -> [u8; 12] {
    let text = format!("{value:011o}\0");
    let mut out = [0u8; 12];
    out.copy_from_slice(text.as_bytes());
    out
}

fn sparse_header(size: u64, real_size: u64, map: &[(u64, u64)], extended: bool) -> Header {
    let mut form: GnuHeader = Header::new_gnu().as_gnu().unwrap();
    form.name[..6].copy_from_slice(b"sparse");
    form.size = octal(size);
    form.realsize = octal(real_size);
    for (i, (offset, length)) in map.iter().enumerate() {
        form.sparse[i].offset = octal(*offset);
        form.sparse[i].numbytes = octal(*length);
    }
    form.isextended = [extended as u8];
    let mut header = form.as_header();
    header.set_mode(0o644);
    header.set_entry_type(EntryType::GNUSparse);
    header.set_cksum();
    header
}

fn continuation(map: &[(u64, u64)], extended: bool) -> Vec<u8> {
    let mut block = vec![0u8; 512];
    for (i, (offset, length)) in map.iter().enumerate() {
        block[24 * i..24 * i + 12].copy_from_slice(&octal(*offset));
        block[24 * i + 12..24 * i + 24].copy_from_slice(&octal(*length));
    }
    block[504] = extended as u8;
    block
}

fn first_contents(bytes: Vec<u8>, most: usize) -> Result<Vec<u8>, Error> {
    first_of(Archive::new(bytes), most)
}

fn first_of(archive: Archive<Vec<u8>>, most: usize) -> Result<Vec<u8>, Error> {
    let mut archive = archive;
    let mut entries = archive.entries().unwrap();
    let mut entry = archive.next_entry(&mut entries, most).unwrap()?;
    assert_eq!(entry.path_bytes().unwrap(), b"sparse");
    let size = entry.size;
    let contents = archive.read_contents(&mut entry);
    assert_eq!(contents.len() as u64, size);
    Ok(contents)
}

#[test]
fn a_sparse_file_is_filled_with_zeros() {
    let mut bytes = sparse_header(515, 2003, &[(512, 512), (2000, 3)], false)
        .as_bytes()
        .to_vec();
    bytes.extend_from_slice(&[1; 512]);
    bytes.extend_from_slice(b"abc");
    bytes.extend_from_slice(&[0; 509]);
    for most in [1usize, 77, 4096] {
        let contents = first_contents(bytes.clone(), most).unwrap();
        assert_eq!(contents.len(), 2003);
        assert!(contents[..512].iter().all(|b| *b == 0));
        assert!(contents[512..1024].iter().all(|b| *b == 1));
        assert!(contents[1024..2000].iter().all(|b| *b == 0));
        assert_eq!(&contents[2000..], b"abc");
    }
}

#[test]
fn continuation_blocks_go_on_with_the_map() {
    let map: Vec<(u64, u64)> = (0..4).map(|i| (i * 1024, 512)).collect();
    let more: Vec<(u64, u64)> = (4..25).map(|i| (i * 1024, 512)).collect();
    let last = [(25 * 1024, 512), (26 * 1024, 1)];
    let size = 26 * 512 + 1;
    let mut bytes = sparse_header(size, 26 * 1024 + 1, &map, true)
        .as_bytes()
        .to_vec();
    bytes.extend_from_slice(&continuation(&more, true));
    bytes.extend_from_slice(&continuation(&last, false));
    for i in 0..26u8 {
        bytes.extend_from_slice(&[i + 1; 512]);
    }
    bytes.push(99);
    bytes.extend_from_slice(&[0; 511]);
    for most in [13usize, 512, 100000] {
        let contents = first_contents(bytes.clone(), most).unwrap();
        assert_eq!(contents.len(), 26 * 1024 + 1);
        for i in 0..26usize {
            assert!(contents[i * 1024..i * 1024 + 512]
                .iter()
                .all(|b| *b == i as u8 + 1));
        }
        assert_eq!(contents[26 * 1024], 99);
    }
}

#[test]
fn sparse_entries_are_limited() {
    let map: Vec<(u64, u64)> = (0..4).map(|i| (i * 512, 512)).collect();
    let mut bytes = sparse_header(2048, 2048, &map, true).as_bytes().to_vec();
    bytes.extend_from_slice(&continuation(&[], false));
    bytes.extend_from_slice(&[5; 2048]);
    let archive = ArchiveBuilder::new(bytes.clone())
        .set_max_sparse_entries(4)
        .set_max_sparse_continuation_blocks(1)
        .build();
    assert_eq!(first_of(archive, 4096).unwrap(), [5; 2048]);
    let archive = ArchiveBuilder::new(bytes.clone())
        .set_max_sparse_entries(3)
        .build();
    let err = first_of(archive, 4096).unwrap_err();
    assert_eq!(err.kind(), ErrorKind::InvalidData);
    assert_eq!(err.to_string(), "archive sparse entry limit exceeded");
    let archive = ArchiveBuilder::new(bytes)
        .set_max_sparse_continuation_blocks(0)
        .build();
    let err = first_of(archive, 4096).unwrap_err();
    assert_eq!(err.kind(), ErrorKind::InvalidData);
    assert_eq!(
        err.to_string(),
        "archive sparse continuation block limit exceeded"
    );
}

#[test]
fn sparse_maps_that_are_wrong() {
    let cases: [(u64, u64, &[(u64, u64)], &str); 6] = [
        (
            100,
            300,
            &[(0, 50), (200, 50)],
            "previous block in sparse file was not aligned to 512-byte boundary",
        ),
        (
            1024,
            1024,
            &[(512, 512), (0, 512)],
            "out of order or overlapping sparse blocks",
        ),
        (
            512,
            1024,
            &[(0, 1024)],
            "sparse file consumed more data than the header listed",
        ),
        (
            512,
            1000,
            &[(0, 512)],
            "mismatch in sparse file chunks and size in header",
        ),
        (
            1024,
            512,
            &[(0, 512)],
            "mismatch in sparse file chunks and entry size in header",
        ),
        (0, 0, &[], ""),
    ];
    for (size, real_size, map, message) in cases {
        let mut bytes = sparse_header(size, real_size, map, false).as_bytes().to_vec();
        bytes.extend_from_slice(&[0; 2048]);
        match first_contents(bytes, 4096) {
            Ok(contents) => {
                assert_eq!(message, "");
                assert!(contents.is_empty());
            }
            Err(err) => assert_eq!(err.to_string(), message),
        }
    }
}

#[test]
fn a_failed_sparse_file_ends_the_stream() {
    let mut bytes = sparse_header(0, 0, &[], true).as_bytes().to_vec();
    let mut archive = Archive::new(bytes.clone());
    let mut entries = archive.entries().unwrap();
    let err = archive.next_entry(&mut entries, 512).unwrap().unwrap_err();
    assert_eq!(err.to_string(), "failed to read extension");
    assert!(archive.next_entry(&mut entries, 512).is_none());

    bytes = sparse_header(512, 100, &[(0, 512)], false).as_bytes().to_vec();
    bytes.extend_from_slice(&[0; 512]);
    bytes.extend_from_slice(sparse_header(0, 0, &[], false).as_bytes());
    let mut archive = Archive::new(bytes);
    let mut entries = archive.entries().unwrap();
    assert!(archive.next_entry(&mut entries, 512).unwrap().is_err());
    assert!(archive.next_entry(&mut entries, 512).is_none());
}

#[test]
fn a_sparse_file_needs_a_gnu_header() {
    let mut header = Header::new_ustar();
    header.set_path(b"sparse").unwrap();
    header.set_size(0);
    header.set_entry_type(EntryType::GNUSparse);
    header.set_cksum();
    let err = first_contents(header.as_bytes().to_vec(), 512).unwrap_err();
    assert_eq!(
        err.to_string(),
        "sparse entry type listed but not GNU header"
    );
}

#[test]
fn map_entries_are_numbers() {
    let mut block = GnuSparseHeader::zeroed();
    assert_eq!(parse_sparse_block(&block).unwrap(), None);
    block.offset = octal(512);
    block.numbytes = octal(7);
    assert_eq!(parse_sparse_block(&block).unwrap(), Some((512, 7)));
    block.numbytes = *b"0000000000x\0";
    assert!(parse_sparse_block(&block).is_err());
}

#[test]
fn blocks_are_added_one_by_one() {
    let bytes = sparse_header(600, 3000, &[], false).as_bytes().to_vec();
    let mut archive = Archive::new(bytes);
    let mut entries = archive.entries_raw().unwrap();
    let block = archive.get_ref().clone();
    let mut found = None;
    if let tokio_tar::Step::Read(n) = entries.step(&mut archive, None) {
        assert_eq!(n, 512);
        if let tokio_tar::Step::Ready(Some(Ok(entry))) =
            entries.step(&mut archive, Some(&block[..]))
        {
            found = Some(entry);
        }
    }
    let options = ArchiveOptions::default();
    let mut state = SparseState::new(&options, found.unwrap()).unwrap();
    state.add_block(&options, 1000, 512).unwrap();
    assert!(state.add_block(&options, 999, 1).is_err());
    assert_eq!(
        state
            .add_block(&options, u64::MAX, 1)
            .unwrap_err()
            .to_string(),
        "more bytes listed in sparse file than u64 can hold"
    );
    state.add_block(&options, 2912, 88).unwrap();
    let entry = state.finish().unwrap();
    assert_eq!(entry.size, 3000);
    let parts: Vec<EntryIo> = entry.data.iter().copied().collect();
    assert_eq!(
        parts,
        [
            EntryIo::Pad(1000),
            EntryIo::Data(512),
            EntryIo::Pad(1400),
            EntryIo::Data(88)
        ]
    );
}

#[test]
fn raw_entries_have_no_sparse_limits() {
    let map: Vec<(u64, u64)> = (0..4).map(|i| (i * 512, 512)).collect();
    let mut bytes = sparse_header(2048, 2048, &map, true).as_bytes().to_vec();
    bytes.extend_from_slice(&continuation(&[], false));
    bytes.extend_from_slice(&[5; 2048]);
    let block = bytes[..512].to_vec();
    let mut archive = ArchiveBuilder::new(bytes)
        .set_max_sparse_entries(0)
        .set_max_sparse_continuation_blocks(0)
        .build();
    let mut entries = archive.entries_raw().unwrap();
    entries.step(&mut archive, None);
    match entries.step(&mut archive, Some(&block[..])) {
        tokio_tar::Step::Ready(Some(Ok(entry))) => {
            assert_eq!(entry.data.front(), Some(&EntryIo::Data(2048)));
        }
        other => panic!("{other:?}"),
    }
}
