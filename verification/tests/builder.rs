use tokio_tar::builder::{
    action_of_visit, name_of_visit, SourceFile, VisitAction, VisitedFile,
};
use tokio_tar::generate::{generated_entry, padding_of};
use tokio_tar::header::BLOCK_SIZE;
use tokio_tar::member::is_pax_header;
use tokio_tar::stat::{major_of, minor_of, path_action, FileKind, FileStat, PathAction};
use tokio_tar::{
    Archive, ArchiveBuilder, Builder, Entry, EntryMetadata, EntryType, Header, HeaderMode,
};

fn members(bytes: &[u8]) -> Vec<(Entry, Vec<u8>)> {
    let mut archive = ArchiveBuilder::new(bytes.to_vec())
        .set_pax_only(true)
        .build();
    let mut entries = archive.entries().unwrap();
    let mut out = Vec::new();
    while let Some(result) = archive.next_entry(&mut entries, 1 << 20) {
        let mut entry = result.unwrap();
        let data = archive.read_contents(&mut entry);
        out.push((entry, data));
    }
    out
}

fn stat_of(kind: FileKind, mode: u32, len: u64) -> FileStat {
    FileStat {
        kind,
        mode,
        uid: 1000,
        gid: 100,
        mtime: 1_600_000_000,
        len,
        rdev: 0,
    }
}

#[test]
fn generated_members_are_read_back() {
    let mut ar = Builder::new(Vec::new());
    ar.append_data(b"really/long/path/to/foo", 4, &[1, 2, 3, 4])
        .unwrap();
    ar.append_directory(b"./some/./dir/").unwrap();
    ar.append_hard_link(b"hard", b"really/long/path/to/foo")
        .unwrap();
    ar.append_symlink(b"soft", b"../elsewhere/").unwrap();
    ar.append_data_with_metadata(
        b"owned",
        1,
        EntryMetadata::new().mode(0o600).uid(7).gid(8).mtime(9),
        b"x",
    )
    .unwrap();
    ar.append_directory_with_metadata(b"private", EntryMetadata::new().mode(0o700))
        .unwrap();
    let bytes = ar.into_inner().unwrap();
    assert_eq!(bytes.len() as u64 % BLOCK_SIZE, 0);

    let m = members(&bytes);
    assert_eq!(m.len(), 6);
    assert_eq!(m[0].0.path_bytes().unwrap(), b"really/long/path/to/foo");
    assert_eq!(m[0].1, [1, 2, 3, 4]);
    assert_eq!(m[0].0.header().mode().unwrap(), 0o644);
    assert_eq!(m[1].0.path_bytes().unwrap(), b"some/dir/");
    assert_eq!(m[1].0.entry_type(), EntryType::Directory);
    assert_eq!(m[1].0.header().mode().unwrap(), 0o755);
    assert_eq!(m[2].0.entry_type(), EntryType::Link);
    assert_eq!(
        m[2].0.link_name_bytes().unwrap().unwrap(),
        b"really/long/path/to/foo"
    );
    assert_eq!(m[3].0.entry_type(), EntryType::Symlink);
    assert_eq!(m[3].0.link_name_bytes().unwrap().unwrap(), b"../elsewhere/");
    assert_eq!(m[3].0.header().mode().unwrap(), 0o777);
    assert_eq!(m[4].0.header().mode().unwrap(), 0o600);
    assert_eq!(m[4].0.header().uid().unwrap(), 7);
    assert_eq!(m[4].0.header().gid().unwrap(), 8);
    assert_eq!(m[4].0.header().mtime().unwrap(), 9);
    assert_eq!(m[5].0.header().mode().unwrap(), 0o700);
}

#[test]
fn the_exact_bytes_of_a_small_archive() {
    let mut ar = Builder::new(Vec::new());
    ar.append_data(b"a", 1, b"x").unwrap();
    let bytes = ar.into_inner().unwrap();
    let mut expected = vec![0u8; 2048];
    expected[0] = b'a';
    expected[100..108].copy_from_slice(b"0000644\0");
    expected[108..116].copy_from_slice(b"0000000\0");
    expected[116..124].copy_from_slice(b"0000000\0");
    expected[124..136].copy_from_slice(b"00000000001\0");
    expected[136..148].copy_from_slice(b"00000000000\0");
    expected[156] = b'0';
    expected[257..265].copy_from_slice(b"ustar\x0000");
    let sum: u32 = expected[..512].iter().map(|b| *b as u32).sum::<u32>() + 256;
    expected[148..156].copy_from_slice(format!("{sum:07o}\0").as_bytes());
    expected[512] = b'x';
    assert_eq!(bytes, expected);
}

#[test]
fn long_and_foreign_names_get_pax_records() {
    let long = "n".repeat(300);
    let foreign = "dossier/\u{e9}";
    let mut ar = Builder::new(Vec::new());
    ar.append_data(long.as_bytes(), 3, b"abc").unwrap();
    ar.append_symlink(foreign.as_bytes(), long.as_bytes())
        .unwrap();
    ar.append_hard_link(b"hard", foreign.as_bytes()).unwrap();
    let bytes = ar.into_inner().unwrap();

    assert_eq!(&bytes[..20], b"PaxHeaders/pax-entry");
    assert_eq!(bytes[156], b'x');
    assert_eq!(&bytes[512..521], b"310 path=");
    assert_eq!(&bytes[1024..1033], b"pax-entry");

    let m = members(&bytes);
    assert_eq!(m[0].0.path_bytes().unwrap(), long.as_bytes());
    assert_eq!(m[0].0.header().path_bytes(), b"pax-entry");
    assert_eq!(m[0].1, b"abc");
    assert_eq!(m[1].0.path_bytes().unwrap(), foreign.as_bytes());
    assert_eq!(
        m[1].0.link_name_bytes().unwrap().unwrap(),
        long.as_bytes()
    );
    assert_eq!(m[1].0.header().link_name_bytes().unwrap(), b"pax-sym-link");
    assert_eq!(
        m[2].0.link_name_bytes().unwrap().unwrap(),
        foreign.as_bytes()
    );
    assert_eq!(m[2].0.header().link_name_bytes().unwrap(), b"pax-hard-link");
}

#[test]
fn large_numbers_get_pax_records() {
    let uid = 1u64 << 40;
    let mut ar = Builder::new(Vec::new());
    ar.append_directory_with_metadata(
        b"d",
        EntryMetadata::new().uid(uid).gid(uid + 1).mtime(1 << 50),
    )
    .unwrap();
    let bytes = ar.into_inner().unwrap();
    let m = members(&bytes);
    assert_eq!(m[0].0.header().uid().unwrap(), uid);
    assert_eq!(m[0].0.header().gid().unwrap(), uid + 1);
    let text = String::from_utf8(m[0].0.pax_extensions.clone().unwrap()).unwrap();
    assert_eq!(
        text,
        "21 uid=1099511627776\n21 gid=1099511627777\n26 mtime=1125899906842624\n"
    );
    assert_eq!(m[0].0.header().mtime().unwrap(), 0);
}

#[test]
fn files_are_read_back_with_their_numbers() {
    let limit = 0o100000000000u64;
    let times = [0, 1_600_000_000, limit - 1, limit];
    let mut ar = Builder::new(Vec::new());
    for (i, mtime) in times.iter().enumerate() {
        let name = format!("file{i}");
        let metadata = EntryMetadata::new().uid(1 << 40).gid(3).mode(0o640).mtime(*mtime);
        let data = vec![i as u8; i * 700];
        ar.append_data_with_metadata(name.as_bytes(), data.len() as u64, metadata, &data)
            .unwrap();
    }
    let m = members(&ar.into_inner().unwrap());
    assert_eq!(m.len(), times.len());
    for (i, (entry, data)) in m.iter().enumerate() {
        assert_eq!(entry.path_bytes().unwrap(), format!("file{i}").as_bytes());
        assert_eq!(entry.header().uid().unwrap(), 1 << 40);
        assert_eq!(entry.header().gid().unwrap(), 3);
        assert_eq!(entry.header().mode().unwrap(), 0o640);
        assert_eq!(*data, vec![i as u8; i * 700]);
        let text = String::from_utf8(entry.pax_extensions.clone().unwrap()).unwrap();
        if times[i] < limit {
            assert_eq!(entry.header().mtime().unwrap(), times[i]);
            assert!(!text.contains("mtime"));
        } else {
            assert!(text.contains("mtime=8589934592"));
        }
    }
}

#[test]
fn a_mode_keeps_its_lowest_digits() {
    let mut ar = Builder::new(Vec::new());
    ar.append_directory_with_metadata(b"d", EntryMetadata::new().mode(0o12_3456_7012))
        .unwrap();
    let m = members(&ar.into_inner().unwrap());
    assert_eq!(m[0].0.header().mode().unwrap(), 0o456_7012);
}

#[test]
fn every_generated_header_is_a_pax_header() {
    for size in [0, 1, 0o77777777777, 0o100000000000, u64::MAX >> 1] {
        let entry = generated_entry(
            "x",
            size,
            EntryType::Regular,
            EntryMetadata::new().uid(size),
            0o644,
        )
        .unwrap();
        assert!(is_pax_header(&entry.header));
    }
}

#[test]
fn names_are_checked() {
    let mut ar = Builder::new(Vec::new());
    for (name, message) in [
        (&b"/abs"[..], "paths in archives must be relative"),
        (b"a/../b", "paths in archives must not have `..`"),
        (b"", "paths in archives must have at least one component"),
        (
            b"new\nline",
            "archive names must not contain Unicode control characters",
        ),
        (b"bad-\xff", "archive names must be valid UTF-8"),
    ] {
        assert_eq!(ar.append_data(name, 0, b"").unwrap_err().to_string(), message);
        assert_eq!(ar.append_directory(name).unwrap_err().to_string(), message);
        assert_eq!(
            ar.append_hard_link(b"h", name).unwrap_err().to_string(),
            message
        );
    }
    assert_eq!(
        ar.append_symlink(b"s", b"").unwrap_err().to_string(),
        "symbolic-link targets must have at least one component"
    );
    assert_eq!(
        ar.append_symlink(b"s", b"\x7f").unwrap_err().to_string(),
        "symbolic-link targets must not contain Unicode control characters"
    );
    assert!(ar.get_ref().is_empty());
}

#[test]
fn padding_fills_the_last_block() {
    assert_eq!(padding_of(0), 0);
    assert_eq!(padding_of(1), 511);
    assert_eq!(padding_of(512), 0);
    assert_eq!(padding_of(1000), 24);
}

#[test]
fn an_archive_is_finished_once() {
    let mut ar = Builder::new(Vec::new());
    ar.finish().unwrap();
    ar.finish().unwrap();
    assert_eq!(ar.get_ref().len(), 1024);
    assert!(ar.owed_on_drop().is_empty());
    assert_eq!(ar.into_inner().unwrap(), vec![0; 1024]);
}

#[test]
fn what_a_dropped_builder_owes() {
    let mut ar: Builder<Vec<u8>> = Builder::new(Vec::new());
    assert_eq!(ar.owed_on_drop(), vec![0; 1024]);
    ar.skip_termination();
    assert!(ar.owed_on_drop().is_empty());
    let ar: Builder<Vec<u8>> = Builder::new_non_terminated(Vec::new());
    assert!(ar.owed_on_drop().is_empty());
    assert!(ar.into_parts().is_empty());
}

#[test]
fn files_keep_what_the_file_system_says() {
    let mut ar = Builder::new(Vec::new());
    ar.append_file(b"f", &stat_of(FileKind::File, 0o100640, 3), b"abc")
        .unwrap();
    ar.append_dir(b"d", &stat_of(FileKind::Directory, 0o40750, 4096))
        .unwrap();
    ar.mode(HeaderMode::Deterministic);
    ar.append_file(b"g", &stat_of(FileKind::File, 0o100740, 3), b"abc")
        .unwrap();
    ar.append_file(b"h", &stat_of(FileKind::File, 0o100640, 3), b"abc")
        .unwrap();
    let m = members(&ar.into_inner().unwrap());
    assert_eq!(m[0].1, b"abc");
    assert_eq!(m[0].0.header().mode().unwrap() & 0o7777, 0o640);
    assert_eq!(m[0].0.header().uid().unwrap(), 1000);
    assert_eq!(m[0].0.header().gid().unwrap(), 100);
    assert_eq!(m[0].0.header().mtime().unwrap(), 1_600_000_000);
    assert_eq!(m[1].0.entry_type(), EntryType::Directory);
    assert_eq!(m[1].0.size, 0);
    assert_eq!(m[2].0.header().mode().unwrap(), 0o755);
    assert_eq!(m[2].0.header().uid().unwrap(), 0);
    assert_eq!(m[2].0.header().mtime().unwrap(), 0);
    assert_eq!(m[3].0.header().mode().unwrap(), 0o644);
}

#[test]
fn special_files_are_members_without_data() {
    let mut ar = Builder::new(Vec::new());
    let mut stat = stat_of(FileKind::Char, 0o20644, 0);
    stat.rdev = 0x501;
    let file = SourceFile {
        stat,
        contents: b"",
        link: b"",
    };
    ar.append_path(b"tty", &file).unwrap();
    let fifo = SourceFile {
        stat: stat_of(FileKind::Fifo, 0o10644, 0),
        contents: b"",
        link: b"",
    };
    ar.append_path_with_name(&fifo, b"pipe").unwrap();
    let socket = SourceFile {
        stat: stat_of(FileKind::Socket, 0o140644, 0),
        contents: b"",
        link: b"",
    };
    assert_eq!(
        ar.append_path(b"s", &socket).unwrap_err().to_string(),
        "s: socket can not be archived"
    );
    let unknown = SourceFile {
        stat: stat_of(FileKind::Unknown, 0, 0),
        contents: b"",
        link: b"",
    };
    assert_eq!(
        ar.append_path(b"u", &unknown).unwrap_err().to_string(),
        "u has unknown file type"
    );
    let link = SourceFile {
        stat: stat_of(FileKind::Symlink, 0o120777, 5),
        contents: b"",
        link: b"where",
    };
    ar.append_path(b"l", &link).unwrap();
    let m = members(&ar.into_inner().unwrap());
    assert_eq!(m.len(), 3);
    assert_eq!(m[0].0.entry_type(), EntryType::Char);
    assert_eq!(m[0].0.header().device_major().unwrap(), Some(5));
    assert_eq!(m[0].0.header().device_minor().unwrap(), Some(1));
    assert_eq!(m[1].0.entry_type(), EntryType::Fifo);
    assert_eq!(m[2].0.entry_type(), EntryType::Symlink);
    assert_eq!(m[2].0.link_name_bytes().unwrap().unwrap(), b"where");
    assert_eq!(m[2].0.size, 0);
}

#[test]
fn device_numbers_are_split() {
    assert_eq!((major_of(0), minor_of(0)), (0, 0));
    assert_eq!((major_of(0x801), minor_of(0x801)), (8, 1));
    assert_eq!((major_of(0xab123456cde78), minor_of(0xab123456cde78)), (0xabcde, 0x1234_5678));
    let dev: u64 = 0x1234_5fff_fff6_7fab;
    assert_eq!(
        major_of(dev) as u64,
        ((dev >> 32) & 0xffff_f000) | ((dev >> 8) & 0xfff)
    );
    assert_eq!(
        minor_of(dev) as u64,
        ((dev >> 12) & 0xffff_ff00) | (dev & 0xff)
    );
}

#[test]
fn what_becomes_of_a_file() {
    assert_eq!(
        path_action(&stat_of(FileKind::File, 0, 0)),
        PathAction::Contents
    );
    assert_eq!(
        path_action(&stat_of(FileKind::Symlink, 0, 0)),
        PathAction::Link
    );
}

#[test]
fn a_walk_names_what_it_finds() {
    let prefix = Some("top".to_string());
    assert_eq!(
        name_of_visit(&prefix, b"a/b").unwrap().as_deref(),
        Some("top/a/b")
    );
    assert_eq!(name_of_visit(&prefix, b"").unwrap().as_deref(), Some("top"));
    assert_eq!(name_of_visit(&None, b"a").unwrap().as_deref(), Some("a"));
    assert_eq!(name_of_visit(&None, b"").unwrap(), None);
    assert_eq!(
        action_of_visit(true, false, false, true),
        VisitAction::Directory
    );
    assert_eq!(
        action_of_visit(false, true, true, true),
        VisitAction::Directory
    );
    assert_eq!(action_of_visit(false, true, true, false), VisitAction::Link);
    assert_eq!(
        action_of_visit(false, false, false, true),
        VisitAction::File
    );
}

#[test]
fn a_directory_goes_in_with_its_files() {
    let dir = SourceFile {
        stat: stat_of(FileKind::Directory, 0o40755, 0),
        contents: b"",
        link: b"",
    };
    let file = SourceFile {
        stat: stat_of(FileKind::File, 0o100644, 2),
        contents: b"hi",
        link: b"",
    };
    let link = SourceFile {
        stat: stat_of(FileKind::Symlink, 0o120777, 0),
        contents: b"",
        link: b"sub",
    };
    let files = vec![
        VisitedFile {
            relative: b"",
            is_dir: true,
            is_symlink: false,
            leads_to_dir: false,
            file: dir,
        },
        VisitedFile {
            relative: b"sub",
            is_dir: true,
            is_symlink: false,
            leads_to_dir: false,
            file: dir,
        },
        VisitedFile {
            relative: b"sub/file",
            is_dir: false,
            is_symlink: false,
            leads_to_dir: false,
            file,
        },
        VisitedFile {
            relative: b"link",
            is_dir: false,
            is_symlink: true,
            leads_to_dir: true,
            file: link,
        },
    ];
    let mut ar = Builder::new(Vec::new());
    ar.follow_symlinks(false);
    ar.append_dir_all(b"bardir", &files).unwrap();
    let m = members(&ar.into_inner().unwrap());
    let names: Vec<Vec<u8>> = m.iter().map(|(e, _)| e.path_bytes().unwrap()).collect();
    assert_eq!(
        names,
        [
            b"bardir".to_vec(),
            b"bardir/sub".to_vec(),
            b"bardir/sub/file".to_vec(),
            b"bardir/link".to_vec()
        ]
    );
    assert_eq!(m[2].1, b"hi");
    assert_eq!(m[3].0.link_name_bytes().unwrap().unwrap(), b"sub");

    let mut ar = Builder::new(Vec::new());
    ar.follow_symlinks(false);
    ar.append_dir_all(b"", &files).unwrap();
    assert_eq!(members(&ar.into_inner().unwrap()).len(), 3);
}

#[test]
fn metadata_goes_into_a_header() {
    let mut header = Header::new_ustar();
    EntryMetadata::new()
        .uid(1)
        .gid(2)
        .mtime(3)
        .apply(&mut header, 0o644);
    assert_eq!(header.mode().unwrap(), 0o644);
    EntryMetadata::default().mode(0o755).apply(&mut header, 0o644);
    assert_eq!(header.mode().unwrap(), 0o755);
    assert_eq!(header.uid().unwrap(), 0);
}

#[test]
fn an_archive_is_written_and_read_back() {
    let mut ar = Builder::new(Vec::new());
    let mut expected: Vec<(String, Vec<u8>)> = Vec::new();
    for i in 0..40usize {
        let name = format!("dir{}/{}", i % 3, "x".repeat(i * 9 + 1));
        let data = vec![i as u8; i * 37];
        ar.append_data(name.as_bytes(), data.len() as u64, &data)
            .unwrap();
        expected.push((name, data));
    }
    let bytes = ar.into_inner().unwrap();
    let mut archive = Archive::new(bytes);
    let mut entries = archive.entries().unwrap();
    for (name, data) in expected {
        let mut entry = archive.next_entry(&mut entries, 333).unwrap().unwrap();
        assert_eq!(entry.path_bytes().unwrap(), name.as_bytes());
        assert_eq!(archive.read_contents(&mut entry), data);
    }
    assert!(archive.next_entry(&mut entries, 333).is_none());
}

#[test]
fn an_archive_is_read_back_within_limits() {
    let long = "n".repeat(300);
    let mut ar = Builder::new(Vec::new());
    ar.append_data(long.as_bytes(), 3, b"abc").unwrap();
    ar.append_directory(b"d").unwrap();
    let bytes = ar.into_inner().unwrap();
    let mut archive = ArchiveBuilder::new(bytes.clone())
        .set_max_physical_entries(3)
        .set_max_extension_entry_size(310)
        .set_max_total_extension_size(310)
        .set_ignore_zeros(true)
        .build();
    let mut entries = archive.entries().unwrap();
    let first = archive.next_entry(&mut entries, 100).unwrap().unwrap();
    assert_eq!(first.path_bytes().unwrap(), long.as_bytes());
    let second = archive.next_entry(&mut entries, 100).unwrap().unwrap();
    assert_eq!(second.path_bytes().unwrap(), b"d");
    assert!(archive.next_entry(&mut entries, 100).is_none());

    let mut archive = ArchiveBuilder::new(bytes)
        .set_max_extension_entry_size(309)
        .build();
    let mut entries = archive.entries().unwrap();
    assert!(archive.next_entry(&mut entries, 100).unwrap().is_err());
}

#[test]
fn archives_behind_each_other_are_read_as_one() {
    let mut bytes = Vec::new();
    for i in 0..3u8 {
        let mut ar = Builder::new(Vec::new());
        for j in 0..i {
            let name = format!("{i}-{j}-{}", "n".repeat(60 * i as usize));
            ar.append_data(name.as_bytes(), 600, &[i * 10 + j; 600]).unwrap();
        }
        bytes.extend(ar.into_inner().unwrap());
    }
    let mut archive = ArchiveBuilder::new(bytes.clone()).set_ignore_zeros(true).build();
    let mut entries = archive.entries().unwrap();
    for (i, j) in [(1u8, 0u8), (2, 0), (2, 1)] {
        let mut entry = archive.next_entry(&mut entries, 100).unwrap().unwrap();
        let name = format!("{i}-{j}-{}", "n".repeat(60 * i as usize));
        assert_eq!(entry.path_bytes().unwrap(), name.as_bytes());
        if j == 0 {
            assert_eq!(archive.read_contents(&mut entry), [i * 10 + j; 600]);
        }
    }
    assert!(archive.next_entry(&mut entries, 100).is_none());

    let mut archive = Archive::new(bytes);
    let mut entries = archive.entries().unwrap();
    assert!(archive.next_entry(&mut entries, 100).is_none());
}
