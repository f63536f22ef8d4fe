//! What becomes of files in an archive: as which members they are read back.

use crate::archive::ArchiveView;
use crate::builder::{
    file_data, path_generated, prefix_of, stat_generated, visit_bytes, visit_generated, visit_name,
    visits_bytes, SourceFile, VisitedFile,
};
use crate::entries::EntriesView;
use crate::entry::{contents, entry_link, entry_path, pax_value, EntryView};
use crate::entry_type::EntryType;
use crate::error::ErrorView;
use crate::facts::is_member_of;
use crate::generate::entry_bytes;
use crate::header::{
    header_gid, header_mode, header_mtime, header_type, header_uid, HeaderMode,
};
use crate::name::{name_refusal, name_text, target_refusal};
use crate::path::member_path;
use crate::readback::facts_of_stat;
use crate::roundtrip::{
    can_read, is_fresh, is_written, law_entry_is_read_back, Written, written_bytes,
};
use crate::scan::distance;
use crate::stat::{special_refusal, FileKind, FileStat};
use crate::stream::said;
use crate::walk::{is_sound_visit, lemma_visit_is_written, visit_path, visit_written};
use vstd::prelude::*;
use vstd::utf8::encode_utf8;

verus! {

/// Whether an archive is read without limits and without pax-only mode.
pub open spec fn is_unlimited(a: ArchiveView) -> bool {
    &&& a.options.max_physical_entries is None
    &&& a.options.max_extension_entry_size is None
    &&& a.options.max_total_extension_size is None
    &&& !a.options.pax_only
}

/// Whether a member says of a file what the file system said of it: all of it in
/// complete mode. In deterministic mode the owner and the time are zero, and the
/// permissions are 755 for a directory and for what its owner may execute, else
/// 644. A time from 2^33 on is in a pax record.
pub open spec fn tells_of_file(m: EntryView, stat: FileStat, mode: HeaderMode) -> bool {
    match mode {
        HeaderMode::Complete => {
            &&& header_uid(m.header) == Ok::<u64, ErrorView>(stat.uid)
            &&& header_gid(m.header) == Ok::<u64, ErrorView>(stat.gid)
            &&& header_mode(m.header) == Ok::<u32, ErrorView>((stat.mode % 0x20_0000) as u32)
            &&& if stat.mtime < 0x2_0000_0000 {
                header_mtime(m.header) == Ok::<u64, ErrorView>(stat.mtime)
            } else {
                pax_value(m.pax_extensions, encode_utf8("mtime"@)) == Ok::<
                    Option<Seq<u8>>,
                    ErrorView,
                >(Some(crate::number::decimal(stat.mtime as nat)))
            }
        },
        HeaderMode::Deterministic => {
            &&& header_uid(m.header) == Ok::<u64, ErrorView>(0)
            &&& header_gid(m.header) == Ok::<u64, ErrorView>(0)
            &&& header_mtime(m.header) == Ok::<u64, ErrorView>(0)
            &&& header_mode(m.header) == Ok::<u32, ErrorView>(
                if stat.kind is Directory || stat.mode & 0o100 != 0 {
                    0o755
                } else {
                    0o644
                },
            )
        },
    }
}

/// Whether the kind of a member is that of a file.
pub open spec fn is_kind_of_file(kind: EntryType, file: FileKind) -> bool {
    match file {
        FileKind::File => kind is Regular,
        FileKind::Directory => kind is Directory,
        FileKind::Symlink => kind is Symlink,
        FileKind::Fifo => kind is Fifo,
        FileKind::Char => kind is Char,
        FileKind::Block => kind is Block,
        _ => false,
    }
}

proof fn lemma_told(
    m: EntryView,
    path: Seq<u8>,
    stat: FileStat,
    mode: HeaderMode,
    link: Option<Seq<u8>>,
)
    requires
        is_member_of(m, facts_of_stat(path, stat, mode, link)),
    ensures
        entry_path(m) == Ok::<Seq<u8>, ErrorView>(member_path(path)),
        entry_link(m) == Ok::<Option<Seq<u8>>, ErrorView>(link),
        stat.kind !is Socket && stat.kind !is Unknown ==> is_kind_of_file(
            header_type(m.header),
            stat.kind,
        ),
        tells_of_file(m, stat, mode),
        m.size == (if stat.kind is Directory || stat.kind is Symlink {
            0
        } else {
            stat.len
        }),
{
    let bits = stat.mode;
    assert((bits / 64) % 2 == 1 <==> bits & 0o100 != 0) by (bit_vector);
}

/// How a file that a walk comes upon is taken.
proof fn lemma_visit(path: Seq<u8>, v: VisitedFile, mode: HeaderMode, follow: bool)
    requires
        path.len() > 0 ==> name_refusal(path) is None,
        path.len() > 0 || v.relative@.len() > 0,
        name_refusal(visit_path(path, v.relative@)) is None,
        v.file.stat.uid < 0x8000_0000_0000_0000,
        v.file.stat.gid < 0x8000_0000_0000_0000,
        is_told_right(v, follow),
    ensures
        visit_bytes(prefix_of(path), v, mode, follow) is Ok,
        is_sound_visit(path, v, mode, follow),
        ({
            let ws = visit_written(path, v, mode, follow);
            &&& ws.len() == 1
            &&& is_written(ws[0])
            &&& visit_bytes(prefix_of(path), v, mode, follow)->Ok_0 == entry_bytes(
                ws[0].entry,
                ws[0].data,
            )
            &&& ws[0].facts == facts_of_stat(
                visit_path(path, v.relative@),
                v.file.stat,
                mode,
                if !v.is_dir && v.is_symlink && !follow {
                    Some(v.file.link@)
                } else {
                    None
                },
            )
            &&& ws[0].data == (if v.file.stat.kind is File {
                v.file.contents@
            } else {
                Seq::empty()
            })
        }),
{
    reveal(visit_bytes);
    let name = name_text(visit_path(path, v.relative@));
    assert(visit_name(prefix_of(path), v.relative@) == Ok::<Option<Seq<char>>, ErrorView>(
        Some(name),
    ));
    assert(visit_generated(name, v, mode, follow) is Ok);
    assert(is_sound_visit(path, v, mode, follow));
    lemma_visit_is_written(path, v, mode, follow);
    let ws = visit_written(path, v, mode, follow);
    assert(is_written(ws[0]));
    assert(ws.skip(1) =~= Seq::<Written>::empty());
    assert(written_bytes(ws.skip(1)) =~= Seq::<u8>::empty());
    assert(visit_bytes(prefix_of(path), v, mode, follow)->Ok_0 =~= entry_bytes(
        ws[0].entry,
        ws[0].data,
    ));
}

/// Whether what the file system says of a file goes with how a walk takes it: a
/// directory, or a link to one that is followed, is a directory; another link that
/// is not followed is a link whose target can stand in an archive; and what is
/// neither is a regular file, a pipe or a device.
pub open spec fn is_told_right(v: VisitedFile, follow: bool) -> bool {
    if v.is_dir || v.is_symlink && follow && v.leads_to_dir {
        v.file.stat.kind is Directory
    } else if v.is_symlink && !follow {
        v.file.stat.kind is Symlink && target_refusal(v.file.link@) is None
    } else {
        ||| v.file.stat.kind is File && v.file.contents@.len() == v.file.stat.len
        ||| v.file.stat.kind is Fifo && v.file.stat.len == 0
        ||| v.file.stat.kind is Char && v.file.stat.len == 0
        ||| v.file.stat.kind is Block && v.file.stat.len == 0
    }
}

/// A file that a walk comes upon is read back as what it was taken for. A
/// directory, and a symbolic link to one where links are followed, is read back
/// as a directory. Any other symbolic link is read back as a symbolic link with
/// its target where links are not followed, whatever it leads to. Any other file
/// is read back as a file of its own kind: a regular file with its contents.
pub proof fn law_visited_file_is_read_back(
    a: ArchiveView,
    e: EntriesView,
    between: Seq<u8>,
    path: Seq<u8>,
    v: VisitedFile,
    mode: HeaderMode,
    follow: bool,
    tail: Seq<u8>,
)
    requires
        path.len() > 0 ==> name_refusal(path) is None,
        path.len() > 0 || v.relative@.len() > 0,
        name_refusal(visit_path(path, v.relative@)) is None,
        v.file.stat.uid < 0x8000_0000_0000_0000,
        v.file.stat.gid < 0x8000_0000_0000_0000,
        is_told_right(v, follow),
        is_fresh(e),
        is_unlimited(a),
        between.len() == distance(a.pos, e.scan.next),
        visit_bytes(prefix_of(path), v, mode, follow) matches Ok(bytes) ==> a.pos + between.len()
            + bytes.len() <= u64::MAX,
    ensures
        visit_bytes(prefix_of(path), v, mode, follow) is Ok,
        ({
            let bytes = visit_bytes(prefix_of(path), v, mode, follow)->Ok_0;
            let as_directory = v.is_dir || v.is_symlink && follow && v.leads_to_dir;
            let as_link = !v.is_dir && v.is_symlink && !follow;
            said(a, e, between + bytes + tail) matches (read, after, rest, Some(Ok(m))) && {
                &&& entry_path(m) == Ok::<Seq<u8>, ErrorView>(
                    member_path(visit_path(path, v.relative@)),
                )
                &&& as_directory ==> header_type(m.header) is Directory && m.size == 0
                &&& as_link ==> header_type(m.header) is Symlink && entry_link(m) == Ok::<
                    Option<Seq<u8>>,
                    ErrorView,
                >(Some(v.file.link@))
                &&& !as_link ==> entry_link(m) == Ok::<Option<Seq<u8>>, ErrorView>(None)
                &&& is_kind_of_file(header_type(m.header), v.file.stat.kind)
                &&& contents(m.data, rest) == (if v.file.stat.kind is File {
                    v.file.contents@
                } else {
                    Seq::empty()
                })
                &&& tells_of_file(m, v.file.stat, mode)
                &&& is_fresh(after)
            }
        }),
{
    lemma_visit(path, v, mode, follow);
    let w = visit_written(path, v, mode, follow)[0];
    assert(can_read(a, e, between, w.entry, w.data));
    law_entry_is_read_back(a, e, between, w.entry, w.facts, w.data, tail);
    let bytes = visit_bytes(prefix_of(path), v, mode, follow)->Ok_0;
    let m = said(a, e, between + bytes + tail).3->0->Ok_0;
    lemma_told(
        m,
        visit_path(path, v.relative@),
        v.file.stat,
        mode,
        if !v.is_dir && v.is_symlink && !follow {
            Some(v.file.link@)
        } else {
            None
        },
    );
}

/// A file that is archived under a name is read back as a member of its kind: a
/// regular file with its contents, a symbolic link with its target, and the others
/// without data. Sockets and files of an unknown kind are refused, and links whose
/// target cannot stand in an archive.
pub proof fn law_named_file_is_read_back(
    a: ArchiveView,
    e: EntriesView,
    between: Seq<u8>,
    name: Seq<u8>,
    file: SourceFile,
    mode: HeaderMode,
    tail: Seq<u8>,
)
    requires
        name_refusal(name) is None,
        file.stat.uid < 0x8000_0000_0000_0000,
        file.stat.gid < 0x8000_0000_0000_0000,
        file.stat.kind is File ==> file.contents@.len() == file.stat.len,
        file.stat.kind is Fifo || file.stat.kind is Char || file.stat.kind is Block
            ==> file.stat.len == 0,
        is_fresh(e),
        is_unlimited(a),
        between.len() == distance(a.pos, e.scan.next),
        path_generated(name, file, mode) matches Ok(g) ==> a.pos + between.len() + entry_bytes(
            g,
            file_data(file),
        ).len() <= u64::MAX,
    ensures
        path_generated(name, file, mode) is Ok <==> !(file.stat.kind is Socket) && !(
        file.stat.kind is Unknown) && (file.stat.kind is Symlink ==> target_refusal(
            file.link@,
        ) is None),
        path_generated(name, file, mode) matches Ok(g) ==> (said(
            a,
            e,
            between + entry_bytes(g, file_data(file)) + tail,
        ) matches (read, after, rest, Some(Ok(m))) && {
            &&& entry_path(m) == Ok::<Seq<u8>, ErrorView>(member_path(name))
            &&& is_kind_of_file(header_type(m.header), file.stat.kind)
            &&& entry_link(m) == Ok::<Option<Seq<u8>>, ErrorView>(
                if file.stat.kind is Symlink {
                    Some(file.link@)
                } else {
                    None
                },
            )
            &&& contents(m.data, rest) == (if file.stat.kind is File {
                file.contents@
            } else {
                Seq::empty()
            })
            &&& tells_of_file(m, file.stat, mode)
            &&& is_fresh(after)
        }),
{
    let stat = file.stat;
    let data = file_data(file);
    if let Ok(g) = path_generated(name, file, mode) {
        assert(can_read(a, e, between, g, data));
        crate::readback::law_file_is_read_back(
            a,
            e,
            between,
            name,
            stat,
            file.link@,
            mode,
            data,
            tail,
        );
        let m = said(a, e, between + entry_bytes(g, data) + tail).3->0->Ok_0;
        lemma_told(
            m,
            name,
            stat,
            mode,
            if stat.kind is Symlink {
                Some(file.link@)
            } else {
                None
            },
        );
    }
}

/// A file that is archived from what the file system says of it alone, as an opened
/// file or a directory is, is read back as a file of its kind with the given data.
pub proof fn law_opened_file_is_read_back(
    a: ArchiveView,
    e: EntriesView,
    between: Seq<u8>,
    name: Seq<u8>,
    stat: FileStat,
    mode: HeaderMode,
    data: Seq<u8>,
    tail: Seq<u8>,
)
    requires
        stat.kind is File || stat.kind is Directory,
        stat.uid < 0x8000_0000_0000_0000,
        stat.gid < 0x8000_0000_0000_0000,
        data.len() == (if stat.kind is File {
            stat.len
        } else {
            0
        }),
        is_fresh(e),
        is_unlimited(a),
        between.len() == distance(a.pos, e.scan.next),
        stat_generated(name, stat, mode) matches Ok(g) ==> a.pos + between.len() + entry_bytes(
            g,
            data,
        ).len() <= u64::MAX,
    ensures
        stat_generated(name, stat, mode) is Ok <==> name_refusal(name) is None,
        stat_generated(name, stat, mode) matches Ok(g) ==> (said(
            a,
            e,
            between + entry_bytes(g, data) + tail,
        ) matches (read, after, rest, Some(Ok(m))) && {
            &&& entry_path(m) == Ok::<Seq<u8>, ErrorView>(member_path(name))
            &&& is_kind_of_file(header_type(m.header), stat.kind)
            &&& entry_link(m) == Ok::<Option<Seq<u8>>, ErrorView>(None)
            &&& contents(m.data, rest) == data
            &&& tells_of_file(m, stat, mode)
            &&& is_fresh(after)
        }),
{
    if let Ok(g) = stat_generated(name, stat, mode) {
        let f = facts_of_stat(name, stat, mode, None);
        assert(can_read(a, e, between, g, data));
        crate::readback::lemma_fs_is_entry(name, stat, mode, None);
        law_entry_is_read_back(a, e, between, g, f, data, tail);
        let m = said(a, e, between + entry_bytes(g, data) + tail).3->0->Ok_0;
        lemma_told(m, name, stat, mode, None);
    }
}

/// A directory is archived file by file, up to the first that cannot be: what was
/// written before it stays, and nothing behind it is written.
pub proof fn law_walk_stops_at_failure(
    prefix: Option<Seq<char>>,
    vs: Seq<VisitedFile>,
    v: VisitedFile,
    more: Seq<VisitedFile>,
    mode: HeaderMode,
    follow: bool,
)
    requires
        visits_bytes(prefix, vs, mode, follow).1 is None,
    ensures
        visit_bytes(prefix, v, mode, follow) matches Ok(bytes) ==> visits_bytes(
            prefix,
            vs.push(v),
            mode,
            follow,
        ) == (visits_bytes(prefix, vs, mode, follow).0 + bytes, None::<ErrorView>),
        visit_bytes(prefix, v, mode, follow) matches Err(err) ==> visits_bytes(
            prefix,
            vs.push(v) + more,
            mode,
            follow,
        ) == (visits_bytes(prefix, vs, mode, follow).0, Some(err)),
        visits_bytes(prefix, Seq::empty(), mode, follow) == (Seq::<u8>::empty(), None::<ErrorView>),
    decreases more.len(),
{
    let upto = vs.push(v);
    assert(upto.drop_last() =~= vs);
    assert(upto.last() == v);
    if more.len() == 0 {
        assert(upto + more =~= upto);
    } else {
        assert((upto + more).drop_last() =~= upto + more.drop_last());
        law_walk_stops_at_failure(prefix, vs, v, more.drop_last(), mode, follow);
    }
}

/// Of the files that are neither files with contents, directories nor links, pipes and
/// devices can be archived and nothing else; the reason tells the path.
pub proof fn law_special_file_is_archived(path: Seq<char>, kind: FileKind)
    ensures
        kind is Fifo || kind is Char || kind is Block ==> special_refusal(path, kind) is None,
        kind is Socket ==> special_refusal(path, kind) == Some(
            path + ": socket can not be archived"@,
        ),
        !(kind is Fifo || kind is Char || kind is Block || kind is Socket) ==> special_refusal(
            path,
            kind,
        ) == Some(path + " has unknown file type"@),
{
}

} // verus!
