//! What is written for a directory with its files is read back.

use crate::archive::ArchiveView;
use crate::builder::{
    prefix_of, termination, visit_action, visit_bytes, visit_data, visit_generated, visit_name,
    visits_bytes, VisitAction, VisitedFile,
};
use crate::entries::EntriesView;
use crate::facts::EntryFacts;
use crate::generate::entry_bytes;
use crate::header::HeaderMode;
use crate::name::{name_refusal, name_text};
use crate::pax::pax_data;
use crate::readback::{facts_of_stat, lemma_fs_is_entry, lemma_special_is_entry, numbers_fit};
use crate::roundtrip::{
    are_allowed, are_within, finds_all, is_fresh, is_written, law_archive_is_read_back,
    law_written_bytes_add_up, written_bytes, Written,
};
use crate::scan::distance;
use crate::stat::data_len;
use vstd::prelude::*;
use vstd::utf8::{decode_utf8, encode_utf8};

verus! {

/// The path in the archive of a file that was come upon in a directory which is
/// archived under `path`.
pub open spec fn visit_path(path: Seq<u8>, relative: Seq<u8>) -> Seq<u8> {
    if relative.len() == 0 {
        path
    } else if path.len() > 0 {
        encode_utf8(name_text(path)).push(47) + relative
    } else {
        relative
    }
}

/// What the archive says of a file that was come upon in a directory.
pub open spec fn visit_facts(path: Seq<u8>, v: VisitedFile, mode: HeaderMode, follow: bool) -> EntryFacts {
    facts_of_stat(
        visit_path(path, v.relative@),
        v.file.stat,
        mode,
        if visit_action(v.is_dir, v.is_symlink, v.leads_to_dir, follow) is Link {
            Some(v.file.link@)
        } else {
            None
        },
    )
}

/// The member that is written for a file that was come upon in a directory: none
/// for the directory itself where it has no name in the archive.
pub open spec fn visit_written(path: Seq<u8>, v: VisitedFile, mode: HeaderMode, follow: bool) -> Seq<
    Written,
> {
    if path.len() == 0 && v.relative@.len() == 0 {
        Seq::empty()
    } else {
        let name = name_text(visit_path(path, v.relative@));
        seq![
            Written {
                entry: visit_generated(name, v, mode, follow)->Ok_0,
                facts: visit_facts(path, v, mode, follow),
                data: visit_data(v, follow),
            },
        ]
    }
}

/// The members that are written for files that were come upon in a directory.
pub open spec fn walk_written(
    path: Seq<u8>,
    vs: Seq<VisitedFile>,
    mode: HeaderMode,
    follow: bool,
) -> Seq<Written>
    decreases vs.len(),
{
    if vs.len() == 0 {
        Seq::empty()
    } else {
        walk_written(path, vs.drop_last(), mode, follow) + visit_written(
            path,
            vs.last(),
            mode,
            follow,
        )
    }
}

/// Whether what the file system says of a file goes with how it was come upon:
/// its kind, the length of its contents, and numbers that fit.
pub open spec fn is_sound_visit(path: Seq<u8>, v: VisitedFile, mode: HeaderMode, follow: bool) -> bool {
    &&& numbers_fit(visit_facts(path, v, mode, follow))
    &&& match visit_action(v.is_dir, v.is_symlink, v.leads_to_dir, follow) {
        VisitAction::Directory => v.file.stat.kind is Directory,
        VisitAction::Link => v.file.stat.kind is Symlink,
        VisitAction::File => if v.file.stat.kind is File {
            v.file.contents@.len() == v.file.stat.len
        } else {
            data_len(v.file.stat) == 0
        },
    }
}

/// What is written for one file is one member, or nothing.
pub proof fn lemma_visit_is_written(path: Seq<u8>, v: VisitedFile, mode: HeaderMode, follow: bool)
    requires
        path.len() > 0 ==> name_refusal(path) is None,
        visit_bytes(prefix_of(path), v, mode, follow) is Ok,
        is_sound_visit(path, v, mode, follow),
    ensures
        written_bytes(visit_written(path, v, mode, follow)) == visit_bytes(
            prefix_of(path),
            v,
            mode,
            follow,
        )->Ok_0,
        forall|i: int|
            0 <= i < visit_written(path, v, mode, follow).len() ==> is_written(
                #[trigger] visit_written(path, v, mode, follow)[i],
            ),
{
    reveal(visit_bytes);
    let ws = visit_written(path, v, mode, follow);
    let p = visit_path(path, v.relative@);
    if ws.len() > 0 {
        let name = name_text(p);
        assert(name_refusal(p) is None);
        assert(visit_name(prefix_of(path), v.relative@) == Ok::<
            Option<Seq<char>>,
            crate::error::ErrorView,
        >(Some(name)));
        let stat = v.file.stat;
        match visit_action(v.is_dir, v.is_symlink, v.leads_to_dir, follow) {
            VisitAction::Directory => {
                lemma_fs_is_entry(p, stat, mode, None);
            },
            VisitAction::Link => {
                vstd::utf8::decode_utf8_encode_utf8(v.file.link@);
                lemma_fs_is_entry(p, stat, mode, Some(decode_utf8(v.file.link@)));
            },
            VisitAction::File => {
                if stat.kind is File {
                    lemma_fs_is_entry(p, stat, mode, None);
                } else {
                    lemma_special_is_entry(p, stat, mode);
                }
            },
        }
        assert(is_written(ws[0]));
        assert(ws.skip(1) =~= Seq::<Written>::empty());
        assert(written_bytes(ws.skip(1)) =~= Seq::<u8>::empty());
        assert(written_bytes(ws) =~= entry_bytes(ws[0].entry, ws[0].data));
    }
}

/// What is written for a directory with its files are the members that the walk
/// came upon, in their order.
pub proof fn law_walk_is_written(path: Seq<u8>, vs: Seq<VisitedFile>, mode: HeaderMode, follow: bool)
    requires
        path.len() > 0 ==> name_refusal(path) is None,
        visits_bytes(prefix_of(path), vs, mode, follow).1 is None,
        forall|i: int|
            0 <= i < vs.len() ==> is_sound_visit(path, #[trigger] vs[i], mode, follow),
    ensures
        written_bytes(walk_written(path, vs, mode, follow)) == visits_bytes(
            prefix_of(path),
            vs,
            mode,
            follow,
        ).0,
        forall|i: int|
            0 <= i < walk_written(path, vs, mode, follow).len() ==> is_written(
                #[trigger] walk_written(path, vs, mode, follow)[i],
            ),
    decreases vs.len(),
{
    if vs.len() > 0 {
        let before = vs.drop_last();
        assert forall|i: int| 0 <= i < before.len() implies is_sound_visit(
            path,
            #[trigger] before[i],
            mode,
            follow,
        ) by {
            assert(before[i] == vs[i]);
        }
        assert(is_sound_visit(path, vs[vs.len() - 1], mode, follow));
        law_walk_is_written(path, before, mode, follow);
        lemma_visit_is_written(path, vs.last(), mode, follow);
        let ws = walk_written(path, before, mode, follow);
        let more = visit_written(path, vs.last(), mode, follow);
        law_written_bytes_add_up(ws, more);
        assert forall|i: int| 0 <= i < (ws + more).len() implies is_written(
            #[trigger] (ws + more)[i],
        ) by {
            if i >= ws.len() {
                assert(is_written(more[i - ws.len()]));
            }
        }
    }
}

/// A directory that was archived with its files is read back: every file that
/// the walk came upon, in its order, with what the file system said of it and
/// with its data, whatever is read of the data in between.
pub proof fn law_walk_is_read_back(
    a: ArchiveView,
    e: EntriesView,
    between: Seq<u8>,
    path: Seq<u8>,
    vs: Seq<VisitedFile>,
    mode: HeaderMode,
    follow: bool,
    ks: Seq<nat>,
)
    requires
        path.len() > 0 ==> name_refusal(path) is None,
        visits_bytes(prefix_of(path), vs, mode, follow).1 is None,
        forall|i: int|
            0 <= i < vs.len() ==> is_sound_visit(path, #[trigger] vs[i], mode, follow),
        are_within(ks, walk_written(path, vs, mode, follow)),
        is_fresh(e),
        between.len() == distance(a.pos, e.scan.next),
        are_allowed(a.options, a.usage, walk_written(path, vs, mode, follow)),
        a.options.pax_only ==> forall|i: int|
            0 <= i < walk_written(path, vs, mode, follow).len() ==> pax_data(
                (#[trigger] walk_written(path, vs, mode, follow)[i]).entry.extensions,
            ).len() < 0x2_0000_0000,
        a.pos + between.len() + visits_bytes(prefix_of(path), vs, mode, follow).0.len()
            <= u64::MAX,
    ensures
        finds_all(
            a,
            e,
            between + visits_bytes(prefix_of(path), vs, mode, follow).0 + termination(),
            walk_written(path, vs, mode, follow),
            ks,
        ),
{
    law_walk_is_written(path, vs, mode, follow);
    let ws = walk_written(path, vs, mode, follow);
    let none = Seq::<u8>::empty();
    law_archive_is_read_back(a, e, between, ws, none, ks);
    assert(between + written_bytes(ws) + termination() + none =~= between + written_bytes(ws)
        + termination());
}

} // verus!
