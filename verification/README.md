# tokio_tar

A TAR archive reader and writer whose format logic is verified with Verus.

- `src/` is the library. It holds the header blocks, the pax records, the state
  machine that turns the bytes of an archive into its members, the writer that
  turns members into bytes, and the rules for names and for unpacking. It
  performs no input or output: `Entries::step` asks for bytes and is handed what
  was read; `GeneratedEntry::head` and `padding_of` give the bytes to write
  around a member's data. `Archive<Vec<u8>>` and `Builder<Vec<u8>>` do the same
  in memory.
- `app/` drives the library over tokio's `AsyncRead` and `AsyncWrite` and over
  the file system.
- `tests/` run the library.

What is trusted without proof stands in `src/counter.rs` (the atomic counters of
`portable_atomic`) and `src/text.rs` (two functions of the standard library on
UTF-8 text). Paths are the bytes of Unix paths; `src/windows.rs` has what is
particular to names and link targets that are given as paths of Windows.

The laws of the library are public proof functions whose names start with
`law_`. The main ones:

- `stream::law_chunks_do_not_matter`: a stream says the same however the bytes
  of the archive are cut into chunks.
- `roundtrip::law_archive_is_read_back`: what was written is read back, member by
  member, however much of each member's data is read before the next member.
- `readback::law_files_are_read_back`: files that were appended with their data
  are read back in order, each with its name, its numbers and its data.
- `roundtrip::law_concatenated_archives_are_read_back`: archives that were put
  behind each other are read as one, where blocks of zeros are passed over.
- `queue::law_members_are_unpacked_once`: every member is unpacked once, and no
  directory before a member that is none.
- `visit::law_walk_visits_all_once`: a walk visits every file of a directory once,
  a directory before what is in it.
- `stream::law_reading_keeps_limits`: reading stays within the limits that were
  set.
- `sparse::law_finished_sparse_is_covered`: the map of a sparse file covers it.
- `unpack::law_members_stay_inside`: members are unpacked below the destination.
