# newtua_core

The engine of an unarchiver: it tells archive formats apart, lists what archives
hold and reads the bodies of their entries. It never writes archives.

Everything in `src/` is verified with Verus. What a function returns or changes is
stated in its contract over mathematical models: an archive is a sequence of
bytes, a reader is a listing and the bodies that go with it, a pass over an
archive is the sequence of calls that a sink is given. Properties that span
functions stand as public proof functions beside them.

## Layout

- `src/archive.rs` – entries, sources, the traits of handlers, readers and sinks,
  and what a pass over an archive is.
- `src/delivery.rs` – handing prepared bodies to a sink.
- `src/detect.rs` – which handler opens a file, and what is found in a compressed
  one.
- `src/decompress.rs` – single-file compressors; lzip is framed here.
- `src/encoding.rs`, `src/text.rs`, `src/paths.rs`, `src/bytes.rs`,
  `src/datetime.rs`, `src/error.rs` – names, paths, numbers, dates and errors.
- `src/path_safety.rs` – which stored paths and links stay below the directory that
  is unpacked into.
- `src/extract.rs` – what is extracted where to, and the state of an extraction.
- `src/format/` – one module per archive format, with what some of them share;
  `hfstree.rs` tells whether the trees of an HFS+ volume can be gone through, and
  `legacy/` holds the formats whose unpackers are crates of their own.
- `app/` – files, clocks and unpackers around the library.
- `tests/` – the library from outside, with the unpackers linked.

## Where trust lies

Decoders of other crates are called through small functions marked
`#[verifier::external_body]`. Their contracts say what the outside code returns,
mostly by giving the result a name that the contracts above speak of. Inputs on
which such a decoder panics or does not come back are left out by `requires`, and
a public check tells them: `check_long_names`, `check_headers`, `check_zoo_list`,
`check_chunk_size`, `check_catalog`, `open_readable`. Tape archives that fail
`check_sparse_sizes`, volumes that fail `check_volume`, and archives of old formats
that fail `check_folders`, `check_records`, `check_stuffit`, `check_sit5` or
`check_stub` are refused with an error.

Archives of old formats whose packed bytes their decoders would not come back from
are told by `check_arc`, `check_lbr`, `check_crunch`, `check_squeeze`,
`check_compactpro`, `check_entry`, `check_dms`, `check_nsis` and `check_sitx`, and
refused with an error. Where packed or encrypted bytes cannot tell, the method is
refused. Whether there is memory enough for what an archive announces is not told.
