//! A reader over entries whose bodies are at hand.
use vstd::prelude::*;

use crate::archive;
use crate::archive::{read_entries_one_by_one, BatchReader, EntrySink};
use crate::archive::{ArchiveReader, Entry, EntryView, FormatId};
use crate::bytes::{copy_bytes, copy_range};
use crate::error::{Error, ErrorView};

verus! {

/// Where the body of an entry is.
#[derive(Debug)]
pub enum Body {
    /// In the archive's own bytes.
    At { start: usize, len: usize },
    /// Beside them.
    Held(Vec<u8>),
    /// Nowhere: reading it fails.
    Fails(Error),
}

/// The place lies in an archive of `len` bytes.
pub open spec fn fits(body: Body, len: int) -> bool {
    body matches Body::At { start, len: n } ==> start + n <= len
}

/// What reading a body gives.
pub open spec fn body_in(data: Seq<u8>, body: Body) -> Result<Seq<u8>, ErrorView> {
    match body {
        Body::At { start, len } => Ok(data.subrange(start as int, start + len)),
        Body::Held(v) => Ok(v@),
        Body::Fails(e) => Err(e@),
    }
}

/// What reading each body gives.
pub open spec fn bodies_in(data: Seq<u8>, bodies: Seq<Body>) -> Seq<Result<Seq<u8>, ErrorView>> {
    bodies.map_values(|b: Body| body_in(data, b))
}

/// An opened archive whose bodies are at hand.
#[derive(Debug)]
pub struct StoredReader {
    format: FormatId,
    data: Vec<u8>,
    entries: Vec<Entry>,
    bodies: Vec<Body>,
}

impl StoredReader {
    #[verifier::type_invariant]
    spec fn wf(self) -> bool {
        &&& self.entries.len() == self.bodies.len()
        &&& forall|i: int| 0 <= i < self.bodies.len() ==> fits(#[trigger] self.bodies@[i], self.data.len() as int)
    }

    /// A reader of these entries and bodies.
    pub fn new(format: FormatId, data: Vec<u8>, entries: Vec<Entry>, bodies: Vec<Body>) -> (r: StoredReader)
        requires
            entries.len() == bodies.len(),
            forall|i: int| 0 <= i < bodies.len() ==> fits(#[trigger] bodies@[i], data.len() as int),
        ensures
            archive::presents(&r, format, archive::views(entries@), bodies_in(data@, bodies@)),
    {
        StoredReader { format, data, entries, bodies }
    }
}

impl ArchiveReader for StoredReader {
    closed spec fn spec_format(&self) -> FormatId {
        self.format
    }

    closed spec fn listing(&self) -> Seq<EntryView> {
        archive::views(self.entries@)
    }

    closed spec fn body(&self, idx: int) -> Result<Seq<u8>, ErrorView> {
        archive::body_at(bodies_in(self.data@, self.bodies@), idx)
    }

    fn format(&self) -> (r: FormatId) {
        self.format
    }

    fn entries(&self) -> (r: &Vec<Entry>) {
        &self.entries
    }

    fn read_entry(&self, idx: usize) -> (r: Result<Vec<u8>, Error>) {
        proof {
            use_type_invariant(self);
        }
        if idx >= self.bodies.len() {
            return Err(Error::InvalidIndex(idx));
        }
        match &self.bodies[idx] {
            Body::At { start, len } => Ok(copy_range(self.data.as_slice(), *start, *start + *len)),
            Body::Held(v) => Ok(copy_bytes(v.as_slice())),
            Body::Fails(e) => Err(e.copy()),
        }
    }

    fn verify_password(&self) -> (r: Result<(), Error>) {
        Ok(())
    }
}

impl BatchReader for StoredReader {
    fn read_entries<S: EntrySink>(&self, indices: &[usize], sink: &mut S) -> (r: Result<(), Error>) {
        read_entries_one_by_one(self, indices, sink)
    }
}

} // verus!
