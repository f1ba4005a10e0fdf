//! Turns a sorted run into the bytes of one file.
//!
//! The writer does not send anything. It hands back the object id and the
//! bytes to put; both depend on the run, the generation and the block size
//! alone, so putting the same generation again overwrites the object with the
//! same bytes.

use vstd::prelude::*;
use crate::codec::copy_bytes;
use crate::entry::{is_sorted_run, views, Entry, EntryView};
use crate::sst::file::naming::{object_key, spec_object_key};
use crate::sst::file::format::{
    block_base, checksum_of, encode_index, encode_run, encode_trailer, index_entry_at, index_of,
    lemma_encode_index_push, lemma_encode_run_step, payload, put_bytes, put_index_entry, put_le64,
    put_record, sst_bytes, starts_block, MAGIC,
};

verus! {

/// What the store needs to know of a published file to route reads to it.
#[derive(Clone, Debug, PartialEq, Eq)]
pub struct SSTHandle {
    /// The id of the object that holds the file.
    pub object_id: String,
    /// The smallest key in the file.
    pub first_key: Vec<u8>,
    /// The largest key in the file.
    pub last_key: Vec<u8>,
    /// The generation the file was flushed as.
    pub generation: u64,
}

/// A handle as plain data.
pub struct HandleView {
    pub object_id: Seq<char>,
    pub first_key: Seq<u8>,
    pub last_key: Seq<u8>,
    pub generation: u64,
}

impl View for SSTHandle {
    type V = HandleView;

    open spec fn view(&self) -> HandleView {
        HandleView {
            object_id: self.object_id@,
            first_key: self.first_key@,
            last_key: self.last_key@,
            generation: self.generation,
        }
    }
}

impl SSTHandle {
    /// A copy of this handle.
    pub fn duplicate(&self) -> (copy: SSTHandle)
        ensures
            copy@ == self@,
    {
        SSTHandle {
            object_id: self.object_id.clone(),
            first_key: copy_bytes(self.first_key.as_slice()),
            last_key: copy_bytes(self.last_key.as_slice()),
            generation: self.generation,
        }
    }
}

/// The handle of the file that holds a run as a generation.
pub open spec fn handle_of(run: Seq<EntryView>, generation: u64) -> HandleView {
    HandleView {
        object_id: spec_object_key(generation),
        first_key: run.first().key,
        last_key: run.last().key,
        generation,
    }
}

/// A file ready to be put: its handle, which names the object, and its bytes.
#[derive(Clone, Debug, PartialEq, Eq)]
pub struct SstFile {
    pub handle: SSTHandle,
    pub bytes: Vec<u8>,
}

/// Why the object store did not do what it was asked.
#[derive(Clone, Debug, PartialEq, Eq)]
pub struct StoreError {
    pub reason: String,
}

/// Why a run was not published.
#[derive(Clone, Copy, Debug, PartialEq, Eq)]
pub enum WriteError {
    /// The object store failed to take the file. Writing the same run as the
    /// same generation again is safe.
    ObjectStoreUnavailable,
    /// The run has no entries. No file is made of nothing.
    Empty,
}

/// Serializes sorted runs into files of one block size.
pub struct Writer {
    block_size: usize,
}

impl Writer {
    /// The size at which a block is closed.
    pub closed spec fn spec_block_size(&self) -> nat {
        self.block_size as nat
    }

    /// A writer that closes a block once it holds `block_size` bytes.
    pub fn new(block_size: usize) -> (writer: Writer)
        ensures
            writer.spec_block_size() == block_size,
    {
        Writer { block_size }
    }

    /// The size at which a block is closed.
    pub fn block_size(&self) -> (size: usize)
        ensures
            size == self.spec_block_size(),
    {
        self.block_size
    }

    /// Lays a sorted run out as the file of a generation. Fails with `Empty`
    /// exactly when the run has no entries.
    pub fn build(&self, entries: &Vec<Entry>, generation: u64) -> (r: Result<SstFile, WriteError>)
        requires
            is_sorted_run(views(entries@)),
        ensures
            match r {
                Ok(file) => {
                    &&& entries@.len() > 0
                    &&& file.bytes@ == sst_bytes(
                        views(entries@),
                        generation,
                        self.spec_block_size(),
                    )
                    &&& file.handle@ == handle_of(views(entries@), generation)
                },
                Err(e) => e == WriteError::Empty && entries@.len() == 0,
            },
    {
        if entries.len() == 0 {
            return Err(WriteError::Empty);
        }
        let ghost run = views(entries@);
        let ghost size = self.spec_block_size();
        let mut out: Vec<u8> = Vec::new();
        let mut index: Vec<u8> = Vec::new();
        let mut blocks: u64 = 0;
        let mut base: usize = 0;
        let mut i: usize = 0;
        assert(run.take(0) =~= Seq::<EntryView>::empty());
        while i < entries.len()
            invariant
                i <= entries.len(),
                run == views(entries@),
                size == self.spec_block_size(),
                out@ == encode_run(run.take(i as int)),
                index@ == encode_index(index_of(run, size, i as int)),
                blocks as nat == index_of(run, size, i as int).len(),
                blocks <= i,
                base as nat == block_base(run, size, i as int),
                base <= out@.len(),
            decreases entries.len() - i,
        {
            proof {
                lemma_encode_run_step(run, i as int);
            }
            if base == out.len() {
                proof {
                    assert(starts_block(run, size, i as int));
                    lemma_encode_index_push(
                        index_of(run, size, i as int),
                        index_entry_at(run, i as int),
                    );
                }
                put_index_entry(&mut index, entries[i].key.as_slice(), out.len() as u64);
                blocks = blocks + 1;
            }
            put_record(&mut out, &entries[i]);
            if out.len() - base >= self.block_size {
                base = out.len();
            }
            i = i + 1;
        }
        assert(run.take(entries.len() as int) =~= run);
        let data_len = out.len();
        put_bytes(&mut out, index.as_slice());
        put_le64(&mut out, data_len as u64);
        put_le64(&mut out, blocks);
        assert(out@ =~= payload(run, size));
        let sum = checksum_of(out.as_slice());
        put_le64(&mut out, MAGIC);
        put_le64(&mut out, generation);
        put_le64(&mut out, entries.len() as u64);
        put_le64(&mut out, sum);
        assert(out@ =~= sst_bytes(run, generation, size));
        let handle = SSTHandle {
            object_id: object_key(generation),
            first_key: copy_bytes(entries[0].key.as_slice()),
            last_key: copy_bytes(entries[entries.len() - 1].key.as_slice()),
            generation,
        };
        Ok(SstFile { handle, bytes: out })
    }

    /// What a write comes to once the object store has answered the put: the
    /// handle of the file where the put went through, and
    /// `ObjectStoreUnavailable` where it did not.
    pub fn published(file: SstFile, put: Result<(), StoreError>) -> (r: Result<
        SSTHandle,
        WriteError,
    >)
        ensures
            match r {
                Ok(handle) => put is Ok && handle == file.handle,
                Err(e) => put is Err && e == WriteError::ObjectStoreUnavailable,
            },
    {
        match put {
            Ok(_) => Ok(file.handle),
            Err(_) => Err(WriteError::ObjectStoreUnavailable),
        }
    }
}

} // verus!
