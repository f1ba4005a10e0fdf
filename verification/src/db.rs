//! The store: a state machine over the active memtable, the run being
//! flushed, and the handles of the files published so far.
//!
//! The store does no input or output. A read that has to look into a file
//! answers with the object to fetch, and goes on when it is handed the bytes;
//! a flush answers with the file to put, and is finished when it is told how
//! the put went. Whoever drives the store performs those actions.
//!
//! ```text
//! Active --begin_flush--> Flushing --finish_flush(put went through)--> Active
//!                         Flushing --finish_flush(put failed)--------> Flushing
//! ```

use vstd::prelude::*;
use crate::codec::{copy_bytes, key_le, key_lt, key_order, lemma_key_le_iff_not_gt, KeyOrder};
use crate::entry::{
    find_slot, holds_at, is_sorted_run, is_table, lemma_run_find_at, lemma_slot_decides,
    lemma_sorted_run_of, lemma_sorted_run_unique, map_size, run_contains, run_find, run_map,
    sorted_run_of, value_view, views, Entry, EntryView,
};
use crate::memtable::{capped, lemma_empty_run, MemTable};
use crate::sst::file::format::sst_bytes;
use crate::sst::file::reader::{lookup_with, parse_meta, Lookup, LookupView, SstIndex};
use crate::sst::file::round_trip::lemma_lookup_round_trip;
use crate::sst::file::naming::{lemma_object_key_injective, object_key, spec_object_key};
use crate::sst::file::writer::{
    handle_of, HandleView, SSTHandle, SstFile, StoreError, WriteError, Writer,
};
use crate::subspace::Subspace;

verus! {

/// The footprint at which a store made by `DB::new` asks for a flush.
pub const DEFAULT_FLUSH_THRESHOLD: usize = 4194304;

/// The block size of the files of a store made by `DB::new`.
pub const DEFAULT_BLOCK_SIZE: usize = 4096;

/// Why the store could not answer.
#[derive(Clone, Copy, Debug, PartialEq, Eq)]
pub enum EngineError {
    /// A file that had to be consulted could not be read. The store does not
    /// go on to older files, which could hold stale data.
    Unavailable,
    /// The store was used against its own rules, or a counter has run out.
    Internal,
}

/// Whether a flush is under way.
#[derive(Clone, Copy, Debug, PartialEq, Eq)]
pub enum Phase {
    /// Writes go to the memtable; no flush is under way.
    Active,
    /// A run is being published; writes go to the next memtable.
    Flushing,
}

/// What a read has come to.
#[derive(Debug, PartialEq, Eq)]
pub enum ReadStep {
    /// The read is over: the value, `None` where the key has none, or the
    /// reason why the store cannot tell.
    Done(Result<Option<Vec<u8>>, EngineError>),
    /// The file of this generation has to be consulted: fetch the object and
    /// hand it to `resume_get`.
    Fetch { object_id: String, generation: u64 },
}

/// A read step as plain data.
pub enum ReadStepView {
    Done(Result<Option<Seq<u8>>, EngineError>),
    Fetch { object_id: Seq<char>, generation: u64 },
}

impl View for ReadStep {
    type V = ReadStepView;

    open spec fn view(&self) -> ReadStepView {
        match self {
            ReadStep::Done(Ok(value)) => ReadStepView::Done(Ok(value_view(*value))),
            ReadStep::Done(Err(e)) => ReadStepView::Done(Err(*e)),
            ReadStep::Fetch { object_id, generation } => ReadStepView::Fetch {
                object_id: object_id@,
                generation: *generation,
            },
        }
    }
}

/// The key lies between the first and the last key of the file.
pub open spec fn in_range(handle: HandleView, key: Seq<u8>) -> bool {
    key_le(handle.first_key, key) && key_le(key, handle.last_key)
}

/// The newest file, among the first `below`, whose key range holds the key.
pub open spec fn route(published: Seq<HandleView>, key: Seq<u8>, below: int) -> Option<int>
    decreases below,
{
    if below <= 0 || below > published.len() {
        None
    } else if in_range(published[below - 1], key) {
        Some(below - 1)
    } else {
        route(published, key, below - 1)
    }
}

/// The position, among the first `below` files, of the file of a generation.
pub open spec fn position_of(published: Seq<HandleView>, generation: u64, below: int) -> Option<
    int,
>
    decreases below,
{
    if below <= 0 || below > published.len() {
        None
    } else if published[below - 1].generation == generation {
        Some(below - 1)
    } else {
        position_of(published, generation, below - 1)
    }
}

/// How a read goes on among the first `below` files: to the newest whose key
/// range holds the key, or to its end where there is none.
pub open spec fn next_step(published: Seq<HandleView>, key: Seq<u8>, below: int) -> ReadStepView {
    match route(published, key, below) {
        Some(i) => ReadStepView::Fetch {
            object_id: published[i].object_id,
            generation: published[i].generation,
        },
        None => ReadStepView::Done(Ok(None)),
    }
}

/// The store as plain data.
pub struct DBView {
    /// The memtable that takes writes: the newest entry of each key.
    pub active: Map<Seq<u8>, EntryView>,
    /// The run being flushed, while a flush is under way.
    pub draining: Option<Seq<EntryView>>,
    /// The files published, oldest first.
    pub published: Seq<HandleView>,
    /// The sequence number of the next write.
    pub next_seq: u64,
    /// The generation of the flush under way, or of the next one.
    pub generation: u64,
    /// The footprint at which the store asks for a flush.
    pub flush_threshold: nat,
    /// The block size of the files.
    pub block_size: nat,
}

impl DBView {
    /// Whether a flush is under way.
    pub open spec fn phase(self) -> Phase {
        if self.draining is Some {
            Phase::Flushing
        } else {
            Phase::Active
        }
    }

    /// Sequence numbers tell the order of the writes in memory: every entry
    /// has a number below that of the next write, and the entries of the
    /// memtable were written after those of the run being flushed.
    pub open spec fn writes_in_order(self) -> bool {
        &&& forall|k: Seq<u8>|
            #![trigger self.active.dom().contains(k)]
            self.active.dom().contains(k) ==> self.active[k].seq < self.next_seq
        &&& self.draining matches Some(run) ==> {
            &&& forall|i: int| #![trigger run[i]] 0 <= i < run.len() ==> run[i].seq < self.next_seq
            &&& forall|i: int, k: Seq<u8>|
                #![trigger run[i], self.active.dom().contains(k)]
                0 <= i < run.len() && self.active.dom().contains(k) ==> run[i].seq
                    < self.active[k].seq
        }
    }

    /// What holds of every store: sequence numbers tell the order of the
    /// writes, the memtable is held by a sorted run, a
    /// run being flushed is a sorted run with entries, the files published
    /// have ascending generations below the current one, and each is named
    /// after its generation.
    pub open spec fn inv(self) -> bool {
        &&& is_table(self.active)
        &&& self.writes_in_order()
        &&& self.draining matches Some(run) ==> is_sorted_run(run) && run.len() > 0
            && self.generation < u64::MAX
        &&& forall|i: int, j: int|
            #![trigger self.published[i], self.published[j]]
            0 <= i < j < self.published.len() ==> self.published[i].generation
                < self.published[j].generation
        &&& forall|i: int|
            #![trigger self.published[i]]
            0 <= i < self.published.len() ==> self.published[i].generation < self.generation
                && self.published[i].object_id == spec_object_key(self.published[i].generation)
    }

    /// The entry that memory has for a key: that of the active memtable, or
    /// else that of the run being flushed.
    pub open spec fn memory_lookup(self, key: Seq<u8>) -> Option<EntryView> {
        if self.active.dom().contains(key) {
            Some(self.active[key])
        } else {
            match self.draining {
                Some(run) => run_find(run, key),
                None => None,
            }
        }
    }

    /// The first step of a read: memory decides where it has an entry for
    /// the key, a tombstone too; else the files are consulted, newest first.
    pub open spec fn read_start(self, key: Seq<u8>) -> ReadStepView {
        match self.memory_lookup(key) {
            Some(entry) => ReadStepView::Done(Ok(entry.value)),
            None => next_step(self.published, key, self.published.len() as int),
        }
    }

    /// The step of a read after the file of `generation` was fetched;
    /// `fetched` is `None` where the object store failed. A record for the
    /// key decides, a tombstone too. A file that says nothing of the key
    /// sends the read on to older files. A file that cannot be read, or is
    /// of another generation, ends the read with `Unavailable`; a generation
    /// the store has not published, with `Internal`.
    pub open spec fn read_resume(
        self,
        key: Seq<u8>,
        generation: u64,
        fetched: Option<Seq<u8>>,
    ) -> ReadStepView {
        match position_of(self.published, generation, self.published.len() as int) {
            None => ReadStepView::Done(Err(EngineError::Internal)),
            Some(i) => match fetched {
                None => ReadStepView::Done(Err(EngineError::Unavailable)),
                Some(bytes) => match parse_meta(bytes) {
                    Err(_) => ReadStepView::Done(Err(EngineError::Unavailable)),
                    Ok(meta) => if meta.generation != generation {
                        ReadStepView::Done(Err(EngineError::Unavailable))
                    } else {
                        match lookup_with(meta, bytes, key) {
                            Err(_) => ReadStepView::Done(Err(EngineError::Unavailable)),
                            Ok(LookupView::Present(value)) => ReadStepView::Done(Ok(Some(value))),
                            Ok(LookupView::Deleted) => ReadStepView::Done(Ok(None)),
                            Ok(LookupView::Absent) => next_step(self.published, key, i),
                        }
                    },
                },
            },
        }
    }

    /// The store after a write of `value` to `key`, a delete where `value`
    /// is `None`: the active memtable has the entry, with the next sequence
    /// number, and the counter has moved on.
    pub open spec fn after_put(self, key: Seq<u8>, value: Option<Seq<u8>>) -> DBView {
        DBView {
            active: self.active.insert(key, EntryView { key, value, seq: self.next_seq }),
            next_seq: (self.next_seq + 1) as u64,
            ..self
        }
    }

    /// The store asks for a flush: none is under way, and the memtable has
    /// entries and has reached the threshold.
    pub open spec fn should_flush(self) -> bool {
        &&& self.draining is None
        &&& self.active != Map::<Seq<u8>, EntryView>::empty()
        &&& capped(map_size(self.active)) >= self.flush_threshold
    }

    /// A flush can start: none is under way, the memtable has entries, and
    /// the generation counter has not run out.
    pub open spec fn can_begin_flush(self) -> bool {
        &&& self.draining is None
        &&& self.active != Map::<Seq<u8>, EntryView>::empty()
        &&& self.generation < u64::MAX
    }

    /// The store after a flush has started: the entries of the memtable are
    /// the run being flushed, and a new, empty memtable takes the writes.
    pub open spec fn after_begin_flush(self) -> DBView {
        if self.can_begin_flush() {
            DBView {
                active: Map::empty(),
                draining: Some(sorted_run_of(self.active)),
                ..self
            }
        } else {
            self
        }
    }

    /// The store after the put of a flush was answered: where it went
    /// through, the file is published and the next generation starts; where
    /// it failed, the run stays to be put again.
    pub open spec fn after_finish_flush(self, put_ok: bool) -> DBView {
        match self.draining {
            Some(run) if put_ok => DBView {
                draining: None,
                published: self.published.push(handle_of(run, self.generation)),
                generation: (self.generation + 1) as u64,
                ..self
            },
            _ => self,
        }
    }
}

/// What the object store answered to a fetch, as plain data: the bytes, or
/// `None` where it failed.
pub open spec fn fetched_view(fetched: Result<Vec<u8>, StoreError>) -> Option<Seq<u8>> {
    match fetched {
        Ok(bytes) => Some(bytes@),
        Err(_) => None,
    }
}

/// Reading and writing by key. The store itself offers it, and so does each
/// subspace, which stores a caller's key under a key of its own.
pub trait DBOps {
    /// The store that is read and written.
    spec fn store(&self) -> DBView;

    /// The key under which the store holds what a caller writes to `key`.
    spec fn stored_key(&self, key: Seq<u8>) -> Seq<u8>;

    /// The store is well formed.
    spec fn ready(&self) -> bool;

    /// Starts a read of `key`: memory answers at once, a file has to be
    /// fetched first.
    fn get(&self, key: &[u8]) -> (step: ReadStep)
        requires
            self.ready(),
        ensures
            step@ == self.store().read_start(self.stored_key(key@)),
    ;

    /// Goes on with a read of `key` after the file of `generation` was
    /// fetched; `fetched` is what the object store answered.
    fn resume_get(
        &self,
        key: &[u8],
        generation: u64,
        fetched: Result<Vec<u8>, StoreError>,
    ) -> (step: ReadStep)
        requires
            self.ready(),
        ensures
            step@ == self.store().read_resume(
                self.stored_key(key@),
                generation,
                fetched_view(fetched),
            ),
    ;

    /// Writes `value` to `key`. The write is in memory when this returns; it
    /// reaches the object store with the next flush. Fails with `Internal`
    /// exactly when the sequence numbers have run out, and then changes
    /// nothing.
    fn write(&mut self, key: &[u8], value: &[u8]) -> (r: Result<(), EngineError>)
        requires
            old(self).ready(),
        ensures
            final(self).ready(),
            forall|k: Seq<u8>| final(self).stored_key(k) == old(self).stored_key(k),
            match r {
                Ok(_) => old(self).store().next_seq < u64::MAX && final(self).store() == old(
                    self,
                ).store().after_put(old(self).stored_key(key@), Some(value@)),
                Err(e) => e == EngineError::Internal && old(self).store().next_seq == u64::MAX
                    && final(self).store() == old(self).store(),
            },
    ;
}

/// The run being flushed as plain data.
pub open spec fn draining_view(draining: Option<Vec<Entry>>) -> Option<Seq<EntryView>> {
    match draining {
        Some(run) => Some(views(run@)),
        None => None,
    }
}

/// The handles of a vector as plain data.
pub open spec fn handle_views(handles: Seq<SSTHandle>) -> Seq<HandleView> {
    handles.map_values(|h: SSTHandle| h@)
}

/// The store.
pub struct DB {
    active: MemTable,
    draining: Option<Vec<Entry>>,
    published: Vec<SSTHandle>,
    next_seq: u64,
    generation: u64,
    flush_threshold: usize,
    writer: Writer,
}

impl View for DB {
    type V = DBView;

    closed spec fn view(&self) -> DBView {
        DBView {
            active: self.active@,
            draining: draining_view(self.draining),
            published: handle_views(self.published@),
            next_seq: self.next_seq,
            generation: self.generation,
            flush_threshold: self.flush_threshold as nat,
            block_size: self.writer.spec_block_size(),
        }
    }
}

fn key_in_range(handle: &SSTHandle, key: &[u8]) -> (r: bool)
    ensures
        r <==> in_range(handle@, key@),
{
    proof {
        lemma_key_le_iff_not_gt(handle@.first_key, key@);
        lemma_key_le_iff_not_gt(key@, handle@.last_key);
    }
    let after_first = match key_order(handle.first_key.as_slice(), key) {
        KeyOrder::Greater => false,
        _ => true,
    };
    let before_last = match key_order(key, handle.last_key.as_slice()) {
        KeyOrder::Greater => false,
        _ => true,
    };
    after_first && before_last
}

fn step_among(published: &Vec<SSTHandle>, key: &[u8], below: usize) -> (step: ReadStep)
    requires
        below <= published@.len(),
    ensures
        step@ == next_step(handle_views(published@), key@, below as int),
{
    let ghost handles = handle_views(published@);
    let mut i = below;
    while i > 0
        invariant
            i <= below <= published@.len(),
            handles == handle_views(published@),
            route(handles, key@, i as int) == route(handles, key@, below as int),
        decreases i,
    {
        if key_in_range(&published[i - 1], key) {
            return ReadStep::Fetch {
                object_id: published[i - 1].object_id.clone(),
                generation: published[i - 1].generation,
            };
        }
        i = i - 1;
    }
    ReadStep::Done(Ok(None))
}

fn find_generation(published: &Vec<SSTHandle>, generation: u64) -> (r: Option<usize>)
    ensures
        match r {
            Some(i) => position_of(
                handle_views(published@),
                generation,
                published@.len() as int,
            ) == Some(i as int) && i < published@.len(),
            None => position_of(handle_views(published@), generation, published@.len() as int)
                is None,
        },
{
    let ghost handles = handle_views(published@);
    let mut i = published.len();
    while i > 0
        invariant
            i <= published@.len(),
            handles == handle_views(published@),
            position_of(handles, generation, i as int) == position_of(
                handles,
                generation,
                published@.len() as int,
            ),
        decreases i,
    {
        if published[i - 1].generation == generation {
            return Some(i - 1);
        }
        i = i - 1;
    }
    None
}

impl DB {
    /// The parts of the store fit together, and its view holds `inv`.
    pub closed spec fn wf(&self) -> bool {
        &&& self.active.wf()
        &&& self@.inv()
    }

    /// A store that is well formed holds the invariant of its view.
    pub proof fn lemma_inv(&self)
        requires
            self.wf(),
        ensures
            self@.inv(),
    {
    }

    /// An empty store with the default flush threshold and block size.
    pub fn new() -> (db: DB)
        ensures
            db.wf(),
            db@ == (DBView {
                active: Map::empty(),
                draining: None,
                published: Seq::empty(),
                next_seq: 0,
                generation: 0,
                flush_threshold: DEFAULT_FLUSH_THRESHOLD as nat,
                block_size: DEFAULT_BLOCK_SIZE as nat,
            }),
    {
        DB::with_limits(DEFAULT_FLUSH_THRESHOLD, DEFAULT_BLOCK_SIZE)
    }

    /// An empty store that asks for a flush once its memtable holds
    /// `flush_threshold` bytes, and writes files with blocks of `block_size`
    /// bytes.
    pub fn with_limits(flush_threshold: usize, block_size: usize) -> (db: DB)
        ensures
            db.wf(),
            db@ == (DBView {
                active: Map::empty(),
                draining: None,
                published: Seq::empty(),
                next_seq: 0,
                generation: 0,
                flush_threshold: flush_threshold as nat,
                block_size: block_size as nat,
            }),
    {
        let db = DB {
            active: MemTable::new(),
            draining: None,
            published: Vec::new(),
            next_seq: 0,
            generation: 0,
            flush_threshold,
            writer: Writer::new(block_size),
        };
        proof {
            db.active.lemma_is_table();
            assert(db@.published =~= Seq::<HandleView>::empty());
        }
        db
    }

    /// The subspace of this store under `prefix`. It borrows the store for
    /// as long as it lives; what is written through it is in the store when
    /// the borrow ends.
    pub fn subspace(&mut self, prefix: &[u8]) -> (sub: Subspace<'_>)
        ensures
            sub.prefix@ == prefix@,
            *sub.db == *old(self),
            *final(self) == *final(sub.db),
    {
        Subspace::new(self, prefix)
    }

    /// Whether a flush is under way.
    pub fn phase(&self) -> (phase: Phase)
        ensures
            phase == self@.phase(),
    {
        if self.draining.is_some() {
            Phase::Flushing
        } else {
            Phase::Active
        }
    }

    fn put(&mut self, key: &[u8], value: Option<&[u8]>) -> (r: Result<(), EngineError>)
        requires
            old(self).wf(),
        ensures
            final(self).wf(),
            match r {
                Ok(_) => old(self)@.next_seq < u64::MAX && final(self)@ == old(self)@.after_put(
                    key@,
                    match value {
                        Some(bytes) => Some(bytes@),
                        None => None,
                    },
                ),
                Err(e) => e == EngineError::Internal && old(self)@.next_seq == u64::MAX
                    && final(self)@ == old(self)@,
            },
    {
        if self.next_seq == u64::MAX {
            return Err(EngineError::Internal);
        }
        match value {
            Some(bytes) => self.active.insert(key, bytes, self.next_seq),
            None => self.active.insert_tombstone(key, self.next_seq),
        }
        self.next_seq = self.next_seq + 1;
        proof {
            self.active.lemma_is_table();
        }
        Ok(())
    }

    /// Deletes `key` by writing a tombstone for it. Fails with `Internal`
    /// exactly when the sequence numbers have run out, and then changes
    /// nothing.
    pub fn delete(&mut self, key: &[u8]) -> (r: Result<(), EngineError>)
        requires
            old(self).wf(),
        ensures
            final(self).wf(),
            match r {
                Ok(_) => old(self)@.next_seq < u64::MAX && final(self)@ == old(self)@.after_put(
                    key@,
                    None,
                ),
                Err(e) => e == EngineError::Internal && old(self)@.next_seq == u64::MAX
                    && final(self)@ == old(self)@,
            },
    {
        self.put(key, None)
    }

    /// Tells whether the store asks for a flush.
    pub fn should_flush(&self) -> (r: bool)
        requires
            self.wf(),
        ensures
            r == self@.should_flush(),
    {
        self.draining.is_none() && !self.active.is_empty() && self.active.footprint()
            >= self.flush_threshold
    }

    /// Starts a flush, or hands out the file of the flush under way again.
    ///
    /// Where a flush can start, the memtable is drained into the run being
    /// flushed and the file of that run is returned, to be put. Where a flush
    /// is under way already, the same file is returned, byte for byte, so
    /// that a put that failed can be made again. Where the memtable is empty
    /// there is nothing to do, and `None` is returned. Fails with `Internal`
    /// exactly when a flush should start and the generations have run out.
    pub fn begin_flush(&mut self) -> (r: Result<Option<SstFile>, EngineError>)
        requires
            old(self).wf(),
        ensures
            final(self).wf(),
            final(self)@ == old(self)@.after_begin_flush(),
            match r {
                Ok(Some(file)) => {
                    &&& final(self)@.draining matches Some(run)
                    &&& file.bytes@ == sst_bytes(
                        run,
                        final(self)@.generation,
                        final(self)@.block_size,
                    )
                    &&& file.handle@ == handle_of(run, final(self)@.generation)
                },
                Ok(None) => old(self)@.draining is None && old(self)@.active == Map::<
                    Seq<u8>,
                    EntryView,
                >::empty(),
                Err(e) => e == EngineError::Internal && old(self)@.draining is None
                    && old(self)@.active != Map::<Seq<u8>, EntryView>::empty()
                    && old(self)@.generation == u64::MAX,
            },
    {
        if self.draining.is_none() {
            if self.active.is_empty() {
                return Ok(None);
            }
            if self.generation == u64::MAX {
                return Err(EngineError::Internal);
            }
            let run = self.active.drain_sorted();
            proof {
                self.active.lemma_is_table();
                let drained = views(run@);
                assert forall|i: int| 0 <= i < drained.len() implies (#[trigger] drained[i]).seq
                    < self.next_seq by {
                    lemma_run_find_at(drained, i);
                    assert(old(self)@.active.dom().contains(drained[i].key));
                }
                if run@.len() == 0 {
                    lemma_empty_run();
                    assert(views(run@) =~= Seq::<EntryView>::empty());
                }
            }
            self.draining = Some(run);
        }
        match &self.draining {
            Some(run) => match self.writer.build(run, self.generation) {
                Ok(file) => Ok(Some(file)),
                Err(_) => Err(EngineError::Internal),
            },
            None => Err(EngineError::Internal),
        }
    }

    /// Finishes the flush under way with what the object store answered to
    /// the put.
    ///
    /// Where the put went through, the file is published, the run is let go,
    /// and the next generation starts. Where it failed, the store stays as it
    /// is and answers `ObjectStoreUnavailable`: `begin_flush` hands the file
    /// out again. Where no flush is under way, nothing happens.
    pub fn finish_flush(&mut self, put: Result<(), StoreError>) -> (r: Result<
        Option<SSTHandle>,
        WriteError,
    >)
        requires
            old(self).wf(),
        ensures
            final(self).wf(),
            final(self)@ == old(self)@.after_finish_flush(put is Ok),
            match r {
                Ok(Some(handle)) => {
                    &&& put is Ok
                    &&& old(self)@.draining matches Some(run)
                    &&& handle@ == handle_of(run, old(self)@.generation)
                },
                Ok(None) => old(self)@.draining is None,
                Err(e) => e == WriteError::ObjectStoreUnavailable && put is Err
                    && old(self)@.draining is Some,
            },
    {
        if self.draining.is_none() {
            return Ok(None);
        }
        if put.is_err() {
            return Err(WriteError::ObjectStoreUnavailable);
        }
        let mut taken: Option<Vec<Entry>> = None;
        core::mem::swap(&mut self.draining, &mut taken);
        match taken {
            Some(run) => {
                let ghost before = handle_views(self.published@);
                let handle = SSTHandle {
                    object_id: object_key(self.generation),
                    first_key: copy_bytes(run[0].key.as_slice()),
                    last_key: copy_bytes(run[run.len() - 1].key.as_slice()),
                    generation: self.generation,
                };
                let published = handle.duplicate();
                self.published.push(published);
                self.generation = self.generation + 1;
                assert(handle_views(self.published@) =~= before.push(handle@));
                Ok(Some(handle))
            },
            None => Ok(None),
        }
    }

    /// The handles of the files published, oldest first.
    pub fn published(&self) -> (handles: Vec<SSTHandle>)
        ensures
            handle_views(handles@) == self@.published,
    {
        let mut handles: Vec<SSTHandle> = Vec::new();
        let mut i: usize = 0;
        while i < self.published.len()
            invariant
                i <= self.published@.len(),
                handle_views(handles@) == handle_views(self.published@).take(i as int),
            decreases self.published.len() - i,
        {
            let ghost before = handle_views(handles@);
            handles.push(self.published[i].duplicate());
            assert(handle_views(handles@) =~= before.push(self.published[i as int]@));
            assert(handle_views(self.published@).take(i + 1) =~= handle_views(
                self.published@,
            ).take(i as int).push(self.published[i as int]@));
            i = i + 1;
        }
        assert(handle_views(self.published@).take(self.published@.len() as int) =~= handle_views(
            self.published@,
        ));
        handles
    }
}

impl DBOps for DB {
    open spec fn store(&self) -> DBView {
        self@
    }

    open spec fn stored_key(&self, key: Seq<u8>) -> Seq<u8> {
        key
    }

    open spec fn ready(&self) -> bool {
        self.wf()
    }

    fn get(&self, key: &[u8]) -> (step: ReadStep) {
        match self.active.lookup(key) {
            Some(entry) => {
                return ReadStep::Done(Ok(entry.value_bytes()));
            },
            None => {},
        }
        match &self.draining {
            Some(run) => {
                let slot = find_slot(run, key);
                proof {
                    lemma_slot_decides(views(run@), key@, slot);
                }
                if slot.found {
                    return ReadStep::Done(Ok(run[slot.index].value_bytes()));
                }
            },
            None => {},
        }
        step_among(&self.published, key, self.published.len())
    }

    fn resume_get(
        &self,
        key: &[u8],
        generation: u64,
        fetched: Result<Vec<u8>, StoreError>,
    ) -> (step: ReadStep) {
        let position = match find_generation(&self.published, generation) {
            Some(i) => i,
            None => {
                return ReadStep::Done(Err(EngineError::Internal));
            },
        };
        let bytes = match fetched {
            Ok(bytes) => bytes,
            Err(_) => {
                return ReadStep::Done(Err(EngineError::Unavailable));
            },
        };
        let meta = match SstIndex::decode(bytes.as_slice()) {
            Ok(meta) => meta,
            Err(_) => {
                return ReadStep::Done(Err(EngineError::Unavailable));
            },
        };
        if meta.generation != generation {
            return ReadStep::Done(Err(EngineError::Unavailable));
        }
        match meta.lookup_in(bytes.as_slice(), key) {
            Err(_) => ReadStep::Done(Err(EngineError::Unavailable)),
            Ok(Lookup::Present(value)) => ReadStep::Done(Ok(Some(value))),
            Ok(Lookup::Deleted) => ReadStep::Done(Ok(None)),
            Ok(Lookup::Absent) => step_among(&self.published, key, position),
        }
    }

    fn write(&mut self, key: &[u8], value: &[u8]) -> (r: Result<(), EngineError>) {
        self.put(key, Some(value))
    }
}


/// The newest write wins: of the entries that memory holds for a key, in the
/// memtable and in the run being flushed, a read answers with the one that
/// has the highest sequence number. Where a read finds nothing in memory,
/// memory holds no entry for the key.
pub proof fn lemma_newest_write_wins(store: DBView, key: Seq<u8>)
    requires
        store.inv(),
    ensures
        match store.memory_lookup(key) {
            Some(found) => {
                &&& found.key == key
                &&& store.active.dom().contains(key) ==> store.active[key].seq <= found.seq
                &&& store.draining matches Some(run) ==> forall|i: int|
                    #![trigger run[i]]
                    0 <= i < run.len() && run[i].key == key ==> run[i].seq <= found.seq
            },
            None => {
                &&& !store.active.dom().contains(key)
                &&& store.draining matches Some(run) ==> !run_contains(run, key)
            },
        },
{
    let table = sorted_run_of(store.active);
    if store.active.dom().contains(key) {
        assert(run_contains(table, key));
        let at = choose|at: int| holds_at(table, key, at);
        lemma_run_find_at(table, at);
    } else if let Some(run) = store.draining {
        if run_contains(run, key) {
            let at = choose|at: int| holds_at(run, key, at);
            lemma_run_find_at(run, at);
            assert forall|i: int|
                0 <= i < run.len() && (#[trigger] run[i]).key == key implies run[i].seq
                <= run[at].seq by {
                lemma_sorted_run_unique(run, i, at);
            }
        }
    }
}

/// A write is read back at once: whatever the files and the run being
/// flushed hold for the key, a read that follows a write finds what was
/// written, and one that follows a delete finds nothing.
pub proof fn lemma_read_your_write(store: DBView, key: Seq<u8>, value: Option<Seq<u8>>)
    ensures
        store.after_put(key, value).read_start(key) == ReadStepView::Done(Ok(value)),
{
}

/// A write to one key leaves what memory holds for every other key as it
/// was.
pub proof fn lemma_write_leaves_other_keys(
    store: DBView,
    key: Seq<u8>,
    value: Option<Seq<u8>>,
    other: Seq<u8>,
)
    requires
        other != key,
    ensures
        store.after_put(key, value).memory_lookup(other) == store.memory_lookup(other),
        store.after_put(key, value).read_start(other) == store.read_start(other),
{
}

/// The newest of the files, among the first `below`, whose range holds the
/// key is the last one where that one's range holds it.
proof fn lemma_route_last(published: Seq<HandleView>, key: Seq<u8>)
    requires
        published.len() > 0,
        in_range(published.last(), key),
    ensures
        route(published, key, published.len() as int) == Some(published.len() - 1),
{
}

/// The file of the newest generation is found at the last position.
proof fn lemma_position_last(published: Seq<HandleView>)
    requires
        published.len() > 0,
    ensures
        position_of(published, published.last().generation, published.len() as int) == Some(
            published.len() - 1,
        ),
{
}

/// No two published files are held by the same object.
pub proof fn lemma_published_objects_distinct(store: DBView, i: int, j: int)
    requires
        store.inv(),
        0 <= i < store.published.len(),
        0 <= j < store.published.len(),
        i != j,
    ensures
        store.published[i].object_id != store.published[j].object_id,
{
    if i < j {
        assert(store.published[i].generation < store.published[j].generation);
    } else {
        assert(store.published[j].generation < store.published[i].generation);
    }
    if store.published[i].object_id == store.published[j].object_id {
        lemma_object_key_injective(
            store.published[i].generation,
            store.published[j].generation,
        );
    }
}

/// The newest file that has the key decides: a read that is handed the file
/// of a published generation ends there where the run the file was written
/// from has an entry for the key. It answers with the value of that entry,
/// and with nothing where the entry is a tombstone, whatever older files
/// hold; where the run has no entry for the key, the read goes on to the
/// older files whose key range holds the key.
pub proof fn lemma_file_decides(
    store: DBView,
    run: Seq<EntryView>,
    generation: u64,
    block_size: nat,
    key: Seq<u8>,
)
    requires
        position_of(store.published, generation, store.published.len() as int) is Some,
        is_sorted_run(run),
        sst_bytes(run, generation, block_size).len() <= u64::MAX,
    ensures
        store.read_resume(key, generation, Some(sst_bytes(run, generation, block_size))) == (
        match run_find(run, key) {
            Some(entry) => ReadStepView::Done(Ok(entry.value)),
            None => next_step(
                store.published,
                key,
                position_of(store.published, generation, store.published.len() as int)->0,
            ),
        }),
{
    lemma_lookup_round_trip(run, generation, block_size, key);
}

/// Round trip through a flush: what the memtable held when the flush began
/// is read back from the file that the flush published. A read of a key the
/// memtable held asks for that file, and, handed its bytes, answers with the
/// value last written to the key, or with nothing where the last write was a
/// delete.
pub proof fn lemma_flush_round_trip(store: DBView, key: Seq<u8>)
    requires
        store.inv(),
        store.can_begin_flush(),
        store.active.dom().contains(key),
        sst_bytes(sorted_run_of(store.active), store.generation, store.block_size).len()
            <= u64::MAX,
    ensures
        ({
            let run = sorted_run_of(store.active);
            let file = sst_bytes(run, store.generation, store.block_size);
            let after = store.after_begin_flush().after_finish_flush(true);
            &&& after.inv()
            &&& after.read_start(key) == ReadStepView::Fetch {
                object_id: spec_object_key(store.generation),
                generation: store.generation,
            }
            &&& after.read_resume(key, store.generation, Some(file)) == ReadStepView::Done(
                Ok(store.active[key].value),
            )
        }),
{
    let run = sorted_run_of(store.active);
    let file = sst_bytes(run, store.generation, store.block_size);
    let flushing = store.after_begin_flush();
    let after = flushing.after_finish_flush(true);
    let handle = handle_of(run, store.generation);
    assert(after.published == store.published.push(handle));
    assert(after.published.last() == handle);
    // The run holds the key, between its first and its last entry.
    assert(run_contains(run, key));
    let i = choose|i: int| holds_at(run, key, i);
    lemma_run_find_at(run, i);
    assert(in_range(handle, key)) by {
        if 0 < i {
            assert(key_lt(run[0].key, run[i].key));
        }
        if i < run.len() - 1 {
            assert(key_lt(run[i].key, run[run.len() - 1].key));
        }
    }
    lemma_route_last(after.published, key);
    lemma_position_last(after.published);
    lemma_lookup_round_trip(run, store.generation, store.block_size, key);
    assert(is_table(after.active)) by {
        lemma_empty_run();
        lemma_sorted_run_of(Seq::<EntryView>::empty());
    }
}

} // verus!
