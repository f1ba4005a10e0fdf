//! The in-memory buffer of the writes of one generation.
//!
//! A memtable keeps one entry per key, the newest, in ascending key order. Its
//! view is the map from key to that entry. Contents leave it in one piece, as
//! a sorted run, when the generation is flushed.

use vstd::prelude::*;
use crate::codec::key_lt;
use crate::entry::{
    find_slot, holds_at, is_slot_of, is_sorted_run, is_table, lemma_run_find_at, lemma_slot_decides,
    lemma_sorted_run_of, map_size, run_contains, run_find, run_map, run_size, sorted_run_of, views,
    Entry, EntryView, Slot,
};

verus! {

/// A sorted run after `entry` took the place of the entry with its key, or
/// was put in at its slot where the run had none.
pub open spec fn run_upsert(run: Seq<EntryView>, slot: Slot, entry: EntryView) -> Seq<EntryView> {
    if slot.found {
        run.update(slot.index as int, entry)
    } else {
        run.insert(slot.index as int, entry)
    }
}

/// Putting an entry in at its slot keeps the run sorted, and changes the map
/// it holds at the entry's key only.
pub proof fn lemma_run_upsert(run: Seq<EntryView>, slot: Slot, entry: EntryView)
    requires
        is_sorted_run(run),
        is_slot_of(run, entry.key, slot),
    ensures
        is_sorted_run(run_upsert(run, slot, entry)),
        run_map(run_upsert(run, slot, entry)) == run_map(run).insert(entry.key, entry),
{
    let next = run_upsert(run, slot, entry);
    let at = slot.index as int;
    // Where each position of the new run comes from in the old one.
    let origin = |i: int| if slot.found || i < at { i } else { i - 1 };
    assert forall|i: int| 0 <= i < next.len() && i != at implies 0 <= origin(i) < run.len()
        && #[trigger] next[i] == run[origin(i)] by {}
    assert(next[at] == entry);
    assert(is_sorted_run(next)) by {
        assert forall|i: int, j: int| 0 <= i < j < next.len() implies key_lt(
            next[i].key,
            next[j].key,
        ) by {
            if i == at {
                assert(next[j] == run[origin(j)]);
                if slot.found {
                    assert(key_lt(run[at].key, run[origin(j)].key));
                } else {
                    assert(key_lt(entry.key, run[origin(j)].key));
                }
            } else if j == at {
                assert(next[i] == run[origin(i)]);
                assert(key_lt(run[origin(i)].key, entry.key));
            } else {
                assert(next[i] == run[origin(i)]);
                assert(next[j] == run[origin(j)]);
                assert(key_lt(run[origin(i)].key, run[origin(j)].key));
            }
        }
    }
    lemma_slot_decides(run, entry.key, slot);
    lemma_run_find_at(next, at);
    assert forall|key: Seq<u8>| key != entry.key implies (run_contains(next, key)
        <==> run_contains(run, key)) && (run_contains(run, key) ==> run_find(next, key)
        == run_find(run, key)) by {
        if run_contains(next, key) {
            let w = choose|w: int| holds_at(next, key, w);
            assert(next[w] == run[origin(w)]);
            assert(holds_at(run, key, origin(w)));
        }
        if run_contains(run, key) {
            let w = choose|w: int| holds_at(run, key, w);
            let target = if slot.found || w < at { w } else { w + 1 };
            assert(next[target] == run[origin(target)]);
            assert(holds_at(next, key, target));
            lemma_run_find_at(run, w);
            lemma_run_find_at(next, target);
        }
    }
    assert(run_map(next) =~= run_map(run).insert(entry.key, entry));
}

/// Putting an entry into a run adds its size to the size of the run.
pub proof fn lemma_run_size_insert(run: Seq<EntryView>, at: int, entry: EntryView)
    requires
        0 <= at <= run.len(),
    ensures
        run_size(run.insert(at, entry)) == run_size(run) + entry.size(),
    decreases run.len() - at,
{
    let next = run.insert(at, entry);
    if at == run.len() {
        assert(next.drop_last() =~= run);
    } else {
        lemma_run_size_insert(run.drop_last(), at, entry);
        assert(next.drop_last() =~= run.drop_last().insert(at, entry));
    }
}

/// Putting an entry in the place of another changes the size of the run by
/// the difference of their sizes. No entry is larger than its run.
pub proof fn lemma_run_size_update(run: Seq<EntryView>, at: int, entry: EntryView)
    requires
        0 <= at < run.len(),
    ensures
        run[at].size() <= run_size(run),
        run_size(run.update(at, entry)) == run_size(run) - run[at].size() + entry.size(),
    decreases run.len(),
{
    let next = run.update(at, entry);
    if at == run.len() - 1 {
        assert(next.drop_last() =~= run.drop_last());
    } else {
        lemma_run_size_update(run.drop_last(), at, entry);
        assert(next.drop_last() =~= run.drop_last().update(at, entry));
    }
}

/// The run with no entries holds the empty map.
pub proof fn lemma_empty_run()
    ensures
        is_sorted_run(Seq::<EntryView>::empty()),
        run_map(Seq::<EntryView>::empty()) == Map::<Seq<u8>, EntryView>::empty(),
        run_size(Seq::<EntryView>::empty()) == 0,
{
    let run = Seq::<EntryView>::empty();
    assert forall|key: Seq<u8>| !run_contains(run, key) by {
        assert forall|i: int| !holds_at(run, key, i) by {}
    }
    assert(run_map(run) =~= Map::<Seq<u8>, EntryView>::empty());
}

/// The size of a run one entry longer.
proof fn lemma_run_size_step(run: Seq<EntryView>, n: int)
    requires
        0 <= n < run.len(),
    ensures
        run_size(run.take(n + 1)) == run_size(run.take(n)) + run[n].size(),
{
    assert(run.take(n + 1).drop_last() =~= run.take(n));
}

/// The byte count of one entry, capped at the largest `usize`.
fn entry_size(entry: &Entry) -> (size: usize)
    ensures
        size as nat == if entry@.size() <= usize::MAX {
            entry@.size()
        } else {
            usize::MAX as nat
        },
{
    match &entry.value {
        Some(bytes) => match entry.key.len().checked_add(bytes.len()) {
            Some(size) => size,
            None => usize::MAX,
        },
        None => entry.key.len(),
    }
}

/// The byte count of a run, capped at the largest `usize`.
fn measure(entries: &Vec<Entry>) -> (total: usize)
    ensures
        total as nat == capped(run_size(views(entries@))),
{
    let ghost run = views(entries@);
    let mut total: usize = 0;
    let mut i: usize = 0;
    while i < entries.len()
        invariant
            i <= entries.len(),
            run == views(entries@),
            total as nat == capped(run_size(run.take(i as int))),
        decreases entries.len() - i,
    {
        proof {
            lemma_run_size_step(run, i as int);
        }
        let size = entry_size(&entries[i]);
        total = match total.checked_add(size) {
            Some(sum) => sum,
            None => usize::MAX,
        };
        i = i + 1;
    }
    assert(run.take(entries.len() as int) =~= run);
    total
}

/// A byte count as a `usize` can hold it: itself, or the largest `usize`
/// where it is larger.
pub open spec fn capped(n: nat) -> nat {
    if n <= usize::MAX {
        n
    } else {
        usize::MAX as nat
    }
}

/// The pending writes of one generation.
pub struct MemTable {
    entries: Vec<Entry>,
    bytes: usize,
}

impl View for MemTable {
    type V = Map<Seq<u8>, EntryView>;

    /// The newest entry of each key written.
    closed spec fn view(&self) -> Map<Seq<u8>, EntryView> {
        run_map(views(self.entries@))
    }
}

impl MemTable {
    spec fn run(&self) -> Seq<EntryView> {
        views(self.entries@)
    }

    /// The entries are kept sorted with one entry per key, and the byte
    /// count kept is that of the entries.
    pub closed spec fn wf(&self) -> bool {
        &&& is_sorted_run(self.run())
        &&& self.bytes as nat == capped(run_size(self.run()))
    }

    /// What a table holds is held by a sorted run.
    pub proof fn lemma_is_table(&self)
        requires
            self.wf(),
        ensures
            is_table(self@),
    {
        lemma_sorted_run_of(self.run());
    }

    /// An empty table.
    pub fn new() -> (table: MemTable)
        ensures
            table.wf(),
            table@ == Map::<Seq<u8>, EntryView>::empty(),
    {
        let table = MemTable { entries: Vec::new(), bytes: 0 };
        proof {
            lemma_empty_run();
            assert(table.run() =~= Seq::<EntryView>::empty());
        }
        table
    }

    fn upsert(&mut self, entry: Entry)
        requires
            old(self).wf(),
        ensures
            final(self).wf(),
            final(self)@ == old(self)@.insert(entry@.key, entry@),
    {
        let slot = find_slot(&self.entries, entry.key.as_slice());
        let ghost before = self.run();
        let ghost entry_view = entry@;
        proof {
            lemma_run_upsert(before, slot, entry_view);
            if slot.found {
                lemma_run_size_update(before, slot.index as int, entry_view);
            } else {
                lemma_run_size_insert(before, slot.index as int, entry_view);
            }
        }
        let added = entry_size(&entry);
        let removed = if slot.found {
            entry_size(&self.entries[slot.index])
        } else {
            0
        };
        if slot.found {
            self.entries[slot.index] = entry;
        } else {
            self.entries.insert(slot.index, entry);
        }
        assert(self.run() =~= run_upsert(before, slot, entry_view));
        if self.bytes < usize::MAX {
            // The count is exact: take the old entry out, put the new one in.
            self.bytes = match (self.bytes - removed).checked_add(added) {
                Some(sum) => sum,
                None => usize::MAX,
            };
        } else {
            self.bytes = measure(&self.entries);
        }
    }

    /// Sets `key` to `value`, in place of any entry the table has for `key`.
    pub fn insert(&mut self, key: &[u8], value: &[u8], seq: u64)
        requires
            old(self).wf(),
        ensures
            final(self).wf(),
            final(self)@ == old(self)@.insert(
                key@,
                EntryView { key: key@, value: Some(value@), seq },
            ),
    {
        self.upsert(Entry::put(key, value, seq));
    }

    /// Marks `key` as deleted, in place of any entry the table has for `key`.
    pub fn insert_tombstone(&mut self, key: &[u8], seq: u64)
        requires
            old(self).wf(),
        ensures
            final(self).wf(),
            final(self)@ == old(self)@.insert(key@, EntryView { key: key@, value: None, seq }),
    {
        self.upsert(Entry::tombstone(key, seq));
    }

    /// The entry the table has for `key`, if any.
    pub fn lookup(&self, key: &[u8]) -> (found: Option<Entry>)
        requires
            self.wf(),
        ensures
            match found {
                Some(entry) => self@.dom().contains(key@) && self@[key@] == entry@,
                None => !self@.dom().contains(key@),
            },
    {
        let slot = find_slot(&self.entries, key);
        proof {
            lemma_slot_decides(self.run(), key@, slot);
        }
        if slot.found {
            Some(self.entries[slot.index].duplicate())
        } else {
            None
        }
    }

    /// Hands out every entry, in ascending key order, and leaves the table
    /// empty. The keys of the result ascend strictly, so none occurs twice,
    /// and the result holds the map the table held.
    pub fn drain_sorted(&mut self) -> (run: Vec<Entry>)
        requires
            old(self).wf(),
        ensures
            is_sorted_run(views(run@)),
            run_map(views(run@)) == old(self)@,
            views(run@) == sorted_run_of(old(self)@),
            final(self).wf(),
            final(self)@ == Map::<Seq<u8>, EntryView>::empty(),
    {
        proof {
            lemma_sorted_run_of(self.run());
        }
        let mut run: Vec<Entry> = Vec::new();
        core::mem::swap(&mut self.entries, &mut run);
        self.bytes = 0;
        proof {
            lemma_empty_run();
            assert(self.run() =~= Seq::<EntryView>::empty());
        }
        run
    }

    /// The number of keys the table holds.
    pub fn len(&self) -> (n: usize)
        requires
            self.wf(),
        ensures
            n == sorted_run_of(self@).len(),
    {
        proof {
            lemma_sorted_run_of(self.run());
        }
        self.entries.len()
    }

    /// Tells whether the table holds no entry.
    pub fn is_empty(&self) -> (r: bool)
        requires
            self.wf(),
        ensures
            r <==> self@ == Map::<Seq<u8>, EntryView>::empty(),
    {
        proof {
            if self.run().len() == 0 {
                lemma_empty_run();
                assert(self.run() =~= Seq::<EntryView>::empty());
            } else {
                lemma_run_find_at(self.run(), 0);
            }
        }
        self.entries.len() == 0
    }

    /// The bytes of the keys and values held, capped at the largest `usize`.
    pub fn footprint(&self) -> (bytes: usize)
        requires
            self.wf(),
        ensures
            bytes as nat == capped(map_size(self@)),
    {
        proof {
            lemma_sorted_run_of(self.run());
        }
        self.bytes
    }
}

} // verus!
