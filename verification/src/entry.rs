//! Entries, and sorted runs of entries.
//!
//! An entry is one write: a key, the value written or a tombstone, and the
//! sequence number the write was given. A sorted run is a sequence of entries
//! with strictly ascending keys; it is what a memtable hands to the file
//! writer, and what the store searches while a flush is under way.

use vstd::prelude::*;
use crate::codec::{
    copy_bytes, key_lt, key_order, lemma_key_lt_asymmetric, lemma_key_lt_irreflexive,
    lemma_key_lt_transitive, KeyOrder,
};

verus! {

/// One write. `value` is `None` for a tombstone, which marks the key as
/// deleted.
#[derive(Clone, Debug, PartialEq, Eq)]
pub struct Entry {
    pub key: Vec<u8>,
    pub value: Option<Vec<u8>>,
    pub seq: u64,
}

/// An entry as plain data.
pub struct EntryView {
    pub key: Seq<u8>,
    pub value: Option<Seq<u8>>,
    pub seq: u64,
}

/// The bytes behind an optional value.
pub open spec fn value_view(value: Option<Vec<u8>>) -> Option<Seq<u8>> {
    match value {
        Some(bytes) => Some(bytes@),
        None => None,
    }
}

impl View for Entry {
    type V = EntryView;

    open spec fn view(&self) -> EntryView {
        EntryView { key: self.key@, value: value_view(self.value), seq: self.seq }
    }
}

impl EntryView {
    /// Key and value bytes this entry accounts for; a tombstone counts its
    /// key only.
    pub open spec fn size(self) -> nat {
        match self.value {
            Some(bytes) => self.key.len() + bytes.len(),
            None => self.key.len(),
        }
    }
}

impl Entry {
    /// An entry that sets `key` to `value`.
    pub fn put(key: &[u8], value: &[u8], seq: u64) -> (entry: Entry)
        ensures
            entry@ == (EntryView { key: key@, value: Some(value@), seq }),
    {
        Entry { key: copy_bytes(key), value: Some(copy_bytes(value)), seq }
    }

    /// An entry that deletes `key`.
    pub fn tombstone(key: &[u8], seq: u64) -> (entry: Entry)
        ensures
            entry@ == (EntryView { key: key@, value: None, seq }),
    {
        Entry { key: copy_bytes(key), value: None, seq }
    }

    /// Tells whether this entry deletes its key.
    pub fn is_tombstone(&self) -> (r: bool)
        ensures
            r <==> self@.value is None,
    {
        self.value.is_none()
    }

    /// A copy of this entry.
    pub fn duplicate(&self) -> (copy: Entry)
        ensures
            copy@ == self@,
    {
        let value = match &self.value {
            Some(bytes) => Some(copy_bytes(bytes.as_slice())),
            None => None,
        };
        Entry { key: copy_bytes(self.key.as_slice()), value, seq: self.seq }
    }

    /// A copy of the value, `None` for a tombstone.
    pub fn value_bytes(&self) -> (value: Option<Vec<u8>>)
        ensures
            value_view(value) == self@.value,
    {
        match &self.value {
            Some(bytes) => Some(copy_bytes(bytes.as_slice())),
            None => None,
        }
    }
}

/// The entries of a vector as plain data.
pub open spec fn views(entries: Seq<Entry>) -> Seq<EntryView> {
    entries.map_values(|e: Entry| e@)
}

/// The keys of a run ascend strictly, so no key occurs twice.
pub open spec fn is_sorted_run(run: Seq<EntryView>) -> bool {
    forall|i: int, j: int|
        #![trigger run[i], run[j]]
        0 <= i < j < run.len() ==> key_lt(run[i].key, run[j].key)
}

/// `key` is the key of the entry at position `i` of the run.
pub open spec fn holds_at(run: Seq<EntryView>, key: Seq<u8>, i: int) -> bool {
    0 <= i < run.len() && run[i].key == key
}

/// Some entry of the run has the key.
pub open spec fn run_contains(run: Seq<EntryView>, key: Seq<u8>) -> bool {
    exists|i: int| holds_at(run, key, i)
}

/// The entry of the run with the given key, if there is one.
pub open spec fn run_find(run: Seq<EntryView>, key: Seq<u8>) -> Option<EntryView> {
    if run_contains(run, key) {
        Some(run[choose|i: int| holds_at(run, key, i)])
    } else {
        None
    }
}

/// The run as a map from key to entry.
pub open spec fn run_map(run: Seq<EntryView>) -> Map<Seq<u8>, EntryView> {
    Map::new(|key: Seq<u8>| run_contains(run, key), |key: Seq<u8>| run_find(run, key)->0)
}

/// The sum of the sizes of the entries of a run.
pub open spec fn run_size(run: Seq<EntryView>) -> nat
    decreases run.len(),
{
    if run.len() == 0 {
        0
    } else {
        run_size(run.drop_last()) + run.last().size()
    }
}

/// In a sorted run a key is found at one position only.
pub proof fn lemma_sorted_run_unique(run: Seq<EntryView>, i: int, j: int)
    requires
        is_sorted_run(run),
        0 <= i < run.len(),
        0 <= j < run.len(),
        run[i].key == run[j].key,
    ensures
        i == j,
{
    if i < j {
        lemma_key_lt_irreflexive(run[i].key);
    } else if j < i {
        lemma_key_lt_irreflexive(run[j].key);
    }
}

/// In a sorted run every entry is the one found under its key.
pub proof fn lemma_run_find_at(run: Seq<EntryView>, i: int)
    requires
        is_sorted_run(run),
        0 <= i < run.len(),
    ensures
        run_contains(run, run[i].key),
        run_find(run, run[i].key) == Some(run[i]),
        run_map(run).dom().contains(run[i].key),
        run_map(run)[run[i].key] == run[i],
{
    let key = run[i].key;
    assert(holds_at(run, key, i));
    let w = choose|w: int| holds_at(run, key, w);
    lemma_sorted_run_unique(run, i, w);
}

/// Two sorted runs that hold the same map are the same run.
pub proof fn lemma_sorted_run_determined(a: Seq<EntryView>, b: Seq<EntryView>)
    requires
        is_sorted_run(a),
        is_sorted_run(b),
        run_map(a) == run_map(b),
    ensures
        a == b,
    decreases a.len(),
{
    if a.len() == 0 {
        if b.len() > 0 {
            lemma_run_find_at(b, 0);
            let w = choose|w: int| holds_at(a, b[0].key, w);
            assert(holds_at(a, b[0].key, w));
        }
        assert(a =~= b);
    } else if b.len() == 0 {
        lemma_run_find_at(a, 0);
        let w = choose|w: int| holds_at(b, a[0].key, w);
        assert(holds_at(b, a[0].key, w));
    } else {
        // The last entries hold the largest key of each run, so they agree.
        let la = a.len() - 1;
        let lb = b.len() - 1;
        lemma_run_find_at(a, la);
        lemma_run_find_at(b, lb);
        let ia = choose|w: int| holds_at(a, b[lb].key, w);
        assert(holds_at(a, b[lb].key, ia));
        let ib = choose|w: int| holds_at(b, a[la].key, w);
        assert(holds_at(b, a[la].key, ib));
        if ia < la {
            // b.last < a.last, yet a.last sits in b at or before b.last
            assert(key_lt(a[ia].key, a[la].key));
            if ib < lb {
                assert(key_lt(b[ib].key, b[lb].key));
                lemma_key_lt_asymmetric(a[la].key, b[lb].key);
            } else {
                lemma_key_lt_irreflexive(a[la].key);
            }
        }
        assert(ia == la);
        lemma_run_find_at(a, ia);
        assert(a[la] == b[lb]);
        let a0 = a.drop_last();
        let b0 = b.drop_last();
        assert(is_sorted_run(a0)) by {
            assert forall|i: int, j: int| 0 <= i < j < a0.len() implies key_lt(
                a0[i].key,
                a0[j].key,
            ) by {
                assert(key_lt(a[i].key, a[j].key));
            }
        }
        assert(is_sorted_run(b0)) by {
            assert forall|i: int, j: int| 0 <= i < j < b0.len() implies key_lt(
                b0[i].key,
                b0[j].key,
            ) by {
                assert(key_lt(b[i].key, b[j].key));
            }
        }
        assert(run_map(a0) =~= run_map(b0)) by {
            lemma_drop_last_map(a);
            lemma_drop_last_map(b);
        }
        lemma_sorted_run_determined(a0, b0);
        assert(a =~= a0.push(a[la]));
        assert(b =~= b0.push(b[lb]));
    }
}

/// The sorted run that holds a map: its entries in ascending key order.
pub open spec fn sorted_run_of(map: Map<Seq<u8>, EntryView>) -> Seq<EntryView> {
    choose|run: Seq<EntryView>| is_sorted_run(run) && run_map(run) == map
}

/// The bytes of the keys and values of a map of entries.
pub open spec fn map_size(map: Map<Seq<u8>, EntryView>) -> nat {
    run_size(sorted_run_of(map))
}

/// The map is held by a sorted run: it has finitely many keys, and each
/// entry stands under its own key.
pub open spec fn is_table(map: Map<Seq<u8>, EntryView>) -> bool {
    is_sorted_run(sorted_run_of(map)) && run_map(sorted_run_of(map)) == map
}

/// A sorted run is the sorted run of the map it holds.
pub proof fn lemma_sorted_run_of(run: Seq<EntryView>)
    requires
        is_sorted_run(run),
    ensures
        sorted_run_of(run_map(run)) == run,
        is_table(run_map(run)),
{
    let chosen = sorted_run_of(run_map(run));
    lemma_sorted_run_determined(chosen, run);
}

/// Dropping the last entry of a sorted run removes its key from the map.
proof fn lemma_drop_last_map(run: Seq<EntryView>)
    requires
        is_sorted_run(run),
        run.len() > 0,
    ensures
        run_map(run.drop_last()) == run_map(run).remove(run.last().key),
{
    let rest = run.drop_last();
    let last = run.len() - 1;
    assert(is_sorted_run(rest)) by {
        assert forall|i: int, j: int| 0 <= i < j < rest.len() implies key_lt(
            rest[i].key,
            rest[j].key,
        ) by {
            assert(key_lt(run[i].key, run[j].key));
        }
    }
    assert forall|key: Seq<u8>| run_contains(rest, key) <==> (run_contains(run, key) && key
        != run[last].key) by {
        if run_contains(rest, key) {
            let w = choose|w: int| holds_at(rest, key, w);
            assert(holds_at(run, key, w));
            assert(key_lt(run[w].key, run[last].key));
            lemma_key_lt_irreflexive(key);
        }
        if run_contains(run, key) && key != run[last].key {
            let w = choose|w: int| holds_at(run, key, w);
            assert(holds_at(rest, key, w));
        }
    }
    assert forall|key: Seq<u8>| run_contains(rest, key) implies run_find(rest, key) == run_find(
        run,
        key,
    ) by {
        let w = choose|w: int| holds_at(rest, key, w);
        assert(holds_at(run, key, w));
        lemma_run_find_at(rest, w);
        lemma_run_find_at(run, w);
    }
    assert(run_map(rest) =~= run_map(run).remove(run[last].key));
}

/// Where a key stands in a sorted run.
pub struct Slot {
    /// Whether the entry at `index` has the key.
    pub found: bool,
    /// The position of the first entry whose key is not smaller than the key
    /// looked for; the length of the run where there is none.
    pub index: usize,
}

/// The slot of `key` in `run`: every entry before it has a smaller key, every
/// entry after it a larger one, and the entry at it, if `found`, has `key`.
pub open spec fn is_slot_of(run: Seq<EntryView>, key: Seq<u8>, slot: Slot) -> bool {
    &&& slot.index <= run.len()
    &&& forall|i: int| #![trigger run[i]] 0 <= i < slot.index ==> key_lt(run[i].key, key)
    &&& slot.found ==> slot.index < run.len() && run[slot.index as int].key == key
    &&& !slot.found ==> forall|i: int|
        #![trigger run[i]]
        slot.index <= i < run.len() ==> key_lt(key, run[i].key)
}

/// A slot that did not find the key shows that the run does not hold it.
pub proof fn lemma_slot_decides(run: Seq<EntryView>, key: Seq<u8>, slot: Slot)
    requires
        is_sorted_run(run),
        is_slot_of(run, key, slot),
    ensures
        slot.found <==> run_contains(run, key),
        slot.found ==> run_find(run, key) == Some(run[slot.index as int]),
{
    if slot.found {
        lemma_run_find_at(run, slot.index as int);
    } else if run_contains(run, key) {
        let w = choose|w: int| holds_at(run, key, w);
        lemma_key_lt_irreflexive(key);
        if w < slot.index {
            assert(key_lt(run[w].key, key));
        } else {
            assert(key_lt(key, run[w].key));
        }
    }
}

/// Tells whether the keys of `entries` ascend strictly.
pub fn is_sorted(entries: &Vec<Entry>) -> (r: bool)
    ensures
        r <==> is_sorted_run(views(entries@)),
{
    let ghost run = views(entries@);
    if entries.len() < 2 {
        return true;
    }
    let mut i: usize = 1;
    while i < entries.len()
        invariant
            1 <= i <= entries.len(),
            run == views(entries@),
            forall|a: int, b: int|
                #![trigger run[a], run[b]]
                0 <= a < b < i ==> key_lt(run[a].key, run[b].key),
        decreases entries.len() - i,
    {
        match key_order(entries[i - 1].key.as_slice(), entries[i].key.as_slice()) {
            KeyOrder::Less => {
                proof {
                    assert forall|a: int, b: int| 0 <= a < b < i + 1 implies key_lt(
                        run[a].key,
                        run[b].key,
                    ) by {
                        if b == i && a < i - 1 {
                            assert(key_lt(run[a].key, run[i - 1].key));
                            lemma_key_lt_transitive(run[a].key, run[i - 1].key, run[i as int].key);
                        }
                    }
                }
            },
            _ => {
                proof {
                    let a = (i - 1) as int;
                    let b = i as int;
                    assert(!key_lt(run[a].key, run[b].key));
                }
                return false;
            },
        }
        i = i + 1;
    }
    true
}

/// Finds the slot of `key` in a sorted run by binary search.
pub fn find_slot(entries: &Vec<Entry>, key: &[u8]) -> (slot: Slot)
    requires
        is_sorted_run(views(entries@)),
    ensures
        is_slot_of(views(entries@), key@, slot),
{
    let ghost run = views(entries@);
    let mut lo: usize = 0;
    let mut hi: usize = entries.len();
    while lo < hi
        invariant
            lo <= hi <= entries.len(),
            run == views(entries@),
            is_sorted_run(run),
            forall|i: int| #![trigger run[i]] 0 <= i < lo ==> key_lt(run[i].key, key@),
            forall|i: int| #![trigger run[i]] hi <= i < run.len() ==> key_lt(key@, run[i].key),
        decreases hi - lo,
    {
        let mid = lo + (hi - lo) / 2;
        match key_order(entries[mid].key.as_slice(), key) {
            KeyOrder::Less => {
                proof {
                    assert forall|i: int| 0 <= i < mid + 1 implies key_lt(
                        (#[trigger] run[i]).key,
                        key@,
                    ) by {
                        if i < mid {
                            assert(key_lt(run[i].key, run[mid as int].key));
                            lemma_key_lt_transitive(run[i].key, run[mid as int].key, key@);
                        }
                    }
                }
                lo = mid + 1;
            },
            KeyOrder::Greater => {
                proof {
                    assert forall|i: int| mid <= i < run.len() implies key_lt(
                        key@,
                        (#[trigger] run[i]).key,
                    ) by {
                        if i > mid {
                            assert(key_lt(run[mid as int].key, run[i].key));
                            lemma_key_lt_transitive(key@, run[mid as int].key, run[i].key);
                        }
                    }
                }
                hi = mid;
            },
            KeyOrder::Equal => {
                proof {
                    assert forall|i: int| 0 <= i < mid implies key_lt(
                        (#[trigger] run[i]).key,
                        key@,
                    ) by {
                        assert(key_lt(run[i].key, run[mid as int].key));
                    }
                }
                return Slot { found: true, index: mid };
            },
        }
    }
    Slot { found: false, index: lo }
}

} // verus!
