use sstkv::entry::{find_slot, is_sorted, Entry};
use sstkv::memtable::MemTable;

fn keys(run: &[Entry]) -> Vec<Vec<u8>> {
    run.iter().map(|e| e.key.clone()).collect()
}

#[test]
fn a_new_table_is_empty() {
    let mut table = MemTable::new();
    assert!(table.is_empty());
    assert_eq!(table.len(), 0);
    assert_eq!(table.footprint(), 0);
    assert_eq!(table.lookup(b"k"), None);
    assert_eq!(table.drain_sorted(), Vec::new());
}

#[test]
fn insert_then_lookup() {
    let mut table = MemTable::new();
    table.insert(b"k1", b"v1", 0);
    table.insert(b"k2", b"v2", 1);
    assert_eq!(
        table.lookup(b"k1"),
        Some(Entry { key: b"k1".to_vec(), value: Some(b"v1".to_vec()), seq: 0 })
    );
    assert_eq!(
        table.lookup(b"k2"),
        Some(Entry { key: b"k2".to_vec(), value: Some(b"v2".to_vec()), seq: 1 })
    );
    assert_eq!(table.lookup(b"k3"), None);
    assert_eq!(table.len(), 2);
    assert!(!table.is_empty());
}

#[test]
fn insert_overwrites_the_entry_of_a_key() {
    let mut table = MemTable::new();
    table.insert(b"k1", b"v1", 0);
    table.insert(b"k2", b"v2", 1);
    table.insert(b"k1", b"v3", 2);
    assert_eq!(
        table.lookup(b"k1"),
        Some(Entry { key: b"k1".to_vec(), value: Some(b"v3".to_vec()), seq: 2 })
    );
    assert_eq!(table.len(), 2);
}

#[test]
fn a_tombstone_takes_the_place_of_a_value() {
    let mut table = MemTable::new();
    table.insert(b"k", b"v", 0);
    table.insert_tombstone(b"k", 1);
    let found = table.lookup(b"k").unwrap();
    assert!(found.is_tombstone());
    assert_eq!(found, Entry { key: b"k".to_vec(), value: None, seq: 1 });
    table.insert(b"k", b"w", 2);
    assert_eq!(table.lookup(b"k").unwrap().value, Some(b"w".to_vec()));
}

#[test]
fn drain_sorted_yields_ascending_keys_without_duplicates() {
    let mut table = MemTable::new();
    let writes: [&[u8]; 9] = [b"m", b"a", b"z", b"m", b"b", b"", b"a", b"mm", b"\xff"];
    let mut seq = 0u64;
    for key in writes {
        if seq % 3 == 2 {
            table.insert_tombstone(key, seq);
        } else {
            table.insert(key, b"value", seq);
        }
        seq += 1;
    }
    let run = table.drain_sorted();
    assert_eq!(
        keys(&run),
        vec![
            b"".to_vec(),
            b"a".to_vec(),
            b"b".to_vec(),
            b"m".to_vec(),
            b"mm".to_vec(),
            b"z".to_vec(),
            b"\xff".to_vec()
        ]
    );
    for pair in run.windows(2) {
        assert!(pair[0].key < pair[1].key);
    }
    assert!(is_sorted(&run));
    // the newest write of each key is the one that leaves
    assert_eq!(run[1].seq, 6);
    assert_eq!(run[3].seq, 3);
    assert_eq!(run[2].value, Some(b"value".to_vec()));
    assert_eq!(run[6].value, None);
}

#[test]
fn drain_sorted_leaves_the_table_empty() {
    let mut table = MemTable::new();
    table.insert(b"b", b"2", 0);
    table.insert(b"a", b"1", 1);
    assert_eq!(table.drain_sorted().len(), 2);
    assert!(table.is_empty());
    assert_eq!(table.footprint(), 0);
    assert_eq!(table.lookup(b"a"), None);
    assert_eq!(table.drain_sorted(), Vec::new());
}

#[test]
fn footprint_is_the_sum_of_key_and_value_lengths() {
    let mut table = MemTable::new();
    table.insert(b"key", b"value", 0);
    assert_eq!(table.footprint(), 8);
    table.insert(b"k", b"", 1);
    assert_eq!(table.footprint(), 9);
    table.insert(b"key", b"v", 2);
    assert_eq!(table.footprint(), 5);
    table.insert_tombstone(b"key", 3);
    assert_eq!(table.footprint(), 4);
    table.insert_tombstone(b"gone", 4);
    assert_eq!(table.footprint(), 8);
}

#[test]
fn entries_are_made_and_copied() {
    let put = Entry::put(b"k", b"v", 7);
    assert_eq!(put, Entry { key: b"k".to_vec(), value: Some(b"v".to_vec()), seq: 7 });
    assert!(!put.is_tombstone());
    assert_eq!(put.value_bytes(), Some(b"v".to_vec()));
    let gone = Entry::tombstone(b"k", 8);
    assert_eq!(gone, Entry { key: b"k".to_vec(), value: None, seq: 8 });
    assert!(gone.is_tombstone());
    assert_eq!(gone.value_bytes(), None);
    assert_eq!(gone.duplicate(), gone);
    assert_eq!(put.duplicate(), put);
}

#[test]
fn is_sorted_tells_sorted_runs_from_others() {
    assert!(is_sorted(&Vec::new()));
    assert!(is_sorted(&vec![Entry::put(b"a", b"", 0)]));
    assert!(is_sorted(&vec![Entry::put(b"a", b"", 0), Entry::put(b"b", b"", 1)]));
    assert!(!is_sorted(&vec![Entry::put(b"b", b"", 0), Entry::put(b"a", b"", 1)]));
    assert!(!is_sorted(&vec![Entry::put(b"a", b"", 0), Entry::put(b"a", b"", 1)]));
    assert!(!is_sorted(&vec![
        Entry::put(b"a", b"", 0),
        Entry::put(b"c", b"", 1),
        Entry::put(b"b", b"", 2)
    ]));
}

#[test]
fn find_slot_finds_keys_and_gaps() {
    let run = vec![Entry::put(b"b", b"", 0), Entry::put(b"d", b"", 1), Entry::put(b"f", b"", 2)];
    let slot = find_slot(&run, b"d");
    assert!(slot.found);
    assert_eq!(slot.index, 1);
    let slot = find_slot(&run, b"a");
    assert!(!slot.found);
    assert_eq!(slot.index, 0);
    let slot = find_slot(&run, b"c");
    assert!(!slot.found);
    assert_eq!(slot.index, 1);
    let slot = find_slot(&run, b"g");
    assert!(!slot.found);
    assert_eq!(slot.index, 3);
    let slot = find_slot(&Vec::new(), b"a");
    assert!(!slot.found);
    assert_eq!(slot.index, 0);
}
