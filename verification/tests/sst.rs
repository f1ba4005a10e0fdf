use sstkv::entry::Entry;
use sstkv::sst::file::format::{checksum_of, put_le64, FOOTER_LEN, MAGIC};
use sstkv::sst::file::reader::{lookup, scan_block, Lookup, SstError, SstIndex};
use sstkv::sst::file::naming::object_key;
use sstkv::sst::file::writer::{SSTHandle, SstFile, StoreError, WriteError, Writer};

const ONE_ENTRY_FILE: [u8; 84] = [
    0, 1, 0, 0, 0, 0, 0, 0, 0, 1, 0, 0, 0, 0, 0, 0, 0, 107, 118, 0, 0, 0, 0, 0, 0, 0, 0, 1, 0, 0,
    0, 0, 0, 0, 0, 107, 19, 0, 0, 0, 0, 0, 0, 0, 1, 0, 0, 0, 0, 0, 0, 0, 49, 69, 76, 73, 70, 84,
    83, 83, 1, 0, 0, 0, 0, 0, 0, 0, 1, 0, 0, 0, 0, 0, 0, 0, 174, 94, 42, 240, 38, 75, 17, 165,
];

const TWO_BLOCK_FILE: [u8; 139] = [
    0, 1, 0, 0, 0, 0, 0, 0, 0, 1, 0, 0, 0, 0, 0, 0, 0, 97, 49, 1, 1, 0, 0, 0, 0, 0, 0, 0, 0, 0, 0,
    0, 0, 0, 0, 0, 98, 0, 1, 0, 0, 0, 0, 0, 0, 0, 2, 0, 0, 0, 0, 0, 0, 0, 99, 51, 51, 0, 0, 0, 0,
    0, 0, 0, 0, 1, 0, 0, 0, 0, 0, 0, 0, 97, 37, 0, 0, 0, 0, 0, 0, 0, 1, 0, 0, 0, 0, 0, 0, 0, 99,
    57, 0, 0, 0, 0, 0, 0, 0, 2, 0, 0, 0, 0, 0, 0, 0, 49, 69, 76, 73, 70, 84, 83, 83, 7, 0, 0, 0,
    0, 0, 0, 0, 3, 0, 0, 0, 0, 0, 0, 0, 117, 156, 224, 37, 151, 179, 61, 49,
];

fn three_entries() -> Vec<Entry> {
    vec![Entry::put(b"a", b"1", 10), Entry::tombstone(b"b", 11), Entry::put(b"c", b"33", 12)]
}

fn numbered(n: usize) -> Vec<Entry> {
    (0..n)
        .map(|i| {
            let key = format!("key-{:05}", 2 * i);
            let value = format!("value of {}", 2 * i);
            Entry::put(key.as_bytes(), value.as_bytes(), i as u64)
        })
        .collect()
}

fn reseal(file: &mut Vec<u8>) {
    let body = file.len() - FOOTER_LEN;
    let sum = checksum_of(&file[..body]);
    file.truncate(file.len() - 8);
    put_le64(file, sum);
}

#[test]
fn checksum_of_known_strings() {
    assert_eq!(checksum_of(b""), 0xcbf2_9ce4_8422_2325);
    assert_eq!(checksum_of(b"a"), 0xaf63_dc4c_8601_ec8c);
    assert_eq!(checksum_of(b"foobar"), 0x8594_4171_f739_67e8);
}

#[test]
fn integers_are_written_little_endian() {
    let mut out = vec![9u8];
    put_le64(&mut out, 0x0102_0304_0506_0708);
    assert_eq!(out, vec![9, 8, 7, 6, 5, 4, 3, 2, 1]);
}

#[test]
fn object_keys_are_zero_padded_generations() {
    assert_eq!(object_key(0), "sst-00000000000000000000.sst");
    assert_eq!(object_key(7), "sst-00000000000000000007.sst");
    assert_eq!(object_key(1234567890), "sst-00000000001234567890.sst");
    assert_eq!(object_key(u64::MAX), "sst-18446744073709551615.sst");
    assert!(object_key(9) < object_key(10));
    assert!(object_key(99) < object_key(100));
}

#[test]
fn an_empty_run_is_not_written() {
    let writer = Writer::new(4096);
    assert_eq!(writer.build(&Vec::new(), 1), Err(WriteError::Empty));
}

#[test]
fn the_file_of_one_entry_byte_for_byte() {
    let writer = Writer::new(4096);
    let file = writer.build(&vec![Entry::put(b"k", b"v", 0)], 1).unwrap();
    assert_eq!(file.bytes, ONE_ENTRY_FILE.to_vec());
    assert_eq!(
        file.handle,
        SSTHandle {
            object_id: "sst-00000000000000000001.sst".to_string(),
            first_key: b"k".to_vec(),
            last_key: b"k".to_vec(),
            generation: 1,
        }
    );
}

#[test]
fn the_file_of_two_blocks_byte_for_byte() {
    let writer = Writer::new(20);
    assert_eq!(writer.block_size(), 20);
    let file = writer.build(&three_entries(), 7).unwrap();
    assert_eq!(file.bytes, TWO_BLOCK_FILE.to_vec());
    assert_eq!(file.handle.first_key, b"a".to_vec());
    assert_eq!(file.handle.last_key, b"c".to_vec());
    assert_eq!(file.handle.generation, 7);
    assert_eq!(file.handle.object_id, "sst-00000000000000000007.sst");
}

#[test]
fn publishing_twice_gives_the_same_bytes() {
    let writer = Writer::new(64);
    let entries = numbered(50);
    let first = writer.build(&entries, 3).unwrap();
    let second = writer.build(&entries, 3).unwrap();
    assert_eq!(first.bytes, second.bytes);
    assert_eq!(first.handle, second.handle);
    // sequence numbers leave no trace in the file
    let mut renumbered = entries.clone();
    for entry in renumbered.iter_mut() {
        entry.seq += 1000;
    }
    assert_eq!(writer.build(&renumbered, 3).unwrap().bytes, first.bytes);
    // the generation does
    assert_ne!(writer.build(&entries, 4).unwrap().bytes, first.bytes);
}

#[test]
fn published_follows_the_put() {
    let writer = Writer::new(4096);
    let file = writer.build(&three_entries(), 2).unwrap();
    let handle = file.handle.clone();
    assert_eq!(Writer::published(file.clone(), Ok(())), Ok(handle));
    assert_eq!(
        Writer::published(file, Err(StoreError { reason: "timed out".to_string() })),
        Err(WriteError::ObjectStoreUnavailable)
    );
}

#[test]
fn footer_and_index_are_decoded() {
    let meta = SstIndex::decode(&TWO_BLOCK_FILE).unwrap();
    assert_eq!(meta.generation, 7);
    assert_eq!(meta.entry_count, 3);
    assert_eq!(meta.data_len, 57);
    assert_eq!(meta.blocks.len(), 2);
    assert_eq!(meta.blocks[0].first_key, b"a".to_vec());
    assert_eq!(meta.blocks[0].offset, 0);
    assert_eq!(meta.blocks[1].first_key, b"c".to_vec());
    assert_eq!(meta.blocks[1].offset, 37);
    assert_eq!(meta.locate(b"a"), Some(0));
    assert_eq!(meta.locate(b"b"), Some(0));
    assert_eq!(meta.locate(b"bzz"), Some(0));
    assert_eq!(meta.locate(b"c"), Some(1));
    assert_eq!(meta.locate(b"zzz"), Some(1));
    assert_eq!(meta.locate(b""), None);
    assert_eq!(meta.locate(b"A"), None);
    assert_eq!(meta.lookup_in(&TWO_BLOCK_FILE, b"c"), Ok(Lookup::Present(b"33".to_vec())));
}

#[test]
fn lookup_finds_values_and_tombstones() {
    assert_eq!(lookup(&TWO_BLOCK_FILE, b"a"), Ok(Lookup::Present(b"1".to_vec())));
    assert_eq!(lookup(&TWO_BLOCK_FILE, b"b"), Ok(Lookup::Deleted));
    assert_eq!(lookup(&TWO_BLOCK_FILE, b"c"), Ok(Lookup::Present(b"33".to_vec())));
    assert_eq!(lookup(&TWO_BLOCK_FILE, b""), Ok(Lookup::Absent));
    assert_eq!(lookup(&TWO_BLOCK_FILE, b"ab"), Ok(Lookup::Absent));
    assert_eq!(lookup(&TWO_BLOCK_FILE, b"bb"), Ok(Lookup::Absent));
    assert_eq!(lookup(&TWO_BLOCK_FILE, b"d"), Ok(Lookup::Absent));
    assert_eq!(lookup(&ONE_ENTRY_FILE, b"k"), Ok(Lookup::Present(b"v".to_vec())));
}

#[test]
fn what_is_written_is_read_back() {
    for block_size in [0usize, 1, 40, 64, 100, 4096, usize::MAX] {
        let writer = Writer::new(block_size);
        let entries = numbered(120);
        let file = writer.build(&entries, 9).unwrap();
        for (i, entry) in entries.iter().enumerate() {
            assert_eq!(
                lookup(&file.bytes, &entry.key),
                Ok(Lookup::Present(entry.value.clone().unwrap()))
            );
            let between = format!("key-{:05}", 2 * i + 1);
            assert_eq!(lookup(&file.bytes, between.as_bytes()), Ok(Lookup::Absent));
        }
        assert_eq!(lookup(&file.bytes, b"key-"), Ok(Lookup::Absent));
        assert_eq!(lookup(&file.bytes, b"zzz"), Ok(Lookup::Absent));
        let meta = SstIndex::decode(&file.bytes).unwrap();
        assert_eq!(meta.generation, 9);
        assert_eq!(meta.entry_count, 120);
    }
}

#[test]
fn block_size_decides_the_number_of_blocks() {
    let entries = numbered(10);
    let each = Writer::new(0).build(&entries, 1).unwrap();
    assert_eq!(SstIndex::decode(&each.bytes).unwrap().blocks.len(), 10);
    let one = Writer::new(usize::MAX).build(&entries, 1).unwrap();
    assert_eq!(SstIndex::decode(&one.bytes).unwrap().blocks.len(), 1);
    // a record of numbered() takes 17 + 9 + 10 = 36 bytes: two reach 64
    let pairs = Writer::new(64).build(&entries, 1).unwrap();
    let meta = SstIndex::decode(&pairs.bytes).unwrap();
    assert_eq!(meta.blocks.len(), 5);
    assert_eq!(meta.blocks[1].offset, 72);
    assert_eq!(meta.blocks[1].first_key, b"key-00004".to_vec());
}

#[test]
fn a_short_file_is_too_short() {
    assert_eq!(lookup(b"", b"k"), Err(SstError::TooShort));
    assert_eq!(lookup(&ONE_ENTRY_FILE[..47], b"k"), Err(SstError::TooShort));
    assert_eq!(SstIndex::decode(&[0u8; 47]), Err(SstError::TooShort));
}

#[test]
fn a_wrong_magic_number_is_told() {
    let mut file = ONE_ENTRY_FILE.to_vec();
    file[52] ^= 1;
    assert_eq!(lookup(&file, b"k"), Err(SstError::BadMagic));
    assert_eq!(lookup(&[0u8; 48], b"k"), Err(SstError::BadMagic));
    assert_eq!(MAGIC.to_le_bytes(), *b"1ELIFTSS");
}

#[test]
fn a_changed_byte_fails_the_checksum() {
    for at in [0usize, 17, 18, 30, 36, 51] {
        let mut file = ONE_ENTRY_FILE.to_vec();
        file[at] ^= 0x40;
        assert_eq!(lookup(&file, b"k"), Err(SstError::BadChecksum));
    }
    let mut file = ONE_ENTRY_FILE.to_vec();
    file[83] ^= 1;
    assert_eq!(lookup(&file, b"k"), Err(SstError::BadChecksum));
}

#[test]
fn a_file_that_does_not_parse_is_corrupt() {
    // a tag that is neither value nor tombstone
    let mut file = ONE_ENTRY_FILE.to_vec();
    file[0] = 2;
    reseal(&mut file);
    assert_eq!(lookup(&file, b"k"), Err(SstError::Corrupt));
    // a key longer than the block
    let mut file = ONE_ENTRY_FILE.to_vec();
    file[1] = 200;
    reseal(&mut file);
    assert_eq!(lookup(&file, b"k"), Err(SstError::Corrupt));
    // a tombstone with a value
    let mut file = ONE_ENTRY_FILE.to_vec();
    file[0] = 1;
    reseal(&mut file);
    assert_eq!(lookup(&file, b"k"), Err(SstError::Corrupt));
    // an index that starts beyond the trailer
    let mut file = ONE_ENTRY_FILE.to_vec();
    file[36] = 200;
    reseal(&mut file);
    assert_eq!(lookup(&file, b"k"), Err(SstError::Corrupt));
    // more index entries than there are
    let mut file = ONE_ENTRY_FILE.to_vec();
    file[44] = 2;
    reseal(&mut file);
    assert_eq!(lookup(&file, b"k"), Err(SstError::Corrupt));
    // a first block that does not start at 0
    let mut file = ONE_ENTRY_FILE.to_vec();
    file[19] = 1;
    reseal(&mut file);
    assert_eq!(lookup(&file, b"k"), Err(SstError::Corrupt));
    // index keys out of order
    let mut file = TWO_BLOCK_FILE.to_vec();
    file[73] = b'z';
    reseal(&mut file);
    assert_eq!(lookup(&file, b"c"), Err(SstError::Corrupt));
}

#[test]
fn scan_block_reads_the_records_of_a_stretch() {
    assert_eq!(scan_block(&TWO_BLOCK_FILE, 0, 37, b"b"), Ok(Lookup::Deleted));
    assert_eq!(scan_block(&TWO_BLOCK_FILE, 0, 37, b"c"), Ok(Lookup::Absent));
    assert_eq!(scan_block(&TWO_BLOCK_FILE, 37, 57, b"c"), Ok(Lookup::Present(b"33".to_vec())));
    assert_eq!(scan_block(&TWO_BLOCK_FILE, 0, 0, b"a"), Ok(Lookup::Absent));
    assert_eq!(scan_block(&TWO_BLOCK_FILE, 1, 37, b"b"), Err(SstError::Corrupt));
    assert_eq!(scan_block(&TWO_BLOCK_FILE, 0, 1000, b"zz"), Err(SstError::Corrupt));
    assert_eq!(scan_block(&TWO_BLOCK_FILE, 0, 30, b"b"), Err(SstError::Corrupt));
}

#[test]
fn files_are_plain_values() {
    let file = Writer::new(8).build(&three_entries(), 5).unwrap();
    let copy = SstFile { handle: file.handle.duplicate(), bytes: file.bytes.clone() };
    assert_eq!(copy, file);
}
