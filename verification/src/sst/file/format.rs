//! The byte layout of a sorted string table.
//!
//! ```text
//! file    = data index trailer footer
//! data    = record*                       records in ascending key order
//! record  = tag:u8 klen:u64 vlen:u64 key value
//! index   = (offset:u64 klen:u64 key)*    one per block: its first key
//! trailer = data_len:u64 blocks:u64
//! footer  = magic:u64 generation:u64 entries:u64 checksum:u64
//! ```
//!
//! Integers are little-endian. A block is a run of whole records: it is
//! closed by the first record that brings it to the block size or beyond. The
//! checksum covers everything before the footer.

use vstd::prelude::*;
use vstd::bytes::{spec_u64_from_le_bytes, spec_u64_to_le_bytes, u64_to_le_bytes};
use crate::entry::{Entry, EntryView};

verus! {

/// Marks the footer of a sorted string table.
pub const MAGIC: u64 = 0x5353_5446_494c_4531;

/// The bytes of a record before its key.
pub const RECORD_HEADER: usize = 17;

/// The bytes of an index entry before its key.
pub const INDEX_HEADER: usize = 16;

/// The bytes of the trailer that ends the index.
pub const TRAILER_LEN: usize = 16;

/// The bytes of the footer.
pub const FOOTER_LEN: usize = 32;

/// Where the checksum starts.
pub const CHECKSUM_BASIS: u64 = 0xcbf2_9ce4_8422_2325;

/// What the checksum is multiplied by after each byte.
pub const CHECKSUM_PRIME: u64 = 0x0000_0100_0000_01b3;

/// The eight little-endian bytes of `x`.
pub open spec fn le64(x: u64) -> Seq<u8> {
    spec_u64_to_le_bytes(x)
}

/// The integer held by the eight bytes at `pos`, little-endian.
pub open spec fn read_le64(bytes: Seq<u8>, pos: int) -> u64 {
    spec_u64_from_le_bytes(bytes.subrange(pos, pos + 8))
}

/// The checksum after one more byte.
pub open spec fn checksum_step(sum: u64, byte: u8) -> u64 {
    (((sum ^ (byte as u64)) as nat * CHECKSUM_PRIME as nat) % 0x1_0000_0000_0000_0000) as u64
}

/// The checksum of a byte string: from the basis, each byte in turn is
/// xor-ed in and the sum multiplied by the prime, modulo 2^64.
pub open spec fn checksum(bytes: Seq<u8>) -> u64
    decreases bytes.len(),
{
    if bytes.len() == 0 {
        CHECKSUM_BASIS
    } else {
        checksum_step(checksum(bytes.drop_last()), bytes.last())
    }
}

/// The tag byte of a record: 0 for a value, 1 for a tombstone.
pub open spec fn record_tag(entry: EntryView) -> u8 {
    if entry.value is None {
        1
    } else {
        0
    }
}

/// The value bytes a record carries; none for a tombstone.
pub open spec fn record_value(entry: EntryView) -> Seq<u8> {
    match entry.value {
        Some(bytes) => bytes,
        None => Seq::empty(),
    }
}

/// The bytes of one record.
pub open spec fn encode_record(entry: EntryView) -> Seq<u8> {
    seq![record_tag(entry)] + le64(entry.key.len() as u64) + le64(
        record_value(entry).len() as u64,
    ) + entry.key + record_value(entry)
}

/// The length of one record.
pub open spec fn record_len(entry: EntryView) -> nat {
    RECORD_HEADER as nat + entry.key.len() + record_value(entry).len()
}

/// The data section: the records of the run, one after the other.
pub open spec fn encode_run(run: Seq<EntryView>) -> Seq<u8>
    decreases run.len(),
{
    if run.len() == 0 {
        Seq::empty()
    } else {
        encode_run(run.drop_last()) + encode_record(run.last())
    }
}

/// Where the record at position `i` of the run starts in the data section.
pub open spec fn offset_of(run: Seq<EntryView>, i: int) -> nat {
    encode_run(run.take(i)).len()
}

/// Where the block that is open after the first `n` records starts.
pub open spec fn block_base(run: Seq<EntryView>, block_size: nat, n: int) -> nat
    decreases n,
{
    if n <= 0 {
        0
    } else {
        let base = block_base(run, block_size, n - 1);
        let end = offset_of(run, n);
        if end - base >= block_size {
            end
        } else {
            base
        }
    }
}

/// The record at position `i` is the first of its block.
pub open spec fn starts_block(run: Seq<EntryView>, block_size: nat, i: int) -> bool {
    block_base(run, block_size, i) == offset_of(run, i)
}

/// One entry of the sparse index.
pub struct IndexEntryView {
    /// The first key of the block.
    pub first_key: Seq<u8>,
    /// Where the block starts in the file.
    pub offset: u64,
}

/// The index entry of the block that the record at position `i` starts.
pub open spec fn index_entry_at(run: Seq<EntryView>, i: int) -> IndexEntryView {
    IndexEntryView { first_key: run[i].key, offset: offset_of(run, i) as u64 }
}

/// The sparse index of the first `n` records: one entry for each record that
/// starts a block.
pub open spec fn index_of(run: Seq<EntryView>, block_size: nat, n: int) -> Seq<IndexEntryView>
    decreases n,
{
    if n <= 0 {
        Seq::empty()
    } else {
        let before = index_of(run, block_size, n - 1);
        if starts_block(run, block_size, n - 1) {
            before.push(index_entry_at(run, n - 1))
        } else {
            before
        }
    }
}

/// The bytes of one index entry.
pub open spec fn encode_index_entry(entry: IndexEntryView) -> Seq<u8> {
    le64(entry.offset) + le64(entry.first_key.len() as u64) + entry.first_key
}

/// The length of one index entry.
pub open spec fn index_entry_len(entry: IndexEntryView) -> nat {
    INDEX_HEADER as nat + entry.first_key.len()
}

/// The index entries, one after the other.
pub open spec fn encode_index(index: Seq<IndexEntryView>) -> Seq<u8>
    decreases index.len(),
{
    if index.len() == 0 {
        Seq::empty()
    } else {
        encode_index(index.drop_last()) + encode_index_entry(index.last())
    }
}

/// The trailer: where the index starts, and how many entries it has.
pub open spec fn encode_trailer(data_len: nat, blocks: nat) -> Seq<u8> {
    le64(data_len as u64) + le64(blocks as u64)
}

/// Everything before the footer.
pub open spec fn payload(run: Seq<EntryView>, block_size: nat) -> Seq<u8> {
    let data = encode_run(run);
    let index = index_of(run, block_size, run.len() as int);
    data + encode_index(index) + encode_trailer(data.len(), index.len())
}

/// The footer.
pub open spec fn encode_footer(generation: u64, entries: nat, sum: u64) -> Seq<u8> {
    le64(MAGIC) + le64(generation) + le64(entries as u64) + le64(sum)
}

/// The whole file for a run: a function of the keys and values of the run,
/// the generation and the block size, and of nothing else.
pub open spec fn sst_bytes(run: Seq<EntryView>, generation: u64, block_size: nat) -> Seq<u8> {
    let body = payload(run, block_size);
    body + encode_footer(generation, run.len(), checksum(body))
}

/// A little-endian integer is eight bytes long and reads back as itself.
pub proof fn lemma_le64(x: u64)
    ensures
        le64(x).len() == 8,
        spec_u64_from_le_bytes(le64(x)) == x,
{
    vstd::bytes::lemma_auto_spec_u64_to_from_le_bytes();
}

/// An integer written at `pos` is read back from there.
pub proof fn lemma_read_le64(bytes: Seq<u8>, pos: int, x: u64)
    requires
        0 <= pos,
        pos + 8 <= bytes.len(),
        bytes.subrange(pos, pos + 8) == le64(x),
    ensures
        read_le64(bytes, pos) == x,
{
    lemma_le64(x);
}

/// The length of a record is the length of its bytes.
pub proof fn lemma_record_len(entry: EntryView)
    ensures
        encode_record(entry).len() == record_len(entry),
        record_len(entry) >= RECORD_HEADER,
{
    lemma_le64(entry.key.len() as u64);
    lemma_le64(record_value(entry).len() as u64);
}

/// The length of an index entry is the length of its bytes.
pub proof fn lemma_index_entry_len(entry: IndexEntryView)
    ensures
        encode_index_entry(entry).len() == index_entry_len(entry),
{
    lemma_le64(entry.offset);
    lemma_le64(entry.first_key.len() as u64);
}

/// One more record is appended to the data of the records before it.
pub proof fn lemma_encode_run_step(run: Seq<EntryView>, n: int)
    requires
        0 <= n < run.len(),
    ensures
        encode_run(run.take(n + 1)) == encode_run(run.take(n)) + encode_record(run[n]),
        offset_of(run, n + 1) == offset_of(run, n) + record_len(run[n]),
{
    assert(run.take(n + 1).drop_last() =~= run.take(n));
    lemma_record_len(run[n]);
}

/// One more entry is appended to the bytes of the index entries before it.
pub proof fn lemma_encode_index_push(index: Seq<IndexEntryView>, entry: IndexEntryView)
    ensures
        encode_index(index.push(entry)) == encode_index(index) + encode_index_entry(entry),
{
    assert(index.push(entry).drop_last() =~= index);
}

/// Appends the eight little-endian bytes of `x`.
pub fn put_le64(out: &mut Vec<u8>, x: u64)
    ensures
        final(out)@ == old(out)@ + le64(x),
{
    let bytes = u64_to_le_bytes(x);
    out.extend_from_slice(bytes.as_slice());
    assert(out@ =~= old(out)@ + le64(x));
}

/// Appends a byte string.
pub fn put_bytes(out: &mut Vec<u8>, bytes: &[u8])
    ensures
        final(out)@ == old(out)@ + bytes@,
{
    out.extend_from_slice(bytes);
    assert(out@ =~= old(out)@ + bytes@);
}

/// Appends the record of an entry.
pub fn put_record(out: &mut Vec<u8>, entry: &Entry)
    ensures
        final(out)@ == old(out)@ + encode_record(entry@),
{
    let ghost before = out@;
    match &entry.value {
        Some(value) => {
            out.push(0u8);
            put_le64(out, entry.key.len() as u64);
            put_le64(out, value.len() as u64);
            put_bytes(out, entry.key.as_slice());
            put_bytes(out, value.as_slice());
        },
        None => {
            out.push(1u8);
            put_le64(out, entry.key.len() as u64);
            put_le64(out, 0u64);
            put_bytes(out, entry.key.as_slice());
        },
    }
    assert(out@ =~= before + encode_record(entry@));
}

/// Appends the index entry of a block.
pub fn put_index_entry(out: &mut Vec<u8>, first_key: &[u8], offset: u64)
    ensures
        final(out)@ == old(out)@ + encode_index_entry(
            IndexEntryView { first_key: first_key@, offset },
        ),
{
    let ghost before = out@;
    put_le64(out, offset);
    put_le64(out, first_key.len() as u64);
    put_bytes(out, first_key);
    assert(out@ =~= before + encode_index_entry(
        IndexEntryView { first_key: first_key@, offset },
    ));
}

/// Computes the checksum of a byte string.
pub fn checksum_of(bytes: &[u8]) -> (sum: u64)
    ensures
        sum == checksum(bytes@),
{
    let mut sum: u64 = CHECKSUM_BASIS;
    let mut i: usize = 0;
    while i < bytes.len()
        invariant
            i <= bytes.len(),
            sum == checksum(bytes@.take(i as int)),
        decreases bytes.len() - i,
    {
        proof {
            assert(bytes@.take(i + 1).drop_last() =~= bytes@.take(i as int));
        }
        sum = (sum ^ (bytes[i] as u64)).wrapping_mul(CHECKSUM_PRIME);
        i = i + 1;
    }
    assert(bytes@.take(bytes.len() as int) =~= bytes@);
    sum
}

/// Two runs hold the same records: the same keys with the same values or
/// tombstones, position by position. Sequence numbers may differ.
pub open spec fn same_records(a: Seq<EntryView>, b: Seq<EntryView>) -> bool {
    &&& a.len() == b.len()
    &&& forall|i: int|
        #![trigger a[i]]
        #![trigger b[i]]
        0 <= i < a.len() ==> a[i].key == b[i].key && a[i].value == b[i].value
}

proof fn lemma_same_layout(a: Seq<EntryView>, b: Seq<EntryView>, block_size: nat, n: int)
    requires
        same_records(a, b),
        0 <= n <= a.len(),
    ensures
        encode_run(a.take(n)) == encode_run(b.take(n)),
        block_base(a, block_size, n) == block_base(b, block_size, n),
        index_of(a, block_size, n) == index_of(b, block_size, n),
    decreases n,
{
    if n == 0 {
        assert(a.take(0) =~= Seq::<EntryView>::empty());
        assert(b.take(0) =~= Seq::<EntryView>::empty());
    } else {
        lemma_same_layout(a, b, block_size, n - 1);
        lemma_encode_run_step(a, n - 1);
        lemma_encode_run_step(b, n - 1);
        assert(encode_record(a[n - 1]) == encode_record(b[n - 1]));
        assert(index_entry_at(a, n - 1) == index_entry_at(b, n - 1));
    }
}

/// Publishing is idempotent: runs with the same records, written as the same
/// generation with the same block size, give the same file, byte for byte.
/// Sequence numbers leave no trace in it.
pub proof fn lemma_same_records_same_file(
    a: Seq<EntryView>,
    b: Seq<EntryView>,
    generation: u64,
    block_size: nat,
)
    requires
        same_records(a, b),
    ensures
        sst_bytes(a, generation, block_size) == sst_bytes(b, generation, block_size),
{
    lemma_same_layout(a, b, block_size, a.len() as int);
    assert(a.take(a.len() as int) =~= a);
    assert(b.take(b.len() as int) =~= b);
}

} // verus!
