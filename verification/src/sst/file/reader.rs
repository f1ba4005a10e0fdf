//! Looks a key up in the bytes of a file.
//!
//! The reader trusts nothing it is given: it checks magic number, checksum
//! and index before it follows an offset, and answers `Corrupt` where the
//! bytes do not parse. A key is located by binary search in the index for the
//! last block whose first key is not larger, and a scan of that block.

use vstd::prelude::*;
use vstd::bytes::u64_from_le_bytes;
use vstd::slice::slice_subrange;
use crate::codec::{
    copy_bytes, key_le, key_lt, key_order, lemma_key_le_iff_not_gt, lemma_key_lt_transitive,
    KeyOrder,
};
use crate::entry::EntryView;
use crate::sst::file::format::{
    checksum, checksum_of, read_le64, IndexEntryView, FOOTER_LEN, INDEX_HEADER, MAGIC,
    RECORD_HEADER, TRAILER_LEN,
};

verus! {

/// Why the bytes of a file could not be read.
#[derive(Clone, Copy, Debug, PartialEq, Eq)]
pub enum SstError {
    /// There is no room for trailer and footer.
    TooShort,
    /// The footer does not start with the magic number.
    BadMagic,
    /// The checksum in the footer is not that of the bytes before it.
    BadChecksum,
    /// Index or records do not parse, or the index is out of order.
    Corrupt,
}

/// What one file says of a key.
#[derive(Clone, Debug, PartialEq, Eq)]
pub enum Lookup {
    /// The file has no record for the key.
    Absent,
    /// The file holds a tombstone for the key.
    Deleted,
    /// The file holds this value for the key.
    Present(Vec<u8>),
}

/// A lookup result as plain data.
pub enum LookupView {
    Absent,
    Deleted,
    Present(Seq<u8>),
}

impl View for Lookup {
    type V = LookupView;

    open spec fn view(&self) -> LookupView {
        match self {
            Lookup::Absent => LookupView::Absent,
            Lookup::Deleted => LookupView::Deleted,
            Lookup::Present(bytes) => LookupView::Present(bytes@),
        }
    }
}

/// What a record with this value says of its key.
pub open spec fn hit(value: Option<Seq<u8>>) -> LookupView {
    match value {
        Some(bytes) => LookupView::Present(bytes),
        None => LookupView::Deleted,
    }
}

/// What a run says of a key, given the entry it has for it.
pub open spec fn lookup_of(found: Option<EntryView>) -> LookupView {
    match found {
        Some(entry) => hit(entry.value),
        None => LookupView::Absent,
    }
}

/// A record read from a file, and where the next one starts.
pub struct RecordView {
    pub key: Seq<u8>,
    pub value: Option<Seq<u8>>,
    pub next: int,
}

/// The record that starts at `pos` and ends at or before `end`, if the bytes
/// there are one.
pub open spec fn parse_record(bytes: Seq<u8>, pos: int, end: int) -> Option<RecordView> {
    if pos < 0 || end > bytes.len() || pos + RECORD_HEADER > end {
        None
    } else {
        let tag = bytes[pos];
        let klen = read_le64(bytes, pos + 1);
        let vlen = read_le64(bytes, pos + 9);
        let key_at = pos + RECORD_HEADER;
        if tag > 1 || (tag == 1 && vlen != 0) || klen + vlen > end - key_at {
            None
        } else {
            let value_at = key_at + klen;
            Some(
                RecordView {
                    key: bytes.subrange(key_at, value_at),
                    value: if tag == 1 {
                        None
                    } else {
                        Some(bytes.subrange(value_at, value_at + vlen))
                    },
                    next: value_at + vlen,
                },
            )
        }
    }
}

/// What the records from `pos` up to `end` say of a key: the first record
/// with the key decides.
pub open spec fn scan(bytes: Seq<u8>, pos: int, end: int, key: Seq<u8>) -> Result<
    LookupView,
    SstError,
>
    decreases end - pos,
{
    if pos >= end {
        Ok(LookupView::Absent)
    } else {
        match parse_record(bytes, pos, end) {
            None => Err(SstError::Corrupt),
            Some(record) => if record.key == key {
                Ok(hit(record.value))
            } else {
                scan(bytes, record.next, end, key)
            },
        }
    }
}

/// An index entry read from a file, and where the next one starts.
pub struct IndexSlotView {
    pub entry: IndexEntryView,
    pub next: int,
}

/// The index entry that starts at `pos` and ends at or before `end`, if the
/// bytes there are one.
pub open spec fn parse_index_entry(bytes: Seq<u8>, pos: int, end: int) -> Option<IndexSlotView> {
    if pos < 0 || end > bytes.len() || pos + INDEX_HEADER > end {
        None
    } else {
        let offset = read_le64(bytes, pos);
        let klen = read_le64(bytes, pos + 8);
        let key_at = pos + INDEX_HEADER;
        if klen > end - key_at {
            None
        } else {
            Some(
                IndexSlotView {
                    entry: IndexEntryView {
                        first_key: bytes.subrange(key_at, key_at + klen),
                        offset,
                    },
                    next: key_at + klen,
                },
            )
        }
    }
}

/// The `count` index entries that fill the bytes from `pos` to `end`
/// exactly, if the bytes there are that.
pub open spec fn parse_index(bytes: Seq<u8>, pos: int, end: int, count: nat) -> Option<
    Seq<IndexEntryView>,
>
    decreases count,
{
    if count == 0 {
        if pos == end {
            Some(Seq::empty())
        } else {
            None
        }
    } else {
        match parse_index_entry(bytes, pos, end) {
            None => None,
            Some(slot) => match parse_index(bytes, slot.next, end, (count - 1) as nat) {
                None => None,
                Some(rest) => Some(seq![slot.entry] + rest),
            },
        }
    }
}

/// The index is in order: first keys and offsets ascend strictly, the first
/// block starts at 0, every block starts inside the data, and there is a
/// block wherever there is data.
pub open spec fn index_ok(index: Seq<IndexEntryView>, data_len: int) -> bool {
    &&& forall|i: int, j: int|
        #![trigger index[i], index[j]]
        0 <= i < j < index.len() ==> index[i].offset < index[j].offset && key_lt(
            index[i].first_key,
            index[j].first_key,
        )
    &&& forall|i: int| #![trigger index[i]] 0 <= i < index.len() ==> index[i].offset < data_len
    &&& index.len() > 0 ==> index[0].offset == 0
    &&& data_len > 0 ==> index.len() > 0
}

/// What footer and index of a file say.
pub struct SstIndexView {
    pub generation: u64,
    pub entry_count: u64,
    pub data_len: int,
    pub index: Seq<IndexEntryView>,
}

/// Footer and index of a file, or why they cannot be read. The checks come
/// in this order: length, magic number, checksum, index.
pub open spec fn parse_meta(bytes: Seq<u8>) -> Result<SstIndexView, SstError> {
    if bytes.len() < FOOTER_LEN + TRAILER_LEN {
        Err(SstError::TooShort)
    } else {
        let footer_at = bytes.len() - FOOTER_LEN;
        let trailer_at = footer_at - TRAILER_LEN;
        let data_len = read_le64(bytes, trailer_at);
        let blocks = read_le64(bytes, trailer_at + 8);
        if read_le64(bytes, footer_at) != MAGIC {
            Err(SstError::BadMagic)
        } else if read_le64(bytes, footer_at + 24) != checksum(bytes.subrange(0, footer_at)) {
            Err(SstError::BadChecksum)
        } else if data_len > trailer_at {
            Err(SstError::Corrupt)
        } else {
            match parse_index(bytes, data_len as int, trailer_at, blocks as nat) {
                None => Err(SstError::Corrupt),
                Some(index) => if index_ok(index, data_len as int) {
                    Ok(
                        SstIndexView {
                            generation: read_le64(bytes, footer_at + 8),
                            entry_count: read_le64(bytes, footer_at + 16),
                            data_len: data_len as int,
                            index,
                        },
                    )
                } else {
                    Err(SstError::Corrupt)
                },
            }
        }
    }
}

/// Block `b` is the one to search for `key`: its first key is not larger
/// than `key`, and the first key of the next block, if there is one, is.
pub open spec fn covers(index: Seq<IndexEntryView>, key: Seq<u8>, b: int) -> bool {
    &&& 0 <= b < index.len()
    &&& key_le(index[b].first_key, key)
    &&& b + 1 < index.len() ==> key_lt(key, index[b + 1].first_key)
}

/// The block to search for `key`; none where `key` is smaller than every
/// first key.
pub open spec fn locate(index: Seq<IndexEntryView>, key: Seq<u8>) -> Option<int> {
    if exists|b: int| covers(index, key, b) {
        Some(choose|b: int| covers(index, key, b))
    } else {
        None
    }
}

/// Where block `b` ends: where the next block starts, or the data ends.
pub open spec fn block_end(meta: SstIndexView, b: int) -> int {
    if b + 1 < meta.index.len() {
        meta.index[b + 1].offset as int
    } else {
        meta.data_len
    }
}

/// What a file with this footer and index says of a key.
pub open spec fn lookup_with(meta: SstIndexView, bytes: Seq<u8>, key: Seq<u8>) -> Result<
    LookupView,
    SstError,
> {
    match locate(meta.index, key) {
        None => Ok(LookupView::Absent),
        Some(b) => scan(bytes, meta.index[b].offset as int, block_end(meta, b), key),
    }
}

/// What the bytes of a file say of a key.
pub open spec fn spec_lookup(bytes: Seq<u8>, key: Seq<u8>) -> Result<LookupView, SstError> {
    match parse_meta(bytes) {
        Err(e) => Err(e),
        Ok(meta) => lookup_with(meta, bytes, key),
    }
}

/// In an index that is in order one block at most covers a key.
pub proof fn lemma_covers_unique(
    index: Seq<IndexEntryView>,
    data_len: int,
    key: Seq<u8>,
    a: int,
    b: int,
)
    requires
        index_ok(index, data_len),
        covers(index, key, a),
        covers(index, key, b),
    ensures
        a == b,
{
    if a < b {
        // key < first key of block a + 1 <= first key of block b <= key
        lemma_key_le_iff_not_gt(index[b].first_key, key);
        if a + 1 < b {
            assert(key_lt(index[a + 1].first_key, index[b].first_key));
            lemma_key_lt_transitive(key, index[a + 1].first_key, index[b].first_key);
        }
    } else if b < a {
        lemma_key_le_iff_not_gt(index[a].first_key, key);
        if b + 1 < a {
            assert(key_lt(index[b + 1].first_key, index[a].first_key));
            lemma_key_lt_transitive(key, index[b + 1].first_key, index[a].first_key);
        }
    }
}

fn read_u64(bytes: &[u8], pos: usize) -> (x: u64)
    requires
        pos + 8 <= bytes@.len(),
    ensures
        x == read_le64(bytes@, pos as int),
{
    let len = bytes.len();
    assert(pos + 8 <= len);
    u64_from_le_bytes(slice_subrange(bytes, pos, pos + 8))
}

/// Scans the records from `start` up to `end` for a key.
pub fn scan_block(bytes: &[u8], start: usize, end: usize, key: &[u8]) -> (r: Result<
    Lookup,
    SstError,
>)
    ensures
        match r {
            Ok(found) => scan(bytes@, start as int, end as int, key@) == Ok::<
                LookupView,
                SstError,
            >(found@),
            Err(e) => scan(bytes@, start as int, end as int, key@) == Err::<LookupView, SstError>(
                e,
            ),
        },
{
    let mut pos = start;
    while pos < end
        invariant
            scan(bytes@, pos as int, end as int, key@) == scan(
                bytes@,
                start as int,
                end as int,
                key@,
            ),
        decreases end - pos,
    {
        if end > bytes.len() || end - pos < RECORD_HEADER {
            return Err(SstError::Corrupt);
        }
        let tag = bytes[pos];
        let klen = read_u64(bytes, pos + 1);
        let vlen = read_u64(bytes, pos + 9);
        let key_at = pos + RECORD_HEADER;
        let room = (end - key_at) as u64;
        if tag > 1 || (tag == 1 && vlen != 0) || klen > room || vlen > room - klen {
            return Err(SstError::Corrupt);
        }
        let value_at = key_at + klen as usize;
        let next = value_at + vlen as usize;
        match key_order(slice_subrange(bytes, key_at, value_at), key) {
            KeyOrder::Equal => {
                if tag == 1 {
                    return Ok(Lookup::Deleted);
                }
                return Ok(Lookup::Present(copy_bytes(slice_subrange(bytes, value_at, next))));
            },
            _ => {},
        }
        pos = next;
    }
    Ok(Lookup::Absent)
}

/// One entry of a decoded index.
#[derive(Clone, Debug, PartialEq, Eq)]
pub struct IndexEntry {
    /// The first key of the block.
    pub first_key: Vec<u8>,
    /// Where the block starts in the file.
    pub offset: u64,
}

impl View for IndexEntry {
    type V = IndexEntryView;

    open spec fn view(&self) -> IndexEntryView {
        IndexEntryView { first_key: self.first_key@, offset: self.offset }
    }
}

/// The entries of a decoded index as plain data.
pub open spec fn index_views(blocks: Seq<IndexEntry>) -> Seq<IndexEntryView> {
    blocks.map_values(|e: IndexEntry| e@)
}

/// Footer and index of a file, decoded and checked.
#[derive(Clone, Debug, PartialEq, Eq)]
pub struct SstIndex {
    /// The generation the file was flushed as.
    pub generation: u64,
    /// The number of records in the file.
    pub entry_count: u64,
    /// The length of the data section, which is where the index starts.
    pub data_len: usize,
    /// One entry per block.
    pub blocks: Vec<IndexEntry>,
}

impl View for SstIndex {
    type V = SstIndexView;

    open spec fn view(&self) -> SstIndexView {
        SstIndexView {
            generation: self.generation,
            entry_count: self.entry_count,
            data_len: self.data_len as int,
            index: index_views(self.blocks@),
        }
    }
}

fn read_index(bytes: &[u8], start: usize, end: usize, count: u64) -> (r: Option<Vec<IndexEntry>>)
    requires
        start <= end <= bytes@.len(),
    ensures
        match r {
            Some(blocks) => parse_index(bytes@, start as int, end as int, count as nat) == Some(
                index_views(blocks@),
            ),
            None => parse_index(bytes@, start as int, end as int, count as nat) is None,
        },
{
    let mut blocks: Vec<IndexEntry> = Vec::new();
    let mut pos = start;
    let mut left = count;
    let ghost whole = parse_index(bytes@, start as int, end as int, count as nat);
    assert(Seq::<IndexEntryView>::empty() + parse_index(
        bytes@,
        start as int,
        end as int,
        count as nat,
    )->0 =~= parse_index(bytes@, start as int, end as int, count as nat)->0);
    while left > 0
        invariant
            start <= pos <= end <= bytes@.len(),
            whole == parse_index(bytes@, start as int, end as int, count as nat),
            whole == match parse_index(bytes@, pos as int, end as int, left as nat) {
                Some(rest) => Some(index_views(blocks@) + rest),
                None => None,
            },
        decreases left,
    {
        if end - pos < INDEX_HEADER {
            return None;
        }
        let offset = read_u64(bytes, pos);
        let klen = read_u64(bytes, pos + 8);
        let key_at = pos + INDEX_HEADER;
        if klen > (end - key_at) as u64 {
            return None;
        }
        let next = key_at + klen as usize;
        let first_key = copy_bytes(slice_subrange(bytes, key_at, next));
        let entry = IndexEntry { first_key, offset };
        proof {
            let slot = parse_index_entry(bytes@, pos as int, end as int)->0;
            assert(slot.entry == entry@);
            let before = index_views(blocks@);
            let after = index_views(blocks@.push(entry));
            assert(after =~= before.push(entry@));
            match parse_index(bytes@, next as int, end as int, (left - 1) as nat) {
                Some(rest) => {
                    assert(before + (seq![entry@] + rest) =~= after + rest);
                },
                None => {},
            }
        }
        blocks.push(entry);
        pos = next;
        left = left - 1;
    }
    if pos == end {
        assert(index_views(blocks@) + Seq::<IndexEntryView>::empty() =~= index_views(blocks@));
        Some(blocks)
    } else {
        None
    }
}

fn index_in_order(blocks: &Vec<IndexEntry>, data_len: usize) -> (r: bool)
    ensures
        r <==> index_ok(index_views(blocks@), data_len as int),
{
    let ghost index = index_views(blocks@);
    if blocks.len() == 0 {
        return data_len == 0;
    }
    if blocks[0].offset != 0 || data_len == 0 {
        proof {
            if data_len == 0 {
                assert(!(index[0].offset < data_len));
            }
        }
        return false;
    }
    let mut i: usize = 1;
    while i < blocks.len()
        invariant
            1 <= i <= blocks.len(),
            index == index_views(blocks@),
            data_len > 0,
            index[0].offset == 0,
            forall|a: int, b: int|
                #![trigger index[a], index[b]]
                0 <= a < b < i ==> index[a].offset < index[b].offset && key_lt(
                    index[a].first_key,
                    index[b].first_key,
                ),
            forall|a: int| #![trigger index[a]] 0 <= a < i ==> index[a].offset < data_len,
        decreases blocks.len() - i,
    {
        let ghost prev = index[i - 1];
        let ghost this = index[i as int];
        let ascending = match key_order(
            blocks[i - 1].first_key.as_slice(),
            blocks[i].first_key.as_slice(),
        ) {
            KeyOrder::Less => true,
            _ => false,
        };
        if !ascending || blocks[i - 1].offset >= blocks[i].offset || blocks[i].offset
            >= data_len as u64 {
            proof {
                assert(prev == index[i - 1] && this == index[i as int]);
            }
            return false;
        }
        proof {
            assert forall|a: int, b: int| 0 <= a < b < i + 1 implies index[a].offset
                < index[b].offset && key_lt(index[a].first_key, index[b].first_key) by {
                if b == i && a < i - 1 {
                    assert(index[a].offset < prev.offset);
                    assert(key_lt(index[a].first_key, prev.first_key));
                    lemma_key_lt_transitive(index[a].first_key, prev.first_key, this.first_key);
                }
            }
        }
        i = i + 1;
    }
    true
}

impl SstIndex {
    /// The index is in order.
    pub open spec fn wf(&self) -> bool {
        index_ok(self@.index, self@.data_len)
    }

    /// Reads and checks footer and index of a file.
    pub fn decode(bytes: &[u8]) -> (r: Result<SstIndex, SstError>)
        ensures
            match r {
                Ok(meta) => parse_meta(bytes@) == Ok::<SstIndexView, SstError>(meta@) && meta.wf(),
                Err(e) => parse_meta(bytes@) == Err::<SstIndexView, SstError>(e),
            },
    {
        if bytes.len() < FOOTER_LEN + TRAILER_LEN {
            return Err(SstError::TooShort);
        }
        let footer_at = bytes.len() - FOOTER_LEN;
        let trailer_at = footer_at - TRAILER_LEN;
        if read_u64(bytes, footer_at) != MAGIC {
            return Err(SstError::BadMagic);
        }
        if read_u64(bytes, footer_at + 24) != checksum_of(slice_subrange(bytes, 0, footer_at)) {
            return Err(SstError::BadChecksum);
        }
        let data_len = read_u64(bytes, trailer_at);
        let count = read_u64(bytes, trailer_at + 8);
        if data_len > trailer_at as u64 {
            return Err(SstError::Corrupt);
        }
        let data_len = data_len as usize;
        match read_index(bytes, data_len, trailer_at, count) {
            None => Err(SstError::Corrupt),
            Some(blocks) => {
                if !index_in_order(&blocks, data_len) {
                    return Err(SstError::Corrupt);
                }
                Ok(
                    SstIndex {
                        generation: read_u64(bytes, footer_at + 8),
                        entry_count: read_u64(bytes, footer_at + 16),
                        data_len,
                        blocks,
                    },
                )
            },
        }
    }

    /// Finds the block to search for `key` by binary search: the last one
    /// whose first key is not larger than `key`.
    pub fn locate(&self, key: &[u8]) -> (r: Option<usize>)
        requires
            self.wf(),
        ensures
            match r {
                Some(b) => locate(self@.index, key@) == Some(b as int) && covers(
                    self@.index,
                    key@,
                    b as int,
                ),
                None => locate(self@.index, key@) is None,
            },
    {
        let ghost index = self@.index;
        let mut lo: usize = 0;
        let mut hi: usize = self.blocks.len();
        while lo < hi
            invariant
                lo <= hi <= self.blocks.len(),
                index == self@.index,
                index_ok(index, self@.data_len),
                forall|i: int|
                    #![trigger index[i]]
                    0 <= i < lo ==> key_le(index[i].first_key, key@),
                forall|i: int|
                    #![trigger index[i]]
                    hi <= i < index.len() ==> key_lt(key@, index[i].first_key),
            decreases hi - lo,
        {
            let mid = lo + (hi - lo) / 2;
            let ghost pivot = index[mid as int];
            match key_order(self.blocks[mid].first_key.as_slice(), key) {
                KeyOrder::Greater => {
                    proof {
                        assert forall|i: int| mid <= i < index.len() implies key_lt(
                            key@,
                            (#[trigger] index[i]).first_key,
                        ) by {
                            if i > mid {
                                assert(key_lt(pivot.first_key, index[i].first_key));
                                lemma_key_lt_transitive(key@, pivot.first_key, index[i].first_key);
                            }
                        }
                    }
                    hi = mid;
                },
                _ => {
                    proof {
                        assert(key_le(pivot.first_key, key@));
                        assert forall|i: int| 0 <= i < mid + 1 implies key_le(
                            (#[trigger] index[i]).first_key,
                            key@,
                        ) by {
                            if i < mid {
                                assert(key_lt(index[i].first_key, pivot.first_key));
                                if pivot.first_key != key@ {
                                    lemma_key_lt_transitive(
                                        index[i].first_key,
                                        pivot.first_key,
                                        key@,
                                    );
                                }
                            }
                        }
                    }
                    lo = mid + 1;
                },
            }
        }
        if lo == 0 {
            proof {
                assert forall|b: int| !covers(index, key@, b) by {
                    if 0 <= b < index.len() {
                        assert(key_lt(key@, index[b].first_key));
                        lemma_key_le_iff_not_gt(index[b].first_key, key@);
                    }
                }
            }
            None
        } else {
            let b = lo - 1;
            proof {
                assert(key_le(index[b as int].first_key, key@));
                if b + 1 < index.len() {
                    assert(key_lt(key@, index[b + 1].first_key));
                }
                assert(covers(index, key@, b as int));
                let chosen = choose|c: int| covers(index, key@, c);
                lemma_covers_unique(index, self@.data_len, key@, chosen, b as int);
            }
            Some(b)
        }
    }

    /// Looks a key up in the file this index was decoded from.
    pub fn lookup_in(&self, bytes: &[u8], key: &[u8]) -> (r: Result<Lookup, SstError>)
        requires
            self.wf(),
        ensures
            match r {
                Ok(found) => lookup_with(self@, bytes@, key@) == Ok::<LookupView, SstError>(
                    found@,
                ),
                Err(e) => lookup_with(self@, bytes@, key@) == Err::<LookupView, SstError>(e),
            },
    {
        match self.locate(key) {
            None => Ok(Lookup::Absent),
            Some(b) => {
                let start = self.blocks[b].offset as usize;
                let blocks = self.blocks.len();
                let end = if b + 1 < blocks {
                    self.blocks[b + 1].offset as usize
                } else {
                    self.data_len
                };
                scan_block(bytes, start, end, key)
            },
        }
    }
}

/// Looks a key up in the bytes of a file.
pub fn lookup(bytes: &[u8], key: &[u8]) -> (r: Result<Lookup, SstError>)
    ensures
        match r {
            Ok(found) => spec_lookup(bytes@, key@) == Ok::<LookupView, SstError>(found@),
            Err(e) => spec_lookup(bytes@, key@) == Err::<LookupView, SstError>(e),
        },
{
    match SstIndex::decode(bytes) {
        Err(e) => Err(e),
        Ok(meta) => meta.lookup_in(bytes, key),
    }
}

} // verus!
