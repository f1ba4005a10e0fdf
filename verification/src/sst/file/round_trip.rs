//! What is written is read back: a key looked up in the file of a sorted run
//! gets the answer the run gives.

use vstd::prelude::*;
use crate::codec::{
    key_le, key_lt, lemma_key_le_iff_not_gt, lemma_key_lt_asymmetric, lemma_key_lt_irreflexive,
    lemma_key_lt_transitive,
};
use crate::entry::{holds_at, is_sorted_run, lemma_run_find_at, run_contains, run_find, EntryView};
use crate::sst::file::format::{
    checksum, encode_footer, encode_index, encode_index_entry, encode_record, encode_run,
    encode_trailer, index_entry_at, index_entry_len, index_of, le64, lemma_encode_run_step,
    lemma_index_entry_len, lemma_le64, lemma_read_le64, lemma_record_len, offset_of, payload,
    record_len, record_tag, record_value, sst_bytes, starts_block, IndexEntryView, INDEX_HEADER,
    MAGIC, RECORD_HEADER,
};
use crate::sst::file::reader::{
    block_end, covers, hit, index_ok, lookup_of, parse_index, parse_index_entry, parse_meta,
    parse_record, scan, spec_lookup, IndexSlotView, LookupView, RecordView, SstError, SstIndexView,
};

verus! {

/// Records start further on the later they come, each by its own length.
pub proof fn lemma_offsets_ascend(run: Seq<EntryView>, i: int, j: int)
    requires
        0 <= i <= j <= run.len(),
    ensures
        offset_of(run, i) <= offset_of(run, j),
        i < j ==> offset_of(run, i) + record_len(run[i]) <= offset_of(run, j),
        offset_of(run, j) >= RECORD_HEADER * j,
    decreases j,
{
    if j == 0 {
        assert(run.take(0) =~= Seq::<EntryView>::empty());
    } else {
        lemma_encode_run_step(run, j - 1);
        if i < j {
            lemma_offsets_ascend(run, i, j - 1);
        } else {
            lemma_offsets_ascend(run, i - 1, j - 1);
        }
    }
}

/// The data of the whole run ends where a record after the last would start.
pub proof fn lemma_offset_of_end(run: Seq<EntryView>)
    ensures
        offset_of(run, run.len() as int) == encode_run(run).len(),
        offset_of(run, 0) == 0,
{
    assert(run.take(run.len() as int) =~= run);
    assert(run.take(0) =~= Seq::<EntryView>::empty());
}

/// Each record stands in the data at its offset.
pub proof fn lemma_record_in_data(run: Seq<EntryView>, i: int, m: int)
    requires
        0 <= i < m <= run.len(),
    ensures
        offset_of(run, i + 1) <= encode_run(run.take(m)).len(),
        encode_run(run.take(m)).subrange(offset_of(run, i) as int, offset_of(run, i + 1) as int)
            == encode_record(run[i]),
    decreases m,
{
    lemma_encode_run_step(run, m - 1);
    lemma_record_len(run[m - 1]);
    let data = encode_run(run.take(m));
    let from = offset_of(run, i) as int;
    let to = offset_of(run, i + 1) as int;
    if m == i + 1 {
        assert(data.subrange(from, to) =~= encode_record(run[i]));
    } else {
        lemma_record_in_data(run, i, m - 1);
        lemma_offsets_ascend(run, i, i + 1);
        assert(data.subrange(from, to) =~= encode_run(run.take(m - 1)).subrange(from, to));
    }
}

/// The bytes start with the data of the run.
pub open spec fn starts_with_data(bytes: Seq<u8>, run: Seq<EntryView>) -> bool {
    &&& encode_run(run).len() <= bytes.len()
    &&& bytes.subrange(0, encode_run(run).len() as int) == encode_run(run)
}

/// A record that stands at `pos` is what is parsed there.
pub proof fn lemma_parse_record_at(bytes: Seq<u8>, pos: int, end: int, entry: EntryView)
    requires
        0 <= pos,
        pos + record_len(entry) <= end <= bytes.len(),
        bytes.subrange(pos, pos + record_len(entry)) == encode_record(entry),
        record_len(entry) <= u64::MAX,
    ensures
        parse_record(bytes, pos, end) == Some(
            RecordView { key: entry.key, value: entry.value, next: pos + record_len(entry) },
        ),
{
    let record = encode_record(entry);
    let klen = entry.key.len() as u64;
    let vlen = record_value(entry).len() as u64;
    lemma_le64(klen);
    lemma_le64(vlen);
    lemma_record_len(entry);
    let whole = bytes.subrange(pos, pos + record_len(entry));
    assert(bytes[pos] == whole[0]);
    assert(whole[0] == record_tag(entry));
    assert(bytes.subrange(pos + 1, pos + 9) =~= le64(klen)) by {
        assert(bytes.subrange(pos + 1, pos + 9) =~= whole.subrange(1, 9));
        assert(record.subrange(1, 9) =~= le64(klen));
    }
    assert(bytes.subrange(pos + 9, pos + 17) =~= le64(vlen)) by {
        assert(bytes.subrange(pos + 9, pos + 17) =~= whole.subrange(9, 17));
        assert(record.subrange(9, 17) =~= le64(vlen));
    }
    lemma_read_le64(bytes, pos + 1, klen);
    lemma_read_le64(bytes, pos + 9, vlen);
    let kl = entry.key.len() as int;
    let key_at = pos + 17;
    let value_at = key_at + kl;
    assert(bytes.subrange(key_at, value_at) =~= entry.key) by {
        assert(bytes.subrange(key_at, value_at) =~= whole.subrange(17, 17 + kl));
        assert(record.subrange(17, 17 + kl) =~= entry.key);
    }
    assert(bytes.subrange(value_at, value_at + vlen) =~= record_value(entry)) by {
        assert(bytes.subrange(value_at, value_at + vlen) =~= whole.subrange(
            17 + kl,
            record_len(entry) as int,
        ));
        assert(record.subrange(17 + kl, record_len(entry) as int) =~= record_value(
            entry,
        ));
    }
}

/// What the entries of a run from position `a` up to `b` say of a key: the
/// first entry with the key decides.
pub open spec fn segment_lookup(run: Seq<EntryView>, a: int, b: int, key: Seq<u8>) -> LookupView
    decreases b - a,
{
    if a >= b {
        LookupView::Absent
    } else if run[a].key == key {
        hit(run[a].value)
    } else {
        segment_lookup(run, a + 1, b, key)
    }
}

/// Scanning the bytes of a stretch of records gives what the stretch says.
pub proof fn lemma_scan_segment(bytes: Seq<u8>, run: Seq<EntryView>, a: int, b: int, key: Seq<u8>)
    requires
        starts_with_data(bytes, run),
        encode_run(run).len() <= u64::MAX,
        0 <= a <= b <= run.len(),
    ensures
        scan(bytes, offset_of(run, a) as int, offset_of(run, b) as int, key) == Ok::<
            LookupView,
            SstError,
        >(segment_lookup(run, a, b, key)),
    decreases b - a,
{
    lemma_offsets_ascend(run, a, b);
    if a < b {
        let pos = offset_of(run, a) as int;
        let end = offset_of(run, b) as int;
        let data = encode_run(run);
        lemma_offset_of_end(run);
        lemma_offsets_ascend(run, b, run.len() as int);
        lemma_encode_run_step(run, a);
        lemma_record_in_data(run, a, run.len() as int);
        assert(run.take(run.len() as int) =~= run);
        assert(bytes.subrange(pos, pos + record_len(run[a])) =~= data.subrange(
            pos,
            pos + record_len(run[a]),
        ));
        lemma_parse_record_at(bytes, pos, end, run[a]);
        lemma_scan_segment(bytes, run, a + 1, b, key);
    }
}

/// A stretch of a sorted run says of a key what the entry with that key
/// says, where the stretch holds it.
pub proof fn lemma_segment_hit(run: Seq<EntryView>, a: int, b: int, key: Seq<u8>, i: int)
    requires
        is_sorted_run(run),
        0 <= a <= i < b <= run.len(),
        run[i].key == key,
    ensures
        segment_lookup(run, a, b, key) == hit(run[i].value),
    decreases i - a,
{
    if a < i {
        assert(key_lt(run[a].key, run[i].key));
        lemma_key_lt_irreflexive(key);
        lemma_segment_hit(run, a + 1, b, key, i);
    }
}

/// A stretch without the key says nothing of it.
pub proof fn lemma_segment_miss(run: Seq<EntryView>, a: int, b: int, key: Seq<u8>)
    requires
        0 <= a <= b <= run.len(),
        forall|i: int| a <= i < b ==> (#[trigger] run[i]).key != key,
    ensures
        segment_lookup(run, a, b, key) == LookupView::Absent,
    decreases b - a,
{
    if a < b {
        assert(run[a].key != key);
        lemma_segment_miss(run, a + 1, b, key);
    }
}

/// The positions of the records, among the first `n`, that start a block.
pub open spec fn block_firsts(run: Seq<EntryView>, block_size: nat, n: int) -> Seq<int>
    decreases n,
{
    if n <= 0 {
        Seq::empty()
    } else {
        let before = block_firsts(run, block_size, n - 1);
        if starts_block(run, block_size, n - 1) {
            before.push(n - 1)
        } else {
            before
        }
    }
}

/// The index has one entry for each record that starts a block, in the order
/// of the records, and the first record starts a block.
pub proof fn lemma_index_shape(run: Seq<EntryView>, block_size: nat, n: int)
    requires
        0 <= n <= run.len(),
    ensures
        ({
            let firsts = block_firsts(run, block_size, n);
            let index = index_of(run, block_size, n);
            &&& firsts.len() == index.len()
            &&& firsts.len() <= n
            &&& forall|j: int|
                #![trigger firsts[j]]
                #![trigger index[j]]
                0 <= j < firsts.len() ==> 0 <= firsts[j] < n && index[j] == index_entry_at(
                    run,
                    firsts[j],
                )
            &&& forall|j: int, k: int|
                #![trigger firsts[j], firsts[k]]
                0 <= j < k < firsts.len() ==> firsts[j] < firsts[k]
            &&& n > 0 ==> firsts.len() > 0 && firsts[0] == 0
        }),
    decreases n,
{
    if n > 0 {
        lemma_index_shape(run, block_size, n - 1);
        if n == 1 {
            assert(run.take(0) =~= Seq::<EntryView>::empty());
            assert(starts_block(run, block_size, 0));
        }
    }
}

/// The index of a sorted run is in order.
pub proof fn lemma_index_in_order(run: Seq<EntryView>, block_size: nat)
    requires
        is_sorted_run(run),
        encode_run(run).len() <= u64::MAX,
    ensures
        index_ok(index_of(run, block_size, run.len() as int), encode_run(run).len() as int),
{
    let n = run.len() as int;
    let firsts = block_firsts(run, block_size, n);
    let index = index_of(run, block_size, n);
    let data_len = encode_run(run).len() as int;
    lemma_index_shape(run, block_size, n);
    lemma_offset_of_end(run);
    assert forall|j: int| 0 <= j < index.len() implies (#[trigger] index[j]).offset == offset_of(
        run,
        firsts[j],
    ) && index[j].offset < data_len by {
        lemma_offsets_ascend(run, firsts[j], n);
        lemma_record_len(run[firsts[j]]);
    }
    assert forall|i: int, j: int| 0 <= i < j < index.len() implies (#[trigger] index[i]).offset < (
    #[trigger] index[j]).offset && key_lt(index[i].first_key, index[j].first_key) by {
        assert(firsts[i] < firsts[j]);
        lemma_offsets_ascend(run, firsts[i], firsts[j]);
        lemma_record_len(run[firsts[i]]);
        assert(key_lt(run[firsts[i]].key, run[firsts[j]].key));
    }
    if data_len > 0 && n == 0 {
        assert(run =~= Seq::<EntryView>::empty());
    }
}

/// The bytes of an index start with the bytes of its first entry.
pub proof fn lemma_encode_index_front(index: Seq<IndexEntryView>)
    requires
        index.len() > 0,
    ensures
        encode_index(index) == encode_index_entry(index[0]) + encode_index(index.drop_first()),
    decreases index.len(),
{
    let init = index.drop_last();
    let rest = index.drop_first();
    if index.len() == 1 {
        assert(encode_index(init) =~= Seq::<u8>::empty());
        assert(encode_index(rest) =~= Seq::<u8>::empty());
        assert(encode_index(index) =~= encode_index_entry(index[0]) + encode_index(rest));
    } else {
        lemma_encode_index_front(init);
        assert(init.drop_first() =~= rest.drop_last());
        assert(encode_index(index) =~= encode_index_entry(index[0]) + encode_index(rest));
    }
}

/// An index entry that stands at `pos` is what is parsed there.
pub proof fn lemma_parse_index_entry_at(bytes: Seq<u8>, pos: int, end: int, entry: IndexEntryView)
    requires
        0 <= pos,
        pos + index_entry_len(entry) <= end <= bytes.len(),
        bytes.subrange(pos, pos + index_entry_len(entry)) == encode_index_entry(entry),
        entry.first_key.len() <= u64::MAX,
    ensures
        parse_index_entry(bytes, pos, end) == Some(
            IndexSlotView { entry, next: pos + index_entry_len(entry) },
        ),
{
    let encoded = encode_index_entry(entry);
    let klen = entry.first_key.len() as u64;
    let kl = entry.first_key.len() as int;
    lemma_le64(entry.offset);
    lemma_le64(klen);
    lemma_index_entry_len(entry);
    let whole = bytes.subrange(pos, pos + index_entry_len(entry));
    assert(bytes.subrange(pos, pos + 8) =~= le64(entry.offset)) by {
        assert(bytes.subrange(pos, pos + 8) =~= whole.subrange(0, 8));
        assert(encoded.subrange(0, 8) =~= le64(entry.offset));
    }
    assert(bytes.subrange(pos + 8, pos + 16) =~= le64(klen)) by {
        assert(bytes.subrange(pos + 8, pos + 16) =~= whole.subrange(8, 16));
        assert(encoded.subrange(8, 16) =~= le64(klen));
    }
    lemma_read_le64(bytes, pos, entry.offset);
    lemma_read_le64(bytes, pos + 8, klen);
    assert(bytes.subrange(pos + 16, pos + 16 + kl) =~= entry.first_key) by {
        assert(bytes.subrange(pos + 16, pos + 16 + kl) =~= whole.subrange(16, 16 + kl));
        assert(encoded.subrange(16, 16 + kl) =~= entry.first_key);
    }
}

/// The bytes of an index are at least its headers.
pub proof fn lemma_encode_index_len(index: Seq<IndexEntryView>)
    ensures
        encode_index(index).len() >= INDEX_HEADER * index.len(),
        forall|j: int|
            0 <= j < index.len() ==> (#[trigger] index[j]).first_key.len() <= encode_index(
                index,
            ).len(),
    decreases index.len(),
{
    if index.len() > 0 {
        lemma_encode_index_len(index.drop_last());
        lemma_index_entry_len(index.last());
        assert forall|j: int| 0 <= j < index.len() implies (#[trigger] index[j]).first_key.len()
            <= encode_index(index).len() by {
            if j < index.len() - 1 {
                assert(index.drop_last()[j] == index[j]);
            }
        }
    }
}

/// The bytes of an index parse as that index.
pub proof fn lemma_parse_index_at(bytes: Seq<u8>, pos: int, end: int, index: Seq<IndexEntryView>)
    requires
        0 <= pos,
        end <= bytes.len(),
        pos + encode_index(index).len() == end,
        bytes.subrange(pos, end) == encode_index(index),
        encode_index(index).len() <= u64::MAX,
    ensures
        parse_index(bytes, pos, end, index.len()) == Some(index),
    decreases index.len(),
{
    if index.len() == 0 {
        assert(index =~= Seq::<IndexEntryView>::empty());
    } else {
        let first = index[0];
        let rest = index.drop_first();
        let encoded = encode_index(index);
        lemma_encode_index_front(index);
        lemma_index_entry_len(first);
        lemma_encode_index_len(index);
        let next = pos + index_entry_len(first);
        assert(bytes.subrange(pos, next) =~= encode_index_entry(first)) by {
            assert(bytes.subrange(pos, next) =~= bytes.subrange(pos, end).subrange(
                0,
                index_entry_len(first) as int,
            ));
            assert(encoded.subrange(0, index_entry_len(first) as int) =~= encode_index_entry(
                first,
            ));
        }
        lemma_parse_index_entry_at(bytes, pos, end, first);
        assert(bytes.subrange(next, end) =~= encode_index(rest)) by {
            assert(bytes.subrange(next, end) =~= bytes.subrange(pos, end).subrange(
                index_entry_len(first) as int,
                encoded.len() as int,
            ));
            assert(encoded.subrange(index_entry_len(first) as int, encoded.len() as int)
                =~= encode_index(rest));
        }
        lemma_parse_index_at(bytes, next, end, rest);
        assert(seq![first] + rest =~= index);
    }
}

/// What footer and index of the file of a run say.
pub open spec fn meta_of(run: Seq<EntryView>, generation: u64, block_size: nat) -> SstIndexView {
    SstIndexView {
        generation,
        entry_count: run.len() as u64,
        data_len: encode_run(run).len() as int,
        index: index_of(run, block_size, run.len() as int),
    }
}

/// Footer and index of the file of a sorted run are read back as written.
pub proof fn lemma_parse_meta_of_file(run: Seq<EntryView>, generation: u64, block_size: nat)
    requires
        is_sorted_run(run),
        sst_bytes(run, generation, block_size).len() <= u64::MAX,
    ensures
        parse_meta(sst_bytes(run, generation, block_size)) == Ok::<SstIndexView, SstError>(
            meta_of(run, generation, block_size),
        ),
        starts_with_data(sst_bytes(run, generation, block_size), run),
{
    let file = sst_bytes(run, generation, block_size);
    let body = payload(run, block_size);
    let data = encode_run(run);
    let index = index_of(run, block_size, run.len() as int);
    let index_bytes = encode_index(index);
    let trailer = encode_trailer(data.len(), index.len());
    let sum = checksum(body);
    let footer = encode_footer(generation, run.len(), sum);
    lemma_le64(data.len() as u64);
    lemma_le64(index.len() as u64);
    lemma_le64(MAGIC);
    lemma_le64(generation);
    lemma_le64(run.len() as u64);
    lemma_le64(sum);
    assert(trailer.len() == 16);
    assert(footer.len() == 32);
    let footer_at = file.len() - 32;
    let trailer_at = footer_at - 16;
    assert(body.len() == footer_at);
    assert(data.len() + index_bytes.len() == trailer_at);
    lemma_encode_index_len(index);
    lemma_index_shape(run, block_size, run.len() as int);
    assert(file.subrange(0, footer_at) =~= body);
    assert(file.subrange(0, data.len() as int) =~= data);
    assert(file.subrange(footer_at, footer_at + 8) =~= le64(MAGIC));
    assert(file.subrange(footer_at + 8, footer_at + 16) =~= le64(generation));
    assert(file.subrange(footer_at + 16, footer_at + 24) =~= le64(run.len() as u64));
    assert(file.subrange(footer_at + 24, footer_at + 32) =~= le64(sum));
    assert(file.subrange(trailer_at, trailer_at + 8) =~= le64(data.len() as u64));
    assert(file.subrange(trailer_at + 8, trailer_at + 16) =~= le64(index.len() as u64));
    lemma_read_le64(file, footer_at, MAGIC);
    lemma_read_le64(file, footer_at + 8, generation);
    lemma_read_le64(file, footer_at + 16, run.len() as u64);
    lemma_read_le64(file, footer_at + 24, sum);
    lemma_read_le64(file, trailer_at, data.len() as u64);
    lemma_read_le64(file, trailer_at + 8, index.len() as u64);
    assert(file.subrange(data.len() as int, trailer_at) =~= index_bytes);
    lemma_parse_index_at(file, data.len() as int, trailer_at, index);
    lemma_index_in_order(run, block_size);
}

/// In an index that is in order, a key that is not smaller than the first
/// key of the first block is covered by some block.
pub proof fn lemma_covered(index: Seq<IndexEntryView>, data_len: int, key: Seq<u8>, n: int)
    requires
        index_ok(index, data_len),
        0 < n <= index.len(),
        key_le(index[0].first_key, key),
        n < index.len() ==> key_lt(key, index[n].first_key),
    ensures
        exists|b: int| covers(index, key, b),
    decreases n,
{
    let last = n - 1;
    lemma_key_le_iff_not_gt(index[last].first_key, key);
    if key_le(index[last].first_key, key) {
        assert(covers(index, key, last));
    } else {
        lemma_covered(index, data_len, key, last);
    }
}

/// Round trip: the file of a sorted run says of every key what the run says.
/// A key the run holds is found with the value, or the tombstone, the run has
/// for it; a key the run does not hold is absent. Footer and index read back
/// as written.
pub proof fn lemma_lookup_round_trip(
    run: Seq<EntryView>,
    generation: u64,
    block_size: nat,
    key: Seq<u8>,
)
    requires
        is_sorted_run(run),
        sst_bytes(run, generation, block_size).len() <= u64::MAX,
    ensures
        parse_meta(sst_bytes(run, generation, block_size)) == Ok::<SstIndexView, SstError>(
            meta_of(run, generation, block_size),
        ),
        spec_lookup(sst_bytes(run, generation, block_size), key) == Ok::<LookupView, SstError>(
            lookup_of(run_find(run, key)),
        ),
{
    let file = sst_bytes(run, generation, block_size);
    let n = run.len() as int;
    let meta = meta_of(run, generation, block_size);
    let index = meta.index;
    let firsts = block_firsts(run, block_size, n);
    lemma_parse_meta_of_file(run, generation, block_size);
    lemma_index_in_order(run, block_size);
    lemma_index_shape(run, block_size, n);
    lemma_offset_of_end(run);
    if n == 0 || key_lt(key, run[0].key) {
        // No block covers the key, and the run does not hold it.
        assert forall|b: int| !covers(index, key, b) by {
            if 0 <= b < index.len() {
                lemma_key_le_iff_not_gt(index[b].first_key, key);
                if b > 0 {
                    assert(key_lt(index[0].first_key, index[b].first_key));
                    lemma_key_lt_transitive(key, index[0].first_key, index[b].first_key);
                }
            }
        }
        if run_contains(run, key) {
            let i = choose|i: int| holds_at(run, key, i);
            lemma_key_lt_irreflexive(key);
            if i > 0 {
                assert(key_lt(run[0].key, run[i].key));
                lemma_key_lt_asymmetric(key, run[0].key);
            }
        }
    } else {
        lemma_key_le_iff_not_gt(index[0].first_key, key);
        lemma_covered(index, meta.data_len, key, index.len() as int);
        let b = choose|b: int| covers(index, key, b);
        let from = firsts[b];
        let to = if b + 1 < index.len() {
            firsts[b + 1]
        } else {
            n
        };
        lemma_offsets_ascend(run, from, n);
        lemma_offsets_ascend(run, to, n);
        assert(index[b].offset as int == offset_of(run, from));
        assert(block_end(meta, b) == offset_of(run, to));
        lemma_scan_segment(file, run, from, to, key);
        if run_contains(run, key) {
            let i = choose|i: int| holds_at(run, key, i);
            lemma_run_find_at(run, i);
            if i < from {
                assert(key_lt(run[i].key, run[from].key));
                lemma_key_le_iff_not_gt(run[from].key, key);
            }
            if i >= to {
                lemma_key_lt_irreflexive(key);
                if i > to {
                    assert(key_lt(run[to].key, run[i].key));
                    lemma_key_lt_asymmetric(key, run[to].key);
                }
            }
            lemma_segment_hit(run, from, to, key, i);
        } else {
            assert forall|i: int| from <= i < to implies (#[trigger] run[i]).key != key by {
                if run[i].key == key {
                    assert(holds_at(run, key, i));
                }
            }
            lemma_segment_miss(run, from, to, key);
        }
    }
}


} // verus!
