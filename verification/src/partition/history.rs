//! The partition as an index of everything that was produced: whatever
//! offset was given out, its segment leads to its record.

use crate::partition::codec::{encode_entry, lemma_entry_round_trip, lemma_varint_len, Decoded};
use crate::partition::entry_collection::{next_from, Offset, PartitionError};
use crate::partition::index::{below, lemma_below, lemma_put, lemma_put_last, ordered, put,
    IndexEntry};
use crate::partition::laws::region;
use crate::partition::{empty_log, recovered, scan_file, scan_files, Cursor, Log, SEG_LENGTH};
use vstd::prelude::*;
use vstd::utf8::*;

verus! {

/// What was produced: for each offset, in order, the time and the value.
pub type History = Seq<(u64, Seq<char>)>;

/// The bytes of the record of the offset `i`.
pub open spec fn record(h: History, i: int) -> Seq<u8> {
    encode_entry(i as u64, h[i].0, h[i].1)
}

/// The bytes of the records of the offsets from `a` to below `b`, one behind
/// the other.
pub open spec fn records(h: History, a: int, b: int) -> Seq<u8>
    decreases b - a,
{
    if b <= a {
        Seq::empty()
    } else {
        records(h, a, b - 1) + record(h, b - 1)
    }
}

/// The file that holds everything that was produced.
pub open spec fn written(h: History) -> Seq<u8> {
    records(h, 0, h.len() as int)
}

/// Every value of the history is short enough to be a text of the machine,
/// and there are no more records than offsets.
pub open spec fn fits(h: History) -> bool {
    &&& h.len() < u64::MAX
    &&& forall|i: int| 0 <= i < h.len() ==> encode_utf8((#[trigger] h[i]).1).len() <= usize::MAX
}

/// The offset that the segment behind the segment `j` begins with; the next
/// offset for the last segment.
pub open spec fn segment_end(index: Seq<IndexEntry>, j: int, next_offset: int) -> int {
    if j + 1 < index.len() {
        index[j + 1].offset as int
    } else {
        next_offset
    }
}

/// The partition is an index of the file that holds the history: the
/// segments begin with the offset 0 and lie one behind the other, and each
/// holds the records from its first offset to below the first offset of the
/// segment behind it.
pub open spec fn indexes(log: Log, h: History) -> bool {
    &&& log.wf()
    &&& log.next_offset == h.len()
    &&& log.end == written(h).len()
    &&& log.index[0].offset == 0
    &&& forall|j: int|
        0 <= j < log.index.len() ==> {
            let e = #[trigger] log.index[j];
            &&& e.offset <= h.len()
            &&& e.address == records(h, 0, e.offset as int).len()
            &&& e.address + e.size == records(
                h,
                0,
                segment_end(log.index, j, h.len() as int),
            ).len()
        }
}

/// Records one behind the other can be cut at any offset between.
pub proof fn lemma_records_split(h: History, a: int, b: int, c: int)
    requires
        a <= b <= c,
    ensures
        records(h, a, c) == records(h, a, b) + records(h, b, c),
    decreases c - b,
{
    if b < c {
        lemma_records_split(h, a, b, c - 1);
        assert(records(h, a, b) + (records(h, b, c - 1) + record(h, c - 1)) =~= (records(h, a, b)
            + records(h, b, c - 1)) + record(h, c - 1));
    } else {
        assert(records(h, a, b) + Seq::<u8>::empty() =~= records(h, a, b));
    }
}

/// The first of some records, and the rest of them.
pub proof fn lemma_records_first(h: History, a: int, b: int)
    requires
        a < b,
    ensures
        records(h, a, b) == record(h, a) + records(h, a + 1, b),
{
    lemma_records_split(h, a, a + 1, b);
    assert(records(h, a, a) =~= Seq::<u8>::empty());
    assert(records(h, a, a + 1) =~= record(h, a));
}

/// More records are more bytes.
pub proof fn lemma_records_grow(h: History, a: int, b: int, c: int)
    requires
        a <= b <= c,
    ensures
        records(h, a, b).len() <= records(h, a, c).len(),
        records(h, a, c).len() == records(h, a, b).len() + records(h, b, c).len(),
{
    lemma_records_split(h, a, b, c);
}

/// A read for the offset `o` that stands before the record of an offset `k`
/// not above `o`, in records that reach beyond `o`, hands out the record of
/// `o` with the time and the value of the history.
pub proof fn lemma_read_finds(h: History, a: int, b: int, k: int, o: int)
    requires
        fits(h),
        0 <= a <= k <= o < b <= h.len(),
    ensures
        next_from(records(h, a, b), records(h, a, k).len() as int, o as u64) == (
            Ok::<Option<Decoded>, PartitionError>(
                Some(
                    Decoded {
                        offset: o as u64,
                        timestamp: h[o].0,
                        value: h[o].1,
                        size: record(h, o).len() as int,
                    },
                ),
            ),
            records(h, a, o + 1).len() as int,
        ),
    decreases o - k,
{
    let data = records(h, a, b);
    let at = records(h, a, k).len() as int;
    lemma_records_split(h, a, k, b);
    lemma_records_first(h, k, b);
    let rest = records(h, k + 1, b);
    assert(data.skip(at) =~= record(h, k) + rest);
    lemma_entry_round_trip(k as u64, h[k].0, h[k].1, rest);
    lemma_varint_len(k as u64);
    lemma_records_split(h, a, k, k + 1);
    assert(records(h, k, k + 1) =~= record(h, k)) by {
        assert(records(h, k, k) =~= Seq::<u8>::empty());
    }
    if k < o {
        lemma_read_finds(h, a, b, k + 1, o);
    }
}

/// An empty partition is an index of the empty history.
pub proof fn lemma_empty_indexes()
    ensures
        indexes(empty_log(), Seq::empty()),
{
    let h: History = Seq::empty();
    assert(records(h, 0, 0) =~= Seq::<u8>::empty());
}

/// Produce keeps the index: where the partition is an index of the history,
/// it is, after a record was produced, an index of the history with that
/// record at its end.
pub proof fn lemma_produce_indexes(log: Log, h: History, timestamp: u64, value: Seq<char>)
    requires
        indexes(log, h),
        fits(h.push((timestamp, value))),
        log.room(encode_entry(log.next_offset, timestamp, value).len()),
    ensures
        indexes(
            log.produced(encode_entry(log.next_offset, timestamp, value).len()),
            h.push((timestamp, value)),
        ),
        written(h.push((timestamp, value))) == written(h) + encode_entry(
            log.next_offset,
            timestamp,
            value,
        ),
{
    let n = h.len() as int;
    let more = h.push((timestamp, value));
    let bytes = encode_entry(log.next_offset, timestamp, value);
    let after = log.produced(bytes.len());
    let grown = log.grown(bytes.len());
    let last = log.index.len() - 1;
    lemma_put(log.index, grown);
    lemma_put_last(log.index, grown);
    lemma_same_records(h, more, 0, n);
    assert(record(more, n) == bytes);
    assert(written(more) == records(more, 0, n) + record(more, n));
    assert forall|j: int| 0 <= j < after.index.len() implies {
        let e = #[trigger] after.index[j];
        &&& e.offset <= more.len()
        &&& e.address == records(more, 0, e.offset as int).len()
        &&& e.address + e.size == records(
            more,
            0,
            segment_end(after.index, j, more.len() as int),
        ).len()
    } by {
        let e = after.index[j];
        if j < last {
            assert(e == log.index[j]);
            assert(segment_end(log.index, j, n) == log.index[j + 1].offset);
            lemma_same_records(h, more, 0, e.offset as int);
            lemma_same_records(h, more, 0, log.index[j + 1].offset as int);
            if j + 1 == last && after.index.len() == log.index.len() {
                assert(after.index[j + 1].offset == log.index[j + 1].offset);
            } else {
                assert(after.index[j + 1] == log.index[j + 1]);
            }
        } else if j == last && after.index.len() > log.index.len() {
            // The segment that was the last is closed by the new one.
            assert(e == log.index[j]);
            lemma_same_records(h, more, 0, e.offset as int);
            assert(segment_end(after.index, j, more.len() as int) == n);
        } else {
            assert(e == grown);
            let old = log.index[last];
            lemma_same_records(h, more, 0, old.offset as int);
            assert(segment_end(after.index, j, more.len() as int) == n + 1);
        }
    }
}

/// The records of a history are those of the history with more at its end.
pub proof fn lemma_same_records(h: History, more: History, a: int, b: int)
    requires
        0 <= a,
        b <= h.len() <= more.len(),
        forall|i: int| 0 <= i < h.len() ==> h[i] == more[i],
    ensures
        records(more, a, b) == records(h, a, b),
    decreases b - a,
{
    if a < b {
        lemma_same_records(h, more, a, b - 1);
    }
}

/// Consume finds what was produced: where the partition is an index of the
/// history, and the file holds the history, then for every offset that was
/// given out the segment found for it lies in the file, and a read of it for
/// that offset hands out the record of the offset, with the time and the
/// value that were produced.
pub proof fn lemma_consume_finds(log: Log, h: History, offset: Offset)
    requires
        indexes(log, h),
        fits(h),
        offset < log.next_offset,
    ensures
        log.found(offset) matches Ok(e) && {
            &&& e.address + e.size <= written(h).len()
            &&& e.offset <= offset
            &&& next_from(region(written(h), e), 0, offset).0 == Ok::<
                Option<Decoded>,
                PartitionError,
            >(
                Some(
                    Decoded {
                        offset,
                        timestamp: h[offset as int].0,
                        value: h[offset as int].1,
                        size: record(h, offset as int).len() as int,
                    },
                ),
            )
        },
{
    let n = h.len() as int;
    let at = below(log.index, offset + 1, 0);
    lemma_below(log.index, offset + 1, 0);
    assert(log.index[0].offset < offset + 1);
    let j = at - 1;
    let e = log.index[j];
    let end = segment_end(log.index, j, n);
    assert(e.offset <= offset < end);
    lemma_records_grow(h, 0, e.offset as int, end);
    lemma_records_grow(h, 0, end, n);
    lemma_records_split(h, 0, e.offset as int, end);
    lemma_records_split(h, 0, end, n);
    let file = written(h);
    assert(region(file, e) =~= records(h, e.offset as int, end));
    assert(records(h, e.offset as int, e.offset as int) =~= Seq::<u8>::empty());
    lemma_read_finds(h, e.offset as int, end, e.offset as int, offset as int);
}

/// What holds of each segment of an index of the history, where the segments
/// reach to the offset `upto`.
pub open spec fn segments_hold(index: Seq<IndexEntry>, h: History, file: usize, upto: int) -> bool {
    &&& ordered(index)
    &&& index.len() > 0 ==> index[0].offset == 0
    &&& forall|j: int|
        0 <= j < index.len() ==> {
            let e = #[trigger] index[j];
            &&& e.file == file
            &&& e.offset <= upto
            &&& e.address == records(h, 0, e.offset as int).len()
            &&& e.address + e.size == records(h, 0, segment_end(index, j, upto)).len()
        }
}

/// Where the scan of the file that holds the history stands, when it has
/// read the records of the offsets below `k`: the index holds the segments
/// up to the one that is being filled, and that one holds the records from
/// its first offset on.
pub open spec fn scan_stands(cursor: Cursor, h: History, file: usize, k: int) -> bool {
    &&& 0 <= k <= h.len()
    &&& match cursor.first {
        Some(f) => {
            &&& 0 <= f < k
            &&& cursor.highest == k - 1
            &&& cursor.cutoff == records(h, 0, f as int).len()
            &&& cursor.cutoff + cursor.current == records(h, 0, k).len()
            &&& cursor.index.len() == 0 ==> f == 0
            &&& segments_hold(cursor.index, h, file, f as int)
        },
        None => {
            &&& k == 0
            &&& cursor.index.len() == 0
            &&& cursor.cutoff == 0
            &&& cursor.current == 0
            &&& cursor.highest == 0
        },
    }
}

/// Putting the segment that was being filled into the index, when the scan
/// has read the records below `k`, makes an index whose segments reach to `k`.
proof fn lemma_close_segment(cursor: Cursor, h: History, file: usize, k: int)
    requires
        scan_stands(cursor, h, file, k),
        cursor.first is Some,
        records(h, 0, k).len() <= usize::MAX,
    ensures
        segments_hold(
            put(cursor.index, cursor.segment(file, cursor.first.unwrap())),
            h,
            file,
            k,
        ),
        put(cursor.index, cursor.segment(file, cursor.first.unwrap())).len() > 0,
        put(cursor.index, cursor.segment(file, cursor.first.unwrap())).last().offset
            == cursor.first.unwrap(),
        put(cursor.index, cursor.segment(file, cursor.first.unwrap())).last().file == file,
{
    let f = cursor.first.unwrap();
    let segment = cursor.segment(file, f);
    let index = cursor.index;
    let after = put(index, segment);
    lemma_put(index, segment);
    lemma_records_grow(h, 0, f as int, k);
    if index.len() > 0 {
        let last = index.len() - 1;
        assert(index[last].offset <= f);
        lemma_put_last(index, segment);
        assert forall|j: int| 0 <= j < after.len() implies {
            let e = #[trigger] after[j];
            &&& e.file == file
            &&& e.offset <= k
            &&& e.address == records(h, 0, e.offset as int).len()
            &&& e.address + e.size == records(h, 0, segment_end(after, j, k)).len()
        } by {
            if j < last {
                assert(after[j] == index[j]);
                assert(segment_end(index, j, f as int) == index[j + 1].offset);
                if j + 1 == last && after.len() == index.len() {
                    assert(after[j + 1].offset == index[j + 1].offset);
                } else {
                    assert(after[j + 1] == index[j + 1]);
                }
            } else if j == last && after.len() > index.len() {
                assert(after[j] == index[j]);
                assert(segment_end(index, j, f as int) == f);
                assert(after[j + 1] == segment);
            } else {
                assert(after[j] == segment);
            }
        }
    } else {
        assert(after =~= seq![segment]);
        assert(records(h, 0, 0) =~= Seq::<u8>::empty());
    }
}

/// A step of the scan in which the record of the offset `k` joins the segment
/// that is being filled.
proof fn lemma_step_joins(cursor: Cursor, h: History, file: usize, k: int)
    requires
        scan_stands(cursor, h, file, k),
        k < h.len(),
        h.len() < u64::MAX,
        records(h, 0, k + 1).len() <= usize::MAX,
        records(h, 0, k + 1).len() - cursor.cutoff <= SEG_LENGTH,
    ensures
        scan_stands(
            cursor.step(file, k as u64, records(h, 0, k + 1).len() as int),
            h,
            file,
            k + 1,
        ),
{
    let end = records(h, 0, k + 1).len() as int;
    let next = cursor.step(file, k as u64, end);
    lemma_records_grow(h, 0, k, k + 1);
    match cursor.first {
        Some(f) => {
            assert(next.first == Some(f));
            assert(next.index == cursor.index);
            assert(next.cutoff == cursor.cutoff);
            assert(next.current == end - cursor.cutoff);
            assert(next.highest == k);
        },
        None => {
            assert(records(h, 0, 0) =~= Seq::<u8>::empty());
            assert(next.first == Some(0u64));
            assert(next.index.len() == 0);
            assert(next.highest == 0);
            assert(segments_hold(next.index, h, file, 0));
        },
    }
}

/// A step of the scan in which the record of the offset `k` begins a segment.
proof fn lemma_step_cuts(cursor: Cursor, h: History, file: usize, k: int)
    requires
        scan_stands(cursor, h, file, k),
        k < h.len(),
        h.len() < u64::MAX,
        records(h, 0, k + 1).len() <= usize::MAX,
        records(h, 0, k + 1).len() - cursor.cutoff > SEG_LENGTH,
    ensures
        scan_stands(
            cursor.step(file, k as u64, records(h, 0, k + 1).len() as int),
            h,
            file,
            k + 1,
        ),
{
    let end = records(h, 0, k + 1).len() as int;
    let next = cursor.step(file, k as u64, end);
    lemma_records_grow(h, 0, k, k + 1);
    let first: u64 = match cursor.first {
        Some(o) => o,
        None => k as u64,
    };
    let segment = cursor.segment(file, first);
    assert(next.index == put(cursor.index, segment));
    assert(next.first == Some(k as u64));
    assert(next.cutoff == cursor.cutoff + cursor.current);
    assert(next.current == end - next.cutoff);
    assert(next.highest == k);
    match cursor.first {
        Some(f) => {
            lemma_close_segment(cursor, h, file, k);
        },
        None => {
            assert(next.index =~= seq![segment]);
            assert(records(h, 0, 0) =~= Seq::<u8>::empty());
            assert(segment_end(next.index, 0, 0) == 0);
            assert(segments_hold(next.index, h, file, 0));
        },
    }
    assert(next.cutoff == records(h, 0, k).len());
    assert(segments_hold(next.index, h, file, k));
}

/// One step of the scan, over the record of the offset `k`.
proof fn lemma_scan_history_step(cursor: Cursor, h: History, file: usize, k: int)
    requires
        scan_stands(cursor, h, file, k),
        k < h.len(),
        h.len() < u64::MAX,
        records(h, 0, k + 1).len() <= usize::MAX,
    ensures
        scan_stands(
            cursor.step(file, k as u64, records(h, 0, k + 1).len() as int),
            h,
            file,
            k + 1,
        ),
{
    if records(h, 0, k + 1).len() - cursor.cutoff <= SEG_LENGTH {
        lemma_step_joins(cursor, h, file, k);
    } else {
        lemma_step_cuts(cursor, h, file, k);
    }
}

/// What the scan ends with, where it has read every record of the history.
pub open spec fn scan_ends(result: Option<(Seq<IndexEntry>, u64)>, h: History, file: usize) -> bool {
    result matches Some((index, highest)) && {
        &&& highest == h.len() - 1
        &&& index.len() > 0
        &&& index.last().file == file
        &&& index.last().offset <= h.len()
        &&& segments_hold(index, h, file, h.len() as int)
    }
}

/// The end of the scan: the segment that was being filled goes to the index.
proof fn lemma_scan_history_end(cursor: Cursor, h: History, file: usize)
    requires
        h.len() > 0,
        written(h).len() <= usize::MAX,
        scan_stands(cursor, h, file, h.len() as int),
    ensures
        scan_ends(scan_file(written(h), file, written(h).len() as int, cursor), h, file),
{
    let data = written(h);
    assert(scan_file(data, file, data.len() as int, cursor) == Some(cursor.finish(file)));
    lemma_close_segment(cursor, h, file, h.len() as int);
}

/// The scan reads the record of the offset `k` where it stands before it.
proof fn lemma_scan_reads(cursor: Cursor, h: History, file: usize, k: int)
    requires
        fits(h),
        0 <= k < h.len(),
    ensures
        scan_file(written(h), file, records(h, 0, k).len() as int, cursor) == scan_file(
            written(h),
            file,
            records(h, 0, k + 1).len() as int,
            cursor.step(file, k as u64, records(h, 0, k + 1).len() as int),
        ),
        records(h, 0, k).len() < records(h, 0, k + 1).len() <= written(h).len(),
{
    let n = h.len() as int;
    let data = written(h);
    let address = records(h, 0, k).len() as int;
    lemma_records_split(h, 0, k, n);
    lemma_records_first(h, k, n);
    let rest = records(h, k + 1, n);
    assert(data.skip(address) =~= record(h, k) + rest);
    lemma_entry_round_trip(k as u64, h[k].0, h[k].1, rest);
    lemma_varint_len(k as u64);
    lemma_records_grow(h, 0, k, k + 1);
    lemma_records_grow(h, 0, k + 1, n);
    assert(records(h, k, k + 1) =~= record(h, k)) by {
        assert(records(h, k, k) =~= Seq::<u8>::empty());
    }
}

/// The scan of the file that holds the history, from where it stands when
/// it has read the records below `k`: it ends with an index of the history.
proof fn lemma_scan_history(cursor: Cursor, h: History, file: usize, k: int)
    requires
        fits(h),
        h.len() > 0,
        written(h).len() <= usize::MAX,
        scan_stands(cursor, h, file, k),
    ensures
        scan_ends(scan_file(written(h), file, records(h, 0, k).len() as int, cursor), h, file),
    decreases h.len() - k,
{
    if k >= h.len() {
        lemma_scan_history_end(cursor, h, file);
    } else {
        lemma_scan_reads(cursor, h, file, k);
        lemma_scan_history_step(cursor, h, file, k);
        lemma_scan_history(
            cursor.step(file, k as u64, records(h, 0, k + 1).len() as int),
            h,
            file,
            k + 1,
        );
    }
}

/// Recovery finds what was produced: the file that holds a history with at
/// least one record recovers to a partition that is an index of the history.
/// So, for every offset that was given out, the recovered partition finds
/// the record that was produced with it.
pub proof fn lemma_recover_indexes(h: History)
    requires
        fits(h),
        h.len() > 0,
        written(h).len() <= usize::MAX,
    ensures
        recovered(seq![written(h)]) matches Ok(Some(log)) && indexes(log, h),
{
    let file = written(h);
    let listing = seq![file];
    let start = Cursor { index: Seq::empty(), highest: 0, cutoff: 0, current: 0, first: None };
    assert(scan_files(listing, 0) == Some((Seq::<IndexEntry>::empty(), 0u64)));
    assert(scan_files(listing, 1) == scan_file(listing[0], 0, 0, start));
    assert(records(h, 0, 0) =~= Seq::<u8>::empty());
    lemma_scan_history(start, h, 0, 0);
}

} // verus!
