//! What holds of a partition whatever is produced.

use crate::partition::codec::{encode_entry, lemma_entry_round_trip, lemma_parse_entry_size,
    lemma_varint_len, parse_entry, parse_varint, Decoded};
use crate::partition::entry_collection::{next_from, Offset, PartitionError};
use crate::partition::index::{lemma_below_is, lemma_put, lemma_put_last, ordered, IndexEntry};
use crate::partition::{empty_log, recovered, scan_file, scan_files, Cursor, Log, SEG_LENGTH};
use vstd::prelude::*;
use vstd::utf8::*;

verus! {

/// From `address` on, `data` is whole records, each with an offset below
/// `bound`, to its end.
pub open spec fn records_below(data: Seq<u8>, address: int, bound: int) -> bool
    decreases data.len() - address,
{
    if address < 0 || address >= data.len() {
        address == data.len()
    } else {
        match parse_entry(data.skip(address)) {
            Some(d) => if d.size > 0 && d.offset < bound {
                records_below(data, address + d.size, bound)
            } else {
                false
            },
            None => false,
        }
    }
}

/// The bytes of a segment in its file.
pub open spec fn region(file: Seq<u8>, e: IndexEntry) -> Seq<u8> {
    file.subrange(e.address as int, e.address + e.size)
}

/// The partition agrees with the file that it writes to: the last segment
/// reaches to the end of the file, and is whole records with offsets that
/// were given out.
pub open spec fn tail_agrees(log: Log, file: Seq<u8>) -> bool {
    &&& log.end == file.len()
    &&& log.index.last().address + log.index.last().size == file.len()
    &&& records_below(region(file, log.index.last()), 0, log.next_offset as int)
}

/// An integer that parses from `s` parses from `s` with more behind it.
pub proof fn lemma_varint_in_longer(s: Seq<u8>, more: Seq<u8>)
    requires
        parse_varint(s) is Some,
    ensures
        parse_varint(s + more) == parse_varint(s),
{
    let t = s + more;
    assert(t[0] == s[0]);
    if s[0] == 251 {
        assert(t.subrange(1, 3) =~= s.subrange(1, 3));
    } else if s[0] == 252 {
        assert(t.subrange(1, 5) =~= s.subrange(1, 5));
    } else if s[0] == 253 {
        assert(t.subrange(1, 9) =~= s.subrange(1, 9));
    }
}

/// A record that parses from `s` parses from `s` with more behind it.
pub proof fn lemma_entry_in_longer(s: Seq<u8>, more: Seq<u8>)
    requires
        parse_entry(s) is Some,
    ensures
        parse_entry(s + more) == parse_entry(s),
{
    let t = s + more;
    lemma_varint_in_longer(s, more);
    let (offset, a) = parse_varint(s).unwrap();
    assert(t.skip(a) =~= s.skip(a) + more);
    lemma_varint_in_longer(s.skip(a), more);
    let (timestamp, b) = parse_varint(s.skip(a)).unwrap();
    assert(t.skip(a + b) =~= s.skip(a + b) + more);
    lemma_varint_in_longer(s.skip(a + b), more);
    let (len, c) = parse_varint(s.skip(a + b)).unwrap();
    let start = a + b + c;
    assert(t.subrange(start, start + len) =~= s.subrange(start, start + len));
}

/// Reading for `offset` from whole records with lower offsets, with the
/// record of `offset` behind them, passes over them and hands out that
/// record; the data then is whole records again, and a second read finds
/// nothing more.
pub proof fn lemma_next_passes_over(
    data: Seq<u8>,
    address: int,
    offset: Offset,
    timestamp: u64,
    value: Seq<char>,
)
    requires
        0 <= address <= data.len(),
        records_below(data, address, offset as int),
        encode_utf8(value).len() <= usize::MAX,
    ensures
        ({
            let record = encode_entry(offset, timestamp, value);
            let longer = data + record;
            &&& next_from(longer, address, offset) == (
                Ok::<Option<Decoded>, PartitionError>(
                    Some(Decoded { offset, timestamp, value, size: record.len() as int }),
                ),
                longer.len() as int,
            )
            &&& next_from(longer, longer.len() as int, offset) == (
                Ok::<Option<Decoded>, PartitionError>(None),
                longer.len() as int,
            )
            &&& records_below(longer, address, offset + 1)
        }),
    decreases data.len() - address,
{
    let record = encode_entry(offset, timestamp, value);
    let longer = data + record;
    lemma_varint_len(offset);
    if address >= data.len() {
        assert(longer.skip(address) =~= record + Seq::<u8>::empty());
        lemma_entry_round_trip(offset, timestamp, value, Seq::<u8>::empty());
        assert(records_below(longer, longer.len() as int, offset + 1));
    } else {
        let d = parse_entry(data.skip(address)).unwrap();
        lemma_parse_entry_size(data.skip(address));
        assert(longer.skip(address) =~= data.skip(address) + record);
        lemma_entry_in_longer(data.skip(address), record);
        lemma_next_passes_over(data, address + d.size, offset, timestamp, value);
    }
}

/// Produce, then consume: after a record was produced and its bytes went to
/// the end of the file, the segment found for its offset is the last one and
/// reaches to the end of the file; a read of it for that offset hands out the
/// record with the value that was produced, and a second read finds nothing
/// more. Partition and file agree again.
pub proof fn lemma_produce_then_consume(log: Log, file: Seq<u8>, timestamp: u64, value: Seq<char>)
    requires
        log.wf(),
        tail_agrees(log, file),
        encode_utf8(value).len() <= usize::MAX,
        log.room(encode_entry(log.next_offset, timestamp, value).len()),
    ensures
        ({
            let record = encode_entry(log.next_offset, timestamp, value);
            let after = log.produced(record.len());
            let segment = after.index.last();
            let data = region(file + record, segment);
            &&& after.wf()
            &&& tail_agrees(after, file + record)
            &&& after.found(log.next_offset) == Ok::<IndexEntry, PartitionError>(segment)
            &&& next_from(data, 0, log.next_offset) == (
                Ok::<Option<Decoded>, PartitionError>(
                    Some(
                        Decoded {
                            offset: log.next_offset,
                            timestamp,
                            value,
                            size: record.len() as int,
                        },
                    ),
                ),
                data.len() as int,
            )
            &&& next_from(data, data.len() as int, log.next_offset) == (
                Ok::<Option<Decoded>, PartitionError>(None),
                data.len() as int,
            )
        }),
{
    let offset = log.next_offset;
    let record = encode_entry(offset, timestamp, value);
    let after = log.produced(record.len());
    let grown = log.grown(record.len());
    let longer = file + record;
    lemma_put(log.index, grown);
    lemma_put_last(log.index, grown);
    let segment = after.index.last();
    assert(segment == grown);
    // The last segment is the one with the greatest offset not above `offset`.
    let n = after.index.len() as int;
    assert forall|i: int| 0 <= i < n implies (#[trigger] after.index[i]).offset < offset + 1 by {
        if i < n - 1 {
            assert(after.index[i].offset < after.index[n - 1].offset);
        }
    }
    lemma_below_is(after.index, offset + 1, 0, n);
    let data = region(longer, segment);
    if log.cuts(record.len()) {
        assert(data =~= Seq::<u8>::empty() + record);
        assert(records_below(Seq::<u8>::empty(), 0, offset as int));
        lemma_next_passes_over(Seq::<u8>::empty(), 0, offset, timestamp, value);
    } else {
        let before = region(file, log.index.last());
        assert(data =~= before + record);
        lemma_next_passes_over(before, 0, offset, timestamp, value);
    }
}

/// A partition in which nothing was produced, on an empty file: the next
/// offset is 0, and partition and file agree.
pub proof fn lemma_empty_agrees()
    ensures
        empty_log().wf(),
        empty_log().next_offset == 0,
        tail_agrees(empty_log(), Seq::<u8>::empty()),
{
    assert(region(Seq::<u8>::empty(), empty_log().index.last()) =~= Seq::<u8>::empty());
}

/// Offsets count up: a record gets the next offset, and the one after it
/// the offset one higher.
pub proof fn lemma_offsets_count_up(log: Log, len: nat)
    requires
        log.wf(),
        log.room(len),
    ensures
        log.produced(len).next_offset == log.next_offset + 1,
        log.produced(len).wf(),
{
    lemma_put(log.index, log.grown(len));
    lemma_put_last(log.index, log.grown(len));
}

/// The state after records of the lengths `lens` were produced, in their order.
pub open spec fn after_produces(log: Log, lens: Seq<nat>) -> Log
    decreases lens.len(),
{
    if lens.len() == 0 {
        log
    } else {
        after_produces(log, lens.drop_last()).produced(lens.last())
    }
}

/// Every record of the lengths `lens` finds room within the limits of the
/// machine.
pub open spec fn produces_fit(log: Log, lens: Seq<nat>) -> bool
    decreases lens.len(),
{
    if lens.len() == 0 {
        true
    } else {
        produces_fit(log, lens.drop_last()) && after_produces(log, lens.drop_last()).room(
            lens.last(),
        )
    }
}

/// Monotonicity: the records produced into an empty partition get the
/// offsets 0, 1, 2 and so on; after `n` of them the next offset is `n`.
pub proof fn lemma_offsets_from_zero(lens: Seq<nat>)
    requires
        produces_fit(empty_log(), lens),
    ensures
        after_produces(empty_log(), lens).wf(),
        after_produces(empty_log(), lens).next_offset == lens.len(),
    decreases lens.len(),
{
    if lens.len() > 0 {
        lemma_offsets_from_zero(lens.drop_last());
        lemma_offsets_count_up(after_produces(empty_log(), lens.drop_last()), lens.last());
    }
}

/// An offset that was not given out yet is a bad offset.
pub proof fn lemma_bad_offset(log: Log, offset: Offset)
    requires
        offset >= log.next_offset,
    ensures
        log.found(offset) == Err::<IndexEntry, PartitionError>(PartitionError::BadOffset(offset)),
{
}


/// From `address` on, `data` is whole records to its end, with offsets that
/// go up, from `lo` at least and below `hi`.
pub open spec fn rising(data: Seq<u8>, address: int, lo: int, hi: int) -> bool
    decreases data.len() - address,
{
    if address < 0 || address >= data.len() {
        address == data.len()
    } else {
        match parse_entry(data.skip(address)) {
            Some(d) => if d.size > 0 && lo <= d.offset < hi {
                rising(data, address + d.size, d.offset + 1, hi)
            } else {
                false
            },
            None => false,
        }
    }
}

/// A record that parses from `s` parses from a beginning of `s` that holds it.
pub proof fn lemma_entry_in_prefix(s: Seq<u8>, n: int)
    requires
        parse_entry(s) is Some,
        parse_entry(s).unwrap().size <= n <= s.len(),
    ensures
        parse_entry(s.subrange(0, n)) == parse_entry(s),
{
    let t = s.subrange(0, n);
    let (offset, a) = parse_varint(s).unwrap();
    let (timestamp, b) = parse_varint(s.skip(a)).unwrap();
    let (len, c) = parse_varint(s.skip(a + b)).unwrap();
    let start = a + b + c;
    assert(t[0] == s[0]);
    if s[0] == 251 {
        assert(t.subrange(1, 3) =~= s.subrange(1, 3));
    } else if s[0] == 252 {
        assert(t.subrange(1, 5) =~= s.subrange(1, 5));
    } else if s[0] == 253 {
        assert(t.subrange(1, 9) =~= s.subrange(1, 9));
    }
    assert(parse_varint(t) == parse_varint(s));
    let sa = s.skip(a);
    let ta = t.skip(a);
    assert(ta[0] == sa[0]);
    if sa[0] == 251 {
        assert(ta.subrange(1, 3) =~= sa.subrange(1, 3));
    } else if sa[0] == 252 {
        assert(ta.subrange(1, 5) =~= sa.subrange(1, 5));
    } else if sa[0] == 253 {
        assert(ta.subrange(1, 9) =~= sa.subrange(1, 9));
    }
    assert(parse_varint(ta) == parse_varint(sa));
    let sb = s.skip(a + b);
    let tb = t.skip(a + b);
    assert(tb[0] == sb[0]);
    if sb[0] == 251 {
        assert(tb.subrange(1, 3) =~= sb.subrange(1, 3));
    } else if sb[0] == 252 {
        assert(tb.subrange(1, 5) =~= sb.subrange(1, 5));
    } else if sb[0] == 253 {
        assert(tb.subrange(1, 9) =~= sb.subrange(1, 9));
    }
    assert(parse_varint(tb) == parse_varint(sb));
    assert(t.subrange(start, start + len) =~= s.subrange(start, start + len));
}

/// Whole records with offsets below `bound`, with one more record behind
/// them whose offset is below `more`, are whole records with offsets below
/// the larger of the two.
pub proof fn lemma_records_below_push(
    data: Seq<u8>,
    address: int,
    bound: int,
    record: Seq<u8>,
    more: int,
)
    requires
        0 <= address <= data.len(),
        records_below(data, address, bound),
        parse_entry(record) is Some,
        parse_entry(record).unwrap().size == record.len(),
        parse_entry(record).unwrap().offset < more,
        bound <= more,
    ensures
        records_below(data + record, address, more),
    decreases data.len() - address,
{
    let longer = data + record;
    if address >= data.len() {
        assert(longer.skip(address) =~= record);
        lemma_parse_entry_size(record);
        assert(records_below(longer, longer.len() as int, more));
    } else {
        let d = parse_entry(data.skip(address)).unwrap();
        lemma_parse_entry_size(data.skip(address));
        assert(longer.skip(address) =~= data.skip(address) + record);
        lemma_entry_in_longer(data.skip(address), record);
        lemma_records_below_push(data, address + d.size, bound, record, more);
    }
}

/// What the scan has come to, when it stands at `address` of the records that
/// were produced before: the segment that is being filled is whole records
/// with offsets below `lo`, and no segment of the index begins above it.
pub open spec fn scan_inv(before: Seq<u8>, cursor: Cursor, address: int, lo: int) -> bool {
    &&& ordered(cursor.index)
    &&& 0 <= cursor.cutoff <= address
    &&& cursor.cutoff + cursor.current == address
    &&& match cursor.first {
        Some(f) => {
            &&& f < lo
            &&& cursor.highest < lo
            &&& forall|i: int|
                0 <= i < cursor.index.len() ==> (#[trigger] cursor.index[i]).offset <= f
            &&& records_below(before.subrange(cursor.cutoff, address), 0, lo)
        },
        None => cursor.index.len() == 0 && address == 0 && cursor.highest == 0 && lo == 0,
    }
}

/// What the scan ends with, for a file that is records produced before and
/// then the record of `offset`: the highest offset is `offset`, and the last
/// segment of the index reaches to the end of the file, begins at or below
/// `offset`, and holds before the last record whole records with lower
/// offsets.
pub open spec fn scan_goal(
    before: Seq<u8>,
    record: Seq<u8>,
    file: usize,
    offset: Offset,
    result: Option<(Seq<IndexEntry>, u64)>,
) -> bool {
    &&& result matches Some((index, highest))
    &&& highest == offset
    &&& index.len() > 0
    &&& ordered(index)
    &&& index.last().file == file
    &&& index.last().offset <= offset
    &&& index.last().address <= before.len()
    &&& index.last().address + index.last().size == before.len() + record.len()
    &&& records_below(
        before.subrange(index.last().address as int, before.len() as int),
        0,
        offset as int,
    )
}

/// The last step of the scan: the record that was produced last.
proof fn lemma_scan_last(
    before: Seq<u8>,
    file: usize,
    cursor: Cursor,
    lo: int,
    offset: Offset,
    timestamp: u64,
    value: Seq<char>,
)
    requires
        scan_inv(before, cursor, before.len() as int, lo),
        lo <= offset,
        encode_utf8(value).len() <= usize::MAX,
        before.len() + encode_entry(offset, timestamp, value).len() <= usize::MAX,
    ensures
        scan_goal(
            before,
            encode_entry(offset, timestamp, value),
            file,
            offset,
            scan_file(
                before + encode_entry(offset, timestamp, value),
                file,
                before.len() as int,
                cursor,
            ),
        ),
{
    let record = encode_entry(offset, timestamp, value);
    let data = before + record;
    let address = before.len() as int;
    lemma_varint_len(offset);
    assert(data.skip(address) =~= record + Seq::<u8>::empty());
    lemma_entry_round_trip(offset, timestamp, value, Seq::<u8>::empty());
    let end = address + record.len();
    let next = cursor.step(file, offset, end);
    assert(scan_file(data, file, address, cursor) == scan_file(data, file, end, next));
    assert(scan_file(data, file, end, next) == Some(next.finish(file)));
    let first = match cursor.first {
        Some(o) => o,
        None => offset,
    };
    if end - cursor.cutoff <= SEG_LENGTH {
        let segment = next.segment(file, first);
        lemma_put(cursor.index, segment);
        if cursor.index.len() > 0 {
            assert(cursor.index.last().offset <= first);
            lemma_put_last(cursor.index, segment);
        }
        assert(before.subrange(cursor.cutoff, address).len() == 0 ==> records_below(
            before.subrange(cursor.cutoff, address),
            0,
            offset as int,
        ));
        lemma_records_below_bound(before.subrange(cursor.cutoff, address), 0, lo, offset as int);
    } else {
        let closed = cursor.segment(file, first);
        lemma_put(cursor.index, closed);
        if cursor.index.len() > 0 {
            assert(cursor.index.last().offset <= first);
            lemma_put_last(cursor.index, closed);
        }
        let segment = next.segment(file, offset);
        lemma_put(next.index, segment);
        assert(next.index.last() == closed);
        lemma_put_last(next.index, segment);
        assert(before.subrange(address, address) =~= Seq::<u8>::empty());
    }
}

/// Whole records with offsets below a bound have offsets below every larger
/// bound.
pub proof fn lemma_records_below_bound(data: Seq<u8>, address: int, bound: int, more: int)
    requires
        records_below(data, address, bound),
        bound <= more,
    ensures
        records_below(data, address, more),
    decreases data.len() - address,
{
    if 0 <= address < data.len() {
        let d = parse_entry(data.skip(address)).unwrap();
        lemma_records_below_bound(data, address + d.size, bound, more);
    }
}

/// One step of the scan over a record that was produced before.
proof fn lemma_scan_step(before: Seq<u8>, file: usize, address: int, cursor: Cursor, lo: int)
    requires
        0 <= address < before.len(),
        before.len() <= usize::MAX,
        scan_inv(before, cursor, address, lo),
        parse_entry(before.skip(address)) is Some,
        lo <= parse_entry(before.skip(address)).unwrap().offset,
    ensures
        ({
            let d = parse_entry(before.skip(address)).unwrap();
            scan_inv(
                before,
                cursor.step(file, d.offset, address + d.size),
                address + d.size,
                d.offset + 1,
            )
        }),
{
    let rest = before.skip(address);
    let d = parse_entry(rest).unwrap();
    lemma_parse_entry_size(rest);
    let end = address + d.size;
    let next = cursor.step(file, d.offset, end);
    // The record by itself, as the segment of the file holds it.
    let alone = before.subrange(address, end);
    assert(alone =~= rest.subrange(0, d.size));
    lemma_entry_in_prefix(rest, d.size);
    let first = match cursor.first {
        Some(o) => o,
        None => d.offset,
    };
    if end - cursor.cutoff <= SEG_LENGTH {
        let filled = before.subrange(cursor.cutoff, address);
        assert(before.subrange(cursor.cutoff, end) =~= filled + alone);
        if cursor.first is None {
            assert(records_below(filled, 0, 0));
        }
        lemma_records_below_push(filled, 0, lo, alone, d.offset + 1);
        assert(records_below(before.subrange(next.cutoff, end), 0, d.offset + 1));
    } else {
        let closed = cursor.segment(file, first);
        lemma_put(cursor.index, closed);
        if cursor.index.len() > 0 {
            assert(cursor.index.last().offset <= first);
            lemma_put_last(cursor.index, closed);
        }
        assert(next.index == crate::partition::index::put(cursor.index, closed));
        assert forall|i: int| 0 <= i < next.index.len() implies (#[trigger] next.index[i]).offset
            <= d.offset by {
            let e = next.index[i];
            assert(next.index.contains(e));
            if e != closed {
                assert(cursor.index.contains(e));
                let j = choose|j: int| 0 <= j < cursor.index.len() && cursor.index[j] == e;
                assert(cursor.index[j].offset <= first);
            }
        }
        assert(before.subrange(address, address) =~= Seq::<u8>::empty());
        assert(records_below(Seq::<u8>::empty(), 0, 0));
        assert(before.subrange(address, end) =~= Seq::<u8>::empty() + alone);
        lemma_records_below_push(Seq::<u8>::empty(), 0, 0, alone, d.offset + 1);
        assert(next.cutoff == address);
        assert(records_below(before.subrange(next.cutoff, end), 0, d.offset + 1));
    }
}

/// The scan of a file that is records with rising offsets, produced before,
/// and then the record of `offset`, from `address` on.
proof fn lemma_scan_rising(
    before: Seq<u8>,
    file: usize,
    address: int,
    cursor: Cursor,
    lo: int,
    offset: Offset,
    timestamp: u64,
    value: Seq<char>,
)
    requires
        0 <= address <= before.len(),
        scan_inv(before, cursor, address, lo),
        rising(before, address, lo, offset as int),
        lo <= offset,
        encode_utf8(value).len() <= usize::MAX,
        before.len() + encode_entry(offset, timestamp, value).len() <= usize::MAX,
    ensures
        scan_goal(
            before,
            encode_entry(offset, timestamp, value),
            file,
            offset,
            scan_file(before + encode_entry(offset, timestamp, value), file, address, cursor),
        ),
    decreases before.len() - address,
{
    let record = encode_entry(offset, timestamp, value);
    let data = before + record;
    if address >= before.len() {
        lemma_scan_last(before, file, cursor, lo, offset, timestamp, value);
    } else {
        let rest = before.skip(address);
        let d = parse_entry(rest).unwrap();
        lemma_parse_entry_size(rest);
        assert(data.skip(address) =~= rest + record);
        lemma_entry_in_longer(rest, record);
        let end = address + d.size;
        let next = cursor.step(file, d.offset, end);
        assert(scan_file(data, file, address, cursor) == scan_file(data, file, end, next));
        lemma_scan_step(before, file, address, cursor, lo);
        lemma_scan_rising(before, file, end, next, d.offset + 1, offset, timestamp, value);
    }
}

/// Records with rising offsets below `offset`, with the record of `offset`
/// behind them, are records with rising offsets again.
pub proof fn lemma_rising_push(
    data: Seq<u8>,
    address: int,
    lo: int,
    offset: Offset,
    timestamp: u64,
    value: Seq<char>,
)
    requires
        0 <= address <= data.len(),
        rising(data, address, lo, offset as int),
        lo <= offset,
        encode_utf8(value).len() <= usize::MAX,
    ensures
        rising(data + encode_entry(offset, timestamp, value), address, lo, offset + 1),
    decreases data.len() - address,
{
    let record = encode_entry(offset, timestamp, value);
    let longer = data + record;
    lemma_varint_len(offset);
    if address >= data.len() {
        assert(longer.skip(address) =~= record + Seq::<u8>::empty());
        lemma_entry_round_trip(offset, timestamp, value, Seq::<u8>::empty());
        assert(rising(longer, longer.len() as int, offset + 1, offset + 1));
    } else {
        let d = parse_entry(data.skip(address)).unwrap();
        lemma_parse_entry_size(data.skip(address));
        assert(longer.skip(address) =~= data.skip(address) + record);
        lemma_entry_in_longer(data.skip(address), record);
        lemma_rising_push(data, address + d.size, d.offset + 1, offset, timestamp, value);
    }
}

/// Recovery: a file that is records with rising offsets, produced before, and
/// then the record of `offset`, recovers to a partition whose next offset is
/// one above `offset`, and which agrees with the file. The segment found for
/// `offset` is the last one; a read of it for that offset hands out the
/// record that was produced last, and a second read finds nothing more.
pub proof fn lemma_recover_then_consume(
    before: Seq<u8>,
    offset: Offset,
    timestamp: u64,
    value: Seq<char>,
)
    requires
        rising(before, 0, 0, offset as int),
        offset < u64::MAX,
        encode_utf8(value).len() <= usize::MAX,
        before.len() + encode_entry(offset, timestamp, value).len() <= usize::MAX,
    ensures
        ({
            let record = encode_entry(offset, timestamp, value);
            let file = before + record;
            &&& recovered(seq![file]) matches Ok(Some(log))
            &&& log.wf()
            &&& log.next_offset == offset + 1
            &&& tail_agrees(log, file)
            &&& log.found(offset) == Ok::<IndexEntry, PartitionError>(log.index.last())
            &&& next_from(region(file, log.index.last()), 0, offset) == (
                Ok::<Option<Decoded>, PartitionError>(
                    Some(Decoded { offset, timestamp, value, size: record.len() as int }),
                ),
                region(file, log.index.last()).len() as int,
            )
            &&& next_from(
                region(file, log.index.last()),
                region(file, log.index.last()).len() as int,
                offset,
            ) == (
                Ok::<Option<Decoded>, PartitionError>(None),
                region(file, log.index.last()).len() as int,
            )
        }),
{
    let record = encode_entry(offset, timestamp, value);
    let file = before + record;
    let listing = seq![file];
    let start = Cursor { index: Seq::empty(), highest: 0, cutoff: 0, current: 0, first: None };
    assert(scan_files(listing, 0) == Some((Seq::<IndexEntry>::empty(), 0u64)));
    assert(scan_files(listing, 1) == scan_file(listing[0], 0, 0, start));
    lemma_scan_rising(before, 0, 0, start, 0, offset, timestamp, value);
    let (index, highest) = scan_file(file, 0, 0, start).unwrap();
    let log = recovered(listing).unwrap().unwrap();
    let last = index.last();
    // The last segment is the one with the greatest offset not above `offset`.
    let n = index.len() as int;
    assert forall|i: int| 0 <= i < n implies (#[trigger] index[i]).offset < offset + 1 by {
        if i < n - 1 {
            assert(index[i].offset < index[n - 1].offset);
        }
    }
    lemma_below_is(index, offset + 1, 0, n);
    let kept = before.subrange(last.address as int, before.len() as int);
    assert(region(file, last) =~= kept + record);
    lemma_next_passes_over(kept, 0, offset, timestamp, value);
}

/// The segment that a record goes to is no longer than `SEG_LENGTH`, unless
/// it holds the record alone.
pub proof fn lemma_segment_bound(log: Log, len: nat)
    requires
        log.wf(),
        log.room(len),
    ensures
        log.produced(len).index.last() == log.grown(len),
        log.grown(len).size <= SEG_LENGTH || log.grown(len).size == len,
{
    lemma_put(log.index, log.grown(len));
    lemma_put_last(log.index, log.grown(len));
}

} // verus!
