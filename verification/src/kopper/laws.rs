//! What holds of the engine whatever is written to it.

use crate::kopper::file_index::{find_byte, lemma_find_byte, lemma_find_byte_is,
    lemma_name_round_trip, FileIndex, KopperError};
use crate::kopper::files::{file_at, has_file, lemma_file_at, lemma_has_file, lemma_slot_bounds,
    lemma_slot_is, lemma_with_file, lemma_without_file, slot, with_file, FileEntry};
use crate::kopper::records::{framed, lemma_framed_record, lemma_record_at, record_at};
use crate::kopper::state::{count_unused, disk_after_compaction, disk_after_write, entry_of,
    is_live, lemma_appended_wf, lemma_count_unused, lemma_grow, lemma_rolled_wf, lemma_sift_len,
    opened, record_bytes, record_len, recover, recover_upto, same_lengths, scan_from, sift, Disk,
    FileImage, State, TableEntry};
use vstd::prelude::*;
use vstd::utf8::*;

verus! {

/// A rollover, with the new file opened on the disk, keeps state and disk in
/// agreement and moves no value.
pub proof fn lemma_rollover_holds(s: State, disk: Disk)
    requires
        s.wf(),
        s.holds(disk),
        s.active.base < u32::MAX,
    ensures
        s.rolled().wf(),
        s.rolled().holds(disk_after_write(disk, true, s.next_file(), Seq::<u8>::empty())),
        forall|k: Seq<char>|
            s.rolled().stored(
                disk_after_write(disk, true, s.next_file(), Seq::<u8>::empty()),
                k,
            ) == s.stored(disk, k),
{
    let next = s.next_file();
    let t = s.rolled();
    let d = disk_after_write(disk, true, next, Seq::<u8>::empty());
    lemma_rolled_wf(s);
    lemma_with_file(s.files, FileEntry { file_index: next, unused_count: 0, len: 0 });
    assert(has_file(s.files, next) <==> disk.contains_key(next));
    if disk.contains_key(next) {
        assert(disk[next] + Seq::<u8>::empty() =~= disk[next]);
        assert(d =~= disk);
    } else {
        assert(Seq::<u8>::empty() + Seq::<u8>::empty() =~= Seq::<u8>::empty());
        assert(d =~= disk.insert(next, Seq::<u8>::empty()));
        assert forall|f: FileIndex| has_file(t.files, f) <==> #[trigger] d.contains_key(f) by {
            if f != next {
                assert(file_at(t.files, f) == file_at(s.files, f));
                assert(has_file(s.files, f) <==> disk.contains_key(f));
            }
        }
        assert forall|f: FileIndex| #[trigger] d.contains_key(f) implies file_at(
            t.files,
            f,
        ).unwrap().len == d[f].len() by {
            if f != next {
                assert(file_at(t.files, f) == file_at(s.files, f));
                assert(disk.contains_key(f));
            }
        }
        assert forall|k: Seq<char>| #[trigger] t.table.contains_key(k) implies {
            &&& d.contains_key(t.table[k].file_index)
            &&& t.table[k].offset + t.table[k].len <= d[t.table[k].file_index].len()
        } by {
            assert(s.table.contains_key(k));
        }
    }
    assert forall|k: Seq<char>| t.stored(d, k) == s.stored(disk, k) by {
        if s.table.contains_key(k) {
            assert(disk.contains_key(s.table[k].file_index));
        }
    }
}

/// An append, with the record put at the end of the active file on the disk,
/// keeps state and disk in agreement; the key then reads as the value, and
/// every other key as before.
pub proof fn lemma_append_holds(s: State, disk: Disk, key: Seq<char>, value: Seq<char>)
    requires
        s.wf(),
        s.holds(disk),
        s.size + record_len(key, value) <= u64::MAX,
        encode_utf8(value).len() <= usize::MAX,
    ensures
        s.appended(key, value).wf(),
        s.appended(key, value).holds(
            disk_after_write(disk, false, s.active, record_bytes(key, value)),
        ),
        s.appended(key, value).stored(
            disk_after_write(disk, false, s.active, record_bytes(key, value)),
            key,
        ) == Some(encode_utf8(value)),
        forall|k: Seq<char>|
            k != key ==> s.appended(key, value).stored(
                disk_after_write(disk, false, s.active, record_bytes(key, value)),
                k,
            ) == s.stored(disk, k),
{
    let n = record_len(key, value);
    let bytes = record_bytes(key, value);
    let t = s.appended(key, value);
    let d = disk_after_write(disk, false, s.active, bytes);
    lemma_appended_wf(s, key, value);
    let counted = if s.table.contains_key(key) {
        count_unused(s.files, s.table[key].file_index)
    } else {
        s.files
    };
    if s.table.contains_key(key) {
        lemma_count_unused(s.files, s.table[key].file_index);
    }
    lemma_grow(counted, s.active, n);
    assert(has_file(s.files, s.active));
    assert(disk.contains_key(s.active));
    assert(d =~= disk.insert(s.active, disk[s.active] + bytes));
    assert(file_at(s.files, s.active).unwrap().len == disk[s.active].len());
    assert(same_lengths(counted, s.files, s.active));
    assert(disk[s.active].len() == s.offset);
    assert(bytes.len() == n);
    crate::kopper::files::lemma_has_file(s.files, s.active);
    crate::kopper::files::lemma_total_len_update(
        s.files,
        crate::kopper::files::slot(s.files, s.active),
        s.files[crate::kopper::files::slot(s.files, s.active)],
    );
    assert forall|f: FileIndex| has_file(t.files, f) <==> #[trigger] d.contains_key(f) by {
        assert(same_lengths(counted, s.files, f));
        if f != s.active {
            assert(same_lengths(t.files, counted, f));
        }
        assert(has_file(s.files, f) <==> disk.contains_key(f));
    }
    assert forall|f: FileIndex| #[trigger] d.contains_key(f) implies file_at(
        t.files,
        f,
    ).unwrap().len == d[f].len() by {
        assert(same_lengths(counted, s.files, f));
        if f != s.active {
            assert(same_lengths(t.files, counted, f));
            assert(disk.contains_key(f));
        }
    }
    assert forall|k: Seq<char>| #[trigger] t.table.contains_key(k) implies {
        &&& d.contains_key(t.table[k].file_index)
        &&& t.table[k].offset + t.table[k].len <= d[t.table[k].file_index].len()
    } by {
        if k != key {
            assert(s.table.contains_key(k));
        }
    }
    let e = t.table[key];
    let klen = encode_utf8(key).len();
    assert(d[s.active].subrange(e.offset as int, e.offset + e.len) =~= encode_utf8(value));
    assert forall|k: Seq<char>| k != key implies t.stored(d, k) == s.stored(disk, k) by {
        if s.table.contains_key(k) {
            let x = s.table[k];
            assert(disk.contains_key(x.file_index));
            if x.file_index == s.active {
                assert(d[s.active].subrange(x.offset as int, x.offset + x.len)
                    =~= disk[s.active].subrange(x.offset as int, x.offset + x.len));
            }
        }
    }
}

/// Write, then read: after a write of `value` under `key`, with the plan
/// carried out on the disk, the index leads to the bytes of `value`, which
/// decode to `value`; every other key reads as before, and state and disk
/// agree again.
pub proof fn lemma_write_then_read(
    s: State,
    disk: Disk,
    key: Seq<char>,
    value: Seq<char>,
    segment_size: u64,
)
    requires
        s.wf(),
        s.holds(disk),
        s.write_fits(key, value, segment_size),
    ensures
        ({
            let t = s.after_write(key, value, segment_size);
            let d = disk_after_write(
                disk,
                s.rolls_over(key, value, segment_size),
                t.active,
                record_bytes(key, value),
            );
            &&& t.wf()
            &&& t.holds(d)
            &&& t.stored(d, key) == Some(encode_utf8(value))
            &&& valid_utf8(encode_utf8(value))
            &&& decode_utf8(encode_utf8(value)) == value
            &&& forall|k: Seq<char>| k != key ==> t.stored(d, k) == s.stored(disk, k)
        }),
{
    encode_utf8_valid_utf8(value);
    encode_utf8_decode_utf8(value);
    let bytes = record_bytes(key, value);
    if s.rolls_over(key, value, segment_size) {
        let r = s.rolled();
        let d1 = disk_after_write(disk, true, s.next_file(), Seq::<u8>::empty());
        lemma_rollover_holds(s, disk);
        lemma_append_holds(r, d1, key, value);
        let d = disk_after_write(disk, true, r.active, bytes);
        let d2 = disk_after_write(d1, false, r.active, bytes);
        assert(d1[r.active] + bytes =~= (if disk.contains_key(r.active) {
            disk[r.active]
        } else {
            Seq::<u8>::empty()
        }) + bytes) by {
            if disk.contains_key(r.active) {
                assert(disk[r.active] + Seq::<u8>::empty() =~= disk[r.active]);
            } else {
                assert(Seq::<u8>::empty() + Seq::<u8>::empty() =~= Seq::<u8>::empty());
            }
        }
        assert(d =~= d2);
        assert forall|k: Seq<char>| k != key implies s.after_write(
            key,
            value,
            segment_size,
        ).stored(d, k) == s.stored(disk, k) by {
            assert(r.stored(d1, k) == s.stored(disk, k));
        }
    } else {
        lemma_append_holds(s, disk, key, value);
    }
}


/// From `from` on, `log` is complete records whose keys are text, to its end.
pub open spec fn clean_from(log: Seq<u8>, from: int) -> bool
    decreases log.len() - from,
{
    if from >= log.len() {
        from == log.len()
    } else {
        match record_at(log, from) {
            Some(span) if span.end > from => valid_utf8(span.key(log)) && clean_from(
                log,
                span.end,
            ),
            _ => false,
        }
    }
}

/// The files of a table as a directory holds them on `disk`, in the order of
/// their names.
pub open spec fn images_of(files: Seq<FileEntry>, disk: Disk) -> Seq<FileImage> {
    Seq::new(
        files.len(),
        |i: int| FileImage { name: files[i].file_index.name(), contents: disk[files[i].file_index] },
    )
}

/// What is on `disk` recovers to the index of `s`: every file is complete
/// records, and a scan of the files in the order of their names gives the
/// index.
pub open spec fn durable(s: State, disk: Disk) -> bool {
    &&& forall|f: FileIndex| #[trigger] disk.contains_key(f) ==> clean_from(disk[f], 0)
    &&& recover(images_of(s.files, disk)) matches Ok((table, files)) && table == s.table
}

/// A record in a log is the same record in a longer log.
pub proof fn lemma_record_in_longer(log: Seq<u8>, more: Seq<u8>, from: int)
    requires
        record_at(log, from) is Some,
    ensures
        record_at(log + more, from) == record_at(log, from),
        record_at(log, from).unwrap().key(log + more) == record_at(log, from).unwrap().key(log),
{
    let span = record_at(log, from).unwrap();
    let longer = log + more;
    lemma_record_at(log, from);
    lemma_find_byte(log, 0, from);
    lemma_find_byte(log, 0, span.key_end + 1);
    assert forall|i: int| 0 <= i < log.len() implies longer[i] == log[i] by {}
    lemma_find_byte_is(longer, 0, from, span.key_end);
    lemma_find_byte_is(longer, 0, span.key_end + 1, span.end - 1);
    assert(span.key(longer) =~= span.key(log));
}

/// A record appended to a clean log is scanned last: the index ends up as
/// after the scan of the log, with the record's key pointing at its value.
pub proof fn lemma_scan_append(
    table: Map<Seq<char>, TableEntry>,
    file: FileIndex,
    log: Seq<u8>,
    from: int,
    key: Seq<u8>,
    value: Seq<u8>,
)
    requires
        0 <= from <= log.len(),
        clean_from(log, from),
        valid_utf8(key),
        !key.contains(0),
        !value.contains(0),
    ensures
        scan_from(table, file, log, from).1,
        clean_from(log + framed(key, value), from),
        scan_from(table, file, log + framed(key, value), from) == (
            scan_from(table, file, log, from).0.insert(
                decode_utf8(key),
                entry_of(file, (log.len() + key.len() + 1) as int, value.len() as int),
            ),
            true,
        ),
    decreases log.len() - from,
{
    let rec = framed(key, value);
    let longer = log + rec;
    if from >= log.len() {
        let end = from + key.len() + value.len() + 2;
        assert(longer.subrange(from, end) =~= rec);
        lemma_framed_record(longer, from, key, value);
        let span = record_at(longer, from).unwrap();
        assert(span.key(longer) =~= key);
        assert(record_at(longer, end) is None) by {
            assert(find_byte(longer, 0, end) == longer.len());
        }
        assert(record_at(log, from) is None) by {
            assert(find_byte(log, 0, from) == log.len());
        }
        assert(clean_from(longer, end));
        assert(span.value_len() == value.len());
        let put = table.insert(
            decode_utf8(key),
            entry_of(file, span.value_start(), span.value_len()),
        );
        assert(scan_from(put, file, longer, end) == (put, true));
        assert(scan_from(table, file, longer, from) == scan_from(put, file, longer, end));
        assert(scan_from(table, file, log, from) == (table, true));
    } else {
        let span = record_at(log, from).unwrap();
        lemma_record_at(log, from);
        lemma_record_in_longer(log, rec, from);
        let put = table.insert(
            decode_utf8(span.key(log)),
            entry_of(file, span.value_start(), span.value_len()),
        );
        lemma_scan_append(put, file, log, span.end, key, value);
        assert(scan_from(table, file, log, from) == scan_from(put, file, log, span.end));
        assert(scan_from(table, file, longer, from) == scan_from(put, file, longer, span.end));
    }
}

/// Recovery of the first files of a listing looks at no other file.
pub proof fn lemma_recover_prefix(a: Seq<FileImage>, b: Seq<FileImage>, upto: int)
    requires
        forall|i: int| 0 <= i < upto ==> a[i] == b[i],
    ensures
        recover_upto(a, upto) == recover_upto(b, upto),
    decreases upto,
{
    if upto > 0 {
        lemma_recover_prefix(a, b, upto - 1);
    }
}

/// An entry put in under a name that the table holds changes no name.
pub proof fn lemma_same_names(files: Seq<FileEntry>, entry: FileEntry)
    requires
        has_file(files, entry.file_index),
    ensures
        with_file(files, entry).len() == files.len(),
        forall|i: int|
            0 <= i < files.len() ==> (#[trigger] with_file(files, entry)[i]).file_index
                == files[i].file_index,
{
    lemma_has_file(files, entry.file_index);
}

/// Durability of an append: where what is on disk recovers to the index, and
/// the active file is the last in the order of names, it still does after a
/// record without zero bytes in key and value went to the end of that file.
pub proof fn lemma_append_durable(s: State, disk: Disk, key: Seq<char>, value: Seq<char>)
    requires
        s.wf(),
        s.holds(disk),
        durable(s, disk),
        s.files.last().file_index == s.active,
        s.size + record_len(key, value) <= u64::MAX,
        encode_utf8(value).len() <= usize::MAX,
        !encode_utf8(key).contains(0),
        !encode_utf8(value).contains(0),
    ensures
        durable(
            s.appended(key, value),
            disk_after_write(disk, false, s.active, record_bytes(key, value)),
        ),
        s.appended(key, value).files.last().file_index == s.active,
{
    let kb = encode_utf8(key);
    let vb = encode_utf8(value);
    let rec = record_bytes(key, value);
    let n = record_len(key, value);
    let t = s.appended(key, value);
    let d = disk_after_write(disk, false, s.active, rec);
    encode_utf8_valid_utf8(key);
    encode_utf8_decode_utf8(key);
    lemma_has_file(s.files, s.active);
    let last = s.files.len() - 1;
    lemma_file_at(s.files, last);
    assert(disk.contains_key(s.active));
    assert(d =~= disk.insert(s.active, disk[s.active] + rec));
    // The table keeps its names.
    let counted = if s.table.contains_key(key) {
        count_unused(s.files, s.table[key].file_index)
    } else {
        s.files
    };
    if s.table.contains_key(key) {
        lemma_count_unused(s.files, s.table[key].file_index);
        match file_at(s.files, s.table[key].file_index) {
            Some(e) => {
                lemma_same_names(
                    s.files,
                    FileEntry {
                        file_index: s.table[key].file_index,
                        unused_count: (e.unused_count + 1) as usize,
                        len: e.len,
                    },
                );
            },
            None => {},
        }
    }
    assert(same_lengths(counted, s.files, s.active));
    let e = file_at(counted, s.active).unwrap();
    lemma_same_names(
        counted,
        FileEntry { file_index: s.active, unused_count: e.unused_count, len: (e.len + n) as u64 },
    );
    assert(t.files.len() == s.files.len());
    assert forall|i: int| 0 <= i < s.files.len() implies (#[trigger] t.files[i]).file_index
        == s.files[i].file_index by {
        assert(counted[i].file_index == s.files[i].file_index);
    }
    // All files but the last are as they were.
    let before = images_of(s.files, disk);
    let after = images_of(t.files, d);
    assert forall|i: int| 0 <= i < last implies after[i] == before[i] by {
        assert(s.files[i].file_index.precedes(s.files[last].file_index));
    }
    lemma_recover_prefix(after, before, last);
    let (table0, files0) = recover_upto(before, last).unwrap();
    lemma_name_round_trip(s.active);
    assert(before[last].contents == disk[s.active]);
    assert(after[last].contents == disk[s.active] + rec);
    lemma_scan_append(table0, s.active, disk[s.active], 0, kb, vb);
    lemma_total_bound(s);
    assert(t.table =~= s.table.insert(key, s.new_entry(key, value)));
    assert forall|f: FileIndex| #[trigger] d.contains_key(f) implies clean_from(d[f], 0) by {
        assert(disk.contains_key(f));
    }
}

/// The active file is no longer than all files together.
pub proof fn lemma_total_bound(s: State)
    requires
        s.wf(),
    ensures
        s.offset <= s.size,
{
    lemma_has_file(s.files, s.active);
    crate::kopper::files::lemma_total_len_update(
        s.files,
        slot(s.files, s.active),
        s.files[slot(s.files, s.active)],
    );
}

/// Durability of a rollover: where what is on disk recovers to the index, and
/// the active file is the last in the order of names, it still does after a
/// rollover, whose new file is again the last.
pub proof fn lemma_rollover_durable(s: State, disk: Disk)
    requires
        s.wf(),
        s.holds(disk),
        durable(s, disk),
        s.files.last().file_index == s.active,
        s.active.base < u32::MAX,
    ensures
        durable(s.rolled(), disk_after_write(disk, true, s.next_file(), Seq::<u8>::empty())),
        s.rolled().files.last().file_index == s.rolled().active,
{
    let next = s.next_file();
    let t = s.rolled();
    let d = disk_after_write(disk, true, next, Seq::<u8>::empty());
    let last = s.files.len() - 1;
    lemma_has_file(s.files, s.active);
    lemma_file_at(s.files, last);
    // The new name comes after every name of the table.
    assert forall|i: int| 0 <= i < s.files.len() implies (#[trigger] s.files[i]).file_index.precedes(
        next,
    ) by {
        if i < last {
            assert(s.files[i].file_index.precedes(s.files[last].file_index));
        }
    }
    lemma_slot_is(s.files, next, 0, s.files.len() as int);
    let entry = FileEntry { file_index: next, unused_count: 0, len: 0 };
    assert(t.files =~= s.files.push(entry));
    assert(!has_file(s.files, next));
    assert(!disk.contains_key(next));
    assert(Seq::<u8>::empty() + Seq::<u8>::empty() =~= Seq::<u8>::empty());
    assert(d =~= disk.insert(next, Seq::<u8>::empty()));
    let before = images_of(s.files, disk);
    let after = images_of(t.files, d);
    assert forall|i: int| 0 <= i < s.files.len() implies after[i] == before[i] by {
        assert(s.files[i].file_index.precedes(next));
    }
    lemma_recover_prefix(after, before, s.files.len() as int);
    lemma_name_round_trip(next);
    assert(after[s.files.len() as int].contents == Seq::<u8>::empty());
    assert(record_at(Seq::<u8>::empty(), 0) is None) by {
        assert(find_byte(Seq::<u8>::empty(), 0, 0) == 0);
    }
    assert forall|f: FileIndex| #[trigger] d.contains_key(f) implies clean_from(d[f], 0) by {
        if f != next {
            assert(disk.contains_key(f));
        }
    }
}

/// Durability of a write: where what is on disk recovers to the index, and
/// the active file is the last in the order of names, then after a write of a
/// key and a value without zero bytes, with the plan carried out on the disk,
/// what is on disk recovers to the new index: an engine opened on it reads
/// every key as the engine that wrote did.
pub proof fn lemma_write_durable(
    s: State,
    disk: Disk,
    key: Seq<char>,
    value: Seq<char>,
    segment_size: u64,
)
    requires
        s.wf(),
        s.holds(disk),
        durable(s, disk),
        s.files.last().file_index == s.active,
        s.write_fits(key, value, segment_size),
        !encode_utf8(key).contains(0),
        !encode_utf8(value).contains(0),
    ensures
        ({
            let t = s.after_write(key, value, segment_size);
            let d = disk_after_write(
                disk,
                s.rolls_over(key, value, segment_size),
                t.active,
                record_bytes(key, value),
            );
            &&& durable(t, d)
            &&& t.files.last().file_index == t.active
            &&& recover(images_of(t.files, d)) matches Ok((table, files)) && forall|k: Seq<char>|
                opened(table, files).stored(d, k) == t.stored(d, k)
        }),
{
    let bytes = record_bytes(key, value);
    let t = s.after_write(key, value, segment_size);
    if s.rolls_over(key, value, segment_size) {
        let r = s.rolled();
        let d1 = disk_after_write(disk, true, s.next_file(), Seq::<u8>::empty());
        lemma_rollover_holds(s, disk);
        lemma_rollover_durable(s, disk);
        lemma_append_durable(r, d1, key, value);
        let d = disk_after_write(disk, true, r.active, bytes);
        let d2 = disk_after_write(d1, false, r.active, bytes);
        assert(d1[r.active] + bytes =~= (if disk.contains_key(r.active) {
            disk[r.active]
        } else {
            Seq::<u8>::empty()
        }) + bytes) by {
            if disk.contains_key(r.active) {
                assert(disk[r.active] + Seq::<u8>::empty() =~= disk[r.active]);
            } else {
                assert(Seq::<u8>::empty() + Seq::<u8>::empty() =~= Seq::<u8>::empty());
            }
        }
        assert(d =~= d2);
    } else {
        lemma_append_durable(s, disk, key, value);
    }
}

/// A new engine on an empty directory, with its first file made, is durable,
/// and its active file is the last.
pub proof fn lemma_fresh_durable()
    ensures
        ({
            let s = opened(Map::empty(), Seq::empty());
            let disk = Map::<FileIndex, Seq<u8>>::empty().insert(s.active, Seq::<u8>::empty());
            &&& s.wf()
            &&& s.holds(disk)
            &&& durable(s, disk)
            &&& s.files.last().file_index == s.active
        }),
{
    let s = opened(Map::empty(), Seq::empty());
    let first = s.active;
    let disk = Map::<FileIndex, Seq<u8>>::empty().insert(first, Seq::<u8>::empty());
    lemma_file_at(s.files, 0);
    assert(s.files.drop_last() =~= Seq::<FileEntry>::empty());
    assert forall|f: FileIndex| has_file(s.files, f) <==> #[trigger] disk.contains_key(f) by {
        if has_file(s.files, f) {
            lemma_has_file(s.files, f);
        }
    }
    lemma_name_round_trip(first);
    assert(record_at(Seq::<u8>::empty(), 0) is None) by {
        assert(find_byte(Seq::<u8>::empty(), 0, 0) == 0);
    }
    let imgs = images_of(s.files, disk);
    assert(imgs[0].contents == Seq::<u8>::empty());
    assert(recover_upto(imgs, 0) == Ok::<(Map<Seq<char>, TableEntry>, Seq<FileEntry>), KopperError>(
        (Map::empty(), Seq::empty()),
    ));
}


/// The state after the writes of `writes`, in their order.
pub open spec fn after_writes(
    s: State,
    writes: Seq<(Seq<char>, Seq<char>)>,
    segment_size: u64,
) -> State
    decreases writes.len(),
{
    if writes.len() == 0 {
        s
    } else {
        after_writes(s, writes.drop_last(), segment_size).after_write(
            writes.last().0,
            writes.last().1,
            segment_size,
        )
    }
}

/// The number of bytes that the records of `writes` take together.
pub open spec fn total_framed(writes: Seq<(Seq<char>, Seq<char>)>) -> nat
    decreases writes.len(),
{
    if writes.len() == 0 {
        0
    } else {
        total_framed(writes.drop_last()) + record_len(writes.last().0, writes.last().1)
    }
}

/// The disk after the plans of the writes of `writes` were carried out, in
/// their order, beside the states `after_writes`.
pub open spec fn disk_after_writes(
    s: State,
    disk: Disk,
    writes: Seq<(Seq<char>, Seq<char>)>,
    segment_size: u64,
) -> Disk
    decreases writes.len(),
{
    if writes.len() == 0 {
        disk
    } else {
        let before = after_writes(s, writes.drop_last(), segment_size);
        disk_after_write(
            disk_after_writes(s, disk, writes.drop_last(), segment_size),
            before.rolls_over(writes.last().0, writes.last().1, segment_size),
            before.after_write(writes.last().0, writes.last().1, segment_size).active,
            record_bytes(writes.last().0, writes.last().1),
        )
    }
}

/// Every write of `writes` finds room within the limits of the machine, and
/// has no zero byte in its key or its value.
pub open spec fn writes_fit(
    s: State,
    writes: Seq<(Seq<char>, Seq<char>)>,
    segment_size: u64,
) -> bool
    decreases writes.len(),
{
    if writes.len() == 0 {
        true
    } else {
        &&& writes_fit(s, writes.drop_last(), segment_size)
        &&& after_writes(s, writes.drop_last(), segment_size).write_fits(
            writes.last().0,
            writes.last().1,
            segment_size,
        )
        &&& !encode_utf8(writes.last().0).contains(0)
        &&& !encode_utf8(writes.last().1).contains(0)
    }
}

/// Durability of every sequence of writes: where what is on disk recovers to
/// the index and the active file is the last, then after any writes that find
/// room, with their plans carried out, state and disk agree, what is on disk
/// recovers to the index, and the active file is the last.
pub proof fn lemma_writes_durable(
    s: State,
    disk: Disk,
    writes: Seq<(Seq<char>, Seq<char>)>,
    segment_size: u64,
)
    requires
        s.wf(),
        s.holds(disk),
        durable(s, disk),
        s.files.last().file_index == s.active,
        writes_fit(s, writes, segment_size),
    ensures
        ({
            let t = after_writes(s, writes, segment_size);
            let d = disk_after_writes(s, disk, writes, segment_size);
            &&& t.wf()
            &&& t.holds(d)
            &&& durable(t, d)
            &&& t.files.last().file_index == t.active
        }),
    decreases writes.len(),
{
    if writes.len() > 0 {
        let before = after_writes(s, writes.drop_last(), segment_size);
        let on_disk = disk_after_writes(s, disk, writes.drop_last(), segment_size);
        lemma_writes_durable(s, disk, writes.drop_last(), segment_size);
        lemma_write_then_read(before, on_disk, writes.last().0, writes.last().1, segment_size);
        lemma_write_durable(before, on_disk, writes.last().0, writes.last().1, segment_size);
    }
}

/// The last write of a key wins: after any writes that find room, the key of
/// the last of them reads as the value of that write.
pub proof fn lemma_last_write_reads(
    s: State,
    disk: Disk,
    writes: Seq<(Seq<char>, Seq<char>)>,
    segment_size: u64,
)
    requires
        s.wf(),
        s.holds(disk),
        durable(s, disk),
        s.files.last().file_index == s.active,
        writes.len() > 0,
        writes_fit(s, writes, segment_size),
    ensures
        after_writes(s, writes, segment_size).stored(
            disk_after_writes(s, disk, writes, segment_size),
            writes.last().0,
        ) == Some(encode_utf8(writes.last().1)),
{
    let before = after_writes(s, writes.drop_last(), segment_size);
    let on_disk = disk_after_writes(s, disk, writes.drop_last(), segment_size);
    lemma_writes_durable(s, disk, writes.drop_last(), segment_size);
    lemma_write_then_read(before, on_disk, writes.last().0, writes.last().1, segment_size);
}

/// A write takes no file out of the table.
pub proof fn lemma_write_keeps_files(s: State, key: Seq<char>, value: Seq<char>, segment_size: u64)
    ensures
        s.after_write(key, value, segment_size).files.len() >= s.files.len(),
        s.rolls_over(key, value, segment_size) && s.files.len() == 1 && s.files[0].file_index
            == s.active && s.active.base < u32::MAX ==> s.after_write(
            key,
            value,
            segment_size,
        ).files.len() >= 2,
{
    let r = if s.rolls_over(key, value, segment_size) {
        s.rolled()
    } else {
        s
    };
    lemma_slot_bounds(s.files, s.next_file(), 0);
    lemma_append_keeps_files(r, key, value);
    if s.rolls_over(key, value, segment_size) && s.files.len() == 1 && s.files[0].file_index
        == s.active && s.active.base < u32::MAX {
        assert(s.next_file() != s.active);
    }
}

/// An append takes no file out of the table and puts none in.
pub proof fn lemma_append_keeps_files(s: State, key: Seq<char>, value: Seq<char>)
    ensures
        s.appended(key, value).files.len() == s.files.len(),
{
    let counted = if s.table.contains_key(key) {
        count_unused(s.files, s.table[key].file_index)
    } else {
        s.files
    };
    if s.table.contains_key(key) {
        lemma_slot_bounds(s.files, s.table[key].file_index, 0);
    }
    lemma_slot_bounds(counted, s.active, 0);
}

/// What holds of a new engine after some writes: it has come to a second
/// file, or all records lie in the first file, which has not passed the
/// segment size.
proof fn lemma_one_file_fits(writes: Seq<(Seq<char>, Seq<char>)>, segment_size: u64)
    ensures
        ({
            let t = after_writes(opened(Map::empty(), Seq::empty()), writes, segment_size);
            ||| t.files.len() >= 2
            ||| (t.files.len() == 1 && t.files[0].file_index == t.active && t.active.base == 0
                && t.offset == total_framed(writes) && total_framed(writes) <= segment_size)
        }),
    decreases writes.len(),
{
    let fresh = opened(Map::empty(), Seq::empty());
    if writes.len() > 0 {
        let before = after_writes(fresh, writes.drop_last(), segment_size);
        let (key, value) = writes.last();
        lemma_one_file_fits(writes.drop_last(), segment_size);
        lemma_write_keeps_files(before, key, value, segment_size);
        if before.files.len() == 1 && !before.rolls_over(key, value, segment_size) {
            lemma_append_keeps_files(before, key, value);
            let t = before.appended(key, value);
            lemma_file_at(before.files, 0);
            let counted = if before.table.contains_key(key) {
                count_unused(before.files, before.table[key].file_index)
            } else {
                before.files
            };
            lemma_slot_bounds(before.files, before.active, 0);
            if before.table.contains_key(key) {
                lemma_slot_bounds(before.files, before.table[key].file_index, 0);
            }
            lemma_slot_bounds(counted, before.active, 0);
            assert(counted[0].file_index == before.active);
            assert(t.files[0].file_index == before.active);
        }
    }
}

/// Segmentation: a new engine that has taken writes whose records together
/// are larger than the segment size has come to a second file.
pub proof fn lemma_segmentation(writes: Seq<(Seq<char>, Seq<char>)>, segment_size: u64)
    requires
        total_framed(writes) > segment_size,
    ensures
        after_writes(opened(Map::empty(), Seq::empty()), writes, segment_size).files.len() >= 2,
{
    lemma_one_file_fits(writes, segment_size);
}

/// A compaction reclaims: the size after it is the size before, less the
/// victim's length, plus the length of the records that were live in it, and
/// so is no larger than before.
pub proof fn lemma_compaction_reclaims(s: State, victim: FileIndex, log: Seq<u8>)
    requires
        s.wf(),
        s.can_compact(victim, log.len()),
    ensures
        ({
            let kept = sift(
                s.table,
                victim,
                State::target_of(victim),
                log,
                0,
                Seq::<u8>::empty(),
            ).1;
            &&& kept.len() <= log.len() <= s.size
            &&& s.compacted(victim, log).size == s.size - log.len() + kept.len()
            &&& s.compacted(victim, log).size <= s.size
        }),
{
    lemma_sift_len(s.table, victim, State::target_of(victim), log, 0, Seq::<u8>::empty());
    lemma_has_file(s.files, victim);
    crate::kopper::files::lemma_total_len_update(
        s.files,
        slot(s.files, victim),
        s.files[slot(s.files, victim)],
    );
}


/// Walking `log` record by record from `from` comes to the position `p`.
pub open spec fn begins(log: Seq<u8>, from: int, p: int) -> bool
    decreases log.len() - from,
{
    if from == p {
        true
    } else {
        match record_at(log, from) {
            Some(span) if span.end > from => span.end <= p && begins(log, span.end, p),
            _ => false,
        }
    }
}

/// The entry `e` of the key `key` points at the value of a record of `log`
/// with that key.
pub open spec fn is_record(log: Seq<u8>, key: Seq<char>, e: TableEntry) -> bool {
    exists|p: int| #[trigger] record_of(log, p, key, e)
}

/// At the place `p` of `log` begins a record with the key `key`, and the
/// entry `e` points at its value.
pub open spec fn record_of(log: Seq<u8>, p: int, key: Seq<char>, e: TableEntry) -> bool {
    begins(log, 0, p) && match record_at(log, p) {
        Some(span) => span.key(log) == encode_utf8(key) && span.value_start() == e.offset
            && span.value_len() == e.len,
        None => false,
    }
}

/// Every entry of the index that points into the file `victim` points at a
/// record of `log`.
pub open spec fn points_at_records(
    table: Map<Seq<char>, TableEntry>,
    victim: FileIndex,
    log: Seq<u8>,
) -> bool {
    forall|k: Seq<char>| #[trigger]
        table.contains_key(k) && table[k].file_index == victim ==> is_record(log, k, table[k])
}

/// Of two places where records begin, the record at the first ends at or
/// before the second.
pub proof fn lemma_begins_in_line(log: Seq<u8>, from: int, p: int, q: int)
    requires
        begins(log, from, p),
        begins(log, from, q),
        p < q,
    ensures
        from <= p,
        record_at(log, p) matches Some(span) && p < span.end <= q,
    decreases log.len() - from,
{
    if from != p {
        let span = record_at(log, from).unwrap();
        lemma_begins_in_line(log, span.end, p, q);
    }
}

/// A place that the walk comes to lies at or behind its start.
pub proof fn lemma_begins_ahead(log: Seq<u8>, from: int, p: int)
    requires
        begins(log, from, p),
    ensures
        from <= p,
    decreases log.len() - from,
{
    if from != p {
        let span = record_at(log, from).unwrap();
        lemma_begins_ahead(log, span.end, p);
    }
}

/// The walk goes on over a record.
pub proof fn lemma_begins_next(log: Seq<u8>, from: int, p: int)
    requires
        begins(log, from, p),
        record_at(log, p) matches Some(span) && span.end > p,
    ensures
        begins(log, from, record_at(log, p).unwrap().end),
    decreases log.len() - from,
{
    let end = record_at(log, p).unwrap().end;
    if from != p {
        let span = record_at(log, from).unwrap();
        lemma_begins_ahead(log, span.end, p);
        lemma_begins_next(log, span.end, p);
    } else {
        assert(begins(log, end, end));
    }
}

/// Where the sifting of `log` stands at `from`, with `kept` kept: an entry of
/// the index `start` that points into the victim before `from` has moved to
/// the target, where `kept` holds its value; every other entry is as it was.
pub open spec fn sifted(
    start: Map<Seq<char>, TableEntry>,
    table: Map<Seq<char>, TableEntry>,
    victim: FileIndex,
    target: FileIndex,
    log: Seq<u8>,
    from: int,
    kept: Seq<u8>,
) -> bool {
    &&& forall|k: Seq<char>| start.contains_key(k) <==> #[trigger] table.contains_key(k)
    &&& forall|k: Seq<char>| #[trigger]
        start.contains_key(k) ==> if start[k].file_index == victim && start[k].offset < from {
            &&& table[k].file_index == target
            &&& table[k].len == start[k].len
            &&& 0 < table[k].offset
            &&& table[k].offset + table[k].len <= kept.len()
            &&& kept.subrange(table[k].offset as int, table[k].offset + table[k].len)
                == log.subrange(start[k].offset as int, start[k].offset + start[k].len)
        } else {
            table[k] == start[k]
        }
}

/// An entry that points at a record of `log` whose value begins inside the
/// record at `from`, where a walk of `log` stands, points at that record.
pub proof fn lemma_record_here(log: Seq<u8>, from: int, key: Seq<char>, e: TableEntry)
    requires
        begins(log, 0, from),
        is_record(log, key, e),
        from <= e.offset,
        record_at(log, from) matches Some(span) ==> e.offset < span.end,
    ensures
        record_at(log, from) matches Some(span) && span.key(log) == encode_utf8(key)
            && span.value_start() == e.offset && span.value_len() == e.len,
{
    let p = choose|p: int| #[trigger] record_of(log, p, key, e);
    lemma_record_at(log, p);
    if p < from {
        lemma_begins_in_line(log, 0, p, from);
    } else if p > from {
        lemma_begins_in_line(log, 0, from, p);
    }
}

/// The sifting of the rest of `log`, from where it stands: at its end every
/// entry that pointed into the victim has moved.
pub proof fn lemma_sift(
    start: Map<Seq<char>, TableEntry>,
    table: Map<Seq<char>, TableEntry>,
    victim: FileIndex,
    target: FileIndex,
    log: Seq<u8>,
    from: int,
    kept: Seq<u8>,
)
    requires
        victim != target,
        log.len() <= usize::MAX,
        0 <= from <= log.len(),
        kept.len() <= from,
        begins(log, 0, from),
        points_at_records(start, victim, log),
        forall|k: Seq<char>| #[trigger] start.contains_key(k) ==> start[k].file_index != target,
        sifted(start, table, victim, target, log, from, kept),
    ensures
        sifted(
            start,
            sift(table, victim, target, log, from, kept).0,
            victim,
            target,
            log,
            (log.len() + 1) as int,
            sift(table, victim, target, log, from, kept).1,
        ),
    decreases log.len() - from,
{
    match record_at(log, from) {
        Some(span) if span.end > from => {
            lemma_record_at(log, from);
            lemma_begins_next(log, 0, from);
            let kb = span.key(log);
            let live = is_live(table, victim, log, kb, span.value_start());
            let k = decode_utf8(kb);
            let put = entry_of(target, (kept.len() + kb.len() + 1) as int, span.value_len());
            let next_table = if live {
                table.insert(k, put)
            } else {
                table
            };
            let next_kept = if live {
                kept + span.bytes(log)
            } else {
                kept
            };
            assert forall|j: Seq<char>| #[trigger] start.contains_key(j) implies if start[j].file_index
                == victim && start[j].offset < span.end {
                &&& next_table[j].file_index == target
                &&& next_table[j].len == start[j].len
                &&& 0 < next_table[j].offset
                &&& next_table[j].offset + next_table[j].len <= next_kept.len()
                &&& next_kept.subrange(
                    next_table[j].offset as int,
                    next_table[j].offset + next_table[j].len,
                ) == log.subrange(start[j].offset as int, start[j].offset + start[j].len)
            } else {
                next_table[j] == start[j]
            } by {
                assert(table.contains_key(j));
                if start[j].file_index == victim && from <= start[j].offset < span.end {
                    // The entry points at the record at hand.
                    lemma_record_here(log, from, j, start[j]);
                    encode_utf8_valid_utf8(j);
                    encode_utf8_decode_utf8(j);
                    assert(live);
                    assert(j == k);
                    assert(next_kept.subrange(put.offset as int, put.offset + put.len)
                        =~= log.subrange(start[j].offset as int, start[j].offset + start[j].len));
                } else if start[j].file_index == victim && start[j].offset < from {
                    assert(table[j].file_index == target);
                    if live {
                        assert(j != k);
                        assert(next_kept.subrange(
                            table[j].offset as int,
                            table[j].offset + table[j].len,
                        ) =~= kept.subrange(table[j].offset as int, table[j].offset + table[j].len));
                    }
                } else {
                    if live && j == k {
                        assert(table[k] == start[k]);
                    }
                }
            }
            assert(sifted(start, next_table, victim, target, log, span.end, next_kept));
            lemma_sift(start, next_table, victim, target, log, span.end, next_kept);
        },
        _ => {
            if record_at(log, from) is Some {
                lemma_record_at(log, from);
            }
            let all = (log.len() + 1) as int;
            assert forall|j: Seq<char>| #[trigger] start.contains_key(j) implies if start[j].file_index
                == victim && start[j].offset < all {
                &&& table[j].file_index == target
                &&& table[j].len == start[j].len
                &&& 0 < table[j].offset
                &&& table[j].offset + table[j].len <= kept.len()
                &&& kept.subrange(table[j].offset as int, table[j].offset + table[j].len)
                    == log.subrange(start[j].offset as int, start[j].offset + start[j].len)
            } else {
                table[j] == start[j]
            } by {
                if start[j].file_index == victim && from <= start[j].offset {
                    lemma_record_here(log, from, j, start[j]);
                }
                if start[j].file_index == victim && start[j].offset >= all {
                    let p = choose|p: int| #[trigger] record_of(log, p, j, start[j]);
                    lemma_record_at(log, p);
                }
            }
        },
    }
}

/// Compaction keeps every read: where state and disk agree and every entry
/// that points into the victim points at a record of it, then after the
/// compaction, with the plan carried out on the disk, state and disk agree
/// again, the index has the same keys, and every key reads as before.
pub proof fn lemma_compaction_keeps_reads(s: State, disk: Disk, victim: FileIndex)
    requires
        s.wf(),
        s.holds(disk),
        disk.contains_key(victim),
        disk[victim].len() <= usize::MAX,
        s.can_compact(victim, disk[victim].len()),
        points_at_records(s.table, victim, disk[victim]),
    ensures
        ({
            let target = State::target_of(victim);
            let kept = sift(s.table, victim, target, disk[victim], 0, Seq::<u8>::empty()).1;
            let t = s.compacted(victim, disk[victim]);
            let d = disk_after_compaction(disk, victim, target, kept);
            &&& t.holds(d)
            &&& forall|k: Seq<char>| s.table.contains_key(k) <==> t.table.contains_key(k)
            &&& forall|k: Seq<char>| t.stored(d, k) == s.stored(disk, k)
        }),
{
    let target = State::target_of(victim);
    let log = disk[victim];
    let sifted_pair = sift(s.table, victim, target, log, 0, Seq::<u8>::empty());
    let kept = sifted_pair.1;
    let t = s.compacted(victim, log);
    let d = disk_after_compaction(disk, victim, target, kept);
    assert(!disk.contains_key(target));
    assert forall|k: Seq<char>| #[trigger] s.table.contains_key(k) implies s.table[k].file_index
        != target by {
        assert(disk.contains_key(s.table[k].file_index));
    }
    lemma_sift(s.table, s.table, victim, target, log, 0, Seq::<u8>::empty());
    lemma_sift_len(s.table, victim, target, log, 0, Seq::<u8>::empty());
    let entry = FileEntry { file_index: target, unused_count: 0, len: kept.len() as u64 };
    lemma_with_file(s.files, entry);
    let added = if kept.len() > 0 {
        with_file(s.files, entry)
    } else {
        s.files
    };
    lemma_without_file(added, victim);
    assert forall|f: FileIndex| has_file(t.files, f) <==> #[trigger] d.contains_key(f) by {
        if f != victim && f != target {
            assert(file_at(t.files, f) == file_at(added, f));
            assert(file_at(added, f) == file_at(s.files, f));
            assert(has_file(s.files, f) <==> disk.contains_key(f));
        } else if f == target {
            assert(file_at(t.files, f) == file_at(added, f));
        }
    }
    assert forall|f: FileIndex| #[trigger] d.contains_key(f) implies file_at(
        t.files,
        f,
    ).unwrap().len == d[f].len() by {
        if f != target {
            assert(file_at(t.files, f) == file_at(added, f));
            assert(file_at(added, f) == file_at(s.files, f));
            assert(disk.contains_key(f));
        } else {
            assert(file_at(t.files, f) == file_at(added, f));
        }
    }
    assert forall|k: Seq<char>| #[trigger] t.table.contains_key(k) implies {
        &&& d.contains_key(t.table[k].file_index)
        &&& t.table[k].offset + t.table[k].len <= d[t.table[k].file_index].len()
    } by {
        assert(s.table.contains_key(k));
        assert(disk.contains_key(s.table[k].file_index));
    }
    assert forall|k: Seq<char>| t.stored(d, k) == s.stored(disk, k) by {
        if s.table.contains_key(k) {
            assert(t.table.contains_key(k));
            assert(disk.contains_key(s.table[k].file_index));
        } else {
            assert(!t.table.contains_key(k));
        }
    }
}


/// What the scan of a file puts into the index points at records of the file.
pub proof fn lemma_scan_records(
    table: Map<Seq<char>, TableEntry>,
    file: FileIndex,
    log: Seq<u8>,
    from: int,
)
    requires
        log.len() <= usize::MAX,
        begins(log, 0, from),
    ensures
        forall|k: Seq<char>| #[trigger]
            scan_from(table, file, log, from).0.contains_key(k) ==> {
                ||| (table.contains_key(k) && scan_from(table, file, log, from).0[k] == table[k])
                ||| (scan_from(table, file, log, from).0[k].file_index == file && is_record(
                    log,
                    k,
                    scan_from(table, file, log, from).0[k],
                ))
            },
    decreases log.len() - from,
{
    match record_at(log, from) {
        Some(span) if span.end > from => {
            lemma_record_at(log, from);
            if valid_utf8(span.key(log)) {
                let key = decode_utf8(span.key(log));
                let e = entry_of(file, span.value_start(), span.value_len());
                let put = table.insert(key, e);
                decode_utf8_encode_utf8(span.key(log));
                assert(record_of(log, from, key, e));
                lemma_begins_next(log, 0, from);
                lemma_scan_records(put, file, log, span.end);
                let end = scan_from(table, file, log, from).0;
                let rest = scan_from(put, file, log, span.end).0;
                assert(end == rest);
                assert forall|k: Seq<char>| #[trigger] end.contains_key(k) implies {
                    ||| (table.contains_key(k) && end[k] == table[k])
                    ||| (end[k].file_index == file && is_record(log, k, end[k]))
                } by {
                    assert(rest.contains_key(k));
                    if put.contains_key(k) && rest[k] == put[k] {
                        if k == key {
                            assert(is_record(log, k, e));
                        } else {
                            assert(table.contains_key(k));
                        }
                    }
                }
            }
        },
        _ => {},
    }
}

/// Every entry of the index recovered from the first `upto` files of a table
/// points at a record of one of these files.
pub open spec fn recovered_points(files: Seq<FileEntry>, disk: Disk, upto: int) -> bool {
    match recover_upto(images_of(files, disk), upto) {
        Ok((table, _)) => forall|k: Seq<char>| #[trigger]
            table.contains_key(k) ==> exists|i: int|
                0 <= i < upto && table[k].file_index == (#[trigger] files[i]).file_index
                    && is_record(disk[files[i].file_index], k, table[k]),
        Err(_) => true,
    }
}

/// What recovery puts into the index points at records of the files.
pub proof fn lemma_recovered_points(files: Seq<FileEntry>, disk: Disk, upto: int)
    requires
        0 <= upto <= files.len(),
        forall|f: FileIndex| #[trigger] disk.contains_key(f) ==> disk[f].len() <= usize::MAX,
        forall|i: int| 0 <= i < files.len() ==> disk.contains_key((#[trigger] files[i]).file_index),
    ensures
        recovered_points(files, disk, upto),
    decreases upto,
{
    if upto > 0 {
        lemma_recovered_points(files, disk, upto - 1);
        let imgs = images_of(files, disk);
        match recover_upto(imgs, upto - 1) {
            Ok((table, fs)) => {
                let file = files[upto - 1].file_index;
                lemma_name_round_trip(file);
                let log = disk[file];
                assert(imgs[upto - 1].contents == log);
                lemma_scan_records(table, file, log, 0);
                let scanned = scan_from(table, file, log, 0);
                if scanned.1 {
                    assert forall|k: Seq<char>| #[trigger]
                        scanned.0.contains_key(k) implies exists|i: int|
                        0 <= i < upto && scanned.0[k].file_index == (#[trigger] files[i]).file_index
                            && is_record(disk[files[i].file_index], k, scanned.0[k]) by {
                        if table.contains_key(k) && scanned.0[k] == table[k] {
                            let i = choose|i: int|
                                0 <= i < upto - 1 && table[k].file_index
                                    == (#[trigger] files[i]).file_index && is_record(
                                    disk[files[i].file_index],
                                    k,
                                    table[k],
                                );
                            assert(0 <= i < upto && scanned.0[k].file_index == files[i].file_index
                                && is_record(disk[files[i].file_index], k, scanned.0[k]));
                        } else {
                            assert(scanned.0[k].file_index == files[upto - 1].file_index
                                && is_record(disk[files[upto - 1].file_index], k, scanned.0[k]));
                        }
                    }
                }
            },
            Err(_) => {},
        }
    }
}

/// Where what is on disk recovers to the index, every entry that points into
/// a file points at a record of that file.
pub proof fn lemma_durable_points(s: State, disk: Disk, victim: FileIndex)
    requires
        s.wf(),
        s.holds(disk),
        durable(s, disk),
        forall|f: FileIndex| #[trigger] disk.contains_key(f) ==> disk[f].len() <= usize::MAX,
    ensures
        points_at_records(s.table, victim, disk[victim]),
{
    assert forall|i: int| 0 <= i < s.files.len() implies disk.contains_key(
        (#[trigger] s.files[i]).file_index,
    ) by {
        lemma_file_at(s.files, i);
    }
    lemma_recovered_points(s.files, disk, s.files.len() as int);
    assert forall|k: Seq<char>| #[trigger]
        s.table.contains_key(k) && s.table[k].file_index == victim implies is_record(
        disk[victim],
        k,
        s.table[k],
    ) by {
        let i = choose|i: int|
            0 <= i < s.files.len() && s.table[k].file_index == (#[trigger] s.files[i]).file_index
                && is_record(disk[s.files[i].file_index], k, s.table[k]);
    }
}

} // verus!
