//! The index as the merge of what each file holds by itself: the ground on
//! which compaction is shown to keep what recovery finds.

use crate::kopper::file_index::{find_byte, lemma_name_round_trip, FileIndex};
use crate::kopper::files::{file_at, has_file, lemma_file_at, lemma_has_file, lemma_slot_is,
    lemma_with_file, lemma_without_file, slot, sorted, total_len, with_file, without_file,
    FileEntry};
use crate::kopper::laws::{clean_from, durable, images_of, is_record, lemma_durable_points,
    lemma_scan_append, lemma_scan_records, lemma_sift};
use crate::kopper::records::{lemma_record_at, record_at};
use crate::kopper::state::{disk_after_compaction, entry_of, is_live, lemma_sift_len, opened,
    recover, recover_upto, scan_from, sift, Disk, State, TableEntry};
use vstd::prelude::*;
use vstd::utf8::*;

verus! {

/// The index that the scan of `log` alone gives.
pub open spec fn own(file: FileIndex, log: Seq<u8>) -> Map<Seq<char>, TableEntry> {
    scan_from(Map::empty(), file, log, 0).0
}

/// The scan of complete records puts into the index what the records give by
/// themselves, over what was there.
pub proof fn lemma_scan_union(
    table: Map<Seq<char>, TableEntry>,
    file: FileIndex,
    log: Seq<u8>,
    from: int,
)
    requires
        clean_from(log, from),
    ensures
        scan_from(table, file, log, from).1,
        scan_from(table, file, log, from).0 == table.union_prefer_right(
            scan_from(Map::empty(), file, log, from).0,
        ),
    decreases log.len() - from,
{
    let none = Map::<Seq<char>, TableEntry>::empty();
    match record_at(log, from) {
        Some(span) if span.end > from => {
            lemma_record_at(log, from);
            let key = decode_utf8(span.key(log));
            let e = entry_of(file, span.value_start(), span.value_len());
            lemma_scan_union(table.insert(key, e), file, log, span.end);
            lemma_scan_union(none.insert(key, e), file, log, span.end);
            let rest = scan_from(none, file, log, span.end).0;
            assert(table.insert(key, e).union_prefer_right(rest) =~= table.union_prefer_right(
                none.insert(key, e).union_prefer_right(rest),
            ));
        },
        _ => {
            if record_at(log, from) is Some {
                lemma_record_at(log, from);
            }
            assert(table.union_prefer_right(none) =~= table);
        },
    }
}

/// The merge of the first `upto` of some indexes, a later one over an
/// earlier one.
pub open spec fn fold(ms: Seq<Map<Seq<char>, TableEntry>>, upto: int) -> Map<
    Seq<char>,
    TableEntry,
>
    decreases upto,
{
    if upto <= 0 {
        Map::empty()
    } else {
        fold(ms, upto - 1).union_prefer_right(ms[upto - 1])
    }
}

/// The last of the first `upto` indexes that holds the key `k`; -1 if none does.
pub open spec fn last_with(ms: Seq<Map<Seq<char>, TableEntry>>, upto: int, k: Seq<char>) -> int
    decreases upto,
{
    if upto <= 0 {
        -1
    } else if ms[upto - 1].contains_key(k) {
        upto - 1
    } else {
        last_with(ms, upto - 1, k)
    }
}

/// A merge holds a key where one of the indexes does, with the entry of the
/// last that does.
pub proof fn lemma_fold_at(ms: Seq<Map<Seq<char>, TableEntry>>, upto: int, k: Seq<char>)
    requires
        upto <= ms.len(),
    ensures
        -1 <= last_with(ms, upto, k) < upto || (upto < 0 && last_with(ms, upto, k) == -1),
        fold(ms, upto).contains_key(k) <==> last_with(ms, upto, k) >= 0,
        last_with(ms, upto, k) >= 0 ==> ms[last_with(ms, upto, k)].contains_key(k) && fold(
            ms,
            upto,
        )[k] == ms[last_with(ms, upto, k)][k],
        forall|m: int| last_with(ms, upto, k) < m < upto ==> !(#[trigger] ms[m]).contains_key(k),
    decreases upto,
{
    if upto > 0 {
        lemma_fold_at(ms, upto - 1, k);
    }
}

/// The last index that holds a key is the same in two rows of indexes that
/// agree on the key.
pub proof fn lemma_last_with_same(
    a: Seq<Map<Seq<char>, TableEntry>>,
    b: Seq<Map<Seq<char>, TableEntry>>,
    upto: int,
    k: Seq<char>,
)
    requires
        upto <= a.len(),
        upto <= b.len(),
        forall|m: int| 0 <= m < upto ==> (#[trigger] a[m]).contains_key(k) == b[m].contains_key(k),
    ensures
        last_with(a, upto, k) == last_with(b, upto, k),
    decreases upto,
{
    if upto > 0 {
        lemma_last_with_same(a, b, upto - 1, k);
    }
}

/// Putting an index `part` in the place of the index at `at` changes the
/// merge by `part` alone, where every key of `part` is last held at `at`, and
/// every key last held at `at` is a key of `part`.
pub proof fn lemma_fold_replace(
    ms: Seq<Map<Seq<char>, TableEntry>>,
    at: int,
    part: Map<Seq<char>, TableEntry>,
)
    requires
        0 <= at < ms.len(),
        forall|k: Seq<char>| #[trigger]
            part.contains_key(k) ==> last_with(ms, ms.len() as int, k) == at,
        forall|k: Seq<char>|
            last_with(ms, ms.len() as int, k) == at ==> #[trigger] part.contains_key(k),
    ensures
        fold(ms.update(at, part), ms.len() as int) == fold(
            ms,
            ms.len() as int,
        ).union_prefer_right(part),
{
    let n = ms.len() as int;
    let other = ms.update(at, part);
    let want = fold(ms, n).union_prefer_right(part);
    let got = fold(other, n);
    assert forall|k: Seq<char>|
        #![trigger got.dom().contains(k)]
        #![trigger want.dom().contains(k)]
        got.dom().contains(k) == want.dom().contains(k) && (got.dom().contains(k) ==> got[k]
            == want[k]) by {
        lemma_fold_at(ms, n, k);
        lemma_fold_at(other, n, k);
        let l = last_with(ms, n, k);
        if l > at {
            lemma_last_above(ms, other, n, at, k);
        } else if l == at {
            assert(part.contains_key(k));
            assert(other[at].contains_key(k));
            lemma_last_is(other, n, at, k);
        } else {
            assert(!part.contains_key(k));
            assert forall|m: int| 0 <= m < n implies (#[trigger] ms[m]).contains_key(k)
                == other[m].contains_key(k) by {}
            lemma_last_with_same(ms, other, n, k);
            if l >= 0 {
                assert(other[l] == ms[l]);
            }
        }
    }
    assert(got =~= want);
}

/// The last index that holds a key, where it lies above `at`, is the same in
/// two rows of indexes that agree above `at`.
pub proof fn lemma_last_above(
    a: Seq<Map<Seq<char>, TableEntry>>,
    b: Seq<Map<Seq<char>, TableEntry>>,
    upto: int,
    at: int,
    k: Seq<char>,
)
    requires
        upto <= a.len(),
        a.len() == b.len(),
        0 <= at,
        forall|m: int| at < m < upto ==> (#[trigger] a[m]) == b[m],
        last_with(a, upto, k) > at,
    ensures
        last_with(b, upto, k) == last_with(a, upto, k),
        b[last_with(a, upto, k)] == a[last_with(a, upto, k)],
    decreases upto,
{
    lemma_fold_at(a, upto, k);
    if upto > 0 && !a[upto - 1].contains_key(k) {
        lemma_last_above(a, b, upto - 1, at, k);
    }
}

/// An index that holds a key, with none above it that does, is the last that
/// holds the key.
pub proof fn lemma_last_is(ms: Seq<Map<Seq<char>, TableEntry>>, upto: int, at: int, k: Seq<char>)
    requires
        0 <= at < upto <= ms.len(),
        ms[at].contains_key(k),
        forall|m: int| at < m < upto ==> !(#[trigger] ms[m]).contains_key(k),
    ensures
        last_with(ms, upto, k) == at,
    decreases upto,
{
    if upto - 1 > at {
        lemma_last_is(ms, upto - 1, at, k);
    }
}

/// Taking an empty index out of a row of indexes leaves the merge as it is.
pub proof fn lemma_fold_remove(ms: Seq<Map<Seq<char>, TableEntry>>, at: int, upto: int)
    requires
        0 <= at < ms.len(),
        ms[at] == Map::<Seq<char>, TableEntry>::empty(),
        at < upto <= ms.len(),
    ensures
        fold(ms.remove(at), upto - 1) == fold(ms, upto),
    decreases upto,
{
    let less = ms.remove(at);
    if upto - 1 > at {
        lemma_fold_remove(ms, at, upto - 1);
        assert(less[upto - 2] == ms[upto - 1]);
    } else {
        lemma_fold_prefix(less, ms, at);
        assert(fold(ms, at).union_prefer_right(ms[at]) =~= fold(ms, at));
    }
}

/// The merge of the first indexes of a row looks at no other index.
pub proof fn lemma_fold_prefix(
    a: Seq<Map<Seq<char>, TableEntry>>,
    b: Seq<Map<Seq<char>, TableEntry>>,
    upto: int,
)
    requires
        upto <= a.len(),
        upto <= b.len(),
        forall|m: int| 0 <= m < upto ==> (#[trigger] a[m]) == b[m],
    ensures
        fold(a, upto) == fold(b, upto),
    decreases upto,
{
    if upto > 0 {
        lemma_fold_prefix(a, b, upto - 1);
    }
}

/// What each file of a table holds by itself, in the order of the table.
pub open spec fn parts(files: Seq<FileEntry>, disk: Disk) -> Seq<Map<Seq<char>, TableEntry>> {
    Seq::new(files.len(), |i: int| own(files[i].file_index, disk[files[i].file_index]))
}

/// Recovery of files of complete records gives the merge of what each file
/// holds by itself.
pub proof fn lemma_recover_is_fold(files: Seq<FileEntry>, disk: Disk, upto: int)
    requires
        0 <= upto <= files.len(),
        forall|i: int|
            0 <= i < upto ==> clean_from(disk[(#[trigger] files[i]).file_index], 0),
    ensures
        recover_upto(images_of(files, disk), upto) matches Ok((table, _)) && table == fold(
            parts(files, disk),
            upto,
        ),
    decreases upto,
{
    if upto > 0 {
        lemma_recover_is_fold(files, disk, upto - 1);
        let file = files[upto - 1].file_index;
        lemma_name_round_trip(file);
        let (table, fs) = recover_upto(images_of(files, disk), upto - 1).unwrap();
        assert(images_of(files, disk)[upto - 1].contents == disk[file]);
        lemma_scan_union(table, file, disk[file], 0);
        assert(parts(files, disk)[upto - 1] == own(file, disk[file]));
    }
}

/// What a file holds by itself is entries that point into the file, at
/// records of the file.
pub proof fn lemma_own_points(file: FileIndex, log: Seq<u8>)
    requires
        log.len() <= usize::MAX,
    ensures
        forall|k: Seq<char>| #[trigger]
            own(file, log).contains_key(k) ==> own(file, log)[k].file_index == file && is_record(
                log,
                k,
                own(file, log)[k],
            ),
{
    lemma_scan_records(Map::empty(), file, log, 0);
}


/// The sifting of the rest of `log`, from where it stands: the index is what
/// it was at the start, with what the kept bytes hold by themselves over it;
/// the kept bytes are complete records; and every key that they hold pointed
/// into the victim at the start.
pub proof fn lemma_sift_is_union(
    start: Map<Seq<char>, TableEntry>,
    table: Map<Seq<char>, TableEntry>,
    victim: FileIndex,
    target: FileIndex,
    log: Seq<u8>,
    from: int,
    kept: Seq<u8>,
)
    requires
        victim != target,
        log.len() <= usize::MAX,
        0 <= from <= log.len(),
        kept.len() <= from,
        clean_from(kept, 0),
        table == start.union_prefer_right(own(target, kept)),
        forall|k: Seq<char>| #[trigger]
            own(target, kept).contains_key(k) ==> start.contains_key(k) && start[k].file_index
                == victim,
    ensures
        ({
            let end = sift(table, victim, target, log, from, kept);
            &&& clean_from(end.1, 0)
            &&& end.0 == start.union_prefer_right(own(target, end.1))
            &&& forall|k: Seq<char>| #[trigger]
                own(target, end.1).contains_key(k) ==> start.contains_key(k)
                    && start[k].file_index == victim
        }),
    decreases log.len() - from,
{
    match record_at(log, from) {
        Some(span) if span.end > from => {
            lemma_record_at(log, from);
            let kb = span.key(log);
            let vb = span.value(log);
            if is_live(table, victim, log, kb, span.value_start()) {
                let k = decode_utf8(kb);
                let put = entry_of(target, (kept.len() + kb.len() + 1) as int, span.value_len());
                let next_kept = kept + span.bytes(log);
                lemma_scan_append(Map::empty(), target, kept, 0, kb, vb);
                assert(own(target, next_kept) == own(target, kept).insert(k, put));
                lemma_own_points(target, kept);
                assert(!own(target, kept).contains_key(k));
                assert(table.insert(k, put) =~= start.union_prefer_right(
                    own(target, next_kept),
                ));
                lemma_sift_is_union(
                    start,
                    table.insert(k, put),
                    victim,
                    target,
                    log,
                    span.end,
                    next_kept,
                );
            } else {
                lemma_sift_is_union(start, table, victim, target, log, span.end, kept);
            }
        },
        _ => {},
    }
}

/// The files of a table hold complete records where the disk does.
proof fn lemma_files_clean(s: State, disk: Disk)
    requires
        s.wf(),
        s.holds(disk),
        forall|f: FileIndex| #[trigger] disk.contains_key(f) ==> clean_from(disk[f], 0),
    ensures
        forall|i: int|
            0 <= i < s.files.len() ==> disk.contains_key((#[trigger] s.files[i]).file_index)
                && clean_from(disk[s.files[i].file_index], 0),
{
    assert forall|i: int| 0 <= i < s.files.len() implies disk.contains_key(
        (#[trigger] s.files[i]).file_index,
    ) && clean_from(disk[s.files[i].file_index], 0) by {
        lemma_file_at(s.files, i);
    }
}

/// In a table in order, two places with one name are one place.
proof fn lemma_one_place(files: Seq<FileEntry>, i: int, j: int)
    requires
        sorted(files),
        0 <= i < files.len(),
        0 <= j < files.len(),
        files[i].file_index == files[j].file_index,
    ensures
        i == j,
{
    if i < j {
        assert(files[i].file_index.precedes(files[j].file_index));
    } else if j < i {
        assert(files[j].file_index.precedes(files[i].file_index));
    }
}

/// The index after a compaction is the merge of what the files hold, with
/// what the kept bytes hold in the place of what the victim held; and the
/// kept bytes are complete records.
proof fn lemma_compacted_table(s: State, disk: Disk, victim: FileIndex)
    requires
        s.wf(),
        s.holds(disk),
        durable(s, disk),
        s.can_compact(victim, disk[victim].len()),
        forall|f: FileIndex| #[trigger] disk.contains_key(f) ==> disk[f].len() <= usize::MAX,
    ensures
        ({
            let target = State::target_of(victim);
            let end = sift(s.table, victim, target, disk[victim], 0, Seq::<u8>::empty());
            &&& clean_from(end.1, 0)
            &&& end.1.len() <= disk[victim].len()
            &&& end.0 == fold(
                parts(s.files, disk).update(slot(s.files, victim), own(target, end.1)),
                s.files.len() as int,
            )
        }),
{
    let target = State::target_of(victim);
    let log = disk[victim];
    let none = Seq::<u8>::empty();
    let end = sift(s.table, victim, target, log, 0, none);
    let kept = end.1;
    let files = s.files;
    let n = files.len() as int;
    let at = slot(files, victim);
    lemma_has_file(files, victim);
    assert(disk.contains_key(victim));
    assert(!disk.contains_key(target));
    let ms = parts(files, disk);
    lemma_files_clean(s, disk);
    lemma_recover_is_fold(files, disk, n);
    assert(s.table == fold(ms, n));
    assert(record_at(none, 0) is None) by {
        assert(find_byte(none, 0, 0) == 0);
    }
    assert(own(target, none) =~= Map::<Seq<char>, TableEntry>::empty());
    assert(s.table.union_prefer_right(own(target, none)) =~= s.table);
    assert forall|k: Seq<char>| #[trigger] s.table.contains_key(k) implies s.table[k].file_index
        != target by {
        assert(disk.contains_key(s.table[k].file_index));
    }
    lemma_sift_is_union(s.table, s.table, victim, target, log, 0, none);
    let part = own(target, kept);
    lemma_durable_points(s, disk, victim);
    lemma_sift(s.table, s.table, victim, target, log, 0, none);
    lemma_sift_len(s.table, victim, target, log, 0, none);
    lemma_own_points(target, kept);
    assert forall|k: Seq<char>| #[trigger] part.contains_key(k) implies last_with(ms, n, k)
        == at by {
        lemma_fold_at(ms, n, k);
        let l = last_with(ms, n, k);
        assert(disk.contains_key(files[l].file_index));
        lemma_own_points(files[l].file_index, disk[files[l].file_index]);
        assert(ms[l][k].file_index == files[l].file_index);
        lemma_one_place(files, l, at);
    }
    assert forall|k: Seq<char>| last_with(ms, n, k) == at implies #[trigger] part.contains_key(
        k,
    ) by {
        lemma_fold_at(ms, n, k);
        lemma_own_points(victim, log);
        assert(s.table.contains_key(k));
        assert(s.table[k] == ms[at][k]);
        assert(s.table[k].file_index == victim);
        assert(s.table[k].offset + s.table[k].len <= log.len());
        assert(end.0[k].file_index == target);
    }
    lemma_fold_replace(ms, at, part);
}

/// The table after a compaction that kept something: the compacted file
/// stands in the place of the victim.
proof fn lemma_compacted_files(files: Seq<FileEntry>, victim: FileIndex, entry: FileEntry)
    requires
        sorted(files),
        has_file(files, victim),
        victim.index < u32::MAX,
        entry.file_index == State::target_of(victim),
        !has_file(files, entry.file_index),
    ensures
        without_file(with_file(files, entry), victim) == files.update(slot(files, victim), entry),
        without_file(files, victim) == files.remove(slot(files, victim)),
        0 <= slot(files, victim) < files.len(),
        files[slot(files, victim)].file_index == victim,
{
    let at = slot(files, victim);
    let n = files.len() as int;
    let target = entry.file_index;
    lemma_has_file(files, victim);
    lemma_file_at(files, at);
    assert forall|i: int| 0 <= i < at + 1 implies (#[trigger] files[i]).file_index.precedes(
        target,
    ) by {
        if i < at {
            assert(files[i].file_index.precedes(files[at].file_index));
        }
    }
    if at + 1 < n {
        assert(files[at].file_index.precedes(files[at + 1].file_index));
        lemma_file_at(files, at + 1);
    }
    lemma_slot_is(files, target, 0, at + 1);
    lemma_with_file(files, entry);
    let added = with_file(files, entry);
    assert(added =~= files.insert(at + 1, entry));
    assert(added[at] == files[at]);
    lemma_file_at(added, at);
    assert(added.remove(at) =~= files.update(at, entry));
}

/// Durability of a compaction: where what is on disk recovers to the index,
/// it still does after a compaction, with the plan carried out on the disk.
pub proof fn lemma_compaction_durable(s: State, disk: Disk, victim: FileIndex)
    requires
        s.wf(),
        s.holds(disk),
        durable(s, disk),
        s.can_compact(victim, disk[victim].len()),
        forall|f: FileIndex| #[trigger] disk.contains_key(f) ==> disk[f].len() <= usize::MAX,
    ensures
        ({
            let target = State::target_of(victim);
            let kept = sift(s.table, victim, target, disk[victim], 0, Seq::<u8>::empty()).1;
            durable(
                s.compacted(victim, disk[victim]),
                disk_after_compaction(disk, victim, target, kept),
            )
        }),
{
    let target = State::target_of(victim);
    let log = disk[victim];
    let end = sift(s.table, victim, target, log, 0, Seq::<u8>::empty());
    let kept = end.1;
    let t = s.compacted(victim, log);
    let d = disk_after_compaction(disk, victim, target, kept);
    let files = s.files;
    let n = files.len() as int;
    let at = slot(files, victim);
    let ms = parts(files, disk);
    let part = own(target, kept);
    let entry = FileEntry { file_index: target, unused_count: 0, len: kept.len() as u64 };
    lemma_compacted_table(s, disk, victim);
    lemma_compacted_files(files, victim, entry);
    lemma_files_clean(s, disk);
    assert(!disk.contains_key(target));
    assert forall|f: FileIndex| #[trigger] d.contains_key(f) implies clean_from(d[f], 0) by {
        if f != target {
            assert(disk.contains_key(f));
        }
    }
    let replaced = ms.update(at, part);
    if kept.len() > 0 {
        assert(t.files == files.update(at, entry));
        let after = parts(t.files, d);
        assert forall|i: int| 0 <= i < n implies #[trigger] after[i] == replaced[i] by {
            if i != at {
                if files[i].file_index == victim {
                    lemma_one_place(files, i, at);
                }
                assert(d[files[i].file_index] == disk[files[i].file_index]);
            }
        }
        assert(after =~= replaced);
        assert forall|i: int| 0 <= i < n implies clean_from(
            d[(#[trigger] t.files[i]).file_index],
            0,
        ) by {
            if i != at {
                if files[i].file_index == victim {
                    lemma_one_place(files, i, at);
                }
                assert(d.contains_key(files[i].file_index));
            }
        }
        lemma_recover_is_fold(t.files, d, n);
    } else {
        assert(t.files == files.remove(at));
        let after = parts(t.files, d);
        assert(record_at(kept, 0) is None) by {
            assert(find_byte(kept, 0, 0) == 0);
        }
        assert(part =~= Map::<Seq<char>, TableEntry>::empty());
        assert forall|i: int| 0 <= i < n - 1 implies #[trigger] after[i] == replaced.remove(
            at,
        )[i] by {
            let o = if i < at { i } else { i + 1 };
            if files[o].file_index == victim {
                lemma_one_place(files, o, at);
            }
            assert(t.files[i] == files[o]);
            assert(d[files[o].file_index] == disk[files[o].file_index]);
        }
        assert(after =~= replaced.remove(at));
        lemma_fold_remove(replaced, at, n);
        assert forall|i: int| 0 <= i < n - 1 implies clean_from(
            d[(#[trigger] t.files[i]).file_index],
            0,
        ) by {
            let o = if i < at { i } else { i + 1 };
            if files[o].file_index == victim {
                lemma_one_place(files, o, at);
            }
            assert(t.files[i] == files[o]);
            assert(d.contains_key(files[o].file_index));
        }
        lemma_recover_is_fold(t.files, d, n - 1);
    }
}


/// A compaction keeps a state well-formed, and the active file the last of
/// the table where it was.
pub proof fn lemma_compacted_wf(s: State, victim: FileIndex, log: Seq<u8>)
    requires
        s.wf(),
        s.can_compact(victim, log.len()),
    ensures
        s.compacted(victim, log).wf(),
        s.files.last().file_index == s.active ==> s.compacted(
            victim,
            log,
        ).files.last().file_index == s.active,
{
    let target = State::target_of(victim);
    let kept = sift(s.table, victim, target, log, 0, Seq::<u8>::empty()).1;
    let entry = FileEntry { file_index: target, unused_count: 0, len: kept.len() as u64 };
    lemma_sift_len(s.table, victim, target, log, 0, Seq::<u8>::empty());
    lemma_has_file(s.files, victim);
    crate::kopper::files::lemma_total_len_update(
        s.files,
        slot(s.files, victim),
        s.files[slot(s.files, victim)],
    );
    lemma_with_file(s.files, entry);
    let added = if kept.len() > 0 {
        with_file(s.files, entry)
    } else {
        s.files
    };
    lemma_without_file(added, victim);
    assert(file_at(added, s.active) == file_at(s.files, s.active));
    lemma_compacted_files(s.files, victim, entry);
    if s.files.last().file_index == s.active {
        lemma_has_file(s.files, s.active);
        lemma_one_place(s.files, slot(s.files, s.active), s.files.len() - 1);
    }
}

/// The table that recovery makes of the first `upto` files of a table in
/// order: the same names, no unused entries, and the lengths of the disk.
pub open spec fn recovered_files(files: Seq<FileEntry>, disk: Disk, upto: int) -> Seq<FileEntry> {
    Seq::new(
        upto as nat,
        |i: int|
            FileEntry {
                file_index: files[i].file_index,
                unused_count: 0,
                len: disk[files[i].file_index].len() as u64,
            },
    )
}

/// Recovery of the files of a table in order makes a table of the same names.
pub proof fn lemma_recover_files(files: Seq<FileEntry>, disk: Disk, upto: int)
    requires
        sorted(files),
        0 <= upto <= files.len(),
        forall|i: int|
            0 <= i < upto ==> clean_from(disk[(#[trigger] files[i]).file_index], 0),
    ensures
        recover_upto(images_of(files, disk), upto) matches Ok((_, fs)) && fs == recovered_files(
            files,
            disk,
            upto,
        ),
    decreases upto,
{
    if upto > 0 {
        lemma_recover_files(files, disk, upto - 1);
        lemma_recover_is_fold(files, disk, upto - 1);
        let file = files[upto - 1].file_index;
        lemma_name_round_trip(file);
        let (table, fs) = recover_upto(images_of(files, disk), upto - 1).unwrap();
        assert(images_of(files, disk)[upto - 1].contents == disk[file]);
        lemma_scan_union(table, file, disk[file], 0);
        let entry = FileEntry { file_index: file, unused_count: 0, len: disk[file].len() as u64 };
        assert forall|i: int| 0 <= i < fs.len() implies (#[trigger] fs[i]).file_index.precedes(
            file,
        ) by {
            assert(files[i].file_index.precedes(files[upto - 1].file_index));
        }
        lemma_slot_is(fs, file, 0, fs.len() as int);
        assert(with_file(fs, entry) =~= recovered_files(files, disk, upto));
    } else {
        assert(recovered_files(files, disk, 0) =~= Seq::<FileEntry>::empty());
    }
}

/// Tables with the same lengths at each place have the same length together.
pub proof fn lemma_total_len_same(a: Seq<FileEntry>, b: Seq<FileEntry>)
    requires
        a.len() == b.len(),
        forall|i: int| 0 <= i < a.len() ==> (#[trigger] a[i]).len == b[i].len,
    ensures
        total_len(a) == total_len(b),
    decreases a.len(),
{
    if a.len() > 0 {
        lemma_total_len_same(a.drop_last(), b.drop_last());
    }
}

/// Durability: where state and disk agree and what is on disk recovers to the
/// index, an engine opened on the disk's files in the order of their names is
/// well-formed, agrees with the disk, has the size of the engine that wrote,
/// and reads every key as that engine did.
pub proof fn lemma_recovery_reads_the_same(s: State, disk: Disk)
    requires
        s.wf(),
        s.holds(disk),
        durable(s, disk),
    ensures
        recover(images_of(s.files, disk)) matches Ok((table, files)) && {
            let t = opened(table, files);
            &&& t.wf()
            &&& t.holds(disk)
            &&& t.size == s.size
            &&& t.table == s.table
            &&& forall|k: Seq<char>| t.stored(disk, k) == s.stored(disk, k)
        },
{
    let n = s.files.len() as int;
    lemma_files_clean(s, disk);
    lemma_recover_files(s.files, disk, n);
    let fs = recovered_files(s.files, disk, n);
    let (table, files) = recover(images_of(s.files, disk)).unwrap();
    let t = opened(table, files);
    lemma_has_file(s.files, s.active);
    assert forall|i: int| 0 <= i < n implies (#[trigger] fs[i]).len == s.files[i].len by {
        lemma_file_at(s.files, i);
    }
    lemma_total_len_same(fs, s.files);
    assert forall|i: int, j: int| 0 <= i < j < fs.len() implies (#[trigger] fs[i]).file_index.precedes(
        (#[trigger] fs[j]).file_index,
    ) by {
        assert(s.files[i].file_index.precedes(s.files[j].file_index));
    }
    lemma_file_at(fs, 0);
    assert forall|f: FileIndex| has_file(fs, f) <==> #[trigger] disk.contains_key(f) by {
        if has_file(fs, f) {
            lemma_has_file(fs, f);
            lemma_file_at(s.files, slot(fs, f));
        }
        if disk.contains_key(f) {
            lemma_has_file(s.files, f);
            lemma_file_at(fs, slot(s.files, f));
        }
    }
    assert forall|f: FileIndex| #[trigger] disk.contains_key(f) implies file_at(
        fs,
        f,
    ).unwrap().len == disk[f].len() by {
        lemma_has_file(s.files, f);
        lemma_file_at(fs, slot(s.files, f));
        lemma_file_at(s.files, slot(s.files, f));
    }
}

} // verus!
