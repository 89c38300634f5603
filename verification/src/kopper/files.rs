//! The table of open segment files, kept in the order of their names.

use crate::kopper::file_index::FileIndex;
use vstd::prelude::*;

verus! {

/// What the engine knows of one segment file.
#[derive(Clone, Copy, Debug, PartialEq, Eq, Structural)]
pub struct FileEntry {
    pub file_index: FileIndex,
    /// How many index entries once pointed into this file and were superseded.
    pub unused_count: usize,
    /// The file's length in bytes.
    pub len: u64,
}

/// No name occurs twice, and the files stand in the order of their names.
pub open spec fn sorted(files: Seq<FileEntry>) -> bool {
    forall|i: int, j: int|
        0 <= i < j < files.len() ==> (#[trigger] files[i]).file_index.precedes(
            (#[trigger] files[j]).file_index,
        )
}

/// The first position at or after `from` whose file does not come before `idx`.
pub open spec fn slot_from(files: Seq<FileEntry>, idx: FileIndex, from: int) -> int
    decreases files.len() - from,
{
    if from < 0 || from >= files.len() {
        files.len() as int
    } else if !files[from].file_index.precedes(idx) {
        from
    } else {
        slot_from(files, idx, from + 1)
    }
}

/// Where the file `idx` stands in the table, or would be put.
pub open spec fn slot(files: Seq<FileEntry>, idx: FileIndex) -> int {
    slot_from(files, idx, 0)
}

/// The table's entry for `idx`, if it has one.
pub open spec fn file_at(files: Seq<FileEntry>, idx: FileIndex) -> Option<FileEntry> {
    let at = slot(files, idx);
    if at < files.len() && files[at].file_index == idx {
        Some(files[at])
    } else {
        None
    }
}

/// Whether the table holds the file `idx`.
pub open spec fn has_file(files: Seq<FileEntry>, idx: FileIndex) -> bool {
    file_at(files, idx) is Some
}

/// The table with `entry` put in, in the place of an entry of the same name
/// if there is one.
pub open spec fn with_file(files: Seq<FileEntry>, entry: FileEntry) -> Seq<FileEntry> {
    let at = slot(files, entry.file_index);
    if at < files.len() && files[at].file_index == entry.file_index {
        files.update(at, entry)
    } else {
        files.insert(at, entry)
    }
}

/// The table without the file `idx`.
pub open spec fn without_file(files: Seq<FileEntry>, idx: FileIndex) -> Seq<FileEntry> {
    let at = slot(files, idx);
    if at < files.len() && files[at].file_index == idx {
        files.remove(at)
    } else {
        files
    }
}

/// The lengths of all files together.
pub open spec fn total_len(files: Seq<FileEntry>) -> nat
    decreases files.len(),
{
    if files.len() == 0 {
        0
    } else {
        total_len(files.drop_last()) + files.last().len as nat
    }
}

pub proof fn lemma_slot_bounds(files: Seq<FileEntry>, idx: FileIndex, from: int)
    requires
        0 <= from <= files.len(),
    ensures
        from <= slot_from(files, idx, from) <= files.len(),
        slot_from(files, idx, from) < files.len() ==> !files[slot_from(
            files,
            idx,
            from,
        )].file_index.precedes(idx),
        forall|i: int|
            from <= i < slot_from(files, idx, from) ==> (#[trigger] files[i]).file_index.precedes(
                idx,
            ),
    decreases files.len() - from,
{
    if from < files.len() && files[from].file_index.precedes(idx) {
        lemma_slot_bounds(files, idx, from + 1);
    }
}

pub proof fn lemma_slot_is(files: Seq<FileEntry>, idx: FileIndex, from: int, at: int)
    requires
        0 <= from <= at <= files.len(),
        at < files.len() ==> !files[at].file_index.precedes(idx),
        forall|i: int| from <= i < at ==> (#[trigger] files[i]).file_index.precedes(idx),
    ensures
        slot_from(files, idx, from) == at,
    decreases at - from,
{
    if from < at {
        lemma_slot_is(files, idx, from + 1, at);
    }
}

/// In a table in order, a file stands at its slot and nowhere else.
pub proof fn lemma_file_at(files: Seq<FileEntry>, i: int)
    requires
        sorted(files),
        0 <= i < files.len(),
    ensures
        slot(files, files[i].file_index) == i,
        file_at(files, files[i].file_index) == Some(files[i]),
{
    lemma_slot_is(files, files[i].file_index, 0, i);
}

/// A file that the table holds stands at some position of it.
pub proof fn lemma_has_file(files: Seq<FileEntry>, idx: FileIndex)
    requires
        has_file(files, idx),
    ensures
        0 <= slot(files, idx) < files.len(),
        files[slot(files, idx)].file_index == idx,
{
    lemma_slot_bounds(files, idx, 0);
}

pub proof fn lemma_total_len_update(files: Seq<FileEntry>, at: int, entry: FileEntry)
    requires
        0 <= at < files.len(),
    ensures
        total_len(files.update(at, entry)) == total_len(files) - files[at].len + entry.len,
        total_len(files) >= files[at].len,
    decreases files.len(),
{
    let updated = files.update(at, entry);
    if at == files.len() - 1 {
        assert(updated.drop_last() =~= files.drop_last());
    } else {
        assert(updated.drop_last() =~= files.drop_last().update(at, entry));
        lemma_total_len_update(files.drop_last(), at, entry);
    }
}

pub proof fn lemma_total_len_insert(files: Seq<FileEntry>, at: int, entry: FileEntry)
    requires
        0 <= at <= files.len(),
    ensures
        total_len(files.insert(at, entry)) == total_len(files) + entry.len,
    decreases files.len(),
{
    let inserted = files.insert(at, entry);
    if at == files.len() {
        assert(inserted.drop_last() =~= files);
    } else {
        assert(inserted.drop_last() =~= files.drop_last().insert(at, entry));
        lemma_total_len_insert(files.drop_last(), at, entry);
    }
}

pub proof fn lemma_total_len_remove(files: Seq<FileEntry>, at: int)
    requires
        0 <= at < files.len(),
    ensures
        total_len(files.remove(at)) == total_len(files) - files[at].len,
    decreases files.len(),
{
    let removed = files.remove(at);
    if at == files.len() - 1 {
        assert(removed =~= files.drop_last());
    } else {
        assert(removed.drop_last() =~= files.drop_last().remove(at));
        lemma_total_len_remove(files.drop_last(), at);
    }
}

/// Putting a file into a table in order keeps the order, and says what the
/// table then holds under every name.
pub proof fn lemma_with_file(files: Seq<FileEntry>, entry: FileEntry)
    requires
        sorted(files),
    ensures
        sorted(with_file(files, entry)),
        file_at(with_file(files, entry), entry.file_index) == Some(entry),
        forall|idx: FileIndex|
            idx != entry.file_index ==> #[trigger] file_at(with_file(files, entry), idx)
                == file_at(files, idx),
        total_len(with_file(files, entry)) == total_len(files) + entry.len - (match file_at(
            files,
            entry.file_index,
        ) {
            Some(e) => e.len as int,
            None => 0,
        }),
{
    let at = slot(files, entry.file_index);
    let after = with_file(files, entry);
    lemma_slot_bounds(files, entry.file_index, 0);
    if at < files.len() && files[at].file_index == entry.file_index {
        lemma_total_len_update(files, at, entry);
    } else {
        lemma_total_len_insert(files, at, entry);
        assert forall|i: int, j: int| 0 <= i < j < after.len() implies (#[trigger] after[i]).file_index.precedes(
            (#[trigger] after[j]).file_index,
        ) by {
            if j == at {
                assert(after[i] == files[i]);
            } else if i == at {
                assert(after[j] == files[j - 1]);
                if at < j - 1 {
                    assert(files[at].file_index.precedes(files[j - 1].file_index));
                }
            } else {
                let fi = if i < at { i } else { i - 1 };
                let fj = if j < at { j } else { j - 1 };
                assert(after[i] == files[fi]);
                assert(after[j] == files[fj]);
            }
        }
    }
    assert(after[at] == entry);
    lemma_file_at(after, at);
    assert forall|idx: FileIndex| idx != entry.file_index implies #[trigger] file_at(after, idx)
        == file_at(files, idx) by {
        lemma_slot_bounds(files, idx, 0);
        lemma_slot_bounds(after, idx, 0);
        let p = slot(files, idx);
        if p < files.len() && files[p].file_index == idx {
            let q = if after.len() == files.len() || p < at { p } else { p + 1 };
            assert(after[q] == files[p]);
            lemma_file_at(after, q);
        } else {
            let q = slot(after, idx);
            if q < after.len() && after[q].file_index == idx {
                let p2 = if after.len() == files.len() || q < at { q } else { q - 1 };
                assert(files[p2] == after[q]);
                lemma_file_at(files, p2);
            }
        }
    }
}

/// Taking a file out of a table in order keeps the order, and says what the
/// table then holds under every name.
pub proof fn lemma_without_file(files: Seq<FileEntry>, gone: FileIndex)
    requires
        sorted(files),
    ensures
        sorted(without_file(files, gone)),
        file_at(without_file(files, gone), gone) is None,
        forall|idx: FileIndex|
            idx != gone ==> #[trigger] file_at(without_file(files, gone), idx) == file_at(
                files,
                idx,
            ),
        total_len(without_file(files, gone)) == total_len(files) - (match file_at(files, gone) {
            Some(e) => e.len as int,
            None => 0,
        }),
{
    let at = slot(files, gone);
    let after = without_file(files, gone);
    lemma_slot_bounds(files, gone, 0);
    if at < files.len() && files[at].file_index == gone {
        lemma_total_len_remove(files, at);
        assert forall|i: int, j: int| 0 <= i < j < after.len() implies (#[trigger] after[i]).file_index.precedes(
            (#[trigger] after[j]).file_index,
        ) by {
            let fi = if i < at { i } else { i + 1 };
            let fj = if j < at { j } else { j + 1 };
            assert(after[i] == files[fi]);
            assert(after[j] == files[fj]);
        }
        assert forall|i: int| 0 <= i < after.len() implies (#[trigger] after[i]).file_index
            != gone by {
            let fi = if i < at { i } else { i + 1 };
            assert(after[i] == files[fi]);
            if fi < at {
                assert(files[fi].file_index.precedes(files[at].file_index));
            } else {
                assert(files[at].file_index.precedes(files[fi].file_index));
            }
        }
        lemma_slot_bounds(after, gone, 0);
        assert forall|idx: FileIndex| idx != gone implies #[trigger] file_at(after, idx)
            == file_at(files, idx) by {
            lemma_slot_bounds(files, idx, 0);
            lemma_slot_bounds(after, idx, 0);
            let p = slot(files, idx);
            if p < files.len() && files[p].file_index == idx {
                let q = if p < at { p } else { p - 1 };
                assert(after[q] == files[p]);
                lemma_file_at(after, q);
            } else {
                let q = slot(after, idx);
                if q < after.len() && after[q].file_index == idx {
                    let p2 = if q < at { q } else { q + 1 };
                    assert(files[p2] == after[q]);
                    lemma_file_at(files, p2);
                }
            }
        }
    }
}

/// Finds where the file `idx` stands in the table, or would be put.
pub fn find_slot(files: &Vec<FileEntry>, idx: FileIndex) -> (at: usize)
    ensures
        at == slot(files@, idx),
        at <= files.len(),
{
    let mut i: usize = 0;
    while i < files.len() && files[i].file_index.is_before(&idx)
        invariant
            i <= files.len(),
            forall|j: int| 0 <= j < i ==> (#[trigger] files@[j]).file_index.precedes(idx),
        decreases files.len() - i,
    {
        i = i + 1;
    }
    proof {
        lemma_slot_is(files@, idx, 0, i as int);
    }
    i
}

/// Looks the file `idx` up in the table.
pub fn get_file(files: &Vec<FileEntry>, idx: FileIndex) -> (r: Option<FileEntry>)
    ensures
        r == file_at(files@, idx),
{
    let at = find_slot(files, idx);
    if at < files.len() && files[at].file_index == idx {
        Some(files[at])
    } else {
        None
    }
}

/// Puts `entry` into the table, in the place of an entry of the same name if
/// there is one.
pub fn put_file(files: &mut Vec<FileEntry>, entry: FileEntry)
    ensures
        final(files)@ == with_file(old(files)@, entry),
{
    let at = find_slot(files, entry.file_index);
    if at < files.len() && files[at].file_index == entry.file_index {
        files.set(at, entry);
    } else {
        files.insert(at, entry);
    }
}

/// Takes the file `idx` out of the table.
pub fn take_file(files: &mut Vec<FileEntry>, idx: FileIndex)
    ensures
        final(files)@ == without_file(old(files)@, idx),
{
    let at = find_slot(files, idx);
    if at < files.len() && files[at].file_index == idx {
        files.remove(at);
    }
}

} // verus!
