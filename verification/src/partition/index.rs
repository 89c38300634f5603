//! The sparse index of a partition: one entry for each segment, in the order
//! of the segments' first offsets.

use crate::partition::entry_collection::Offset;
use vstd::prelude::*;

verus! {

/// One segment: the byte region `address..address + size` of the file `file`
/// holds whole records, and the first of them has the offset `offset`.
#[derive(Clone, Copy, Debug, PartialEq, Eq, Structural)]
pub struct IndexEntry {
    pub offset: Offset,
    /// The file's place in the listing that the partition was opened on.
    pub file: usize,
    pub address: usize,
    pub size: usize,
}

/// No offset occurs twice, and the entries stand in the order of their offsets.
pub open spec fn ordered(index: Seq<IndexEntry>) -> bool {
    forall|i: int, j: int|
        0 <= i < j < index.len() ==> (#[trigger] index[i]).offset < (#[trigger] index[j]).offset
}

/// The first position at or after `from` whose offset is not below `bound`.
pub open spec fn below(index: Seq<IndexEntry>, bound: int, from: int) -> int
    decreases index.len() - from,
{
    if from < 0 || from >= index.len() {
        index.len() as int
    } else if index[from].offset >= bound {
        from
    } else {
        below(index, bound, from + 1)
    }
}

/// The index with `entry` put in, in the place of an entry of the same
/// offset if there is one.
pub open spec fn put(index: Seq<IndexEntry>, entry: IndexEntry) -> Seq<IndexEntry> {
    let at = below(index, entry.offset as int, 0);
    if at < index.len() && index[at].offset == entry.offset {
        index.update(at, entry)
    } else {
        index.insert(at, entry)
    }
}

/// The entry with the greatest offset that is not above `offset`.
pub open spec fn floor(index: Seq<IndexEntry>, offset: Offset) -> Option<IndexEntry> {
    let at = below(index, offset + 1, 0);
    if at > 0 {
        Some(index[at - 1])
    } else {
        None
    }
}

pub proof fn lemma_below(index: Seq<IndexEntry>, bound: int, from: int)
    requires
        0 <= from <= index.len(),
    ensures
        from <= below(index, bound, from) <= index.len(),
        below(index, bound, from) < index.len() ==> index[below(index, bound, from)].offset
            >= bound,
        forall|i: int| from <= i < below(index, bound, from) ==> (#[trigger] index[i]).offset
            < bound,
    decreases index.len() - from,
{
    if from < index.len() && index[from].offset < bound {
        lemma_below(index, bound, from + 1);
    }
}

pub proof fn lemma_below_is(index: Seq<IndexEntry>, bound: int, from: int, at: int)
    requires
        0 <= from <= at <= index.len(),
        at < index.len() ==> index[at].offset >= bound,
        forall|i: int| from <= i < at ==> (#[trigger] index[i]).offset < bound,
    ensures
        below(index, bound, from) == at,
    decreases at - from,
{
    if from < at {
        lemma_below_is(index, bound, from + 1, at);
    }
}

/// Putting an entry into an index in order keeps the order and the other
/// entries, and the index then holds the entry.
pub proof fn lemma_put(index: Seq<IndexEntry>, entry: IndexEntry)
    requires
        ordered(index),
    ensures
        ordered(put(index, entry)),
        put(index, entry).len() >= index.len(),
        put(index, entry).len() > 0,
        put(index, entry).contains(entry),
        forall|e: IndexEntry| #[trigger]
            put(index, entry).contains(e) ==> e == entry || index.contains(e),
        forall|e: IndexEntry|
            index.contains(e) && e.offset != entry.offset ==> #[trigger] put(
                index,
                entry,
            ).contains(e),
{
    let at = below(index, entry.offset as int, 0);
    let after = put(index, entry);
    lemma_below(index, entry.offset as int, 0);
    assert(after[at] == entry);
    if at < index.len() && index[at].offset == entry.offset {
        assert forall|e: IndexEntry| #[trigger] after.contains(e) implies e == entry
            || index.contains(e) by {
            let i = choose|i: int| 0 <= i < after.len() && after[i] == e;
            if i != at {
                assert(index[i] == e);
            }
        }
        assert forall|e: IndexEntry|
            index.contains(e) && e.offset != entry.offset implies #[trigger] after.contains(
            e,
        ) by {
            let i = choose|i: int| 0 <= i < index.len() && index[i] == e;
            assert(after[i] == e);
        }
    } else {
        assert forall|i: int, j: int| 0 <= i < j < after.len() implies (#[trigger] after[i]).offset
            < (#[trigger] after[j]).offset by {
            if j == at {
                assert(after[i] == index[i]);
            } else if i == at {
                assert(after[j] == index[j - 1]);
                if at < j - 1 {
                    assert(index[at].offset < index[j - 1].offset);
                }
            } else {
                let fi = if i < at { i } else { i - 1 };
                let fj = if j < at { j } else { j - 1 };
                assert(after[i] == index[fi]);
                assert(after[j] == index[fj]);
            }
        }
        assert forall|e: IndexEntry| #[trigger] after.contains(e) implies e == entry
            || index.contains(e) by {
            let i = choose|i: int| 0 <= i < after.len() && after[i] == e;
            if i != at {
                let fi = if i < at { i } else { i - 1 };
                assert(index[fi] == e);
            }
        }
        assert forall|e: IndexEntry|
            index.contains(e) && e.offset != entry.offset implies #[trigger] after.contains(
            e,
        ) by {
            let i = choose|i: int| 0 <= i < index.len() && index[i] == e;
            let ai = if i < at { i } else { i + 1 };
            assert(after[ai] == e);
        }
    }
}

/// An entry whose offset is not below any offset of the index goes to its end.
pub proof fn lemma_put_last(index: Seq<IndexEntry>, entry: IndexEntry)
    requires
        ordered(index),
        index.len() > 0,
        index.last().offset <= entry.offset,
    ensures
        put(index, entry) == (if index.last().offset == entry.offset {
            index.update(index.len() - 1, entry)
        } else {
            index.push(entry)
        }),
        put(index, entry).last() == entry,
{
    let n = index.len() as int;
    if index.last().offset == entry.offset {
        assert forall|i: int| 0 <= i < n - 1 implies (#[trigger] index[i]).offset
            < entry.offset by {
            assert(index[i].offset < index[n - 1].offset);
        }
        lemma_below_is(index, entry.offset as int, 0, n - 1);
    } else {
        assert forall|i: int| 0 <= i < n implies (#[trigger] index[i]).offset < entry.offset by {
            if i < n - 1 {
                assert(index[i].offset < index[n - 1].offset);
            }
        }
        lemma_below_is(index, entry.offset as int, 0, n);
        assert(index.insert(n, entry) =~= index.push(entry));
    }
}

/// What `floor` finds is an entry of the index at or below the offset, and
/// no entry lies between the two.
pub proof fn lemma_floor(index: Seq<IndexEntry>, offset: Offset)
    requires
        ordered(index),
    ensures
        match floor(index, offset) {
            Some(e) => {
                &&& index.contains(e)
                &&& e.offset <= offset
                &&& forall|i: int|
                    0 <= i < index.len() ==> !(e.offset < (#[trigger] index[i]).offset <= offset)
            },
            None => forall|i: int| 0 <= i < index.len() ==> (#[trigger] index[i]).offset > offset,
        },
{
    let at = below(index, offset + 1, 0);
    lemma_below(index, offset + 1, 0);
    if at > 0 {
        let e = index[at - 1];
        assert forall|i: int| 0 <= i < index.len() implies !(e.offset < (#[trigger] index[i]).offset
            <= offset) by {
            if i < at - 1 {
                assert(index[i].offset < index[at - 1].offset);
            } else if i >= at {
                if i > at {
                    assert(index[at].offset < index[i].offset);
                }
            }
        }
    } else {
        assert forall|i: int| 0 <= i < index.len() implies (#[trigger] index[i]).offset
            > offset by {
            if i > 0 {
                assert(index[0].offset < index[i].offset);
            }
        }
    }
}

/// Puts `entry` into the index, in the place of an entry of the same offset
/// if there is one.
pub fn put_entry(index: &mut Vec<IndexEntry>, entry: IndexEntry)
    ensures
        final(index)@ == put(old(index)@, entry),
{
    let mut i: usize = 0;
    while i < index.len() && index[i].offset < entry.offset
        invariant
            i <= index.len(),
            forall|j: int| 0 <= j < i ==> (#[trigger] index@[j]).offset < entry.offset,
        decreases index.len() - i,
    {
        i = i + 1;
    }
    proof {
        lemma_below_is(index@, entry.offset as int, 0, i as int);
    }
    if i < index.len() && index[i].offset == entry.offset {
        index.set(i, entry);
    } else {
        index.insert(i, entry);
    }
}

/// Finds the entry with the greatest offset that is not above `offset`.
pub fn find_floor(index: &Vec<IndexEntry>, offset: Offset) -> (r: Option<IndexEntry>)
    ensures
        r == floor(index@, offset),
{
    let mut i: usize = 0;
    while i < index.len() && index[i].offset <= offset
        invariant
            i <= index.len(),
            forall|j: int| 0 <= j < i ==> (#[trigger] index@[j]).offset < offset + 1,
        decreases index.len() - i,
    {
        i = i + 1;
    }
    proof {
        lemma_below_is(index@, offset + 1, 0, i as int);
    }
    if i > 0 {
        Some(index[i - 1])
    } else {
        None
    }
}

} // verus!
