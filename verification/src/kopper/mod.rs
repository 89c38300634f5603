//! Kopper: a key/value store kept as an append-only log of segment files,
//! with an index in memory, recovery by scan and compaction of stale segments.
//!
//! The engine decides; its caller owns the files. Every operation that
//! touches the disk returns a plan that says which bytes go where.

pub mod file_index;
pub mod files;
pub mod records;
pub mod laws;
pub mod merge;
pub mod state;

pub use crate::kopper::file_index::{FileIndex, KopperError};
pub use crate::kopper::files::FileEntry;
pub use crate::kopper::records::{KeyValue, KeyValueIterator};
pub use crate::kopper::state::{DiskFile, TableEntry};


use crate::kopper::files::{file_at, get_file, has_file, lemma_file_at, lemma_has_file,
    lemma_total_len_update, lemma_with_file, lemma_without_file, put_file, slot, sorted,
    take_file, total_len, with_file};
use crate::kopper::records::{lemma_record_at, record_at};
use crate::kopper::state::{lemma_appended_wf, lemma_count_unused, images,
    lemma_recover_error_stays, lemma_rolled_wf, lemma_sift_len, listing_len, opened, record_bytes,
    record_len, recover, recover_upto, same_lengths, scan_from, sift, FileImage, State};
use crate::text::{append_bytes, str_from_utf8};
use vstd::hash_map::StringHashMap;
use vstd::prelude::*;
use vstd::utf8::*;

verus! {

/// What the engine keeps in memory.
struct SharedState {
    table: StringHashMap<TableEntry>,
    files: Vec<FileEntry>,
    offset: u64,
    current_file_index: FileIndex,
    size: u64,
}

impl View for SharedState {
    type V = State;

    closed spec fn view(&self) -> State {
        State {
            table: self.table@,
            files: self.files@,
            offset: self.offset,
            active: self.current_file_index,
            size: self.size,
        }
    }
}

/// What a write asks of the disk: where `rollover` is set, open or create the
/// file `file` first; then append `bytes` to the file `file`.
pub struct WritePlan {
    pub rollover: bool,
    pub file: FileIndex,
    pub bytes: Vec<u8>,
    /// The length of all files together after the write.
    pub size: u64,
}

/// What a compaction asks of the disk: where `bytes` is not empty, make the
/// file `create` of it; then remove the file `remove`.
pub struct CompactPlan {
    pub remove: FileIndex,
    pub create: FileIndex,
    pub bytes: Vec<u8>,
}

impl SharedState {
    /// Makes the next base the active file.
    fn cut_off_segment(&mut self)
        requires
            old(self)@.wf(),
            old(self)@.active.base < u32::MAX,
        ensures
            final(self)@ == old(self)@.rolled(),
            final(self)@.wf(),
    {
        let next = FileIndex { base: self.current_file_index.base + 1, index: 0 };
        proof {
            lemma_rolled_wf(self@);
        }
        match get_file(&self.files, next) {
            Some(e) => {
                self.offset = e.len;
            },
            None => {
                put_file(&mut self.files, FileEntry { file_index: next, unused_count: 0, len: 0 });
                self.offset = 0;
            },
        }
        self.current_file_index = next;
    }

    /// Points the index at the record of `key` and `value` at the end of the
    /// active file, and counts the lengths.
    fn append(&mut self, key: String, value: &str)
        requires
            old(self)@.wf(),
            old(self)@.size + record_len(key@, value@) <= u64::MAX,
            old(self)@.table.contains_key(key@) ==> (match file_at(
                old(self)@.files,
                old(self)@.table[key@].file_index,
            ) {
                Some(e) => e.unused_count < usize::MAX,
                None => true,
            }),
        ensures
            final(self)@ == old(self)@.appended(key@, value@),
            final(self)@.wf(),
    {
        let key_len: usize = key.as_str().as_bytes().len();
        let value_len: usize = value.as_bytes().len();
        proof {
            lemma_appended_wf(self@, key@, value@);
            lemma_has_file(self@.files, self@.active);
            lemma_total_len_update(
                self@.files,
                slot(self@.files, self@.active),
                self@.files[slot(self@.files, self@.active)],
            );
        }
        let n: u64 = key_len as u64 + value_len as u64 + 2;
        let entry = TableEntry {
            file_index: self.current_file_index,
            offset: self.offset + key_len as u64 + 1,
            len: value_len,
        };
        let superseded: Option<TableEntry> = match self.table.get(key.as_str()) {
            Some(e) => Some(*e),
            None => None,
        };
        if let Some(old_entry) = superseded {
            if let Some(e) = get_file(&self.files, old_entry.file_index) {
                proof {
                    lemma_count_unused(self@.files, old_entry.file_index);
                }
                put_file(
                    &mut self.files,
                    FileEntry {
                        file_index: old_entry.file_index,
                        unused_count: e.unused_count + 1,
                        len: e.len,
                    },
                );
            }
        }
        self.table.insert(key, entry);
        proof {
            assert(same_lengths(self.files@, old(self)@.files, self.current_file_index));
        }
        if let Some(e) = get_file(&self.files, self.current_file_index) {
            put_file(
                &mut self.files,
                FileEntry {
                    file_index: self.current_file_index,
                    unused_count: e.unused_count,
                    len: e.len + n,
                },
            );
        }
        self.offset = self.offset + n;
        self.size = self.size + n;
        proof {
            let want = old(self)@.appended(key@, value@);
            assert(self@.table =~= want.table);
            assert(self@.files =~= want.files);
        }
    }
}

impl SharedState {
    /// Reads the records of one file into the index, each taking the place of
    /// an earlier entry of its key, and returns the file's length. A key that
    /// is no text stops the scan with `Parse`.
    fn recover_file(
        table: &mut StringHashMap<TableEntry>,
        file_index: FileIndex,
        contents: &Vec<u8>,
    ) -> (r: Result<u64, KopperError>)
        ensures
            final(table)@ == scan_from(old(table)@, file_index, contents@, 0).0,
            match r {
                Ok(n) => scan_from(old(table)@, file_index, contents@, 0).1 && n
                    == contents@.len(),
                Err(e) => !scan_from(old(table)@, file_index, contents@, 0).1 && e
                    == KopperError::Parse,
            },
    {
        let mut it = KeyValueIterator::from(contents);
        loop
            invariant
                it.wf(),
                it.log() == contents@,
                scan_from(old(table)@, file_index, contents@, 0) == scan_from(
                    table@,
                    file_index,
                    contents@,
                    it.position(),
                ),
            decreases contents@.len() - it.position(),
        {
            let ghost before = it.position();
            match it.next() {
                Some(kv) => {
                    proof {
                        lemma_record_at(contents@, before);
                    }
                    match str_from_utf8(kv.key) {
                        Some(key) => {
                            table.insert(
                                key.to_owned(),
                                TableEntry {
                                    file_index,
                                    offset: kv.value_offset,
                                    len: kv.record.len() - kv.key.len() - 2,
                                },
                            );
                        },
                        None => {
                            return Err(KopperError::Parse);
                        },
                    }
                },
                None => {
                    return Ok(contents.len() as u64);
                },
            }
        }
    }

    /// Recovers the files of a listing in its order, and makes ready for
    /// writes: with no file at all the file `0_0` becomes the active one and
    /// is to be made, else the first file in the order of names.
    fn create(listing: &Vec<DiskFile>) -> (r: Result<(SharedState, Option<FileIndex>), KopperError>)
        requires
            listing_len(images(listing@), listing@.len() as int) <= u64::MAX,
        ensures
            match recover(images(listing@)) {
                Ok((table, files)) => {
                    &&& r matches Ok((state, made))
                    &&& state@ == opened(table, files)
                    &&& state@.wf()
                    &&& made == (if files.len() == 0 {
                        Some(FileIndex { base: 0, index: 0 })
                    } else {
                        None
                    })
                },
                Err(e) => r matches Err(err) && err == e,
            },
    {
        let mut table: StringHashMap<TableEntry> = StringHashMap::new();
        let mut files: Vec<FileEntry> = Vec::new();
        let mut size: u64 = 0;
        let mut i: usize = 0;
        while i < listing.len()
            invariant
                i <= listing.len(),
                listing_len(images(listing@), listing@.len() as int) <= u64::MAX,
                sorted(files@),
                size == total_len(files@),
                size <= listing_len(images(listing@), i as int),
                recover_upto(images(listing@), i as int) == Ok::<
                    (Map<Seq<char>, TableEntry>, Seq<FileEntry>),
                    KopperError,
                >((table@, files@)),
            decreases listing.len() - i,
        {
            let file = &listing[i];
            proof {
                assert(images(listing@)[i as int] == file@);
            }
            let file_index = match FileIndex::from_str(file.name.as_str()) {
                Ok(f) => f,
                Err(e) => {
                    proof {
                        lemma_recover_error_stays(
                            images(listing@),
                            i + 1,
                            listing@.len() as int,
                        );
                    }
                    return Err(e);
                },
            };
            let len = match SharedState::recover_file(&mut table, file_index, &file.contents) {
                Ok(n) => n,
                Err(e) => {
                    proof {
                        lemma_recover_error_stays(
                            images(listing@),
                            i + 1,
                            listing@.len() as int,
                        );
                    }
                    return Err(e);
                },
            };
            let entry = FileEntry { file_index, unused_count: 0, len };
            proof {
                lemma_with_file(files@, entry);
                lemma_listing_len_grows(images(listing@), i as int + 1, listing@.len() as int);
                if file_at(files@, file_index) is Some {
                    lemma_has_file(files@, file_index);
                    lemma_total_len_update(
                        files@,
                        slot(files@, file_index),
                        files@[slot(files@, file_index)],
                    );
                }
            }
            let replaced: u64 = match get_file(&files, file_index) {
                Some(e) => e.len,
                None => 0,
            };
            put_file(&mut files, entry);
            size = size - replaced + len;
            i = i + 1;
        }
        if files.len() == 0 {
            let first = FileIndex { base: 0, index: 0 };
            let entry = FileEntry { file_index: first, unused_count: 0, len: 0 };
            files.push(entry);
            let state = SharedState { table, files, offset: 0, current_file_index: first, size: 0 };
            proof {
                assert(state@.files =~= seq![entry]);
                lemma_file_at(state@.files, 0);
                assert(state@.files.drop_last() =~= Seq::<FileEntry>::empty());
                assert(state@ == opened(table@, Seq::<FileEntry>::empty()));
            }
            Ok((state, Some(first)))
        } else {
            let first = files[0];
            proof {
                lemma_file_at(files@, 0);
            }
            let state = SharedState {
                table,
                files,
                offset: first.len,
                current_file_index: first.file_index,
                size,
            };
            assert(state@ == opened(state@.table, state@.files));
            Ok((state, None))
        }
    }
}

/// A listing's length grows with the number of files counted.
pub proof fn lemma_listing_len_grows(listing: Seq<FileImage>, from: int, to: int)
    requires
        from <= to,
    ensures
        listing_len(listing, from) <= listing_len(listing, to),
    decreases to - from,
{
    if from < to {
        lemma_listing_len_grows(listing, from, to - 1);
    }
}

/// The key/value store.
pub struct Kopper {
    state: SharedState,
    segment_size: u64,
    path: String,
}

impl View for Kopper {
    type V = State;

    closed spec fn view(&self) -> State {
        self.state@
    }
}

impl Kopper {
    /// The size past which a write rolls over to a new file.
    pub closed spec fn segment_size(&self) -> u64 {
        self.segment_size
    }

    /// The directory that the engine was made for.
    pub closed spec fn location(&self) -> Seq<char> {
        self.path@
    }

    /// Opens an engine on the files found in its directory, recovered in the
    /// order of the listing. Beside the engine stands the file that is to be
    /// made, where the directory was empty.
    pub fn create(path: &str, segment_size: u64, listing: &Vec<DiskFile>) -> (r: Result<
        (Kopper, Option<FileIndex>),
        KopperError,
    >)
        requires
            listing_len(images(listing@), listing@.len() as int) <= u64::MAX,
        ensures
            match recover(images(listing@)) {
                Ok((table, files)) => {
                    &&& r matches Ok((engine, made))
                    &&& engine@ == opened(table, files)
                    &&& engine@.wf()
                    &&& engine.segment_size() == segment_size
                    &&& engine.location() == path@
                    &&& made == (if files.len() == 0 {
                        Some(FileIndex { base: 0, index: 0 })
                    } else {
                        None
                    })
                },
                Err(e) => r matches Err(err) && err == e,
            },
    {
        match SharedState::create(listing) {
            Ok((state, made)) => Ok((Kopper { state, segment_size, path: path.to_owned() }, made)),
            Err(e) => Err(e),
        }
    }

    /// The length of all segment files together.
    pub fn size(&self) -> (r: u64)
        ensures
            r == self@.size,
    {
        self.state.size
    }

    /// The directory that the engine was made for.
    pub fn path(&self) -> (r: String)
        ensures
            r@ == self.location(),
    {
        self.path.clone()
    }

    /// Where the value of `key` lies; `None` for a key that was never written.
    /// The caller reads `len` bytes at `offset` of the file `file_index`.
    pub fn read(&self, key: &str) -> (r: Option<TableEntry>)
        ensures
            r == (if self@.table.contains_key(key@) {
                Some(self@.table[key@])
            } else {
                None
            }),
    {
        match self.state.table.get(key) {
            Some(e) => Some(*e),
            None => None,
        }
    }

    /// The bytes of a value as text; `None` where they are no text.
    pub fn value(buffer: &[u8]) -> (r: Option<String>)
        ensures
            r.is_some() == valid_utf8(buffer@),
            r matches Some(s) ==> s@ == decode_utf8(buffer@),
    {
        match str_from_utf8(buffer) {
            Some(s) => Some(s.to_owned()),
            None => None,
        }
    }

    /// Whether the limits of the machine leave room for a write of `key` and
    /// `value`.
    pub fn can_write(&self, key: &str, value: &str) -> (r: bool)
        requires
            self@.wf(),
        ensures
            r == self@.write_fits(key@, value@, self.segment_size()),
    {
        let key_len: usize = key.as_bytes().len();
        let value_len: usize = value.as_bytes().len();
        let n: u128 = key_len as u128 + value_len as u128 + 2;
        if n + self.state.size as u128 > u64::MAX as u128 {
            return false;
        }
        if n + self.state.offset as u128 > self.segment_size as u128
            && self.state.current_file_index.base == u32::MAX {
            return false;
        }
        match self.state.table.get(key) {
            Some(e) => match get_file(&self.state.files, e.file_index) {
                Some(f) => f.unused_count < usize::MAX,
                None => true,
            },
            None => true,
        }
    }

    /// Writes `value` under `key`: rolls over first if the record would push
    /// the active file past the segment size, then points the index at the
    /// new value. The plan says what to append, and to which file.
    pub fn write(&mut self, key: String, value: String) -> (plan: WritePlan)
        requires
            old(self)@.wf(),
            old(self)@.write_fits(key@, value@, old(self).segment_size()),
        ensures
            final(self)@ == old(self)@.after_write(key@, value@, old(self).segment_size()),
            final(self)@.wf(),
            final(self).segment_size() == old(self).segment_size(),
            final(self).location() == old(self).location(),
            plan.rollover == old(self)@.rolls_over(key@, value@, old(self).segment_size()),
            plan.file == final(self)@.active,
            plan.bytes@ == record_bytes(key@, value@),
            plan.size == final(self)@.size,
    {
        let key_len: usize = key.as_str().as_bytes().len();
        let value_len: usize = value.as_str().as_bytes().len();
        proof {
            lemma_has_file(self@.files, self@.active);
            lemma_total_len_update(
                self@.files,
                slot(self@.files, self@.active),
                self@.files[slot(self@.files, self@.active)],
            );
        }
        let rollover = key_len as u64 + value_len as u64 + 2 + self.state.offset
            > self.segment_size;
        if rollover {
            proof {
                lemma_rolled_same_table(old(self)@);
                if old(self)@.table.contains_key(key@) {
                    let f = old(self)@.table[key@].file_index;
                    if f != old(self)@.next_file() {
                        assert(file_at(old(self)@.rolled().files, f) == file_at(
                            old(self)@.files,
                            f,
                        ));
                    }
                }
            }
            self.state.cut_off_segment();
        }
        let mut bytes: Vec<u8> = Vec::new();
        append_bytes(&mut bytes, key.as_str().as_bytes());
        bytes.push(0);
        append_bytes(&mut bytes, value.as_str().as_bytes());
        bytes.push(0);
        self.state.append(key, value.as_str());
        WritePlan {
            rollover,
            file: self.state.current_file_index,
            bytes,
            size: self.state.size,
        }
    }
}

impl Kopper {
    /// The file to compact next: of the files other than the active one, the
    /// one with the most unused entries, and of several with as many the
    /// first in the order of names. `None` where the active file is alone.
    pub fn victim(&self) -> (r: Option<FileIndex>)
        requires
            self@.wf(),
        ensures
            match r {
                Some(v) => self@.is_victim(v),
                None => forall|f: FileIndex| #[trigger]
                    has_file(self@.files, f) ==> f == self@.active,
            },
    {
        let files = &self.state.files;
        let active = self.state.current_file_index;
        let mut best: Option<usize> = None;
        let mut i: usize = 0;
        while i < files.len()
            invariant
                i <= files.len(),
                files@ == self@.files,
                active == self@.active,
                match best {
                    Some(b) => {
                        &&& b < i
                        &&& files@[b as int].file_index != active
                        &&& forall|j: int|
                            0 <= j < i && (#[trigger] files@[j]).file_index != active ==> {
                                ||| files@[j].unused_count < files@[b as int].unused_count
                                ||| (files@[j].unused_count == files@[b as int].unused_count && b
                                    <= j)
                            }
                    },
                    None => forall|j: int|
                        0 <= j < i ==> (#[trigger] files@[j]).file_index == active,
                },
            decreases files.len() - i,
        {
            let e = files[i];
            if e.file_index != active {
                let better = match best {
                    Some(b) => e.unused_count > files[b].unused_count,
                    None => true,
                };
                if better {
                    best = Some(i);
                }
            }
            i = i + 1;
        }
        match best {
            Some(b) => {
                let v = files[b];
                proof {
                    lemma_file_at(files@, b as int);
                    assert forall|f: FileIndex| f != active implies (match #[trigger] file_at(
                        files@,
                        f,
                    ) {
                        Some(e) => e.unused_count < v.unused_count || (e.unused_count
                            == v.unused_count && !f.precedes(v.file_index)),
                        None => true,
                    }) by {
                        if file_at(files@, f) is Some {
                            lemma_has_file(files@, f);
                            let j = slot(files@, f);
                            assert(files@[j].file_index != active);
                            if b < j {
                                assert(files@[b as int].file_index.precedes(files@[j].file_index));
                            }
                        }
                    }
                }
                Some(v.file_index)
            },
            None => {
                proof {
                    assert forall|f: FileIndex| #[trigger]
                        has_file(files@, f) implies f == active by {
                        lemma_has_file(files@, f);
                        assert(files@[slot(files@, f)].file_index == active);
                    }
                }
                None
            },
        }
    }

    /// Whether `victim` can be compacted from contents of `len` bytes.
    pub fn can_compact(&self, victim: FileIndex, len: usize) -> (r: bool)
        ensures
            r == self@.can_compact(victim, len as nat),
    {
        if victim == self.state.current_file_index || victim.index == u32::MAX {
            return false;
        }
        let target = FileIndex { base: victim.base, index: victim.index + 1 };
        match get_file(&self.state.files, victim) {
            Some(e) => e.len == len as u64 && get_file(&self.state.files, target).is_none(),
            None => false,
        }
    }

    /// Compacts `victim`, whose contents are `contents`: its live records
    /// move, in their order, to the file one `index` further, the index
    /// follows them, and `victim` leaves the table.
    pub fn compact(&mut self, victim: FileIndex, contents: &Vec<u8>) -> (plan: CompactPlan)
        requires
            old(self)@.wf(),
            old(self)@.can_compact(victim, contents@.len()),
        ensures
            final(self)@ == old(self)@.compacted(victim, contents@),
            final(self)@.wf(),
            final(self).segment_size() == old(self).segment_size(),
            final(self).location() == old(self).location(),
            plan.remove == victim,
            plan.create == State::target_of(victim),
            plan.bytes@ == sift(
                old(self)@.table,
                victim,
                State::target_of(victim),
                contents@,
                0,
                Seq::<u8>::empty(),
            ).1,
    {
        let target = FileIndex { base: victim.base, index: victim.index + 1 };
        let mut kept: Vec<u8> = Vec::new();
        let mut it = KeyValueIterator::from(contents);
        let total: usize = contents.len();
        let ghost start = self@;
        loop
            invariant_except_break
                it.wf(),
                it.log() == contents@,
                kept@.len() <= it.position() <= contents@.len(),
                sift(start.table, victim, target, contents@, 0, Seq::<u8>::empty()) == sift(
                    self@.table,
                    victim,
                    target,
                    contents@,
                    it.position(),
                    kept@,
                ),
            invariant
                total == contents@.len(),
                target == State::target_of(victim),
                self.state.files == old(self).state.files,
                self.state.offset == old(self).state.offset,
                self.state.current_file_index == old(self).state.current_file_index,
                self.state.size == old(self).state.size,
                self.segment_size == old(self).segment_size,
                self.path == old(self).path,
                start == old(self)@,
            ensures
                (self@.table, kept@) == sift(
                    start.table,
                    victim,
                    target,
                    contents@,
                    0,
                    Seq::<u8>::empty(),
                ),
            decreases contents@.len() - it.position(),
        {
            let ghost before = it.position();
            match it.next() {
                Some(kv) => {
                    proof {
                        lemma_record_at(contents@, before);
                        let span = record_at(contents@, before).unwrap();
                        assert(kv.key@.len() == span.key_end - before);
                        assert(kv.record@.len() == span.end - before);
                    }
                    if let Some(key) = str_from_utf8(kv.key) {
                        let found: Option<TableEntry> = match self.state.table.get(key) {
                            Some(e) => Some(*e),
                            None => None,
                        };
                        if let Some(e) = found {
                            if e.file_index == victim && e.offset == kv.value_offset {
                                self.state.table.insert(
                                    key.to_owned(),
                                    TableEntry {
                                        file_index: target,
                                        offset: (kept.len() + kv.key.len() + 1) as u64,
                                        len: kv.record.len() - kv.key.len() - 2,
                                    },
                                );
                                append_bytes(&mut kept, kv.record);
                            }
                        }
                    }
                },
                None => {
                    break ;
                },
            }
        }
        proof {
            lemma_has_file(start.files, victim);
            lemma_total_len_update(
                start.files,
                slot(start.files, victim),
                start.files[slot(start.files, victim)],
            );
            lemma_sift_len(start.table, victim, target, contents@, 0, Seq::<u8>::empty());
            let entry = FileEntry { file_index: target, unused_count: 0, len: kept@.len() as u64 };
            lemma_with_file(start.files, entry);
            let added = if kept@.len() > 0 {
                with_file(start.files, entry)
            } else {
                start.files
            };
            lemma_without_file(added, victim);
            assert(file_at(added, start.active) == file_at(start.files, start.active));
        }
        if kept.len() > 0 {
            put_file(
                &mut self.state.files,
                FileEntry { file_index: target, unused_count: 0, len: kept.len() as u64 },
            );
        }
        take_file(&mut self.state.files, victim);
        self.state.size = self.state.size - contents.len() as u64 + kept.len() as u64;
        CompactPlan { remove: victim, create: target, bytes: kept }
    }
}

/// A rollover leaves the index, the lengths and the counts of the files that
/// were there as they are.
pub proof fn lemma_rolled_same_table(s: State)
    requires
        s.wf(),
    ensures
        s.rolled().table == s.table,
        s.rolled().size == s.size,
        forall|f: FileIndex|
            f != s.next_file() ==> #[trigger] file_at(s.rolled().files, f) == file_at(s.files, f),
        file_at(s.files, s.next_file()) is Some ==> s.rolled().files == s.files,
        file_at(s.files, s.next_file()) is None ==> file_at(s.rolled().files, s.next_file())
            == Some(FileEntry { file_index: s.next_file(), unused_count: 0, len: 0 }),
{
    lemma_with_file(s.files, FileEntry { file_index: s.next_file(), unused_count: 0, len: 0 });
}

} // verus!
