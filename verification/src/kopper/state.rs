//! The engine's state as mathematics: the index, the file table and the
//! counters, and what each operation makes of them.

use crate::kopper::file_index::{parse_name, FileIndex, KopperError};
use crate::kopper::files::{file_at, has_file, lemma_has_file, lemma_total_len_update,
    lemma_with_file, slot, sorted, total_len, with_file, without_file, FileEntry};
use crate::kopper::records::{framed, record_at};
use vstd::prelude::*;
use vstd::utf8::*;

verus! {

/// Where the value of one live key lies.
#[derive(Clone, Copy, Debug, PartialEq, Eq, Structural)]
pub struct TableEntry {
    pub file_index: FileIndex,
    /// The position of the value's first byte in its file.
    pub offset: u64,
    /// The number of bytes in the value.
    pub len: usize,
}

/// The state of an engine.
pub struct State {
    /// The index: for each live key, where its value lies.
    pub table: Map<Seq<char>, TableEntry>,
    /// The segment files, in the order of their names.
    pub files: Seq<FileEntry>,
    /// The length of the active file.
    pub offset: u64,
    /// The file that writes go to.
    pub active: FileIndex,
    /// The lengths of all files together.
    pub size: u64,
}

/// What a disk holds: the bytes of each segment file.
pub type Disk = Map<FileIndex, Seq<u8>>;

/// The number of bytes that the record of `key` and `value` takes in a file.
pub open spec fn record_len(key: Seq<char>, value: Seq<char>) -> nat {
    encode_utf8(key).len() + encode_utf8(value).len() + 2
}

/// The bytes of the record of `key` and `value`.
pub open spec fn record_bytes(key: Seq<char>, value: Seq<char>) -> Seq<u8> {
    framed(encode_utf8(key), encode_utf8(value))
}

/// The table with one more superseded entry counted on the file `idx`.
pub open spec fn count_unused(files: Seq<FileEntry>, idx: FileIndex) -> Seq<FileEntry> {
    match file_at(files, idx) {
        Some(e) => with_file(
            files,
            FileEntry {
                file_index: idx,
                unused_count: (e.unused_count + 1) as usize,
                len: e.len,
            },
        ),
        None => files,
    }
}

/// The table with the file `idx` grown by `n` bytes.
pub open spec fn grow(files: Seq<FileEntry>, idx: FileIndex, n: nat) -> Seq<FileEntry> {
    match file_at(files, idx) {
        Some(e) => with_file(
            files,
            FileEntry { file_index: idx, unused_count: e.unused_count, len: (e.len + n) as u64 },
        ),
        None => files,
    }
}

impl State {
    /// The table is in order and holds the active file, `offset` is that
    /// file's length, and `size` is the length of all files together.
    pub open spec fn wf(self) -> bool {
        &&& sorted(self.files)
        &&& file_at(self.files, self.active) matches Some(e) && e.len == self.offset
        &&& total_len(self.files) == self.size
    }

    /// The file that a rollover makes active.
    pub open spec fn next_file(self) -> FileIndex {
        FileIndex { base: (self.active.base + 1) as u32, index: 0 }
    }

    /// Whether the record of `key` and `value` would push the active file
    /// past `segment_size`.
    pub open spec fn rolls_over(self, key: Seq<char>, value: Seq<char>, segment_size: u64) -> bool {
        record_len(key, value) + self.offset > segment_size
    }

    /// The state after a rollover: the next base becomes active. A file of
    /// that name which the table already holds is kept as it is.
    pub open spec fn rolled(self) -> State {
        let next = self.next_file();
        match file_at(self.files, next) {
            Some(e) => State { active: next, offset: e.len, ..self },
            None => State {
                active: next,
                offset: 0,
                files: with_file(
                    self.files,
                    FileEntry { file_index: next, unused_count: 0, len: 0 },
                ),
                ..self
            },
        }
    }

    /// The index entry that a write of `key` and `value` makes.
    pub open spec fn new_entry(self, key: Seq<char>, value: Seq<char>) -> TableEntry {
        TableEntry {
            file_index: self.active,
            offset: (self.offset + encode_utf8(key).len() + 1) as u64,
            len: encode_utf8(value).len() as usize,
        }
    }

    /// The state after the record of `key` and `value` went to the end of the
    /// active file: the index points at the new value, the file that held the
    /// old one counts one more unused entry, and the lengths have grown.
    pub open spec fn appended(self, key: Seq<char>, value: Seq<char>) -> State {
        let n = record_len(key, value);
        let counted = if self.table.contains_key(key) {
            count_unused(self.files, self.table[key].file_index)
        } else {
            self.files
        };
        State {
            table: self.table.insert(key, self.new_entry(key, value)),
            files: grow(counted, self.active, n),
            offset: (self.offset + n) as u64,
            active: self.active,
            size: (self.size + n) as u64,
        }
    }

    /// The state after a write.
    pub open spec fn after_write(self, key: Seq<char>, value: Seq<char>, segment_size: u64) -> State {
        if self.rolls_over(key, value, segment_size) {
            self.rolled().appended(key, value)
        } else {
            self.appended(key, value)
        }
    }

    /// The limits of the machine leave room for a write of `key` and `value`:
    /// the sizes fit in 64 bits, a rollover has a base to go to, and the
    /// count of unused entries on the superseded file can grow.
    pub open spec fn write_fits(self, key: Seq<char>, value: Seq<char>, segment_size: u64) -> bool {
        &&& encode_utf8(value).len() <= usize::MAX
        &&& self.size + record_len(key, value) <= u64::MAX
        &&& self.rolls_over(key, value, segment_size) ==> self.active.base < u32::MAX
        &&& self.table.contains_key(key) ==> (match file_at(
            self.files,
            self.table[key].file_index,
        ) {
            Some(e) => e.unused_count < usize::MAX,
            None => true,
        })
    }

    /// The bytes that the index holds for `key` on `disk`.
    pub open spec fn stored(self, disk: Disk, key: Seq<char>) -> Option<Seq<u8>> {
        if self.table.contains_key(key) {
            let e = self.table[key];
            Some(disk[e.file_index].subrange(e.offset as int, e.offset + e.len))
        } else {
            None
        }
    }

    /// The state agrees with `disk`: the table's files are the disk's, with
    /// their lengths, and every index entry lies inside its file.
    pub open spec fn holds(self, disk: Disk) -> bool {
        &&& forall|f: FileIndex| has_file(self.files, f) <==> #[trigger] disk.contains_key(f)
        &&& forall|f: FileIndex| #[trigger]
            disk.contains_key(f) ==> file_at(self.files, f).unwrap().len == disk[f].len()
        &&& forall|k: Seq<char>| #[trigger]
            self.table.contains_key(k) ==> {
                &&& disk.contains_key(self.table[k].file_index)
                &&& self.table[k].offset + self.table[k].len
                    <= disk[self.table[k].file_index].len()
            }
    }
}

/// What a write asks of the disk.
pub open spec fn disk_after_write(
    disk: Disk,
    rollover: bool,
    file: FileIndex,
    bytes: Seq<u8>,
) -> Disk {
    let opened = if rollover && !disk.contains_key(file) {
        disk.insert(file, Seq::<u8>::empty())
    } else {
        disk
    };
    opened.insert(file, opened[file] + bytes)
}

/// A rollover keeps a state well-formed.
pub proof fn lemma_rolled_wf(s: State)
    requires
        s.wf(),
        s.active.base < u32::MAX,
    ensures
        s.rolled().wf(),
{
    let next = s.next_file();
    lemma_with_file(s.files, FileEntry { file_index: next, unused_count: 0, len: 0 });
}

/// An append keeps a state well-formed.
pub proof fn lemma_appended_wf(s: State, key: Seq<char>, value: Seq<char>)
    requires
        s.wf(),
        s.size + record_len(key, value) <= u64::MAX,
    ensures
        s.appended(key, value).wf(),
{
    let n = record_len(key, value);
    let counted = if s.table.contains_key(key) {
        count_unused(s.files, s.table[key].file_index)
    } else {
        s.files
    };
    if s.table.contains_key(key) {
        lemma_count_unused(s.files, s.table[key].file_index);
    }
    assert(same_lengths(counted, s.files, s.active));
    let e = file_at(counted, s.active).unwrap();
    lemma_has_file(counted, s.active);
    lemma_total_len_update(counted, slot(counted, s.active), e);
    lemma_with_file(
        counted,
        FileEntry { file_index: s.active, unused_count: e.unused_count, len: (e.len + n) as u64 },
    );
}

/// Two tables hold the file `f` or lack it together, with one length.
pub open spec fn same_lengths(a: Seq<FileEntry>, b: Seq<FileEntry>, f: FileIndex) -> bool {
    match (file_at(a, f), file_at(b, f)) {
        (Some(x), Some(y)) => x.len == y.len,
        (None, None) => true,
        _ => false,
    }
}

/// Counting an unused entry changes no name and no length.
pub proof fn lemma_count_unused(files: Seq<FileEntry>, idx: FileIndex)
    requires
        sorted(files),
    ensures
        sorted(count_unused(files, idx)),
        total_len(count_unused(files, idx)) == total_len(files),
        forall|f: FileIndex| #[trigger] same_lengths(count_unused(files, idx), files, f),
{
    match file_at(files, idx) {
        Some(e) => {
            let counted = FileEntry {
                file_index: idx,
                unused_count: (e.unused_count + 1) as usize,
                len: e.len,
            };
            lemma_with_file(files, counted);
            assert forall|f: FileIndex| #[trigger]
                same_lengths(count_unused(files, idx), files, f) by {
                if f != idx {
                    assert(file_at(with_file(files, counted), f) == file_at(files, f));
                }
            }
        },
        None => {},
    }
}

/// Growing a file changes no name, and no other length.
pub proof fn lemma_grow(files: Seq<FileEntry>, idx: FileIndex, n: nat)
    requires
        sorted(files),
    ensures
        sorted(grow(files, idx, n)),
        forall|f: FileIndex|
            f != idx ==> #[trigger] same_lengths(grow(files, idx, n), files, f),
        has_file(grow(files, idx, n), idx) == has_file(files, idx),
        has_file(files, idx) ==> file_at(grow(files, idx, n), idx).unwrap().len == (file_at(
            files,
            idx,
        ).unwrap().len + n) as u64,
{
    match file_at(files, idx) {
        Some(e) => {
            let grown = FileEntry {
                file_index: idx,
                unused_count: e.unused_count,
                len: (e.len + n) as u64,
            };
            lemma_with_file(files, grown);
            assert forall|f: FileIndex| f != idx implies #[trigger] same_lengths(
                grow(files, idx, n),
                files,
                f,
            ) by {
                assert(file_at(with_file(files, grown), f) == file_at(files, f));
            }
        },
        None => {},
    }
}


/// The index entry of the value of a record found in the file `file`.
pub open spec fn entry_of(file: FileIndex, value_start: int, value_len: int) -> TableEntry {
    TableEntry { file_index: file, offset: value_start as u64, len: value_len as usize }
}

/// The index after the records of `log` from `from` on were read into it in
/// order, each taking the place of an earlier entry of its key; and whether
/// every key on the way was text. Reading stops at a key that is none.
pub open spec fn scan_from(
    table: Map<Seq<char>, TableEntry>,
    file: FileIndex,
    log: Seq<u8>,
    from: int,
) -> (Map<Seq<char>, TableEntry>, bool)
    decreases log.len() - from,
{
    match record_at(log, from) {
        Some(span) if span.end > from => {
            if valid_utf8(span.key(log)) {
                scan_from(
                    table.insert(
                        decode_utf8(span.key(log)),
                        entry_of(file, span.value_start(), span.value_len()),
                    ),
                    file,
                    log,
                    span.end,
                )
            } else {
                (table, false)
            }
        },
        _ => (table, true),
    }
}

/// One file as it was found in the engine's directory.
pub struct DiskFile {
    pub name: String,
    pub contents: Vec<u8>,
}

/// A file of a directory as mathematics: the bytes of its name and its contents.
pub struct FileImage {
    pub name: Seq<u8>,
    pub contents: Seq<u8>,
}

impl View for DiskFile {
    type V = FileImage;

    open spec fn view(&self) -> FileImage {
        FileImage { name: encode_utf8(self.name@), contents: self.contents@ }
    }
}

/// The files of a listing as mathematics.
pub open spec fn images(listing: Seq<DiskFile>) -> Seq<FileImage> {
    Seq::new(listing.len(), |i: int| listing[i]@)
}

/// The lengths of the first `upto` files of a listing together.
pub open spec fn listing_len(listing: Seq<FileImage>, upto: int) -> nat
    decreases upto,
{
    if upto <= 0 {
        0
    } else {
        listing_len(listing, upto - 1) + listing[upto - 1].contents.len()
    }
}

/// The index and the file table after the first `upto` files of a listing
/// were recovered in the order of the listing; the error of the first file
/// whose name does not parse or that holds a key that is no text.
pub open spec fn recover_upto(listing: Seq<FileImage>, upto: int) -> Result<
    (Map<Seq<char>, TableEntry>, Seq<FileEntry>),
    KopperError,
>
    decreases upto,
{
    if upto <= 0 {
        Ok((Map::empty(), Seq::empty()))
    } else {
        match recover_upto(listing, upto - 1) {
            Err(e) => Err(e),
            Ok((table, files)) => match parse_name(listing[upto - 1].name) {
                Err(e) => Err(e),
                Ok(file) => {
                    let scanned = scan_from(table, file, listing[upto - 1].contents, 0);
                    if scanned.1 {
                        Ok(
                            (
                                scanned.0,
                                with_file(
                                    files,
                                    FileEntry {
                                        file_index: file,
                                        unused_count: 0,
                                        len: listing[upto - 1].contents.len() as u64,
                                    },
                                ),
                            ),
                        )
                    } else {
                        Err(KopperError::Parse)
                    }
                },
            },
        }
    }
}

/// What a whole listing recovers to.
pub open spec fn recover(listing: Seq<FileImage>) -> Result<
    (Map<Seq<char>, TableEntry>, Seq<FileEntry>),
    KopperError,
> {
    recover_upto(listing, listing.len() as int)
}

/// The first error of a listing is the error of the whole.
pub proof fn lemma_recover_error_stays(listing: Seq<FileImage>, from: int, to: int)
    requires
        from <= to,
        recover_upto(listing, from) is Err,
    ensures
        recover_upto(listing, to) == recover_upto(listing, from),
    decreases to - from,
{
    if from < to {
        lemma_recover_error_stays(listing, from, to - 1);
    }
}

/// The state of an engine opened on a listing that recovers to `table` and
/// `files`: with no file, the file `0_0` is made; else the first file in the
/// order of names becomes the active one.
pub open spec fn opened(table: Map<Seq<char>, TableEntry>, files: Seq<FileEntry>) -> State {
    if files.len() == 0 {
        let first = FileIndex { base: 0, index: 0 };
        State {
            table,
            files: seq![FileEntry { file_index: first, unused_count: 0, len: 0 }],
            offset: 0,
            active: first,
            size: 0,
        }
    } else {
        State {
            table,
            files,
            offset: files[0].len,
            active: files[0].file_index,
            size: total_len(files) as u64,
        }
    }
}

/// Whether the record at `span` of the victim's `log` is the live one of its key.
pub open spec fn is_live(
    table: Map<Seq<char>, TableEntry>,
    victim: FileIndex,
    log: Seq<u8>,
    key_bytes: Seq<u8>,
    value_start: int,
) -> bool {
    &&& valid_utf8(key_bytes)
    &&& table.contains_key(decode_utf8(key_bytes))
    &&& table[decode_utf8(key_bytes)].file_index == victim
    &&& table[decode_utf8(key_bytes)].offset == value_start
}

/// The index and the bytes of the compacted file after the records of the
/// victim's `log` from `from` on were sifted in order: a live record goes to
/// the end of `kept` and the index follows it into the file `target`; a dead
/// one is dropped.
pub open spec fn sift(
    table: Map<Seq<char>, TableEntry>,
    victim: FileIndex,
    target: FileIndex,
    log: Seq<u8>,
    from: int,
    kept: Seq<u8>,
) -> (Map<Seq<char>, TableEntry>, Seq<u8>)
    decreases log.len() - from,
{
    match record_at(log, from) {
        Some(span) if span.end > from => {
            if is_live(table, victim, log, span.key(log), span.value_start()) {
                sift(
                    table.insert(
                        decode_utf8(span.key(log)),
                        entry_of(
                            target,
                            (kept.len() + span.key(log).len() + 1) as int,
                            span.value_len(),
                        ),
                    ),
                    victim,
                    target,
                    log,
                    span.end,
                    kept + span.bytes(log),
                )
            } else {
                sift(table, victim, target, log, span.end, kept)
            }
        },
        _ => (table, kept),
    }
}

impl State {
    /// The file that the live records of `victim` move to.
    pub open spec fn target_of(victim: FileIndex) -> FileIndex {
        FileIndex { base: victim.base, index: (victim.index + 1) as u32 }
    }

    /// Whether `victim` can be compacted from contents of `len` bytes: the
    /// table holds it with that length, it is not the active file, and the
    /// name of the compacted file is free.
    pub open spec fn can_compact(self, victim: FileIndex, len: nat) -> bool {
        &&& file_at(self.files, victim) matches Some(e) && e.len == len
        &&& victim != self.active
        &&& victim.index < u32::MAX
        &&& !has_file(self.files, Self::target_of(victim))
    }

    /// The state after the compaction of `victim`, whose contents are `log`.
    pub open spec fn compacted(self, victim: FileIndex, log: Seq<u8>) -> State {
        let target = Self::target_of(victim);
        let sifted = sift(self.table, victim, target, log, 0, Seq::<u8>::empty());
        let added = if sifted.1.len() > 0 {
            with_file(
                self.files,
                FileEntry { file_index: target, unused_count: 0, len: sifted.1.len() as u64 },
            )
        } else {
            self.files
        };
        State {
            table: sifted.0,
            files: without_file(added, victim),
            offset: self.offset,
            active: self.active,
            size: (self.size - log.len() + sifted.1.len()) as u64,
        }
    }

    /// Whether `victim` is the file to compact next: of the files other than
    /// the active one it has the most unused entries, and of those with as
    /// many it comes first.
    pub open spec fn is_victim(self, victim: FileIndex) -> bool {
        &&& victim != self.active
        &&& file_at(self.files, victim) matches Some(v) && forall|f: FileIndex|
            f != self.active ==> (match #[trigger] file_at(self.files, f) {
                Some(e) => e.unused_count < v.unused_count || (e.unused_count == v.unused_count
                    && !f.precedes(victim)),
                None => true,
            })
    }
}

/// What a compaction asks of the disk: where `bytes` is not empty, the file
/// `create` is made of it; then the file `remove` goes.
pub open spec fn disk_after_compaction(
    disk: Disk,
    remove: FileIndex,
    create: FileIndex,
    bytes: Seq<u8>,
) -> Disk {
    let added = if bytes.len() > 0 {
        disk.insert(create, bytes)
    } else {
        disk
    };
    added.remove(remove)
}

/// Sifting keeps no more bytes than it has read.
pub proof fn lemma_sift_len(
    table: Map<Seq<char>, TableEntry>,
    victim: FileIndex,
    target: FileIndex,
    log: Seq<u8>,
    from: int,
    kept: Seq<u8>,
)
    requires
        0 <= from <= log.len(),
        kept.len() <= from,
    ensures
        sift(table, victim, target, log, from, kept).1.len() <= log.len(),
    decreases log.len() - from,
{
    match record_at(log, from) {
        Some(span) if span.end > from => {
            crate::kopper::records::lemma_record_at(log, from);
            if is_live(table, victim, log, span.key(log), span.value_start()) {
                lemma_sift_len(
                    table.insert(
                        decode_utf8(span.key(log)),
                        entry_of(
                            target,
                            (kept.len() + span.key(log).len() + 1) as int,
                            span.value_len(),
                        ),
                    ),
                    victim,
                    target,
                    log,
                    span.end,
                    kept + span.bytes(log),
                );
            } else {
                lemma_sift_len(table, victim, target, log, span.end, kept);
            }
        },
        _ => {},
    }
}

} // verus!
