//! Partition: an append-only log of records numbered by offset, cut into
//! segments, with a sparse index from offsets to the segments' byte regions.
//!
//! The partition decides; its caller owns the file. `produce` says which
//! bytes to append, `consume` says which region to read.

pub mod codec;
pub mod entry_collection;
pub mod history;
pub mod index;
pub mod laws;

pub use crate::partition::entry_collection::{EntryCollection, Offset, PartitionEntry,
    PartitionError};
pub use crate::partition::index::IndexEntry;

use crate::partition::codec::{encode_entry, lemma_parse_entry_size, parse_entry};
use crate::partition::index::{find_floor, floor, lemma_put, lemma_put_last, ordered, put,
    put_entry};
use vstd::prelude::*;
use vstd::slice::slice_to_vec;
use vstd::utf8::*;

verus! {

/// The size that a segment does not pass, but for a single record that is
/// larger by itself.
pub const SEG_LENGTH: usize = 4096;

/// The state of a partition.
pub struct Log {
    /// The segments, in the order of their first offsets.
    pub index: Seq<IndexEntry>,
    /// The offset that the next record gets.
    pub next_offset: Offset,
    /// The length of the file that is written to.
    pub end: usize,
}

impl Log {
    /// The index holds a segment, is in order, and no segment begins above
    /// the next offset.
    pub open spec fn wf(self) -> bool {
        &&& self.index.len() > 0
        &&& ordered(self.index)
        &&& self.index.last().offset <= self.next_offset
    }

    /// Whether a record of `len` bytes begins a new segment.
    pub open spec fn cuts(self, len: nat) -> bool {
        self.index.last().size + len > SEG_LENGTH
    }

    /// Whether the limits of the machine leave room for a record of `len`
    /// bytes: one more offset, and a file that long.
    pub open spec fn room(self, len: nat) -> bool {
        self.next_offset < u64::MAX && self.end + len <= usize::MAX
    }

    /// The segment that a record of `len` bytes goes to, with the record in it.
    pub open spec fn grown(self, len: nat) -> IndexEntry {
        let last = self.index.last();
        if self.cuts(len) {
            IndexEntry {
                offset: self.next_offset,
                file: last.file,
                address: self.end,
                size: len as usize,
            }
        } else {
            IndexEntry { size: (last.size + len) as usize, ..last }
        }
    }

    /// The state after a record of `len` bytes was produced.
    pub open spec fn produced(self, len: nat) -> Log {
        Log {
            index: put(self.index, self.grown(len)),
            next_offset: (self.next_offset + 1) as u64,
            end: (self.end + len) as usize,
        }
    }

    /// The segment to read for `offset`: the one with the greatest first
    /// offset not above it. `BadOffset` for an offset that was not produced
    /// yet, or that lies before every segment.
    pub open spec fn found(self, offset: Offset) -> Result<IndexEntry, PartitionError> {
        if offset >= self.next_offset {
            Err(PartitionError::BadOffset(offset))
        } else {
            match floor(self.index, offset) {
                Some(e) => Ok(e),
                None => Err(PartitionError::BadOffset(offset)),
            }
        }
    }

    /// The offset of the earliest record that the index reaches.
    pub open spec fn first(self) -> Result<Offset, PartitionError> {
        if self.next_offset == 0 {
            Err(PartitionError::NoFirstOffset)
        } else {
            Ok(self.index[0].offset)
        }
    }
}

/// The state of a partition in which nothing was produced: one empty segment
/// at offset 0 of file 0.
pub open spec fn empty_log() -> Log {
    Log {
        index: seq![IndexEntry { offset: 0, file: 0, address: 0, size: 0 }],
        next_offset: 0,
        end: 0,
    }
}

/// Where the scan of one file stands: the index so far, the highest offset
/// seen, and the segment that is being filled, which begins at `cutoff`, has
/// `current` bytes and begins with the record of offset `first`.
pub struct Cursor {
    pub index: Seq<IndexEntry>,
    pub highest: u64,
    pub cutoff: int,
    pub current: int,
    pub first: Option<Offset>,
}

impl Cursor {
    /// The segment that is being filled.
    pub open spec fn segment(self, file: usize, offset: Offset) -> IndexEntry {
        IndexEntry { offset, file, address: self.cutoff as usize, size: self.current as usize }
    }

    /// The cursor after the record `offset`, which ends at `size_read`, was
    /// read. The record joins the segment that is being filled if that stays
    /// within `SEG_LENGTH`; else the segment goes to the index and the record
    /// begins the next one.
    pub open spec fn step(self, file: usize, offset: Offset, size_read: int) -> Cursor {
        let first = match self.first {
            Some(o) => o,
            None => offset,
        };
        let highest = if offset > self.highest {
            offset
        } else {
            self.highest
        };
        if size_read - self.cutoff <= SEG_LENGTH {
            Cursor { highest, current: size_read - self.cutoff, first: Some(first), ..self }
        } else {
            Cursor {
                index: put(self.index, self.segment(file, first)),
                highest,
                cutoff: self.cutoff + self.current,
                current: size_read - (self.cutoff + self.current),
                first: Some(offset),
            }
        }
    }

    /// The index and the highest offset when the file has ended: the segment
    /// that was being filled goes to the index, if it has a record.
    pub open spec fn finish(self, file: usize) -> (Seq<IndexEntry>, u64) {
        match self.first {
            Some(o) => (put(self.index, self.segment(file, o)), self.highest),
            None => (self.index, self.highest),
        }
    }
}

/// The index and the highest offset after the records of `data` from
/// `address` on were read; `None` where bytes are met that are no record.
pub open spec fn scan_file(data: Seq<u8>, file: usize, address: int, cursor: Cursor) -> Option<
    (Seq<IndexEntry>, u64),
>
    decreases data.len() - address,
{
    if address < 0 || address >= data.len() {
        Some(cursor.finish(file))
    } else {
        match parse_entry(data.skip(address)) {
            Some(d) if d.size > 0 => scan_file(
                data,
                file,
                address + d.size,
                cursor.step(file, d.offset, address + d.size),
            ),
            _ => None,
        }
    }
}

/// The index and the highest offset after the first `upto` files of a
/// listing were scanned in its order; `None` where one of them holds bytes
/// that are no record.
pub open spec fn scan_files(listing: Seq<Seq<u8>>, upto: int) -> Option<(Seq<IndexEntry>, u64)>
    decreases upto,
{
    if upto <= 0 {
        Some((Seq::empty(), 0))
    } else {
        match scan_files(listing, upto - 1) {
            None => None,
            Some((index, highest)) => scan_file(
                listing[upto - 1],
                (upto - 1) as usize,
                0,
                Cursor { index, highest, cutoff: 0, current: 0, first: None },
            ),
        }
    }
}

/// What a listing recovers to: nothing where it holds no record; else the
/// index of its segments, with the next offset one above the highest that
/// was seen, writing to the file of the last segment. `Internal` where a file
/// holds bytes that are no record, or the highest offset has none above it.
pub open spec fn recovered(listing: Seq<Seq<u8>>) -> Result<Option<Log>, PartitionError> {
    match scan_files(listing, listing.len() as int) {
        None => Err(PartitionError::Internal),
        Some((index, highest)) => if index.len() == 0 {
            Ok(None)
        } else if highest == u64::MAX {
            Err(PartitionError::Internal)
        } else {
            Ok(
                Some(
                    Log {
                        index,
                        next_offset: (highest + 1) as u64,
                        end: listing[index.last().file as int].len() as usize,
                    },
                ),
            )
        },
    }
}

/// The contents of the files of a listing.
pub open spec fn contents(listing: Seq<Vec<u8>>) -> Seq<Seq<u8>> {
    Seq::new(listing.len(), |i: int| listing[i]@)
}

/// What `produce` asks of the file: append `bytes` to the file `file`, whose
/// length is `position`.
pub struct Produced {
    pub offset: Offset,
    pub file: usize,
    pub position: usize,
    pub bytes: Vec<u8>,
}

/// `std::time::SystemTime`: a time of the clock. Nothing is known of its
/// inside.
#[verifier::external_type_specification]
#[verifier::external_body]
pub struct ExSystemTime(std::time::SystemTime);

/// `std::time::SystemTimeError`: a clock that stands before the time asked
/// of it. Nothing is known of its inside.
#[verifier::external_type_specification]
#[verifier::external_body]
pub struct ExSystemTimeError(std::time::SystemTimeError);

/// `SystemTime::now`: the clock's time. Nothing is claimed of it.
#[verifier::external_body]
fn clock_now() -> std::time::SystemTime {
    std::time::SystemTime::now()
}

/// `SystemTime::duration_since`, from the Unix epoch. Nothing is claimed of
/// what it returns.
#[verifier::external_body]
fn since_epoch(now: &std::time::SystemTime) -> Result<
    core::time::Duration,
    std::time::SystemTimeError,
> {
    now.duration_since(std::time::SystemTime::UNIX_EPOCH)
}

/// `Duration::as_secs`: the whole seconds of a duration. Nothing is claimed
/// of them.
#[verifier::external_body]
fn whole_seconds(duration: &core::time::Duration) -> u64 {
    duration.as_secs()
}

/// The in-memory index of a log on disk.
pub struct Partition {
    index: Vec<IndexEntry>,
    next_offset: Offset,
    end: usize,
}

impl View for Partition {
    type V = Log;

    closed spec fn view(&self) -> Log {
        Log { index: self.index@, next_offset: self.next_offset, end: self.end }
    }
}

impl Partition {
    /// Opens a partition on the files found in its directory: the one that
    /// the files recover to, or an empty one. Beside it stands whether it is
    /// empty; an empty partition writes to the file named `0`, which the
    /// caller makes, and which is file 0 from then on.
    pub fn new(listing: &Vec<Vec<u8>>) -> (r: Result<(Partition, bool), PartitionError>)
        ensures
            match recovered(contents(listing@)) {
                Ok(Some(log)) => r matches Ok((p, fresh)) && p@ == log && !fresh && p@.wf(),
                Ok(None) => r matches Ok((p, fresh)) && p@ == empty_log() && fresh && p@.wf(),
                Err(e) => r matches Err(err) && err == e,
            },
    {
        match Partition::recover(listing) {
            Ok(Some(partition)) => Ok((partition, false)),
            Ok(None) => Ok((Partition::create_new(), true)),
            Err(e) => Err(e),
        }
    }

    /// Adds a record with the clock's time to the end of the partition.
    /// Whatever the clock says, a failure leaves the partition as it was, and
    /// a success is what `produce_at` does at some time.
    pub fn produce(&mut self, value: &str) -> (r: Result<Produced, PartitionError>)
        requires
            old(self)@.wf(),
        ensures
            final(self)@.wf(),
            match r {
                Ok(p) => exists|timestamp: u64|
                    {
                        &&& p.bytes@ == #[trigger] encode_entry(
                            old(self)@.next_offset,
                            timestamp,
                            value@,
                        )
                        &&& old(self)@.room(p.bytes@.len())
                        &&& final(self)@ == old(self)@.produced(p.bytes@.len())
                        &&& p.offset == old(self)@.next_offset
                        &&& p.file == final(self)@.index.last().file
                        &&& p.position == old(self)@.end
                    },
                Err(e) => e == PartitionError::Internal && final(self)@ == old(self)@,
            },
    {
        let now = clock_now();
        match since_epoch(&now) {
            Ok(duration) => {
                let timestamp = whole_seconds(&duration);
                self.produce_at(timestamp, value)
            },
            Err(_) => Err(PartitionError::Internal),
        }
    }

    /// Adds a record with the given time to the end of the partition. The
    /// record gets the next offset. It begins a new segment, at the end of
    /// the file, if with it the last segment would pass `SEG_LENGTH`.
    /// `Internal`, with nothing changed, where the limits of the machine
    /// leave no room.
    pub fn produce_at(&mut self, timestamp: u64, value: &str) -> (r: Result<
        Produced,
        PartitionError,
    >)
        requires
            old(self)@.wf(),
        ensures
            final(self)@.wf(),
            ({
                let bytes = encode_entry(old(self)@.next_offset, timestamp, value@);
                if old(self)@.room(bytes.len()) {
                    &&& r matches Ok(p)
                    &&& p.bytes@ == bytes
                    &&& p.offset == old(self)@.next_offset
                    &&& p.file == final(self)@.index.last().file
                    &&& p.position == old(self)@.end
                    &&& final(self)@ == old(self)@.produced(bytes.len())
                } else {
                    r matches Err(e) && e == PartitionError::Internal && final(self)@ == old(
                        self,
                    )@
                }
            }),
    {
        let offset = self.next_offset;
        let bytes = match PartitionEntry::serialize(offset, timestamp, value) {
            Ok(bytes) => bytes,
            Err(e) => {
                return Err(e);
            },
        };
        let len = bytes.len();
        if offset == u64::MAX || len > usize::MAX - self.end {
            return Err(PartitionError::Internal);
        }
        let last = self.index[self.index.len() - 1];
        let grown = if len > SEG_LENGTH || last.size > SEG_LENGTH - len {
            IndexEntry { offset, file: last.file, address: self.end, size: len }
        } else {
            IndexEntry { offset: last.offset, file: last.file, address: last.address, size: last.size + len }
        };
        proof {
            lemma_put(self.index@, grown);
            lemma_put_last(self.index@, grown);
        }
        put_entry(&mut self.index, grown);
        let position = self.end;
        self.end = self.end + len;
        self.next_offset = offset + 1;
        Ok(Produced { offset, file: grown.file, position, bytes })
    }

    /// The segment to read for the records from `offset` on: the caller reads
    /// `size` bytes at `address` of the file `file` and decodes them with an
    /// `EntryCollection` made for `offset`.
    pub fn consume(&self, offset: Offset) -> (r: Result<IndexEntry, PartitionError>)
        ensures
            r == self@.found(offset),
    {
        if offset >= self.next_offset {
            return Err(PartitionError::BadOffset(offset));
        }
        match find_floor(&self.index, offset) {
            Some(e) => Ok(e),
            None => Err(PartitionError::BadOffset(offset)),
        }
    }

    /// The offset of the earliest record that the index reaches.
    pub fn first_offset(&self) -> (r: Result<Offset, PartitionError>)
        requires
            self@.wf(),
        ensures
            r == self@.first(),
    {
        if self.next_offset == 0 {
            return Err(PartitionError::NoFirstOffset);
        }
        Ok(self.index[0].offset)
    }

    /// A partition in which nothing was produced.
    fn create_new() -> (r: Partition)
        ensures
            r@ == empty_log(),
            r@.wf(),
    {
        let mut index: Vec<IndexEntry> = Vec::new();
        index.push(IndexEntry { offset: 0, file: 0, address: 0, size: 0 });
        let r = Partition { index, next_offset: 0, end: 0 };
        proof {
            assert(r@.index =~= empty_log().index);
        }
        r
    }

    /// Scans the files of a listing and builds the index of their segments.
    fn recover(listing: &Vec<Vec<u8>>) -> (r: Result<Option<Partition>, PartitionError>)
        ensures
            match recovered(contents(listing@)) {
                Ok(Some(log)) => r matches Ok(Some(p)) && p@ == log && p@.wf(),
                Ok(None) => r matches Ok(None),
                Err(e) => r matches Err(err) && err == e,
            },
    {
        let ghost files = contents(listing@);
        let mut index: Vec<IndexEntry> = Vec::new();
        let mut highest_offset: u64 = 0;
        let mut file: usize = 0;
        while file < listing.len()
            invariant
                file <= listing.len(),
                files == contents(listing@),
                ordered(index@),
                scan_files(files, file as int) == Some((index@, highest_offset)),
                forall|e: IndexEntry| #[trigger]
                    index@.contains(e) ==> e.file < file && e.offset <= highest_offset,
            decreases listing.len() - file,
        {
            let data = &listing[file];
            let mut collection = EntryCollection::new(slice_to_vec(data.as_slice()), 0);
            let mut last_seg_cutoff: usize = 0;
            let mut current_seg_size: usize = 0;
            let mut first_offset_of_segment: Option<Offset> = None;
            let ghost start = Cursor {
                index: index@,
                highest: highest_offset,
                cutoff: 0,
                current: 0,
                first: None,
            };
            proof {
                assert(files[file as int] == data@);
            }
            loop
                invariant_except_break
                    collection.wf(),
                    collection.data() == data@,
                    collection.first_offset() == 0,
                    last_seg_cutoff + current_seg_size == collection.address(),
                    collection.address() <= data@.len(),
                    ordered(index@),
                    forall|e: IndexEntry| #[trigger]
                        index@.contains(e) ==> e.file <= file && e.offset <= highest_offset,
                    first_offset_of_segment matches Some(o) ==> o <= highest_offset,
                    scan_file(data@, file, 0, start) == scan_file(
                        data@,
                        file,
                        collection.address(),
                        Cursor {
                            index: index@,
                            highest: highest_offset,
                            cutoff: last_seg_cutoff as int,
                            current: current_seg_size as int,
                            first: first_offset_of_segment,
                        },
                    ),
                invariant
                    file < listing.len(),
                    files == contents(listing@),
                    files[file as int] == data@,
                    scan_files(files, file as int) == Some((start.index, start.highest)),
                    start.cutoff == 0 && start.current == 0 && start.first is None,
                ensures
                    ordered(index@),
                    scan_file(data@, file, 0, start) == Some((index@, highest_offset)),
                    forall|e: IndexEntry| #[trigger]
                        index@.contains(e) ==> e.file <= file && e.offset <= highest_offset,
                decreases data@.len() - collection.address(),
            {
                let ghost address = collection.address();
                let ghost cursor = Cursor {
                    index: index@,
                    highest: highest_offset,
                    cutoff: last_seg_cutoff as int,
                    current: current_seg_size as int,
                    first: first_offset_of_segment,
                };
                proof {
                    if address < data@.len() && parse_entry(data@.skip(address)) is Some {
                        lemma_parse_entry_size(data@.skip(address));
                    }
                }
                match collection.next() {
                    Ok(Some(entry)) => {
                        let first = match first_offset_of_segment {
                            Some(o) => o,
                            None => entry.offset,
                        };
                        if entry.offset > highest_offset {
                            highest_offset = entry.offset;
                        }
                        if collection.size_read() - last_seg_cutoff <= SEG_LENGTH {
                            current_seg_size = collection.size_read() - last_seg_cutoff;
                            first_offset_of_segment = Some(first);
                        } else {
                            let segment = IndexEntry {
                                offset: first,
                                file,
                                address: last_seg_cutoff,
                                size: current_seg_size,
                            };
                            proof {
                                lemma_put(index@, segment);
                            }
                            put_entry(&mut index, segment);
                            last_seg_cutoff = last_seg_cutoff + current_seg_size;
                            current_seg_size = collection.size_read() - last_seg_cutoff;
                            first_offset_of_segment = Some(entry.offset);
                        }
                        proof {
                            assert(Cursor {
                                index: index@,
                                highest: highest_offset,
                                cutoff: last_seg_cutoff as int,
                                current: current_seg_size as int,
                                first: first_offset_of_segment,
                            } == cursor.step(file, entry.offset, collection.address()));
                        }
                    },
                    Ok(None) => {
                        if let Some(offset) = first_offset_of_segment {
                            let segment = IndexEntry {
                                offset,
                                file,
                                address: last_seg_cutoff,
                                size: current_seg_size,
                            };
                            proof {
                                lemma_put(index@, segment);
                            }
                            put_entry(&mut index, segment);
                        }
                        proof {
                            assert((index@, highest_offset) == cursor.finish(file));
                        }
                        break ;
                    },
                    Err(e) => {
                        proof {
                            lemma_scan_stays_none(files, file + 1, listing@.len() as int);
                        }
                        return Err(PartitionError::Internal);
                    },
                }
            }
            file = file + 1;
        }
        if index.len() == 0 {
            return Ok(None);
        }
        if highest_offset == u64::MAX {
            return Err(PartitionError::Internal);
        }
        let last = index[index.len() - 1];
        proof {
            assert(index@.contains(last));
            assert(files[last.file as int] == listing@[last.file as int]@);
        }
        let end = listing[last.file].len();
        Ok(Some(Partition { index, next_offset: highest_offset + 1, end }))
    }
}

/// A file that does not scan fails the scan of the whole listing.
pub proof fn lemma_scan_stays_none(listing: Seq<Seq<u8>>, from: int, to: int)
    requires
        from <= to,
        scan_files(listing, from) is None,
    ensures
        scan_files(listing, to) is None,
    decreases to - from,
{
    if from < to {
        lemma_scan_stays_none(listing, from, to - 1);
    }
}

} // verus!
