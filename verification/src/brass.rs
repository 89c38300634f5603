//! Brass: a key/value store kept in one segment of fixed size. The first byte
//! of a segment says what it is; in a leaf the records follow, each a key, a
//! zero byte, a value and a zero byte, and a line feed marks their end.

use crate::kopper::file_index::{find_byte, lemma_find_byte, position_of};
use crate::text::str_from_utf8;
use vstd::prelude::*;
use vstd::slice::slice_subrange;
use vstd::utf8::*;

verus! {

/// What can go wrong in the store.
#[derive(Clone, Copy, Debug, PartialEq, Eq, Structural)]
pub enum BrassError {
    /// The file system refused an operation.
    IO,
}

/// The byte that marks the end of the records of a leaf.
pub const TOMBSTONE: u8 = 0x0a;

/// Where one record of a leaf lies, and where the iterator goes on from it.
pub struct LeafSpan {
    pub start: int,
    pub key_end: int,
    pub value_end: int,
    pub next: int,
}

/// The record that a leaf iterator at `offset` hands out: none at the end of
/// the data, at the end mark, or where a key or a value has no zero byte
/// behind it. The iterator goes on at its offset plus the position behind
/// the record.
pub open spec fn leaf_next(buf: Seq<u8>, offset: int) -> Option<LeafSpan> {
    let key_end = find_byte(buf, 0, offset);
    let value_end = find_byte(buf, 0, key_end + 1);
    if offset < 0 || offset >= buf.len() || buf[offset] == TOMBSTONE {
        None
    } else if key_end < buf.len() && value_end < buf.len() {
        Some(LeafSpan { start: offset, key_end, value_end, next: offset + value_end + 1 })
    } else {
        None
    }
}

/// One record handed out by a leaf iterator.
pub struct LeafItem<'a> {
    pub key: &'a [u8],
    pub value: &'a [u8],
    /// Where the key begins in the leaf's data.
    pub index: usize,
}

/// Walks over the records of a leaf.
pub struct LeafIterator<'a> {
    offset: usize,
    buffer: &'a [u8],
}

/// Stands for the records of an inner node.
pub struct NodeIterator {}

/// The records of a segment, by what the segment is.
pub enum SegmentIter<'a> {
    Leaf(LeafIterator<'a>),
    Node(NodeIterator),
}

/// The largest segment whose positions can be added without overflow.
pub open spec fn max_segment() -> int {
    (usize::MAX / 2) as int
}

impl<'a> LeafIterator<'a> {
    /// The data that is walked over.
    pub closed spec fn data(&self) -> Seq<u8> {
        self.buffer@
    }

    /// Where the iterator stands.
    pub closed spec fn offset(&self) -> int {
        self.offset as int
    }

    /// The data is no larger than a segment can be.
    pub closed spec fn wf(&self) -> bool {
        self.buffer@.len() <= max_segment()
    }

    /// The next record; `None`, without moving, when there is none.
    pub fn next(&mut self) -> (r: Option<LeafItem<'a>>)
        requires
            old(self).wf(),
        ensures
            final(self).wf(),
            final(self).data() == old(self).data(),
            match leaf_next(old(self).data(), old(self).offset()) {
                Some(span) => {
                    &&& r matches Some(item)
                    &&& item.key@ == old(self).data().subrange(span.start, span.key_end)
                    &&& item.value@ == old(self).data().subrange(span.key_end + 1, span.value_end)
                    &&& item.index == span.start
                    &&& final(self).offset() == span.next
                },
                None => r is None && final(self).offset() == old(self).offset(),
            },
    {
        let buffer: &'a [u8] = self.buffer;
        if self.offset >= buffer.len() {
            return None;
        }
        if buffer[self.offset] == TOMBSTONE {
            return None;
        }
        let key_end = position_of(buffer, 0, self.offset);
        if key_end >= buffer.len() {
            proof {
                assert(find_byte(buffer@, 0, key_end + 1) == buffer@.len());
            }
            return None;
        }
        let value_end = position_of(buffer, 0, key_end + 1);
        if value_end >= buffer.len() {
            return None;
        }
        let key = slice_subrange(buffer, self.offset, key_end);
        let value = slice_subrange(buffer, key_end + 1, value_end);
        let index = self.offset;
        self.offset = self.offset + value_end + 1;
        Some(LeafItem { key, value, index })
    }
}

impl<'a> SegmentIter<'a> {
    /// The records of the segment `buf`: those of a leaf where its first byte
    /// is zero.
    pub fn new(buf: &'a [u8]) -> (r: Self)
        requires
            0 < buf@.len() <= max_segment(),
        ensures
            match r {
                SegmentIter::Leaf(it) => buf@[0] == 0 && it.wf() && it.offset() == 0 && it.data()
                    == buf@.subrange(1, buf@.len() as int),
                SegmentIter::Node(_) => buf@[0] != 0,
            },
    {
        if buf[0] == 0 {
            return SegmentIter::Leaf(
                LeafIterator { offset: 0, buffer: slice_subrange(buf, 1, buf.len()) },
            );
        }
        SegmentIter::Node(NodeIterator {  })
    }
}

/// Whether `a` comes before `b` in the order of texts: byte by byte, and a
/// proper beginning before the whole.
pub open spec fn lex_less(a: Seq<u8>, b: Seq<u8>) -> bool
    decreases a.len(),
{
    if b.len() == 0 {
        false
    } else if a.len() == 0 {
        true
    } else if a[0] != b[0] {
        a[0] < b[0]
    } else {
        lex_less(a.skip(1), b.skip(1))
    }
}

/// Compares two texts byte by byte.
pub fn bytes_less(a: &[u8], b: &[u8]) -> (r: bool)
    ensures
        r == lex_less(a@, b@),
{
    let mut i: usize = 0;
    proof {
        assert(a@.skip(0) =~= a@);
        assert(b@.skip(0) =~= b@);
    }
    while i < a.len() && i < b.len() && a[i] == b[i]
        invariant
            i <= a.len(),
            i <= b.len(),
            lex_less(a@, b@) == lex_less(a@.skip(i as int), b@.skip(i as int)),
        decreases a.len() - i,
    {
        proof {
            assert(a@.skip(i as int).skip(1) =~= a@.skip(i + 1));
            assert(b@.skip(i as int).skip(1) =~= b@.skip(i + 1));
        }
        i = i + 1;
    }
    if i >= b.len() {
        false
    } else if i >= a.len() {
        true
    } else {
        a[i] < b[i]
    }
}

/// The number of bytes of `buf` from `offset` on.
pub open spec fn left(buf: Seq<u8>, offset: int) -> nat {
    if 0 <= offset < buf.len() {
        (buf.len() - offset) as nat
    } else {
        0
    }
}

/// Whether a leaf iterator that starts at `offset` comes to a record whose
/// key `key` is less than.
pub open spec fn finds_greater(buf: Seq<u8>, offset: int, key: Seq<u8>) -> bool
    decreases left(buf, offset),
{
    match leaf_next(buf, offset) {
        Some(span) if span.next > offset => lex_less(key, buf.subrange(span.start, span.key_end))
            || finds_greater(buf, span.next, key),
        _ => false,
    }
}

/// The data of a leaf with a record written at `at`: the key, a zero byte,
/// the value, then one byte that stays, a zero byte and the end mark.
pub open spec fn written(buf: Seq<u8>, at: int, key: Seq<u8>, value: Seq<u8>) -> Seq<u8> {
    Seq::new(
        buf.len(),
        |i: int|
            if at <= i < at + key.len() {
                key[i - at]
            } else if i == at + key.len() {
                0
            } else if at + key.len() < i <= at + key.len() + value.len() {
                value[i - at - key.len() - 1]
            } else if i == at + key.len() + value.len() + 2 {
                0
            } else if i == at + key.len() + value.len() + 3 {
                TOMBSTONE
            } else {
                buf[i]
            },
    )
}

/// Whether a record of `key` and `value` goes into a leaf with the data
/// `buf`: the leaf has an end mark, the record with what is written behind
/// it fits before the end of the data, and no record of the leaf has a
/// greater key.
pub open spec fn takes(buf: Seq<u8>, key: Seq<u8>, value: Seq<u8>) -> bool {
    let end = find_byte(buf, TOMBSTONE, 0);
    &&& end < buf.len()
    &&& end + key.len() + value.len() + 3 < buf.len()
    &&& !finds_greater(buf, 0, key)
}

/// One segment of the store.
pub struct Segment {
    buffer: Vec<u8>,
}

impl View for Segment {
    type V = Seq<u8>;

    closed spec fn view(&self) -> Seq<u8> {
        self.buffer@
    }
}

impl Segment {
    /// The segment has its first byte, and is no larger than a segment can be.
    pub open spec fn wf(&self) -> bool {
        0 < self@.len() <= max_segment()
    }

    /// The data of the segment: all but its first byte.
    pub open spec fn data(&self) -> Seq<u8> {
        self@.subrange(1, self@.len() as int)
    }

    /// A segment of the given bytes, which have the length `segment_size`;
    /// `None` for bytes of another length or too many.
    pub fn load(buffer: Vec<u8>, segment_size: usize) -> (r: Option<Segment>)
        ensures
            match r {
                Some(s) => s@ == buffer@ && s.wf() && buffer@.len() == segment_size,
                None => buffer@.len() != segment_size || buffer@.len() == 0 || buffer@.len()
                    > max_segment(),
            },
    {
        if buffer.len() != segment_size || buffer.len() == 0 || buffer.len() > usize::MAX / 2 {
            return None;
        }
        Some(Segment { buffer })
    }

    /// The bytes of the segment.
    pub fn bytes(&self) -> (r: &Vec<u8>)
        ensures
            r@ == self@,
    {
        &self.buffer
    }

    /// The records of the segment.
    pub fn iter(&self) -> (r: SegmentIter<'_>)
        requires
            self.wf(),
        ensures
            match r {
                SegmentIter::Leaf(it) => self@[0] == 0 && it.wf() && it.offset() == 0 && it.data()
                    == self.data(),
                SegmentIter::Node(_) => self@[0] != 0,
            },
    {
        SegmentIter::new(self.buffer.as_slice())
    }

    /// The data of the segment: all but its first byte.
    pub fn buf(&self) -> (r: &[u8])
        requires
            self.wf(),
        ensures
            r@ == self.data(),
    {
        slice_subrange(self.buffer.as_slice(), 1, self.buffer.len())
    }

    /// Writes the byte `b` at the position `at` of the data.
    fn set(&mut self, at: usize, b: u8)
        requires
            at + 1 < old(self)@.len(),
        ensures
            final(self).data() == old(self).data().update(at as int, b),
            final(self)@.len() == old(self)@.len(),
            final(self)@[0] == old(self)@[0],
    {
        let len = self.buffer.len();
        assert(at + 1 < len);
        self.buffer.set(at + 1, b);
        proof {
            assert(self.data() =~= old(self).data().update(at as int, b));
        }
    }

    /// Writes `bytes` at the position `at` of the data.
    fn set_all(&mut self, at: usize, bytes: &[u8])
        requires
            at + bytes@.len() < old(self)@.len(),
        ensures
            final(self)@.len() == old(self)@.len(),
            final(self)@[0] == old(self)@[0],
            final(self).data().len() == old(self).data().len(),
            forall|i: int|
                0 <= i < old(self).data().len() ==> #[trigger] final(self).data()[i] == (if at <= i
                    < at + bytes@.len() {
                    bytes@[i - at]
                } else {
                    old(self).data()[i]
                }),
    {
        let mut j: usize = 0;
        let len = self.buffer.len();
        while j < bytes.len()
            invariant
                j <= bytes.len(),
                len == old(self)@.len(),
                at + bytes@.len() < old(self)@.len(),
                self@.len() == old(self)@.len(),
                self@[0] == old(self)@[0],
                forall|i: int|
                    0 <= i < old(self).data().len() ==> #[trigger] self.data()[i] == (if at <= i
                        < at + j {
                        bytes@[i - at]
                    } else {
                        old(self).data()[i]
                    }),
            decreases bytes.len() - j,
        {
            self.set(at + j, bytes[j]);
            j = j + 1;
        }
    }

    /// Puts the record of `key` and `value` behind the records of a leaf, and
    /// says whether it did: it does not where the leaf has no end mark, where
    /// the record does not fit, or where it belongs before a record with a
    /// greater key.
    pub fn try_insert(&mut self, key: &str, value: &str) -> (r: bool)
        requires
            old(self).wf(),
            old(self)@[0] == 0,
        ensures
            final(self).wf(),
            final(self)@[0] == 0,
            r == takes(old(self).data(), encode_utf8(key@), encode_utf8(value@)),
            r ==> final(self).data() == written(
                old(self).data(),
                find_byte(old(self).data(), TOMBSTONE, 0),
                encode_utf8(key@),
                encode_utf8(value@),
            ),
            !r ==> final(self)@ == old(self)@,
    {
        let key_bytes = key.as_bytes();
        let value_bytes = value.as_bytes();
        let size = self.buffer.len() - 1;
        let end_offset = position_of(self.buf(), TOMBSTONE, 0);
        if end_offset >= size {
            return false;
        }
        // The record, the byte that stays, the zero byte and the end mark.
        if key_bytes.len() >= size - end_offset || value_bytes.len() >= size - end_offset
            - key_bytes.len() || size - end_offset - key_bytes.len() - value_bytes.len() <= 3 {
            return false;
        }
        if self.has_greater(key_bytes) {
            return false;
        }
        let offset = end_offset;
        let key_len = key_bytes.len();
        let value_len = value_bytes.len();
        self.set_all(offset, key_bytes);
        self.set(offset + key_len, 0);
        self.set_all(offset + key_len + 1, value_bytes);
        self.set(offset + key_len + 2 + value_len, 0);
        self.set(offset + key_len + 3 + value_len, TOMBSTONE);
        proof {
            assert(self.data() =~= written(
                old(self).data(),
                offset as int,
                key_bytes@,
                value_bytes@,
            ));
        }
        true
    }

    /// Whether the leaf holds a record that `key` belongs before.
    fn has_greater(&self, key: &[u8]) -> (r: bool)
        requires
            self.wf(),
            self@[0] == 0,
        ensures
            r == finds_greater(self.data(), 0, key@),
    {
        match self.iter() {
            SegmentIter::Leaf(mut it) => {
                loop
                    invariant
                        it.wf(),
                        it.data() == self.data(),
                        0 <= it.offset(),
                        finds_greater(self.data(), 0, key@) == finds_greater(
                            self.data(),
                            it.offset(),
                            key@,
                        ),
                    decreases left(self.data(), it.offset()),
                {
                    let ghost before = it.offset();
                    proof {
                        if before < self.data().len() {
                            lemma_find_byte(self.data(), 0, before);
                            if find_byte(self.data(), 0, before) < self.data().len() {
                                lemma_find_byte(
                                    self.data(),
                                    0,
                                    find_byte(self.data(), 0, before) + 1,
                                );
                            }
                        }
                    }
                    match it.next() {
                        Some(item) => {
                            if bytes_less(key, item.key) {
                                return true;
                            }
                        },
                        None => {
                            return false;
                        },
                    }
                }
            },
            SegmentIter::Node(_) => false,
        }
    }

    /// The value of the first record of a leaf with the key `key`, as text;
    /// `None` where there is none, or where the value is no text.
    pub fn find(&self, key: &str) -> (r: Option<String>)
        requires
            self.wf(),
            self@[0] == 0,
        ensures
            match found_from(self.data(), 0, encode_utf8(key@)) {
                Some(value) => if valid_utf8(value) {
                    r matches Some(s) && s@ == decode_utf8(value)
                } else {
                    r is None
                },
                None => r is None,
            },
    {
        let key_bytes = key.as_bytes();
        match self.iter() {
            SegmentIter::Leaf(mut it) => {
                loop
                    invariant
                        it.wf(),
                        it.data() == self.data(),
                        0 <= it.offset(),
                        key_bytes@ == encode_utf8(key@),
                        found_from(self.data(), 0, key_bytes@) == found_from(
                            self.data(),
                            it.offset(),
                            key_bytes@,
                        ),
                    decreases left(self.data(), it.offset()),
                {
                    let ghost before = it.offset();
                    proof {
                        if before < self.data().len() {
                            lemma_find_byte(self.data(), 0, before);
                            if find_byte(self.data(), 0, before) < self.data().len() {
                                lemma_find_byte(
                                    self.data(),
                                    0,
                                    find_byte(self.data(), 0, before) + 1,
                                );
                            }
                        }
                    }
                    match it.next() {
                        Some(item) => {
                            if same_bytes(item.key, key_bytes) {
                                return match str_from_utf8(item.value) {
                                    Some(s) => Some(s.to_owned()),
                                    None => None,
                                };
                            }
                        },
                        None => {
                            return None;
                        },
                    }
                }
            },
            SegmentIter::Node(_) => None,
        }
    }
}

/// The value of the first record with the key `key` that a leaf iterator
/// from `offset` comes to.
pub open spec fn found_from(buf: Seq<u8>, offset: int, key: Seq<u8>) -> Option<Seq<u8>>
    decreases left(buf, offset),
{
    match leaf_next(buf, offset) {
        Some(span) if span.next > offset => if buf.subrange(span.start, span.key_end) == key {
            Some(buf.subrange(span.key_end + 1, span.value_end))
        } else {
            found_from(buf, span.next, key)
        },
        _ => None,
    }
}

/// Whether two texts are the same, byte by byte.
pub fn same_bytes(a: &[u8], b: &[u8]) -> (r: bool)
    ensures
        r == (a@ == b@),
{
    if a.len() != b.len() {
        return false;
    }
    let mut i: usize = 0;
    while i < a.len()
        invariant
            i <= a.len(),
            a@.len() == b@.len(),
            forall|j: int| 0 <= j < i ==> a@[j] == b@[j],
        decreases a.len() - i,
    {
        if a[i] != b[i] {
            return false;
        }
        i = i + 1;
    }
    proof {
        assert(a@ =~= b@);
    }
    true
}

/// The bytes of a new store of `segment_size` bytes: an empty leaf, which is
/// zero bytes with the end mark as the second byte, and so two bytes at least.
pub open spec fn empty_leaf(segment_size: usize) -> Seq<u8> {
    Seq::new(
        if segment_size < 2 {
            2
        } else {
            segment_size as nat
        },
        |i: int| if i == 1 { TOMBSTONE } else { 0u8 },
    )
}

/// The store: one leaf in one file.
pub struct Brass {
    segment_size: usize,
    path: String,
}

impl Brass {
    /// The size of the store's segment.
    pub closed spec fn segment_size(&self) -> usize {
        self.segment_size
    }

    /// The directory that the store was made for.
    pub closed spec fn location(&self) -> Seq<char> {
        self.path@
    }

    /// A store in the directory `path`, with a segment of `segment_size` bytes.
    pub fn create(path: &str, segment_size: usize) -> (r: Result<Brass, BrassError>)
        ensures
            r matches Ok(b) && b.segment_size() == segment_size && b.location() == path@,
    {
        Ok(Brass { segment_size, path: path.to_owned() })
    }

    /// The bytes that the file of a new store is made of.
    pub fn root(&self) -> (r: Vec<u8>)
        ensures
            r@ == empty_leaf(self.segment_size()),
    {
        let size: usize = if self.segment_size < 2 {
            2
        } else {
            self.segment_size
        };
        let mut buffer: Vec<u8> = Vec::new();
        let mut i: usize = 0;
        while i < size
            invariant
                i <= size,
                buffer@.len() == i,
                forall|j: int| 0 <= j < i ==> buffer@[j] == 0,
            decreases size - i,
        {
            buffer.push(0);
            i = i + 1;
        }
        buffer.set(1, TOMBSTONE);
        proof {
            assert(buffer@ =~= empty_leaf(self.segment_size));
        }
        buffer
    }

    /// The value of `key` in the store whose file holds `root`.
    pub fn read(&self, root: &Segment, key: &str) -> (r: Option<String>)
        requires
            root.wf(),
            root@[0] == 0,
        ensures
            match found_from(root.data(), 0, encode_utf8(key@)) {
                Some(value) => if valid_utf8(value) {
                    r matches Some(s) && s@ == decode_utf8(value)
                } else {
                    r is None
                },
                None => r is None,
            },
    {
        root.find(key)
    }

    /// Puts `value` under `key` into the store whose file holds `root`. Where
    /// the leaf takes the record, the caller writes `root` back, and the
    /// lengths of key and value together are returned.
    pub fn write(&self, root: &mut Segment, key: &str, value: &str) -> (r: Option<usize>)
        requires
            old(root).wf(),
            old(root)@[0] == 0,
        ensures
            final(root).wf(),
            final(root)@[0] == 0,
            r is Some == takes(old(root).data(), encode_utf8(key@), encode_utf8(value@)),
            r matches Some(n) ==> n == encode_utf8(key@).len() + encode_utf8(value@).len()
                && final(root).data() == written(
                old(root).data(),
                find_byte(old(root).data(), TOMBSTONE, 0),
                encode_utf8(key@),
                encode_utf8(value@),
            ),
            r is None ==> final(root)@ == old(root)@,
    {
        if root.try_insert(key, value) {
            proof {
                lemma_find_byte(old(root).data(), TOMBSTONE, 0);
            }
            Some(key.as_bytes().len() + value.as_bytes().len())
        } else {
            None
        }
    }
}

} // verus!
