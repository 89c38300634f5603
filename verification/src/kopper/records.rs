//! Records in a segment file: key, zero byte, value, zero byte.

use crate::kopper::file_index::{find_byte, lemma_find_byte, position_of};
use vstd::prelude::*;
use vstd::slice::slice_subrange;

verus! {

/// Where one record lies in a log: the key in `start..key_end`, a zero byte,
/// the value in `key_end + 1..end - 1`, a zero byte.
pub struct RecordSpan {
    pub start: int,
    pub key_end: int,
    pub end: int,
}

impl RecordSpan {
    /// The position of the value's first byte.
    pub open spec fn value_start(self) -> int {
        self.key_end + 1
    }

    /// The number of bytes in the value.
    pub open spec fn value_len(self) -> int {
        self.end - 1 - self.value_start()
    }

    /// The key's bytes.
    pub open spec fn key(self, log: Seq<u8>) -> Seq<u8> {
        log.subrange(self.start, self.key_end)
    }

    /// The value's bytes.
    pub open spec fn value(self, log: Seq<u8>) -> Seq<u8> {
        log.subrange(self.value_start(), self.end - 1)
    }

    /// The whole record, both zero bytes included.
    pub open spec fn bytes(self, log: Seq<u8>) -> Seq<u8> {
        log.subrange(self.start, self.end)
    }
}

/// The complete record that begins at `start`, if the log holds one there.
pub open spec fn record_at(log: Seq<u8>, start: int) -> Option<RecordSpan> {
    let key_end = find_byte(log, 0, start);
    let value_end = find_byte(log, 0, key_end + 1);
    if 0 <= start && key_end < log.len() && value_end < log.len() {
        Some(RecordSpan { start, key_end, end: value_end + 1 })
    } else {
        None
    }
}

/// One record as bytes: the key, a zero byte, the value, a zero byte.
pub open spec fn framed(key: Seq<u8>, value: Seq<u8>) -> Seq<u8> {
    key + seq![0u8] + value + seq![0u8]
}

/// A record found in a log lies inside it, in the stated shape.
pub proof fn lemma_record_at(log: Seq<u8>, start: int)
    requires
        record_at(log, start) is Some,
    ensures
        ({
            let span = record_at(log, start).unwrap();
            &&& span.start == start
            &&& 0 <= start <= span.key_end < span.end - 1 < log.len()
            &&& log[span.key_end] == 0
            &&& log[span.end - 1] == 0
            &&& !span.key(log).contains(0)
            &&& !span.value(log).contains(0)
            &&& span.bytes(log) == framed(span.key(log), span.value(log))
        }),
{
    let span = record_at(log, start).unwrap();
    lemma_find_byte(log, 0, start);
    lemma_find_byte(log, 0, span.key_end + 1);
    assert(span.bytes(log) =~= framed(span.key(log), span.value(log)));
}

/// A record framed from a key and a value without zero bytes, standing at
/// `start`, is the record found there.
pub proof fn lemma_framed_record(log: Seq<u8>, start: int, key: Seq<u8>, value: Seq<u8>)
    requires
        0 <= start,
        start + key.len() + value.len() + 2 <= log.len(),
        log.subrange(start, start + key.len() + value.len() + 2) == framed(key, value),
        !key.contains(0),
        !value.contains(0),
    ensures
        record_at(log, start) == Some(
            RecordSpan {
                start,
                key_end: start + key.len(),
                end: start + key.len() + value.len() + 2,
            },
        ),
{
    let end = start + key.len() + value.len() + 2;
    let part = log.subrange(start, end);
    let f = framed(key, value);
    assert forall|i: int| start <= i < start + key.len() implies log[i] != 0 by {
        assert(log[i] == part[i - start]);
        assert(f[i - start] == key[i - start]);
        assert(key.contains(key[i - start]));
    }
    assert(log[start + key.len()] == part[key.len() as int]);
    assert(f[key.len() as int] == 0);
    crate::kopper::file_index::lemma_find_byte_is(log, 0, start, start + key.len());
    assert forall|i: int| start + key.len() + 1 <= i < end - 1 implies log[i] != 0 by {
        assert(log[i] == part[i - start]);
        assert(f[i - start] == value[i - start - key.len() - 1]);
        assert(value.contains(value[i - start - key.len() - 1]));
    }
    assert(log[end - 1] == part[end - 1 - start]);
    assert(f[end - 1 - start] == 0);
    crate::kopper::file_index::lemma_find_byte_is(log, 0, start + key.len() + 1, end - 1);
}

/// One record handed out by [`KeyValueIterator`].
pub struct KeyValue<'a> {
    /// The key's bytes.
    pub key: &'a [u8],
    /// The whole record, both zero bytes included.
    pub record: &'a [u8],
    /// Where the value begins, counted from the start of the buffer.
    pub value_offset: u64,
}

/// Walks over the complete records of a buffer, in order.
pub struct KeyValueIterator<'a> {
    buf: &'a Vec<u8>,
    pointer: usize,
}

impl<'a> KeyValueIterator<'a> {
    /// The buffer that is walked over.
    pub closed spec fn log(&self) -> Seq<u8> {
        self.buf@
    }

    /// Where the next record begins.
    pub closed spec fn position(&self) -> int {
        self.pointer as int
    }

    /// The iterator stands inside its buffer.
    pub closed spec fn wf(&self) -> bool {
        self.pointer <= self.buf@.len()
    }

    /// An iterator at the start of `buf`.
    pub fn from(buf: &'a Vec<u8>) -> (it: Self)
        ensures
            it.wf(),
            it.log() == buf@,
            it.position() == 0,
    {
        KeyValueIterator { buf, pointer: 0 }
    }

    /// The next complete record; `None`, without moving, when none is left.
    pub fn next(&mut self) -> (r: Option<KeyValue<'a>>)
        requires
            old(self).wf(),
        ensures
            final(self).wf(),
            final(self).log() == old(self).log(),
            match record_at(old(self).log(), old(self).position()) {
                Some(span) => {
                    &&& r matches Some(kv)
                    &&& kv.key@ == span.key(old(self).log())
                    &&& kv.record@ == span.bytes(old(self).log())
                    &&& kv.value_offset == span.value_start()
                    &&& final(self).position() == span.end
                },
                None => r is None && final(self).position() == old(self).position(),
            },
    {
        let bytes: &'a [u8] = self.buf.as_slice();
        let start = self.pointer;
        let key_end = position_of(bytes, 0, start);
        if key_end >= bytes.len() {
            proof {
                assert(find_byte(bytes@, 0, key_end + 1) == bytes@.len());
            }
            return None;
        }
        let value_end = position_of(bytes, 0, key_end + 1);
        if value_end >= bytes.len() {
            return None;
        }
        let key = slice_subrange(bytes, start, key_end);
        let record = slice_subrange(bytes, start, value_end + 1);
        self.pointer = value_end + 1;
        Some(KeyValue { key, record, value_offset: (key_end + 1) as u64 })
    }
}

} // verus!
