//! The bytes of a partition record: offset and timestamp as variable-length
//! integers, then the value's length as one more and the value's bytes.

use vstd::bytes::*;
use vstd::prelude::*;
use vstd::utf8::*;

verus! {

/// An unsigned integer in variable-length encoding: a value up to 250 is one
/// byte; a larger one is a tag byte 251, 252 or 253 and then the value in 2,
/// 4 or 8 bytes, least significant byte first.
pub open spec fn varint(n: u64) -> Seq<u8> {
    if n <= 250 {
        seq![n as u8]
    } else if n <= 0xffff {
        seq![251u8] + spec_u16_to_le_bytes(n as u16)
    } else if n <= 0xffff_ffff {
        seq![252u8] + spec_u32_to_le_bytes(n as u32)
    } else {
        seq![253u8] + spec_u64_to_le_bytes(n)
    }
}

/// The integer at the start of `s` and the number of bytes it takes; `None`
/// where `s` ends too early or starts with a tag above 253. A small value
/// behind a wide tag is read all the same.
pub open spec fn parse_varint(s: Seq<u8>) -> Option<(u64, int)> {
    if s.len() == 0 {
        None
    } else if s[0] <= 250 {
        Some((s[0] as u64, 1))
    } else if s[0] == 251 {
        if s.len() >= 3 {
            Some((spec_u16_from_le_bytes(s.subrange(1, 3)) as u64, 3))
        } else {
            None
        }
    } else if s[0] == 252 {
        if s.len() >= 5 {
            Some((spec_u32_from_le_bytes(s.subrange(1, 5)) as u64, 5))
        } else {
            None
        }
    } else if s[0] == 253 {
        if s.len() >= 9 {
            Some((spec_u64_from_le_bytes(s.subrange(1, 9)), 9))
        } else {
            None
        }
    } else {
        None
    }
}

/// One record of a partition as mathematics, with the number of bytes that
/// it takes.
pub struct Decoded {
    pub offset: u64,
    pub timestamp: u64,
    pub value: Seq<char>,
    pub size: int,
}

/// The bytes of a record.
pub open spec fn encode_entry(offset: u64, timestamp: u64, value: Seq<char>) -> Seq<u8> {
    varint(offset) + varint(timestamp) + varint(encode_utf8(value).len() as u64) + encode_utf8(
        value,
    )
}

/// The record at the start of `s`; `None` where one of its three integers
/// does not parse, the value is longer than the rest of `s`, or the value's
/// bytes are no text.
pub open spec fn parse_entry(s: Seq<u8>) -> Option<Decoded> {
    match parse_varint(s) {
        None => None,
        Some((offset, a)) => match parse_varint(s.skip(a)) {
            None => None,
            Some((timestamp, b)) => match parse_varint(s.skip(a + b)) {
                None => None,
                Some((len, c)) => {
                    let start = a + b + c;
                    if len <= usize::MAX && start + len <= s.len() && valid_utf8(
                        s.subrange(start, start + len),
                    ) {
                        Some(
                            Decoded {
                                offset,
                                timestamp,
                                value: decode_utf8(s.subrange(start, start + len)),
                                size: start + len,
                            },
                        )
                    } else {
                        None
                    }
                },
            },
        },
    }
}

/// An encoded integer takes 1, 3, 5 or 9 bytes.
pub proof fn lemma_varint_len(n: u64)
    ensures
        1 <= varint(n).len() <= 9,
        varint(n).len() == (if n <= 250 {
            1int
        } else if n <= 0xffff {
            3
        } else if n <= 0xffff_ffff {
            5
        } else {
            9
        }),
{
    lemma_auto_spec_u16_to_from_le_bytes();
    lemma_auto_spec_u32_to_from_le_bytes();
    lemma_auto_spec_u64_to_from_le_bytes();
}

/// An encoded integer, with anything behind it, parses to the integer.
pub proof fn lemma_varint_round_trip(n: u64, rest: Seq<u8>)
    ensures
        parse_varint(varint(n) + rest) == Some((n, varint(n).len() as int)),
{
    lemma_auto_spec_u16_to_from_le_bytes();
    lemma_auto_spec_u32_to_from_le_bytes();
    lemma_auto_spec_u64_to_from_le_bytes();
    let s = varint(n) + rest;
    if n <= 250 {
        assert(s[0] == n as u8);
    } else if n <= 0xffff {
        assert(s[0] == 251);
        assert(s.subrange(1, 3) =~= spec_u16_to_le_bytes(n as u16));
    } else if n <= 0xffff_ffff {
        assert(s[0] == 252);
        assert(s.subrange(1, 5) =~= spec_u32_to_le_bytes(n as u32));
    } else {
        assert(s[0] == 253);
        assert(s.subrange(1, 9) =~= spec_u64_to_le_bytes(n));
    }
}

/// A parsed record takes at least three bytes and no more than there are.
pub proof fn lemma_parse_entry_size(s: Seq<u8>)
    requires
        parse_entry(s) is Some,
    ensures
        3 <= parse_entry(s).unwrap().size <= s.len(),
{
}

/// The codec round trip: an encoded record, with anything behind it, parses
/// to the record, and takes as many bytes as were encoded.
pub proof fn lemma_entry_round_trip(offset: u64, timestamp: u64, value: Seq<char>, rest: Seq<u8>)
    requires
        encode_utf8(value).len() <= usize::MAX,
    ensures
        parse_entry(encode_entry(offset, timestamp, value) + rest) == Some(
            Decoded {
                offset,
                timestamp,
                value,
                size: encode_entry(offset, timestamp, value).len() as int,
            },
        ),
{
    let bytes = encode_utf8(value);
    let len = bytes.len() as u64;
    let a = varint(offset);
    let b = varint(timestamp);
    let c = varint(len);
    let s = encode_entry(offset, timestamp, value) + rest;
    lemma_varint_len(offset);
    lemma_varint_len(timestamp);
    lemma_varint_len(len);
    assert(s =~= a + (b + c + bytes + rest));
    lemma_varint_round_trip(offset, b + c + bytes + rest);
    assert(s.skip(a.len() as int) =~= b + (c + bytes + rest));
    lemma_varint_round_trip(timestamp, c + bytes + rest);
    assert(s.skip((a.len() + b.len()) as int) =~= c + (bytes + rest));
    lemma_varint_round_trip(len, bytes + rest);
    let start = a.len() + b.len() + c.len();
    assert(s.subrange(start as int, start + len) =~= bytes);
    encode_utf8_valid_utf8(value);
    encode_utf8_decode_utf8(value);
}

} // verus!
