//! Records read back from one segment of a partition.

use crate::partition::codec::{encode_entry, lemma_parse_entry_size, parse_entry, Decoded};
use crate::text::{append_bytes, decimal, push_decimal, str_from_utf8};
use vstd::prelude::*;
use vstd::slice::slice_subrange;
use vstd::utf8::*;

verus! {

/// The number that a record has in its partition.
pub type Offset = u64;

/// What a partition can fail with.
#[derive(Clone, Copy, Debug, PartialEq, Eq, Structural)]
pub enum PartitionError {
    /// Nothing was ever produced.
    NoFirstOffset,
    /// No record has this offset.
    BadOffset(Offset),
    /// The clock, the codec or a limit of the machine failed.
    Internal,
}

/// `bincode::error::EncodeError`: what encoding can fail with. Nothing is
/// known of its inside.
#[verifier::external_type_specification]
#[verifier::external_body]
pub struct ExEncodeError(bincode::error::EncodeError);

/// `bincode::error::DecodeError`: what decoding can fail with. Nothing is
/// known of its inside.
#[verifier::external_type_specification]
#[verifier::external_body]
pub struct ExDecodeError(bincode::error::DecodeError);

/// `bincode::encode_to_vec` in the standard configuration, on the three
/// fields of a record in their order. The contract claims the bytes of the
/// crate's documented format: each integer in variable-length encoding, least
/// significant byte first, and the text as its length and its bytes. It
/// claims success: the writer is a vector, and takes every byte.
#[verifier::external_body]
fn encode_record(offset: u64, timestamp: u64, value: &str) -> (r: Result<Vec<u8>, bincode::error::EncodeError>)
    ensures
        r is Ok,
        r matches Ok(bytes) ==> bytes@ == encode_entry(offset, timestamp, value@),
{
    bincode::encode_to_vec((offset, timestamp, value), bincode::config::standard())
}

/// `bincode::borrow_decode_from_slice` in the standard configuration, for the
/// three fields of a record in their order. The contract claims that it reads
/// the documented format from the start of `src`, hands back the fields and
/// the number of bytes read, and fails exactly where that format does not
/// parse.
#[verifier::external_body]
fn decode_record(src: &[u8]) -> (r: Result<(u64, u64, String, usize), bincode::error::DecodeError>)
    ensures
        match r {
            Ok((offset, timestamp, value, size)) => parse_entry(src@) == Some(
                Decoded { offset, timestamp, value: value@, size: size as int },
            ),
            Err(_) => parse_entry(src@) is None,
        },
{
    let ((offset, timestamp, value), size) = bincode::borrow_decode_from_slice::<
        (u64, u64, &str),
        _,
    >(src, bincode::config::standard())?;
    Ok((offset, timestamp, value.to_owned(), size))
}

/// One record of a partition.
#[derive(Debug)]
pub struct PartitionEntry {
    pub offset: u64,
    pub timestamp: u64,
    pub value: String,
}

impl View for PartitionEntry {
    type V = Decoded;

    /// The record as mathematics; the size is that of its encoding.
    open spec fn view(&self) -> Decoded {
        Decoded {
            offset: self.offset,
            timestamp: self.timestamp,
            value: self.value@,
            size: encode_entry(self.offset, self.timestamp, self.value@).len() as int,
        }
    }
}

impl PartitionEntry {
    /// The bytes of the record with these fields.
    pub fn serialize(offset: u64, timestamp: u64, value: &str) -> (r: Result<
        Vec<u8>,
        PartitionError,
    >)
        ensures
            r matches Ok(bytes) && bytes@ == encode_entry(offset, timestamp, value@),
    {
        match encode_record(offset, timestamp, value) {
            Ok(bytes) => Ok(bytes),
            Err(_) => Err(PartitionError::Internal),
        }
    }
}

/// What `next` hands out of `data` from `address` on, and where it then
/// stands: the first record whose offset is not below `first`; nothing at the
/// end of the data; an error, without moving, where the bytes ahead are no
/// record.
pub open spec fn next_from(data: Seq<u8>, address: int, first: u64) -> (
    Result<Option<Decoded>, PartitionError>,
    int,
)
    decreases data.len() - address,
{
    if address < 0 || address >= data.len() {
        (Ok(None), address)
    } else {
        match parse_entry(data.skip(address)) {
            None => (Err(PartitionError::Internal), address),
            Some(d) => if d.offset < first && d.size > 0 {
                next_from(data, address + d.size, first)
            } else {
                (Ok(Some(d)), address + d.size)
            },
        }
    }
}

/// The records of one segment, decoded one by one on demand. Records below
/// the offset that was asked for are passed over.
#[derive(Debug)]
pub struct EntryCollection {
    data: Vec<u8>,
    address: usize,
    first_offset: Offset,
}

impl EntryCollection {
    /// The segment's bytes.
    pub closed spec fn data(&self) -> Seq<u8> {
        self.data@
    }

    /// The number of bytes read so far.
    pub closed spec fn address(&self) -> int {
        self.address as int
    }

    /// The offset that was asked for.
    pub closed spec fn first_offset(&self) -> Offset {
        self.first_offset
    }

    /// The collection stands inside its data.
    pub closed spec fn wf(&self) -> bool {
        self.address <= self.data@.len()
    }

    /// A collection at the start of `data`.
    pub fn new(data: Vec<u8>, first_offset: Offset) -> (r: Self)
        ensures
            r.wf(),
            r.data() == data@,
            r.address() == 0,
            r.first_offset() == first_offset,
    {
        EntryCollection { data, address: 0, first_offset }
    }

    /// The number of bytes read so far.
    pub fn size_read(&self) -> (r: usize)
        ensures
            r == self.address(),
    {
        self.address
    }

    /// The next record at or above the offset that was asked for.
    pub fn next(&mut self) -> (r: Result<Option<PartitionEntry>, PartitionError>)
        requires
            old(self).wf(),
        ensures
            final(self).wf(),
            final(self).data() == old(self).data(),
            final(self).first_offset() == old(self).first_offset(),
            final(self).address() == next_from(
                old(self).data(),
                old(self).address(),
                old(self).first_offset(),
            ).1,
            match next_from(old(self).data(), old(self).address(), old(self).first_offset()).0 {
                Ok(Some(d)) => r matches Ok(Some(e)) && e.offset == d.offset && e.timestamp
                    == d.timestamp && e.value@ == d.value,
                Ok(None) => r matches Ok(None),
                Err(err) => r matches Err(e) && e == err,
            },
    {
        loop
            invariant
                self.wf(),
                self.data() == old(self).data(),
                self.first_offset() == old(self).first_offset(),
                next_from(old(self).data(), old(self).address(), old(self).first_offset())
                    == next_from(self.data(), self.address(), self.first_offset()),
            decreases self.data@.len() - self.address,
        {
            if self.address == self.data.len() {
                return Ok(None);
            }
            let rest = slice_subrange(self.data.as_slice(), self.address, self.data.len());
            proof {
                assert(rest@ =~= self.data@.skip(self.address as int));
            }
            match decode_record(rest) {
                Ok((offset, timestamp, value, size)) => {
                    proof {
                        lemma_parse_entry_size(rest@);
                    }
                    self.address = self.address + size;
                    if offset >= self.first_offset {
                        return Ok(Some(PartitionEntry { offset, timestamp, value }));
                    }
                },
                Err(_) => {
                    return Err(PartitionError::Internal);
                },
            }
        }
    }
}

/// The text of an error.
pub open spec fn error_text(e: PartitionError) -> Seq<u8> {
    match e {
        PartitionError::NoFirstOffset => encode_utf8("There are no messages in the partition"@),
        PartitionError::BadOffset(o) => encode_utf8("Offset "@) + decimal(o as nat) + encode_utf8(
            " does not exist"@,
        ),
        PartitionError::Internal => encode_utf8("Internal error"@),
    }
}

impl PartitionError {
    /// The error in words.
    pub fn to_string(&self) -> (r: String)
        ensures
            encode_utf8(r@) == error_text(*self),
    {
        match self {
            PartitionError::NoFirstOffset => {
                "There are no messages in the partition".to_owned()
            },
            PartitionError::BadOffset(o) => {
                let mut bytes: Vec<u8> = Vec::new();
                append_bytes(&mut bytes, "Offset ".as_bytes());
                push_decimal(&mut bytes, *o as u128);
                append_bytes(&mut bytes, " does not exist".as_bytes());
                proof {
                    let a = encode_utf8("Offset "@);
                    let b = decimal(*o as nat);
                    let c = encode_utf8(" does not exist"@);
                    assert(bytes@ =~= a + b + c);
                    encode_utf8_valid_utf8("Offset "@);
                    encode_utf8_valid_utf8(" does not exist"@);
                    crate::text::lemma_decimal_value(*o as nat);
                    assert forall|i: int| 0 <= i < b.len() implies #[trigger] b[i] < 128 by {
                        assert(crate::text::is_digit(b[i]));
                    }
                    crate::kopper::file_index::lemma_ascii_is_text(b);
                    valid_utf8_concat(a, b);
                    valid_utf8_concat(a + b, c);
                    decode_utf8_encode_utf8(bytes@);
                }
                match str_from_utf8(bytes.as_slice()) {
                    Some(s) => s.to_owned(),
                    None => String::new(),
                }
            },
            PartitionError::Internal => "Internal error".to_owned(),
        }
    }
}

} // verus!
