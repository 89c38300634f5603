//! Names of segment files.

use crate::text::{decimal, lemma_decimal_value, lemma_parse_decimal, parse_u32, parse_unsigned,
    push_decimal, str_from_utf8, is_digit};
use vstd::prelude::*;
use vstd::utf8::*;

verus! {

/// What can go wrong when an engine is opened.
#[derive(Clone, Copy, Debug, PartialEq, Eq, Structural)]
pub enum KopperError {
    /// The file system refused an operation.
    IO,
    /// A file name holds something that is no number where one belongs.
    ParseInt,
    /// A file name has no underscore, or a file holds a key that is no text.
    Parse,
}

/// The name of a segment file: rollovers count `base` up, compactions `index`.
#[derive(Clone, Copy, Debug, PartialEq, Eq, Structural, PartialOrd, Ord, Hash)]
pub struct FileIndex {
    pub base: u32,
    pub index: u32,
}

/// The position of the first `b` in `s` at or after `from`; the length of `s`
/// if there is none.
pub open spec fn find_byte(s: Seq<u8>, b: u8, from: int) -> int
    decreases s.len() - from,
{
    if from < 0 || from >= s.len() {
        s.len() as int
    } else if s[from] == b {
        from
    } else {
        find_byte(s, b, from + 1)
    }
}

/// `find_byte` lies in range, points at `b`, and passes over no `b`.
pub proof fn lemma_find_byte(s: Seq<u8>, b: u8, from: int)
    requires
        0 <= from <= s.len(),
    ensures
        from <= find_byte(s, b, from) <= s.len(),
        find_byte(s, b, from) < s.len() ==> s[find_byte(s, b, from)] == b,
        forall|i: int| from <= i < find_byte(s, b, from) ==> s[i] != b,
    decreases s.len() - from,
{
    if from < s.len() && s[from] != b {
        lemma_find_byte(s, b, from + 1);
    }
}

/// A position that holds `b` after a stretch without `b` is what `find_byte` finds.
pub proof fn lemma_find_byte_is(s: Seq<u8>, b: u8, from: int, at: int)
    requires
        0 <= from <= at <= s.len(),
        at < s.len() ==> s[at] == b,
        forall|i: int| from <= i < at ==> s[i] != b,
    ensures
        find_byte(s, b, from) == at,
    decreases at - from,
{
    if from < at {
        lemma_find_byte_is(s, b, from + 1, at);
    }
}

/// Finds the first `b` in `bytes` at or after `from`.
pub fn position_of(bytes: &[u8], b: u8, from: usize) -> (at: usize)
    requires
        from <= bytes.len(),
    ensures
        at == find_byte(bytes@, b, from as int),
        from <= at <= bytes.len(),
{
    let mut i: usize = from;
    while i < bytes.len() && bytes[i] != b
        invariant
            from <= i <= bytes.len(),
            forall|j: int| from <= j < i ==> bytes@[j] != b,
        decreases bytes.len() - i,
    {
        i = i + 1;
    }
    proof {
        lemma_find_byte_is(bytes@, b, from as int, i as int);
    }
    i
}

/// What a file name parses to: two unsigned decimal numbers with the first
/// underscore between them.
pub open spec fn parse_name(name: Seq<u8>) -> Result<FileIndex, KopperError> {
    let at = find_byte(name, 0x5f, 0);
    if at >= name.len() {
        Err(KopperError::Parse)
    } else {
        match (
            parse_unsigned(name.subrange(0, at), u32::MAX as nat),
            parse_unsigned(name.subrange(at + 1, name.len() as int), u32::MAX as nat),
        ) {
            (Some(base), Some(index)) => Ok(FileIndex { base: base as u32, index: index as u32 }),
            _ => Err(KopperError::ParseInt),
        }
    }
}

impl FileIndex {
    /// The order of segment files: by `base`, then by `index`.
    pub open spec fn precedes(self, other: FileIndex) -> bool {
        self.base < other.base || (self.base == other.base && self.index < other.index)
    }

    /// The file's name as bytes: `base`, an underscore, `index`.
    pub open spec fn name(self) -> Seq<u8> {
        decimal(self.base as nat) + seq![0x5fu8] + decimal(self.index as nat)
    }

    /// Whether this file comes before `other` in the order of segment files.
    pub fn is_before(&self, other: &FileIndex) -> (r: bool)
        ensures
            r == self.precedes(*other),
    {
        self.base < other.base || (self.base == other.base && self.index < other.index)
    }

    /// The file `rhs` compactions later in the same base.
    pub fn add(self, rhs: u32) -> (r: FileIndex)
        requires
            self.index + rhs <= u32::MAX,
        ensures
            r == (FileIndex { base: self.base, index: (self.index + rhs) as u32 }),
    {
        FileIndex { base: self.base, index: self.index + rhs }
    }

    /// The file's name.
    pub fn to_string(&self) -> (r: String)
        ensures
            encode_utf8(r@) == self.name(),
    {
        let mut bytes: Vec<u8> = Vec::new();
        push_decimal(&mut bytes, self.base as u128);
        bytes.push(0x5f);
        push_decimal(&mut bytes, self.index as u128);
        proof {
            assert(bytes@ =~= self.name());
            lemma_name_is_text(*self);
        }
        match str_from_utf8(bytes.as_slice()) {
            Some(s) => {
                proof {
                    decode_utf8_encode_utf8(bytes@);
                }
                s.to_owned()
            },
            None => String::new(),
        }
    }

    /// Reads a file name.
    pub fn from_str(s: &str) -> (r: Result<FileIndex, KopperError>)
        ensures
            r == parse_name(encode_utf8(s@)),
    {
        let bytes = s.as_bytes();
        let at = position_of(bytes, 0x5f, 0);
        if at >= bytes.len() {
            return Err(KopperError::Parse);
        }
        let base = match parse_u32(bytes, 0, at) {
            Some(n) => n,
            None => {
                return Err(KopperError::ParseInt);
            },
        };
        let index = match parse_u32(bytes, at + 1, bytes.len()) {
            Some(n) => n,
            None => {
                return Err(KopperError::ParseInt);
            },
        };
        Ok(FileIndex { base, index })
    }
}

/// Bytes below 128 are text, one character each.
pub proof fn lemma_ascii_is_text(bytes: Seq<u8>)
    requires
        forall|i: int| 0 <= i < bytes.len() ==> #[trigger] bytes[i] < 128,
    ensures
        valid_utf8(bytes),
{
    let chars = Seq::new(bytes.len(), |i: int| bytes[i] as char);
    assert(is_ascii_chars(chars));
    is_ascii_chars_encode_utf8(chars);
    assert(encode_utf8(chars) =~= bytes);
    encode_utf8_valid_utf8(chars);
}

/// A file name is text.
pub proof fn lemma_name_is_text(f: FileIndex)
    ensures
        valid_utf8(f.name()),
{
    lemma_decimal_value(f.base as nat);
    lemma_decimal_value(f.index as nat);
    let n = f.name();
    let a = decimal(f.base as nat);
    let b = decimal(f.index as nat);
    assert forall|i: int| 0 <= i < n.len() implies #[trigger] n[i] < 128 by {
        if i < a.len() {
            assert(is_digit(a[i]));
        } else if i > a.len() {
            assert(is_digit(b[i - a.len() - 1]));
        }
    }
    lemma_ascii_is_text(n);
}

/// A name that was written is read back as the same file.
pub proof fn lemma_name_round_trip(f: FileIndex)
    ensures
        parse_name(f.name()) == Ok::<FileIndex, KopperError>(f),
{
    let n = f.name();
    let a = decimal(f.base as nat);
    let b = decimal(f.index as nat);
    lemma_decimal_value(f.base as nat);
    lemma_decimal_value(f.index as nat);
    assert forall|i: int| 0 <= i < a.len() implies n[i] != 0x5f by {
        assert(is_digit(a[i]));
    }
    lemma_find_byte_is(n, 0x5f, 0, a.len() as int);
    assert(n.subrange(0, a.len() as int) =~= a);
    assert(n.subrange(a.len() as int + 1, n.len() as int) =~= b);
    lemma_parse_decimal(f.base as nat, u32::MAX as nat);
    lemma_parse_decimal(f.index as nat, u32::MAX as nat);
}

} // verus!
