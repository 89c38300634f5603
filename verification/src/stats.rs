//! What the servers measure: the times of reads and writes and the size of
//! the store, and the figures that the chart of a measure is titled with.

use crate::text::{append_bytes, decimal, push_decimal, str_from_utf8};
use vstd::prelude::*;
use vstd::utf8::*;

verus! {

/// One measurement.
pub enum Stat {
    ReadTime(u128),
    WriteTime(u128),
    Size(u128),
}

/// The measurements taken so far, each kind in the order of its arrival.
pub struct Counters {
    pub read_counter: Vec<u128>,
    pub write_counter: Vec<u128>,
    pub size: Vec<u128>,
}

impl Counters {
    /// No measurements.
    pub fn new() -> (r: Self)
        ensures
            r.read_counter@.len() == 0,
            r.write_counter@.len() == 0,
            r.size@.len() == 0,
    {
        Counters { read_counter: Vec::new(), write_counter: Vec::new(), size: Vec::new() }
    }

    /// Takes one measurement to the end of the counter of its kind.
    pub fn record(&mut self, stat: Stat)
        ensures
            final(self).read_counter@ == (match stat {
                Stat::ReadTime(time) => old(self).read_counter@.push(time),
                _ => old(self).read_counter@,
            }),
            final(self).write_counter@ == (match stat {
                Stat::WriteTime(time) => old(self).write_counter@.push(time),
                _ => old(self).write_counter@,
            }),
            final(self).size@ == (match stat {
                Stat::Size(size) => old(self).size@.push(size),
                _ => old(self).size@,
            }),
    {
        match stat {
            Stat::ReadTime(time) => self.read_counter.push(time),
            Stat::WriteTime(time) => self.write_counter.push(time),
            Stat::Size(size) => self.size.push(size),
        }
    }
}

/// The values stand in rising order.
pub open spec fn rising(s: Seq<u128>) -> bool {
    forall|i: int, j: int| 0 <= i <= j < s.len() ==> s[i] <= s[j]
}

/// `<[u128]>::sort`: the same values in rising order.
#[verifier::external_body]
fn sort(data: &mut Vec<u128>)
    ensures
        rising(final(data)@),
        final(data)@.to_multiset() == old(data)@.to_multiset(),
{
    data.sort();
}

/// The largest value of `s`; 1 for no values.
pub open spec fn largest(s: Seq<u128>) -> u128
    decreases s.len(),
{
    if s.len() == 0 {
        1
    } else if s.len() == 1 {
        s[0]
    } else {
        let before = largest(s.drop_last());
        if s.last() > before {
            s.last()
        } else {
            before
        }
    }
}

/// The largest value of `data`, which the chart takes for its height; 1 for
/// no values.
pub fn max(data: &Vec<u128>) -> (r: u128)
    ensures
        r == largest(data@),
{
    if data.len() == 0 {
        return 1;
    }
    let mut best: u128 = data[0];
    let mut i: usize = 1;
    proof {
        assert(data@.subrange(0, 1).len() == 1);
    }
    while i < data.len()
        invariant
            1 <= i <= data.len(),
            best == largest(data@.subrange(0, i as int)),
        decreases data.len() - i,
    {
        proof {
            assert(data@.subrange(0, i + 1).drop_last() =~= data@.subrange(0, i as int));
        }
        if data[i] > best {
            best = data[i];
        }
        i = i + 1;
    }
    proof {
        assert(data@.subrange(0, i as int) =~= data@);
    }
    best
}

/// The figures of a chart's title: the values below which half, 95 in 100 and
/// 99 in 100 of the measurements lie, in thousands.
pub struct Percentiles {
    pub p50: u128,
    pub p95: u128,
    pub p99: u128,
}

/// The place of the percentile `p` among `len` values in rising order.
pub open spec fn place(len: nat, p: nat) -> int {
    (len * p / 100) as int
}

/// The percentiles of `data`, which holds at least one value.
pub fn percentiles(data: &Vec<u128>) -> (r: Percentiles)
    requires
        data@.len() > 0,
    ensures
        exists|sorted: Seq<u128>|
            #![trigger rising(sorted)]
            {
                &&& rising(sorted)
                &&& sorted.to_multiset() == data@.to_multiset()
                &&& sorted.len() == data@.len()
                &&& r.p50 == sorted[place(sorted.len(), 50)] / 1000
                &&& r.p95 == sorted[place(sorted.len(), 95)] / 1000
                &&& r.p99 == sorted[place(sorted.len(), 99)] / 1000
            },
{
    let mut sorted: Vec<u128> = Vec::new();
    let mut i: usize = 0;
    while i < data.len()
        invariant
            i <= data.len(),
            sorted@ == data@.subrange(0, i as int),
        decreases data.len() - i,
    {
        sorted.push(data[i]);
        proof {
            assert(data@.subrange(0, i + 1) =~= data@.subrange(0, i as int).push(data@[i as int]));
        }
        i = i + 1;
    }
    proof {
        assert(data@.subrange(0, i as int) =~= data@);
    }
    sort(&mut sorted);
    proof {
        data@.to_multiset_ensures();
        sorted@.to_multiset_ensures();
    }
    let len = sorted.len();
    let at50 = ((len as u128) * 50 / 100) as usize;
    let at95 = ((len as u128) * 95 / 100) as usize;
    let at99 = ((len as u128) * 99 / 100) as usize;
    Percentiles { p50: sorted[at50] / 1000, p95: sorted[at95] / 1000, p99: sorted[at99] / 1000 }
}

/// The bytes of a chart's title.
pub open spec fn caption_bytes(label: Seq<char>, unit: Seq<char>, p: Percentiles) -> Seq<u8> {
    let u = encode_utf8(unit);
    encode_utf8(label) + encode_utf8(", p50: "@) + decimal(p.p50 as nat) + u + encode_utf8(
        ", p95: "@,
    ) + decimal(p.p95 as nat) + u + encode_utf8(", p99: "@) + decimal(p.p99 as nat) + u
}

/// Bytes below 128 behind text are text.
proof fn lemma_text_then_digits(a: Seq<u8>, n: nat)
    requires
        valid_utf8(a),
    ensures
        valid_utf8(a + decimal(n)),
{
    let b = decimal(n);
    crate::text::lemma_decimal_value(n);
    assert forall|i: int| 0 <= i < b.len() implies #[trigger] b[i] < 128 by {
        assert(crate::text::is_digit(b[i]));
    }
    crate::kopper::file_index::lemma_ascii_is_text(b);
    valid_utf8_concat(a, b);
}

/// The title of a chart: the label and the three percentiles with their unit.
pub fn caption(label: &str, unit: &str, p: &Percentiles) -> (r: String)
    ensures
        encode_utf8(r@) == caption_bytes(label@, unit@, *p),
{
    let mut bytes: Vec<u8> = Vec::new();
    append_bytes(&mut bytes, label.as_bytes());
    append_bytes(&mut bytes, ", p50: ".as_bytes());
    push_decimal(&mut bytes, p.p50);
    append_bytes(&mut bytes, unit.as_bytes());
    append_bytes(&mut bytes, ", p95: ".as_bytes());
    push_decimal(&mut bytes, p.p95);
    append_bytes(&mut bytes, unit.as_bytes());
    append_bytes(&mut bytes, ", p99: ".as_bytes());
    push_decimal(&mut bytes, p.p99);
    append_bytes(&mut bytes, unit.as_bytes());
    proof {
        let u = encode_utf8(unit@);
        encode_utf8_valid_utf8(label@);
        encode_utf8_valid_utf8(unit@);
        encode_utf8_valid_utf8(", p50: "@);
        encode_utf8_valid_utf8(", p95: "@);
        encode_utf8_valid_utf8(", p99: "@);
        let s1 = encode_utf8(label@) + encode_utf8(", p50: "@);
        valid_utf8_concat(encode_utf8(label@), encode_utf8(", p50: "@));
        lemma_text_then_digits(s1, p.p50 as nat);
        let s2 = s1 + decimal(p.p50 as nat) + u;
        valid_utf8_concat(s1 + decimal(p.p50 as nat), u);
        let s3 = s2 + encode_utf8(", p95: "@);
        valid_utf8_concat(s2, encode_utf8(", p95: "@));
        lemma_text_then_digits(s3, p.p95 as nat);
        let s4 = s3 + decimal(p.p95 as nat) + u;
        valid_utf8_concat(s3 + decimal(p.p95 as nat), u);
        let s5 = s4 + encode_utf8(", p99: "@);
        valid_utf8_concat(s4, encode_utf8(", p99: "@));
        lemma_text_then_digits(s5, p.p99 as nat);
        valid_utf8_concat(s5 + decimal(p.p99 as nat), u);
        assert(bytes@ =~= caption_bytes(label@, unit@, *p));
        decode_utf8_encode_utf8(bytes@);
    }
    match str_from_utf8(bytes.as_slice()) {
        Some(s) => s.to_owned(),
        None => String::new(),
    }
}

} // verus!
