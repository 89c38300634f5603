//! Templates of the admin pages: text with variables in braces.

use crate::text::str_from_utf8;
use vstd::hash_map::StringHashMap;
use vstd::prelude::*;
use vstd::slice::slice_subrange;
use vstd::string::StringExecFns;
use vstd::utf8::*;

verus! {

/// Whether `c` is white space, as Unicode's property `White_Space` has it.
pub open spec fn is_white_space(c: char) -> bool {
    let n = c as u32;
    ||| 0x09 <= n <= 0x0d
    ||| n == 0x20
    ||| n == 0x85
    ||| n == 0xa0
    ||| n == 0x1680
    ||| 0x2000 <= n <= 0x200a
    ||| n == 0x2028
    ||| n == 0x2029
    ||| n == 0x202f
    ||| n == 0x205f
    ||| n == 0x3000
}

/// The number of white-space characters that `s` begins with, from `from` on.
pub open spec fn leading_white(s: Seq<char>, from: int) -> int
    decreases s.len() - from,
{
    if from < 0 || from >= s.len() || !is_white_space(s[from]) {
        0
    } else {
        1 + leading_white(s, from + 1)
    }
}

/// The number of white-space characters that the first `upto` of `s` end with.
pub open spec fn trailing_white(s: Seq<char>, upto: int) -> int
    decreases upto,
{
    if upto <= 0 || upto > s.len() || !is_white_space(s[upto - 1]) {
        0
    } else {
        1 + trailing_white(s, upto - 1)
    }
}

/// `s` without the white space at its two ends.
pub open spec fn trimmed(s: Seq<char>) -> Seq<char> {
    let a = leading_white(s, 0);
    if a >= s.len() {
        Seq::empty()
    } else {
        s.subrange(a, s.len() - trailing_white(s, s.len() as int))
    }
}

/// `str::trim`: the text without the white space at its two ends, white space
/// being what Unicode's property `White_Space` says.
#[verifier::external_body]
fn trim<'a>(s: &'a str) -> (r: &'a str)
    ensures
        r@ == trimmed(s@),
{
    s.trim()
}

/// A variable in a template: the name between the braces, without the white
/// space around it, and the positions of the opening brace and behind the
/// closing one.
pub struct Variable {
    pub name: String,
    pub start_index: usize,
    pub end_index: usize,
}

/// Where a variable stands in a template.
pub struct Span {
    pub start: int,
    pub end: int,
}

/// The variables of `html` from position `i` on, where `reading` says whether
/// an opening brace is pending at `open`. A closing brace ends a variable if
/// a brace was opened and something stands between the two.
pub open spec fn spans_from(html: Seq<u8>, i: int, reading: bool, open: int) -> Seq<Span>
    decreases html.len() - i,
{
    if i < 0 || i >= html.len() {
        Seq::empty()
    } else if html[i] == 0x7b {
        spans_from(html, i + 1, true, i)
    } else if html[i] == 0x7d {
        if reading && i - open > 1 {
            seq![Span { start: open, end: i + 1 }] + spans_from(html, i + 1, false, open)
        } else {
            spans_from(html, i + 1, false, open)
        }
    } else {
        spans_from(html, i + 1, reading, open)
    }
}

/// The variables of a template.
pub open spec fn spans(html: Seq<u8>) -> Seq<Span> {
    spans_from(html, 0, false, 0)
}

/// The name of the variable at `span`.
pub open spec fn name_at(html: Seq<u8>, span: Span) -> Seq<char> {
    trimmed(decode_utf8(html.subrange(span.start + 1, span.end - 1)))
}

/// The shape of the variables found from position `i` on: each begins with an
/// opening brace and ends behind a closing one, with something between the
/// two, and they follow one another without overlap.
pub proof fn lemma_spans_shape(html: Seq<u8>, i: int, reading: bool, open: int)
    requires
        0 <= i <= html.len(),
        reading ==> 0 <= open < i && html[open] == 0x7b,
    ensures
        forall|k: int|
            0 <= k < spans_from(html, i, reading, open).len() ==> {
                let s = #[trigger] spans_from(html, i, reading, open)[k];
                &&& 0 <= s.start
                &&& s.start + 1 < s.end <= html.len()
                &&& html[s.start] == 0x7b
                &&& html[s.end - 1] == 0x7d
                &&& i < s.end
                &&& (i <= s.start || (reading && k == 0 && s.start == open))
            },
        forall|k: int|
            0 <= k < spans_from(html, i, reading, open).len() - 1 ==> (#[trigger] spans_from(
                html,
                i,
                reading,
                open,
            )[k]).end <= spans_from(html, i, reading, open)[k + 1].start,
    decreases html.len() - i,
{
    let all = spans_from(html, i, reading, open);
    if i < html.len() {
        if html[i] == 0x7b {
            lemma_spans_shape(html, i + 1, true, i);
            assert(all == spans_from(html, i + 1, true, i));
        } else if html[i] == 0x7d {
            lemma_spans_shape(html, i + 1, false, open);
            if reading && i - open > 1 {
                let rest = spans_from(html, i + 1, false, open);
                assert forall|k: int| 0 <= k < all.len() implies {
                    let s = #[trigger] all[k];
                    &&& 0 <= s.start
                    &&& s.start + 1 < s.end <= html.len()
                    &&& html[s.start] == 0x7b
                    &&& html[s.end - 1] == 0x7d
                    &&& i < s.end
                    &&& (i <= s.start || (reading && k == 0 && s.start == open))
                } by {
                    if k > 0 {
                        assert(all[k] == rest[k - 1]);
                    }
                }
                assert forall|k: int| 0 <= k < all.len() - 1 implies (#[trigger] all[k]).end
                    <= all[k + 1].start by {
                    assert(all[k + 1] == rest[k]);
                    if k > 0 {
                        assert(all[k] == rest[k - 1]);
                    }
                }
            } else {
                assert(all == spans_from(html, i + 1, false, open));
            }
        } else {
            lemma_spans_shape(html, i + 1, reading, open);
            assert(all == spans_from(html, i + 1, reading, open));
        }
    } else {
        assert(all.len() == 0);
    }
}

/// The text that is handed out where the template names a variable that has
/// no value.
pub open spec fn missing_attribute(name: Seq<char>) -> Seq<char> {
    "Error parsing template! Missing attribute: "@ + name
}

/// The page from the variable `k` on, where `acc` is the page up to the
/// position `from` of the template: the text up to the variable, then the
/// variable's value, and so on to the end of the template; or the complaint
/// about the first variable without a value.
pub open spec fn rendered_from(
    html: Seq<u8>,
    k: int,
    from: int,
    acc: Seq<char>,
    values: Map<Seq<char>, Seq<char>>,
) -> Seq<char>
    decreases spans(html).len() - k,
{
    if k < 0 || k >= spans(html).len() {
        acc + decode_utf8(html.subrange(from, html.len() as int))
    } else {
        let span = spans(html)[k];
        let name = name_at(html, span);
        if values.contains_key(name) {
            rendered_from(
                html,
                k + 1,
                span.end,
                acc + decode_utf8(html.subrange(from, span.start)) + values[name],
                values,
            )
        } else {
            missing_attribute(name)
        }
    }
}

/// The page that a template makes with the given values of its variables.
pub open spec fn rendered(html: Seq<u8>, values: Map<Seq<char>, Seq<char>>) -> Seq<char> {
    rendered_from(html, 0, 0, Seq::empty(), values)
}

/// The values of the variables as mathematics.
pub open spec fn texts(variables: Map<Seq<char>, String>) -> Map<Seq<char>, Seq<char>> {
    Map::new(|name: Seq<char>| variables.contains_key(name), |name: Seq<char>| variables[name]@)
}

/// The name of every variable of the template is text.
pub open spec fn names_are_text(html: Seq<u8>) -> bool {
    forall|k: int|
        0 <= k < spans(html).len() ==> valid_utf8(
            html.subrange((#[trigger] spans(html)[k]).start + 1, spans(html)[k].end - 1),
        )
}

/// In a template that is text, the name of every variable is text.
pub proof fn lemma_names_are_text(html: Seq<u8>)
    requires
        valid_utf8(html),
    ensures
        names_are_text(html),
{
    lemma_spans_shape(html, 0, false, 0);
    assert forall|k: int| 0 <= k < spans(html).len() implies valid_utf8(
        html.subrange((#[trigger] spans(html)[k]).start + 1, spans(html)[k].end - 1),
    ) by {
        let s = spans(html)[k];
        lemma_between_ascii(html, s.start + 1, s.end - 1);
    }
}

/// The bytes on one side of an ASCII byte of a text are text.
pub proof fn lemma_split_at_ascii(s: Seq<u8>, at: int)
    requires
        valid_utf8(s),
        0 <= at < s.len(),
        s[at] < 128,
    ensures
        valid_utf8(s.subrange(0, at)),
        valid_utf8(s.subrange(at, s.len() as int)),
        valid_utf8(s.subrange(at + 1, s.len() as int)),
{
    let b = s[at];
    assert(!is_continuation_byte(b)) by (bit_vector)
        requires
            b < 128,
    ;
    is_char_boundary_iff_not_is_continuation_byte(s, at);
    valid_utf8_split(s, at);
    let rest = s.subrange(at, s.len() as int);
    assert(rest[0] == b);
    assert(is_leading_byte_width_1(b)) by (bit_vector)
        requires
            b < 128,
    ;
    assert(length_of_first_scalar(rest) == 1);
    if rest.len() > 1 {
        let r1 = rest[1];
        reveal_with_fuel(valid_utf8, 2);
        assert(valid_utf8(pop_first_scalar(rest)));
        assert(pop_first_scalar(rest) =~= s.subrange(at + 1, s.len() as int));
    } else {
        assert(s.subrange(at + 1, s.len() as int) =~= Seq::<u8>::empty());
        reveal_with_fuel(valid_utf8, 2);
    }
}

/// The bytes between two ASCII bytes of a text, and those before the first
/// and behind the second, are text.
pub proof fn lemma_between_ascii(s: Seq<u8>, a: int, b: int)
    requires
        valid_utf8(s),
        0 <= a <= b <= s.len(),
        a == 0 || s[a - 1] < 128 || (a < s.len() && s[a] < 128),
        b == s.len() || s[b] < 128 || (b > 0 && s[b - 1] < 128),
    ensures
        valid_utf8(s.subrange(a, b)),
{
    // The text from `a` on.
    let tail = s.subrange(a, s.len() as int);
    if a == 0 {
        assert(tail =~= s);
    } else if a < s.len() && s[a] < 128 {
        lemma_split_at_ascii(s, a);
    } else {
        lemma_split_at_ascii(s, a - 1);
    }
    // Of that, the text up to `b`.
    if b == s.len() {
        assert(tail.subrange(0, b - a) =~= s.subrange(a, b));
        assert(tail.subrange(0, b - a) =~= tail);
    } else if s[b] < 128 {
        assert(tail[b - a] == s[b]);
        lemma_split_at_ascii(tail, b - a);
        assert(tail.subrange(0, b - a) =~= s.subrange(a, b));
    } else if b == a {
        assert(s.subrange(a, b) =~= Seq::<u8>::empty());
        reveal_with_fuel(valid_utf8, 2);
    } else {
        assert(tail[b - 1 - a] == s[b - 1]);
        lemma_split_at_ascii(tail, b - 1 - a);
        let head = tail.subrange(0, b - 1 - a);
        let one = seq![s[b - 1]];
        assert(s.subrange(a, b) =~= head + one);
        crate::kopper::file_index::lemma_ascii_is_text(one);
        valid_utf8_concat(head, one);
    }
}

/// The values of the variables of a template, by the variables' names.
pub struct Variables {
    map: StringHashMap<String>,
}

impl View for Variables {
    type V = Map<Seq<char>, Seq<char>>;

    closed spec fn view(&self) -> Map<Seq<char>, Seq<char>> {
        texts(self.map@)
    }
}

impl Variables {
    /// No values.
    pub fn new() -> (r: Self)
        ensures
            r@ == Map::<Seq<char>, Seq<char>>::empty(),
    {
        let r = Variables { map: StringHashMap::new() };
        proof {
            assert(r@ =~= Map::<Seq<char>, Seq<char>>::empty());
        }
        r
    }

    /// Gives the variable `name` the value `value`, in the place of an
    /// earlier one.
    pub fn set(&mut self, name: &str, value: String)
        ensures
            final(self)@ == old(self)@.insert(name@, value@),
    {
        self.map.insert(name.to_owned(), value);
        proof {
            assert(self@ =~= old(self)@.insert(name@, value@));
        }
    }
}

/// The web templater.
pub struct Templater {
    web_path: String,
}

impl Templater {
    /// The directory that holds the templates.
    pub closed spec fn web_path(&self) -> Seq<char> {
        self.web_path@
    }

    /// A templater for the templates under `web_path`.
    pub fn new(web_path: &str) -> (r: Self)
        ensures
            r.web_path() == web_path@,
    {
        Templater { web_path: web_path.to_owned() }
    }

    /// The file that holds the template `component_name`.
    pub fn file_name(&self, component_name: &str) -> (r: String)
        ensures
            r@ == self.web_path() + "/"@ + component_name@ + ".component"@,
    {
        self.web_path.clone().concat("/").concat(component_name).concat(".component")
    }

    /// Assembles a page from the bytes of a template and the values of its
    /// variables. A variable without a value gives a complaint in place of
    /// the page.
    pub fn get(&self, html: &Vec<u8>, variables: &Variables) -> (r: String)
        requires
            valid_utf8(html@),
        ensures
            r@ == rendered(html@, variables@),
    {
        proof {
            lemma_names_are_text(html@);
        }
        let vars = Templater::parse(html);
        let mut result = String::new();
        let mut buffer_index: usize = 0;
        let mut k: usize = 0;
        proof {
            lemma_spans_shape(html@, 0, false, 0);
        }
        while k < vars.len()
            invariant
                k <= vars.len(),
                valid_utf8(html@),
                vars@.len() == spans(html@).len(),
                forall|j: int|
                    0 <= j < vars@.len() ==> {
                        &&& (#[trigger] vars@[j]).start_index == spans(html@)[j].start
                        &&& vars@[j].end_index == spans(html@)[j].end
                        &&& vars@[j].name@ == name_at(html@, spans(html@)[j])
                    },
                forall|j: int|
                    0 <= j < spans(html@).len() ==> {
                        let s = #[trigger] spans(html@)[j];
                        &&& 0 <= s.start
                        &&& s.start + 1 < s.end <= html@.len()
                        &&& html@[s.start] == 0x7b
                        &&& html@[s.end - 1] == 0x7d
                    },
                forall|j: int|
                    0 <= j < spans(html@).len() - 1 ==> (#[trigger] spans(html@)[j]).end <= spans(
                        html@,
                    )[j + 1].start,
                buffer_index <= html@.len(),
                buffer_index == 0 || html@[buffer_index - 1] == 0x7d,
                k < vars.len() ==> buffer_index <= spans(html@)[k as int].start,
                rendered(html@, variables@) == rendered_from(
                    html@,
                    k as int,
                    buffer_index as int,
                    result@,
                    variables@,
                ),
            decreases vars.len() - k,
        {
            let var = &vars[k];
            proof {
                lemma_between_ascii(html@, buffer_index as int, var.start_index as int);
            }
            let piece = slice_subrange(html.as_slice(), buffer_index, var.start_index);
            if let Some(text) = str_from_utf8(piece) {
                result.append(text);
            }
            match variables.map.get(var.name.as_str()) {
                None => {
                    return "Error parsing template! Missing attribute: ".to_owned().concat(
                        var.name.as_str(),
                    );
                },
                Some(value) => {
                    result.append(value.as_str());
                },
            }
            buffer_index = var.end_index;
            k = k + 1;
        }
        proof {
            lemma_between_ascii(html@, buffer_index as int, html@.len() as int);
        }
        let piece = slice_subrange(html.as_slice(), buffer_index, html.len());
        if let Some(text) = str_from_utf8(piece) {
            result.append(text);
        }
        result
    }

    /// Finds the variables of a template, in their order.
    pub fn parse(html: &Vec<u8>) -> (res: Vec<Variable>)
        requires
            names_are_text(html@),
        ensures
            res@.len() == spans(html@).len(),
            forall|k: int|
                0 <= k < res@.len() ==> {
                    &&& (#[trigger] res@[k]).start_index == spans(html@)[k].start
                    &&& res@[k].end_index == spans(html@)[k].end
                    &&& res@[k].name@ == name_at(html@, spans(html@)[k])
                },
    {
        let mut res: Vec<Variable> = Vec::new();
        let mut is_reading = false;
        let mut index: usize = 0;
        let mut i: usize = 0;
        let ghost mut done: Seq<Span> = Seq::empty();
        while i < html.len()
            invariant
                i <= html.len(),
                names_are_text(html@),
                is_reading ==> index < i && html@[index as int] == 0x7b,
                spans(html@) == done + spans_from(html@, i as int, is_reading, index as int),
                res@.len() == done.len(),
                forall|k: int|
                    0 <= k < res@.len() ==> {
                        &&& (#[trigger] res@[k]).start_index == done[k].start
                        &&& res@[k].end_index == done[k].end
                        &&& res@[k].name@ == name_at(html@, done[k])
                    },
            decreases html.len() - i,
        {
            let letter = html[i];
            if letter == 0x7b {
                is_reading = true;
                index = i;
            } else if letter == 0x7d {
                if is_reading && i - index > 1 {
                    proof {
                        let span = Span { start: index as int, end: i + 1 };
                        let rest = spans_from(html@, i + 1, false, index as int);
                        assert((done + (seq![span] + rest))[done.len() as int] == span);
                        assert(spans(html@)[done.len() as int] == span);
                    }
                    let inner = slice_subrange(html.as_slice(), index + 1, i);
                    let name = match str_from_utf8(inner) {
                        Some(s) => trim(s).to_owned(),
                        None => String::new(),
                    };
                    res.push(Variable { name, start_index: index, end_index: i + 1 });
                    proof {
                        let span = Span { start: index as int, end: i + 1 };
                        assert(done + (seq![span] + spans_from(html@, i + 1, false, index as int))
                            =~= done.push(span) + spans_from(html@, i + 1, false, index as int));
                        done = done.push(span);
                    }
                }
                is_reading = false;
            }
            i = i + 1;
        }
        proof {
            assert(done + Seq::<Span>::empty() =~= done);
        }
        res
    }
}

} // verus!
