//! The decisions of the LSP stdio transport: what each header line of a
//! framed message means, when the header block ends and how long the body
//! is, and which method a body names (the transport itself stops on `exit`).
//! The reading and writing are the host's.

use vstd::prelude::*;
use crate::lsp::protocol::JsonValue;
use crate::text::{chars_of, ends_with, is_ws, trim, trim_chars};

verus! {

/// `s` without its trailing `'\r'` and `'\n'` characters.
pub open spec fn strip_line_end(s: Seq<char>) -> Seq<char>
    decreases s.len(),
{
    if s.len() > 0 && (s.last() == '\r' || s.last() == '\n') {
        strip_line_end(s.drop_last())
    } else {
        s
    }
}

/// The index of the first `':'` of `s` at or after `i`.
pub open spec fn first_colon(s: Seq<char>, i: int) -> Option<int>
    decreases s.len() - i,
{
    if i < 0 || i >= s.len() {
        None
    } else if s[i] == ':' {
        Some(i)
    } else {
        first_colon(s, i + 1)
    }
}

/// Whether `x` is `y` up to ASCII case, for a lower-case `y`.
pub open spec fn same_ignoring_case(x: char, y: char) -> bool {
    x == y || ('a' <= y && y <= 'z' && x as u32 == y as u32 - 32)
}

/// Whether `a` spells `b` up to ASCII case, `b` being lower case.
pub open spec fn eq_ignoring_case(a: Seq<char>, b: Seq<char>) -> bool {
    a.len() == b.len() && forall|i: int| 0 <= i < a.len() ==> same_ignoring_case(#[trigger] a[i], b[i])
}

/// Whether `c` is an ASCII digit.
pub open spec fn is_digit_char(c: char) -> bool {
    '0' <= c && c <= '9'
}

/// The number decimal digits `s` spell.
pub open spec fn digits_val(s: Seq<char>) -> nat
    decreases s.len(),
{
    if s.len() == 0 {
        0
    } else {
        digits_val(s.drop_last()) * 10 + (s.last() as u32 - 48) as nat
    }
}

/// `s` without one leading `'+'`.
pub open spec fn unsigned(s: Seq<char>) -> Seq<char> {
    if s.len() > 0 && s[0] == '+' {
        s.drop_first()
    } else {
        s
    }
}

/// What `str::parse::<usize>` gives: an optional `+`, then one or more
/// digits whose value fits in `usize`.
pub open spec fn parse_usize_chars(s: Seq<char>) -> Option<nat> {
    let d = unsigned(s);
    if d.len() > 0 && (forall|i: int| 0 <= i < d.len() ==> is_digit_char(#[trigger] d[i])) && digits_val(d)
        <= usize::MAX {
        Some(digits_val(d))
    } else {
        None
    }
}

/// What one header line says.
#[derive(Debug, Clone, Copy, PartialEq, Eq, Structural)]
pub enum HeaderLine {
    /// The blank line that ends the header block.
    End,
    /// A `Content-Length` header, with its value if it parses.
    Length(Option<usize>),
    /// Any other header; the transport ignores it.
    Other,
}

/// What header line `line` says: blank once its line ending is dropped, a
/// `Content-Length` (name compared up to ASCII case, name and value
/// trimmed), or something else.
pub open spec fn header_line_spec(line: Seq<char>) -> HeaderLine {
    let t = strip_line_end(line);
    if t.len() == 0 {
        HeaderLine::End
    } else {
        match first_colon(t, 0) {
            None => HeaderLine::Other,
            Some(i) => if eq_ignoring_case(trim(t.take(i)), "content-length"@) {
                HeaderLine::Length(
                    match parse_usize_chars(trim(t.skip(i + 1))) {
                        Some(n) => Some(n as usize),
                        None => None,
                    },
                )
            } else {
                HeaderLine::Other
            },
        }
    }
}

proof fn lemma_digits_grow(s: Seq<char>, i: int, j: int)
    requires
        0 <= i <= j <= s.len(),
        forall|k: int| 0 <= k < s.len() ==> is_digit_char(#[trigger] s[k]),
    ensures
        digits_val(s.take(i)) <= digits_val(s.take(j)),
    decreases j - i,
{
    if i < j {
        lemma_digits_grow(s, i, j - 1);
        assert(s.take(j).drop_last() =~= s.take(j - 1));
        assert(is_digit_char(s[j - 1]));
    }
}

fn parse_usize_of(s: &[char]) -> (r: Option<usize>)
    ensures
        match parse_usize_chars(s@) {
            Some(n) => r == Some(n as usize),
            None => r is None,
        },
{
    let from: usize = if s.len() > 0 && s[0] == '+' { 1 } else { 0 };
    let ghost d = unsigned(s@);
    proof {
        assert(d =~= s@.skip(from as int));
    }
    if from >= s.len() {
        return None;
    }
    let mut i = from;
    while i < s.len()
        invariant
            from <= i <= s.len(),
            d == s@.skip(from as int),
            d == unsigned(s@),
            forall|k: int| from <= k < i ==> is_digit_char(#[trigger] s@[k]),
        decreases s.len() - i,
    {
        if !('0' <= s[i] && s[i] <= '9') {
            proof {
                assert(d[i - from] == s@[i as int]);
                assert(!is_digit_char(d[i - from]));
            }
            return None;
        }
        i = i + 1;
    }
    assert forall|k: int| 0 <= k < d.len() implies is_digit_char(#[trigger] d[k]) by {
        assert(d[k] == s@[k + from]);
    }
    let mut acc: u64 = 0;
    let mut i = from;
    proof {
        assert(d.take(0) =~= Seq::<char>::empty());
    }
    while i < s.len()
        invariant
            from <= i <= s.len(),
            d == s@.skip(from as int),
            d == unsigned(s@),
            forall|k: int| 0 <= k < d.len() ==> is_digit_char(#[trigger] d[k]),
            acc as nat == digits_val(d.take(i - from)),
            acc <= usize::MAX,
        decreases s.len() - i,
    {
        proof {
            assert(d[i - from] == s@[i as int]);
            assert(is_digit_char(s@[i as int]));
            assert(d.take(i - from + 1).drop_last() =~= d.take(i - from));
            assert(d.take(i - from + 1).last() == s@[i as int]);
        }
        let digit = (s[i] as u32 - 48) as u64;
        proof {
            assert(digits_val(d.take(i - from + 1)) == acc * 10 + digit);
        }
        if acc > (usize::MAX as u64 - digit) / 10 {
            proof {
                assert(acc * 10 + digit > usize::MAX) by (nonlinear_arith)
                    requires
                        acc > (usize::MAX as u64 - digit) / 10,
                        digit <= 9,
                ;
                lemma_digits_grow(d, i - from + 1, d.len() as int);
                assert(d.take(d.len() as int) =~= d);
            }
            return None;
        }
        proof {
            assert(acc * 10 + digit <= usize::MAX) by (nonlinear_arith)
                requires
                    acc <= (usize::MAX as u64 - digit) / 10,
                    digit <= 9,
            ;
        }
        acc = acc * 10 + digit;
        i = i + 1;
    }
    proof {
        assert(d.take(d.len() as int) =~= d);
    }
    Some(acc as usize)
}

fn eq_ignoring_case_of(a: &[char], b: &str) -> (r: bool)
    ensures
        r == eq_ignoring_case(a@, b@),
{
    let bv = chars_of(b);
    if a.len() != bv.len() {
        return false;
    }
    let mut i: usize = 0;
    while i < a.len()
        invariant
            i <= a@.len(),
            a@.len() == bv@.len(),
            bv@ == b@,
            forall|k: int| 0 <= k < i ==> same_ignoring_case(#[trigger] a@[k], bv@[k]),
        decreases a.len() - i,
    {
        let x = a[i];
        let y = bv[i];
        let same = x == y || ('a' <= y && y <= 'z' && (x as u32) == (y as u32) - 32);
        if !same {
            return false;
        }
        i = i + 1;
    }
    true
}

/// What one header line of a framed message says.
pub fn header_line(line: &str) -> (r: HeaderLine)
    ensures
        r == header_line_spec(line@),
{
    let chars = chars_of(line);
    let mut n = chars.len();
    proof {
        assert(chars@.take(n as int) =~= chars@);
    }
    while n > 0 && (chars[n - 1] == '\r' || chars[n - 1] == '\n')
        invariant
            n <= chars@.len(),
            chars@ == line@,
            strip_line_end(line@) == strip_line_end(chars@.take(n as int)),
        decreases n,
    {
        proof {
            assert(chars@.take(n as int).drop_last() =~= chars@.take(n - 1));
        }
        n = n - 1;
    }
    let t = crate::text::slice_chars(chars.as_slice(), 0, n);
    proof {
        assert(t@ =~= chars@.take(n as int));
        assert(strip_line_end(t@) == t@);
    }
    if n == 0 {
        return HeaderLine::End;
    }
    let mut i: usize = 0;
    while i < n && t[i] != ':'
        invariant
            i <= n,
            t@.len() == n,
            first_colon(t@, 0) == first_colon(t@, i as int),
        decreases n - i,
    {
        i = i + 1;
    }
    if i == n {
        return HeaderLine::Other;
    }
    let name = crate::text::slice_chars(t.as_slice(), 0, i);
    let value = crate::text::slice_chars(t.as_slice(), i + 1, n);
    proof {
        assert(name@ =~= t@.take(i as int));
        assert(value@ =~= t@.skip(i + 1));
    }
    let name_t = trim_chars(name.as_slice());
    if !eq_ignoring_case_of(name_t.as_slice(), "content-length") {
        return HeaderLine::Other;
    }
    let value_t = trim_chars(value.as_slice());
    HeaderLine::Length(parse_usize_of(value_t.as_slice()))
}

/// What reading a header line led to.
#[derive(Debug, Clone, Copy, PartialEq, Eq, Structural)]
pub enum HeaderStep {
    /// Read the next header line.
    More,
    /// The header block ended: read a body of this many bytes.
    Body(usize),
    /// The header block ended without a `Content-Length`: a protocol error.
    MissingLength,
}

/// The header block of one message, read so far.
#[derive(Debug, Clone, Copy)]
pub struct HeaderReader {
    pub content_length: Option<usize>,
}

impl HeaderReader {
    /// Before any header line.
    pub fn new() -> (r: HeaderReader)
        ensures
            r.content_length is None,
    {
        HeaderReader { content_length: None }
    }

    /// Take in one header line. A `Content-Length` line sets the length (an
    /// unparsable value unsets it, a later line wins); other lines are
    /// ignored; the blank line ends the block with the length read, or with
    /// the protocol error of a missing one.
    pub fn on_line(&mut self, line: &str) -> (r: HeaderStep)
        ensures
            match header_line_spec(line@) {
                HeaderLine::End => *final(self) == *old(self) && r == match old(self).content_length {
                    Some(n) => HeaderStep::Body(n),
                    None => HeaderStep::MissingLength,
                },
                HeaderLine::Length(v) => final(self).content_length == v && r == HeaderStep::More,
                HeaderLine::Other => *final(self) == *old(self) && r == HeaderStep::More,
            },
    {
        match header_line(line) {
            HeaderLine::End => match self.content_length {
                Some(n) => HeaderStep::Body(n),
                None => HeaderStep::MissingLength,
            },
            HeaderLine::Length(v) => {
                self.content_length = v;
                HeaderStep::More
            },
            HeaderLine::Other => HeaderStep::More,
        }
    }
}

/// What `serde_json::from_str` makes of a text, when it parses.
pub uninterp spec fn json_parse(text: Seq<char>) -> Option<JsonValue>;

/// The member `key` of a JSON object, when the value is one and has it.
pub uninterp spec fn json_member(v: JsonValue, key: Seq<char>) -> Option<JsonValue>;

/// The text of a JSON string value.
pub uninterp spec fn json_text(v: JsonValue) -> Option<Seq<char>>;

/// `serde_json::from_str::<serde_json::Value>`: the JSON value `text`
/// spells, or `None` when it is not JSON. A function of the text alone.
#[verifier::external_body]
fn parse_json(text: &str) -> (r: Option<JsonValue>)
    ensures
        r == json_parse(text@),
{
    serde_json::from_str::<serde_json::Value>(text).ok().map(JsonValue)
}

/// `serde_json::Value::get`: the member `key` of an object value (`None`
/// for any other value or a missing key), copied out.
#[verifier::external_body]
fn member(v: &JsonValue, key: &str) -> (r: Option<JsonValue>)
    ensures
        r == json_member(*v, key@),
{
    v.0.get(key).cloned().map(JsonValue)
}

/// `serde_json::Value::as_str`: the text of a string value, `None` for any
/// other value.
#[verifier::external_body]
fn string_text(v: &JsonValue) -> (r: Option<String>)
    ensures
        match r {
            Some(s) => json_text(*v) == Some(s@),
            None => json_text(*v) is None,
        },
{
    v.0.as_str().map(str::to_string)
}

/// The `method` a raw message body names: the body parsed as JSON, its
/// `method` member, as text.
pub open spec fn method_spec(body: Seq<char>) -> Option<Seq<char>> {
    match json_parse(body) {
        Some(v) => match json_member(v, "method"@) {
            Some(m) => json_text(m),
            None => None,
        },
        None => None,
    }
}

/// The `method` field of a raw message, if it has one.
pub fn method_of(body: &str) -> (r: Option<String>)
    ensures
        match r {
            Some(s) => method_spec(body@) == Some(s@),
            None => method_spec(body@) is None,
        },
{
    let v = match parse_json(body) {
        Some(v) => v,
        None => {
            return None;
        },
    };
    let m = match member(&v, "method") {
        Some(m) => m,
        None => {
            return None;
        },
    };
    string_text(&m)
}

/// Whether a message body is the `exit` notification, on which the
/// transport stops after answering it.
pub fn is_exit(body: &str) -> (r: bool)
    ensures
        r == (method_spec(body@) == Some("exit"@)),
{
    match method_of(body) {
        Some(m) => crate::text::str_eq(m.as_str(), "exit"),
        None => false,
    }
}

} // verus!
