//! LSP content-length framing and JSON-RPC error codes.
//!
//! A message on the wire is a header, `Content-Length: N`, a blank line
//! (`\r\n\r\n`), and `N` bytes of JSON body. Framing works on bytes: the
//! length counts bytes, and a body may end inside a multi-byte character of
//! a longer buffer.

use vstd::prelude::*;

verus! {

/// A JSON value, carried through unread: a `serde_json::Value` that the
/// host parsed or will print. Nothing here looks inside it.
#[verifier::external_body]
#[derive(Debug, PartialEq)]
pub struct JsonValue(pub serde_json::Value);

impl Clone for JsonValue {
    /// `serde_json::Value::clone`, a deep copy; nothing is claimed of it.
    #[verifier::external_body]
    fn clone(&self) -> (r: JsonValue) {
        JsonValue(self.0.clone())
    }
}

/// An incoming JSON-RPC message: a request (id and method), a notification
/// (method, no id), or a response to one of ours (id, no method).
#[derive(Debug, Clone)]
pub struct RpcMessage {
    pub id: Option<JsonValue>,
    pub method: Option<String>,
    pub params: Option<JsonValue>,
}

impl RpcMessage {
    /// A request: it has an id and names a method.
    pub fn is_request(&self) -> (r: bool)
        ensures
            r == (self.id is Some && self.method is Some),
    {
        self.id.is_some() && self.method.is_some()
    }

    /// A notification: it names a method and has no id.
    pub fn is_notification(&self) -> (r: bool)
        ensures
            r == (self.id is None && self.method is Some),
    {
        self.id.is_none() && self.method.is_some()
    }
}

/// The protocol version every outgoing message carries.
pub const JSONRPC_VERSION: &'static str = "2.0";

/// A response to a request: its id, and a result or an error.
#[derive(Debug, Clone)]
pub struct RpcResponse {
    pub jsonrpc: &'static str,
    pub id: JsonValue,
    pub result: Option<JsonValue>,
    pub error: Option<RpcError>,
}

impl RpcResponse {
    /// A successful response to request `id`.
    pub fn ok(id: JsonValue, result: JsonValue) -> (r: RpcResponse)
        ensures
            r.jsonrpc@ == JSONRPC_VERSION@,
            r.id == id,
            r.result == Some(result),
            r.error is None,
    {
        RpcResponse { jsonrpc: JSONRPC_VERSION, id, result: Some(result), error: None }
    }

    /// A failed response to request `id`, with an error code and message.
    pub fn err(id: JsonValue, code: i32, message: String) -> (r: RpcResponse)
        ensures
            r.jsonrpc@ == JSONRPC_VERSION@,
            r.id == id,
            r.result is None,
            r.error == Some(RpcError { code, message }),
    {
        RpcResponse { jsonrpc: JSONRPC_VERSION, id, result: None, error: Some(RpcError { code, message }) }
    }
}

/// A JSON-RPC error object.
#[derive(Debug, Clone)]
pub struct RpcError {
    pub code: i32,
    pub message: String,
}

/// A notification from the server: a method and its parameters, no id.
#[derive(Debug, Clone)]
pub struct RpcNotification {
    pub jsonrpc: &'static str,
    pub method: String,
    pub params: JsonValue,
}

impl RpcNotification {
    /// The notification `method` with `params`.
    pub fn new(method: &str, params: JsonValue) -> (n: RpcNotification)
        ensures
            n.jsonrpc@ == JSONRPC_VERSION@,
            n.method@ == method@,
            n.params == params,
    {
        RpcNotification { jsonrpc: JSONRPC_VERSION, method: crate::text::string_from(method), params }
    }
}

/// A message the server sends: a response or a notification.
#[derive(Debug, Clone)]
pub enum OutgoingMessage {
    Response(RpcResponse),
    Notification(RpcNotification),
}

/// The requested method does not exist.
pub const METHOD_NOT_FOUND: i32 = -32601;
/// The method's parameters are invalid.
pub const INVALID_PARAMS: i32 = -32602;
/// A request came before `initialize`.
pub const SERVER_NOT_INITIALIZED: i32 = -32002;

/// The ASCII decimal digits of `n`, most significant first.
pub open spec fn dec_bytes(n: nat) -> Seq<u8>
    decreases n,
{
    if n < 10 {
        seq![(48 + n) as u8]
    } else {
        dec_bytes(n / 10).push((48 + n % 10) as u8)
    }
}

/// Whether `b` is an ASCII digit.
pub open spec fn is_digit(b: u8) -> bool {
    48 <= b <= 57
}

/// The number ASCII digits spell.
pub open spec fn digits_value(s: Seq<u8>) -> nat
    decreases s.len(),
{
    if s.len() == 0 {
        0
    } else {
        digits_value(s.drop_last()) * 10 + (s.last() - 48) as nat
    }
}

/// What `str::parse::<usize>` accepts: an optional `+`, then one or more
/// digits whose value fits in `usize`.
pub open spec fn parse_usize_spec(s: Seq<u8>) -> Option<nat> {
    let digits = unsigned_digits(s);
    if digits.len() > 0 && all_digits(digits) && digits_value(digits) <= usize::MAX {
        Some(digits_value(digits))
    } else {
        None
    }
}

/// `s` without a leading `+`.
pub open spec fn unsigned_digits(s: Seq<u8>) -> Seq<u8> {
    if s.len() > 0 && s[0] == 43 {
        s.drop_first()
    } else {
        s
    }
}

/// Every byte of `s` is an ASCII digit.
pub open spec fn all_digits(s: Seq<u8>) -> bool {
    forall|i: int| 0 <= i < s.len() ==> is_digit(#[trigger] s[i])
}

/// `\r\n\r\n`.
pub open spec fn blank_line() -> Seq<u8> {
    seq![13u8, 10u8, 13u8, 10u8]
}

/// `Content-Length: `.
pub open spec fn length_label() -> Seq<u8> {
    seq![67u8, 111u8, 110u8, 116u8, 101u8, 110u8, 116u8, 45u8, 76u8, 101u8, 110u8, 103u8, 116u8, 104u8, 58u8, 32u8]
}

/// `content-length:`.
pub open spec fn length_key() -> Seq<u8> {
    seq![99u8, 111u8, 110u8, 116u8, 101u8, 110u8, 116u8, 45u8, 108u8, 101u8, 110u8, 103u8, 116u8, 104u8, 58u8]
}

/// A framed message: its header, the blank line, and the body.
pub open spec fn encode_spec(json: Seq<u8>) -> Seq<u8> {
    length_label() + dec_bytes(json.len()) + blank_line() + json
}

/// The first `i >= start` where `\r\n\r\n` begins in `b`.
pub open spec fn header_end_from(b: Seq<u8>, start: int) -> Option<int>
    decreases b.len() - start,
{
    if start < 0 || start + 4 > b.len() {
        None
    } else if b.subrange(start, start + 4) == blank_line() {
        Some(start)
    } else {
        header_end_from(b, start + 1)
    }
}

/// ASCII lower case of a byte.
pub open spec fn lower(b: u8) -> u8 {
    if 65 <= b <= 90 {
        (b + 32) as u8
    } else {
        b
    }
}

/// Whether `b` is ASCII whitespace.
pub open spec fn is_space(b: u8) -> bool {
    b == 32 || (9 <= b <= 13)
}

/// The first index at or after `i` that is not ASCII whitespace.
pub open spec fn skip_space(s: Seq<u8>, i: int) -> int
    decreases s.len() - i,
{
    if i < 0 || i >= s.len() {
        s.len() as int
    } else if is_space(s[i]) {
        skip_space(s, i + 1)
    } else {
        i
    }
}

/// One past the last index below `j` that is not ASCII whitespace, but not
/// below `lo`.
pub open spec fn trim_back(s: Seq<u8>, lo: int, j: int) -> int
    decreases j - lo,
{
    if j <= lo {
        lo
    } else if is_space(s[j - 1]) {
        trim_back(s, lo, j - 1)
    } else {
        j
    }
}

/// `s` without leading and trailing ASCII whitespace.
pub open spec fn trim_spec(s: Seq<u8>) -> Seq<u8> {
    let a = skip_space(s, 0);
    s.subrange(a, trim_back(s, a, s.len() as int))
}

/// The content length a header line gives, when it is a `content-length:`
/// line (compared case-insensitively): `Some(None)` when the value does not
/// parse.
pub open spec fn line_length(line: Seq<u8>) -> Option<Option<nat>> {
    if line.len() >= 15 && line.subrange(0, 15).map_values(|b: u8| lower(b)) == length_key() {
        Some(parse_usize_spec(trim_spec(line.subrange(15, line.len() as int))))
    } else {
        None
    }
}

/// The first index at or after `i` where `\r\n` begins, or the length.
pub open spec fn line_end(s: Seq<u8>, i: int) -> int
    decreases s.len() - i,
{
    if i < 0 || i >= s.len() {
        s.len() as int
    } else if i + 1 < s.len() && s[i] == 13 && s[i + 1] == 10 {
        i
    } else {
        line_end(s, i + 1)
    }
}

/// The content length the header lines from `i` on give: the first
/// `content-length:` line decides, a value that does not parse is none.
pub open spec fn header_length_from(h: Seq<u8>, i: int) -> Option<nat>
    decreases h.len() + 1 - i,
{
    if i < 0 || i > h.len() {
        None
    } else {
        let e = line_end(h, i);
        match line_length(h.subrange(i, e)) {
            Some(v) => v,
            None => if e >= h.len() || e < i {
                None
            } else {
                header_length_from(h, e + 2)
            },
        }
    }
}

/// The messages framed in `b` from `pos` on: each body with the offset just
/// past it. Decoding stops at the first incomplete or unreadable frame.
pub open spec fn decode_from(b: Seq<u8>, pos: int) -> Seq<(Seq<u8>, nat)>
    decreases b.len() - pos,
{
    if pos < 0 || pos >= b.len() {
        Seq::empty()
    } else {
        match header_end_from(b, pos) {
            None => Seq::empty(),
            Some(he) => match header_length_from(b.subrange(pos, he), 0) {
                None => Seq::empty(),
                Some(n) => if he + 4 + n > b.len() || he < pos {
                    Seq::empty()
                } else {
                    seq![(b.subrange(he + 4, he + 4 + n), (he + 4 + n) as nat)] + decode_from(
                        b,
                        he + 4 + n,
                    )
                },
            },
        }
    }
}


/// The byte views of decoded frames.
pub open spec fn frames_view(v: Seq<(Vec<u8>, usize)>) -> Seq<(Seq<u8>, nat)> {
    v.map_values(|f: (Vec<u8>, usize)| (f.0@, f.1 as nat))
}

fn dec_bytes_exec(n: usize) -> (r: Vec<u8>)
    ensures
        r@ == dec_bytes(n as nat),
    decreases n,
{
    if n < 10 {
        let mut r: Vec<u8> = Vec::new();
        r.push((48 + n) as u8);
        proof {
            assert(r@ =~= seq![(48 + n) as u8]);
        }
        r
    } else {
        let mut r = dec_bytes_exec(n / 10);
        r.push((48 + n % 10) as u8);
        r
    }
}

fn push_all(out: &mut Vec<u8>, bytes: &[u8])
    ensures
        final(out)@ == old(out)@ + bytes@,
{
    let ghost start = out@;
    let mut i: usize = 0;
    while i < bytes.len()
        invariant
            i <= bytes@.len(),
            out@ == start + bytes@.take(i as int),
        decreases bytes@.len() - i,
    {
        out.push(bytes[i]);
        proof {
            assert(out@ =~= start + bytes@.take((i + 1) as int));
        }
        i = i + 1;
    }
    proof {
        assert(bytes@.take(bytes@.len() as int) =~= bytes@);
    }
}

/// Frame a JSON body: `Content-Length: N\r\n\r\n` and the body, `N` its
/// length in bytes.
pub fn encode_lsp_message(json: &[u8]) -> (r: Vec<u8>)
    ensures
        r@ == encode_spec(json@),
{
    let mut out: Vec<u8> = Vec::new();
    let label: [u8; 16] = [67, 111, 110, 116, 101, 110, 116, 45, 76, 101, 110, 103, 116, 104, 58, 32];
    push_all(&mut out, &label);
    let digits = dec_bytes_exec(json.len());
    push_all(&mut out, digits.as_slice());
    let blank: [u8; 4] = [13, 10, 13, 10];
    push_all(&mut out, &blank);
    push_all(&mut out, json);
    proof {
        assert(label@ =~= length_label());
        assert(blank@ =~= blank_line());
    }
    out
}

fn find_header_end(bytes: &[u8], start: usize) -> (r: Option<usize>)
    ensures
        match r {
            Some(e) => header_end_from(bytes@, start as int) == Some(e as int),
            None => header_end_from(bytes@, start as int) is None,
        },
{
    let mut i = start;
    while i < bytes.len() && bytes.len() - i >= 4
        invariant
            start <= i,
            header_end_from(bytes@, start as int) == header_end_from(bytes@, i as int),
        decreases bytes@.len() - i,
    {
        if bytes[i] == 13 && bytes[i + 1] == 10 && bytes[i + 2] == 13 && bytes[i + 3] == 10 {
            proof {
                assert(bytes@.subrange(i as int, i + 4) =~= blank_line());
            }
            return Some(i);
        }
        proof {
            assert(bytes@.subrange(i as int, i + 4) != blank_line()) by {
                if bytes@.subrange(i as int, i + 4) == blank_line() {
                    assert(bytes@.subrange(i as int, i + 4)[0] == 13);
                    assert(bytes@.subrange(i as int, i + 4)[1] == 10);
                    assert(bytes@.subrange(i as int, i + 4)[2] == 13);
                    assert(bytes@.subrange(i as int, i + 4)[3] == 10);
                }
            }
        }
        i = i + 1;
    }
    None
}

proof fn lemma_digits_grow(s: Seq<u8>, k: int)
    requires
        0 <= k <= s.len(),
        forall|i: int| 0 <= i < s.len() ==> is_digit(#[trigger] s[i]),
    ensures
        digits_value(s.take(k)) <= digits_value(s),
    decreases s.len() - k,
{
    if k < s.len() {
        lemma_digits_grow(s, k + 1);
        assert(s.take(k + 1).drop_last() =~= s.take(k));
    } else {
        assert(s.take(k) =~= s);
    }
}

fn parse_usize(s: &[u8]) -> (r: Option<usize>)
    ensures
        match r {
            Some(n) => parse_usize_spec(s@) == Some(n as nat),
            None => parse_usize_spec(s@) is None,
        },
{
    let start: usize = if s.len() > 0 && s[0] == 43 {
        1
    } else {
        0
    };
    let ghost digits = unsigned_digits(s@);
    proof {
        assert(digits =~= s@.subrange(start as int, s@.len() as int));
    }
    if start >= s.len() {
        return None;
    }
    let mut value: usize = 0;
    let mut i = start;
    while i < s.len()
        invariant
            start <= i <= s@.len(),
            start < s@.len(),
            digits == s@.subrange(start as int, s@.len() as int),
            digits == unsigned_digits(s@),
            forall|j: int| 0 <= j < i - start ==> is_digit(#[trigger] digits[j]),
            value as nat == digits_value(digits.take(i - start)),
        decreases s@.len() - i,
    {
        let b = s[i];
        if !(48 <= b && b <= 57) {
            proof {
                assert(!is_digit(digits[i - start]));
                assert(!all_digits(digits));
            }
            return None;
        }
        proof {
            assert(digits.take(i - start + 1).drop_last() =~= digits.take(i - start));
            assert(digits.take(i - start + 1).last() == b);
        }
        let d = (b - 48) as usize;
        match value.checked_mul(10) {
            Some(v10) => match v10.checked_add(d) {
                Some(v) => {
                    value = v;
                },
                None => {
                    proof {
                        lemma_digits_grow_on(digits, i - start + 1, s@.len() - start, i as int, s@);
                    }
                    return None;
                },
            },
            None => {
                proof {
                    lemma_digits_grow_on(digits, i - start + 1, s@.len() - start, i as int, s@);
                }
                return None;
            },
        }
        i = i + 1;
    }
    proof {
        assert(digits.take(s@.len() - start) =~= digits);
    }
    Some(value)
}

/// When a prefix of the digits already exceeds `usize::MAX`, the whole
/// text does not parse.
proof fn lemma_digits_grow_on(digits: Seq<u8>, k: int, n: int, i: int, s: Seq<u8>)
    requires
        0 < k <= n,
        n == digits.len(),
        digits_value(digits.take(k)) > usize::MAX,
        forall|j: int| 0 <= j < k ==> is_digit(#[trigger] digits[j]),
    ensures
        all_digits(digits) ==> digits_value(digits) > usize::MAX,
{
    if all_digits(digits) {
        lemma_digits_grow(digits, k);
    }
}


fn lower_byte(b: u8) -> (r: u8)
    ensures
        r == lower(b),
{
    if 65 <= b && b <= 90 {
        b + 32
    } else {
        b
    }
}

fn space_byte(b: u8) -> (r: bool)
    ensures
        r == is_space(b),
{
    b == 32 || (9 <= b && b <= 13)
}

/// The bytes `s[from..to]` without leading and trailing ASCII whitespace.
fn trimmed(s: &[u8], from: usize, to: usize) -> (r: Vec<u8>)
    requires
        from <= to <= s@.len(),
    ensures
        r@ == trim_spec(s@.subrange(from as int, to as int)),
{
    let ghost t = s@.subrange(from as int, to as int);
    let mut a = from;
    while a < to && space_byte(s[a])
        invariant
            from <= a <= to <= s@.len(),
            t == s@.subrange(from as int, to as int),
            skip_space(t, 0) == skip_space(t, a - from),
        decreases to - a,
    {
        a = a + 1;
    }
    let mut e = to;
    while e > a && space_byte(s[e - 1])
        invariant
            from <= a <= e <= to <= s@.len(),
            t == s@.subrange(from as int, to as int),
            skip_space(t, 0) == a - from,
            trim_back(t, a - from, to - from) == trim_back(t, a - from, e - from),
        decreases e,
    {
        e = e - 1;
    }
    let mut r: Vec<u8> = Vec::new();
    let mut k = a;
    while k < e
        invariant
            a <= k <= e <= s@.len(),
            r@ == s@.subrange(a as int, k as int),
        decreases e - k,
    {
        r.push(s[k]);
        proof {
            assert(r@ =~= s@.subrange(a as int, (k + 1) as int));
        }
        k = k + 1;
    }
    proof {
        assert(r@ =~= t.subrange(a - from, e - from));
    }
    r
}

/// The content length a header names: its first `content-length:` line,
/// compared case-insensitively, with the value trimmed and parsed.
fn parse_content_length(h: &[u8]) -> (r: Option<usize>)
    ensures
        match r {
            Some(n) => header_length_from(h@, 0) == Some(n as nat),
            None => header_length_from(h@, 0) is None,
        },
{
    let key: [u8; 15] = [99, 111, 110, 116, 101, 110, 116, 45, 108, 101, 110, 103, 116, 104, 58];
    proof {
        assert(key@ =~= length_key());
    }
    let mut i: usize = 0;
    loop
        invariant
            i <= h@.len(),
            key@ == length_key(),
            header_length_from(h@, 0) == header_length_from(h@, i as int),
        decreases h@.len() + 1 - i,
    {
        let mut e = i;
        while e < h.len() && !(e + 1 < h.len() && h[e] == 13 && h[e + 1] == 10)
            invariant
                i <= e <= h@.len(),
                line_end(h@, i as int) == line_end(h@, e as int),
            decreases h@.len() - e,
        {
            e = e + 1;
        }
        let ghost line = h@.subrange(i as int, e as int);
        let mut k: usize = 0;
        if e - i >= 15 {
            while k < 15 && lower_byte(h[i + k]) == key[k]
                invariant
                    k <= 15,
                    i + 15 <= e <= h@.len(),
                    line == h@.subrange(i as int, e as int),
                    key@ == length_key(),
                    forall|j: int| 0 <= j < k ==> lower(#[trigger] line[j]) == key@[j],
                decreases 15 - k,
            {
                k = k + 1;
            }
        }
        let is_key = e - i >= 15 && k == 15;
        proof {
            if is_key {
                assert(line.subrange(0, 15).map_values(|b: u8| lower(b)) =~= length_key());
            } else if line.len() >= 15 {
                assert(lower(line[k as int]) != key@[k as int]);
                assert(line.subrange(0, 15).map_values(|b: u8| lower(b))[k as int] == lower(line[k as int]));
            }
        }
        if is_key {
            let v = trimmed(h, i + 15, e);
            proof {
                assert(line.subrange(15, line.len() as int) =~= h@.subrange((i + 15) as int, e as int));
            }
            return parse_usize(v.as_slice());
        }
        if e >= h.len() {
            return None;
        }
        i = e + 2;
    }
}

/// Split a buffer into framed messages: each body with the offset just
/// past it. Decoding stops at the first incomplete or unreadable frame.
pub fn decode_lsp_messages(buf: &[u8]) -> (r: Vec<(Vec<u8>, usize)>)
    ensures
        frames_view(r@) == decode_from(buf@, 0),
{
    let mut results: Vec<(Vec<u8>, usize)> = Vec::new();
    let mut pos: usize = 0;
    while pos < buf.len()
        invariant
            pos <= buf@.len(),
            decode_from(buf@, 0) == frames_view(results@) + decode_from(buf@, pos as int),
        ensures
            decode_from(buf@, 0) == frames_view(results@),
        decreases buf@.len() - pos,
    {
        let he = match find_header_end(buf, pos) {
            Some(e) => e,
            None => {
                proof {
                    assert(frames_view(results@) + Seq::<(Seq<u8>, nat)>::empty() =~= frames_view(results@));
                }
                break;
            },
        };
        proof {
            lemma_header_end_bounds(buf@, pos as int);
        }
        let header = crate::lsp::protocol::slice_bytes(buf, pos, he);
        let n = match parse_content_length(header.as_slice()) {
            Some(n) => n,
            None => {
                proof {
                    assert(frames_view(results@) + Seq::<(Seq<u8>, nat)>::empty() =~= frames_view(results@));
                }
                break;
            },
        };
        let body_start = he + 4;
        let body_end = match body_start.checked_add(n) {
            Some(e) => e,
            None => {
                proof {
                    assert(frames_view(results@) + Seq::<(Seq<u8>, nat)>::empty() =~= frames_view(results@));
                }
                break;
            },
        };
        if body_end > buf.len() {
            proof {
                assert(frames_view(results@) + Seq::<(Seq<u8>, nat)>::empty() =~= frames_view(results@));
            }
            break;
        }
        let body = slice_bytes(buf, body_start, body_end);
        let ghost before = results@;
        results.push((body, body_end));
        proof {
            assert(frames_view(results@) =~= frames_view(before).push((buf@.subrange(body_start as int, body_end as int), body_end as nat)));
            assert(decode_from(buf@, pos as int) == seq![(buf@.subrange(body_start as int, body_end as int), body_end as nat)] + decode_from(buf@, body_end as int));
            assert(frames_view(results@) + decode_from(buf@, body_end as int) =~= frames_view(before) + decode_from(buf@, pos as int));
        }
        pos = body_end;
    }
    results
}

proof fn lemma_header_end_bounds(b: Seq<u8>, start: int)
    requires
        0 <= start,
    ensures
        header_end_from(b, start) matches Some(e) ==> start <= e && e + 4 <= b.len(),
    decreases b.len() - start,
{
    if start + 4 <= b.len() && b.subrange(start, start + 4) != blank_line() {
        lemma_header_end_bounds(b, start + 1);
    }
}

fn slice_bytes(s: &[u8], from: usize, to: usize) -> (r: Vec<u8>)
    requires
        from <= to <= s@.len(),
    ensures
        r@ == s@.subrange(from as int, to as int),
{
    let mut r: Vec<u8> = Vec::new();
    let mut k = from;
    while k < to
        invariant
            from <= k <= to <= s@.len(),
            r@ == s@.subrange(from as int, k as int),
        decreases to - k,
    {
        r.push(s[k]);
        proof {
            assert(r@ =~= s@.subrange(from as int, (k + 1) as int));
        }
        k = k + 1;
    }
    r
}


proof fn lemma_dec_bytes(n: nat)
    ensures
        dec_bytes(n).len() > 0,
        all_digits(dec_bytes(n)),
        digits_value(dec_bytes(n)) == n,
    decreases n,
{
    if n < 10 {
        let d = dec_bytes(n);
        assert(d.drop_last() =~= Seq::<u8>::empty());
        assert(d.last() == (48 + n) as u8);
        assert(((48 + n) as u8) as nat == 48 + n);
        assert(digits_value(d) == digits_value(d.drop_last()) * 10 + (d.last() - 48) as nat);
        assert(digits_value(d.drop_last()) == 0);
        assert(digits_value(d) == n);
    } else {
        lemma_dec_bytes(n / 10);
        let d = dec_bytes(n);
        assert(d.drop_last() =~= dec_bytes(n / 10));
        assert(n == (n / 10) * 10 + n % 10) by (nonlinear_arith);
        assert(d.last() == (48 + n % 10) as u8);
        assert(((48 + n % 10) as u8) as nat == 48 + n % 10);
        assert(digits_value(d) == digits_value(dec_bytes(n / 10)) * 10 + (d.last() - 48) as nat);
        assert((d.last() - 48) as nat == n % 10);
        let q = digits_value(dec_bytes(n / 10));
        assert(q == n / 10);
        assert(q * 10 == (n / 10) * 10);
        assert(digits_value(d) == n);
        assert forall|i: int| 0 <= i < d.len() implies is_digit(#[trigger] d[i]) by {
            if i < d.len() - 1 {
                assert(d[i] == dec_bytes(n / 10)[i]);
            }
        }
    }
}

proof fn lemma_header_end_at(b: Seq<u8>, i: int, h: int)
    requires
        0 <= i <= h,
        h + 4 <= b.len(),
        b.subrange(h, h + 4) == blank_line(),
        forall|j: int| i <= j < h ==> b[j] != 13,
    ensures
        header_end_from(b, i) == Some(h),
    decreases h - i,
{
    if i < h {
        assert(b.subrange(i, i + 4)[0] == b[i]);
        assert(b.subrange(i, i + 4) != blank_line());
        lemma_header_end_at(b, i + 1, h);
    }
}

proof fn lemma_line_end_none(s: Seq<u8>, i: int)
    requires
        0 <= i <= s.len(),
        forall|j: int| i <= j < s.len() ==> s[j] != 13,
    ensures
        line_end(s, i) == s.len(),
    decreases s.len() - i,
{
    if i < s.len() {
        lemma_line_end_none(s, i + 1);
    }
}

proof fn lemma_trim_back_digits(s: Seq<u8>, lo: int)
    requires
        0 <= lo < s.len(),
        is_digit(s.last()),
    ensures
        trim_back(s, lo, s.len() as int) == s.len(),
{
}

/// The header of a frame with an `n`-byte body holds no carriage return
/// and reads as length `n`.
proof fn lemma_header_value(n: nat)
    requires
        n <= usize::MAX,
    ensures
        forall|j: int| 0 <= j < (length_label() + dec_bytes(n)).len() ==> #[trigger] (length_label() + dec_bytes(n))[j] != 13,
        header_length_from(length_label() + dec_bytes(n), 0) == Some(n),
{
    let d = dec_bytes(n);
    let h = length_label() + d;
    let hl = h.len() as int;
    lemma_dec_bytes(n);
    assert forall|j: int| 0 <= j < h.len() implies #[trigger] h[j] != 13 by {
        if j >= 16 {
            assert(h[j] == d[j - 16]);
            assert(is_digit(d[j - 16]));
        }
    }
    lemma_line_end_none(h, 0);
    assert(h.subrange(0, hl) =~= h);
    assert(h.subrange(0, 15).map_values(|x: u8| lower(x)) =~= length_key());
    let v = h.subrange(15, hl);
    assert(v =~= seq![32u8] + d);
    assert(skip_space(v, 1) == 1) by {
        assert(v[1] == d[0]);
        assert(is_digit(d[0]));
    }
    assert(skip_space(v, 0) == 1);
    assert(v.last() == d.last());
    assert(is_digit(d[d.len() - 1]));
    lemma_trim_back_digits(v, 1);
    assert(trim_spec(v) =~= d);
    assert(unsigned_digits(d) == d) by {
        assert(is_digit(d[0]));
    }
    assert(parse_usize_spec(d) == Some(n));
    assert(line_length(h) == Some(Some(n)));
}

/// A framed message that starts at offset `|pre|` decodes to its body,
/// ending where the frame ends, and decoding goes on right after it.
proof fn lemma_frame_at(pre: Seq<u8>, json: Seq<u8>, rest: Seq<u8>)
    requires
        json.len() <= usize::MAX,
    ensures
        decode_from(pre + encode_spec(json) + rest, pre.len() as int) == seq![(json, (pre.len() + encode_spec(json).len()) as nat)]
            + decode_from(pre + encode_spec(json) + rest, (pre.len() + encode_spec(json).len()) as int),
{
    let n = json.len();
    let e = encode_spec(json);
    let b = pre + e + rest;
    let p = pre.len() as int;
    let h = length_label() + dec_bytes(n);
    let hl = h.len() as int;
    lemma_header_value(n);
    assert(e =~= h + blank_line() + json);
    assert forall|j: int| p <= j < p + hl implies b[j] != 13 by {
        assert(b[j] == h[j - p]);
    }
    assert(b.subrange(p + hl, p + hl + 4) =~= blank_line());
    lemma_header_end_at(b, p, p + hl);
    assert(b.subrange(p, p + hl) =~= h);
    assert(b.subrange(p + hl + 4, p + hl + 4 + n) =~= json);
    assert(hl + 4 + n == e.len());
}

proof fn lemma_no_header_end(b: Seq<u8>, i: int)
    requires
        0 <= i,
        forall|j: int| i <= j && j + 4 <= b.len() ==> b[j] != 13,
    ensures
        header_end_from(b, i) is None,
    decreases b.len() - i,
{
    if i + 4 <= b.len() {
        assert(b.subrange(i, i + 4)[0] == b[i]);
        assert(b.subrange(i, i + 4) != blank_line());
        lemma_no_header_end(b, i + 1);
    }
}

/// A frame cut short, starting at offset `|pre|`, decodes to nothing: the
/// decoder waits for the rest of it.
pub proof fn law_partial_frame_decodes_nothing(pre: Seq<u8>, json: Seq<u8>, m: int)
    requires
        json.len() <= usize::MAX,
        0 <= m < encode_spec(json).len(),
    ensures
        decode_from(pre + encode_spec(json).take(m), pre.len() as int) == Seq::<(Seq<u8>, nat)>::empty(),
{
    let n = json.len();
    let e = encode_spec(json);
    let b = pre + e.take(m);
    let p = pre.len() as int;
    let h = length_label() + dec_bytes(n);
    let hl = h.len() as int;
    lemma_header_value(n);
    assert(e =~= h + blank_line() + json);
    if m > 0 {
        if m < hl + 4 {
            assert forall|j: int| p <= j && j + 4 <= b.len() implies b[j] != 13 by {
                assert(b[j] == h[j - p]);
            }
            lemma_no_header_end(b, p);
        } else {
            assert forall|j: int| p <= j < p + hl implies b[j] != 13 by {
                assert(b[j] == h[j - p]);
            }
            assert(b.subrange(p + hl, p + hl + 4) =~= blank_line());
            lemma_header_end_at(b, p, p + hl);
            assert(b.subrange(p, p + hl) =~= h);
            assert(hl + 4 + n == e.len());
        }
    }
}

/// A framed message decodes to its body, ending where the frame ends, and
/// whatever follows the frame is decoded on its own: framing round-trips.
pub proof fn law_frame_round_trip(json: Seq<u8>, rest: Seq<u8>)
    requires
        encode_spec(json).len() + rest.len() <= usize::MAX,
    ensures
        decode_from(encode_spec(json) + rest, 0) == seq![(json, encode_spec(json).len())]
            + decode_from(encode_spec(json) + rest, encode_spec(json).len() as int),
{
    let e = encode_spec(json);
    assert(e.len() >= json.len());
    lemma_frame_at(Seq::empty(), json, rest);
    assert(Seq::<u8>::empty() + e + rest =~= e + rest);
}

/// The frames of `jsons`, one after another.
pub open spec fn frames(jsons: Seq<Seq<u8>>) -> Seq<u8>
    decreases jsons.len(),
{
    if jsons.len() == 0 {
        Seq::empty()
    } else {
        frames(jsons.drop_last()) + encode_spec(jsons.last())
    }
}

/// What decoding the frames of `jsons[i..]` gives when they start at
/// offset `at`: each body with the offset just past its frame.
pub open spec fn bodies_from(jsons: Seq<Seq<u8>>, i: int, at: int) -> Seq<(Seq<u8>, nat)>
    decreases jsons.len() - i,
{
    if i < 0 || i >= jsons.len() {
        Seq::empty()
    } else {
        seq![(jsons[i], (at + encode_spec(jsons[i]).len()) as nat)]
            + bodies_from(jsons, i + 1, at + encode_spec(jsons[i]).len())
    }
}

proof fn lemma_frames_split(jsons: Seq<Seq<u8>>, i: int)
    requires
        0 <= i < jsons.len(),
    ensures
        frames(jsons.take(i + 1)) == frames(jsons.take(i)) + encode_spec(jsons[i]),
{
    assert(jsons.take(i + 1).drop_last() =~= jsons.take(i));
    assert(jsons.take(i + 1).last() == jsons[i]);
}

proof fn lemma_frames_decode_from(jsons: Seq<Seq<u8>>, tail: Seq<u8>, i: int)
    requires
        0 <= i <= jsons.len(),
        forall|k: int| 0 <= k < jsons.len() ==> (#[trigger] jsons[k]).len() <= usize::MAX,
    ensures
        decode_from(frames(jsons) + tail, frames(jsons.take(i)).len() as int) == bodies_from(jsons, i, frames(jsons.take(i)).len() as int)
            + decode_from(frames(jsons) + tail, frames(jsons).len() as int),
    decreases jsons.len() - i,
{
    let b = frames(jsons) + tail;
    if i == jsons.len() {
        assert(jsons.take(i) =~= jsons);
        assert(bodies_from(jsons, i, frames(jsons.take(i)).len() as int) =~= Seq::<(Seq<u8>, nat)>::empty());
    } else {
        let pre = frames(jsons.take(i));
        let e = encode_spec(jsons[i]);
        let after = b.subrange((pre.len() + e.len()) as int, b.len() as int);
        lemma_frames_prefix(jsons, i + 1);
        lemma_frames_split(jsons, i);
        assert(b =~= pre + e + after);
        lemma_frame_at(pre, jsons[i], after);
        lemma_frames_decode_from(jsons, tail, i + 1);
        assert(frames(jsons.take(i + 1)).len() == pre.len() + e.len());
    }
}

proof fn lemma_frames_prefix(jsons: Seq<Seq<u8>>, i: int)
    requires
        0 <= i <= jsons.len(),
    ensures
        frames(jsons.take(i)).len() <= frames(jsons).len(),
        frames(jsons) == frames(jsons.take(i)) + frames(jsons).subrange(frames(jsons.take(i)).len() as int, frames(jsons).len() as int),
    decreases jsons.len() - i,
{
    if i == jsons.len() {
        assert(jsons.take(i) =~= jsons);
        assert(frames(jsons).subrange(frames(jsons).len() as int, frames(jsons).len() as int) =~= Seq::<u8>::empty());
        assert(frames(jsons) =~= frames(jsons) + Seq::<u8>::empty());
    } else {
        lemma_frames_prefix(jsons, i + 1);
        lemma_frames_split(jsons, i);
        let whole = frames(jsons);
        let a = frames(jsons.take(i));
        let a1 = frames(jsons.take(i + 1));
        assert(whole =~= a + whole.subrange(a.len() as int, whole.len() as int)) by {
            assert(whole.subrange(0, a1.len() as int) =~= a1);
            assert(a1.subrange(0, a.len() as int) =~= a);
        }
    }
}

/// Framed messages sent one after another decode to their bodies, in
/// order, each with the offset just past its frame; decoding then goes on
/// with whatever follows the last frame.
pub proof fn law_frames_decode_in_order(jsons: Seq<Seq<u8>>, tail: Seq<u8>)
    requires
        forall|k: int| 0 <= k < jsons.len() ==> (#[trigger] jsons[k]).len() <= usize::MAX,
    ensures
        decode_from(frames(jsons) + tail, 0) == bodies_from(jsons, 0, 0) + decode_from(
            frames(jsons) + tail,
            frames(jsons).len() as int,
        ),
{
    assert(jsons.take(0) =~= Seq::<Seq<u8>>::empty());
    lemma_frames_decode_from(jsons, tail, 0);
}


/// Whole frames followed by a frame cut short decode to exactly the whole
/// frames' bodies, in order.
pub proof fn law_frames_then_partial(jsons: Seq<Seq<u8>>, last: Seq<u8>, m: int)
    requires
        forall|k: int| 0 <= k < jsons.len() ==> (#[trigger] jsons[k]).len() <= usize::MAX,
        last.len() <= usize::MAX,
        0 <= m < encode_spec(last).len(),
    ensures
        decode_from(frames(jsons) + encode_spec(last).take(m), 0) == bodies_from(jsons, 0, 0),
{
    let tail = encode_spec(last).take(m);
    law_frames_decode_in_order(jsons, tail);
    law_partial_frame_decodes_nothing(frames(jsons), last, m);
    assert(bodies_from(jsons, 0, 0) + Seq::<(Seq<u8>, nat)>::empty() =~= bodies_from(jsons, 0, 0));
}

} // verus!
