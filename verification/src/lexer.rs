//! The token stream of Petal source, with each token's character span.
//!
//! Source is indexed as characters. Strings (with their `{…}`
//! interpolations) and raw `"""` strings are single tokens; `//` comments
//! produce no token. JSX is recognised where a `<` directly followed by a
//! letter cannot be a comparison: an element's children are text and nested
//! elements until its closing tag.

use vstd::prelude::*;

verus! {

/// A lexical token.
#[derive(Debug, Clone)]
pub enum Token {
    Ident(String),
    Int,
    Float,
    String,
    Newline,
    Eof,
    Fn,
    End,
    If,
    Then,
    Else,
    Elsif,
    For,
    While,
    Do,
    When,
    Match,
    Enum,
    In,
    Let,
    Var,
    Return,
    True,
    False,
    Nil,
    And,
    Or,
    Import,
    Export,
    Break,
    Continue,
    State,
    LParen,
    RParen,
    LBracket,
    RBracket,
    LBrace,
    RBrace,
    Comma,
    Colon,
    Dot,
    DotDot,
    DotDotDot,
    Arrow,
    Assign,
    Eq,
    Ne,
    Lt,
    Le,
    Gt,
    Ge,
    Plus,
    Minus,
    Star,
    Slash,
    Percent,
    Bang,
    Pipe,
    At,
    DoubleQuestion,
    Op,
    JsxOpenStart,
    JsxTagName(String),
    JsxSelfClose,
    JsxCloseStart,
    JsxText,
}

/// A token's kind: the token itself, with the text of an identifier or a
/// tag name set aside (the text is the source under the token's span).
pub open spec fn kind_of(t: Token) -> Token {
    match t {
        Token::Ident(_) => Token::Ident(vstd::pervasive::arbitrary()),
        Token::JsxTagName(_) => Token::JsxTagName(vstd::pervasive::arbitrary()),
        _ => t,
    }
}

/// The kinds of a token list.
pub open spec fn kinds(ts: Seq<Token>) -> Seq<Token> {
    ts.map_values(|t: Token| kind_of(t))
}

/// The characters a token covers: `start..end`.
#[derive(Debug, Clone, Copy)]
pub struct TokenSpan {
    pub start: usize,
    pub end: usize,
}

/// Spans that lie in a text of `n` characters, in order, without overlap.
pub open spec fn spans_ordered(spans: Seq<TokenSpan>, n: int) -> bool {
    &&& forall|k: int| #![trigger spans[k]] 0 <= k < spans.len() ==> spans[k].start <= spans[k].end <= n
    &&& forall|k: int| #![trigger spans[k]] 0 < k < spans.len() ==> spans[k - 1].end <= spans[k].start
}

/// A tokenised source: the tokens and their spans, one span per token, the
/// last token `Eof`.
pub struct Lexed {
    pub tokens: Vec<Token>,
    pub spans: Vec<TokenSpan>,
}

/// Whether `c` is an ASCII letter.
pub open spec fn is_alpha(c: char) -> bool {
    ('a' <= c && c <= 'z') || ('A' <= c && c <= 'Z')
}

/// Whether `c` is an ASCII digit.
pub open spec fn is_digit(c: char) -> bool {
    '0' <= c && c <= '9'
}

fn alpha(c: char) -> (r: bool)
    ensures
        r == is_alpha(c),
{
    ('a' <= c && c <= 'z') || ('A' <= c && c <= 'Z')
}

fn digit(c: char) -> (r: bool)
    ensures
        r == is_digit(c),
{
    '0' <= c && c <= '9'
}

fn ident_char(c: char) -> (r: bool)
    ensures
        r == (is_alpha(c) || is_digit(c) || c == '_'),
{
    alpha(c) || digit(c) || c == '_'
}

/// The keyword token `word` spells, or `None` for any other word.
pub open spec fn keyword_token(word: Seq<char>) -> Option<Token> {
    if word == "fn"@ {
        Some(Token::Fn)
    } else if word == "end"@ {
        Some(Token::End)
    } else if word == "if"@ {
        Some(Token::If)
    } else if word == "then"@ {
        Some(Token::Then)
    } else if word == "else"@ {
        Some(Token::Else)
    } else if word == "elsif"@ {
        Some(Token::Elsif)
    } else if word == "for"@ {
        Some(Token::For)
    } else if word == "while"@ {
        Some(Token::While)
    } else if word == "do"@ {
        Some(Token::Do)
    } else if word == "when"@ {
        Some(Token::When)
    } else if word == "match"@ {
        Some(Token::Match)
    } else if word == "enum"@ {
        Some(Token::Enum)
    } else if word == "in"@ {
        Some(Token::In)
    } else if word == "let"@ {
        Some(Token::Let)
    } else if word == "var"@ {
        Some(Token::Var)
    } else if word == "return"@ {
        Some(Token::Return)
    } else if word == "true"@ {
        Some(Token::True)
    } else if word == "false"@ {
        Some(Token::False)
    } else if word == "nil"@ {
        Some(Token::Nil)
    } else if word == "and"@ {
        Some(Token::And)
    } else if word == "or"@ {
        Some(Token::Or)
    } else if word == "import"@ {
        Some(Token::Import)
    } else if word == "export"@ {
        Some(Token::Export)
    } else if word == "break"@ {
        Some(Token::Break)
    } else if word == "continue"@ {
        Some(Token::Continue)
    } else if word == "state"@ {
        Some(Token::State)
    } else {
        None
    }
}

/// The token for the word `word`: its keyword, or an identifier.
fn keyword(word: &[char]) -> (t: Token)
    ensures
        match keyword_token(word@) {
            Some(k) => t == k,
            None => t matches Token::Ident(name) && name@ == word@,
        },
{
    let w = crate::text::string_of(word);
    let s = w.as_str();
    if crate::text::str_eq(s, "fn") {
        Token::Fn
    } else if crate::text::str_eq(s, "end") {
        Token::End
    } else if crate::text::str_eq(s, "if") {
        Token::If
    } else if crate::text::str_eq(s, "then") {
        Token::Then
    } else if crate::text::str_eq(s, "else") {
        Token::Else
    } else if crate::text::str_eq(s, "elsif") {
        Token::Elsif
    } else if crate::text::str_eq(s, "for") {
        Token::For
    } else if crate::text::str_eq(s, "while") {
        Token::While
    } else if crate::text::str_eq(s, "do") {
        Token::Do
    } else if crate::text::str_eq(s, "when") {
        Token::When
    } else if crate::text::str_eq(s, "match") {
        Token::Match
    } else if crate::text::str_eq(s, "enum") {
        Token::Enum
    } else if crate::text::str_eq(s, "in") {
        Token::In
    } else if crate::text::str_eq(s, "let") {
        Token::Let
    } else if crate::text::str_eq(s, "var") {
        Token::Var
    } else if crate::text::str_eq(s, "return") {
        Token::Return
    } else if crate::text::str_eq(s, "true") {
        Token::True
    } else if crate::text::str_eq(s, "false") {
        Token::False
    } else if crate::text::str_eq(s, "nil") {
        Token::Nil
    } else if crate::text::str_eq(s, "and") {
        Token::And
    } else if crate::text::str_eq(s, "or") {
        Token::Or
    } else if crate::text::str_eq(s, "import") {
        Token::Import
    } else if crate::text::str_eq(s, "export") {
        Token::Export
    } else if crate::text::str_eq(s, "break") {
        Token::Break
    } else if crate::text::str_eq(s, "continue") {
        Token::Continue
    } else if crate::text::str_eq(s, "state") {
        Token::State
    } else {
        Token::Ident(w)
    }
}

/// Whether a `<` after this token is a comparison rather than the start of
/// an element: the token ends an operand.
fn ends_operand(t: &Token) -> (r: bool)
    ensures
        r == (t is Ident || t is Int || t is Float || t is String || t is RParen || t is RBracket
            || t is RBrace || t is End || t is True || t is False || t is Nil),
{
    match t {
        Token::Ident(_) | Token::Int | Token::Float | Token::String | Token::RParen
        | Token::RBracket | Token::RBrace | Token::End | Token::True | Token::False
        | Token::Nil => true,
        _ => false,
    }
}

/// A character of a tag name: a letter, digit, `_` or `-`.
pub open spec fn word_char(c: char) -> bool {
    is_alpha(c) || is_digit(c) || c == '_' || c == '-'
}

/// The end of the identifier-like run starting at `i`.
fn word_end(chars: &[char], i: usize) -> (j: usize)
    requires
        i <= chars.len(),
    ensures
        i <= j <= chars.len(),
        forall|k: int| i <= k < j ==> word_char(#[trigger] chars@[k]),
        j == chars.len() || !word_char(chars@[j as int]),
        j == word_run_end(chars@, i as int),
{
    let mut j = i;
    while j < chars.len() && (ident_char(chars[j]) || chars[j] == '-')
        invariant
            i <= j <= chars.len(),
            forall|k: int| i <= k < j ==> word_char(#[trigger] chars@[k]),
            word_run_end(chars@, i as int) == word_run_end(chars@, j as int),
        decreases chars.len() - j,
    {
        j = j + 1;
    }
    j
}

/// The first quote or line break at or after `j`, or the end.
pub open spec fn quote_or_break(chars: Seq<char>, j: int) -> int
    decreases chars.len() - j,
{
    if j < 0 || j >= chars.len() || chars[j] == '"' || chars[j] == '\n' {
        j
    } else {
        quote_or_break(chars, j + 1)
    }
}

/// The scan for a quote or a line break moves forward and stays in range.
pub proof fn lemma_quote_or_break(chars: Seq<char>, j: int)
    ensures
        quote_or_break(chars, j) >= j,
        0 <= j <= chars.len() ==> quote_or_break(chars, j) <= chars.len(),
    decreases chars.len() - j,
{
    if 0 <= j < chars.len() && chars[j] != '"' && chars[j] != '\n' {
        lemma_quote_or_break(chars, j + 1);
    }
}

/// Scanning a string body from `j` with `depth` interpolation braces open:
/// just past the closing quote, or `None` when a line break or the end
/// comes first. A backslash escapes the next character; inside an
/// interpolation a quote opens a nested string that runs to the next quote.
pub open spec fn string_scan(chars: Seq<char>, j: int, depth: int) -> Option<int>
    decreases chars.len() - j,
{
    if j < 0 || j >= chars.len() {
        None
    } else if chars[j] == '\n' {
        None
    } else if chars[j] == '\\' {
        if j + 1 < chars.len() {
            string_scan(chars, j + 2, depth)
        } else {
            None
        }
    } else if chars[j] == '"' {
        if depth == 0 {
            Some(j + 1)
        } else {
            let k = quote_or_break(chars, j + 1);
            proof {
                lemma_quote_or_break(chars, j + 1);
            }
            if k >= chars.len() || chars[k] == '\n' {
                None
            } else {
                string_scan(chars, k + 1, depth)
            }
        }
    } else if chars[j] == '{' {
        string_scan(chars, j + 1, if depth < usize::MAX { depth + 1 } else { depth })
    } else if chars[j] == '}' {
        string_scan(chars, j + 1, if depth > 0 { depth - 1 } else { depth })
    } else {
        string_scan(chars, j + 1, depth)
    }
}

/// The end of the string literal whose opening quote is at `i`, just past
/// its closing quote; `None` when it is not closed on its line. Braces
/// inside open an interpolation, in which a quote starts a nested string.
fn string_end(chars: &[char], i: usize) -> (r: Option<usize>)
    requires
        i < chars.len(),
    ensures
        r matches Some(j) ==> i < j <= chars.len(),
        r == match string_scan(chars@, i + 1, 0) {
            Some(k) => Some(k as usize),
            None => None::<usize>,
        },
{
    let mut j = i + 1;
    let mut depth: usize = 0;
    while j < chars.len()
        invariant
            i < j <= chars.len(),
            string_scan(chars@, i + 1, 0) == string_scan(chars@, j as int, depth as int),
        decreases chars.len() - j,
    {
        let c = chars[j];
        if c == '\n' {
            return None;
        } else if c == '\\' {
            if j + 1 < chars.len() {
                j = j + 2;
            } else {
                return None;
            }
        } else if c == '"' {
            if depth == 0 {
                return Some(j + 1);
            }
            j = j + 1;
            let ghost entry = j;
            proof {
                lemma_quote_or_break(chars@, entry as int);
            }
            while j < chars.len() && chars[j] != '"' && chars[j] != '\n'
                invariant
                    i < entry <= j <= chars.len(),
                    quote_or_break(chars@, entry as int) == quote_or_break(chars@, j as int),
                decreases chars.len() - j,
            {
                j = j + 1;
            }
            if j >= chars.len() || chars[j] == '\n' {
                return None;
            }
            j = j + 1;
        } else if c == '{' {
            if depth < usize::MAX {
                depth = depth + 1;
            }
            j = j + 1;
        } else if c == '}' {
            if depth > 0 {
                depth = depth - 1;
            }
            j = j + 1;
        } else {
            j = j + 1;
        }
    }
    None
}

/// Just past the first `"""` at or after `j`, or `None`.
pub open spec fn triple_quote_from(chars: Seq<char>, j: int) -> Option<int>
    decreases chars.len() - j,
{
    if 0 <= j && j + 3 <= chars.len() {
        if chars[j] == '"' && chars[j + 1] == '"' && chars[j + 2] == '"' {
            Some(j + 3)
        } else {
            triple_quote_from(chars, j + 1)
        }
    } else {
        None
    }
}

/// The end of the raw string whose `"""` starts at `i`, just past the
/// closing `"""`, or `None`.
fn raw_string_end(chars: &[char], i: usize) -> (r: Option<usize>)
    requires
        i + 3 <= chars.len(),
    ensures
        r matches Some(j) ==> i < j <= chars.len(),
        r == match triple_quote_from(chars@, i + 3) {
            Some(k) => Some(k as usize),
            None => None::<usize>,
        },
{
    let mut j = i + 3;
    while j < chars.len() && chars.len() - j >= 3
        invariant
            i + 3 <= j <= chars.len(),
            triple_quote_from(chars@, i + 3) == triple_quote_from(chars@, j as int),
        decreases chars.len() - j,
    {
        if chars[j] == '"' && chars[j + 1] == '"' && chars[j + 2] == '"' {
            return Some(j + 3);
        }
        j = j + 1;
    }
    None
}

/// The one-character punctuation token `c` spells, if any.
pub open spec fn punct_token(c: char) -> Option<Token> {
    if c == '(' {
        Some(Token::LParen)
    } else if c == ')' {
        Some(Token::RParen)
    } else if c == '[' {
        Some(Token::LBracket)
    } else if c == ']' {
        Some(Token::RBracket)
    } else if c == ',' {
        Some(Token::Comma)
    } else if c == ':' {
        Some(Token::Colon)
    } else if c == '+' {
        Some(Token::Plus)
    } else if c == '-' {
        Some(Token::Minus)
    } else if c == '*' {
        Some(Token::Star)
    } else if c == '/' {
        Some(Token::Slash)
    } else if c == '%' {
        Some(Token::Percent)
    } else if c == '!' {
        Some(Token::Bang)
    } else if c == '|' {
        Some(Token::Pipe)
    } else if c == '@' {
        Some(Token::At)
    } else if c == '=' {
        Some(Token::Assign)
    } else {
        None
    }
}

/// The one-character punctuation token for `c`, or `None`.
fn punct(c: char) -> (t: Option<Token>)
    ensures
        t == punct_token(c),
{
    if c == '(' {
        Some(Token::LParen)
    } else if c == ')' {
        Some(Token::RParen)
    } else if c == '[' {
        Some(Token::LBracket)
    } else if c == ']' {
        Some(Token::RBracket)
    } else if c == ',' {
        Some(Token::Comma)
    } else if c == ':' {
        Some(Token::Colon)
    } else if c == '+' {
        Some(Token::Plus)
    } else if c == '-' {
        Some(Token::Minus)
    } else if c == '*' {
        Some(Token::Star)
    } else if c == '/' {
        Some(Token::Slash)
    } else if c == '%' {
        Some(Token::Percent)
    } else if c == '!' {
        Some(Token::Bang)
    } else if c == '|' {
        Some(Token::Pipe)
    } else if c == '@' {
        Some(Token::At)
    } else if c == '=' {
        Some(Token::Assign)
    } else {
        None
    }
}

/// The 1-based line that character `i` is on (counted up to `u64::MAX`).
pub open spec fn line_at(chars: Seq<char>, i: int) -> u64
    decreases i,
{
    if i <= 0 {
        1
    } else if chars[i - 1] == '\n' && line_at(chars, i - 1) < u64::MAX {
        (line_at(chars, i - 1) + 1) as u64
    } else {
        line_at(chars, i - 1)
    }
}

/// The message for a failure `what` at character `i`.
pub open spec fn error_text(chars: Seq<char>, i: int, what: Seq<char>) -> Seq<char> {
    what + " at line "@ + crate::text::decimal(line_at(chars, i) as nat)
}

/// A lexing failure at character `i`: the 1-based line it is on.
fn error_at(chars: &[char], i: usize, what: &str) -> (e: String)
    requires
        i <= chars.len(),
    ensures
        e@ == error_text(chars@, i as int, what@),
{
    let mut line: u64 = 1;
    let mut k: usize = 0;
    while k < i
        invariant
            k <= i <= chars.len(),
            line == line_at(chars@, k as int),
        decreases i - k,
    {
        if chars[k] == '\n' && line < u64::MAX {
            line = line + 1;
        }
        k = k + 1;
    }
    let mut e = crate::text::string_from(what);
    crate::text::push_str(&mut e, " at line ");
    let digits = crate::text::decimal_chars(line);
    crate::text::push_chars(&mut e, digits.as_slice());
    e
}

proof fn lemma_push_span(spans: Seq<TokenSpan>, start: int, end: int)
    requires
        spans_ordered(spans, start),
        start <= end,
    ensures
        forall|s: usize, e: usize|
            s == start && e == end ==> spans_ordered(
                #[trigger] spans.push(TokenSpan { start: s, end: e }),
                end,
            ),
{
    assert forall|s: usize, e: usize| s == start && e == end implies spans_ordered(
        #[trigger] spans.push(TokenSpan { start: s, end: e }),
        end,
    ) by {
        let t = spans.push(TokenSpan { start: s, end: e });
        assert forall|k: int| #![trigger t[k]] 0 < k < t.len() implies t[k - 1].end <= t[k].start by {
            if k < spans.len() {
                assert(t[k - 1] == spans[k - 1] && t[k] == spans[k]);
            } else {
                assert(t[k - 1] == spans[k - 1]);
                assert(spans[k - 1].start <= spans[k - 1].end <= start);
            }
        }
    }
}

/// Whether `i` opens a raw string: `"""`.
pub open spec fn opens_raw(chars: Seq<char>, i: int) -> bool {
    chars.len() - i >= 3 && chars[i] == '"' && chars[i + 1] == '"' && chars[i + 2] == '"'
}

/// A quote at `i` opening a string that does not close: a raw string
/// without its closing `"""`, or an ordinary one not closed on its line.
pub open spec fn opens_unterminated(chars: Seq<char>, i: int) -> bool {
    &&& 0 <= i < chars.len()
    &&& chars[i] == '"'
    &&& if opens_raw(chars, i) {
        triple_quote_from(chars, i + 3) is None
    } else {
        string_scan(chars, i + 1, 0) is None
    }
}

/// The error for the unterminated string opened at `i`.
pub open spec fn unterminated_message(chars: Seq<char>, i: int) -> Seq<char> {
    error_text(
        chars,
        i,
        if opens_raw(chars, i) {
            "unterminated raw string"@
        } else {
            "unterminated string"@
        },
    )
}

/// The end of the JSX text run from `j`: up to a `<`, `{` or line break.
pub open spec fn text_run_end(chars: Seq<char>, j: int) -> int
    decreases chars.len() - j,
{
    if 0 <= j < chars.len() && chars[j] != '<' && chars[j] != '{' && chars[j] != '\n' {
        text_run_end(chars, j + 1)
    } else {
        j
    }
}

/// The end of the run of tag-name characters from `j`.
pub open spec fn word_run_end(chars: Seq<char>, j: int) -> int
    decreases chars.len() - j,
{
    if 0 <= j < chars.len() && word_char(chars[j]) {
        word_run_end(chars, j + 1)
    } else {
        j
    }
}

/// A character of an identifier: a letter, digit or `_`.
pub open spec fn ident_char_spec(c: char) -> bool {
    is_alpha(c) || is_digit(c) || c == '_'
}

/// The end of the run of identifier characters from `j`.
pub open spec fn ident_run_end(chars: Seq<char>, j: int) -> int
    decreases chars.len() - j,
{
    if 0 <= j < chars.len() && ident_char_spec(chars[j]) {
        ident_run_end(chars, j + 1)
    } else {
        j
    }
}

/// The end of the line from `j`: the next line break, or the end.
pub open spec fn line_run_end(chars: Seq<char>, j: int) -> int
    decreases chars.len() - j,
{
    if 0 <= j < chars.len() && chars[j] != '\n' {
        line_run_end(chars, j + 1)
    } else {
        j
    }
}

/// The end of the number from `j` and whether it has a fraction: digits
/// and `_`, and one `.` that a digit follows.
pub open spec fn number_run(chars: Seq<char>, j: int, float: bool) -> (int, bool)
    decreases chars.len() - j,
{
    if 0 <= j < chars.len() && (is_digit(chars[j]) || chars[j] == '_' || (chars[j] == '.' && !float
        && j + 1 < chars.len() && is_digit(chars[j + 1]))) {
        number_run(chars, j + 1, float || chars[j] == '.')
    } else {
        (j, float)
    }
}

/// The run scans move forward and stay in range.
pub proof fn lemma_runs(chars: Seq<char>, j: int, float: bool)
    requires
        0 <= j <= chars.len(),
    ensures
        j <= text_run_end(chars, j) <= chars.len(),
        j <= word_run_end(chars, j) <= chars.len(),
        j <= ident_run_end(chars, j) <= chars.len(),
        j <= line_run_end(chars, j) <= chars.len(),
        j <= number_run(chars, j, float).0 <= chars.len(),
    decreases chars.len() - j,
{
    if j < chars.len() {
        lemma_runs(chars, j + 1, float);
        lemma_runs(chars, j + 1, true);
    }
}

/// A closed string ends past its start and within the text.
pub proof fn lemma_string_scan(chars: Seq<char>, j: int, depth: int)
    requires
        0 <= j,
    ensures
        string_scan(chars, j, depth) matches Some(k) ==> j < k <= chars.len(),
    decreases chars.len() - j,
{
    if j < chars.len() {
        let c = chars[j];
        if c == '\n' {
        } else if c == '\\' {
            if j + 1 < chars.len() {
                lemma_string_scan(chars, j + 2, depth);
            }
        } else if c == '"' {
            if depth != 0 {
                lemma_quote_or_break(chars, j + 1);
                let k = quote_or_break(chars, j + 1);
                if k < chars.len() && chars[k] != '\n' {
                    lemma_string_scan(chars, k + 1, depth);
                }
            }
        } else if c == '{' {
            lemma_string_scan(chars, j + 1, if depth < usize::MAX { depth + 1 } else { depth });
        } else if c == '}' {
            lemma_string_scan(chars, j + 1, if depth > 0 { depth - 1 } else { depth });
        } else {
            lemma_string_scan(chars, j + 1, depth);
        }
    }
}

/// A closed raw string ends past its start and within the text.
pub proof fn lemma_triple_quote(chars: Seq<char>, j: int)
    requires
        0 <= j,
    ensures
        triple_quote_from(chars, j) matches Some(k) ==> j < k <= chars.len(),
    decreases chars.len() - j,
{
    if j + 3 <= chars.len() {
        lemma_triple_quote(chars, j + 1);
    }
}

/// Whether a `<` after this token is a comparison: the token ends an
/// operand.
pub open spec fn ends_operand_spec(t: Token) -> bool {
    t is Ident || t is Int || t is Float || t is String || t is RParen || t is RBracket || t is RBrace
        || t is End || t is True || t is False || t is Nil
}

/// The lexer's position and mode: `(i, brace, in_tag, tag_brace, closing,
/// elements, operand)`. `brace` is the brace depth of the code; `in_tag`
/// holds inside `<tag …>` or `</tag>`, opened at depth `tag_brace`,
/// `closing` for a closing tag; `elements` holds, for each open element,
/// the brace depth of its children; `operand` is whether the last token
/// ends an operand.
pub type LexState = (int, usize, bool, usize, bool, Seq<usize>, bool);

/// The mode part of a lexer state after one step: `(i, brace, in_tag,
/// tag_brace, closing, elements)`.
pub type LexMode = (int, usize, bool, usize, bool, Seq<usize>);

/// One step of the lexer at `st`: whether it could lex on, the token it
/// makes (none for whitespace and comments), and the mode after it.
pub open spec fn lex_move(chars: Seq<char>, st: LexState) -> (bool, Option<Token>, LexMode) {
    let n = chars.len() as int;
    let i = st.0;
    let brace = st.1;
    let in_tag = st.2;
    let tag_brace = st.3;
    let closing = st.4;
    let elements = st.5;
    let c = chars[i];
    let up = if brace < usize::MAX { (brace + 1) as usize } else { brace };
    let same: LexMode = (i + 1, brace, in_tag, tag_brace, closing, elements);
    if !in_tag && elements.len() > 0 && brace == elements.last() {
        if c == '<' && i + 1 < n && chars[i + 1] == '/' {
            (true, Some(Token::JsxCloseStart), (i + 2, brace, true, brace, true, elements))
        } else if c == '<' && i + 1 < n && is_alpha(chars[i + 1]) {
            (true, Some(Token::JsxOpenStart), (i + 1, brace, true, brace, false, elements))
        } else if c == '{' {
            (true, Some(Token::LBrace), (i + 1, up, in_tag, tag_brace, closing, elements))
        } else if c == '\n' {
            (true, Some(Token::Newline), same)
        } else if c == ' ' || c == '\t' || c == '\r' {
            (true, None, same)
        } else {
            let j = text_run_end(chars, i);
            (true, Some(Token::JsxText), (if j == i { i + 1 } else { j }, brace, in_tag, tag_brace, closing, elements))
        }
    } else if in_tag && i > 0 && (chars[i - 1] == '<' || chars[i - 1] == '/') && is_alpha(c) {
        let j = word_run_end(chars, i);
        (true, Some(Token::JsxTagName(vstd::pervasive::arbitrary())), (if j > i { j } else { i + 1 }, brace, in_tag, tag_brace, closing, elements))
    } else if in_tag && brace == tag_brace && c == '>' {
        let els = if closing {
            if elements.len() > 0 { elements.drop_last() } else { elements }
        } else {
            elements.push(brace)
        };
        (true, Some(Token::Gt), (i + 1, brace, false, tag_brace, closing, els))
    } else if in_tag && brace == tag_brace && c == '/' && i + 1 < n && chars[i + 1] == '>' {
        (true, Some(Token::JsxSelfClose), (i + 2, brace, false, tag_brace, closing, elements))
    } else if c == ' ' || c == '\t' || c == '\r' {
        (true, None, same)
    } else if c == '\n' {
        (true, Some(Token::Newline), same)
    } else if c == '/' && i + 1 < n && chars[i + 1] == '/' {
        (true, None, (line_run_end(chars, i), brace, in_tag, tag_brace, closing, elements))
    } else if c == '"' {
        if opens_raw(chars, i) {
            match triple_quote_from(chars, i + 3) {
                Some(j) => (true, Some(Token::String), (j, brace, in_tag, tag_brace, closing, elements)),
                None => (false, None, same),
            }
        } else {
            match string_scan(chars, i + 1, 0) {
                Some(j) => (true, Some(Token::String), (j, brace, in_tag, tag_brace, closing, elements)),
                None => (false, None, same),
            }
        }
    } else if is_digit(c) {
        let r = number_run(chars, i, false);
        (true, Some(if r.1 { Token::Float } else { Token::Int }), (if r.0 > i { r.0 } else { i + 1 }, brace, in_tag, tag_brace, closing, elements))
    } else if is_alpha(c) || c == '_' {
        let j = ident_run_end(chars, i);
        let t = match keyword_token(chars.subrange(i, j)) {
            Some(k) => k,
            None => Token::Ident(vstd::pervasive::arbitrary()),
        };
        (true, Some(t), (if j > i { j } else { i + 1 }, brace, in_tag, tag_brace, closing, elements))
    } else if c == '{' {
        (true, Some(Token::LBrace), (i + 1, up, in_tag, tag_brace, closing, elements))
    } else if c == '}' {
        (true, Some(Token::RBrace), (i + 1, if brace > 0 { (brace - 1) as usize } else { brace }, in_tag, tag_brace, closing, elements))
    } else if c == '-' && i + 1 < n && chars[i + 1] == '>' {
        (true, Some(Token::Arrow), (i + 2, brace, in_tag, tag_brace, closing, elements))
    } else if c == '=' && i + 1 < n && chars[i + 1] == '=' {
        (true, Some(Token::Eq), (i + 2, brace, in_tag, tag_brace, closing, elements))
    } else if c == '!' && i + 1 < n && chars[i + 1] == '=' {
        (true, Some(Token::Ne), (i + 2, brace, in_tag, tag_brace, closing, elements))
    } else if c == '>' && i + 1 < n && chars[i + 1] == '=' {
        (true, Some(Token::Ge), (i + 2, brace, in_tag, tag_brace, closing, elements))
    } else if c == '<' && i + 1 < n && chars[i + 1] == '=' {
        (true, Some(Token::Le), (i + 2, brace, in_tag, tag_brace, closing, elements))
    } else if c == '?' && i + 1 < n && chars[i + 1] == '?' {
        (true, Some(Token::DoubleQuestion), (i + 2, brace, in_tag, tag_brace, closing, elements))
    } else if c == '.' {
        if n - i > 2 && chars[i + 1] == '.' && chars[i + 2] == '.' {
            (true, Some(Token::DotDotDot), (i + 3, brace, in_tag, tag_brace, closing, elements))
        } else if i + 1 < n && chars[i + 1] == '.' {
            (true, Some(Token::DotDot), (i + 2, brace, in_tag, tag_brace, closing, elements))
        } else {
            (true, Some(Token::Dot), same)
        }
    } else if c == '>' {
        (true, Some(Token::Gt), same)
    } else if c == '<' {
        if !st.6 && i + 1 < n && is_alpha(chars[i + 1]) {
            (true, Some(Token::JsxOpenStart), (i + 1, brace, true, brace, false, elements))
        } else {
            (true, Some(Token::Lt), same)
        }
    } else {
        (true, Some(match punct_token(c) {
            Some(t) => t,
            None => Token::Op,
        }), same)
    }
}

/// One step moves forward and stays within the text.
pub proof fn lemma_lex_move(chars: Seq<char>, st: LexState)
    requires
        0 <= st.0 < chars.len(),
    ensures
        lex_move(chars, st).0 ==> st.0 < lex_move(chars, st).2.0 <= chars.len(),
{
    lemma_runs(chars, st.0, false);
    lemma_runs(chars, st.0 + 1, false);
    lemma_string_scan(chars, st.0 + 1, 0);
    lemma_triple_quote(chars, st.0 + 3);
}

/// The lexer state after a step that made `tok` (or none).
pub open spec fn next_state(m: LexMode, tok: Option<Token>, operand: bool) -> LexState {
    (m.0, m.1, m.2, m.3, m.4, m.5, match tok {
        Some(t) => ends_operand_spec(t),
        None => operand,
    })
}

/// The tokens (as kinds) with their spans that lexing from `st` makes,
/// ending with `Eof` at the end of the text; `false` when a string does
/// not close.
pub open spec fn lex_from(chars: Seq<char>, st: LexState) -> (bool, Seq<(Token, int, int)>)
    decreases chars.len() - st.0,
{
    if st.0 < 0 || st.0 >= chars.len() {
        (true, seq![(Token::Eof, chars.len() as int, chars.len() as int)])
    } else {
        let m = lex_move(chars, st);
        proof {
            lemma_lex_move(chars, st);
        }
        if !m.0 {
            (false, Seq::empty())
        } else {
            let rest = lex_from(chars, next_state(m.2, m.1, st.6));
            match m.1 {
                Some(t) => (rest.0, seq![(t, st.0, m.2.0)] + rest.1),
                None => rest,
            }
        }
    }
}

/// Lexing `src` from its start.
pub open spec fn lex(src: Seq<char>) -> (bool, Seq<(Token, int, int)>) {
    lex_from(src, (0, 0, false, 0, false, Seq::empty(), false))
}

/// Whether `src` lexes: every string in it closes.
pub open spec fn lexes(src: Seq<char>) -> bool {
    lex(src).0
}

/// The kinds of the tokens of `src`.
pub open spec fn lex_tokens(src: Seq<char>) -> Seq<Token> {
    lex(src).1.map_values(|it: (Token, int, int)| it.0)
}

/// The spans of the tokens of `src`.
pub open spec fn lex_spans(src: Seq<char>) -> Seq<TokenSpan> {
    lex(src).1.map_values(|it: (Token, int, int)| TokenSpan { start: it.1 as usize, end: it.2 as usize })
}

/// Tokens with their spans, as kinds with integer spans.
pub open spec fn lexed_items(tokens: Seq<Token>, spans: Seq<TokenSpan>) -> Seq<(Token, int, int)> {
    Seq::new(tokens.len(), |k: int| (kind_of(tokens[k]), spans[k].start as int, spans[k].end as int))
}

/// An identifier's or a tag name's text is the source under its span.
pub open spec fn texts_match(tokens: Seq<Token>, spans: Seq<TokenSpan>, src: Seq<char>) -> bool {
    forall|k: int| 0 <= k < tokens.len() ==> match #[trigger] tokens[k] {
        Token::Ident(s) => s@ == src.subrange(spans[k].start as int, spans[k].end as int),
        Token::JsxTagName(s) => s@ == src.subrange(spans[k].start as int, spans[k].end as int),
        _ => true,
    }
}

/// Tokens and spans whose items are those of [`lex`] have the lexed kinds
/// and exactly the lexed spans.
proof fn lemma_items_fix_tokens(tokens: Seq<Token>, spans: Seq<TokenSpan>, src: Seq<char>)
    requires
        tokens.len() == spans.len(),
        lexed_items(tokens, spans) == lex(src).1,
    ensures
        kinds(tokens) == kinds(lex_tokens(src)),
        spans == lex_spans(src),
{
    let items = lex(src).1;
    assert(lexed_items(tokens, spans).len() == items.len());
    assert forall|k: int| 0 <= k < tokens.len() implies kind_of(#[trigger] tokens[k]) == kind_of(lex_tokens(src)[k]) by {
        assert(lexed_items(tokens, spans)[k] == items[k]);
        assert(lex_tokens(src)[k] == items[k].0);
        assert(kind_of(kind_of(tokens[k])) == kind_of(tokens[k]));
    }
    assert(kinds(tokens) =~= kinds(lex_tokens(src)));
    assert forall|k: int| 0 <= k < spans.len() implies #[trigger] spans[k] == lex_spans(src)[k] by {
        assert(lexed_items(tokens, spans)[k] == items[k]);
    }
    assert(spans =~= lex_spans(src));
}

/// The tokens of `source` with their spans, or what could not be lexed.
/// The tokens' kinds and spans are exactly those of [`lex`]; an
/// identifier's or tag name's text is the source under its span; lexing
/// fails exactly when a string does not close, and says where.
#[verifier::rlimit(100)]
pub fn tokenize(source: &str) -> (r: Result<Lexed, String>)
    ensures
        r is Ok <==> lexes(source@),
        r matches Ok(l) ==> {
            &&& l.tokens@.len() == l.spans@.len()
            &&& l.tokens@.len() > 0
            &&& l.tokens@.last() is Eof
            &&& spans_ordered(l.spans@, source@.len() as int)
            &&& lexed_items(l.tokens@, l.spans@) == lex(source@).1
            &&& kinds(l.tokens@) == kinds(lex_tokens(source@))
            &&& l.spans@ == lex_spans(source@)
            &&& texts_match(l.tokens@, l.spans@, source@)
        },
        r matches Err(e) ==> exists|i: int| #[trigger] opens_unterminated(source@, i) && e@ == unterminated_message(source@, i),
{
    let chars = crate::text::chars_of(source);
    let n = chars.len();
    let mut tokens: Vec<Token> = Vec::new();
    let mut spans: Vec<TokenSpan> = Vec::new();
    // Brace depth of the code being lexed.
    let mut brace: usize = 0;
    // Inside `<tag …>` or `</tag>`: the brace depth the tag opened at, and
    // whether it closes an element.
    let mut in_tag = false;
    let mut tag_brace: usize = 0;
    let mut closing = false;
    // For each open element, the brace depth its children are at.
    let mut elements: Vec<usize> = Vec::new();
    let mut i: usize = 0;
    proof {
        assert(lexed_items(tokens@, spans@) + lex(source@).1 =~= lex(source@).1);
    }
    while i < n
        invariant
            n == chars@.len(),
            n == source@.len(),
            chars@ == source@,
            i <= n,
            tokens@.len() == spans@.len(),
            spans_ordered(spans@, i as int),
            texts_match(tokens@, spans@, source@),
            lex(source@) == ({
                let rest = lex_from(
                    chars@,
                    (i as int, brace, in_tag, tag_brace, closing, elements@, tokens@.len() > 0
                        && ends_operand_spec(tokens@.last())),
                );
                (rest.0, lexed_items(tokens@, spans@) + rest.1)
            }),
        decreases n - i,
    {
        let ghost cur: LexState = (i as int, brace, in_tag, tag_brace, closing, elements@, tokens@.len() > 0
            && ends_operand_spec(tokens@.last()));
        let c = chars[i];
        let children = !in_tag && elements.len() > 0 && brace == elements[elements.len() - 1];
        let start = i;
        let mut tok: Option<Token> = None;
        proof {
            lemma_runs(chars@, i as int, false);
            lemma_runs(chars@, i as int + 1, false);
        }
        if children {
            if c == '<' && i + 1 < n && chars[i + 1] == '/' {
                tok = Some(Token::JsxCloseStart);
                i = i + 2;
                in_tag = true;
                closing = true;
                tag_brace = brace;
            } else if c == '<' && i + 1 < n && alpha(chars[i + 1]) {
                tok = Some(Token::JsxOpenStart);
                i = i + 1;
                in_tag = true;
                closing = false;
                tag_brace = brace;
            } else if c == '{' {
                tok = Some(Token::LBrace);
                if brace < usize::MAX {
                    brace = brace + 1;
                }
                i = i + 1;
            } else if c == '\n' {
                tok = Some(Token::Newline);
                i = i + 1;
            } else if c == ' ' || c == '\t' || c == '\r' {
                i = i + 1;
            } else {
                let mut j = i;
                while j < n && chars[j] != '<' && chars[j] != '{' && chars[j] != '\n'
                    invariant
                        i <= j <= n,
                        n == chars@.len(),
                        text_run_end(chars@, i as int) == text_run_end(chars@, j as int),
                    decreases n - j,
                {
                    j = j + 1;
                }
                proof {
                    assert(text_run_end(chars@, j as int) == j as int);
                }
                if j == i {
                    j = i + 1;
                }
                tok = Some(Token::JsxText);
                i = j;
                proof { assert(lex_move(chars@, cur).2.0 == i as int); }
            }
        } else if in_tag && i > 0 && (chars[i - 1] == '<' || chars[i - 1] == '/') && alpha(c) {
            let j = word_end(chars.as_slice(), i);
            let name = crate::text::slice_chars(chars.as_slice(), i, j);
            tok = Some(Token::JsxTagName(crate::text::string_of(name.as_slice())));
            i = if j > i { j } else { i + 1 };
            proof { assert(lex_move(chars@, cur).2.0 == i as int); }
        } else if in_tag && brace == tag_brace && c == '>' {
            tok = Some(Token::Gt);
            i = i + 1;
            in_tag = false;
            if closing {
                elements.pop();
            } else {
                elements.push(brace);
            }
        } else if in_tag && brace == tag_brace && c == '/' && i + 1 < n && chars[i + 1] == '>' {
            tok = Some(Token::JsxSelfClose);
            i = i + 2;
            in_tag = false;
        } else if c == ' ' || c == '\t' || c == '\r' {
            i = i + 1;
        } else if c == '\n' {
            tok = Some(Token::Newline);
            i = i + 1;
        } else if c == '/' && i + 1 < n && chars[i + 1] == '/' {
            while i < n && chars[i] != '\n'
                invariant
                    start <= i <= n,
                    n == chars@.len(),
                    line_run_end(chars@, start as int) == line_run_end(chars@, i as int),
                decreases n - i,
            {
                i = i + 1;
            }
            proof {
                assert(line_run_end(chars@, i as int) == i as int);
                assert(lex_move(chars@, cur).2.0 == i as int);
            }
        } else if c == '"' {
            proof {
                lemma_string_scan(chars@, i + 1, 0);
                if i + 3 <= n {
                    lemma_triple_quote(chars@, i + 3);
                }
            }
            if n - i >= 3 && chars[i + 1] == '"' && chars[i + 2] == '"' {
                match raw_string_end(chars.as_slice(), i) {
                    Some(j) => {
                        tok = Some(Token::String);
                        i = j;
                        proof { assert(lex_move(chars@, cur).2.0 == i as int); }
                    },
                    None => {
                        let e = error_at(chars.as_slice(), i, "unterminated raw string");
                        proof {
                            assert(opens_unterminated(source@, i as int));
                        }
                        return Err(e);
                    },
                }
            } else {
                match string_end(chars.as_slice(), i) {
                    Some(j) => {
                        tok = Some(Token::String);
                        i = j;
                        proof { assert(lex_move(chars@, cur).2.0 == i as int); }
                    },
                    None => {
                        let e = error_at(chars.as_slice(), i, "unterminated string");
                        proof {
                            assert(!opens_raw(source@, i as int));
                            assert(opens_unterminated(source@, i as int));
                        }
                        return Err(e);
                    },
                }
            }
        } else if digit(c) {
            let mut j = i;
            let mut float = false;
            while j < n && (digit(chars[j]) || chars[j] == '_' || (chars[j] == '.' && !float && j
                + 1 < n && digit(chars[j + 1])))
                invariant
                    i <= j <= n,
                    n == chars@.len(),
                    number_run(chars@, i as int, false) == number_run(chars@, j as int, float),
                decreases n - j,
            {
                if chars[j] == '.' {
                    float = true;
                }
                j = j + 1;
            }
            proof {
                assert(number_run(chars@, j as int, float) == (j as int, float));
            }
            tok = Some(
                if float {
                    Token::Float
                } else {
                    Token::Int
                },
            );
            i = if j > i { j } else { i + 1 };
            proof { assert(lex_move(chars@, cur).2.0 == i as int); }
        } else if alpha(c) || c == '_' {
            let mut j = i + 1;
            while j < n && ident_char(chars[j])
                invariant
                    i < j <= n,
                    n == chars@.len(),
                    ident_run_end(chars@, i as int) == ident_run_end(chars@, j as int),
                decreases n - j,
            {
                j = j + 1;
            }
            proof {
                assert(ident_run_end(chars@, j as int) == j as int);
                assert(ident_run_end(chars@, i as int) == ident_run_end(chars@, i + 1));
            }
            let word = crate::text::slice_chars(chars.as_slice(), i, j);
            tok = Some(keyword(word.as_slice()));
            i = if j > i { j } else { i + 1 };
            proof { assert(lex_move(chars@, cur).2.0 == i as int); }
        } else if c == '{' {
            tok = Some(Token::LBrace);
            if brace < usize::MAX {
                brace = brace + 1;
            }
            i = i + 1;
        } else if c == '}' {
            tok = Some(Token::RBrace);
            if brace > 0 {
                brace = brace - 1;
            }
            i = i + 1;
        } else if c == '-' && i + 1 < n && chars[i + 1] == '>' {
            tok = Some(Token::Arrow);
            i = i + 2;
        } else if c == '=' && i + 1 < n && chars[i + 1] == '=' {
            tok = Some(Token::Eq);
            i = i + 2;
        } else if c == '!' && i + 1 < n && chars[i + 1] == '=' {
            tok = Some(Token::Ne);
            i = i + 2;
        } else if c == '>' && i + 1 < n && chars[i + 1] == '=' {
            tok = Some(Token::Ge);
            i = i + 2;
        } else if c == '<' && i + 1 < n && chars[i + 1] == '=' {
            tok = Some(Token::Le);
            i = i + 2;
        } else if c == '?' && i + 1 < n && chars[i + 1] == '?' {
            tok = Some(Token::DoubleQuestion);
            i = i + 2;
        } else if c == '.' {
            if n - i > 2 && chars[i + 1] == '.' && chars[i + 2] == '.' {
                tok = Some(Token::DotDotDot);
                i = i + 3;
            } else if i + 1 < n && chars[i + 1] == '.' {
                tok = Some(Token::DotDot);
                i = i + 2;
            } else {
                tok = Some(Token::Dot);
                i = i + 1;
            }
        } else if c == '>' {
            tok = Some(Token::Gt);
            i = i + 1;
        } else if c == '<' {
            let operand = tokens.len() > 0 && ends_operand(&tokens[tokens.len() - 1]);
            if !operand && i + 1 < n && alpha(chars[i + 1]) {
                tok = Some(Token::JsxOpenStart);
                in_tag = true;
                closing = false;
                tag_brace = brace;
            } else {
                tok = Some(Token::Lt);
            }
            i = i + 1;
        } else {
            tok = Some(
                match punct(c) {
                    Some(t) => t,
                    None => Token::Op,
                },
            );
            i = i + 1;
        }
        let ghost kind: Option<Token> = match &tok {
            Some(t) => Some(kind_of(*t)),
            None => None,
        };
        proof {
            let m = lex_move(chars@, cur);
            assert(m.0);
            assert(m.1 == kind);
            assert(m.2 =~~= (i as int, brace, in_tag, tag_brace, closing, elements@));
        }
        match tok {
            Some(t) => {
                proof {
                    lemma_push_span(spans@, start as int, i as int);
                }
                let ghost before_t = tokens@;
                let ghost before_s = spans@;
                tokens.push(t);
                spans.push(TokenSpan { start, end: i });
                proof {
                    assert(lexed_items(tokens@, spans@) =~= lexed_items(before_t, before_s).push(
                        (kind_of(t), start as int, i as int),
                    ));
                    assert forall|k: int| 0 <= k < tokens@.len() implies match #[trigger] tokens@[k] {
                        Token::Ident(s) => s@ == source@.subrange(spans@[k].start as int, spans@[k].end as int),
                        Token::JsxTagName(s) => s@ == source@.subrange(spans@[k].start as int, spans@[k].end as int),
                        _ => true,
                    } by {
                        if k < before_t.len() {
                            assert(tokens@[k] == before_t[k]);
                            assert(spans@[k] == before_s[k]);
                        }
                    }
                    assert(ends_operand_spec(kind_of(t)) == ends_operand_spec(t));
                }
            },
            None => {},
        }
        proof {
            let m = lex_move(chars@, cur);
            let rest = lex_from(chars@, next_state(m.2, m.1, cur.6));
            assert(lex_from(chars@, cur) == match m.1 {
                Some(t) => (rest.0, seq![(t, cur.0, m.2.0)] + rest.1),
                None => rest,
            });
            let done = lexed_items(tokens@, spans@);
            match m.1 {
                Some(t) => {
                    let prev = done.drop_last();
                    assert(prev + (seq![(t, cur.0, m.2.0)] + rest.1) =~= done + rest.1);
                },
                None => {},
            }
        }
    }
    proof {
        lemma_push_span(spans@, n as int, n as int);
    }
    let ghost before_t = tokens@;
    let ghost before_s = spans@;
    tokens.push(Token::Eof);
    spans.push(TokenSpan { start: n, end: n });
    proof {
        assert(lexed_items(tokens@, spans@) =~= lexed_items(before_t, before_s).push(
            (Token::Eof, n as int, n as int),
        ));
        assert forall|k: int| 0 <= k < tokens@.len() implies match #[trigger] tokens@[k] {
            Token::Ident(s) => s@ == source@.subrange(spans@[k].start as int, spans@[k].end as int),
            Token::JsxTagName(s) => s@ == source@.subrange(spans@[k].start as int, spans@[k].end as int),
            _ => true,
        } by {
            if k < before_t.len() {
                assert(tokens@[k] == before_t[k]);
                assert(spans@[k] == before_s[k]);
            }
        }
        assert(lexed_items(tokens@, spans@) == lex(source@).1);
        lemma_items_fix_tokens(tokens@, spans@, source@);
    }
    Ok(Lexed { tokens, spans })
}

} // verus!
