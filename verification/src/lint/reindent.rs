//! Token-driven 2-space re-indentation.

use vstd::prelude::*;
use crate::lexer::{kinds, spans_ordered, tokenize, Token, TokenSpan};
use crate::text::{chars_of, is_whitespace, is_ws};

verus! {

/// Every character of `s` is whitespace.
pub open spec fn all_ws(s: Seq<char>) -> bool {
    forall|i: int| 0 <= i < s.len() ==> is_ws(#[trigger] s[i])
}

/// `n` spaces.
pub open spec fn spaces(n: nat) -> Seq<char> {
    Seq::new(n, |i: int| ' ')
}

/// `table` splits `s` at its newlines: line `i` is `s[table[i].0 ..
/// table[i].1]`, the newline at `table[i].1` ends it, and the last line runs
/// to the end of `s`.
pub open spec fn line_table(s: Seq<char>, table: Seq<(int, int)>) -> bool {
    &&& table.len() >= 1
    &&& table[0].0 == 0
    &&& table.last().1 == s.len()
    &&& forall|i: int| #![trigger table[i]] 0 <= i < table.len() ==> 0 <= table[i].0 <= table[i].1 <= s.len()
    &&& forall|i: int| #![trigger table[i]] 0 <= i < table.len() - 1 ==> s[table[i].1] == '\n' && table[i + 1].0 == table[i].1 + 1
    &&& forall|i: int, j: int| #![trigger table[i], s[j]] 0 <= i < table.len() && table[i].0 <= j < table[i].1 ==> s[j] != '\n'
}

/// An output line is its source line verbatim, a blank for a blank line, or
/// the line's text with its leading whitespace replaced by an even number of
/// spaces and trailing whitespace possibly dropped.
pub open spec fn line_ok(src: Seq<char>, out: Seq<char>) -> bool {
    ||| out == src
    ||| (out.len() == 0 && all_ws(src))
    ||| exists|k: nat, a: int, b: int| #[trigger] indented(src, out, k, a, b)
}

/// `out` is `src[a..b]` behind `2 * k` spaces, where only whitespace lies
/// outside `a..b`.
pub open spec fn indented(src: Seq<char>, out: Seq<char>, k: nat, a: int, b: int) -> bool {
    &&& 0 <= a < b <= src.len()
    &&& all_ws(src.subrange(0, a))
    &&& all_ws(src.subrange(b, src.len() as int))
    &&& out == spaces(2 * k) + src.subrange(a, b)
}

/// Lines joined by newlines.
pub open spec fn join_lines(lines: Seq<Seq<char>>) -> Seq<char>
    decreases lines.len(),
{
    if lines.len() == 0 {
        Seq::empty()
    } else if lines.len() == 1 {
        lines[0]
    } else {
        join_lines(lines.drop_last()) + seq!['\n'] + lines.last()
    }
}

/// The text of output lines: joined, with one final newline; nothing when
/// there are no lines.
pub open spec fn render(lines: Seq<Seq<char>>) -> Seq<char> {
    if lines.len() == 0 {
        Seq::empty()
    } else {
        join_lines(lines) + seq!['\n']
    }
}

/// What a re-indentation of `src` may produce: one output line per source
/// line, each [`line_ok`], with the blank lines at the end dropped, joined
/// and ended by exactly one newline.
pub open spec fn reindented(src: Seq<char>, out: Seq<char>) -> bool {
    exists|table: Seq<(int, int)>, lines: Seq<Seq<char>>|
        {
            &&& line_table(src, table)
            &&& lines.len() <= table.len()
            &&& forall|i: int|
                0 <= i < lines.len() ==> line_ok(
                    src.subrange(table[i].0, table[i].1),
                    #[trigger] lines[i],
                )
            &&& forall|i: int|
                lines.len() <= i < table.len() ==> all_ws(
                    src.subrange(#[trigger] table[i].0, table[i].1),
                )
            &&& lines.len() > 0 ==> lines.last().len() > 0
            &&& out == render(lines)
        }
}

/// The layout record carried from token to token: `(stack, pending_do,
/// when_header, open_tags)`. `stack` holds, for each unclosed construct, the
/// indent its contents get: the display indent of the line that opened it,
/// plus one. `pending_do` is set while a `for`/`while` header still owes
/// the `do` that belongs to it; `when_header` while a `when` arm's header is
/// read (an `if` there is a guard, not a block); `open_tags` holds, for each
/// JSX opening tag not yet closed by `>` or `/>`, the stack depth it began
/// at.
pub type LayoutState = (Seq<usize>, bool, bool, Seq<usize>);

/// The first index from `i` on that is not a line break token.
pub open spec fn skip_newlines(tokens: Seq<Token>, i: int) -> int
    decreases tokens.len() - i,
{
    if 0 <= i < tokens.len() && tokens[i] is Newline {
        skip_newlines(tokens, i + 1)
    } else {
        i
    }
}

/// Scanning from `i` with `depth` parentheses open, the index of the `)`
/// that closes the last one (an unmatched `)` counts as closing), or the
/// number of tokens when none does.
pub open spec fn paren_close(tokens: Seq<Token>, i: int, depth: int) -> int
    decreases tokens.len() - i,
{
    if i < 0 || i >= tokens.len() {
        i
    } else if tokens[i] is LParen {
        paren_close(tokens, i + 1, if depth < usize::MAX { depth + 1 } else { depth })
    } else if tokens[i] is RParen {
        let d = if depth > 0 { depth - 1 } else { depth };
        if d == 0 {
            i
        } else {
            paren_close(tokens, i + 1, d)
        }
    } else {
        paren_close(tokens, i + 1, depth)
    }
}

/// Whether the `fn` at `k` opens an `end`-terminated block: a name follows
/// it (a declaration), or a parameter list not followed by `->` (a
/// block-bodied lambda).
pub open spec fn fn_takes_end_spec(tokens: Seq<Token>, k: int) -> bool {
    if k < 0 || k >= tokens.len() {
        false
    } else {
        let i = skip_newlines(tokens, k + 1);
        if i >= tokens.len() {
            false
        } else if tokens[i] is Ident {
            true
        } else if tokens[i] is LParen {
            let j = paren_close(tokens, i, 0);
            let j2 = if j < tokens.len() { j + 1 } else { j };
            let j3 = skip_newlines(tokens, j2);
            !(j3 < tokens.len() && tokens[j3] is Arrow)
        } else {
            false
        }
    }
}

/// A construct opened on a line whose display indent is `ind`.
pub open spec fn open_construct(st: LayoutState, ind: usize) -> LayoutState {
    (st.0.push((ind + 1) as usize), st.1, st.2, st.3)
}

/// The innermost open construct closed.
pub open spec fn close_construct(st: LayoutState) -> LayoutState {
    if st.0.len() > 0 {
        (st.0.drop_last(), st.1, st.2, st.3)
    } else {
        st
    }
}

/// The layout record after token `k` of a line whose display indent is
/// `ind`.
pub open spec fn layout_step(st: LayoutState, tokens: Seq<Token>, k: int, ind: usize) -> LayoutState {
    let t = tokens[k];
    if t is Newline || t is Arrow {
        (st.0, st.1, false, st.3)
    } else if t is When {
        (st.0, st.1, true, st.3)
    } else if t is Do {
        if st.1 {
            (st.0, false, false, st.3)
        } else {
            (st.0.push((ind + 1) as usize), st.1, false, st.3)
        }
    } else if t is For || t is While {
        (st.0.push((ind + 1) as usize), true, st.2, st.3)
    } else if t is If {
        if st.2 {
            st
        } else {
            open_construct(st, ind)
        }
    } else if t is Match || t is Enum || t is LParen || t is LBracket || t is LBrace {
        open_construct(st, ind)
    } else if t is Fn {
        if fn_takes_end_spec(tokens, k) {
            open_construct(st, ind)
        } else {
            st
        }
    } else if t is End || t is RParen || t is RBracket || t is RBrace || t is JsxCloseStart {
        close_construct(st)
    } else if t is JsxOpenStart {
        (st.0, st.1, st.2, st.3.push(st.0.len() as usize))
    } else if t is JsxSelfClose {
        if st.3.len() > 0 {
            (st.0, st.1, st.2, st.3.drop_last())
        } else {
            st
        }
    } else if t is Gt {
        if st.3.len() > 0 && st.3.last() == st.0.len() {
            (st.0.push((ind + 1) as usize), st.1, st.2, st.3.drop_last())
        } else {
            st
        }
    } else {
        st
    }
}

/// The layout record after tokens `from..to` of a line whose display
/// indent is `ind`.
pub open spec fn layout_run(st: LayoutState, tokens: Seq<Token>, from: int, to: int, ind: usize) -> LayoutState
    decreases to - from,
{
    if to <= from {
        st
    } else {
        layout_step(layout_run(st, tokens, from, to - 1, ind), tokens, to - 1, ind)
    }
}

/// The first token from `ti` on that starts after character `le`: the
/// tokens before it, from `ti`, belong to the line ending at `le`.
pub open spec fn tokens_through(spans: Seq<TokenSpan>, ti: int, le: int) -> int
    decreases spans.len() - ti,
{
    if 0 <= ti < spans.len() && spans[ti].start <= le {
        tokens_through(spans, ti + 1, le)
    } else {
        ti
    }
}

/// Whether a token before `first` spans the line start `ls`: the line
/// begins inside a multi-line token.
pub open spec fn starts_inside(spans: Seq<TokenSpan>, first: int, ls: int) -> bool {
    exists|k: int| 0 <= k < first && #[trigger] spans[k].start < ls && spans[k].end > ls
}

/// The end of the run of whitespace from `j`, not past `le`.
pub open spec fn ws_run_end(src: Seq<char>, j: int, le: int) -> int
    decreases le - j,
{
    if 0 <= j < le && j < src.len() && src[j] != '\n' && is_ws(src[j]) {
        ws_run_end(src, j + 1, le)
    } else {
        j
    }
}

/// Whether one of the line's tokens starts within its leading whitespace
/// (so that whitespace is token content).
pub open spec fn token_in_leading_ws(spans: Seq<TokenSpan>, first: int, last: int, ls: int, ws_end: int) -> bool {
    exists|k: int| first <= k < last && ls <= #[trigger] spans[k].start && spans[k].start < ws_end
}

/// Whether one of the line's tokens runs on past the line's newline.
pub open spec fn spills_past_end(spans: Seq<TokenSpan>, first: int, last: int, le: int, n: int) -> bool {
    le < n && exists|k: int| first <= k < last && #[trigger] spans[k].end > le + 1
}

/// The indices of the line breaks' and end marker's complement among
/// tokens `first..last`: the line's significant tokens.
pub open spec fn significant(tokens: Seq<Token>, first: int, last: int) -> Seq<usize>
    decreases last - first,
{
    if last <= first {
        Seq::empty()
    } else if tokens[last - 1] is Newline || tokens[last - 1] is Eof {
        significant(tokens, first, last - 1)
    } else {
        significant(tokens, first, last - 1).push((last - 1) as usize)
    }
}

/// A closer that realigns the line it starts.
pub open spec fn closes_block(t: Token) -> bool {
    t is End || t is RParen || t is RBracket || t is RBrace
}

/// How many constructs the closers leading a line close: `end`, `)`, `]`,
/// `}` count one each, as does `</tag` (its tag name skipped).
pub open spec fn closer_run(tokens: Seq<Token>, sig: Seq<usize>, si: int) -> int
    decreases sig.len() - si,
{
    if si < 0 || si >= sig.len() {
        0
    } else if closes_block(tokens[sig[si] as int]) {
        1 + closer_run(tokens, sig, si + 1)
    } else if tokens[sig[si] as int] is JsxCloseStart {
        if si + 1 < sig.len() && tokens[sig[si + 1] as int] is JsxTagName {
            1 + closer_run(tokens, sig, si + 2)
        } else {
            1 + closer_run(tokens, sig, si + 1)
        }
    } else {
        0
    }
}

/// The indent of the line that opened the construct `depth` from the top
/// of `stack` (its contents' indent less one), or 0.
pub open spec fn realign(stack: Seq<usize>, depth: int) -> usize {
    if 0 < depth <= stack.len() && stack[stack.len() - depth] > 0 {
        (stack[stack.len() - depth] - 1) as usize
    } else {
        0
    }
}

/// A line's display indent: a run of leading closers realigns it with the
/// line that opened the outermost construct they close; `else` and `elsif`
/// realign with their `if`; any other line takes the innermost open
/// construct's content indent.
pub open spec fn line_indent(tokens: Seq<Token>, sig: Seq<usize>, stack: Seq<usize>) -> usize {
    if closer_run(tokens, sig, 0) > 0 {
        realign(stack, closer_run(tokens, sig, 0))
    } else if sig.len() > 0 && (tokens[sig[0] as int] is Else || tokens[sig[0] as int] is Elsif) {
        realign(stack, 1)
    } else if stack.len() > 0 {
        stack.last()
    } else {
        0
    }
}

/// `ce` moved back over trailing whitespace, not before `lo`.
pub open spec fn trim_end(src: Seq<char>, lo: int, ce: int) -> int
    decreases ce,
{
    if ce > lo && ce > 0 && ce - 1 < src.len() && is_ws(src[ce - 1]) {
        trim_end(src, lo, ce - 1)
    } else {
        ce
    }
}

/// The output for the line `src[ls..le]` whose tokens are `first..last`,
/// indented `ind` levels: the line verbatim when it starts inside a token
/// or a token starts in its leading whitespace; else blank when it holds
/// only whitespace; else its text behind `2 * ind` spaces, with trailing
/// whitespace dropped unless a token runs past the line.
pub open spec fn layout_line(
    src: Seq<char>,
    spans: Seq<TokenSpan>,
    ls: int,
    le: int,
    first: int,
    last: int,
    ind: usize,
) -> Seq<char> {
    let ws_end = ws_run_end(src, ls, le);
    if starts_inside(spans, first, ls) || token_in_leading_ws(spans, first, last, ls, ws_end) {
        src.subrange(ls, le)
    } else {
        let ce = if spills_past_end(spans, first, last, le, src.len() as int) {
            le
        } else {
            trim_end(src, ws_end, le)
        };
        if ce == ws_end {
            Seq::empty()
        } else {
            spaces(2 * ind as nat) + src.subrange(ws_end, ce)
        }
    }
}

/// The output lines for lines `li..` of `table`, the first of them owning
/// the tokens from `ti`, with the layout record `st`.
pub open spec fn layout_from(
    src: Seq<char>,
    table: Seq<(int, int)>,
    tokens: Seq<Token>,
    spans: Seq<TokenSpan>,
    li: int,
    ti: int,
    st: LayoutState,
) -> Seq<Seq<char>>
    decreases table.len() - li,
{
    if li < 0 || li >= table.len() {
        Seq::empty()
    } else {
        let ls = table[li].0;
        let le = table[li].1;
        let last = tokens_through(spans, ti, le);
        let ind = line_indent(tokens, significant(tokens, ti, last), st.0);
        seq![layout_line(src, spans, ls, le, ti, last, ind)] + layout_from(
            src,
            table,
            tokens,
            spans,
            li + 1,
            last,
            layout_run(st, tokens, ti, last, ind),
        )
    }
}

/// The lines of `src` before character `i` that a newline has ended, as
/// `(start, end)` pairs, and where the next line starts.
pub open spec fn lines_before(src: Seq<char>, i: int) -> (Seq<(int, int)>, int)
    decreases i,
{
    if i <= 0 {
        (Seq::empty(), 0)
    } else if src[i - 1] == '\n' {
        (lines_before(src, i - 1).0.push((lines_before(src, i - 1).1, i - 1)), i)
    } else {
        lines_before(src, i - 1)
    }
}

/// The lines of `src` as `(start, end)` pairs, `end` at the line's newline
/// or at the end of `src`.
pub open spec fn line_bounds(src: Seq<char>) -> Seq<(int, int)> {
    lines_before(src, src.len() as int).0.push((lines_before(src, src.len() as int).1, src.len() as int))
}

/// `lines` without the blank lines at its end.
pub open spec fn drop_blank_tail(lines: Seq<Seq<char>>) -> Seq<Seq<char>>
    decreases lines.len(),
{
    if lines.len() > 0 && lines.last().len() == 0 {
        drop_blank_tail(lines.drop_last())
    } else {
        lines
    }
}

/// The re-indentation of `src`, lexed as `tokens` with `spans`: each line
/// laid out in turn, blank lines at the end dropped, joined and ended by
/// one newline.
pub open spec fn reindent_spec(src: Seq<char>, tokens: Seq<Token>, spans: Seq<TokenSpan>) -> Seq<char> {
    render(drop_blank_tail(layout_from(
        src,
        line_bounds(src),
        tokens,
        spans,
        0,
        0,
        (Seq::empty(), false, false, Seq::empty()),
    )))
}

/// Whether the `fn` at token index `k` opens an `end`-terminated block: a
/// declaration (`fn name(…) … end`) or a block-bodied lambda (`fn(…) … end`).
/// Only an arrow lambda (`fn(…) -> expr`) doesn't consume an `end`.
fn fn_takes_end(tokens: &Vec<Token>, k: usize) -> (r: bool)
    ensures
        r == fn_takes_end_spec(kinds(tokens@), k as int),
{
    if k >= tokens.len() {
        return false;
    }
    let mut i = k + 1;
    while i < tokens.len() && matches!(tokens[i], Token::Newline)
        invariant
            k < i <= kinds(tokens@).len(),
            skip_newlines(kinds(tokens@), k + 1) == skip_newlines(kinds(tokens@), i as int),
        decreases kinds(tokens@).len() - i,
    {
        i = i + 1;
    }
    if i >= tokens.len() {
        return false;
    }
    match &tokens[i] {
        Token::Ident(_) => true,
        Token::LParen => {
            let ghost open_at = i as int;
            let mut depth: usize = 0;
            while i < tokens.len()
                invariant
                    i <= kinds(tokens@).len(),
                    paren_close(kinds(tokens@), open_at, 0) == paren_close(kinds(tokens@), i as int, depth as int),
                ensures
                    i <= kinds(tokens@).len(),
                    paren_close(kinds(tokens@), open_at, 0) == i,
                decreases kinds(tokens@).len() - i,
            {
                let ghost before = depth;
                match &tokens[i] {
                    Token::LParen => {
                        if depth < usize::MAX {
                            depth = depth + 1;
                        }
                    },
                    Token::RParen => {
                        if depth > 0 {
                            depth = depth - 1;
                        }
                        if depth == 0 {
                            break;
                        }
                    },
                    _ => {},
                }
                i = i + 1;
            }
            let ghost j = i as int;
            if i < tokens.len() {
                i = i + 1;
            }
            let ghost j2 = i as int;
            while i < tokens.len() && matches!(tokens[i], Token::Newline)
                invariant
                    j2 <= i <= kinds(tokens@).len(),
                    skip_newlines(kinds(tokens@), j2) == skip_newlines(kinds(tokens@), i as int),
                decreases kinds(tokens@).len() - i,
            {
                i = i + 1;
            }
            !(i < tokens.len() && matches!(tokens[i], Token::Arrow))
        },
        _ => false,
    }
}

/// Whether a token is a closer that realigns the line it starts.
fn is_closer(t: &Token) -> (r: bool)
    ensures
        r == closes_block(*t),
{
    matches!(t, Token::End | Token::RParen | Token::RBracket | Token::RBrace)
}

/// A line table with `usize` offsets, as integers.
pub open spec fn pairs_view(lines: Seq<(usize, usize)>) -> Seq<(int, int)> {
    lines.map_values(|p: (usize, usize)| (p.0 as int, p.1 as int))
}

/// The line table of `chars`: `(start, end)` character offsets, `end` at
/// the line's `\n` or at the end.
fn split_lines(chars: &Vec<char>) -> (lines: Vec<(usize, usize)>)
    ensures
        pairs_view(lines@) == line_bounds(chars@),
        line_table(chars@, pairs_view(lines@)),
{
    let n = chars.len();
    let mut lines: Vec<(usize, usize)> = Vec::new();
    let mut start: usize = 0;
    let mut i: usize = 0;
    proof {
        assert(pairs_view(lines@) =~= Seq::<(int, int)>::empty());
    }
    while i < n
        invariant
            n == chars@.len(),
            i <= n,
            start <= i,
            pairs_view(lines@) == lines_before(chars@, i as int).0,
            start == lines_before(chars@, i as int).1,
            forall|j: int| start <= j < i ==> chars@[j] != '\n',
            lines@.len() == 0 ==> start == 0,
            lines@.len() > 0 ==> start == lines@.last().1 + 1,
            forall|k: int| #![trigger lines@[k]] 0 <= k < lines@.len() ==> lines@[k].0 <= lines@[k].1 < i
                && chars@[lines@[k].1 as int] == '\n',
            forall|k: int| #![trigger lines@[k]] 0 < k < lines@.len() ==> lines@[k].0 == lines@[k - 1].1 + 1,
            lines@.len() > 0 ==> lines@[0].0 == 0,
            forall|k: int, j: int| #![trigger lines@[k], chars@[j]] 0 <= k < lines@.len() && lines@[k].0 <= j < lines@[k].1 ==> chars@[j] != '\n',
        decreases n - i,
    {
        if chars[i] == '\n' {
            let ghost before = lines@;
            lines.push((start, i));
            proof {
                assert(pairs_view(lines@) =~= pairs_view(before).push((start as int, i as int)));
            }
            start = i + 1;
        }
        i = i + 1;
    }
    let ghost before = lines@;
    lines.push((start, n));
    let ghost table = pairs_view(lines@);
    proof {
        assert(table =~= pairs_view(before).push((start as int, n as int)));
        assert forall|k: int| #![trigger table[k]] 0 <= k < table.len() - 1 implies chars@[table[k].1] == '\n'
            && table[k + 1].0 == table[k].1 + 1 by {
            assert(table[k] == (lines@[k].0 as int, lines@[k].1 as int));
            assert(table[k + 1] == (lines@[k + 1].0 as int, lines@[k + 1].1 as int));
        }
        assert forall|k: int, j: int| #![trigger table[k], chars@[j]] 0 <= k < table.len() && table[k].0 <= j < table[k].1 implies chars@[j] != '\n' by {
            assert(table[k] == (lines@[k].0 as int, lines@[k].1 as int));
        }
        assert forall|k: int| #![trigger table[k]] 0 <= k < table.len() implies 0 <= table[k].0 <= table[k].1 <= chars@.len() by {
            assert(table[k] == (lines@[k].0 as int, lines@[k].1 as int));
        }
        assert(line_table(chars@, table));
    }
    lines
}

/// Lay out one line: the output line, the index of the first token of the
/// next line, and the line's display indent.
fn lay_out_line(
    chars: &Vec<char>,
    tokens: &Vec<Token>,
    spans: &Vec<TokenSpan>,
    ls: usize,
    le: usize,
    first: usize,
    stack: &Vec<usize>,
) -> (r: (Vec<char>, usize, usize))
    requires
        ls <= le <= chars@.len(),
        forall|j: int| ls <= j < le ==> chars@[j] != '\n',
        kinds(tokens@).len() == spans@.len(),
        first <= kinds(tokens@).len(),
        forall|j: int| 0 <= j < stack@.len() ==> stack@[j] <= first,
    ensures
        first <= r.1 <= kinds(tokens@).len(),
        r.1 == tokens_through(spans@, first as int, le as int),
        r.2 == line_indent(kinds(tokens@), significant(kinds(tokens@), first as int, r.1 as int), stack@),
        r.2 <= first,
        r.0@ == layout_line(chars@, spans@, ls as int, le as int, first as int, r.1 as int, r.2),
        line_ok(chars@.subrange(ls as int, le as int), r.0@),
{
    let n = chars.len();
    let mut ti = first;
    while ti < tokens.len() && spans[ti].start <= le
        invariant
            first <= ti <= kinds(tokens@).len(),
            kinds(tokens@).len() == spans@.len(),
            tokens_through(spans@, first as int, le as int) == tokens_through(spans@, ti as int, le as int),
        decreases kinds(tokens@).len() - ti,
    {
        ti = ti + 1;
    }

    // A line beginning inside a token that started earlier (multi-line
    // raw string) is content, not layout.
    let mut inside = false;
    let mut k: usize = 0;
    while k < first
        invariant
            k <= first <= kinds(tokens@).len(),
            kinds(tokens@).len() == spans@.len(),
            inside == exists|q: int| 0 <= q < k && #[trigger] spans@[q].start < ls && spans@[q].end > ls,
        decreases first - k,
    {
        if spans[k].start < ls && spans[k].end > ls {
            inside = true;
        }
        proof {
            if exists|q: int| 0 <= q < k + 1 && #[trigger] spans@[q].start < ls && spans@[q].end > ls {
                let q = choose|q: int| 0 <= q < k + 1 && #[trigger] spans@[q].start < ls && spans@[q].end > ls;
                if q < k {
                    assert(exists|q2: int| 0 <= q2 < k && #[trigger] spans@[q2].start < ls && spans@[q2].end > ls);
                }
            }
        }
        k = k + 1;
    }

    // Leading-whitespace run.
    let mut ws_end = ls;
    while ws_end < le && chars[ws_end] != '\n' && is_whitespace(chars[ws_end])
        invariant
            ls <= ws_end <= le <= n,
            n == chars@.len(),
            forall|j: int| ls <= j < ws_end ==> is_ws(#[trigger] chars@[j]),
            ws_run_end(chars@, ls as int, le as int) == ws_run_end(chars@, ws_end as int, le as int),
        decreases le - ws_end,
    {
        ws_end = ws_end + 1;
    }

    // A token starting within the leading run means that "whitespace" is
    // token content: leave the line alone.
    let mut in_leading = false;
    let mut spills = false;
    let mut k: usize = first;
    while k < ti
        invariant
            first <= k <= ti <= kinds(tokens@).len(),
            kinds(tokens@).len() == spans@.len(),
            n == chars@.len(),
            in_leading == exists|q: int| first <= q < k && ls <= #[trigger] spans@[q].start && spans@[q].start < ws_end,
            spills == (le < n && exists|q: int| first <= q < k && #[trigger] spans@[q].end > le + 1),
        decreases ti - k,
    {
        let st = spans[k].start;
        if st >= ls && st < ws_end {
            in_leading = true;
        }
        if le < n && spans[k].end > le + 1 {
            spills = true;
        }
        proof {
            if exists|q: int| first <= q < k + 1 && ls <= #[trigger] spans@[q].start && spans@[q].start < ws_end {
                let q = choose|q: int| first <= q < k + 1 && ls <= #[trigger] spans@[q].start && spans@[q].start < ws_end;
                if q < k {
                    assert(exists|q2: int| first <= q2 < k && ls <= #[trigger] spans@[q2].start && spans@[q2].start < ws_end);
                }
            }
            if exists|q: int| first <= q < k + 1 && #[trigger] spans@[q].end > le + 1 {
                let q = choose|q: int| first <= q < k + 1 && #[trigger] spans@[q].end > le + 1;
                if q < k {
                    assert(exists|q2: int| first <= q2 < k && #[trigger] spans@[q2].end > le + 1);
                }
            }
        }
        k = k + 1;
    }

    // The significant tokens of the line.
    let mut sig: Vec<usize> = Vec::new();
    let mut k: usize = first;
    proof {
        assert(sig@ =~= significant(kinds(tokens@), first as int, first as int));
    }
    while k < ti
        invariant
            first <= k <= ti <= kinds(tokens@).len(),
            sig@ == significant(kinds(tokens@), first as int, k as int),
            forall|j: int| #![trigger sig@[j]] 0 <= j < sig@.len() ==> first <= sig@[j] && sig@[j] < k,
        decreases ti - k,
    {
        if !matches!(tokens[k], Token::Newline | Token::Eof) {
            sig.push(k);
        }
        k = k + 1;
    }

    // A run of closers at the start realigns with the line that opened the
    // outermost construct it closes.
    let mut dedent: usize = 0;
    let mut si: usize = 0;
    while si < sig.len()
        invariant
            si <= sig@.len(),
            dedent <= si,
            forall|j: int| 0 <= j < sig@.len() ==> sig@[j] < kinds(tokens@).len(),
            dedent + closer_run(kinds(tokens@), sig@, si as int) == closer_run(kinds(tokens@), sig@, 0),
        ensures
            dedent == closer_run(kinds(tokens@), sig@, 0),
            dedent <= sig@.len(),
        decreases sig@.len() - si,
    {
        let t = &tokens[sig[si]];
        if is_closer(t) {
            dedent = dedent + 1;
            si = si + 1;
        } else if matches!(t, Token::JsxCloseStart) {
            dedent = dedent + 1;
            si = si + 1;
            if si < sig.len() && matches!(tokens[sig[si]], Token::JsxTagName(_)) {
                si = si + 1;
            }
        } else {
            break;
        }
    }
    let indent: usize = if dedent > 0 {
        if dedent <= stack.len() {
            let content = stack[stack.len() - dedent];
            if content > 0 {
                content - 1
            } else {
                0
            }
        } else {
            0
        }
    } else if sig.len() > 0 && matches!(tokens[sig[0]], Token::Else | Token::Elsif) {
        if stack.len() > 0 {
            let content = stack[stack.len() - 1];
            if content > 0 {
                content - 1
            } else {
                0
            }
        } else {
            0
        }
    } else if stack.len() > 0 {
        stack[stack.len() - 1]
    } else {
        0
    };
    proof {
        assert(indent == line_indent(kinds(tokens@), sig@, stack@));
    }

    // Render the line.
    let ghost src = chars@.subrange(ls as int, le as int);
    if inside || in_leading {
        let line = crate::text::slice_chars(chars.as_slice(), ls, le);
        (line, ti, indent)
    } else {
        let mut content_end = le;
        if !spills {
            while content_end > ws_end && is_whitespace(chars[content_end - 1])
                invariant
                    ws_end <= content_end <= le <= n,
                    n == chars@.len(),
                    forall|j: int| content_end <= j < le ==> is_ws(#[trigger] chars@[j]),
                    trim_end(chars@, ws_end as int, le as int) == trim_end(chars@, ws_end as int, content_end as int),
                decreases content_end,
            {
                content_end = content_end - 1;
            }
        }
        if content_end == ws_end {
            proof {
                assert(all_ws(src)) by {
                    assert forall|j: int| 0 <= j < src.len() implies is_ws(#[trigger] src[j]) by {
                        assert(src[j] == chars@[ls + j]);
                        if ls + j >= ws_end {
                            assert(content_end <= ls + j < le);
                        }
                    }
                }
            }
            (Vec::new(), ti, indent)
        } else {
            let mut line: Vec<char> = Vec::new();
            let mut d: usize = 0;
            while d < indent
                invariant
                    d <= indent,
                    line@ == spaces(2 * d as nat),
                decreases indent - d,
            {
                line.push(' ');
                line.push(' ');
                proof {
                    assert(line@ =~= spaces(2 * (d + 1) as nat));
                }
                d = d + 1;
            }
            let mut j = ws_end;
            let ghost pre = line@;
            while j < content_end
                invariant
                    ws_end <= j <= content_end <= le <= n,
                    n == chars@.len(),
                    line@ == pre + chars@.subrange(ws_end as int, j as int),
                decreases content_end - j,
            {
                line.push(chars[j]);
                proof {
                    assert(chars@.subrange(ws_end as int, (j + 1) as int) =~= chars@.subrange(
                        ws_end as int,
                        j as int,
                    ).push(chars@[j as int]));
                }
                j = j + 1;
            }
            proof {
                let a = ws_end - ls;
                let b = content_end - ls;
                assert(src.subrange(0, a as int) =~= chars@.subrange(ls as int, ws_end as int));
                assert(all_ws(src.subrange(0, a as int)));
                assert(src.subrange(b as int, src.len() as int) =~= chars@.subrange(
                    content_end as int,
                    le as int,
                ));
                assert(all_ws(src.subrange(b as int, src.len() as int)));
                assert(src.subrange(a as int, b as int) =~= chars@.subrange(
                    ws_end as int,
                    content_end as int,
                ));
                assert(indented(src, line@, indent as nat, a as int, b as int));
            }
            (line, ti, indent)
        }
    }
}

/// Carry the layout record over tokens `from..to` of a line whose display
/// indent is `indent`.
fn apply_tokens(
    stack: &mut Vec<usize>,
    pending_do: &mut bool,
    when_header: &mut bool,
    open_tags: &mut Vec<usize>,
    tokens: &Vec<Token>,
    from: usize,
    to: usize,
    indent: usize,
)
    requires
        from <= to <= kinds(tokens@).len(),
        indent <= from,
        forall|j: int| 0 <= j < old(stack)@.len() ==> old(stack)@[j] <= from,
    ensures
        (final(stack)@, *final(pending_do), *final(when_header), final(open_tags)@) == layout_run(
            (old(stack)@, *old(pending_do), *old(when_header), old(open_tags)@),
            kinds(tokens@),
            from as int,
            to as int,
            indent,
        ),
        forall|j: int| 0 <= j < final(stack)@.len() ==> final(stack)@[j] <= to,
{
    let ghost st0 = (stack@, *pending_do, *when_header, open_tags@);
    let mut k: usize = from;
    while k < to
        invariant
            from <= k <= to <= kinds(tokens@).len(),
            indent <= from,
            forall|j: int| 0 <= j < stack@.len() ==> stack@[j] <= k,
            (stack@, *pending_do, *when_header, open_tags@) == layout_run(st0, kinds(tokens@), from as int, k as int, indent),
        decreases to - k,
    {
        let ghost cur = (stack@, *pending_do, *when_header, open_tags@);
        match &tokens[k] {
            Token::Newline => {
                *when_header = false;
            },
            Token::When => {
                *when_header = true;
            },
            Token::Arrow => {
                *when_header = false;
            },
            Token::Do => {
                *when_header = false;
                if *pending_do {
                    *pending_do = false;
                } else {
                    stack.push(indent + 1);
                }
            },
            Token::For | Token::While => {
                *pending_do = true;
                stack.push(indent + 1);
            },
            Token::If => {
                if !*when_header {
                    stack.push(indent + 1);
                }
            },
            Token::Match | Token::Enum => {
                stack.push(indent + 1);
            },
            Token::Fn => {
                if fn_takes_end(tokens, k) {
                    stack.push(indent + 1);
                }
            },
            Token::LParen | Token::LBracket | Token::LBrace => {
                stack.push(indent + 1);
            },
            Token::End | Token::RParen | Token::RBracket | Token::RBrace => {
                stack.pop();
            },
            Token::JsxOpenStart => {
                open_tags.push(stack.len());
            },
            Token::JsxSelfClose => {
                open_tags.pop();
            },
            Token::Gt => {
                if open_tags.len() > 0 && open_tags[open_tags.len() - 1] == stack.len() {
                    open_tags.pop();
                    stack.push(indent + 1);
                }
            },
            Token::JsxCloseStart => {
                stack.pop();
            },
            _ => {},
        }
        proof {
            assert((stack@, *pending_do, *when_header, open_tags@) =~~= layout_step(cur, kinds(tokens@), k as int, indent));
        }
        k = k + 1;
    }
}

proof fn lemma_render_push(lines: Seq<Seq<char>>, line: Seq<char>)
    requires
        lines.len() > 0,
    ensures
        join_lines(lines.push(line)) == join_lines(lines) + seq!['\n'] + line,
{
    assert(lines.push(line).drop_last() =~= lines);
}

/// The output lines joined by newlines, ended by one newline.
fn render_lines(lines: &Vec<Vec<char>>) -> (s: String)
    ensures
        s@ == render(lines@.map_values(|l: Vec<char>| l@)),
{
    let ghost ls = lines@.map_values(|l: Vec<char>| l@);
    if lines.len() == 0 {
        return String::new();
    }
    let mut s = String::new();
    crate::text::push_chars(&mut s, lines[0].as_slice());
    proof {
        assert(ls.take(1) =~= seq![ls[0]]);
    }
    let mut i: usize = 1;
    while i < lines.len()
        invariant
            1 <= i <= lines@.len(),
            ls == lines@.map_values(|l: Vec<char>| l@),
            s@ == join_lines(ls.take(i as int)),
        decreases lines@.len() - i,
    {
        crate::text::push_char(&mut s, '\n');
        crate::text::push_chars(&mut s, lines[i].as_slice());
        proof {
            lemma_render_push(ls.take(i as int), ls[i as int]);
            assert(ls.take(i + 1) =~= ls.take(i as int).push(ls[i as int]));
        }
        i = i + 1;
    }
    proof {
        assert(ls.take(lines@.len() as int) =~= ls);
    }
    crate::text::push_char(&mut s, '\n');
    s
}


/// The output lines as character sequences.
pub open spec fn lines_view(lines: Seq<Vec<char>>) -> Seq<Seq<char>> {
    lines.map_values(|l: Vec<char>| l@)
}

/// Laying out line `li` and carrying the record over its tokens moves the
/// rest of the layout one line on.
proof fn lemma_layout_next(
    src: Seq<char>,
    table: Seq<(int, int)>,
    tokens: Seq<Token>,
    spans: Seq<TokenSpan>,
    li: int,
    ti: int,
    st: LayoutState,
    done: Seq<Seq<char>>,
    line: Seq<char>,
    last: int,
    st2: LayoutState,
)
    requires
        0 <= li < table.len(),
        last == tokens_through(spans, ti, table[li].1),
        line == layout_line(
            src,
            spans,
            table[li].0,
            table[li].1,
            ti,
            last,
            line_indent(tokens, significant(tokens, ti, last), st.0),
        ),
        st2 == layout_run(st, tokens, ti, last, line_indent(tokens, significant(tokens, ti, last), st.0)),
    ensures
        done + layout_from(src, table, tokens, spans, li, ti, st) == done.push(line) + layout_from(
            src,
            table,
            tokens,
            spans,
            li + 1,
            last,
            st2,
        ),
{
    let rest = layout_from(src, table, tokens, spans, li + 1, last, st2);
    assert(layout_from(src, table, tokens, spans, li, ti, st) == seq![line] + rest);
    assert(done + (seq![line] + rest) =~= done.push(line) + rest);
}

/// Re-indent `source`, lexed as `tokens` with `spans`, to 2-space
/// indentation: each line laid out by [`layout_line`] at the depth its
/// tokens leave, blank lines at the end dropped, one final newline.
#[verifier::rlimit(40)]
pub fn reindent_tokens(source: &str, tokens: &Vec<Token>, spans: &Vec<TokenSpan>) -> (out: String)
    requires
        kinds(tokens@).len() == spans@.len(),
    ensures
        out@ == reindent_spec(source@, kinds(tokens@), spans@),
        reindented(source@, out@),
{
    let chars = chars_of(source);
    let lines = split_lines(&chars);
    let ghost table = pairs_view(lines@);
    let ghost init: LayoutState = (Seq::empty(), false, false, Seq::empty());
    let ghost all = layout_from(source@, table, kinds(tokens@), spans@, 0, 0, init);
    let mut stack: Vec<usize> = Vec::new();
    let mut pending_do = false;
    let mut when_header = false;
    let mut open_tags: Vec<usize> = Vec::new();
    let mut out_lines: Vec<Vec<char>> = Vec::new();
    let mut ti: usize = 0;
    let mut li: usize = 0;
    proof {
        assert(stack@ =~= Seq::<usize>::empty());
        assert(open_tags@ =~= Seq::<usize>::empty());
        assert(lines_view(out_lines@) + all =~= all);
    }
    while li < lines.len()
        invariant
            chars@ == source@,
            table == pairs_view(lines@),
            table == line_bounds(source@),
            line_table(source@, table),
            kinds(tokens@).len() == spans@.len(),
            all == layout_from(source@, table, kinds(tokens@), spans@, 0, 0, init),
            li <= lines@.len(),
            ti <= kinds(tokens@).len(),
            out_lines@.len() == li,
            forall|j: int| 0 <= j < stack@.len() ==> stack@[j] <= ti,
            forall|q: int|
                0 <= q < li ==> line_ok(
                    source@.subrange(table[q].0, table[q].1),
                    #[trigger] out_lines@[q]@,
                ),
            all == lines_view(out_lines@) + layout_from(
                source@,
                table,
                kinds(tokens@),
                spans@,
                li as int,
                ti as int,
                (stack@, pending_do, when_header, open_tags@),
            ),
        decreases lines@.len() - li,
    {
        let (ls, le) = lines[li];
        proof {
            assert(table[li as int] == (ls as int, le as int));
        }
        let ghost st = (stack@, pending_do, when_header, open_tags@);
        let ghost before = out_lines@;
        let (line, last, indent) = lay_out_line(&chars, tokens, spans, ls, le, ti, &stack);
        out_lines.push(line);
        apply_tokens(&mut stack, &mut pending_do, &mut when_header, &mut open_tags, tokens, ti, last, indent);
        proof {
            lemma_layout_next(
                source@,
                table,
                kinds(tokens@),
                spans@,
                li as int,
                ti as int,
                st,
                lines_view(before),
                out_lines@[li as int]@,
                last as int,
                (stack@, pending_do, when_header, open_tags@),
            );
            assert(lines_view(out_lines@) =~= lines_view(before).push(out_lines@[li as int]@));
            assert forall|q: int| 0 <= q < li + 1 implies line_ok(
                source@.subrange(table[q].0, table[q].1),
                #[trigger] out_lines@[q]@,
            ) by {
                if q < li {
                    assert(out_lines@[q] == before[q]);
                }
            }
        }
        ti = last;
        li = li + 1;
    }
    proof {
        assert(layout_from(source@, table, kinds(tokens@), spans@, li as int, ti as int, (stack@, pending_do, when_header, open_tags@)) =~= Seq::<Seq<char>>::empty());
        assert(all =~= lines_view(out_lines@));
    }

    // Single trailing newline: drop blank lines at the end.
    let ghost all_lines = lines_view(out_lines@);
    while out_lines.len() > 0 && out_lines[out_lines.len() - 1].len() == 0
        invariant
            out_lines@.len() <= lines@.len(),
            all_lines.len() == lines@.len(),
            forall|q: int| 0 <= q < out_lines@.len() ==> #[trigger] out_lines@[q]@ == all_lines[q],
            forall|q: int|
                out_lines@.len() <= q < lines@.len() ==> all_ws(
                    source@.subrange(#[trigger] table[q].0, table[q].1),
                ),
            forall|q: int|
                0 <= q < lines@.len() ==> line_ok(
                    source@.subrange(table[q].0, table[q].1),
                    #[trigger] all_lines[q],
                ),
            table.len() == lines@.len(),
            drop_blank_tail(all_lines) == drop_blank_tail(lines_view(out_lines@)),
        decreases out_lines@.len(),
    {
        let ghost q = out_lines@.len() - 1;
        let ghost before = lines_view(out_lines@);
        proof {
            let src = source@.subrange(table[q].0, table[q].1);
            assert(line_ok(src, all_lines[q]));
            assert(all_lines[q].len() == 0);
            if all_lines[q] == src {
                assert(src.len() == 0);
                assert(all_ws(src));
            }
            assert(before.last() == out_lines@[q]@);
        }
        out_lines.pop();
        proof {
            assert(lines_view(out_lines@) =~= before.drop_last());
        }
    }
    let out = render_lines(&out_lines);
    proof {
        let ol = lines_view(out_lines@);
        assert(ol =~= out_lines@.map_values(|l: Vec<char>| l@));
        assert forall|q: int| 0 <= q < ol.len() implies line_ok(
            source@.subrange(table[q].0, table[q].1),
            #[trigger] ol[q],
        ) by {
            assert(ol[q] == all_lines[q]);
        }
        if ol.len() > 0 {
            assert(ol.last() == out_lines@[ol.len() - 1]@);
        }
        assert(drop_blank_tail(ol) == ol);
        assert(reindented(source@, out@));
    }
    out
}

/// Re-indent `source` to 2-space indentation, trim trailing whitespace, and
/// end with exactly one newline. Only whitespace outside tokens is touched;
/// lines that start inside a multi-line token (raw string) are copied
/// verbatim. Works from the token stream alone, so it needs the source to
/// lex but not to parse; a source that does not lex is an error.
pub fn reindent(source: &str) -> (r: Result<String, String>)
    ensures
        r is Ok <==> crate::lexer::lexes(source@),
        r matches Ok(out) ==> out@ == reindent_spec(source@, crate::lexer::lex_tokens(source@), crate::lexer::lex_spans(source@)),
        r matches Ok(out) ==> reindented(source@, out@),
        r matches Err(e) ==> exists|i: int| #[trigger] crate::lexer::opens_unterminated(source@, i)
            && e@ == crate::lexer::unterminated_message(source@, i),
{
    if source.is_empty() {
        let out = String::new();
        proof {
            let table = seq![(0int, 0int)];
            let lines = Seq::<Seq<char>>::empty();
            assert(all_ws(source@.subrange(0, 0)));
            assert(line_table(source@, table));
            assert(render(lines) =~= out@);
            lemma_empty_source(source@, crate::lexer::lex_tokens(source@), crate::lexer::lex_spans(source@));
        }
        return Ok(out);
    }
    let lexed = match tokenize(source) {
        Ok(l) => l,
        Err(e) => {
            return Err(e);
        },
    };
    let out = reindent_tokens(source, &lexed.tokens, &lexed.spans);
    proof {
        let items = crate::lexer::lex(source@).1;
        assert(kinds(lexed.tokens@) =~= crate::lexer::lex_tokens(source@)) by {
            assert forall|k: int| 0 <= k < items.len() implies kinds(lexed.tokens@)[k] == crate::lexer::lex_tokens(source@)[k] by {
                assert(crate::lexer::lexed_items(lexed.tokens@, lexed.spans@)[k] == items[k]);
            }
        }
        assert(lexed.spans@ =~= crate::lexer::lex_spans(source@)) by {
            assert forall|k: int| 0 <= k < items.len() implies lexed.spans@[k] == crate::lexer::lex_spans(source@)[k] by {
                assert(crate::lexer::lexed_items(lexed.tokens@, lexed.spans@)[k] == items[k]);
            }
        }
    }
    Ok(out)
}

/// The re-indentation of an empty source is empty, whatever its tokens.
proof fn lemma_empty_source(src: Seq<char>, tokens: Seq<Token>, spans: Seq<TokenSpan>)
    requires
        src.len() == 0,
    ensures
        reindent_spec(src, tokens, spans).len() == 0,
        crate::lexer::lexes(src),
{
    let table = line_bounds(src);
    assert(lines_before(src, 0).0 =~= Seq::<(int, int)>::empty());
    assert(table =~= seq![(0int, 0int)]);
    let init: LayoutState = (Seq::empty(), false, false, Seq::empty());
    let last = tokens_through(spans, 0, 0);
    let ind = line_indent(tokens, significant(tokens, 0, last), init.0);
    assert(ws_run_end(src, 0, 0) == 0);
    assert(!starts_inside(spans, 0, 0));
    assert(!token_in_leading_ws(spans, 0, last, 0, 0));
    assert(trim_end(src, 0, 0) == 0);
    assert(layout_line(src, spans, 0, 0, 0, last, ind) =~= Seq::<char>::empty());
    let rest = layout_from(src, table, tokens, spans, 1, last, layout_run(init, tokens, 0, last, ind));
    assert(rest =~= Seq::<Seq<char>>::empty());
    let all = layout_from(src, table, tokens, spans, 0, 0, init);
    assert(all =~= seq![Seq::<char>::empty()]);
    assert(all.drop_last() =~= Seq::<Seq<char>>::empty());
    assert(drop_blank_tail(all) == drop_blank_tail(all.drop_last()));
    assert(drop_blank_tail(Seq::<Seq<char>>::empty()) =~= Seq::<Seq<char>>::empty());
}

/// A token that never opens, closes or otherwise steers a construct: names,
/// literals and the operators of an expression.
pub open spec fn is_plain(t: Token) -> bool {
    ||| t is Ident
    ||| t is Int
    ||| t is Float
    ||| t is String
    ||| t is True
    ||| t is False
    ||| t is Nil
    ||| t is Plus
    ||| t is Minus
    ||| t is Star
    ||| t is Slash
    ||| t is Percent
    ||| t is Eq
    ||| t is Ne
    ||| t is Lt
    ||| t is Le
    ||| t is Ge
    ||| t is Assign
    ||| t is Comma
    ||| t is Dot
    ||| t is Colon
    ||| t is Bang
    ||| t is And
    ||| t is Or
    ||| t is Then
    ||| t is Op
}

/// Every token of `s` is plain.
pub open spec fn all_plain(s: Seq<Token>) -> bool {
    forall|i: int| 0 <= i < s.len() ==> is_plain(#[trigger] s[i])
}

proof fn lemma_run_split(st: LayoutState, tokens: Seq<Token>, a: int, m: int, b: int, ind: usize)
    requires
        a <= m <= b,
    ensures
        layout_run(st, tokens, a, b, ind) == layout_run(layout_run(st, tokens, a, m, ind), tokens, m, b, ind),
    decreases b - m,
{
    if m < b {
        lemma_run_split(st, tokens, a, m, b - 1, ind);
    }
}

proof fn lemma_run_plain(st: LayoutState, tokens: Seq<Token>, a: int, b: int, ind: usize)
    requires
        0 <= a <= b <= tokens.len(),
        forall|i: int| a <= i < b ==> is_plain(#[trigger] tokens[i]),
    ensures
        layout_run(st, tokens, a, b, ind) == st,
    decreases b - a,
{
    if a < b {
        lemma_run_plain(st, tokens, a, b - 1, ind);
        assert(is_plain(tokens[b - 1]));
    }
}

/// A loop header `kw cond do` (`kw` is `while` or `for`) followed by a plain
/// body and `end`, laid out from `st`: the header opens exactly one block,
/// one level in from the header line, which its `do` does not open again;
/// the `end` closes it, leaving the open constructs as they were.
pub proof fn law_loop_opens_one_block(
    st: LayoutState,
    kw: Token,
    cond: Seq<Token>,
    body: Seq<Token>,
    ind: usize,
)
    requires
        kw is While || kw is For,
        !st.1,
        all_plain(cond),
        all_plain(body),
    ensures
        ({
            let tokens = seq![kw] + cond + seq![Token::Do] + body + seq![Token::End];
            let header = (cond.len() + 2) as int;
            &&& layout_run(st, tokens, 0, header, ind).0 == st.0.push((ind + 1) as usize)
            &&& !layout_run(st, tokens, 0, header, ind).1
            &&& layout_run(st, tokens, 0, tokens.len() as int, ind).0 == st.0
            &&& !layout_run(st, tokens, 0, tokens.len() as int, ind).1
        }),
{
    let tokens = seq![kw] + cond + seq![Token::Do] + body + seq![Token::End];
    let c = cond.len() as int;
    let n = tokens.len() as int;
    assert(tokens[0] == kw);
    assert(tokens[c + 1] == Token::Do);
    assert(tokens[n - 1] == Token::End);
    assert forall|i: int| 1 <= i < c + 1 implies is_plain(#[trigger] tokens[i]) by {
        assert(tokens[i] == cond[i - 1]);
    }
    assert forall|i: int| c + 2 <= i < n - 1 implies is_plain(#[trigger] tokens[i]) by {
        assert(tokens[i] == body[i - c - 2]);
    }
    let s1 = layout_run(st, tokens, 0, 1, ind);
    assert(layout_run(st, tokens, 0, 0, ind) == st);
    assert(s1 == layout_step(st, tokens, 0, ind));
    assert(s1 == (st.0.push((ind + 1) as usize), true, st.2, st.3));
    lemma_run_split(st, tokens, 0, 1, c + 1, ind);
    lemma_run_plain(s1, tokens, 1, c + 1, ind);
    let s2 = layout_run(st, tokens, 0, c + 2, ind);
    assert(s2 == layout_step(layout_run(st, tokens, 0, c + 1, ind), tokens, c + 1, ind));
    assert(s2 == (st.0.push((ind + 1) as usize), false, false, st.3));
    lemma_run_split(st, tokens, 0, c + 2, n - 1, ind);
    lemma_run_plain(s2, tokens, c + 2, n - 1, ind);
    assert(layout_run(st, tokens, 0, n, ind) == layout_step(layout_run(st, tokens, 0, n - 1, ind), tokens, n - 1, ind));
    assert(st.0.push((ind + 1) as usize).drop_last() =~= st.0);
}

/// `if cond then body end`, and a bracketed plain run, each open exactly one
/// construct one level in and close it again: the open constructs after them
/// are those before.
pub proof fn law_if_and_brackets_balance(st: LayoutState, open: Token, mid: Seq<Token>, close: Token, ind: usize)
    requires
        (open is If && close is End && !st.2) || (open is LParen && close is RParen) || (open is LBracket && close
            is RBracket) || (open is LBrace && close is RBrace) || (open is Match && close is End),
        all_plain(mid),
    ensures
        ({
            let tokens = seq![open] + mid + seq![close];
            &&& layout_run(st, tokens, 0, 1, ind).0 == st.0.push((ind + 1) as usize)
            &&& layout_run(st, tokens, 0, tokens.len() as int, ind).0 == st.0
        }),
{
    let tokens = seq![open] + mid + seq![close];
    let n = tokens.len() as int;
    assert(tokens[0] == open);
    assert(tokens[n - 1] == close);
    assert forall|i: int| 1 <= i < n - 1 implies is_plain(#[trigger] tokens[i]) by {
        assert(tokens[i] == mid[i - 1]);
    }
    let s1 = layout_run(st, tokens, 0, 1, ind);
    assert(layout_run(st, tokens, 0, 0, ind) == st);
    assert(s1 == layout_step(st, tokens, 0, ind));
    lemma_run_split(st, tokens, 0, 1, n - 1, ind);
    lemma_run_plain(s1, tokens, 1, n - 1, ind);
    assert(layout_run(st, tokens, 0, n, ind) == layout_step(layout_run(st, tokens, 0, n - 1, ind), tokens, n - 1, ind));
    assert(st.0.push((ind + 1) as usize).drop_last() =~= st.0);
}

/// A `do` that no `while` or `for` header is waiting for opens a block of
/// its own (a trailing block argument), one level in, which `end` closes.
pub proof fn law_bare_do_opens_one_block(st: LayoutState, pre: Seq<Token>, body: Seq<Token>, ind: usize)
    requires
        !st.1,
        all_plain(pre),
        all_plain(body),
    ensures
        ({
            let tokens = pre + seq![Token::Do] + body + seq![Token::End];
            &&& layout_run(st, tokens, 0, (pre.len() + 1) as int, ind).0 == st.0.push((ind + 1) as usize)
            &&& layout_run(st, tokens, 0, tokens.len() as int, ind).0 == st.0
        }),
{
    let tokens = pre + seq![Token::Do] + body + seq![Token::End];
    let p = pre.len() as int;
    let n = tokens.len() as int;
    assert(tokens[p] == Token::Do);
    assert(tokens[n - 1] == Token::End);
    assert forall|i: int| 0 <= i < p implies is_plain(#[trigger] tokens[i]) by {
        assert(tokens[i] == pre[i]);
    }
    assert forall|i: int| p + 1 <= i < n - 1 implies is_plain(#[trigger] tokens[i]) by {
        assert(tokens[i] == body[i - p - 1]);
    }
    lemma_run_plain(st, tokens, 0, p, ind);
    let s1 = layout_run(st, tokens, 0, p + 1, ind);
    assert(s1 == layout_step(st, tokens, p, ind));
    lemma_run_split(st, tokens, 0, p + 1, n - 1, ind);
    lemma_run_plain(s1, tokens, p + 1, n - 1, ind);
    assert(layout_run(st, tokens, 0, n, ind) == layout_step(layout_run(st, tokens, 0, n - 1, ind), tokens, n - 1, ind));
    assert(st.0.push((ind + 1) as usize).drop_last() =~= st.0);
}

/// The `if` of a `when` guard opens nothing: after `when pattern if cond`
/// the open constructs are those before.
pub proof fn law_guard_if_opens_nothing(st: LayoutState, pat: Seq<Token>, cond: Seq<Token>, ind: usize)
    requires
        all_plain(pat),
        all_plain(cond),
    ensures
        ({
            let tokens = seq![Token::When] + pat + seq![Token::If] + cond;
            layout_run(st, tokens, 0, tokens.len() as int, ind).0 == st.0
        }),
{
    let tokens = seq![Token::When] + pat + seq![Token::If] + cond;
    let p = pat.len() as int;
    let n = tokens.len() as int;
    assert(tokens[0] == Token::When);
    assert(tokens[p + 1] == Token::If);
    assert forall|i: int| 1 <= i < p + 1 implies is_plain(#[trigger] tokens[i]) by {
        assert(tokens[i] == pat[i - 1]);
    }
    assert forall|i: int| p + 2 <= i < n implies is_plain(#[trigger] tokens[i]) by {
        assert(tokens[i] == cond[i - p - 2]);
    }
    assert(layout_run(st, tokens, 0, 0, ind) == st);
    let s1 = layout_run(st, tokens, 0, 1, ind);
    assert(s1 == layout_step(st, tokens, 0, ind));
    lemma_run_split(st, tokens, 0, 1, p + 1, ind);
    lemma_run_plain(s1, tokens, 1, p + 1, ind);
    let s2 = layout_run(st, tokens, 0, p + 2, ind);
    assert(s2 == layout_step(layout_run(st, tokens, 0, p + 1, ind), tokens, p + 1, ind));
    assert(s2.0 == st.0);
    lemma_run_split(st, tokens, 0, p + 2, n, ind);
    lemma_run_plain(s2, tokens, p + 2, n, ind);
}

/// A function declaration `fn name(params) body end` opens one block one
/// level in (its parameter list opens and closes its own), and `end`
/// closes it.
pub proof fn law_fn_declaration_balances(st: LayoutState, params: Seq<Token>, body: Seq<Token>, name: String, ind: usize)
    requires
        all_plain(params),
        all_plain(body),
    ensures
        ({
            let tokens = seq![Token::Fn, Token::Ident(name), Token::LParen] + params + seq![Token::RParen] + body + seq![
                Token::End,
            ];
            let header = (params.len() + 4) as int;
            &&& layout_run(st, tokens, 0, header, ind).0 == st.0.push((ind + 1) as usize)
            &&& layout_run(st, tokens, 0, tokens.len() as int, ind).0 == st.0
        }),
{
    let tokens = seq![Token::Fn, Token::Ident(name), Token::LParen] + params + seq![Token::RParen] + body + seq![Token::End];
    let q = params.len() as int;
    let n = tokens.len() as int;
    assert(tokens[0] == Token::Fn);
    assert(tokens[1] == Token::Ident(name));
    assert(tokens[2] == Token::LParen);
    assert(tokens[q + 3] == Token::RParen);
    assert(tokens[n - 1] == Token::End);
    assert forall|i: int| 3 <= i < q + 3 implies is_plain(#[trigger] tokens[i]) by {
        assert(tokens[i] == params[i - 3]);
    }
    assert forall|i: int| q + 4 <= i < n - 1 implies is_plain(#[trigger] tokens[i]) by {
        assert(tokens[i] == body[i - q - 4]);
    }
    assert(skip_newlines(tokens, 1) == 1);
    assert(fn_takes_end_spec(tokens, 0));
    assert(layout_run(st, tokens, 0, 0, ind) == st);
    let s1 = layout_run(st, tokens, 0, 1, ind);
    assert(s1 == layout_step(st, tokens, 0, ind));
    assert(s1.0 == st.0.push((ind + 1) as usize));
    let s2 = layout_run(st, tokens, 0, 2, ind);
    assert(s2 == layout_step(s1, tokens, 1, ind));
    let s3 = layout_run(st, tokens, 0, 3, ind);
    assert(s3 == layout_step(s2, tokens, 2, ind));
    assert(s3.0 == s1.0.push((ind + 1) as usize));
    lemma_run_split(st, tokens, 0, 3, q + 3, ind);
    lemma_run_plain(s3, tokens, 3, q + 3, ind);
    let s4 = layout_run(st, tokens, 0, q + 4, ind);
    assert(s4 == layout_step(layout_run(st, tokens, 0, q + 3, ind), tokens, q + 3, ind));
    assert(s1.0.push((ind + 1) as usize).drop_last() =~= s1.0);
    assert(s4.0 == s1.0);
    lemma_run_split(st, tokens, 0, q + 4, n - 1, ind);
    lemma_run_plain(s4, tokens, q + 4, n - 1, ind);
    assert(layout_run(st, tokens, 0, n, ind) == layout_step(layout_run(st, tokens, 0, n - 1, ind), tokens, n - 1, ind));
    assert(st.0.push((ind + 1) as usize).drop_last() =~= st.0);
}

} // verus!
