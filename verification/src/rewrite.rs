//! Source rewriting: formatting-preserving edits to Petal source.
//!
//! An edit replaces the characters of one construct and copies everything
//! else verbatim, so comments, blank lines and unrelated statements survive.
//! Offsets are character offsets (the lexer indexes source by `char`), so
//! multi-byte source is never cut inside a character.

use vstd::prelude::*;
use crate::ast::{Expr, ExprKind, Stmt, StmtKind};
use crate::source_map::SourceSpan;
use crate::text::{chars_of, push_chars, push_str, str_eq};

verus! {

/// The span of `e` when it is a call whose callee is the bare name `name`.
pub open spec fn call_span_if_named(e: Expr, name: Seq<char>) -> Option<SourceSpan> {
    match e.kind {
        ExprKind::Call { function, .. } => match function.kind {
            ExprKind::Ident(n) => if n@ == name {
                Some(e.span)
            } else {
                None
            },
            _ => None,
        },
        _ => None,
    }
}

/// The span of statement `s` when it is a call of `name` standing alone.
pub open spec fn stmt_call_span(s: Stmt, name: Seq<char>) -> Option<SourceSpan> {
    match s.kind {
        StmtKind::Expr(e) => call_span_if_named(e, name),
        StmtKind::Other => None,
    }
}

/// The first of `stmts[i..]` that is a call of `name`, by its span.
pub open spec fn find_call_from(stmts: Seq<Stmt>, name: Seq<char>, i: int) -> Option<SourceSpan>
    decreases stmts.len() - i,
{
    if i < 0 || i >= stmts.len() {
        None
    } else {
        match stmt_call_span(stmts[i], name) {
            Some(sp) => Some(sp),
            None => find_call_from(stmts, name, i + 1),
        }
    }
}

fn call_span_of(e: &Expr, name: &str) -> (r: Option<SourceSpan>)
    ensures
        r == call_span_if_named(*e, name@),
{
    match &e.kind {
        ExprKind::Call { function, .. } => match &function.kind {
            ExprKind::Ident(n) => if str_eq(n.as_str(), name) {
                Some(e.span)
            } else {
                None
            },
            _ => None,
        },
        _ => None,
    }
}

/// Find a top-level call `name(...)` written as its own statement: the span
/// of the whole call, from the name through the closing parenthesis, of the
/// first such statement. A call nested inside another expression does not
/// count.
pub fn find_call(stmts: &[Stmt], name: &str) -> (r: Option<SourceSpan>)
    ensures
        r == find_call_from(stmts@, name@, 0),
{
    let mut i: usize = 0;
    while i < stmts.len()
        invariant
            i <= stmts@.len(),
            find_call_from(stmts@, name@, 0) == find_call_from(stmts@, name@, i as int),
        decreases stmts.len() - i,
    {
        let found = match &stmts[i].kind {
            StmtKind::Expr(e) => call_span_of(e, name),
            StmtKind::Other => None,
        };
        if found.is_some() {
            return found;
        }
        i = i + 1;
    }
    None
}

/// Where a span's start falls in a text of `n` characters: clamped to `n`.
pub open spec fn clamped_start(span: SourceSpan, n: int) -> int {
    if span.start.offset as int <= n {
        span.start.offset as int
    } else {
        n
    }
}

/// Where a span's end falls: clamped between its clamped start and `n`.
pub open spec fn clamped_end(span: SourceSpan, n: int) -> int {
    let s = clamped_start(span, n);
    if span.end.offset as int <= s {
        s
    } else if span.end.offset as int >= n {
        n
    } else {
        span.end.offset as int
    }
}

/// `src` with the characters under `span` replaced by `rep`, the span's
/// offsets clamped to the text.
pub open spec fn splice_spec(src: Seq<char>, span: SourceSpan, rep: Seq<char>) -> Seq<char> {
    src.take(clamped_start(span, src.len() as int)) + rep + src.skip(clamped_end(span, src.len() as int))
}

/// Replace the characters covered by `span` in `source` with `replacement`.
/// Everything outside the span is copied verbatim. Offsets are clamped to
/// the source, so a stale span never panics (it degrades to appending).
pub fn splice(source: &str, span: SourceSpan, replacement: &str) -> (r: String)
    ensures
        r@ == splice_spec(source@, span, replacement@),
{
    let chars = chars_of(source);
    let n = chars.len();
    let so = span.start.offset as usize;
    let start = if so <= n { so } else { n };
    let eo = span.end.offset as usize;
    let end = if eo <= start { start } else if eo >= n { n } else { eo };
    let head = crate::text::slice_chars(chars.as_slice(), 0, start);
    let tail = crate::text::slice_chars(chars.as_slice(), end, n);
    let mut out = String::new();
    push_chars(&mut out, head.as_slice());
    push_str(&mut out, replacement);
    push_chars(&mut out, tail.as_slice());
    proof {
        assert(head@ =~= source@.take(start as int));
        assert(tail@ =~= source@.skip(end as int));
    }
    out
}

/// The text with every trailing `'\n'` removed.
pub open spec fn trim_newlines(s: Seq<char>) -> Seq<char>
    decreases s.len(),
{
    if s.len() > 0 && s.last() == '\n' {
        trim_newlines(s.drop_last())
    } else {
        s
    }
}

/// What [`replace_or_append_call`] gives: the first top-level call of `name`
/// replaced by `rep`, or, with none, `rep` appended as a statement of its
/// own, after a blank line unless the source holds nothing but newlines.
pub open spec fn replace_or_append_spec(src: Seq<char>, stmts: Seq<Stmt>, name: Seq<char>, rep: Seq<char>) -> Seq<char> {
    match find_call_from(stmts, name, 0) {
        Some(span) => splice_spec(src, span, rep),
        None => if trim_newlines(src).len() == 0 {
            rep.push('\n')
        } else {
            trim_newlines(src) + seq!['\n', '\n'] + rep.push('\n')
        },
    }
}

/// Replace the first top-level `name(...)` call of `source`, whose
/// statements are `stmts`, with `replacement`, or append `replacement` as a
/// new top-level statement on its own line when there is none.
/// `replacement` is written verbatim, so the caller controls its layout.
pub fn replace_or_append_call(source: &str, stmts: &[Stmt], name: &str, replacement: &str) -> (r: String)
    ensures
        r@ == replace_or_append_spec(source@, stmts@, name@, replacement@),
{
    match find_call(stmts, name) {
        Some(span) => splice(source, span, replacement),
        None => {
            let chars = chars_of(source);
            let mut k = chars.len();
            proof {
                assert(chars@.take(k as int) =~= chars@);
            }
            while k > 0 && chars[k - 1] == '\n'
                invariant
                    k <= chars@.len(),
                    chars@ == source@,
                    trim_newlines(source@) == trim_newlines(chars@.take(k as int)),
                decreases k,
            {
                proof {
                    assert(chars@.take(k as int).drop_last() =~= chars@.take(k - 1));
                }
                k = k - 1;
            }
            let trimmed = crate::text::slice_chars(chars.as_slice(), 0, k);
            proof {
                assert(trimmed@ =~= chars@.take(k as int));
                assert(trim_newlines(trimmed@) == trimmed@);
            }
            let mut out = String::new();
            if k > 0 {
                push_chars(&mut out, trimmed.as_slice());
                crate::text::push_char(&mut out, '\n');
                crate::text::push_char(&mut out, '\n');
            }
            push_str(&mut out, replacement);
            crate::text::push_char(&mut out, '\n');
            proof {
                if k > 0 {
                    assert(out@ =~= trimmed@ + seq!['\n', '\n'] + replacement@.push('\n'));
                } else {
                    assert(out@ =~= replacement@.push('\n'));
                }
            }
            out
        },
    }
}

} // verus!
