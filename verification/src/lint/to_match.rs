//! Rewriting an `if`/`elsif` chain that tests one subject against literals
//! into a `match`, as text splices, and applying splices.
//!
//! ```text
//! if ch == "@" then "spawn"          match ch
//! elsif ch == "o" then "coin"    =>    when "@" -> "spawn"
//! elsif ch == "w" then "walker"        when "o" -> "coin"
//! else nil                             when "w" -> "walker"
//! end                                  when _ -> nil
//!                                    end
//! ```
//!
//! The rewrite fires only where it is unambiguous: three or more arms, one
//! subject that cannot compute (a name or a field path off one), spelled the
//! same in every arm, string, boolean or `nil` literals (a number's `==`
//! crosses int and float, its pattern does not), one expression per arm, and
//! no comment in the glue it replaces. A chain with no `else` gains
//! `when _ -> nil`, since a `match` with no matching arm is an error where
//! the `if` gave nil.

use vstd::prelude::*;
use crate::ast::{BinOp, Expr, ExprKind, Literal, Stmt, StmtKind};
use crate::source_map::SourceSpan;
use crate::text::{
    chars_eq, chars_eq_str, chars_of, ends_with, ends_with_chars, slice_chars, starts_with,
    starts_with_chars, string_from, trim, trim_chars, trim_end, trim_end_chars, trim_start,
    trim_start_chars,
};

verus! {

/// Replace the characters `start..end` with `text`.
#[derive(Debug, Clone)]
pub struct Splice {
    pub start: usize,
    pub end: usize,
    pub text: String,
}

/// `t` with the characters `s.start..s.end` replaced by `s.text`.
pub open spec fn apply_one(t: Seq<char>, s: Splice) -> Seq<char> {
    t.subrange(0, s.start as int) + s.text@ + t.subrange(s.end as int, t.len() as int)
}

/// Splices that lie inside a text of `n` characters, sorted by start, none
/// overlapping the next.
pub open spec fn splices_ok(sp: Seq<Splice>, n: int) -> bool {
    &&& forall|k: int| #![trigger sp[k]] 0 <= k < sp.len() ==> sp[k].start <= sp[k].end <= n
    &&& forall|k: int| #![trigger sp[k]] 0 < k < sp.len() ==> sp[k - 1].end <= sp[k].start
}

/// The text after every splice of `sp` is applied, the last one first, so
/// that each splice's offsets still refer to the text it was planned on.
pub open spec fn applied(t: Seq<char>, sp: Seq<Splice>) -> Seq<char>
    decreases sp.len(),
{
    if sp.len() == 0 {
        t
    } else {
        apply_one(applied(t, sp.drop_first()), sp[0])
    }
}

/// Applying splices that all start at or after `at` leaves the first `at`
/// characters alone.
proof fn lemma_applied_keeps_prefix(t: Seq<char>, sp: Seq<Splice>, at: int)
    requires
        splices_ok(sp, t.len() as int),
        0 <= at <= t.len(),
        sp.len() > 0 ==> at <= sp[0].start,
    ensures
        applied(t, sp).len() >= at,
        applied(t, sp).subrange(0, at) == t.subrange(0, at),
    decreases sp.len(),
{
    if sp.len() > 0 {
        let rest = sp.drop_first();
        assert(splices_ok(rest, t.len() as int)) by {
            assert forall|k: int| #![trigger rest[k]] 0 <= k < rest.len() implies rest[k].start <= rest[k].end <= t.len() by {
                assert(rest[k] == sp[k + 1]);
            }
            assert forall|k: int| #![trigger rest[k]] 0 < k < rest.len() implies rest[k - 1].end <= rest[k].start by {
                assert(rest[k] == sp[k + 1]);
                assert(rest[k - 1] == sp[k]);
            }
        }
        let s = sp[0];
        if rest.len() > 0 {
            assert(rest[0] == sp[1]);
        }
        lemma_applied_keeps_prefix(t, rest, s.end as int);
        let inner = applied(t, rest);
        assert(applied(t, sp) == apply_one(inner, s));
        assert(applied(t, sp).subrange(0, at) =~= inner.subrange(0, s.end as int).subrange(0, at));
        assert(t.subrange(0, s.end as int).subrange(0, at) =~= t.subrange(0, at));
    }
}

/// Apply `splices` (sorted, not overlapping) to `chars`, last first.
pub fn apply_match_edits(chars: &[char], splices: &[Splice]) -> (r: String)
    requires
        splices_ok(splices@, chars@.len() as int),
    ensures
        r@ == applied(chars@, splices@),
{
    let mut out: Vec<char> = crate::text::slice_chars(chars, 0, chars.len());
    let mut k: usize = splices.len();
    proof {
        assert(splices@.subrange(k as int, splices.len() as int).len() == 0);
        assert(out@ =~= chars@);
    }
    while k > 0
        invariant
            k <= splices.len(),
            splices_ok(splices@, chars@.len() as int),
            out@ == applied(chars@, splices@.subrange(k as int, splices.len() as int)),
        decreases k,
    {
        let ghost rest = splices@.subrange(k as int, splices.len() as int);
        let s = &splices[k - 1];
        proof {
            assert(splices_ok(rest, chars@.len() as int)) by {
                assert forall|j: int| #![trigger rest[j]] 0 <= j < rest.len() implies rest[j].start <= rest[j].end <= chars@.len() by {
                    assert(rest[j] == splices@[k + j]);
                }
                assert forall|j: int| #![trigger rest[j]] 0 < j < rest.len() implies rest[j - 1].end <= rest[j].start by {
                    assert(rest[j] == splices@[k + j]);
                    assert(rest[j - 1] == splices@[k + j - 1]);
                }
            }
            if rest.len() > 0 {
                assert(rest[0] == splices@[k as int]);
            }
            lemma_applied_keeps_prefix(chars@, rest, s.end as int);
        }
        let text = crate::text::chars_of(s.text.as_str());
        let mut next: Vec<char> = Vec::new();
        let mut i: usize = 0;
        while i < s.start
            invariant
                i <= s.start <= s.end <= out.len(),
                next@ == out@.subrange(0, i as int),
            decreases s.start - i,
        {
            next.push(out[i]);
            proof {
                assert(out@.subrange(0, (i + 1) as int) == out@.subrange(0, i as int).push(out@[i as int]));
            }
            i = i + 1;
        }
        let mut j: usize = 0;
        while j < text.len()
            invariant
                j <= text.len(),
                next@ == out@.subrange(0, s.start as int) + text@.subrange(0, j as int),
            decreases text.len() - j,
        {
            next.push(text[j]);
            proof {
                assert(text@.subrange(0, (j + 1) as int) == text@.subrange(0, j as int).push(text@[j as int]));
            }
            j = j + 1;
        }
        let mut e: usize = s.end;
        while e < out.len()
            invariant
                s.end <= e <= out.len(),
                next@ == out@.subrange(0, s.start as int) + text@ + out@.subrange(s.end as int, e as int),
            decreases out.len() - e,
        {
            next.push(out[e]);
            proof {
                assert(out@.subrange(s.end as int, (e + 1) as int) == out@.subrange(s.end as int, e as int).push(out@[e as int]));
            }
            e = e + 1;
        }
        proof {
            assert(text@.subrange(0, text.len() as int) == text@);
            let whole = splices@.subrange((k - 1) as int, splices.len() as int);
            assert(whole[0] == splices@[k - 1]);
            assert(whole.drop_first() =~= rest);
            assert(next@ =~= apply_one(out@, splices@[k - 1]));
        }
        out = next;
        k = k - 1;
    }
    proof {
        assert(splices@.subrange(0, splices.len() as int) == splices@);
    }
    crate::text::string_of(out.as_slice())
}

/// The shortest chain worth converting. At two arms `if … else … end` is the
/// plainer spelling.
pub const MIN_ARMS: usize = 3;

/// One arm of an `if`/`elsif` chain: its condition and its body.
#[derive(Debug)]
pub struct Arm {
    pub cond: Expr,
    pub body: Vec<Stmt>,
}

/// An `if`/`elsif`/`else` chain, flattened into its arms. `span` covers the
/// whole chain, its trailing `end` included.
#[derive(Debug)]
pub struct Chain {
    pub arms: Vec<Arm>,
    pub else_body: Option<Vec<Stmt>>,
    pub span: SourceSpan,
}

/// The character offset a span starts at.
pub open spec fn start_of(s: SourceSpan) -> int {
    s.start.offset as int
}

/// The character offset a span ends at.
pub open spec fn end_of(s: SourceSpan) -> int {
    s.end.offset as int
}

/// A name, or a field path off a name: nothing that could compute.
pub open spec fn is_pure_subject(e: Expr) -> bool
    decreases e,
{
    match e.kind {
        ExprKind::Ident(_) => true,
        ExprKind::FieldAccess { object, .. } => is_pure_subject(*object),
        _ => false,
    }
}

/// The literals whose `==` and whose `when` pattern agree exactly: strings,
/// booleans and `nil` (a number compares across int and float, a pattern
/// does not).
pub open spec fn is_exact_literal(e: Expr) -> bool {
    match e.kind {
        ExprKind::Literal(l) => l is String || l is Bool || l is Nil,
        _ => false,
    }
}

/// The span of `body` when it is exactly one expression statement.
pub open spec fn single_expr_span(body: Seq<Stmt>) -> Option<SourceSpan> {
    if body.len() == 1 {
        match body[0].kind {
            StmtKind::Expr(e) => Some(e.span),
            StmtKind::Other => None,
        }
    } else {
        None
    }
}

/// For an arm `<subject> == <literal> then <expr>`: the spans of the subject,
/// the literal and the body expression.
pub open spec fn arm_parts(a: Arm) -> Option<(SourceSpan, SourceSpan, SourceSpan)> {
    match a.cond.kind {
        ExprKind::BinaryOp { op, left, right } => match single_expr_span(a.body@) {
            Some(b) => if op == BinOp::Eq && is_pure_subject(*left) && is_exact_literal(*right) {
                Some((left.span, right.span, b))
            } else {
                None
            },
            None => None,
        },
        _ => None,
    }
}

/// The parts of arm `i` of a chain whose arms all have them.
pub open spec fn parts(c: Chain, i: int) -> (SourceSpan, SourceSpan, SourceSpan) {
    match arm_parts(c.arms@[i]) {
        Some(p) => p,
        None => vstd::pervasive::arbitrary(),
    }
}

/// The subject's span in arm `i`.
pub open spec fn lhs(c: Chain, i: int) -> SourceSpan {
    parts(c, i).0
}

/// The literal's span in arm `i`.
pub open spec fn rhs(c: Chain, i: int) -> SourceSpan {
    parts(c, i).1
}

/// The body expression's span in arm `i`.
pub open spec fn body(c: Chain, i: int) -> SourceSpan {
    parts(c, i).2
}

/// The span of the `else` expression, when the `else` body is one.
pub open spec fn else_span(c: Chain) -> Option<SourceSpan> {
    match c.else_body {
        Some(b) => single_expr_span(b@),
        None => None,
    }
}

/// The source under `s`, when `s` lies inside `chars`.
pub open spec fn span_text(chars: Seq<char>, s: SourceSpan) -> Option<Seq<char>> {
    if start_of(s) <= end_of(s) <= chars.len() {
        Some(chars.subrange(start_of(s), end_of(s)))
    } else {
        None
    }
}

/// Whether `t` holds a `//` comment.
pub open spec fn has_comment(t: Seq<char>) -> bool {
    exists|k: int| 0 <= k && k + 1 < t.len() && #[trigger] t[k] == '/' && t[k + 1] == '/'
}

/// The source between two nodes, when it lies inside `chars` and holds no
/// comment.
pub open spec fn glue(chars: Seq<char>, a: int, b: int) -> Option<Seq<char>> {
    if 0 <= a <= b <= chars.len() && !has_comment(chars.subrange(a, b)) {
        Some(chars.subrange(a, b))
    } else {
        None
    }
}

/// Whether the glue between `a` and `b` is the word `w`, up to whitespace.
pub open spec fn glue_is(chars: Seq<char>, a: int, b: int, w: Seq<char>) -> bool {
    glue(chars, a, b) matches Some(g) && trim(g) == w
}

/// The subject as the first arm spells it.
pub open spec fn subject(c: Chain, chars: Seq<char>) -> Seq<char> {
    trim(chars.subrange(start_of(lhs(c, 0)), end_of(lhs(c, 0))))
}

/// Where arm `i`'s head starts: after the first subject, or after the
/// previous arm's body.
pub open spec fn arm_from(c: Chain, i: int) -> int {
    if i == 0 {
        end_of(lhs(c, 0))
    } else {
        end_of(body(c, i - 1))
    }
}

/// Whether trimmed glue `t` reads `elsif <subj> ==`.
pub open spec fn elsif_head(t: Seq<char>, subj: Seq<char>) -> bool {
    let kw = "elsif"@;
    let after = t.subrange(kw.len() as int, t.len() as int);
    let so = trim_start(after);
    &&& starts_with(t, kw)
    &&& so.len() != after.len()
    &&& starts_with(so, subj)
    &&& trim(so.subrange(subj.len() as int, so.len() as int)) == "=="@
}

/// Arm `i` spells the subject as the first arm does.
pub open spec fn arm_subject_ok(c: Chain, chars: Seq<char>, i: int) -> bool {
    span_text(chars, lhs(c, i)) matches Some(t) && trim(t) == subject(c, chars)
}

/// Arm `i`'s head is ` == ` (first arm) or `elsif <subject> == `.
pub open spec fn arm_head_ok(c: Chain, chars: Seq<char>, i: int) -> bool {
    glue(chars, arm_from(c, i), start_of(rhs(c, i))) matches Some(g) && if i == 0 {
        trim(g) == "=="@
    } else {
        elsif_head(trim(g), subject(c, chars))
    }
}

/// Arm `i`'s literal and body are joined by `then`.
pub open spec fn arm_then_ok(c: Chain, chars: Seq<char>, i: int) -> bool {
    glue_is(chars, end_of(rhs(c, i)), start_of(body(c, i)), "then"@)
}

/// Where the last arm's body ends.
pub open spec fn last_end(c: Chain) -> int {
    end_of(body(c, c.arms@.len() - 1))
}

/// Where the chain's tail (its `end`) begins.
pub open spec fn tail_from(c: Chain) -> int {
    match else_span(c) {
        Some(es) => end_of(es),
        None => last_end(c),
    }
}

/// Whether the chain can be rewritten to a `match`: at least [`MIN_ARMS`]
/// arms, each `<subject> == <string, bool or nil literal> then <expr>` over
/// one pure subject spelled the same way each time, an `else` (if any) of one
/// expression, and glue that is exactly `if`, `==`, `elsif <subject> ==`,
/// `then`, `else` with no comment, ending in `end`.
pub open spec fn plan_ok(c: Chain, chars: Seq<char>) -> bool {
    let n = c.arms@.len() as int;
    &&& n >= MIN_ARMS
    &&& forall|i: int| 0 <= i < n ==> arm_parts(#[trigger] c.arms@[i]) is Some
    &&& c.else_body is Some ==> else_span(c) is Some
    &&& forall|i: int| 0 <= i < n ==> #[trigger] arm_subject_ok(c, chars, i)
    &&& end_of(c.span) <= chars.len()
    &&& glue_is(chars, start_of(c.span), start_of(lhs(c, 0)), "if"@)
    &&& forall|i: int| 0 <= i < n ==> #[trigger] arm_head_ok(c, chars, i)
    &&& forall|i: int| 0 <= i < n ==> #[trigger] arm_then_ok(c, chars, i)
    &&& (else_span(c) matches Some(es) ==> glue_is(chars, last_end(c), start_of(es), "else"@))
    &&& tail_from(c) <= end_of(c.span)
    &&& ends_with(trim_end(chars.subrange(tail_from(c), end_of(c.span))), "end"@)
}

/// Splice `k` of the rewrite, as (start, end, text): `if ` becomes `match `;
/// each arm head becomes a line `when `; each `then` becomes ` -> `; the
/// `else` becomes `when _ -> `, or, with no `else`, `when _ -> nil` is added
/// after the last body.
pub open spec fn planned_at(c: Chain, k: int) -> (int, int, Seq<char>) {
    let n = c.arms@.len() as int;
    if k == 0 {
        (start_of(c.span), start_of(lhs(c, 0)), "match "@)
    } else if k == 2 * n + 1 {
        match else_span(c) {
            Some(es) => (last_end(c), start_of(es), "\nwhen _ -> "@),
            None => (last_end(c), last_end(c), "\nwhen _ -> nil"@),
        }
    } else if k % 2 == 1 {
        (arm_from(c, (k - 1) / 2), start_of(rhs(c, (k - 1) / 2)), "\nwhen "@)
    } else {
        (end_of(rhs(c, (k - 2) / 2)), start_of(body(c, (k - 2) / 2)), " -> "@)
    }
}

/// Whether the splices `v` are exactly the planned splices of `c`.
pub open spec fn splices_are(v: Seq<Splice>, c: Chain) -> bool {
    &&& v.len() == 2 * c.arms@.len() + 2
    &&& forall|k: int| 0 <= k < v.len() ==> (#[trigger] v[k].start as int, v[k].end as int, v[k].text@) == planned_at(c, k)
}

/// Every arm's literal and body span runs forwards, as a parser's spans do.
pub open spec fn spans_wf(c: Chain) -> bool {
    forall|i: int|
        0 <= i < c.arms@.len() ==> start_of(#[trigger] rhs(c, i)) <= end_of(rhs(c, i)) && start_of(body(c, i))
            <= end_of(body(c, i))
}

/// The planned splices of a convertible chain with forward spans lie inside
/// the text, sorted and not overlapping, so they can be applied.
pub proof fn lemma_planned_splices_ok(c: Chain, chars: Seq<char>, v: Seq<Splice>)
    requires
        plan_ok(c, chars),
        splices_are(v, c),
        spans_wf(c),
    ensures
        splices_ok(v, chars.len() as int),
{
    let n = c.arms@.len() as int;
    assert forall|k: int| #![trigger v[k]] 0 <= k < v.len() implies v[k].start <= v[k].end <= chars.len() by {
        assert((v[k].start as int, v[k].end as int, v[k].text@) == planned_at(c, k));
        if k == 0 {
        } else if k == 2 * n + 1 {
        } else if k % 2 == 1 {
            assert(arm_head_ok(c, chars, (k - 1) / 2));
        } else {
            assert(arm_then_ok(c, chars, (k - 2) / 2));
        }
    }
    assert forall|k: int| #![trigger v[k]] 0 < k < v.len() implies v[k - 1].end <= v[k].start by {
        assert((v[k].start as int, v[k].end as int, v[k].text@) == planned_at(c, k));
        assert((v[k - 1].start as int, v[k - 1].end as int, v[k - 1].text@) == planned_at(c, k - 1));
        if k == 1 {
            assert(arm_subject_ok(c, chars, 0));
        } else if k == 2 * n + 1 {
            assert((k - 1 - 2) / 2 == n - 1);
            assert(start_of(rhs(c, n - 1)) <= end_of(rhs(c, n - 1)));
        } else if k % 2 == 1 {
            let i = (k - 1) / 2;
            assert((k - 1 - 2) / 2 == i - 1);
            assert(start_of(rhs(c, i - 1)) <= end_of(rhs(c, i - 1)));
        } else {
            let i = (k - 2) / 2;
            assert((k - 1 - 1) / 2 == i);
            assert(start_of(rhs(c, i)) <= end_of(rhs(c, i)));
        }
    }
}

fn is_pure_subject_of(e: &Expr) -> (r: bool)
    ensures
        r == is_pure_subject(*e),
    decreases e,
{
    match &e.kind {
        ExprKind::Ident(_) => true,
        ExprKind::FieldAccess { object, .. } => is_pure_subject_of(object),
        _ => false,
    }
}

fn is_exact_literal_of(e: &Expr) -> (r: bool)
    ensures
        r == is_exact_literal(*e),
{
    match &e.kind {
        ExprKind::Literal(Literal::String(_)) => true,
        ExprKind::Literal(Literal::Bool(_)) => true,
        ExprKind::Literal(Literal::Nil) => true,
        _ => false,
    }
}

fn single_expr_span_of(body: &[Stmt]) -> (r: Option<SourceSpan>)
    ensures
        r == single_expr_span(body@),
{
    if body.len() == 1 {
        match &body[0].kind {
            StmtKind::Expr(e) => Some(e.span),
            StmtKind::Other => None,
        }
    } else {
        None
    }
}

fn arm_parts_of(a: &Arm) -> (r: Option<(SourceSpan, SourceSpan, SourceSpan)>)
    ensures
        r == arm_parts(*a),
{
    match &a.cond.kind {
        ExprKind::BinaryOp { op, left, right } => match single_expr_span_of(a.body.as_slice()) {
            Some(b) => {
                let is_eq = match op {
                    BinOp::Eq => true,
                    _ => false,
                };
                if is_eq && is_pure_subject_of(left) && is_exact_literal_of(right) {
                    Some((left.span, right.span, b))
                } else {
                    None
                }
            },
            None => None,
        },
        _ => None,
    }
}

fn has_comment_of(t: &[char]) -> (r: bool)
    ensures
        r == has_comment(t@),
{
    let mut k: usize = 0;
    while k < t.len() && k + 1 < t.len()
        invariant
            k <= t.len(),
            forall|j: int| 0 <= j < k && j + 1 < t@.len() ==> !(#[trigger] t@[j] == '/' && t@[j + 1] == '/'),
        decreases t.len() - k,
    {
        if t[k] == '/' && t[k + 1] == '/' {
            return true;
        }
        k = k + 1;
    }
    false
}

fn span_text_of(chars: &[char], s: SourceSpan) -> (r: Option<Vec<char>>)
    ensures
        match r {
            Some(t) => span_text(chars@, s) == Some(t@),
            None => span_text(chars@, s) is None,
        },
{
    let a = s.start.offset as usize;
    let b = s.end.offset as usize;
    if a <= b && b <= chars.len() {
        Some(slice_chars(chars, a, b))
    } else {
        None
    }
}

fn glue_of(chars: &[char], a: usize, b: usize) -> (r: Option<Vec<char>>)
    ensures
        match r {
            Some(g) => glue(chars@, a as int, b as int) == Some(g@),
            None => glue(chars@, a as int, b as int) is None,
        },
{
    if a > b || b > chars.len() {
        return None;
    }
    let t = slice_chars(chars, a, b);
    if has_comment_of(t.as_slice()) {
        return None;
    }
    Some(t)
}

fn glue_is_of(chars: &[char], a: usize, b: usize, w: &str) -> (r: bool)
    ensures
        r == glue_is(chars@, a as int, b as int, w@),
{
    match glue_of(chars, a, b) {
        Some(g) => {
            let t = trim_chars(g.as_slice());
            chars_eq_str(t.as_slice(), w)
        },
        None => false,
    }
}

fn elsif_head_of(t: &[char], subj: &[char]) -> (r: bool)
    ensures
        r == elsif_head(t@, subj@),
{
    let kw = chars_of("elsif");
    if !starts_with_chars(t, kw.as_slice()) {
        return false;
    }
    let after = slice_chars(t, kw.len(), t.len());
    let so = trim_start_chars(after.as_slice());
    if so.len() == after.len() {
        return false;
    }
    if !starts_with_chars(so.as_slice(), subj) {
        return false;
    }
    let rest = slice_chars(so.as_slice(), subj.len(), so.len());
    let rt = trim_chars(rest.as_slice());
    chars_eq_str(rt.as_slice(), "==")
}

/// Plan the rewrite of one chain into a `match`: the splices, in source
/// order, or `None` when the chain is not one this rule converts. The
/// splices only ever cover glue (`if`, `==`, `then`, `elsif <subject> ==`,
/// `else`); every literal and body stays as written, and the chain's own
/// `end` closes the `match`.
pub fn plan_chain(chain: &Chain, chars: &[char]) -> (r: Option<Vec<Splice>>)
    ensures
        r is Some <==> plan_ok(*chain, chars@),
        r matches Some(v) ==> splices_are(v@, *chain),
        spans_wf(*chain) ==> (r matches Some(v) ==> splices_ok(v@, chars@.len() as int)),
{
    let n = chain.arms.len();
    if n < MIN_ARMS {
        return None;
    }
    let mut lv: Vec<SourceSpan> = Vec::new();
    let mut rv: Vec<SourceSpan> = Vec::new();
    let mut bv: Vec<SourceSpan> = Vec::new();
    let mut i: usize = 0;
    while i < n
        invariant
            n == chain.arms@.len(),
            i <= n,
            lv@.len() == i,
            rv@.len() == i,
            bv@.len() == i,
            forall|k: int| 0 <= k < i ==> arm_parts(#[trigger] chain.arms@[k]) == Some((lv@[k], rv@[k], bv@[k])),
        decreases n - i,
    {
        match arm_parts_of(&chain.arms[i]) {
            Some(p) => {
                lv.push(p.0);
                rv.push(p.1);
                bv.push(p.2);
            },
            None => {
                return None;
            },
        }
        i = i + 1;
    }
    assert(forall|k: int| 0 <= k < n ==> lhs(*chain, k) == lv@[k] && rhs(*chain, k) == rv@[k] && body(*chain, k) == bv@[k]);
    let else_sp: Option<SourceSpan> = match &chain.else_body {
        Some(b) => match single_expr_span_of(b.as_slice()) {
            Some(s) => Some(s),
            None => {
                return None;
            },
        },
        None => None,
    };
    assert(else_sp == else_span(*chain));

    // The subject is written once in the `match` head, so every arm has to
    // spell it the same way.
    let first = match span_text_of(chars, lv[0]) {
        Some(t) => t,
        None => {
            assert(!arm_subject_ok(*chain, chars@, 0));
            return None;
        },
    };
    let subj = trim_chars(first.as_slice());
    assert(subj@ == subject(*chain, chars@));
    let mut i: usize = 0;
    while i < n
        invariant
            n == chain.arms@.len(),
            i <= n,
            lv@.len() == n,
            subj@ == subject(*chain, chars@),
            forall|k: int| 0 <= k < n ==> lhs(*chain, k) == lv@[k],
            forall|k: int| 0 <= k < i ==> #[trigger] arm_subject_ok(*chain, chars@, k),
        decreases n - i,
    {
        match span_text_of(chars, lv[i]) {
            Some(t) => {
                let tt = trim_chars(t.as_slice());
                if !chars_eq(tt.as_slice(), subj.as_slice()) {
                    assert(!arm_subject_ok(*chain, chars@, i as int));
                    return None;
                }
            },
            None => {
                assert(!arm_subject_ok(*chain, chars@, i as int));
                return None;
            },
        }
        i = i + 1;
    }

    let if_start = chain.span.start.offset as usize;
    let if_end = chain.span.end.offset as usize;
    if if_end > chars.len() {
        return None;
    }
    let head_end = lv[0].start.offset as usize;
    if !glue_is_of(chars, if_start, head_end, "if") {
        return None;
    }
    let mut splices: Vec<Splice> = Vec::new();
    splices.push(Splice { start: if_start, end: head_end, text: string_from("match ") });

    let mut i: usize = 0;
    while i < n
        invariant
            n == chain.arms@.len(),
            n >= MIN_ARMS,
            i <= n,
            lv@.len() == n,
            rv@.len() == n,
            bv@.len() == n,
            subj@ == subject(*chain, chars@),
            forall|k: int| 0 <= k < n ==> lhs(*chain, k) == lv@[k] && rhs(*chain, k) == rv@[k] && body(*chain, k) == bv@[k],
            forall|k: int| 0 <= k < i ==> #[trigger] arm_head_ok(*chain, chars@, k),
            forall|k: int| 0 <= k < i ==> #[trigger] arm_then_ok(*chain, chars@, k),
            splices@.len() == 2 * i + 1,
            forall|k: int| 0 <= k < 2 * i + 1 ==> (#[trigger] splices@[k].start as int, splices@[k].end as int, splices@[k].text@) == planned_at(*chain, k),
        decreases n - i,
    {
        let from = if i == 0 {
            lv[0].end.offset as usize
        } else {
            bv[i - 1].end.offset as usize
        };
        let to = rv[i].start.offset as usize;
        assert(from as int == arm_from(*chain, i as int));
        let g = match glue_of(chars, from, to) {
            Some(g) => g,
            None => {
                assert(!arm_head_ok(*chain, chars@, i as int));
                return None;
            },
        };
        let gt = trim_chars(g.as_slice());
        let head_ok = if i == 0 {
            chars_eq_str(gt.as_slice(), "==")
        } else {
            elsif_head_of(gt.as_slice(), subj.as_slice())
        };
        if !head_ok {
            assert(!arm_head_ok(*chain, chars@, i as int));
            return None;
        }
        assert(arm_head_ok(*chain, chars@, i as int));
        splices.push(Splice { start: from, end: to, text: string_from("\nwhen ") });
        let then_from = rv[i].end.offset as usize;
        let then_to = bv[i].start.offset as usize;
        if !glue_is_of(chars, then_from, then_to, "then") {
            assert(!arm_then_ok(*chain, chars@, i as int));
            return None;
        }
        assert(arm_then_ok(*chain, chars@, i as int));
        splices.push(Splice { start: then_from, end: then_to, text: string_from(" -> ") });
        proof {
            let k1 = 2 * i + 1;
            let k2 = 2 * i + 2;
            assert(k1 % 2 == 1 && (k1 - 1) / 2 == i);
            assert(k2 % 2 == 0 && (k2 - 2) / 2 == i);
            assert(splices@[k1 as int].start as int == planned_at(*chain, k1 as int).0);
            assert(splices@[k2 as int].start as int == planned_at(*chain, k2 as int).0);
        }
        i = i + 1;
    }

    let last_body_end = bv[n - 1].end.offset as usize;
    assert(last_body_end as int == last_end(*chain));
    match else_sp {
        Some(es) => {
            let to = es.start.offset as usize;
            if !glue_is_of(chars, last_body_end, to, "else") {
                return None;
            }
            splices.push(Splice { start: last_body_end, end: to, text: string_from("\nwhen _ -> ") });
        },
        None => {
            splices.push(Splice { start: last_body_end, end: last_body_end, text: string_from("\nwhen _ -> nil") });
        },
    }

    // `match` closes with `end` exactly as the chain did, so the tail needs
    // no edit, only a check that it is the tail it should be.
    let tail_start = match else_sp {
        Some(es) => es.end.offset as usize,
        None => last_body_end,
    };
    assert(tail_start as int == tail_from(*chain));
    if tail_start > if_end {
        return None;
    }
    let tail = slice_chars(chars, tail_start, if_end);
    let tail_trimmed = trim_end_chars(tail.as_slice());
    let end_word = chars_of("end");
    if !ends_with_chars(tail_trimmed.as_slice(), end_word.as_slice()) {
        return None;
    }
    proof {
        if spans_wf(*chain) {
            lemma_planned_splices_ok(*chain, chars@, splices@);
        }
    }
    Some(splices)
}

} // verus!
