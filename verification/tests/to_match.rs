use petal::ast::{BinOp, Expr, ExprKind, Literal, Stmt, StmtKind};
use petal::lint::to_match::{apply_match_edits, plan_chain, Arm, Chain};
use petal::source_map::{FileId, SourcePosition, SourceSpan};

fn span(start: usize, end: usize) -> SourceSpan {
    SourceSpan {
        start: SourcePosition { line: 1, column: 1, offset: start as u32 },
        end: SourcePosition { line: 1, column: 1, offset: end as u32 },
        file: FileId(0),
    }
}

/// The span of the `nth` occurrence of `needle` in `src` (ASCII only).
fn find(src: &str, needle: &str, nth: usize) -> SourceSpan {
    let mut from = 0;
    let mut at = 0;
    for _ in 0..=nth {
        at = from + src[from..].find(needle).unwrap();
        from = at + needle.len();
    }
    span(at, at + needle.len())
}

fn ident(s: SourceSpan, name: &str) -> Expr {
    Expr { kind: ExprKind::Ident(name.to_string()), span: s }
}

fn lit(s: SourceSpan, l: Literal) -> Expr {
    Expr { kind: ExprKind::Literal(l), span: s }
}

fn expr_stmt(e: Expr) -> Vec<Stmt> {
    let s = e.span;
    vec![Stmt { kind: StmtKind::Expr(e), span: s }]
}

fn eq(left: Expr, right: Expr) -> Expr {
    let s = span(left.span.start.offset as usize, right.span.end.offset as usize);
    Expr { kind: ExprKind::BinaryOp { op: BinOp::Eq, left: Box::new(left), right: Box::new(right) }, span: s }
}

/// Builds the chain over `subject == "<lit_i>" then "<body_i>"` arms.
fn string_chain(src: &str, subject: &str, lits: &[&str], bodies: &[&str], else_body: Option<&str>) -> Chain {
    let mut arms = Vec::new();
    for (i, (l, b)) in lits.iter().zip(bodies.iter()).enumerate() {
        let cond = eq(
            ident(find(src, subject, i), subject),
            lit(find(src, l, 0), Literal::String(l.to_string())),
        );
        arms.push(Arm { cond, body: expr_stmt(lit(find(src, b, 0), Literal::String(b.to_string()))) });
    }
    let else_body = else_body.map(|e| expr_stmt(lit(find(src, e, 0), Literal::Nil)));
    Chain { arms, else_body, span: span(0, src.len()) }
}

const CHAIN: &str = "if ch == \"@\" then \"spawn\"\nelsif ch == \"o\" then \"coin\"\nelsif ch == \"w\" then \"walker\"\nelse nil\nend";

#[test]
fn chain_of_string_tests_becomes_a_match() {
    let chain = string_chain(
        CHAIN,
        "ch",
        &["\"@\"", "\"o\"", "\"w\""],
        &["\"spawn\"", "\"coin\"", "\"walker\""],
        Some("nil"),
    );
    let chars: Vec<char> = CHAIN.chars().collect();
    let splices = plan_chain(&chain, &chars).expect("chain converts");
    assert_eq!(splices.len(), 8);
    assert_eq!(
        apply_match_edits(&chars, &splices),
        "match ch\nwhen \"@\" -> \"spawn\"\nwhen \"o\" -> \"coin\"\nwhen \"w\" -> \"walker\"\nwhen _ -> nil\nend"
    );
}

#[test]
fn chain_without_else_gains_a_nil_arm() {
    let src = "if ch == \"a\" then \"x\"\nelsif ch == \"b\" then \"y\"\nelsif ch == \"c\" then \"z\"\nend";
    let chain = string_chain(src, "ch", &["\"a\"", "\"b\"", "\"c\""], &["\"x\"", "\"y\"", "\"z\""], None);
    let chars: Vec<char> = src.chars().collect();
    let splices = plan_chain(&chain, &chars).expect("chain converts");
    assert_eq!(
        apply_match_edits(&chars, &splices),
        "match ch\nwhen \"a\" -> \"x\"\nwhen \"b\" -> \"y\"\nwhen \"c\" -> \"z\"\nwhen _ -> nil\nend"
    );
}

#[test]
fn two_arms_are_left_alone() {
    let src = "if ch == \"a\" then \"x\"\nelsif ch == \"b\" then \"y\"\nend";
    let chain = string_chain(src, "ch", &["\"a\"", "\"b\""], &["\"x\"", "\"y\""], None);
    let chars: Vec<char> = src.chars().collect();
    assert!(plan_chain(&chain, &chars).is_none());
}

#[test]
fn a_comment_in_the_glue_blocks_the_rewrite() {
    let src = "if ch == \"a\" then \"x\" // first\nelsif ch == \"b\" then \"y\"\nelsif ch == \"c\" then \"z\"\nend";
    let chain = string_chain(src, "ch", &["\"a\"", "\"b\"", "\"c\""], &["\"x\"", "\"y\"", "\"z\""], None);
    let chars: Vec<char> = src.chars().collect();
    assert!(plan_chain(&chain, &chars).is_none());
}

#[test]
fn a_different_subject_blocks_the_rewrite() {
    let src = "if ch == \"a\" then \"x\"\nelsif ch == \"b\" then \"y\"\nelsif chr == \"c\" then \"z\"\nend";
    let mut chain = string_chain(src, "ch", &["\"a\"", "\"b\""], &["\"x\"", "\"y\""], None);
    let cond = eq(ident(find(src, "chr", 0), "chr"), lit(find(src, "\"c\"", 0), Literal::String("\"c\"".into())));
    chain.arms.push(Arm { cond, body: expr_stmt(lit(find(src, "\"z\"", 0), Literal::String("z".into()))) });
    let chars: Vec<char> = src.chars().collect();
    assert!(plan_chain(&chain, &chars).is_none());
}

#[test]
fn a_numeric_literal_blocks_the_rewrite() {
    let src = "if n == 1 then \"x\"\nelsif n == 2 then \"y\"\nelsif n == 3 then \"z\"\nend";
    let mut arms = Vec::new();
    for (i, (l, b)) in ["1", "2", "3"].iter().zip(["\"x\"", "\"y\"", "\"z\""].iter()).enumerate() {
        let cond = eq(ident(find(src, "n ==", i), "n"), lit(find(src, l, 0), Literal::Int(i as i64 + 1)));
        arms.push(Arm { cond, body: expr_stmt(lit(find(src, b, 0), Literal::String(b.to_string()))) });
    }
    let chain = Chain { arms, else_body: None, span: span(0, src.len()) };
    let chars: Vec<char> = src.chars().collect();
    assert!(plan_chain(&chain, &chars).is_none());
}
