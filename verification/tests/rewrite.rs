use petal::ast::{Expr, ExprKind, Stmt, StmtKind};
use petal::rewrite::{find_call, replace_or_append_call, splice};
use petal::source_map::{FileId, SourcePosition, SourceSpan};

fn span(start: usize, end: usize) -> SourceSpan {
    SourceSpan {
        start: SourcePosition { line: 1, column: 1, offset: start as u32 },
        end: SourcePosition { line: 1, column: 1, offset: end as u32 },
        file: FileId(0),
    }
}

/// The char span of the first `needle` in `src`.
fn char_span(src: &str, needle: &str) -> SourceSpan {
    let byte = src.find(needle).unwrap();
    let start = src[..byte].chars().count();
    span(start, start + needle.chars().count())
}

/// A statement `callee(...)` covering `text` in `src`.
fn call_stmt(src: &str, callee: &str, text: &str) -> Stmt {
    let s = char_span(src, text);
    let name_span = span(s.start.offset as usize, s.start.offset as usize + callee.len());
    let call = Expr {
        kind: ExprKind::Call {
            function: Box::new(Expr { kind: ExprKind::Ident(callee.to_string()), span: name_span }),
            args: vec![],
        },
        span: s,
    };
    Stmt { kind: StmtKind::Expr(call), span: s }
}

fn other_stmt(src: &str, text: &str) -> Stmt {
    Stmt { kind: StmtKind::Other, span: char_span(src, text) }
}

#[test]
fn finds_top_level_call_span() {
    let src = "x = 1\nlayout(editor())\n";
    let stmts = vec![other_stmt(src, "x = 1"), call_stmt(src, "layout", "layout(editor())")];
    let span = find_call(&stmts, "layout").expect("layout call found");
    let chars: Vec<char> = src.chars().collect();
    let text: String = chars[span.start.offset as usize..span.end.offset as usize].iter().collect();
    assert_eq!(text, "layout(editor())");
}

#[test]
fn splice_preserves_surrounding_code_and_comments() {
    let src = "// a comment\nx = 1\nlayout(editor())\n// trailing\n";
    let stmts = vec![other_stmt(src, "x = 1"), call_stmt(src, "layout", "layout(editor())")];
    let span = find_call(&stmts, "layout").unwrap();
    let out = splice(src, span, "layout(editor(\"new.rs\"))");
    assert_eq!(out, "// a comment\nx = 1\nlayout(editor(\"new.rs\"))\n// trailing\n");
}

#[test]
fn replace_or_append_replaces_existing() {
    let src = "layout(editor())\n";
    let stmts = vec![call_stmt(src, "layout", "layout(editor())")];
    let out = replace_or_append_call(src, &stmts, "layout", "layout(row([editor()]))");
    assert_eq!(out, "layout(row([editor()]))\n");
}

#[test]
fn replace_or_append_appends_when_missing() {
    let src = "set_theme({})\n";
    let stmts = vec![call_stmt(src, "set_theme", "set_theme({})")];
    let out = replace_or_append_call(src, &stmts, "layout", "layout(editor())");
    assert_eq!(out, "set_theme({})\n\nlayout(editor())\n");
}

#[test]
fn append_to_empty_source() {
    let out = replace_or_append_call("", &[], "layout", "layout(editor())");
    assert_eq!(out, "layout(editor())\n");
}

#[test]
fn multiline_call_span_is_replaced_whole() {
    let src = "layout(\n    column([\n        editor(),\n    ])\n)\nx = 2\n";
    let stmts = vec![
        call_stmt(src, "layout", "layout(\n    column([\n        editor(),\n    ])\n)"),
        other_stmt(src, "x = 2"),
    ];
    let span = find_call(&stmts, "layout").unwrap();
    let out = splice(src, span, "layout(editor())");
    assert_eq!(out, "layout(editor())\nx = 2\n");
}

#[test]
fn ignores_calls_with_other_names() {
    let src = "layout(editor())\n";
    let stmts = vec![call_stmt(src, "layout", "layout(editor())")];
    assert!(find_call(&stmts, "set_layout").is_none());
}

#[test]
fn replace_or_append_falls_back_to_string_splice_for_unparseable_replacement() {
    let src = "layout(editor())\n";
    let stmts = vec![call_stmt(src, "layout", "layout(editor())")];
    let out = replace_or_append_call(src, &stmts, "layout", "<<broken");
    assert_eq!(out, "<<broken\n");
}

#[test]
fn multibyte_source_splices_by_char() {
    let src = "// café ☕ notes\nlayout(editor())\n";
    let stmts = vec![call_stmt(src, "layout", "layout(editor())")];
    let span = find_call(&stmts, "layout").unwrap();
    let out = splice(src, span, "layout(editor(\"x\"))");
    assert_eq!(out, "// café ☕ notes\nlayout(editor(\"x\"))\n");
}

#[test]
fn a_stale_span_is_clamped_to_the_source() {
    assert_eq!(splice("abc", span(10, 20), "X"), "abcX");
    assert_eq!(splice("abc", span(2, 1), "X"), "abXc");
    assert_eq!(splice("abc", span(1, 99), "X"), "aX");
}

#[test]
fn a_call_nested_in_an_expression_is_not_found() {
    let src = "x = layout(a)\n";
    let inner = call_stmt(src, "layout", "layout(a)");
    let StmtKind::Expr(call) = inner.kind else { unreachable!() };
    let assign = Expr {
        kind: ExprKind::BinaryOp {
            op: petal::ast::BinOp::Eq,
            left: Box::new(Expr { kind: ExprKind::Ident("x".into()), span: span(0, 1) }),
            right: Box::new(call),
        },
        span: span(0, 13),
    };
    let stmts = vec![Stmt { kind: StmtKind::Expr(assign), span: span(0, 13) }];
    assert!(find_call(&stmts, "layout").is_none());
}
