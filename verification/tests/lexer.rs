use petal::lexer::{tokenize, Token};

#[test]
fn an_unclosed_string_is_reported_on_its_line() {
    let err = tokenize("let a = 1\nlet b = \"oops\nlet c = 2\n").err().unwrap();
    assert_eq!(err, "unterminated string at line 2");
}

#[test]
fn an_unclosed_raw_string_is_reported_where_it_opens() {
    let err = tokenize("x\n\n\"\"\"never closed\n").err().unwrap();
    assert_eq!(err, "unterminated raw string at line 3");
}

#[test]
fn strings_with_interpolations_and_keywords_lex() {
    let l = tokenize("if x then \"a {f(\"b\")} c\" end").unwrap();
    assert!(matches!(l.tokens[0], Token::If));
    assert!(matches!(&l.tokens[1], Token::Ident(n) if n == "x"));
    assert!(matches!(l.tokens[2], Token::Then));
    assert!(matches!(l.tokens[3], Token::String));
    assert!(matches!(l.tokens[4], Token::End));
    assert!(matches!(l.tokens[5], Token::Eof));
    assert_eq!(l.tokens.len(), l.spans.len());
}
