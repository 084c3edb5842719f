use petal::lexer::Token;
use petal::parse::token_desc;

#[test]
fn tokens_are_spelled_as_the_reader_typed_them() {
    assert_eq!(token_desc(&Token::Comma, ","), "','");
    assert_eq!(token_desc(&Token::RBracket, "]"), "']'");
    assert_eq!(token_desc(&Token::End, "end"), "`end`");
    assert_eq!(token_desc(&Token::Pipe, "|>"), "'|>'");
    assert_eq!(token_desc(&Token::Ident("total".to_string()), "total"), "`total`");
    assert_eq!(token_desc(&Token::Int, "42"), "`42`");
    assert_eq!(token_desc(&Token::String, "\"hi\""), "a string literal");
    assert_eq!(token_desc(&Token::Newline, "\n"), "a line break");
    assert_eq!(token_desc(&Token::Eof, ""), "end of input");
    assert_eq!(token_desc(&Token::JsxCloseStart, "</"), "'</'");
}
