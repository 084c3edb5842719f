//! Parser support: how tokens are spelled in diagnostics.

use vstd::prelude::*;
use crate::lexer::Token;
use crate::text::{push_char, push_str, string_from};

verus! {

/// A word the reader typed, as a diagnostic shows it: in backticks.
pub open spec fn ticked(s: Seq<char>) -> Seq<char> {
    seq!['`'] + s + seq!['`']
}

/// Punctuation the reader typed, as a diagnostic shows it: in quotes.
pub open spec fn quoted(s: Seq<char>) -> Seq<char> {
    seq!['\''] + s + seq!['\'']
}

/// How token `t` is spelled in a diagnostic. `text` is the source under the
/// token; it spells the number of a numeric literal and an operator that has
/// no token of its own.
pub open spec fn token_desc_spec(t: Token, text: Seq<char>) -> Seq<char> {
    match t {
        Token::Int => ticked(text),
        Token::Float => ticked(text),
        Token::String => "a string literal"@,
        Token::Ident(name) => ticked(name@),
        Token::JsxTagName(name) => ticked(name@),
        Token::JsxText => "text"@,
        Token::Newline => "a line break"@,
        Token::Eof => "end of input"@,
        Token::Op => quoted(text),
        Token::True => ticked("true"@),
        Token::False => ticked("false"@),
        Token::Nil => ticked("nil"@),
        Token::Let => ticked("let"@),
        Token::Var => ticked("var"@),
        Token::Fn => ticked("fn"@),
        Token::If => ticked("if"@),
        Token::Else => ticked("else"@),
        Token::For => ticked("for"@),
        Token::In => ticked("in"@),
        Token::While => ticked("while"@),
        Token::Match => ticked("match"@),
        Token::Return => ticked("return"@),
        Token::Break => ticked("break"@),
        Token::Continue => ticked("continue"@),
        Token::State => ticked("state"@),
        Token::Enum => ticked("enum"@),
        Token::End => ticked("end"@),
        Token::Then => ticked("then"@),
        Token::Do => ticked("do"@),
        Token::Elsif => ticked("elsif"@),
        Token::When => ticked("when"@),
        Token::Import => ticked("import"@),
        Token::Export => ticked("export"@),
        Token::Plus => quoted("+"@),
        Token::Minus => quoted("-"@),
        Token::Star => quoted("*"@),
        Token::Slash => quoted("/"@),
        Token::Percent => quoted("%"@),
        Token::Eq => quoted("=="@),
        Token::Ne => quoted("!="@),
        Token::Lt => quoted("<"@),
        Token::Le => quoted("<="@),
        Token::Gt => quoted(">"@),
        Token::Ge => quoted(">="@),
        Token::And => quoted("&&"@),
        Token::Or => quoted("||"@),
        Token::DoubleQuestion => quoted("??"@),
        Token::Bang => quoted("!"@),
        Token::Assign => quoted("="@),
        Token::LParen => quoted("("@),
        Token::RParen => quoted(")"@),
        Token::LBrace => quoted("{"@),
        Token::RBrace => quoted("}"@),
        Token::LBracket => quoted("["@),
        Token::RBracket => quoted("]"@),
        Token::Comma => quoted(","@),
        Token::Dot => quoted("."@),
        Token::Colon => quoted(":"@),
        Token::At => quoted("@"@),
        Token::Pipe => quoted("|>"@),
        Token::Arrow => quoted("->"@),
        Token::DotDot => quoted(".."@),
        Token::DotDotDot => quoted("..."@),
        Token::JsxOpenStart => quoted("<"@),
        Token::JsxSelfClose => quoted("/>"@),
        Token::JsxCloseStart => quoted("</"@),
    }
}

fn ticked_str(s: &str) -> (r: String)
    ensures
        r@ == ticked(s@),
{
    let mut r = String::new();
    push_char(&mut r, '`');
    push_str(&mut r, s);
    push_char(&mut r, '`');
    proof {
        assert(r@ =~= ticked(s@));
    }
    r
}

fn quoted_str(s: &str) -> (r: String)
    ensures
        r@ == quoted(s@),
{
    let mut r = String::new();
    push_char(&mut r, '\'');
    push_str(&mut r, s);
    push_char(&mut r, '\'');
    proof {
        assert(r@ =~= quoted(s@));
    }
    r
}

/// How a token is spelled in a diagnostic: the source text a reader would
/// recognize (`','`, `']'`, `` `end` ``), never the variant's name. Words
/// read best in backticks, punctuation in quotes. `text` is the source under
/// the token, which spells numeric literals and unnamed operators.
pub fn token_desc(tok: &Token, text: &str) -> (r: String)
    ensures
        r@ == token_desc_spec(*tok, text@),
{
    match tok {
        Token::Int => ticked_str(text),
        Token::Float => ticked_str(text),
        Token::String => string_from("a string literal"),
        Token::Ident(name) => ticked_str(name.as_str()),
        Token::JsxTagName(name) => ticked_str(name.as_str()),
        Token::JsxText => string_from("text"),
        Token::Newline => string_from("a line break"),
        Token::Eof => string_from("end of input"),
        Token::Op => quoted_str(text),
        Token::True => ticked_str("true"),
        Token::False => ticked_str("false"),
        Token::Nil => ticked_str("nil"),
        Token::Let => ticked_str("let"),
        Token::Var => ticked_str("var"),
        Token::Fn => ticked_str("fn"),
        Token::If => ticked_str("if"),
        Token::Else => ticked_str("else"),
        Token::For => ticked_str("for"),
        Token::In => ticked_str("in"),
        Token::While => ticked_str("while"),
        Token::Match => ticked_str("match"),
        Token::Return => ticked_str("return"),
        Token::Break => ticked_str("break"),
        Token::Continue => ticked_str("continue"),
        Token::State => ticked_str("state"),
        Token::Enum => ticked_str("enum"),
        Token::End => ticked_str("end"),
        Token::Then => ticked_str("then"),
        Token::Do => ticked_str("do"),
        Token::Elsif => ticked_str("elsif"),
        Token::When => ticked_str("when"),
        Token::Import => ticked_str("import"),
        Token::Export => ticked_str("export"),
        Token::Plus => quoted_str("+"),
        Token::Minus => quoted_str("-"),
        Token::Star => quoted_str("*"),
        Token::Slash => quoted_str("/"),
        Token::Percent => quoted_str("%"),
        Token::Eq => quoted_str("=="),
        Token::Ne => quoted_str("!="),
        Token::Lt => quoted_str("<"),
        Token::Le => quoted_str("<="),
        Token::Gt => quoted_str(">"),
        Token::Ge => quoted_str(">="),
        Token::And => quoted_str("&&"),
        Token::Or => quoted_str("||"),
        Token::DoubleQuestion => quoted_str("??"),
        Token::Bang => quoted_str("!"),
        Token::Assign => quoted_str("="),
        Token::LParen => quoted_str("("),
        Token::RParen => quoted_str(")"),
        Token::LBrace => quoted_str("{"),
        Token::RBrace => quoted_str("}"),
        Token::LBracket => quoted_str("["),
        Token::RBracket => quoted_str("]"),
        Token::Comma => quoted_str(","),
        Token::Dot => quoted_str("."),
        Token::Colon => quoted_str(":"),
        Token::At => quoted_str("@"),
        Token::Pipe => quoted_str("|>"),
        Token::Arrow => quoted_str("->"),
        Token::DotDot => quoted_str(".."),
        Token::DotDotDot => quoted_str("..."),
        Token::JsxOpenStart => quoted_str("<"),
        Token::JsxSelfClose => quoted_str("/>"),
        Token::JsxCloseStart => quoted_str("</"),
    }
}

} // verus!
