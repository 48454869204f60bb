//! SQL: the syntax tree, the lexer and the parser.
use vstd::prelude::*;

use crate::sql::ast::{texts, Statement, StatementView};
use crate::sql::grammar::{statement, Floats};
use crate::sql::lexer::{token_views, tokens_from, Lexer, Token, TokenView};
use crate::sql::parser::{floats_view, Parser, SyntaxError, SyntaxView};

pub mod ast;
pub mod faults;
pub mod grammar;
pub mod laws;
pub mod lexer;
pub mod parser;
pub mod spelling;
pub mod writing;

verus! {

/// The statement that a text is.
pub open spec fn parsed(text: Seq<char>, f: Floats) -> Result<StatementView, SyntaxView> {
    match tokens_from(text, 0) {
        Err(e) => Err(SyntaxView::Lex(e)),
        Ok(tokens) => match statement(tokens, f, 0) {
            Err(e) => Err(SyntaxView::Fault(e)),
            Ok(stmt) => Ok(stmt),
        },
    }
}

/// Parse a SQL string. `floats` has the bits of the numbers with a decimal point that occur in it, by
/// how they are written.
pub fn parser(input: &str, floats: Vec<(String, u64)>) -> (r: Result<Statement, SyntaxError>)
    ensures
        match parsed(input@, floats_view(floats@)) {
            Ok(x) => r matches Ok(stmt) && stmt@ == x,
            Err(e) => r matches Err(x) && x@ == e,
        },
{
    let mut lexer = Lexer::new(input);
    match lexer.tokenize() {
        Err(e) => Err(SyntaxError::Lex(e)),
        Ok(tokens) => {
            let mut parser = Parser::new(tokens, floats);
            parser.parse()
        },
    }
}

/// The numbers with a decimal point among tokens, as they are written.
pub open spec fn float_texts(tokens: Seq<TokenView>) -> Seq<Seq<char>>
    decreases tokens.len(),
{
    if tokens.len() == 0 {
        Seq::empty()
    } else {
        match tokens.last() {
            TokenView::FloatLiteral(t) => float_texts(tokens.drop_last()).push(t),
            _ => float_texts(tokens.drop_last()),
        }
    }
}

/// The numbers with a decimal point in a SQL string, as they are written; none if the string cannot be
/// read.
pub fn float_literals(input: &str) -> (r: Vec<String>)
    ensures
        texts(r@) == match tokens_from(input@, 0) {
            Ok(tokens) => float_texts(tokens),
            Err(_) => Seq::empty(),
        },
{
    let mut lexer = Lexer::new(input);
    let mut v: Vec<String> = Vec::new();
    assert(texts(v@) =~= Seq::empty());
    match lexer.tokenize() {
        Err(_) => v,
        Ok(tokens) => {
            let ghost views = token_views(tokens@);
            let mut i: usize = 0;
            while i < tokens.len()
                invariant
                    i <= tokens@.len(),
                    views == token_views(tokens@),
                    texts(v@) == float_texts(views.take(i as int)),
                decreases tokens@.len() - i,
            {
                let ghost before = texts(v@);
                proof {
                    assert(views.take(i + 1).drop_last() =~= views.take(i as int));
                    assert(views.take(i + 1).last() == tokens@[i as int]@);
                }
                match &tokens[i] {
                    Token::FloatLiteral(t) => {
                        v.push(t.clone());
                        assert(texts(v@) =~= before.push(t@));
                    },
                    _ => {},
                }
                i += 1;
            }
            assert(views.take(views.len() as int) =~= views);
            v
        },
    }
}

} // verus!
