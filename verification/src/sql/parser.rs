//! The parser: from tokens to statements, by recursive descent.
use vstd::prelude::*;

use crate::sql::ast::{
    assignments_view, condition_view, row_view, schema_view, texts, Assignment, BoolExpr, ColumnDef,
    Columns, DataType, Operator, Statement, StatementView, Value,
};
use crate::sql::grammar::{
    and_expr, and_rest, assignments, atom, char_width, columns, comparison, create, create_database,
    create_index, create_table, data_type, delete, drop_database, drop_index, drop_object,
    drop_table, ended, filter, float_bits, insert, insert_columns, is_at, name, names, operator,
    or_expr, or_rest, restriction, select, selected, show, statement, token, update, use_database,
    value, values, wanted, Fault, Floats, Parsed, Wanted,
};
use crate::sql::lexer::{token_views, LexError, Token, TokenView};
use crate::text::same_text;

verus! {

/// Why a text is no statement.
#[derive(Debug, PartialEq, Eq)]
pub enum SyntaxError {
    /// The text is no sequence of tokens.
    Lex(LexError),
    /// Something else is wanted in place of the token at a place, or of the end.
    Expected {
        /// What is wanted.
        want: Wanted,
        /// What is there.
        found: Option<Token>,
        /// The number of tokens before it.
        at: usize,
    },
    /// The bits of this number are not known.
    UnknownFloat(String),
}

/// Why a text is no statement, free of its representation.
pub ghost enum SyntaxView {
    Lex(LexError),
    Fault(Fault),
}

impl View for SyntaxError {
    type V = SyntaxView;

    open spec fn view(&self) -> SyntaxView {
        match *self {
            SyntaxError::Lex(e) => SyntaxView::Lex(e),
            SyntaxError::Expected { want, found, at } => SyntaxView::Fault(
                Fault::Expected {
                    want,
                    found: match found {
                        None => None,
                        Some(t) => Some(t@),
                    },
                    at: at as int,
                },
            ),
            SyntaxError::UnknownFloat(t) => SyntaxView::Fault(Fault::UnknownFloat(t@)),
        }
    }
}

impl Token {
    /// A copy of the token.
    fn duplicate(&self) -> (r: Token)
        ensures
            r@ == self@,
    {
        match self {
            Token::Select => Token::Select,
            Token::From => Token::From,
            Token::Where => Token::Where,
            Token::Insert => Token::Insert,
            Token::Into => Token::Into,
            Token::Values => Token::Values,
            Token::Update => Token::Update,
            Token::SetKeyword => Token::SetKeyword,
            Token::Delete => Token::Delete,
            Token::Create => Token::Create,
            Token::Drop => Token::Drop,
            Token::Table => Token::Table,
            Token::Index => Token::Index,
            Token::On => Token::On,
            Token::True => Token::True,
            Token::False => Token::False,
            Token::Null => Token::Null,
            Token::And => Token::And,
            Token::Or => Token::Or,
            Token::Show => Token::Show,
            Token::Tables => Token::Tables,
            Token::Database => Token::Database,
            Token::Databases => Token::Databases,
            Token::Use => Token::Use,
            Token::Integer => Token::Integer,
            Token::Float => Token::Float,
            Token::Text => Token::Text,
            Token::Boolean => Token::Boolean,
            Token::Char => Token::Char,
            Token::Eq => Token::Eq,
            Token::Ne => Token::Ne,
            Token::Gt => Token::Gt,
            Token::Lt => Token::Lt,
            Token::Ge => Token::Ge,
            Token::Le => Token::Le,
            Token::Comma => Token::Comma,
            Token::LParen => Token::LParen,
            Token::RParen => Token::RParen,
            Token::Star => Token::Star,
            Token::Semicolon => Token::Semicolon,
            Token::IntLiteral(n) => Token::IntLiteral(*n),
            Token::FloatLiteral(t) => Token::FloatLiteral(t.clone()),
            Token::StringLiteral(t) => Token::StringLiteral(t.clone()),
            Token::Identifier(t) => Token::Identifier(t.clone()),
        }
    }
}

/// A number for each token that holds nothing.
spec fn code(t: Token) -> u8 {
    match t {
        Token::Select => 1,
        Token::From => 2,
        Token::Where => 3,
        Token::Insert => 4,
        Token::Into => 5,
        Token::Values => 6,
        Token::Update => 7,
        Token::SetKeyword => 8,
        Token::Delete => 9,
        Token::Create => 10,
        Token::Drop => 11,
        Token::Table => 12,
        Token::Index => 13,
        Token::On => 14,
        Token::True => 15,
        Token::False => 16,
        Token::Null => 17,
        Token::And => 18,
        Token::Or => 19,
        Token::Show => 20,
        Token::Tables => 21,
        Token::Database => 22,
        Token::Databases => 23,
        Token::Use => 24,
        Token::Integer => 25,
        Token::Float => 26,
        Token::Text => 27,
        Token::Boolean => 28,
        Token::Char => 29,
        Token::Eq => 30,
        Token::Ne => 31,
        Token::Gt => 32,
        Token::Lt => 33,
        Token::Ge => 34,
        Token::Le => 35,
        Token::Comma => 36,
        Token::LParen => 37,
        Token::RParen => 38,
        Token::Star => 39,
        Token::Semicolon => 40,
        _ => 0,
    }
}

fn code_of(t: &Token) -> (r: u8)
    ensures
        r == code(*t),
{
    match t {
        Token::Select => 1,
        Token::From => 2,
        Token::Where => 3,
        Token::Insert => 4,
        Token::Into => 5,
        Token::Values => 6,
        Token::Update => 7,
        Token::SetKeyword => 8,
        Token::Delete => 9,
        Token::Create => 10,
        Token::Drop => 11,
        Token::Table => 12,
        Token::Index => 13,
        Token::On => 14,
        Token::True => 15,
        Token::False => 16,
        Token::Null => 17,
        Token::And => 18,
        Token::Or => 19,
        Token::Show => 20,
        Token::Tables => 21,
        Token::Database => 22,
        Token::Databases => 23,
        Token::Use => 24,
        Token::Integer => 25,
        Token::Float => 26,
        Token::Text => 27,
        Token::Boolean => 28,
        Token::Char => 29,
        Token::Eq => 30,
        Token::Ne => 31,
        Token::Gt => 32,
        Token::Lt => 33,
        Token::Ge => 34,
        Token::Le => 35,
        Token::Comma => 36,
        Token::LParen => 37,
        Token::RParen => 38,
        Token::Star => 39,
        Token::Semicolon => 40,
        _ => 0,
    }
}

/// A token that holds nothing.
pub open spec fn plain(t: Token) -> bool {
    !(t is IntLiteral) && !(t is FloatLiteral) && !(t is StringLiteral) && !(t is Identifier)
}

/// Whether a token is another, which holds nothing.
fn same_token(a: &Token, b: &Token) -> (r: bool)
    requires
        plain(*b),
    ensures
        r == (a@ == TokenView::Plain(*b)),
{
    code_of(a) == code_of(b)
}

/// The bits of numbers by how they are written.
pub open spec fn floats_view(v: Seq<(String, u64)>) -> Floats {
    Seq::new(v.len(), |i: int| (v[i].0@, v[i].1))
}

/// A recursive descent parser.
pub struct Parser {
    tokens: Vec<Token>,
    floats: Vec<(String, u64)>,
    pos: usize,
}

/// The parser has read what the grammar says, or failed as it says.
spec fn agrees<T, V>(p: Parser, q: Parser, to: Parsed<V>, r: Result<T, SyntaxError>, v: V) -> bool {
    &&& q.tokens == p.tokens
    &&& q.floats == p.floats
    &&& match to {
        Ok((x, j)) => r is Ok && v == x && q.pos == j,
        Err(e) => r matches Err(x) && x@ == SyntaxView::Fault(e),
    }
}

/// The parser has read a token, or failed as the grammar says.
spec fn reached(p: Parser, q: Parser, to: Result<int, Fault>, r: Result<(), SyntaxError>) -> bool {
    &&& q.tokens == p.tokens
    &&& q.floats == p.floats
    &&& match to {
        Ok(j) => r is Ok && q.pos == j,
        Err(e) => r matches Err(x) && x@ == SyntaxView::Fault(e),
    }
}

/// The statement is the one that the grammar says, or the fault is.
spec fn decided(to: Result<StatementView, Fault>, r: Result<Statement, SyntaxError>) -> bool {
    match to {
        Ok(x) => r matches Ok(stmt) && stmt@ == x,
        Err(e) => r matches Err(x) && x@ == SyntaxView::Fault(e),
    }
}

impl Parser {
    /// The tokens.
    pub closed spec fn tokens(&self) -> Seq<TokenView> {
        token_views(self.tokens@)
    }

    /// The bits of numbers with a decimal point.
    pub closed spec fn floats(&self) -> Floats {
        floats_view(self.floats@)
    }

    /// How many of the tokens have been read.
    pub closed spec fn at(&self) -> int {
        self.pos as int
    }

    /// A parser at the first token.
    pub fn new(tokens: Vec<Token>, floats: Vec<(String, u64)>) -> (r: Parser)
        ensures
            r.tokens() == token_views(tokens@),
            r.floats() == floats_view(floats@),
            r.at() == 0,
    {
        Parser { tokens, floats, pos: 0 }
    }

    /// The next token is this one, which holds nothing.
    fn next_is(&self, t: &Token) -> (r: bool)
        requires
            plain(*t),
        ensures
            r == is_at(self.tokens(), self.at(), *t),
            r ==> self.pos < self.tokens@.len(),
    {
        if self.pos < self.tokens.len() {
            same_token(&self.tokens[self.pos], t)
        } else {
            false
        }
    }

    /// Go past a token, if it is the next one.
    fn eat(&mut self, t: &Token) -> (r: bool)
        requires
            plain(*t),
        ensures
            r == is_at(old(self).tokens(), old(self).at(), *t),
            final(self).tokens == old(self).tokens,
            final(self).floats == old(self).floats,
            final(self).pos == if r {
                old(self).pos + 1
            } else {
                old(self).pos as int
            },
            r ==> final(self).pos <= old(self).tokens@.len(),
    {
        if self.next_is(t) {
            let len = self.tokens.len();
            self.pos = self.pos + 1;
            true
        } else {
            false
        }
    }

    /// The next token, or the end, is not what is wanted.
    fn fault(&self, want: Wanted) -> (r: SyntaxError)
        ensures
            r@ == SyntaxView::Fault(wanted(self.tokens(), self.at(), want)),
    {
        let found = if self.pos < self.tokens.len() {
            Some(self.tokens[self.pos].duplicate())
        } else {
            None
        };
        SyntaxError::Expected { want, found, at: self.pos }
    }

    /// Go past a token.
    fn expect(&mut self, t: Token) -> (r: Result<(), SyntaxError>)
        requires
            plain(t),
        ensures
            reached(*old(self), *final(self), token(old(self).tokens(), old(self).at(), t), r),
            r is Ok ==> old(self).pos < final(self).pos <= old(self).tokens@.len(),
    {
        if self.eat(&t) {
            Ok(())
        } else {
            Err(self.fault(Wanted::Token(t)))
        }
    }

    /// Read a name.
    fn consume_identifier(&mut self, want: Wanted) -> (r: Result<String, SyntaxError>)
        ensures
            agrees(*old(self), *final(self), name(old(self).tokens(), old(self).at(), want), r, r->Ok_0@),
            r is Ok ==> old(self).pos < final(self).pos <= old(self).tokens@.len(),
    {
        if self.pos < self.tokens.len() {
            match &self.tokens[self.pos] {
                Token::Identifier(n) => {
                    let n = n.clone();
                    self.pos = self.pos + 1;
                    return Ok(n);
                },
                _ => {},
            }
        }
        Err(self.fault(want))
    }

    /// Read the bits of a number.
    fn find_float(&self, t: &str) -> (r: Option<u64>)
        ensures
            r == float_bits(self.floats(), t@),
    {
        let ghost f = self.floats();
        let mut i: usize = 0;
        assert(f.skip(0) =~= f);
        while i < self.floats.len()
            invariant
                f == self.floats(),
                i <= self.floats@.len(),
                float_bits(f.skip(i as int), t@) == float_bits(f, t@),
            decreases self.floats@.len() - i,
        {
            assert(f.skip(i as int).drop_first() =~= f.skip(i + 1));
            assert(f.skip(i as int)[0] == f[i as int]);
            let entry = &self.floats[i];
            if same_text(entry.0.as_str(), t) {
                return Some(entry.1);
            }
            i += 1;
        }
        None
    }

    /// Read a value.
    fn parse_value(&mut self) -> (r: Result<Value, SyntaxError>)
        ensures
            agrees(
                *old(self),
                *final(self),
                value(old(self).tokens(), old(self).floats(), old(self).at()),
                r,
                r->Ok_0@,
            ),
            r is Ok ==> old(self).pos < final(self).pos <= old(self).tokens@.len(),
    {
        if self.pos >= self.tokens.len() {
            return Err(self.fault(Wanted::Value));
        }
        let v = match &self.tokens[self.pos] {
            Token::IntLiteral(n) => Value::Integer(*n),
            Token::FloatLiteral(t) => match self.find_float(t.as_str()) {
                Some(b) => Value::Float(b),
                None => {
                    return Err(SyntaxError::UnknownFloat(t.clone()));
                },
            },
            Token::StringLiteral(t) => Value::Text(t.clone()),
            Token::True => Value::Boolean(true),
            Token::False => Value::Boolean(false),
            Token::Null => Value::Null,
            _ => {
                return Err(self.fault(Wanted::Value));
            },
        };
        self.pos = self.pos + 1;
        Ok(v)
    }

    /// Read a comparison operator.
    fn parse_operator(&mut self) -> (r: Result<Operator, SyntaxError>)
        ensures
            agrees(*old(self), *final(self), operator(old(self).tokens(), old(self).at()), r, r->Ok_0),
            r is Ok ==> old(self).pos < final(self).pos <= old(self).tokens@.len(),
    {
        if self.pos >= self.tokens.len() {
            return Err(self.fault(Wanted::Operator));
        }
        let op = match &self.tokens[self.pos] {
            Token::Eq => Operator::Eq,
            Token::Ne => Operator::Ne,
            Token::Gt => Operator::Gt,
            Token::Lt => Operator::Lt,
            Token::Ge => Operator::Ge,
            Token::Le => Operator::Le,
            _ => {
                return Err(self.fault(Wanted::Operator));
            },
        };
        self.pos = self.pos + 1;
        Ok(op)
    }

    /// Read the width of a CHAR.
    fn parse_width(&mut self) -> (r: Result<usize, SyntaxError>)
        ensures
            agrees(*old(self), *final(self), char_width(old(self).tokens(), old(self).at()), r, r->Ok_0),
    {
        if self.pos < self.tokens.len() {
            match &self.tokens[self.pos] {
                Token::IntLiteral(n) => {
                    let n: i64 = *n;
                    if 0 <= n && (n as u64) <= usize::MAX as u64 {
                        self.pos = self.pos + 1;
                        return Ok(n as usize);
                    }
                },
                _ => {},
            }
        }
        Err(self.fault(Wanted::Width))
    }

    /// Read a data type.
    fn parse_data_type(&mut self) -> (r: Result<DataType, SyntaxError>)
        ensures
            agrees(*old(self), *final(self), data_type(old(self).tokens(), old(self).at()), r, r->Ok_0),
    {
        if self.pos >= self.tokens.len() {
            return Err(self.fault(Wanted::DataType));
        }
        let t = match &self.tokens[self.pos] {
            Token::Integer => DataType::Integer,
            Token::Float => DataType::Float,
            Token::Text => DataType::Text,
            Token::Boolean => DataType::Boolean,
            Token::Char => {
                self.pos = self.pos + 1;
                match self.expect(Token::LParen) {
                    Err(e) => {
                        return Err(e);
                    },
                    Ok(_) => {},
                }
                let n = match self.parse_width() {
                    Err(e) => {
                        return Err(e);
                    },
                    Ok(n) => n,
                };
                match self.expect(Token::RParen) {
                    Err(e) => {
                        return Err(e);
                    },
                    Ok(_) => {},
                }
                return Ok(DataType::Char(n));
            },
            _ => {
                return Err(self.fault(Wanted::DataType));
            },
        };
        self.pos = self.pos + 1;
        Ok(t)
    }

    /// Read names with commas between them.
    fn parse_names(&mut self, want: Wanted) -> (r: Result<Vec<String>, SyntaxError>)
        requires
            plain_want(want),
        ensures
            agrees(
                *old(self),
                *final(self),
                names(old(self).tokens(), old(self).at(), want, Seq::empty()),
                r,
                texts(r->Ok_0@),
            ),
            r is Ok ==> final(self).pos <= old(self).tokens@.len(),
    {
        let ghost s = self.tokens();
        let ghost to = names(s, self.at(), want, Seq::empty());
        let mut v: Vec<String> = Vec::new();
        assert(texts(v@) =~= Seq::empty());
        loop
            invariant
                self.tokens == old(self).tokens,
                self.floats == old(self).floats,
                s == self.tokens(),
                plain_want(want),
                to == names(s, self.at(), want, texts(v@)),
                to == names(s, old(self).at(), want, Seq::empty()),
            decreases s.len() - self.pos,
        {
            let ghost before = texts(v@);
            match self.consume_identifier(copy_want(&want)) {
                Err(e) => {
                    return Err(e);
                },
                Ok(n) => {
                    let ghost nv = n@;
                    v.push(n);
                    assert(texts(v@) =~= before.push(nv));
                },
            }
            if !self.eat(&Token::Comma) {
                return Ok(v);
            }
        }
    }

    /// Read column definitions with commas between them.
    fn parse_column_defs(&mut self) -> (r: Result<Vec<ColumnDef>, SyntaxError>)
        ensures
            agrees(
                *old(self),
                *final(self),
                columns(old(self).tokens(), old(self).at(), Seq::empty()),
                r,
                schema_view(r->Ok_0@),
            ),
    {
        let ghost s = self.tokens();
        let ghost to = columns(s, self.at(), Seq::empty());
        let mut v: Vec<ColumnDef> = Vec::new();
        assert(schema_view(v@) =~= Seq::empty());
        loop
            invariant
                self.tokens == old(self).tokens,
                self.floats == old(self).floats,
                s == self.tokens(),
                to == columns(s, self.at(), schema_view(v@)),
                to == columns(s, old(self).at(), Seq::empty()),
            decreases s.len() - self.pos,
        {
            let ghost before = schema_view(v@);
            let name = match self.consume_identifier(Wanted::ColumnName) {
                Err(e) => {
                    return Err(e);
                },
                Ok(n) => n,
            };
            let data_type = match self.parse_data_type() {
                Err(e) => {
                    return Err(e);
                },
                Ok(t) => t,
            };
            let c = ColumnDef { name, data_type };
            let ghost cv = c@;
            v.push(c);
            assert(schema_view(v@) =~= before.push(cv));
            if !self.eat(&Token::Comma) {
                return Ok(v);
            }
        }
    }

    /// Read values with commas between them.
    fn parse_value_list(&mut self) -> (r: Result<Vec<Value>, SyntaxError>)
        ensures
            agrees(
                *old(self),
                *final(self),
                values(old(self).tokens(), old(self).floats(), old(self).at(), Seq::empty()),
                r,
                row_view(r->Ok_0@),
            ),
    {
        let ghost s = self.tokens();
        let ghost f = self.floats();
        let ghost to = values(s, f, self.at(), Seq::empty());
        let mut v: Vec<Value> = Vec::new();
        assert(row_view(v@) =~= Seq::empty());
        loop
            invariant
                self.tokens == old(self).tokens,
                self.floats == old(self).floats,
                s == self.tokens(),
                f == self.floats(),
                to == values(s, f, self.at(), row_view(v@)),
                to == values(s, f, old(self).at(), Seq::empty()),
            decreases s.len() - self.pos,
        {
            let ghost before = row_view(v@);
            match self.parse_value() {
                Err(e) => {
                    return Err(e);
                },
                Ok(x) => {
                    let ghost xv = x@;
                    v.push(x);
                    assert(row_view(v@) =~= before.push(xv));
                },
            }
            if !self.eat(&Token::Comma) {
                return Ok(v);
            }
        }
    }

    /// Read assignments with commas between them.
    fn parse_assignments(&mut self) -> (r: Result<Vec<Assignment>, SyntaxError>)
        ensures
            agrees(
                *old(self),
                *final(self),
                assignments(old(self).tokens(), old(self).floats(), old(self).at(), Seq::empty()),
                r,
                assignments_view(r->Ok_0@),
            ),
    {
        let ghost s = self.tokens();
        let ghost f = self.floats();
        let ghost to = assignments(s, f, self.at(), Seq::empty());
        let mut v: Vec<Assignment> = Vec::new();
        assert(assignments_view(v@) =~= Seq::empty());
        loop
            invariant
                self.tokens == old(self).tokens,
                self.floats == old(self).floats,
                s == self.tokens(),
                f == self.floats(),
                to == assignments(s, f, self.at(), assignments_view(v@)),
                to == assignments(s, f, old(self).at(), Seq::empty()),
            decreases s.len() - self.pos,
        {
            let ghost before = assignments_view(v@);
            let column = match self.consume_identifier(Wanted::ColumnName) {
                Err(e) => {
                    return Err(e);
                },
                Ok(n) => n,
            };
            match self.expect(Token::Eq) {
                Err(e) => {
                    return Err(e);
                },
                Ok(_) => {},
            }
            let value = match self.parse_value() {
                Err(e) => {
                    return Err(e);
                },
                Ok(x) => x,
            };
            let a = Assignment { column, value };
            let ghost av = a@;
            v.push(a);
            assert(assignments_view(v@) =~= before.push(av));
            if !self.eat(&Token::Comma) {
                return Ok(v);
            }
        }
    }

    /// Read a condition.
    fn parse_condition(&mut self) -> (r: Result<BoolExpr, SyntaxError>)
        ensures
            agrees(
                *old(self),
                *final(self),
                or_expr(old(self).tokens(), old(self).floats(), old(self).at()),
                r,
                r->Ok_0@,
            ),
            r is Ok ==> old(self).pos < final(self).pos <= old(self).tokens@.len(),
    {
        self.parse_or_expr()
    }

    /// Read conjunctions with OR between them.
    fn parse_or_expr(&mut self) -> (r: Result<BoolExpr, SyntaxError>)
        ensures
            agrees(
                *old(self),
                *final(self),
                or_expr(old(self).tokens(), old(self).floats(), old(self).at()),
                r,
                r->Ok_0@,
            ),
            r is Ok ==> old(self).pos < final(self).pos <= old(self).tokens@.len(),
        decreases old(self).tokens@.len() - old(self).pos, 5nat,
    {
        let ghost s = self.tokens();
        let ghost f = self.floats();
        let ghost to = or_expr(s, f, self.at());
        let mut left = match self.parse_and_expr() {
            Err(e) => {
                return Err(e);
            },
            Ok(x) => x,
        };
        while self.next_is(&Token::Or)
            invariant
                self.tokens == old(self).tokens,
                self.floats == old(self).floats,
                s == self.tokens(),
                f == self.floats(),
                old(self).pos < self.pos <= self.tokens@.len(),
                to == or_expr(s, f, old(self).at()),
                to == or_rest(s, f, self.at(), left@),
            decreases s.len() - self.pos,
        {
            self.eat(&Token::Or);
            let right = match self.parse_and_expr() {
                Err(e) => {
                    return Err(e);
                },
                Ok(x) => x,
            };
            left = BoolExpr::Or(Box::new(left), Box::new(right));
        }
        Ok(left)
    }

    /// Read comparisons and conditions in parentheses with AND between them.
    fn parse_and_expr(&mut self) -> (r: Result<BoolExpr, SyntaxError>)
        ensures
            agrees(
                *old(self),
                *final(self),
                and_expr(old(self).tokens(), old(self).floats(), old(self).at()),
                r,
                r->Ok_0@,
            ),
            r is Ok ==> old(self).pos < final(self).pos <= old(self).tokens@.len(),
        decreases old(self).tokens@.len() - old(self).pos, 4nat,
    {
        let ghost s = self.tokens();
        let ghost f = self.floats();
        let ghost to = and_expr(s, f, self.at());
        let mut left = match self.parse_atom() {
            Err(e) => {
                return Err(e);
            },
            Ok(x) => x,
        };
        while self.next_is(&Token::And)
            invariant
                self.tokens == old(self).tokens,
                self.floats == old(self).floats,
                s == self.tokens(),
                f == self.floats(),
                old(self).pos < self.pos <= self.tokens@.len(),
                to == and_expr(s, f, old(self).at()),
                to == and_rest(s, f, self.at(), left@),
            decreases s.len() - self.pos,
        {
            self.eat(&Token::And);
            let right = match self.parse_atom() {
                Err(e) => {
                    return Err(e);
                },
                Ok(x) => x,
            };
            left = BoolExpr::And(Box::new(left), Box::new(right));
        }
        Ok(left)
    }

    /// Read a comparison, or a condition in parentheses.
    fn parse_atom(&mut self) -> (r: Result<BoolExpr, SyntaxError>)
        ensures
            agrees(
                *old(self),
                *final(self),
                atom(old(self).tokens(), old(self).floats(), old(self).at()),
                r,
                r->Ok_0@,
            ),
            r is Ok ==> old(self).pos < final(self).pos <= old(self).tokens@.len(),
        decreases old(self).tokens@.len() - old(self).pos, 3nat,
    {
        if self.eat(&Token::LParen) {
            let e = match self.parse_or_expr() {
                Err(e) => {
                    return Err(e);
                },
                Ok(e) => e,
            };
            match self.expect(Token::RParen) {
                Err(x) => {
                    return Err(x);
                },
                Ok(_) => {},
            }
            Ok(e)
        } else {
            self.parse_comparison()
        }
    }

    /// Read a comparison.
    fn parse_comparison(&mut self) -> (r: Result<BoolExpr, SyntaxError>)
        ensures
            agrees(
                *old(self),
                *final(self),
                comparison(old(self).tokens(), old(self).floats(), old(self).at()),
                r,
                r->Ok_0@,
            ),
            r is Ok ==> old(self).pos < final(self).pos <= old(self).tokens@.len(),
    {
        let column = match self.consume_identifier(Wanted::ColumnName) {
            Err(e) => {
                return Err(e);
            },
            Ok(n) => n,
        };
        let op = match self.parse_operator() {
            Err(e) => {
                return Err(e);
            },
            Ok(o) => o,
        };
        let value = match self.parse_value() {
            Err(e) => {
                return Err(e);
            },
            Ok(v) => v,
        };
        Ok(BoolExpr::Comparison { column, op, value })
    }
}

impl Parser {
    /// The statement, if a semicolon comes next.
    fn end(&mut self, stmt: Statement) -> (r: Result<Statement, SyntaxError>)
        ensures
            decided(ended(old(self).tokens(), old(self).at(), stmt@), r),
    {
        match self.expect(Token::Semicolon) {
            Err(e) => Err(e),
            Ok(_) => Ok(stmt),
        }
    }

    /// Read `name (col type, ...);`
    fn parse_create_table(&mut self) -> (r: Result<Statement, SyntaxError>)
        ensures
            decided(create_table(old(self).tokens(), old(self).at()), r),
    {
        let name = match self.consume_identifier(Wanted::TableName) {
            Err(e) => {
                return Err(e);
            },
            Ok(x) => x,
        };
        match self.expect(Token::LParen) {
            Err(e) => {
                return Err(e);
            },
            Ok(_) => {},
        }
        let columns = match self.parse_column_defs() {
            Err(e) => {
                return Err(e);
            },
            Ok(x) => x,
        };
        match self.expect(Token::RParen) {
            Err(e) => {
                return Err(e);
            },
            Ok(_) => {},
        }
        self.end(Statement::CreateTable { name, columns })
    }

    /// Read `name ON table (col);`
    fn parse_create_index(&mut self) -> (r: Result<Statement, SyntaxError>)
        ensures
            decided(create_index(old(self).tokens(), old(self).at()), r),
    {
        let name = match self.consume_identifier(Wanted::IndexName) {
            Err(e) => {
                return Err(e);
            },
            Ok(x) => x,
        };
        match self.expect(Token::On) {
            Err(e) => {
                return Err(e);
            },
            Ok(_) => {},
        }
        let table = match self.consume_identifier(Wanted::TableName) {
            Err(e) => {
                return Err(e);
            },
            Ok(x) => x,
        };
        match self.expect(Token::LParen) {
            Err(e) => {
                return Err(e);
            },
            Ok(_) => {},
        }
        let column = match self.consume_identifier(Wanted::ColumnName) {
            Err(e) => {
                return Err(e);
            },
            Ok(x) => x,
        };
        match self.expect(Token::RParen) {
            Err(e) => {
                return Err(e);
            },
            Ok(_) => {},
        }
        self.end(Statement::CreateIndex { name, table, column })
    }

    /// Read the rest of `CREATE DATABASE name;`
    fn parse_create_database(&mut self) -> (r: Result<Statement, SyntaxError>)
        ensures
            decided(create_database(old(self).tokens(), old(self).at()), r),
    {
        let name = match self.consume_identifier(Wanted::DatabaseName) {
            Err(e) => {
                return Err(e);
            },
            Ok(x) => x,
        };
        self.end(Statement::CreateDatabase { name })
    }

    /// Read the rest of `DROP TABLE name;`
    fn parse_drop_table(&mut self) -> (r: Result<Statement, SyntaxError>)
        ensures
            decided(drop_table(old(self).tokens(), old(self).at()), r),
    {
        let name = match self.consume_identifier(Wanted::TableName) {
            Err(e) => {
                return Err(e);
            },
            Ok(x) => x,
        };
        self.end(Statement::DropTable { name })
    }

    /// Read the rest of `DROP INDEX name;`
    fn parse_drop_index(&mut self) -> (r: Result<Statement, SyntaxError>)
        ensures
            decided(drop_index(old(self).tokens(), old(self).at()), r),
    {
        let name = match self.consume_identifier(Wanted::IndexName) {
            Err(e) => {
                return Err(e);
            },
            Ok(x) => x,
        };
        self.end(Statement::DropIndex { name })
    }

    /// Read the rest of `DROP DATABASE name;`
    fn parse_drop_database(&mut self) -> (r: Result<Statement, SyntaxError>)
        ensures
            decided(drop_database(old(self).tokens(), old(self).at()), r),
    {
        let name = match self.consume_identifier(Wanted::DatabaseName) {
            Err(e) => {
                return Err(e);
            },
            Ok(x) => x,
        };
        self.end(Statement::DropDatabase { name })
    }

    /// Read the rest of `USE name;`
    fn parse_use(&mut self) -> (r: Result<Statement, SyntaxError>)
        ensures
            decided(use_database(old(self).tokens(), old(self).at()), r),
    {
        let name = match self.consume_identifier(Wanted::DatabaseName) {
            Err(e) => {
                return Err(e);
            },
            Ok(x) => x,
        };
        self.end(Statement::UseDatabase { name })
    }

    /// Read what follows CREATE.
    fn parse_create(&mut self) -> (r: Result<Statement, SyntaxError>)
        ensures
            decided(create(old(self).tokens(), old(self).at()), r),
    {
        if self.eat(&Token::Table) {
            self.parse_create_table()
        } else if self.eat(&Token::Index) {
            self.parse_create_index()
        } else if self.eat(&Token::Database) {
            self.parse_create_database()
        } else {
            Err(self.fault(Wanted::Object))
        }
    }

    /// Read what follows DROP.
    fn parse_drop(&mut self) -> (r: Result<Statement, SyntaxError>)
        ensures
            decided(drop_object(old(self).tokens(), old(self).at()), r),
    {
        if self.eat(&Token::Table) {
            self.parse_drop_table()
        } else if self.eat(&Token::Index) {
            self.parse_drop_index()
        } else if self.eat(&Token::Database) {
            self.parse_drop_database()
        } else {
            Err(self.fault(Wanted::Object))
        }
    }

    /// Read what follows SHOW.
    fn parse_show(&mut self) -> (r: Result<Statement, SyntaxError>)
        ensures
            decided(show(old(self).tokens(), old(self).at()), r),
    {
        if self.eat(&Token::Tables) {
            self.end(Statement::ShowTables)
        } else if self.eat(&Token::Databases) {
            self.end(Statement::ShowDatabases)
        } else {
            Err(self.fault(Wanted::Listing))
        }
    }

    /// Read the columns of an INSERT, if they are given.
    fn parse_column_list(&mut self) -> (r: Result<Option<Vec<String>>, SyntaxError>)
        ensures
            agrees(
                *old(self),
                *final(self),
                insert_columns(old(self).tokens(), old(self).at()),
                r,
                match r->Ok_0 {
                    None => None,
                    Some(v) => Some(texts(v@)),
                },
            ),
    {
        if !self.eat(&Token::LParen) {
            return Ok(None);
        }
        let cols = match self.parse_names(Wanted::ColumnName) {
            Err(e) => {
                return Err(e);
            },
            Ok(x) => x,
        };
        match self.expect(Token::RParen) {
            Err(e) => Err(e),
            Ok(_) => Ok(Some(cols)),
        }
    }

    /// Read what follows INSERT.
    fn parse_insert(&mut self) -> (r: Result<Statement, SyntaxError>)
        ensures
            decided(insert(old(self).tokens(), old(self).floats(), old(self).at()), r),
    {
        match self.expect(Token::Into) {
            Err(e) => {
                return Err(e);
            },
            Ok(_) => {},
        }
        let table = match self.consume_identifier(Wanted::TableName) {
            Err(e) => {
                return Err(e);
            },
            Ok(x) => x,
        };
        let columns = match self.parse_column_list() {
            Err(e) => {
                return Err(e);
            },
            Ok(x) => x,
        };
        match self.expect(Token::Values) {
            Err(e) => {
                return Err(e);
            },
            Ok(_) => {},
        }
        match self.expect(Token::LParen) {
            Err(e) => {
                return Err(e);
            },
            Ok(_) => {},
        }
        let values = match self.parse_value_list() {
            Err(e) => {
                return Err(e);
            },
            Ok(x) => x,
        };
        match self.expect(Token::RParen) {
            Err(e) => {
                return Err(e);
            },
            Ok(_) => {},
        }
        self.end(Statement::Insert { table, columns, values })
    }

    /// Read the columns of a SELECT.
    fn parse_columns(&mut self) -> (r: Result<Columns, SyntaxError>)
        ensures
            agrees(*old(self), *final(self), selected(old(self).tokens(), old(self).at()), r, r->Ok_0@),
    {
        if self.eat(&Token::Star) {
            return Ok(Columns::Star);
        }
        match self.parse_names(Wanted::ColumnName) {
            Err(e) => Err(e),
            Ok(v) => Ok(Columns::List(v)),
        }
    }

    /// Read the WHERE clause of a SELECT, if there is one.
    fn parse_filter(&mut self) -> (r: Result<Option<BoolExpr>, SyntaxError>)
        ensures
            agrees(
                *old(self),
                *final(self),
                filter(old(self).tokens(), old(self).floats(), old(self).at()),
                r,
                condition_view(r->Ok_0),
            ),
    {
        if !self.eat(&Token::Where) {
            return Ok(None);
        }
        match self.parse_condition() {
            Err(e) => Err(e),
            Ok(c) => Ok(Some(c)),
        }
    }

    /// Read `WHERE condition`.
    fn parse_restriction(&mut self) -> (r: Result<BoolExpr, SyntaxError>)
        ensures
            agrees(
                *old(self),
                *final(self),
                restriction(old(self).tokens(), old(self).floats(), old(self).at()),
                r,
                r->Ok_0@,
            ),
    {
        match self.expect(Token::Where) {
            Err(e) => Err(e),
            Ok(_) => self.parse_condition(),
        }
    }

    /// Read what follows SELECT.
    fn parse_select(&mut self) -> (r: Result<Statement, SyntaxError>)
        ensures
            decided(select(old(self).tokens(), old(self).floats(), old(self).at()), r),
    {
        let columns = match self.parse_columns() {
            Err(e) => {
                return Err(e);
            },
            Ok(x) => x,
        };
        match self.expect(Token::From) {
            Err(e) => {
                return Err(e);
            },
            Ok(_) => {},
        }
        let tables = match self.parse_names(Wanted::TableName) {
            Err(e) => {
                return Err(e);
            },
            Ok(x) => x,
        };
        let condition = match self.parse_filter() {
            Err(e) => {
                return Err(e);
            },
            Ok(x) => x,
        };
        self.end(Statement::Select { columns, tables, condition })
    }

    /// Read what follows UPDATE.
    fn parse_update(&mut self) -> (r: Result<Statement, SyntaxError>)
        ensures
            decided(update(old(self).tokens(), old(self).floats(), old(self).at()), r),
    {
        let table = match self.consume_identifier(Wanted::TableName) {
            Err(e) => {
                return Err(e);
            },
            Ok(x) => x,
        };
        match self.expect(Token::SetKeyword) {
            Err(e) => {
                return Err(e);
            },
            Ok(_) => {},
        }
        let assignments = match self.parse_assignments() {
            Err(e) => {
                return Err(e);
            },
            Ok(x) => x,
        };
        let condition = match self.parse_restriction() {
            Err(e) => {
                return Err(e);
            },
            Ok(x) => x,
        };
        self.end(Statement::Update { table, assignments, condition })
    }

    /// Read what follows DELETE.
    fn parse_delete(&mut self) -> (r: Result<Statement, SyntaxError>)
        ensures
            decided(delete(old(self).tokens(), old(self).floats(), old(self).at()), r),
    {
        match self.expect(Token::From) {
            Err(e) => {
                return Err(e);
            },
            Ok(_) => {},
        }
        let table = match self.consume_identifier(Wanted::TableName) {
            Err(e) => {
                return Err(e);
            },
            Ok(x) => x,
        };
        let condition = match self.parse_restriction() {
            Err(e) => {
                return Err(e);
            },
            Ok(x) => x,
        };
        self.end(Statement::Delete { table, condition })
    }

    /// Read a statement.
    pub fn parse(&mut self) -> (r: Result<Statement, SyntaxError>)
        ensures
            match statement(old(self).tokens(), old(self).floats(), old(self).at()) {
                Ok(x) => r matches Ok(stmt) && stmt@ == x,
                Err(e) => r matches Err(x) && x@ == SyntaxView::Fault(e),
            },
    {
        if self.eat(&Token::Create) {
            self.parse_create()
        } else if self.eat(&Token::Drop) {
            self.parse_drop()
        } else if self.eat(&Token::Insert) {
            self.parse_insert()
        } else if self.eat(&Token::Select) {
            self.parse_select()
        } else if self.eat(&Token::Update) {
            self.parse_update()
        } else if self.eat(&Token::Delete) {
            self.parse_delete()
        } else if self.eat(&Token::Show) {
            self.parse_show()
        } else if self.eat(&Token::Use) {
            self.parse_use()
        } else {
            Err(self.fault(Wanted::Statement))
        }
    }
}

/// A wish that holds no token.
spec fn plain_want(want: Wanted) -> bool {
    want is TableName || want is ColumnName
}

fn copy_want(want: &Wanted) -> (r: Wanted)
    requires
        plain_want(*want),
    ensures
        r == *want,
{
    match want {
        Wanted::TableName => Wanted::TableName,
        _ => Wanted::ColumnName,
    }
}

} // verus!
