//! What is said of tokens that are no statement.
use vstd::prelude::*;

use crate::sql::ast::{AssignmentView, ColumnView, ExprView, ValueView};
use crate::sql::grammar::{
    and_expr, and_rest, assignment, assignments, atom, char_width, column, columns, create,
    data_type, delete, drop_object, filter, float_bits, insert, insert_columns, is_at, name, names,
    operator, or_expr, or_rest, restriction, select, selected, statement, token, update, value,
    values, wanted, Fault, Floats, Wanted,
};
use crate::sql::lexer::{Token, TokenView};

verus! {

/// The token at a place, if there is one.
pub open spec fn token_here(s: Seq<TokenView>, i: int) -> Option<TokenView> {
    if 0 <= i < s.len() {
        Some(s[i])
    } else {
        None
    }
}

/// One of these tokens stands at a place.
pub open spec fn one_of(s: Seq<TokenView>, i: int, ts: Seq<Token>) -> bool {
    exists|k: int| 0 <= k < ts.len() && token_here(s, i) == Some(TokenView::Plain(#[trigger] ts[k]))
}

/// What is wanted at a place is not there.
pub open spec fn lacks(s: Seq<TokenView>, i: int, want: Wanted) -> bool {
    match want {
        Wanted::Statement => !one_of(
            s,
            i,
            seq![
                Token::Create,
                Token::Drop,
                Token::Insert,
                Token::Select,
                Token::Update,
                Token::Delete,
                Token::Show,
                Token::Use,
            ],
        ),
        Wanted::Object => !one_of(s, i, seq![Token::Table, Token::Index, Token::Database]),
        Wanted::Listing => !one_of(s, i, seq![Token::Tables, Token::Databases]),
        Wanted::Token(t) => !one_of(s, i, seq![t]),
        Wanted::TableName => !(token_here(s, i) matches Some(t) && t is Identifier),
        Wanted::ColumnName => !(token_here(s, i) matches Some(t) && t is Identifier),
        Wanted::IndexName => !(token_here(s, i) matches Some(t) && t is Identifier),
        Wanted::DatabaseName => !(token_here(s, i) matches Some(t) && t is Identifier),
        Wanted::DataType => !one_of(
            s,
            i,
            seq![Token::Integer, Token::Float, Token::Text, Token::Boolean, Token::Char],
        ),
        Wanted::Width => !(token_here(s, i) matches Some(TokenView::IntLiteral(n)) && 0 <= n <= usize::MAX),
        Wanted::Value => !one_of(s, i, seq![Token::True, Token::False, Token::Null]) && !(token_here(s, i) matches Some(t)
            && (t is IntLiteral || t is FloatLiteral || t is StringLiteral)),
        Wanted::Operator => !one_of(
            s,
            i,
            seq![Token::Eq, Token::Ne, Token::Gt, Token::Lt, Token::Ge, Token::Le],
        ),
    }
}

/// A fault is there: what is wanted is not at the place that is named, and the token there is the one that
/// is named; or the bits of a number among the tokens are not known.
pub open spec fn is_there(s: Seq<TokenView>, f: Floats, e: Fault) -> bool {
    match e {
        Fault::Expected { want, found, at } => 0 <= at <= s.len() && found == token_here(s, at) && lacks(s, at, want),
        Fault::UnknownFloat(t) => s.contains(TokenView::FloatLiteral(t)) && forall|k: int|
            0 <= k < f.len() ==> (#[trigger] f[k]).0 != t,
    }
}

proof fn no_notation(f: Floats, t: Seq<char>)
    ensures
        float_bits(f, t) is None ==> forall|k: int| 0 <= k < f.len() ==> (#[trigger] f[k]).0 != t,
    decreases f.len(),
{
    if f.len() > 0 && f[0].0 != t {
        no_notation(f.drop_first(), t);
        if float_bits(f, t) is None {
            assert forall|k: int| 0 <= k < f.len() implies (#[trigger] f[k]).0 != t by {
                if k > 0 {
                    assert(f[k] == f.drop_first()[k - 1]);
                }
            }
        }
    }
}

proof fn token_fault(s: Seq<TokenView>, f: Floats, i: int, t: Token)
    requires
        0 <= i <= s.len(),
    ensures
        match token(s, i, t) {
            Ok(j) => j == i + 1 && j <= s.len(),
            Err(e) => is_there(s, f, e),
        },
{
}

proof fn name_fault(s: Seq<TokenView>, f: Floats, i: int, want: Wanted)
    requires
        0 <= i <= s.len(),
        want is TableName || want is ColumnName || want is IndexName || want is DatabaseName,
    ensures
        match name(s, i, want) {
            Ok((_, j)) => j == i + 1 && j <= s.len(),
            Err(e) => is_there(s, f, e),
        },
{
}

proof fn names_fault(s: Seq<TokenView>, f: Floats, i: int, want: Wanted, done: Seq<Seq<char>>)
    requires
        0 <= i <= s.len(),
        want is TableName || want is ColumnName || want is IndexName || want is DatabaseName,
    ensures
        match names(s, i, want, done) {
            Ok((_, j)) => i < j <= s.len(),
            Err(e) => is_there(s, f, e),
        },
    decreases s.len() - i,
{
    name_fault(s, f, i, want);
    if name(s, i, want) is Ok {
        let (n, j) = name(s, i, want)->Ok_0;
        if is_at(s, j, Token::Comma) {
            names_fault(s, f, j + 1, want, done.push(n));
        }
    }
}

proof fn value_fault(s: Seq<TokenView>, f: Floats, i: int)
    requires
        0 <= i <= s.len(),
    ensures
        match value(s, f, i) {
            Ok((_, j)) => j == i + 1 && j <= s.len(),
            Err(e) => is_there(s, f, e),
        },
{
    if i < s.len() {
        match s[i] {
            TokenView::FloatLiteral(t) => {
                no_notation(f, t);
                assert(s.contains(s[i]));
            },
            _ => {},
        }
    }
}

proof fn values_fault(s: Seq<TokenView>, f: Floats, i: int, done: Seq<ValueView>)
    requires
        0 <= i <= s.len(),
    ensures
        match values(s, f, i, done) {
            Ok((_, j)) => i < j <= s.len(),
            Err(e) => is_there(s, f, e),
        },
    decreases s.len() - i,
{
    value_fault(s, f, i);
    if value(s, f, i) is Ok {
        let (v, j) = value(s, f, i)->Ok_0;
        if is_at(s, j, Token::Comma) {
            values_fault(s, f, j + 1, done.push(v));
        }
    }
}

proof fn type_fault(s: Seq<TokenView>, f: Floats, i: int)
    requires
        0 <= i <= s.len(),
    ensures
        match data_type(s, i) {
            Ok((_, j)) => i < j <= s.len(),
            Err(e) => is_there(s, f, e),
        },
{
    if is_at(s, i, Token::Char) {
        token_fault(s, f, i + 1, Token::LParen);
        if token(s, i + 1, Token::LParen) is Ok {
            if char_width(s, i + 2) is Ok {
                token_fault(s, f, i + 3, Token::RParen);
            } else {
                assert(is_there(s, f, wanted(s, i + 2, Wanted::Width)));
            }
        }
    }
}

proof fn columns_fault(s: Seq<TokenView>, f: Floats, i: int, done: Seq<ColumnView>)
    requires
        0 <= i <= s.len(),
    ensures
        match columns(s, i, done) {
            Ok((_, j)) => i < j <= s.len(),
            Err(e) => is_there(s, f, e),
        },
    decreases s.len() - i,
{
    name_fault(s, f, i, Wanted::ColumnName);
    if name(s, i, Wanted::ColumnName) is Ok {
        type_fault(s, f, i + 1);
        if column(s, i) is Ok {
            let (c, j) = column(s, i)->Ok_0;
            if is_at(s, j, Token::Comma) {
                columns_fault(s, f, j + 1, done.push(c));
            }
        }
    }
}

proof fn assignments_fault(s: Seq<TokenView>, f: Floats, i: int, done: Seq<AssignmentView>)
    requires
        0 <= i <= s.len(),
    ensures
        match assignments(s, f, i, done) {
            Ok((_, j)) => i < j <= s.len(),
            Err(e) => is_there(s, f, e),
        },
    decreases s.len() - i,
{
    name_fault(s, f, i, Wanted::ColumnName);
    if name(s, i, Wanted::ColumnName) is Ok {
        token_fault(s, f, i + 1, Token::Eq);
        if token(s, i + 1, Token::Eq) is Ok {
            value_fault(s, f, i + 2);
            if assignment(s, f, i) is Ok {
                let (a, j) = assignment(s, f, i)->Ok_0;
                if is_at(s, j, Token::Comma) {
                    assignments_fault(s, f, j + 1, done.push(a));
                }
            }
        }
    }
}

proof fn or_fault(s: Seq<TokenView>, f: Floats, i: int)
    requires
        0 <= i <= s.len(),
    ensures
        match or_expr(s, f, i) {
            Ok((_, j)) => i < j <= s.len(),
            Err(e) => is_there(s, f, e),
        },
    decreases s.len() - i, 5nat,
{
    and_fault(s, f, i);
    if and_expr(s, f, i) is Ok {
        let (left, j) = and_expr(s, f, i)->Ok_0;
        or_rest_fault(s, f, j, left);
    }
}

proof fn or_rest_fault(s: Seq<TokenView>, f: Floats, i: int, left: ExprView)
    requires
        0 <= i <= s.len(),
    ensures
        match or_rest(s, f, i, left) {
            Ok((_, j)) => i <= j <= s.len(),
            Err(e) => is_there(s, f, e),
        },
    decreases s.len() - i, 0nat,
{
    if is_at(s, i, Token::Or) {
        and_fault(s, f, i + 1);
        if and_expr(s, f, i + 1) is Ok {
            let (right, j) = and_expr(s, f, i + 1)->Ok_0;
            or_rest_fault(s, f, j, ExprView::Or(Box::new(left), Box::new(right)));
        }
    }
}

proof fn and_fault(s: Seq<TokenView>, f: Floats, i: int)
    requires
        0 <= i <= s.len(),
    ensures
        match and_expr(s, f, i) {
            Ok((_, j)) => i < j <= s.len(),
            Err(e) => is_there(s, f, e),
        },
    decreases s.len() - i, 4nat,
{
    atom_fault(s, f, i);
    if atom(s, f, i) is Ok {
        let (left, j) = atom(s, f, i)->Ok_0;
        and_rest_fault(s, f, j, left);
    }
}

proof fn and_rest_fault(s: Seq<TokenView>, f: Floats, i: int, left: ExprView)
    requires
        0 <= i <= s.len(),
    ensures
        match and_rest(s, f, i, left) {
            Ok((_, j)) => i <= j <= s.len(),
            Err(e) => is_there(s, f, e),
        },
    decreases s.len() - i, 0nat,
{
    if is_at(s, i, Token::And) {
        atom_fault(s, f, i + 1);
        if atom(s, f, i + 1) is Ok {
            let (right, j) = atom(s, f, i + 1)->Ok_0;
            and_rest_fault(s, f, j, ExprView::And(Box::new(left), Box::new(right)));
        }
    }
}

proof fn atom_fault(s: Seq<TokenView>, f: Floats, i: int)
    requires
        0 <= i <= s.len(),
    ensures
        match atom(s, f, i) {
            Ok((_, j)) => i < j <= s.len(),
            Err(e) => is_there(s, f, e),
        },
    decreases s.len() - i, 3nat,
{
    if is_at(s, i, Token::LParen) {
        or_fault(s, f, i + 1);
        if or_expr(s, f, i + 1) is Ok {
            token_fault(s, f, or_expr(s, f, i + 1)->Ok_0.1, Token::RParen);
        }
    } else {
        name_fault(s, f, i, Wanted::ColumnName);
        if name(s, i, Wanted::ColumnName) is Ok {
            if operator(s, i + 1) is Ok {
                value_fault(s, f, i + 2);
            } else {
                assert(is_there(s, f, wanted(s, i + 1, Wanted::Operator)));
            }
        }
    }
}

proof fn name_and_end(s: Seq<TokenView>, f: Floats, i: int, want: Wanted)
    requires
        0 <= i <= s.len(),
        want is TableName || want is ColumnName || want is IndexName || want is DatabaseName,
    ensures
        name(s, i, want) matches Err(e) ==> is_there(s, f, e),
        name(s, i, want) is Ok ==> (token(s, i + 1, Token::Semicolon) matches Err(e) ==> is_there(s, f, e)),
        name(s, i, want) matches Ok((_, j)) ==> j == i + 1,
{
    name_fault(s, f, i, want);
    if name(s, i, want) is Ok {
        token_fault(s, f, i + 1, Token::Semicolon);
    }
}

proof fn create_fault(s: Seq<TokenView>, f: Floats, i: int)
    requires
        0 <= i <= s.len(),
    ensures
        create(s, i) matches Err(e) ==> is_there(s, f, e),
{
    if is_at(s, i, Token::Table) {
        name_fault(s, f, i + 1, Wanted::TableName);
        if name(s, i + 1, Wanted::TableName) is Ok {
            token_fault(s, f, i + 2, Token::LParen);
            if token(s, i + 2, Token::LParen) is Ok {
                columns_fault(s, f, i + 3, Seq::empty());
                if columns(s, i + 3, Seq::empty()) is Ok {
                    let k = columns(s, i + 3, Seq::empty())->Ok_0.1;
                    token_fault(s, f, k, Token::RParen);
                    if token(s, k, Token::RParen) is Ok {
                        token_fault(s, f, k + 1, Token::Semicolon);
                    }
                }
            }
        }
    } else if is_at(s, i, Token::Index) {
        name_fault(s, f, i + 1, Wanted::IndexName);
        if name(s, i + 1, Wanted::IndexName) is Ok {
            token_fault(s, f, i + 2, Token::On);
            if token(s, i + 2, Token::On) is Ok {
                name_fault(s, f, i + 3, Wanted::TableName);
                if name(s, i + 3, Wanted::TableName) is Ok {
                    token_fault(s, f, i + 4, Token::LParen);
                    if token(s, i + 4, Token::LParen) is Ok {
                        name_fault(s, f, i + 5, Wanted::ColumnName);
                        if name(s, i + 5, Wanted::ColumnName) is Ok {
                            token_fault(s, f, i + 6, Token::RParen);
                            if token(s, i + 6, Token::RParen) is Ok {
                                token_fault(s, f, i + 7, Token::Semicolon);
                            }
                        }
                    }
                }
            }
        }
    } else if is_at(s, i, Token::Database) {
        name_and_end(s, f, i + 1, Wanted::DatabaseName);
    }
}

proof fn drop_fault(s: Seq<TokenView>, f: Floats, i: int)
    requires
        0 <= i <= s.len(),
    ensures
        drop_object(s, i) matches Err(e) ==> is_there(s, f, e),
{
    if is_at(s, i, Token::Table) {
        name_and_end(s, f, i + 1, Wanted::TableName);
    } else if is_at(s, i, Token::Index) {
        name_and_end(s, f, i + 1, Wanted::IndexName);
    } else if is_at(s, i, Token::Database) {
        name_and_end(s, f, i + 1, Wanted::DatabaseName);
    }
}

proof fn insert_fault(s: Seq<TokenView>, f: Floats, i: int)
    requires
        0 <= i <= s.len(),
    ensures
        insert(s, f, i) matches Err(e) ==> is_there(s, f, e),
{
    token_fault(s, f, i, Token::Into);
    if token(s, i, Token::Into) is Ok {
        name_fault(s, f, i + 1, Wanted::TableName);
        if name(s, i + 1, Wanted::TableName) is Ok {
            let k = i + 2;
            if is_at(s, k, Token::LParen) {
                names_fault(s, f, k + 1, Wanted::ColumnName, Seq::empty());
                if names(s, k + 1, Wanted::ColumnName, Seq::empty()) is Ok {
                    token_fault(s, f, names(s, k + 1, Wanted::ColumnName, Seq::empty())->Ok_0.1, Token::RParen);
                }
            }
            if insert_columns(s, k) is Ok {
                let l = insert_columns(s, k)->Ok_0.1;
                token_fault(s, f, l, Token::Values);
                if token(s, l, Token::Values) is Ok {
                    token_fault(s, f, l + 1, Token::LParen);
                    if token(s, l + 1, Token::LParen) is Ok {
                        values_fault(s, f, l + 2, Seq::empty());
                        if values(s, f, l + 2, Seq::empty()) is Ok {
                            let p = values(s, f, l + 2, Seq::empty())->Ok_0.1;
                            token_fault(s, f, p, Token::RParen);
                            if token(s, p, Token::RParen) is Ok {
                                token_fault(s, f, p + 1, Token::Semicolon);
                            }
                        }
                    }
                }
            }
        }
    }
}

proof fn select_fault(s: Seq<TokenView>, f: Floats, i: int)
    requires
        0 <= i <= s.len(),
    ensures
        select(s, f, i) matches Err(e) ==> is_there(s, f, e),
{
    if !is_at(s, i, Token::Star) {
        names_fault(s, f, i, Wanted::ColumnName, Seq::empty());
    }
    if selected(s, i) is Ok {
        let j = selected(s, i)->Ok_0.1;
        token_fault(s, f, j, Token::From);
        if token(s, j, Token::From) is Ok {
            names_fault(s, f, j + 1, Wanted::TableName, Seq::empty());
            if names(s, j + 1, Wanted::TableName, Seq::empty()) is Ok {
                let l = names(s, j + 1, Wanted::TableName, Seq::empty())->Ok_0.1;
                if is_at(s, l, Token::Where) {
                    or_fault(s, f, l + 1);
                }
                if filter(s, f, l) is Ok {
                    token_fault(s, f, filter(s, f, l)->Ok_0.1, Token::Semicolon);
                }
            }
        }
    }
}

proof fn restriction_fault(s: Seq<TokenView>, f: Floats, i: int)
    requires
        0 <= i <= s.len(),
    ensures
        restriction(s, f, i) matches Err(e) ==> is_there(s, f, e),
        restriction(s, f, i) matches Ok((_, j)) ==> (token(s, j, Token::Semicolon) matches Err(e) ==> is_there(s, f, e)),
{
    token_fault(s, f, i, Token::Where);
    if token(s, i, Token::Where) is Ok {
        or_fault(s, f, i + 1);
        if or_expr(s, f, i + 1) is Ok {
            token_fault(s, f, or_expr(s, f, i + 1)->Ok_0.1, Token::Semicolon);
        }
    }
}

proof fn update_fault(s: Seq<TokenView>, f: Floats, i: int)
    requires
        0 <= i <= s.len(),
    ensures
        update(s, f, i) matches Err(e) ==> is_there(s, f, e),
{
    name_fault(s, f, i, Wanted::TableName);
    if name(s, i, Wanted::TableName) is Ok {
        token_fault(s, f, i + 1, Token::SetKeyword);
        if token(s, i + 1, Token::SetKeyword) is Ok {
            assignments_fault(s, f, i + 2, Seq::empty());
            if assignments(s, f, i + 2, Seq::empty()) is Ok {
                restriction_fault(s, f, assignments(s, f, i + 2, Seq::empty())->Ok_0.1);
            }
        }
    }
}

proof fn delete_fault(s: Seq<TokenView>, f: Floats, i: int)
    requires
        0 <= i <= s.len(),
    ensures
        delete(s, f, i) matches Err(e) ==> is_there(s, f, e),
{
    token_fault(s, f, i, Token::From);
    if token(s, i, Token::From) is Ok {
        name_fault(s, f, i + 1, Wanted::TableName);
        if name(s, i + 1, Wanted::TableName) is Ok {
            restriction_fault(s, f, i + 2);
        }
    }
}

/// Tokens that are no statement have a fault that is there: at the place that is named stands the token
/// that is named, and not what is wanted; or the bits of a number are not known.
pub proof fn faults_are_there(s: Seq<TokenView>, f: Floats)
    ensures
        statement(s, f, 0) matches Err(e) ==> is_there(s, f, e),
{
    if is_at(s, 0, Token::Create) {
        create_fault(s, f, 1);
    } else if is_at(s, 0, Token::Drop) {
        drop_fault(s, f, 1);
    } else if is_at(s, 0, Token::Insert) {
        insert_fault(s, f, 1);
    } else if is_at(s, 0, Token::Select) {
        select_fault(s, f, 1);
    } else if is_at(s, 0, Token::Update) {
        update_fault(s, f, 1);
    } else if is_at(s, 0, Token::Delete) {
        delete_fault(s, f, 1);
    } else if is_at(s, 0, Token::Show) {
        token_fault(s, f, 1, Token::Tables);
        if is_at(s, 1, Token::Tables) || is_at(s, 1, Token::Databases) {
            token_fault(s, f, 2, Token::Semicolon);
        }
    } else if is_at(s, 0, Token::Use) {
        name_and_end(s, f, 1, Wanted::DatabaseName);
    }
}

} // verus!
