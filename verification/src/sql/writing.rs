//! How statements are written: the grammar as a relation between tokens and statements, of which reading
//! is the inverse.
use vstd::prelude::*;

use crate::sql::ast::{
    AssignmentView, ColumnView, ColumnsView, DataType, ExprView, Operator, StatementView, Value,
    ValueView,
};
use crate::sql::grammar::{
    and_expr, and_rest, assignment, assignments, atom, column, columns, float_bits, insert_columns,
    is_at, name, names, operator, or_expr, or_rest, selected, statement, value, values, Fault,
    Floats, Wanted,
};
use crate::sql::lexer::{Token, TokenView};

verus! {

/// What a token stands for: itself, or a value.
pub ghost enum Mark {
    Token(TokenView),
    Value(ValueView),
}

/// What a token stands for, where the bits of numbers with a decimal point are known.
pub open spec fn mark(f: Floats, t: TokenView) -> Mark {
    match t {
        TokenView::IntLiteral(n) => Mark::Value(ValueView::Integer(n)),
        TokenView::FloatLiteral(x) => match float_bits(f, x) {
            Some(b) => Mark::Value(ValueView::Float(b)),
            None => Mark::Token(t),
        },
        TokenView::StringLiteral(x) => Mark::Value(ValueView::Text(x)),
        TokenView::Plain(Token::True) => Mark::Value(ValueView::Boolean(true)),
        TokenView::Plain(Token::False) => Mark::Value(ValueView::Boolean(false)),
        TokenView::Plain(Token::Null) => Mark::Value(ValueView::Null),
        _ => Mark::Token(t),
    }
}

/// What tokens stand for.
pub open spec fn marks(s: Seq<TokenView>, f: Floats) -> Seq<Mark> {
    Seq::new(s.len(), |i: int| mark(f, s[i]))
}

/// The bits of a number are those of the first entry with its notation.
pub proof fn first_notation_counts(f: Floats, t: Seq<char>, k: int)
    requires
        0 <= k < f.len(),
        f[k].0 == t,
        forall|j: int| 0 <= j < k ==> (#[trigger] f[j]).0 != t,
    ensures
        float_bits(f, t) == Some(f[k].1),
    decreases f.len(),
{
    if k > 0 {
        assert(f[0].0 != t);
        assert forall|j: int| 0 <= j < k - 1 implies (#[trigger] f.drop_first()[j]).0 != t by {
            assert(f[j + 1].0 != t);
        }
        first_notation_counts(f.drop_first(), t, k - 1);
    }
}

/// A token that holds nothing.
pub open spec fn word(t: Token) -> Mark {
    Mark::Token(TokenView::Plain(t))
}

/// A name.
pub open spec fn named(n: Seq<char>) -> Mark {
    Mark::Token(TokenView::Identifier(n))
}

/// Things with commas between them.
pub open spec fn listed(parts: Seq<Seq<Mark>>) -> Seq<Mark>
    decreases parts.len(),
{
    if parts.len() == 0 {
        Seq::empty()
    } else if parts.len() == 1 {
        parts[0]
    } else {
        parts[0] + seq![word(Token::Comma)] + listed(parts.drop_first())
    }
}

/// Names with commas between them.
pub open spec fn written_names(names: Seq<Seq<char>>) -> Seq<Mark> {
    listed(names.map_values(|n: Seq<char>| seq![named(n)]))
}

/// Values with commas between them.
pub open spec fn written_values(values: Seq<ValueView>) -> Seq<Mark> {
    listed(values.map_values(|v: ValueView| seq![Mark::Value(v)]))
}

/// A data type.
pub open spec fn written_type(t: DataType) -> Seq<Mark> {
    match t {
        DataType::Integer => seq![word(Token::Integer)],
        DataType::Float => seq![word(Token::Float)],
        DataType::Text => seq![word(Token::Text)],
        DataType::Boolean => seq![word(Token::Boolean)],
        DataType::Char(w) => seq![
            word(Token::Char),
            word(Token::LParen),
            Mark::Value(ValueView::Integer(w as i64)),
            word(Token::RParen),
        ],
    }
}

/// The width of a column can be written.
pub open spec fn width_ok(c: ColumnView) -> bool {
    c.data_type matches DataType::Char(w) ==> w <= i64::MAX
}

/// A column: a name and a data type.
pub open spec fn written_column(c: ColumnView) -> Seq<Mark> {
    seq![named(c.name)] + written_type(c.data_type)
}

/// Columns with commas between them.
pub open spec fn written_columns(cols: Seq<ColumnView>) -> Seq<Mark> {
    listed(cols.map_values(|c: ColumnView| written_column(c)))
}

/// An assignment: a name, `=` and a value.
pub open spec fn written_assignment(a: AssignmentView) -> Seq<Mark> {
    seq![named(a.column), word(Token::Eq), Mark::Value(a.value)]
}

/// Assignments with commas between them.
pub open spec fn written_assignments(v: Seq<AssignmentView>) -> Seq<Mark> {
    listed(v.map_values(|a: AssignmentView| written_assignment(a)))
}

/// An operator.
pub open spec fn written_operator(op: Operator) -> Mark {
    match op {
        Operator::Eq => word(Token::Eq),
        Operator::Ne => word(Token::Ne),
        Operator::Gt => word(Token::Gt),
        Operator::Lt => word(Token::Lt),
        Operator::Ge => word(Token::Ge),
        Operator::Le => word(Token::Le),
    }
}

/// The marks are a condition: one of parts joined by AND, or a condition, OR, and one of parts joined by
/// AND.
pub open spec fn is_or(m: Seq<Mark>, e: ExprView) -> bool
    decreases m.len(), 2nat,
{
    ||| is_and(m, e)
    ||| e matches ExprView::Or(a, b) && exists|k: int|
        0 < k < m.len() && #[trigger] m[k] == word(Token::Or) && is_or(m.take(k), *a) && is_and(m.skip(k + 1), *b)
}

/// The marks are a condition of parts joined by AND: a single part, or such a condition, AND, and a single
/// part.
pub open spec fn is_and(m: Seq<Mark>, e: ExprView) -> bool
    decreases m.len(), 1nat,
{
    ||| is_part(m, e)
    ||| e matches ExprView::And(a, b) && exists|k: int|
        0 < k < m.len() && #[trigger] m[k] == word(Token::And) && is_and(m.take(k), *a) && is_part(m.skip(k + 1), *b)
}

/// The marks are a part of a condition: a comparison, or a condition in parentheses.
pub open spec fn is_part(m: Seq<Mark>, e: ExprView) -> bool
    decreases m.len(), 0nat,
{
    ||| e matches ExprView::Comparison { column, op, value } && m == seq![
        named(column),
        written_operator(op),
        Mark::Value(value),
    ]
    ||| m.len() > 2 && m[0] == word(Token::LParen) && m.last() == word(Token::RParen) && is_or(
        m.subrange(1, m.len() - 1),
        e,
    )
}

/// The marks are these, a condition, and a semicolon.
pub open spec fn restricted(m: Seq<Mark>, head: Seq<Mark>, e: ExprView) -> bool {
    let n = head.len() as int;
    &&& m.len() > n
    &&& m.take(n) == head
    &&& m.last() == word(Token::Semicolon)
    &&& is_or(m.subrange(n, m.len() - 1), e)
}

/// SELECT, its columns, FROM and its tables.
pub open spec fn written_select(columns: ColumnsView, tables: Seq<Seq<char>>) -> Seq<Mark> {
    seq![word(Token::Select)] + match columns {
        ColumnsView::Star => seq![word(Token::Star)],
        ColumnsView::List(names) => written_names(names),
    } + seq![word(Token::From)] + written_names(tables)
}

/// The marks are a statement.
pub open spec fn is_statement(m: Seq<Mark>, stmt: StatementView) -> bool {
    match stmt {
        StatementView::CreateTable { name, columns } => {
            &&& columns.len() > 0
            &&& forall|i: int| 0 <= i < columns.len() ==> width_ok(#[trigger] columns[i])
            &&& m == seq![word(Token::Create), word(Token::Table), named(name), word(Token::LParen)] + written_columns(
                columns,
            ) + seq![word(Token::RParen), word(Token::Semicolon)]
        },
        StatementView::CreateIndex { name, table, column } => m == seq![
            word(Token::Create),
            word(Token::Index),
            named(name),
            word(Token::On),
            named(table),
            word(Token::LParen),
            named(column),
            word(Token::RParen),
            word(Token::Semicolon),
        ],
        StatementView::CreateDatabase { name } => m == seq![
            word(Token::Create),
            word(Token::Database),
            named(name),
            word(Token::Semicolon),
        ],
        StatementView::DropTable { name } => m == seq![
            word(Token::Drop),
            word(Token::Table),
            named(name),
            word(Token::Semicolon),
        ],
        StatementView::DropIndex { name } => m == seq![
            word(Token::Drop),
            word(Token::Index),
            named(name),
            word(Token::Semicolon),
        ],
        StatementView::DropDatabase { name } => m == seq![
            word(Token::Drop),
            word(Token::Database),
            named(name),
            word(Token::Semicolon),
        ],
        StatementView::ShowTables => m == seq![word(Token::Show), word(Token::Tables), word(Token::Semicolon)],
        StatementView::ShowDatabases => m == seq![word(Token::Show), word(Token::Databases), word(Token::Semicolon)],
        StatementView::UseDatabase { name } => m == seq![word(Token::Use), named(name), word(Token::Semicolon)],
        StatementView::Insert { table, columns, values } => {
            &&& values.len() > 0
            &&& columns matches Some(names) ==> names.len() > 0
            &&& m == seq![word(Token::Insert), word(Token::Into), named(table)] + match columns {
                None => Seq::empty(),
                Some(names) => seq![word(Token::LParen)] + written_names(names) + seq![word(Token::RParen)],
            } + seq![word(Token::Values), word(Token::LParen)] + written_values(values) + seq![
                word(Token::RParen),
                word(Token::Semicolon),
            ]
        },
        StatementView::Select { columns, tables, condition } => {
            &&& tables.len() > 0
            &&& columns matches ColumnsView::List(names) ==> names.len() > 0
            &&& match condition {
                None => m == written_select(columns, tables) + seq![word(Token::Semicolon)],
                Some(e) => restricted(m, written_select(columns, tables) + seq![word(Token::Where)], e),
            }
        },
        StatementView::Update { table, assignments, condition } => {
            &&& assignments.len() > 0
            &&& restricted(
                m,
                seq![word(Token::Update), named(table), word(Token::SetKeyword)] + written_assignments(assignments)
                    + seq![word(Token::Where)],
                condition,
            )
        },
        StatementView::Delete { table, condition } => restricted(
            m,
            seq![word(Token::Delete), word(Token::From), named(table), word(Token::Where)],
            condition,
        ),
    }
}

/// A token that is no value stands at a place exactly if its mark does.
proof fn word_at(s: Seq<TokenView>, f: Floats)
    ensures
        forall|i: int, t: Token| #[trigger]
            is_at(s, i, t) && !(t is True || t is False || t is Null) ==> 0 <= i < s.len() && marks(s, f)[i] == word(t),
        forall|i: int, t: Token|
            0 <= i < s.len() && #[trigger] marks(s, f)[i] == #[trigger] word(t) ==> is_at(s, i, t),
{
}

proof fn is_word(s: Seq<TokenView>, f: Floats, i: int, t: Token)
    requires
        0 <= i < s.len(),
        marks(s, f)[i] == word(t),
    ensures
        is_at(s, i, t),
{
}

proof fn is_not_word(s: Seq<TokenView>, f: Floats, i: int, t: Token)
    requires
        !(t is True || t is False || t is Null),
        0 <= i < s.len() ==> marks(s, f)[i] != word(t),
    ensures
        !is_at(s, i, t),
{
}

proof fn name_at(s: Seq<TokenView>, f: Floats, i: int, want: Wanted)
    ensures
        name(s, i, want) matches Ok((n, j)) ==> 0 <= i < s.len() && marks(s, f)[i] == named(n) && j == i + 1,
        forall|n: Seq<char>| 0 <= i < s.len() && marks(s, f)[i] == #[trigger] named(n) ==> name(s, i, want) == Ok::<
            (Seq<char>, int),
            Fault,
        >((n, i + 1)),
{
}

proof fn value_at(s: Seq<TokenView>, f: Floats, i: int)
    ensures
        value(s, f, i) matches Ok((v, j)) ==> 0 <= i < s.len() && marks(s, f)[i] == Mark::Value(v) && j == i + 1,
        0 <= i < s.len() && marks(s, f)[i] is Value ==> value(s, f, i) == Ok::<(ValueView, int), Fault>(
            (marks(s, f)[i]->Value_0, i + 1),
        ),
{
}

proof fn operator_at(s: Seq<TokenView>, f: Floats, i: int)
    ensures
        operator(s, i) matches Ok((op, j)) ==> 0 <= i < s.len() && marks(s, f)[i] == written_operator(op) && j == i + 1,
        forall|op: Operator| 0 <= i < s.len() && marks(s, f)[i] == #[trigger] written_operator(op) ==> operator(s, i)
            == Ok::<(Operator, int), Fault>((op, i + 1)),
{
}

/// A condition that is read is one that is written there.
proof fn read_or(s: Seq<TokenView>, f: Floats, i: int)
    requires
        0 <= i,
    ensures
        or_expr(s, f, i) matches Ok((e, j)) ==> i < j <= s.len() && is_or(marks(s, f).subrange(i, j), e),
    decreases s.len() - i, 5nat,
{
    read_and(s, f, i);
    if and_expr(s, f, i) is Ok {
        let (left, j) = and_expr(s, f, i)->Ok_0;
        read_or_rest(s, f, i, j, left);
    }
}

proof fn read_or_rest(s: Seq<TokenView>, f: Floats, i: int, j: int, left: ExprView)
    requires
        0 <= i < j <= s.len(),
        is_or(marks(s, f).subrange(i, j), left),
    ensures
        or_rest(s, f, j, left) matches Ok((e, k)) ==> i < k <= s.len() && is_or(marks(s, f).subrange(i, k), e),
    decreases s.len() - j, 0nat,
{
    let m = marks(s, f);
    if is_at(s, j, Token::Or) {
        word_at(s, f);
        read_and(s, f, j + 1);
        if and_expr(s, f, j + 1) is Ok {
            let (right, k) = and_expr(s, f, j + 1)->Ok_0;
            let whole = m.subrange(i, k);
            let e = ExprView::Or(Box::new(left), Box::new(right));
            assert(whole.take(j - i) =~= m.subrange(i, j));
            assert(whole.skip(j - i + 1) =~= m.subrange(j + 1, k));
            assert(whole[j - i] == word(Token::Or));
            assert(is_or(whole, e));
            read_or_rest(s, f, i, k, e);
        }
    }
}

proof fn read_and(s: Seq<TokenView>, f: Floats, i: int)
    requires
        0 <= i,
    ensures
        and_expr(s, f, i) matches Ok((e, j)) ==> i < j <= s.len() && is_and(marks(s, f).subrange(i, j), e),
    decreases s.len() - i, 4nat,
{
    read_part(s, f, i);
    if atom(s, f, i) is Ok {
        let (left, j) = atom(s, f, i)->Ok_0;
        read_and_rest(s, f, i, j, left);
    }
}

proof fn read_and_rest(s: Seq<TokenView>, f: Floats, i: int, j: int, left: ExprView)
    requires
        0 <= i < j <= s.len(),
        is_and(marks(s, f).subrange(i, j), left),
    ensures
        and_rest(s, f, j, left) matches Ok((e, k)) ==> i < k <= s.len() && is_and(marks(s, f).subrange(i, k), e),
    decreases s.len() - j, 0nat,
{
    let m = marks(s, f);
    if is_at(s, j, Token::And) {
        word_at(s, f);
        read_part(s, f, j + 1);
        if atom(s, f, j + 1) is Ok {
            let (right, k) = atom(s, f, j + 1)->Ok_0;
            let whole = m.subrange(i, k);
            let e = ExprView::And(Box::new(left), Box::new(right));
            assert(whole.take(j - i) =~= m.subrange(i, j));
            assert(whole.skip(j - i + 1) =~= m.subrange(j + 1, k));
            assert(whole[j - i] == word(Token::And));
            assert(is_and(whole, e));
            read_and_rest(s, f, i, k, e);
        }
    }
}

proof fn read_part(s: Seq<TokenView>, f: Floats, i: int)
    requires
        0 <= i,
    ensures
        atom(s, f, i) matches Ok((e, j)) ==> i < j <= s.len() && is_part(marks(s, f).subrange(i, j), e),
    decreases s.len() - i, 3nat,
{
    let m = marks(s, f);
    word_at(s, f);
    if is_at(s, i, Token::LParen) {
        read_or(s, f, i + 1);
        if atom(s, f, i) is Ok {
            let (e, j) = or_expr(s, f, i + 1)->Ok_0;
            assert(is_at(s, j, Token::RParen));
            let whole = m.subrange(i, j + 1);
            assert(whole.subrange(1, whole.len() - 1) =~= m.subrange(i + 1, j));
            assert(whole.last() == m[j]);
        }
    } else if atom(s, f, i) is Ok {
        let (e, j) = atom(s, f, i)->Ok_0;
        name_at(s, f, i, Wanted::ColumnName);
        operator_at(s, f, i + 1);
        value_at(s, f, i + 2);
        let whole = m.subrange(i, i + 3);
        match e {
            ExprView::Comparison { column, op, value } => {
                assert(whole =~= seq![named(column), written_operator(op), Mark::Value(value)]);
            },
            _ => {},
        }
    }
}

/// A condition that is written at a place is read there, if neither AND nor OR follows.
proof fn or_is_read(s: Seq<TokenView>, f: Floats, i: int, j: int, e: ExprView)
    requires
        0 <= i <= j <= s.len(),
        is_or(marks(s, f).subrange(i, j), e),
        !is_at(s, j, Token::And),
    ensures
        i < j,
        or_expr(s, f, i) == or_rest(s, f, j, e),
    decreases j - i, 2nat,
{
    let m = marks(s, f);
    let w = m.subrange(i, j);
    word_at(s, f);
    if is_and(w, e) {
        and_is_read(s, f, i, j, e);
        assert(and_rest(s, f, j, e) == Ok::<(ExprView, int), Fault>((e, j)));
    } else {
        let a = *e->Or_0;
        let b = *e->Or_1;
        let k = choose|k: int|
            0 < k < w.len() && #[trigger] w[k] == word(Token::Or) && is_or(w.take(k), a) && is_and(w.skip(k + 1), b);
        assert(m[i + k] == w[k]);
        assert(w.take(k) =~= m.subrange(i, i + k));
        assert(w.skip(k + 1) =~= m.subrange(i + k + 1, j));
        assert(is_at(s, i + k, Token::Or));
        or_is_read(s, f, i, i + k, a);
        and_is_read(s, f, i + k + 1, j, b);
        assert(and_expr(s, f, i + k + 1) == Ok::<(ExprView, int), Fault>((b, j)));
        assert(or_rest(s, f, i + k, a) == or_rest(s, f, j, ExprView::Or(Box::new(a), Box::new(b))));
    }
}

proof fn and_is_read(s: Seq<TokenView>, f: Floats, i: int, j: int, e: ExprView)
    requires
        0 <= i <= j <= s.len(),
        is_and(marks(s, f).subrange(i, j), e),
    ensures
        i < j,
        and_expr(s, f, i) == and_rest(s, f, j, e),
    decreases j - i, 1nat,
{
    let m = marks(s, f);
    let w = m.subrange(i, j);
    word_at(s, f);
    if is_part(w, e) {
        part_is_read(s, f, i, j, e);
    } else {
        let a = *e->And_0;
        let b = *e->And_1;
        let k = choose|k: int|
            0 < k < w.len() && #[trigger] w[k] == word(Token::And) && is_and(w.take(k), a) && is_part(w.skip(k + 1), b);
        assert(m[i + k] == w[k]);
        assert(w.take(k) =~= m.subrange(i, i + k));
        assert(w.skip(k + 1) =~= m.subrange(i + k + 1, j));
        assert(is_at(s, i + k, Token::And));
        and_is_read(s, f, i, i + k, a);
        part_is_read(s, f, i + k + 1, j, b);
        assert(and_rest(s, f, i + k, a) == and_rest(s, f, j, ExprView::And(Box::new(a), Box::new(b))));
    }
}

proof fn part_is_read(s: Seq<TokenView>, f: Floats, i: int, j: int, e: ExprView)
    requires
        0 <= i <= j <= s.len(),
        is_part(marks(s, f).subrange(i, j), e),
    ensures
        i < j,
        atom(s, f, i) == Ok::<(ExprView, int), Fault>((e, j)),
    decreases j - i, 0nat,
{
    let m = marks(s, f);
    let w = m.subrange(i, j);
    word_at(s, f);
    if w.len() > 2 && w[0] == word(Token::LParen) && w.last() == word(Token::RParen) && is_or(
        w.subrange(1, w.len() - 1),
        e,
    ) {
        assert(m[i] == w[0]);
        assert(m[j - 1] == w.last());
        assert(w.subrange(1, w.len() - 1) =~= m.subrange(i + 1, j - 1));
        assert(is_at(s, j - 1, Token::RParen));
        or_is_read(s, f, i + 1, j - 1, e);
        assert(or_rest(s, f, j - 1, e) == Ok::<(ExprView, int), Fault>((e, j - 1)));
    } else {
        match e {
            ExprView::Comparison { column, op, value } => {
                assert(w[0] == named(column) && w[1] == written_operator(op) && w[2] == Mark::Value(value));
                assert(m[i] == w[0] && m[i + 1] == w[1] && m[i + 2] == w[2]);
                assert(!is_at(s, i, Token::LParen));
                name_at(s, f, i, Wanted::ColumnName);
                operator_at(s, f, i + 1);
                value_at(s, f, i + 2);
            },
            _ => {},
        }
    }
}

/// A condition is read exactly as it is written: where tokens are followed by neither AND nor OR, they are
/// read as a condition, to their end, if and only if they are one.
pub proof fn conditions_are_read_as_written(s: Seq<TokenView>, f: Floats, i: int, j: int, e: ExprView)
    requires
        0 <= i <= j <= s.len(),
        !is_at(s, j, Token::And),
        !is_at(s, j, Token::Or),
    ensures
        is_or(marks(s, f).subrange(i, j), e) <==> or_expr(s, f, i) == Ok::<(ExprView, int), Fault>((e, j)),
{
    read_or(s, f, i);
    if is_or(marks(s, f).subrange(i, j), e) {
        or_is_read(s, f, i, j, e);
    }
}

proof fn read_names(s: Seq<TokenView>, f: Floats, i: int, want: Wanted, done: Seq<Seq<char>>) -> (ns: Seq<Seq<char>>)
    requires
        0 <= i,
    ensures
        names(s, i, want, done) matches Ok((r, j)) ==> {
            &&& ns.len() > 0
            &&& r == done + ns
            &&& i < j <= s.len()
            &&& marks(s, f).subrange(i, j) == written_names(ns)
        },
    decreases s.len() - i,
{
    let m = marks(s, f);
    word_at(s, f);
    name_at(s, f, i, want);
    if names(s, i, want, done) is Ok {
        let (n, j) = name(s, i, want)->Ok_0;
        let write = |n: Seq<char>| seq![named(n)];
        if is_at(s, j, Token::Comma) {
            let rest = read_names(s, f, j + 1, want, done.push(n));
            let ns = seq![n] + rest;
            let k = names(s, i, want, done)->Ok_0.1;
            assert(ns.map_values(write).drop_first() =~= rest.map_values(write));
            assert(written_names(ns) == seq![named(n)] + seq![word(Token::Comma)] + written_names(rest));
            assert(m.subrange(i, k) =~= seq![named(n)] + seq![word(Token::Comma)] + m.subrange(j + 1, k));
            assert(done.push(n) + rest =~= done + ns);
            ns
        } else {
            let ns = seq![n];
            assert(m.subrange(i, j) =~= seq![named(n)]);
            assert(ns.map_values(write)[0] == seq![named(n)]);
            assert(done.push(n) =~= done + ns);
            ns
        }
    } else {
        Seq::empty()
    }
}

proof fn names_are_read(
    s: Seq<TokenView>,
    f: Floats,
    i: int,
    j: int,
    want: Wanted,
    done: Seq<Seq<char>>,
    ns: Seq<Seq<char>>,
)
    requires
        0 <= i <= j <= s.len(),
        ns.len() > 0,
        marks(s, f).subrange(i, j) == written_names(ns),
        !is_at(s, j, Token::Comma),
    ensures
        names(s, i, want, done) == Ok::<(Seq<Seq<char>>, int), Fault>((done + ns, j)),
    decreases ns.len(),
{
    let m = marks(s, f);
    let w = m.subrange(i, j);
    let n = ns[0];
    let write = |n: Seq<char>| seq![named(n)];
    let parts = ns.map_values(write);
    word_at(s, f);
    name_at(s, f, i, want);
    assert(parts[0] == seq![named(n)]);
    assert(w[0] == named(n)) by {
        if ns.len() > 1 {
            assert(w == parts[0] + seq![word(Token::Comma)] + listed(parts.drop_first()));
        }
    }
    assert(m[i] == w[0]);
    if ns.len() > 1 {
        let rest = ns.drop_first();
        assert(parts.drop_first() =~= rest.map_values(write));
        assert(w == seq![named(n)] + seq![word(Token::Comma)] + written_names(rest));
        assert(m[i + 1] == w[1]);
        assert(m.subrange(i + 2, j) =~= w.skip(2));
        assert(w.skip(2) =~= written_names(rest));
        names_are_read(s, f, i + 2, j, want, done.push(n), rest);
        assert(done.push(n) + rest =~= done + ns);
    } else {
        assert(w.len() == 1);
        assert(done.push(n) =~= done + ns);
    }
}

proof fn read_values(s: Seq<TokenView>, f: Floats, i: int, done: Seq<ValueView>) -> (ns: Seq<ValueView>)
    requires
        0 <= i,
    ensures
        values(s, f, i, done) matches Ok((r, j)) ==> {
            &&& ns.len() > 0
            &&& r == done + ns
            &&& i < j <= s.len()
            &&& marks(s, f).subrange(i, j) == written_values(ns)
        },
    decreases s.len() - i,
{
    let m = marks(s, f);
    word_at(s, f);
    value_at(s, f, i);
    if values(s, f, i, done) is Ok {
        let (n, j) = value(s, f, i)->Ok_0;
        let write = |n: ValueView| seq![Mark::Value(n)];
        if is_at(s, j, Token::Comma) {
            let rest = read_values(s, f, j + 1, done.push(n));
            let ns = seq![n] + rest;
            let k = values(s, f, i, done)->Ok_0.1;
            assert(ns.map_values(write).drop_first() =~= rest.map_values(write));
            assert(written_values(ns) == seq![Mark::Value(n)] + seq![word(Token::Comma)] + written_values(rest));
            assert(m.subrange(i, k) =~= seq![Mark::Value(n)] + seq![word(Token::Comma)] + m.subrange(j + 1, k));
            assert(done.push(n) + rest =~= done + ns);
            ns
        } else {
            let ns = seq![n];
            assert(m.subrange(i, j) =~= seq![Mark::Value(n)]);
            assert(ns.map_values(write)[0] == seq![Mark::Value(n)]);
            assert(done.push(n) =~= done + ns);
            ns
        }
    } else {
        Seq::empty()
    }
}

proof fn values_are_read(
    s: Seq<TokenView>,
    f: Floats,
    i: int,
    j: int,
    done: Seq<ValueView>,
    ns: Seq<ValueView>,
)
    requires
        0 <= i <= j <= s.len(),
        ns.len() > 0,
        marks(s, f).subrange(i, j) == written_values(ns),
        !is_at(s, j, Token::Comma),
    ensures
        values(s, f, i, done) == Ok::<(Seq<ValueView>, int), Fault>((done + ns, j)),
    decreases ns.len(),
{
    let m = marks(s, f);
    let w = m.subrange(i, j);
    let n = ns[0];
    let write = |n: ValueView| seq![Mark::Value(n)];
    let parts = ns.map_values(write);
    word_at(s, f);
    value_at(s, f, i);
    assert(parts[0] == seq![Mark::Value(n)]);
    assert(w[0] == Mark::Value(n)) by {
        if ns.len() > 1 {
            assert(w == parts[0] + seq![word(Token::Comma)] + listed(parts.drop_first()));
        }
    }
    assert(m[i] == w[0]);
    if ns.len() > 1 {
        let rest = ns.drop_first();
        assert(parts.drop_first() =~= rest.map_values(write));
        assert(w == seq![Mark::Value(n)] + seq![word(Token::Comma)] + written_values(rest));
        assert(m[i + 1] == w[1]);
        assert(m.subrange(i + 2, j) =~= w.skip(2));
        assert(w.skip(2) =~= written_values(rest));
        values_are_read(s, f, i + 2, j, done.push(n), rest);
        assert(done.push(n) + rest =~= done + ns);
    } else {
        assert(w.len() == 1);
        assert(done.push(n) =~= done + ns);
    }
}

proof fn read_column(s: Seq<TokenView>, f: Floats, i: int)
    requires
        0 <= i,
    ensures
        column(s, i) matches Ok((c, j)) ==> {
            &&& i < j <= s.len()
            &&& width_ok(c)
            &&& marks(s, f).subrange(i, j) == written_column(c)
        },
{
    let m = marks(s, f);
    word_at(s, f);
    name_at(s, f, i, Wanted::ColumnName);
    if column(s, i) is Ok {
        let (c, j) = column(s, i)->Ok_0;
        let k = i + 1;
        assert(0 <= k < s.len());
        match c.data_type {
            DataType::Char(w) => {
                assert(is_at(s, k, Token::Char));
                assert(is_at(s, k + 1, Token::LParen));
                assert(s[k + 2] is IntLiteral);
                assert(is_at(s, k + 3, Token::RParen));
                assert(m[k + 2] == Mark::Value(ValueView::Integer(w as i64)));
                assert(j == k + 4);
            },
            _ => {
                assert(j == k + 1);
            },
        }
        assert(m.subrange(i, j) =~= written_column(c));
    }
}

proof fn column_is_read(s: Seq<TokenView>, f: Floats, i: int, j: int, c: ColumnView)
    requires
        0 <= i <= j <= s.len(),
        width_ok(c),
        marks(s, f).subrange(i, j) == written_column(c),
    ensures
        column(s, i) == Ok::<(ColumnView, int), Fault>((c, j)),
{
    let m = marks(s, f);
    let w = m.subrange(i, j);
    word_at(s, f);
    name_at(s, f, i, Wanted::ColumnName);
    let k = i + 1;
    assert(written_type(c.data_type).len() >= 1) by {
        match c.data_type {
            DataType::Char(_) => {},
            _ => {},
        }
    }
    assert(w.len() == 1 + written_type(c.data_type).len());
    assert(w[0] == named(c.name) && m[i] == w[0]);
    assert(w[1] == written_type(c.data_type)[0] && m[k] == w[1]);
    match c.data_type {
        DataType::Char(x) => {
            assert(w.len() == 5);
            assert(m[k + 1] == w[2] && m[k + 2] == w[3] && m[k + 3] == w[4]);
            assert(w[2] == written_type(c.data_type)[1]);
            assert(w[3] == written_type(c.data_type)[2]);
            assert(w[4] == written_type(c.data_type)[3]);
            assert(is_at(s, k, Token::Char));
            assert(is_at(s, k + 1, Token::LParen));
            assert(s[k + 2] == TokenView::IntLiteral(x as i64));
            assert(is_at(s, k + 3, Token::RParen));
        },
        _ => {
            assert(w.len() == 2);
        },
    }
}

proof fn read_assignment(s: Seq<TokenView>, f: Floats, i: int)
    requires
        0 <= i,
    ensures
        assignment(s, f, i) matches Ok((a, j)) ==> {
            &&& i < j <= s.len()
            &&& marks(s, f).subrange(i, j) == written_assignment(a)
        },
{
    word_at(s, f);
    name_at(s, f, i, Wanted::ColumnName);
    value_at(s, f, i + 2);
    if assignment(s, f, i) is Ok {
        let (a, j) = assignment(s, f, i)->Ok_0;
        assert(is_at(s, i + 1, Token::Eq));
        assert(marks(s, f).subrange(i, j) =~= written_assignment(a));
    }
}

proof fn assignment_is_read(s: Seq<TokenView>, f: Floats, i: int, a: AssignmentView)
    requires
        0 <= i <= s.len() - 3,
        marks(s, f).subrange(i, i + 3) == written_assignment(a),
    ensures
        assignment(s, f, i) == Ok::<(AssignmentView, int), Fault>((a, i + 3)),
{
    let m = marks(s, f);
    let w = m.subrange(i, i + 3);
    word_at(s, f);
    assert(m[i] == w[0] && m[i + 1] == w[1] && m[i + 2] == w[2]);
    name_at(s, f, i, Wanted::ColumnName);
    value_at(s, f, i + 2);
    assert(is_at(s, i + 1, Token::Eq));
}

proof fn read_columns(s: Seq<TokenView>, f: Floats, i: int, done: Seq<ColumnView>) -> (ns: Seq<ColumnView>)
    requires
        0 <= i,
    ensures
        columns(s, i, done) matches Ok((r, j)) ==> {
            &&& ns.len() > 0
            &&& r == done + ns
            &&& i < j <= s.len()
            &&& marks(s, f).subrange(i, j) == written_columns(ns)
            &&& forall|k: int| 0 <= k < ns.len() ==> width_ok(#[trigger] ns[k])
        },
    decreases s.len() - i,
{
    let m = marks(s, f);
    word_at(s, f);
    read_column(s, f, i);
    if columns(s, i, done) is Ok {
        let (n, j) = column(s, i)->Ok_0;
        let write = |c: ColumnView| written_column(c);
        if is_at(s, j, Token::Comma) {
            let rest = read_columns(s, f, j + 1, done.push(n));
            let ns = seq![n] + rest;
            let k = columns(s, i, done)->Ok_0.1;
            assert(ns.map_values(write).drop_first() =~= rest.map_values(write));
            assert(ns.map_values(write)[0] == written_column(n));
            assert(written_columns(ns) == written_column(n) + seq![word(Token::Comma)] + written_columns(rest));
            assert(m.subrange(i, k) =~= m.subrange(i, j) + seq![word(Token::Comma)] + m.subrange(j + 1, k));
            assert(done.push(n) + rest =~= done + ns);
            ns
        } else {
            let ns = seq![n];
            assert(ns.map_values(write)[0] == written_column(n));
            assert(done.push(n) =~= done + ns);
            ns
        }
    } else {
        Seq::empty()
    }
}

proof fn columns_are_read(s: Seq<TokenView>, f: Floats, i: int, j: int, done: Seq<ColumnView>, ns: Seq<ColumnView>)
    requires
        0 <= i <= j <= s.len(),
        ns.len() > 0,
        marks(s, f).subrange(i, j) == written_columns(ns),
        !is_at(s, j, Token::Comma),
        forall|k: int| 0 <= k < ns.len() ==> width_ok(#[trigger] ns[k]),
    ensures
        columns(s, i, done) == Ok::<(Seq<ColumnView>, int), Fault>((done + ns, j)),
    decreases ns.len(),
{
    let m = marks(s, f);
    let w = m.subrange(i, j);
    let n = ns[0];
    let write = |c: ColumnView| written_column(c);
    let parts = ns.map_values(write);
    let part = written_column(n);
    word_at(s, f);
    assert(parts[0] == part);
    if ns.len() > 1 {
        let rest = ns.drop_first();
        assert(parts.drop_first() =~= rest.map_values(write));
        assert(w == part + seq![word(Token::Comma)] + written_columns(rest));
        let k = i + part.len();
        assert(m.subrange(i, k) =~= w.take(part.len() as int));
        assert(w.take(part.len() as int) =~= part);
        column_is_read(s, f, i, i + part.len(), n);
        assert(m[k] == w[part.len() as int]);
        assert(is_at(s, k, Token::Comma));
        assert(m.subrange(k + 1, j) =~= w.skip(k + 1 - i));
        assert(w.skip(k + 1 - i) =~= written_columns(rest));
        columns_are_read(s, f, k + 1, j, done.push(n), rest);
        assert(done.push(n) + rest =~= done + ns);
    } else {
        assert(w == part);
        column_is_read(s, f, i, i + part.len(), n);
        assert(done.push(n) =~= done + ns);
    }
}

proof fn read_assignments(s: Seq<TokenView>, f: Floats, i: int, done: Seq<AssignmentView>) -> (ns: Seq<AssignmentView>)
    requires
        0 <= i,
    ensures
        assignments(s, f, i, done) matches Ok((r, j)) ==> {
            &&& ns.len() > 0
            &&& r == done + ns
            &&& i < j <= s.len()
            &&& marks(s, f).subrange(i, j) == written_assignments(ns)
        },
    decreases s.len() - i,
{
    let m = marks(s, f);
    word_at(s, f);
    read_assignment(s, f, i);
    if assignments(s, f, i, done) is Ok {
        let (n, j) = assignment(s, f, i)->Ok_0;
        let write = |c: AssignmentView| written_assignment(c);
        if is_at(s, j, Token::Comma) {
            let rest = read_assignments(s, f, j + 1, done.push(n));
            let ns = seq![n] + rest;
            let k = assignments(s, f, i, done)->Ok_0.1;
            assert(ns.map_values(write).drop_first() =~= rest.map_values(write));
            assert(ns.map_values(write)[0] == written_assignment(n));
            assert(written_assignments(ns) == written_assignment(n) + seq![word(Token::Comma)] + written_assignments(rest));
            assert(m.subrange(i, k) =~= m.subrange(i, j) + seq![word(Token::Comma)] + m.subrange(j + 1, k));
            assert(done.push(n) + rest =~= done + ns);
            ns
        } else {
            let ns = seq![n];
            assert(ns.map_values(write)[0] == written_assignment(n));
            assert(done.push(n) =~= done + ns);
            ns
        }
    } else {
        Seq::empty()
    }
}

proof fn assignments_are_read(s: Seq<TokenView>, f: Floats, i: int, j: int, done: Seq<AssignmentView>, ns: Seq<AssignmentView>)
    requires
        0 <= i <= j <= s.len(),
        ns.len() > 0,
        marks(s, f).subrange(i, j) == written_assignments(ns),
        !is_at(s, j, Token::Comma),
    ensures
        assignments(s, f, i, done) == Ok::<(Seq<AssignmentView>, int), Fault>((done + ns, j)),
    decreases ns.len(),
{
    let m = marks(s, f);
    let w = m.subrange(i, j);
    let n = ns[0];
    let write = |c: AssignmentView| written_assignment(c);
    let parts = ns.map_values(write);
    let part = written_assignment(n);
    word_at(s, f);
    assert(parts[0] == part);
    if ns.len() > 1 {
        let rest = ns.drop_first();
        assert(parts.drop_first() =~= rest.map_values(write));
        assert(w == part + seq![word(Token::Comma)] + written_assignments(rest));
        let k = i + part.len();
        assert(m.subrange(i, k) =~= w.take(part.len() as int));
        assert(w.take(part.len() as int) =~= part);
        assignment_is_read(s, f, i, n);
        assert(m[k] == w[part.len() as int]);
        assert(is_at(s, k, Token::Comma));
        assert(m.subrange(k + 1, j) =~= w.skip(k + 1 - i));
        assert(w.skip(k + 1 - i) =~= written_assignments(rest));
        assignments_are_read(s, f, k + 1, j, done.push(n), rest);
        assert(done.push(n) + rest =~= done + ns);
    } else {
        assert(w == part);
        assignment_is_read(s, f, i, n);
        assert(done.push(n) =~= done + ns);
    }
}

/// A condition behind the word WHERE, and a semicolon, are read.
proof fn restriction_is_read(s: Seq<TokenView>, f: Floats, j: int, head: Seq<Mark>, e: ExprView)
    requires
        0 <= j <= s.len(),
        head.len() > 0,
        restricted(marks(s, f).take(j), head, e),
    ensures
        head.len() < j,
        or_expr(s, f, head.len() as int) == Ok::<(ExprView, int), Fault>((e, j - 1)),
        is_at(s, j - 1, Token::Semicolon),
        forall|k: int| 0 <= k < head.len() ==> (#[trigger] marks(s, f)[k]) == head[k],
{
    let m = marks(s, f);
    let w = m.take(j);
    let n = head.len() as int;
    word_at(s, f);
    assert(w.last() == m[j - 1]);
    assert(is_at(s, j - 1, Token::Semicolon));
    assert(w.subrange(n, w.len() - 1) =~= m.subrange(n, j - 1));
    assert forall|k: int| 0 <= k < head.len() implies (#[trigger] m[k]) == head[k] by {
        assert(w.take(n)[k] == head[k]);
    }
    conditions_are_read_as_written(s, f, n, j - 1, e);
}

/// A condition behind the word WHERE, and a semicolon, that are read are written there.
proof fn read_restriction(s: Seq<TokenView>, f: Floats, n: int, k: int, head: Seq<Mark>, e: ExprView)
    requires
        0 <= n <= s.len(),
        marks(s, f).take(n) == head,
        or_expr(s, f, n) == Ok::<(ExprView, int), Fault>((e, k)),
        is_at(s, k, Token::Semicolon),
    ensures
        k < s.len(),
        restricted(marks(s, f).take(k + 1), head, e),
{
    let m = marks(s, f);
    word_at(s, f);
    read_or(s, f, n);
    let w = m.take(k + 1);
    assert(w.take(n) =~= m.take(n));
    assert(w.last() == m[k]);
    assert(w.subrange(n, w.len() - 1) =~= m.subrange(n, k));
}

/// Tokens that are a statement are read as that statement, whatever follows them.
proof fn statement_is_read(s: Seq<TokenView>, f: Floats, j: int, stmt: StatementView)
    requires
        0 <= j <= s.len(),
        is_statement(marks(s, f).take(j), stmt),
    ensures
        statement(s, f, 0) == Ok::<StatementView, Fault>(stmt),
{
    let m = marks(s, f);
    let w = m.take(j);
    match stmt {
        StatementView::CreateTable { name, columns } => create_table_is_read(s, f, j, name, columns),
        StatementView::Insert { table, columns, values } => insert_is_read(s, f, j, table, columns, values),
        StatementView::Select { columns, tables, condition } => select_is_read(s, f, j, columns, tables, condition),
        StatementView::Update { table, assignments, condition } => update_is_read(s, f, j, table, assignments, condition),
        StatementView::Delete { table, condition } => {
            let head = seq![word(Token::Delete), word(Token::From), named(table), word(Token::Where)];
            restriction_is_read(s, f, j, head, condition);
            assert(m[0] == head[0] && m[1] == head[1] && m[2] == head[2] && m[3] == head[3]);
            is_word(s, f, 0, Token::Delete);
            is_word(s, f, 1, Token::From);
            is_word(s, f, 3, Token::Where);
            name_at(s, f, 2, Wanted::TableName);
        },
        _ => short_is_read(s, f, j, stmt),
    }
}

#[verifier::spinoff_prover]
#[verifier::rlimit(40)]
proof fn short_is_read(s: Seq<TokenView>, f: Floats, j: int, stmt: StatementView)
    requires
        0 <= j <= s.len(),
        is_statement(marks(s, f).take(j), stmt),
        !(stmt is CreateTable || stmt is Insert || stmt is Select || stmt is Update || stmt is Delete),
    ensures
        statement(s, f, 0) == Ok::<StatementView, Fault>(stmt),
{
    let m = marks(s, f);
    let w = m.take(j);
    match stmt {
        StatementView::CreateIndex { name, table, column } => {
            assert(w.len() == 9);
            assert(m[0] == w[0] && m[1] == w[1] && m[2] == w[2] && m[3] == w[3] && m[4] == w[4] && m[5] == w[5] && m[6]
                == w[6] && m[7] == w[7] && m[8] == w[8]);
            is_word(s, f, 0, Token::Create);
            is_word(s, f, 1, Token::Index);
            is_word(s, f, 3, Token::On);
            is_word(s, f, 5, Token::LParen);
            is_word(s, f, 7, Token::RParen);
            is_word(s, f, 8, Token::Semicolon);
            name_at(s, f, 2, Wanted::IndexName);
            name_at(s, f, 4, Wanted::TableName);
            name_at(s, f, 6, Wanted::ColumnName);
        },
        StatementView::CreateDatabase { name } => {
            assert(w.len() == 4);
            assert(m[0] == w[0] && m[1] == w[1] && m[2] == w[2] && m[3] == w[3]);
            is_word(s, f, 0, Token::Create);
            is_word(s, f, 1, Token::Database);
            is_word(s, f, 3, Token::Semicolon);
            name_at(s, f, 2, Wanted::DatabaseName);
        },
        StatementView::DropTable { name } => {
            assert(w.len() == 4);
            assert(m[0] == w[0] && m[1] == w[1] && m[2] == w[2] && m[3] == w[3]);
            is_word(s, f, 0, Token::Drop);
            is_word(s, f, 1, Token::Table);
            is_word(s, f, 3, Token::Semicolon);
            name_at(s, f, 2, Wanted::TableName);
        },
        StatementView::DropIndex { name } => {
            assert(w.len() == 4);
            assert(m[0] == w[0] && m[1] == w[1] && m[2] == w[2] && m[3] == w[3]);
            is_word(s, f, 0, Token::Drop);
            is_word(s, f, 1, Token::Index);
            is_word(s, f, 3, Token::Semicolon);
            name_at(s, f, 2, Wanted::IndexName);
        },
        StatementView::DropDatabase { name } => {
            assert(w.len() == 4);
            assert(m[0] == w[0] && m[1] == w[1] && m[2] == w[2] && m[3] == w[3]);
            is_word(s, f, 0, Token::Drop);
            is_word(s, f, 1, Token::Database);
            is_word(s, f, 3, Token::Semicolon);
            name_at(s, f, 2, Wanted::DatabaseName);
        },
        StatementView::ShowTables => {
            assert(w.len() == 3);
            assert(m[0] == w[0] && m[1] == w[1] && m[2] == w[2]);
            is_word(s, f, 0, Token::Show);
            is_word(s, f, 1, Token::Tables);
            is_word(s, f, 2, Token::Semicolon);
        },
        StatementView::ShowDatabases => {
            assert(w.len() == 3);
            assert(m[0] == w[0] && m[1] == w[1] && m[2] == w[2]);
            is_word(s, f, 0, Token::Show);
            is_word(s, f, 1, Token::Databases);
            is_word(s, f, 2, Token::Semicolon);
        },
        StatementView::UseDatabase { name } => {
            assert(w.len() == 3);
            assert(m[0] == w[0] && m[1] == w[1] && m[2] == w[2]);
            is_word(s, f, 0, Token::Use);
            is_word(s, f, 2, Token::Semicolon);
            name_at(s, f, 1, Wanted::DatabaseName);
        },
        _ => {},
    }
}

#[verifier::spinoff_prover]
#[verifier::rlimit(40)]
proof fn create_table_is_read(s: Seq<TokenView>, f: Floats, j: int, name: Seq<char>, columns: Seq<ColumnView>)
    requires
        0 <= j <= s.len(),
        is_statement(marks(s, f).take(j), StatementView::CreateTable { name, columns }),
    ensures
        statement(s, f, 0) == Ok::<StatementView, Fault>(StatementView::CreateTable { name, columns }),
{
    let m = marks(s, f);
    let w = m.take(j);
    let body = written_columns(columns);
    let k: int = 4 + body.len() as int;
    let full = seq![word(Token::Create), word(Token::Table), named(name), word(Token::LParen)] + body + seq![
        word(Token::RParen),
        word(Token::Semicolon),
    ];
    assert(w == full);
    assert(full.len() == k + 2);
    assert(full[0] == word(Token::Create) && full[1] == word(Token::Table) && full[2] == named(name) && full[3] == word(
        Token::LParen,
    ) && full[k] == word(Token::RParen) && full[k + 1] == word(Token::Semicolon));
    assert(m[0] == w[0] && m[1] == w[1] && m[2] == w[2] && m[3] == w[3] && m[k] == w[k] && m[k + 1] == w[k + 1]);
    is_word(s, f, 0, Token::Create);
    is_word(s, f, 1, Token::Table);
    is_word(s, f, 3, Token::LParen);
    is_word(s, f, k, Token::RParen);
    is_word(s, f, k + 1, Token::Semicolon);
    name_at(s, f, 2, Wanted::TableName);
    assert(m.subrange(4, k) =~= w.subrange(4, k));
    assert(full.subrange(4, k) =~= body);
    columns_are_read(s, f, 4, k, Seq::empty(), columns);
    assert(Seq::<ColumnView>::empty() + columns =~= columns);
}

#[verifier::spinoff_prover]
#[verifier::rlimit(40)]
proof fn insert_is_read(
    s: Seq<TokenView>,
    f: Floats,
    j: int,
    table: Seq<char>,
    columns: Option<Seq<Seq<char>>>,
    values: Seq<ValueView>,
)
    requires
        0 <= j <= s.len(),
        is_statement(marks(s, f).take(j), StatementView::Insert { table, columns, values }),
    ensures
        statement(s, f, 0) == Ok::<StatementView, Fault>(StatementView::Insert { table, columns, values }),
{
    let m = marks(s, f);
    let w = m.take(j);
    let list = match columns {
        None => Seq::empty(),
        Some(names) => seq![word(Token::LParen)] + written_names(names) + seq![word(Token::RParen)],
    };
    let body = written_values(values);
    let a: int = 3 + list.len() as int;
    let b: int = a + 2 + body.len() as int;
    let full = seq![word(Token::Insert), word(Token::Into), named(table)] + list + seq![
        word(Token::Values),
        word(Token::LParen),
    ] + body + seq![word(Token::RParen), word(Token::Semicolon)];
    assert(w == full);
    assert(full.len() == b + 2);
    assert(full[0] == word(Token::Insert) && full[1] == word(Token::Into) && full[2] == named(table));
    assert(full[a] == word(Token::Values) && full[a + 1] == word(Token::LParen));
    assert(full[b] == word(Token::RParen) && full[b + 1] == word(Token::Semicolon));
    assert(m[0] == w[0] && m[1] == w[1] && m[2] == w[2]);
    assert(m[a] == w[a] && m[a + 1] == w[a + 1] && m[b] == w[b] && m[b + 1] == w[b + 1]);
    is_word(s, f, 0, Token::Insert);
    is_word(s, f, 1, Token::Into);
    is_word(s, f, a, Token::Values);
    is_word(s, f, a + 1, Token::LParen);
    is_word(s, f, b, Token::RParen);
    is_word(s, f, b + 1, Token::Semicolon);
    name_at(s, f, 2, Wanted::TableName);
    assert(m.subrange(a + 2, b) =~= w.subrange(a + 2, b));
    assert(full.subrange(a + 2, b) =~= body);
    values_are_read(s, f, a + 2, b, Seq::empty(), values);
    assert(Seq::<ValueView>::empty() + values =~= values);
    match columns {
        None => {
            is_not_word(s, f, 3, Token::LParen);
        },
        Some(names) => {
            let n = written_names(names);
            assert(m[3] == w[3] && m[a - 1] == w[a - 1]);
            assert(w[3] == list[0] && w[a - 1] == list[list.len() - 1]);
            is_word(s, f, 3, Token::LParen);
            is_word(s, f, a - 1, Token::RParen);
            assert(m.subrange(4, a - 1) =~= w.subrange(4, a - 1));
            assert(w.subrange(4, a - 1) =~= list.subrange(1, list.len() - 1));
            assert(list.subrange(1, list.len() - 1) =~= n);
            names_are_read(s, f, 4, a - 1, Wanted::ColumnName, Seq::empty(), names);
            assert(Seq::<Seq<char>>::empty() + names =~= names);
        },
    }
}

/// Names that are written are not empty, and start with a name.
proof fn names_start(names: Seq<Seq<char>>)
    requires
        names.len() > 0,
    ensures
        written_names(names).len() > 0,
        written_names(names)[0] == named(names[0]),
{
    let parts = names.map_values(|n: Seq<char>| seq![named(n)]);
    assert(parts[0] == seq![named(names[0])]);
    if names.len() > 1 {
        assert(listed(parts) == parts[0] + seq![word(Token::Comma)] + listed(parts.drop_first()));
    }
}

#[verifier::spinoff_prover]
#[verifier::rlimit(40)]
proof fn select_is_read(
    s: Seq<TokenView>,
    f: Floats,
    j: int,
    columns: ColumnsView,
    tables: Seq<Seq<char>>,
    condition: Option<ExprView>,
)
    requires
        0 <= j <= s.len(),
        is_statement(marks(s, f).take(j), StatementView::Select { columns, tables, condition }),
    ensures
        statement(s, f, 0) == Ok::<StatementView, Fault>(StatementView::Select { columns, tables, condition }),
{
    let m = marks(s, f);
    let w = m.take(j);
    let list = match columns {
        ColumnsView::Star => seq![word(Token::Star)],
        ColumnsView::List(names) => written_names(names),
    };
    let body = written_names(tables);
    let a: int = 1 + list.len() as int;
    let b: int = a + 1 + body.len() as int;
    let head = written_select(columns, tables);
    match condition {
        None => {
            assert(w == head + seq![word(Token::Semicolon)]);
            assert(head.len() == b);
            assert(w[b] == word(Token::Semicolon));
            assert(m[b] == w[b]);
            is_word(s, f, b, Token::Semicolon);
            assert forall|i: int| 0 <= i < head.len() implies #[trigger] m[i] == head[i] by {
                assert(w[i] == head[i]);
            }
        },
        Some(e) => {
            let full = head + seq![word(Token::Where)];
            restriction_is_read(s, f, j, full, e);
            assert(m[b] == full[b]);
            is_word(s, f, b, Token::Where);
            assert forall|i: int| 0 <= i < head.len() implies #[trigger] m[i] == head[i] by {
                assert(m[i] == full[i]);
            }
        },
    }
    assert(m[0] == head[0] && m[a] == head[a]);
    is_word(s, f, 0, Token::Select);
    is_word(s, f, a, Token::From);
    assert(m.subrange(1, a) =~= list);
    assert(m.subrange(a + 1, b) =~= body);
    names_are_read(s, f, a + 1, b, Wanted::TableName, Seq::empty(), tables);
    assert(Seq::<Seq<char>>::empty() + tables =~= tables);
    match columns {
        ColumnsView::Star => {
            assert(m[1] == m.subrange(1, a)[0]);
            is_word(s, f, 1, Token::Star);
        },
        ColumnsView::List(names) => {
            names_start(names);
            assert(m[1] == m.subrange(1, a)[0]);
            is_not_word(s, f, 1, Token::Star);
            names_are_read(s, f, 1, a, Wanted::ColumnName, Seq::empty(), names);
            assert(Seq::<Seq<char>>::empty() + names =~= names);
        },
    }
}

#[verifier::spinoff_prover]
#[verifier::rlimit(40)]
proof fn update_is_read(
    s: Seq<TokenView>,
    f: Floats,
    j: int,
    table: Seq<char>,
    assignments: Seq<AssignmentView>,
    condition: ExprView,
)
    requires
        0 <= j <= s.len(),
        is_statement(marks(s, f).take(j), StatementView::Update { table, assignments, condition }),
    ensures
        statement(s, f, 0) == Ok::<StatementView, Fault>(StatementView::Update { table, assignments, condition }),
{
    let m = marks(s, f);
    let body = written_assignments(assignments);
    let head = seq![word(Token::Update), named(table), word(Token::SetKeyword)] + body + seq![word(Token::Where)];
    let k: int = 3 + body.len() as int;
    restriction_is_read(s, f, j, head, condition);
    assert(m[0] == head[0] && m[1] == head[1] && m[2] == head[2] && m[k] == head[k]);
    is_word(s, f, 0, Token::Update);
    is_word(s, f, 2, Token::SetKeyword);
    is_word(s, f, k, Token::Where);
    name_at(s, f, 1, Wanted::TableName);
    assert(m.subrange(3, k) =~= head.subrange(3, k));
    assert(head.subrange(3, k) =~= body);
    assignments_are_read(s, f, 3, k, Seq::empty(), assignments);
    assert(Seq::<AssignmentView>::empty() + assignments =~= assignments);
}

/// A statement that is read is written where the tokens begin, and ends with a semicolon.
proof fn read_statement(s: Seq<TokenView>, f: Floats) -> (j: int)
    ensures
        statement(s, f, 0) matches Ok(stmt) ==> 0 < j <= s.len() && is_statement(marks(s, f).take(j), stmt),
{
    if statement(s, f, 0) is Ok {
        match statement(s, f, 0)->Ok_0 {
            StatementView::CreateTable { .. } => read_create_table(s, f),
            StatementView::Insert { .. } => read_insert(s, f),
            StatementView::Select { .. } => read_select(s, f),
            StatementView::Update { .. } => read_update(s, f),
            StatementView::Delete { .. } => read_delete(s, f),
            _ => read_short(s, f),
        }
    } else {
        0
    }
}

proof fn was_word(s: Seq<TokenView>, f: Floats, i: int, t: Token)
    requires
        is_at(s, i, t),
        !(t is True || t is False || t is Null),
    ensures
        0 <= i < s.len(),
        marks(s, f)[i] == word(t),
{
}

#[verifier::spinoff_prover]
#[verifier::rlimit(40)]
proof fn read_create_table(s: Seq<TokenView>, f: Floats) -> (j: int)
    requires
        statement(s, f, 0) matches Ok(stmt) && stmt is CreateTable,
    ensures
        0 < j <= s.len(),
        is_statement(marks(s, f).take(j), statement(s, f, 0)->Ok_0),
{
    let m = marks(s, f);
    was_word(s, f, 0, Token::Create);
    was_word(s, f, 1, Token::Table);
    name_at(s, f, 2, Wanted::TableName);
    let n = name(s, 2, Wanted::TableName)->Ok_0.0;
    was_word(s, f, 3, Token::LParen);
    let cols = read_columns(s, f, 4, Seq::empty());
    let k = columns(s, 4, Seq::empty())->Ok_0.1;
    assert(Seq::<ColumnView>::empty() + cols =~= cols);
    was_word(s, f, k, Token::RParen);
    was_word(s, f, k + 1, Token::Semicolon);
    assert(m.take(k + 2) =~= seq![word(Token::Create), word(Token::Table), named(n), word(Token::LParen)] + m.subrange(
        4,
        k,
    ) + seq![word(Token::RParen), word(Token::Semicolon)]);
    k + 2
}

#[verifier::spinoff_prover]
#[verifier::rlimit(40)]
proof fn read_insert(s: Seq<TokenView>, f: Floats) -> (j: int)
    requires
        statement(s, f, 0) matches Ok(stmt) && stmt is Insert,
    ensures
        0 < j <= s.len(),
        is_statement(marks(s, f).take(j), statement(s, f, 0)->Ok_0),
{
    let m = marks(s, f);
    was_word(s, f, 0, Token::Insert);
    was_word(s, f, 1, Token::Into);
    name_at(s, f, 2, Wanted::TableName);
    let n = name(s, 2, Wanted::TableName)->Ok_0.0;
    let (c, a) = insert_columns(s, 3)->Ok_0;
    let list = match c {
        None => Seq::empty(),
        Some(names) => seq![word(Token::LParen)] + written_names(names) + seq![word(Token::RParen)],
    };
    if is_at(s, 3, Token::LParen) {
        was_word(s, f, 3, Token::LParen);
        let ns = read_names(s, f, 4, Wanted::ColumnName, Seq::empty());
        assert(Seq::<Seq<char>>::empty() + ns =~= ns);
        was_word(s, f, a - 1, Token::RParen);
        assert(m.subrange(3, a) =~= seq![word(Token::LParen)] + m.subrange(4, a - 1) + seq![word(Token::RParen)]);
    } else {
        assert(m.subrange(3, a) =~= list);
    }
    assert(m.subrange(3, a) == list);
    was_word(s, f, a, Token::Values);
    was_word(s, f, a + 1, Token::LParen);
    let vs = read_values(s, f, a + 2, Seq::empty());
    let b = values(s, f, a + 2, Seq::empty())->Ok_0.1;
    assert(Seq::<ValueView>::empty() + vs =~= vs);
    was_word(s, f, b, Token::RParen);
    was_word(s, f, b + 1, Token::Semicolon);
    assert(m.take(b + 2) =~= seq![word(Token::Insert), word(Token::Into), named(n)] + m.subrange(3, a) + seq![
        word(Token::Values),
        word(Token::LParen),
    ] + m.subrange(a + 2, b) + seq![word(Token::RParen), word(Token::Semicolon)]);
    b + 2
}

#[verifier::spinoff_prover]
#[verifier::rlimit(40)]
proof fn read_select(s: Seq<TokenView>, f: Floats) -> (j: int)
    requires
        statement(s, f, 0) matches Ok(stmt) && stmt is Select,
    ensures
        0 < j <= s.len(),
        is_statement(marks(s, f).take(j), statement(s, f, 0)->Ok_0),
{
    let m = marks(s, f);
    was_word(s, f, 0, Token::Select);
    let (c, a) = selected(s, 1)->Ok_0;
    let list = match c {
        ColumnsView::Star => seq![word(Token::Star)],
        ColumnsView::List(names) => written_names(names),
    };
    if is_at(s, 1, Token::Star) {
        was_word(s, f, 1, Token::Star);
        assert(m.subrange(1, a) =~= list);
    } else {
        let ns = read_names(s, f, 1, Wanted::ColumnName, Seq::empty());
        assert(Seq::<Seq<char>>::empty() + ns =~= ns);
    }
    assert(m.subrange(1, a) == list);
    was_word(s, f, a, Token::From);
    let ts = read_names(s, f, a + 1, Wanted::TableName, Seq::empty());
    let b = names(s, a + 1, Wanted::TableName, Seq::empty())->Ok_0.1;
    assert(Seq::<Seq<char>>::empty() + ts =~= ts);
    let head = written_select(c, ts);
    assert(m.take(b) =~= seq![word(Token::Select)] + m.subrange(1, a) + seq![word(Token::From)] + m.subrange(a + 1, b));
    assert(m.take(b) == head);
    if is_at(s, b, Token::Where) {
        was_word(s, f, b, Token::Where);
        let (e, k) = or_expr(s, f, b + 1)->Ok_0;
        assert(m.take(b + 1) =~= m.take(b).push(word(Token::Where)));
        assert(m.take(b).push(word(Token::Where)) =~= head + seq![word(Token::Where)]);
        read_restriction(s, f, b + 1, k, head + seq![word(Token::Where)], e);
        k + 1
    } else {
        was_word(s, f, b, Token::Semicolon);
        assert(m.take(b + 1) =~= m.take(b) + seq![word(Token::Semicolon)]);
        b + 1
    }
}

#[verifier::spinoff_prover]
#[verifier::rlimit(40)]
proof fn read_update(s: Seq<TokenView>, f: Floats) -> (j: int)
    requires
        statement(s, f, 0) matches Ok(stmt) && stmt is Update,
    ensures
        0 < j <= s.len(),
        is_statement(marks(s, f).take(j), statement(s, f, 0)->Ok_0),
{
    let m = marks(s, f);
    was_word(s, f, 0, Token::Update);
    name_at(s, f, 1, Wanted::TableName);
    let n = name(s, 1, Wanted::TableName)->Ok_0.0;
    was_word(s, f, 2, Token::SetKeyword);
    let v = read_assignments(s, f, 3, Seq::empty());
    let k = assignments(s, f, 3, Seq::empty())->Ok_0.1;
    assert(Seq::<AssignmentView>::empty() + v =~= v);
    was_word(s, f, k, Token::Where);
    let head = seq![word(Token::Update), named(n), word(Token::SetKeyword)] + written_assignments(v) + seq![
        word(Token::Where),
    ];
    assert(m.take(k + 1) =~= seq![word(Token::Update), named(n), word(Token::SetKeyword)] + m.subrange(3, k) + seq![
        word(Token::Where),
    ]);
    let (e, l) = or_expr(s, f, k + 1)->Ok_0;
    read_restriction(s, f, k + 1, l, head, e);
    l + 1
}

proof fn read_delete(s: Seq<TokenView>, f: Floats) -> (j: int)
    requires
        statement(s, f, 0) matches Ok(stmt) && stmt is Delete,
    ensures
        0 < j <= s.len(),
        is_statement(marks(s, f).take(j), statement(s, f, 0)->Ok_0),
{
    let m = marks(s, f);
    was_word(s, f, 0, Token::Delete);
    was_word(s, f, 1, Token::From);
    name_at(s, f, 2, Wanted::TableName);
    let n = name(s, 2, Wanted::TableName)->Ok_0.0;
    was_word(s, f, 3, Token::Where);
    let head = seq![word(Token::Delete), word(Token::From), named(n), word(Token::Where)];
    assert(m.take(4) =~= head);
    let (e, k) = or_expr(s, f, 4)->Ok_0;
    read_restriction(s, f, 4, k, head, e);
    k + 1
}

#[verifier::spinoff_prover]
#[verifier::rlimit(40)]
proof fn read_short(s: Seq<TokenView>, f: Floats) -> (j: int)
    requires
        statement(s, f, 0) matches Ok(stmt) && !(stmt is CreateTable || stmt is Insert || stmt is Select || stmt is Update
            || stmt is Delete),
    ensures
        0 < j <= s.len(),
        is_statement(marks(s, f).take(j), statement(s, f, 0)->Ok_0),
{
    let m = marks(s, f);
    match statement(s, f, 0)->Ok_0 {
        StatementView::CreateIndex { name, table, column } => {
            was_word(s, f, 0, Token::Create);
            was_word(s, f, 1, Token::Index);
            name_at(s, f, 2, Wanted::IndexName);
            was_word(s, f, 3, Token::On);
            name_at(s, f, 4, Wanted::TableName);
            was_word(s, f, 5, Token::LParen);
            name_at(s, f, 6, Wanted::ColumnName);
            was_word(s, f, 7, Token::RParen);
            was_word(s, f, 8, Token::Semicolon);
            assert(m.take(9) =~= seq![
                word(Token::Create),
                word(Token::Index),
                named(name),
                word(Token::On),
                named(table),
                word(Token::LParen),
                named(column),
                word(Token::RParen),
                word(Token::Semicolon),
            ]);
            9
        },
        StatementView::CreateDatabase { name } => {
            was_word(s, f, 0, Token::Create);
            was_word(s, f, 1, Token::Database);
            name_at(s, f, 2, Wanted::DatabaseName);
            was_word(s, f, 3, Token::Semicolon);
            assert(m.take(4) =~= seq![word(Token::Create), word(Token::Database), named(name), word(Token::Semicolon)]);
            4
        },
        StatementView::DropTable { name } => {
            was_word(s, f, 0, Token::Drop);
            was_word(s, f, 1, Token::Table);
            name_at(s, f, 2, Wanted::TableName);
            was_word(s, f, 3, Token::Semicolon);
            assert(m.take(4) =~= seq![word(Token::Drop), word(Token::Table), named(name), word(Token::Semicolon)]);
            4
        },
        StatementView::DropIndex { name } => {
            was_word(s, f, 0, Token::Drop);
            was_word(s, f, 1, Token::Index);
            name_at(s, f, 2, Wanted::IndexName);
            was_word(s, f, 3, Token::Semicolon);
            assert(m.take(4) =~= seq![word(Token::Drop), word(Token::Index), named(name), word(Token::Semicolon)]);
            4
        },
        StatementView::DropDatabase { name } => {
            was_word(s, f, 0, Token::Drop);
            was_word(s, f, 1, Token::Database);
            name_at(s, f, 2, Wanted::DatabaseName);
            was_word(s, f, 3, Token::Semicolon);
            assert(m.take(4) =~= seq![word(Token::Drop), word(Token::Database), named(name), word(Token::Semicolon)]);
            4
        },
        StatementView::ShowTables => {
            was_word(s, f, 0, Token::Show);
            was_word(s, f, 1, Token::Tables);
            was_word(s, f, 2, Token::Semicolon);
            assert(m.take(3) =~= seq![word(Token::Show), word(Token::Tables), word(Token::Semicolon)]);
            3
        },
        StatementView::ShowDatabases => {
            was_word(s, f, 0, Token::Show);
            was_word(s, f, 1, Token::Databases);
            was_word(s, f, 2, Token::Semicolon);
            assert(m.take(3) =~= seq![word(Token::Show), word(Token::Databases), word(Token::Semicolon)]);
            3
        },
        StatementView::UseDatabase { name } => {
            was_word(s, f, 0, Token::Use);
            name_at(s, f, 1, Wanted::DatabaseName);
            was_word(s, f, 2, Token::Semicolon);
            assert(m.take(3) =~= seq![word(Token::Use), named(name), word(Token::Semicolon)]);
            3
        },
        _ => 0,
    }
}

/// Statements are read exactly as they are written: tokens are read as a statement if and only if they
/// begin with it, up to its semicolon.
pub proof fn statements_are_read_as_written(s: Seq<TokenView>, f: Floats, stmt: StatementView)
    ensures
        statement(s, f, 0) == Ok::<StatementView, Fault>(stmt) <==> exists|j: int|
            0 < j <= s.len() && is_statement(#[trigger] marks(s, f).take(j), stmt),
{
    if statement(s, f, 0) == Ok::<StatementView, Fault>(stmt) {
        let j = read_statement(s, f);
        assert(is_statement(marks(s, f).take(j), stmt));
    }
    if exists|j: int| 0 < j <= s.len() && is_statement(#[trigger] marks(s, f).take(j), stmt) {
        let j = choose|j: int| 0 < j <= s.len() && is_statement(#[trigger] marks(s, f).take(j), stmt);
        statement_is_read(s, f, j, stmt);
    }
}

} // verus!
