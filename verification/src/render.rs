//! Results as text.
use vstd::prelude::*;
use vstd::string::*;

use crate::engine::executor::QueryResult;
use crate::sql::ast::{row_view, rows_view, Value, ValueView};
use crate::sql::lexer::{decimal, is_digit, is_letter};
use crate::sql::spelling::{digits_are_read_by_place, is_digits, place_value};
use crate::text::push_char;

verus! {

/// How a string is written between quotes, with the characters escaped that need it.
pub uninterp spec fn quoted(s: Seq<char>) -> Seq<char>;

/// A string of letters of the English alphabet, decimal digits and blanks.
pub open spec fn is_plain(s: Seq<char>) -> bool {
    forall|i: int| 0 <= i < s.len() ==> is_letter(#[trigger] s[i]) || is_digit(s[i]) || s[i] == ' '
}

/// The `Debug` form of `str` in std, through `format!`. The result is a function of the characters; of a
/// string of letters of the English alphabet, digits and blanks it is claimed that it stands between
/// double quotes as it is.
#[verifier::external_body]
fn quote(s: &str) -> (r: String)
    ensures
        r@ == quoted(s@),
        is_plain(s@) ==> r@ == seq!['"'] + s@ + seq!['"'],
{
    format!("{:?}", s)
}

/// The decimal digits of a number.
pub open spec fn digits(n: nat) -> Seq<char>
    decreases n,
{
    if n < 10 {
        seq![('0' as u32 + n) as char]
    } else {
        digits(n / 10).push(('0' as u32 + n % 10) as char)
    }
}

/// A number in decimal notation.
pub open spec fn int_text(n: int) -> Seq<char> {
    if n < 0 {
        seq!['-'] + digits((-n) as nat)
    } else {
        digits(n as nat)
    }
}

/// How numbers with a decimal point are written by their bits; the first entry counts.
pub open spec fn float_text(shown: Seq<(u64, Seq<char>)>, bits: u64) -> Option<Seq<char>>
    decreases shown.len(),
{
    if shown.len() == 0 {
        None
    } else if shown[0].0 == bits {
        Some(shown[0].1)
    } else {
        float_text(shown.drop_first(), bits)
    }
}

/// A value as text, if it is known how to write it.
pub open spec fn value_text(v: ValueView, shown: Seq<(u64, Seq<char>)>) -> Option<Seq<char>> {
    match v {
        ValueView::Integer(n) => Some("Integer("@ + int_text(n as int) + ")"@),
        ValueView::Float(b) => match float_text(shown, b) {
            Some(t) => Some("Float("@ + t + ")"@),
            None => None,
        },
        ValueView::Text(s) => Some("Text("@ + quoted(s) + ")"@),
        ValueView::Boolean(b) => Some(
            if b {
                "Boolean(true)"@
            } else {
                "Boolean(false)"@
            },
        ),
        ValueView::Null => Some("Null"@),
        ValueView::Char(s) => Some("Char("@ + quoted(s) + ")"@),
    }
}

/// The values of a row with commas between them.
pub open spec fn row_text(row: Seq<ValueView>, shown: Seq<(u64, Seq<char>)>) -> Option<Seq<char>>
    decreases row.len(),
{
    if row.len() == 0 {
        Some(Seq::empty())
    } else {
        match (row_text(row.drop_last(), shown), value_text(row.last(), shown)) {
            (Some(a), Some(b)) => if row.len() == 1 {
                Some(b)
            } else {
                Some(a + ", "@ + b)
            },
            _ => None,
        }
    }
}

/// Rows, one to a line.
pub open spec fn rows_text(rows: Seq<Seq<ValueView>>, shown: Seq<(u64, Seq<char>)>) -> Option<Seq<char>>
    decreases rows.len(),
{
    if rows.len() == 0 {
        Some(Seq::empty())
    } else {
        match (rows_text(rows.drop_last(), shown), row_text(rows.last(), shown)) {
            (Some(a), Some(b)) => if rows.len() == 1 {
                Some(b)
            } else {
                Some(a + "\n"@ + b)
            },
            _ => None,
        }
    }
}

/// A result as text, if it is known how to write its numbers with a decimal point.
pub open spec fn result_text(q: QueryResult, shown: Seq<(u64, Seq<char>)>) -> Option<Seq<char>> {
    match q {
        QueryResult::Success => Some("Query executed successfully"@),
        QueryResult::Rows(rows) => rows_text(rows_view(rows@), shown),
        QueryResult::RowsAffected(n) => Some(int_text(n as int) + " rows affected"@),
    }
}

/// The notations of numbers by their bits.
pub open spec fn shown_view(v: Seq<(u64, String)>) -> Seq<(u64, Seq<char>)> {
    Seq::new(v.len(), |i: int| (v[i].0, v[i].1@))
}

/// Reading the digits of a number gives back the number.
pub proof fn digits_are_read_back(n: nat)
    ensures
        decimal(digits(n)) == n,
        digits(n).len() > 0,
        forall|i: int| 0 <= i < digits(n).len() ==> is_digit(#[trigger] digits(n)[i]),
    decreases n,
{
    let d = digits(n);
    if n < 10 {
        assert(d.drop_last() =~= Seq::empty());
        assert(decimal(d.drop_last()) == 0);
        assert(d.last() as u32 - '0' as u32 == n);
    } else {
        digits_are_read_back(n / 10);
        assert(d.drop_last() =~= digits(n / 10));
        assert(d.last() as u32 - '0' as u32 == n % 10);
    }
}

/// Where the notation of every number with a decimal point in it is known, a result has a text.
pub proof fn known_floats_give_text(q: QueryResult, shown: Seq<(u64, Seq<char>)>)
    requires
        forall|b: u64| #[trigger] has_float(q, b) ==> float_text(shown, b) is Some,
    ensures
        result_text(q, shown) is Some,
{
    if q is Rows {
        let rows = q->Rows_0@;
        assert forall|p: int, i: int| 0 <= p < rows.len() && 0 <= i < rows[p]@.len() implies value_text(
            #[trigger] rows[p]@[i]@,
            shown,
        ) is Some by {
            if rows[p]@[i] is Float {
                assert(is_float(rows, p, i, rows[p]@[i]->Float_0));
                assert(has_float(q, rows[p]@[i]->Float_0));
            }
        }
        assert forall|p: int| 0 <= p < rows.len() implies row_text(#[trigger] rows_view(rows)[p], shown) is Some by {
            known_row(row_view(rows[p]@), shown);
        }
        known_rows(rows_view(rows), shown);
    }
}

proof fn known_row(row: Seq<ValueView>, shown: Seq<(u64, Seq<char>)>)
    requires
        forall|i: int| 0 <= i < row.len() ==> value_text(#[trigger] row[i], shown) is Some,
    ensures
        row_text(row, shown) is Some,
    decreases row.len(),
{
    if row.len() > 0 {
        known_row(row.drop_last(), shown);
        assert(value_text(row[row.len() - 1], shown) is Some);
    }
}

proof fn known_rows(rows: Seq<Seq<ValueView>>, shown: Seq<(u64, Seq<char>)>)
    requires
        forall|p: int| 0 <= p < rows.len() ==> row_text(#[trigger] rows[p], shown) is Some,
    ensures
        rows_text(rows, shown) is Some,
    decreases rows.len(),
{
    if rows.len() > 0 {
        known_rows(rows.drop_last(), shown);
        assert(row_text(rows[rows.len() - 1], shown) is Some);
    }
}

/// Append the decimal digits of a number.
fn push_digits(s: &mut String, n: u64)
    ensures
        final(s)@ == old(s)@ + digits(n as nat),
    decreases n,
{
    let ghost before = s@;
    if n >= 10 {
        push_digits(s, n / 10);
    }
    let d: u32 = (n % 10) as u32;
    push_char(s, digit(d));
    assert(s@ =~= before + digits(n as nat));
}

/// The character of a digit.
fn digit(d: u32) -> (r: char)
    requires
        d < 10,
    ensures
        r == ('0' as u32 + d) as char,
{
    if d == 0 {
        '0'
    } else if d == 1 {
        '1'
    } else if d == 2 {
        '2'
    } else if d == 3 {
        '3'
    } else if d == 4 {
        '4'
    } else if d == 5 {
        '5'
    } else if d == 6 {
        '6'
    } else if d == 7 {
        '7'
    } else if d == 8 {
        '8'
    } else {
        '9'
    }
}

/// Append a number in decimal notation.
fn push_int(s: &mut String, n: i64)
    ensures
        final(s)@ == old(s)@ + int_text(n as int),
{
    let ghost before = s@;
    if n < 0 {
        push_char(s, '-');
        let m: u64 = (-(n + 1)) as u64 + 1;
        push_digits(s, m);
        assert(s@ =~= before + int_text(n as int));
    } else {
        push_digits(s, n as u64);
    }
}

/// How a number with a decimal point is written.
fn find_shown(shown: &Vec<(u64, String)>, bits: u64) -> (r: Option<&String>)
    ensures
        match r {
            Some(t) => float_text(shown_view(shown@), bits) == Some(t@),
            None => float_text(shown_view(shown@), bits) is None,
        },
{
    let ghost f = shown_view(shown@);
    let mut i: usize = 0;
    assert(f.skip(0) =~= f);
    while i < shown.len()
        invariant
            f == shown_view(shown@),
            i <= shown@.len(),
            float_text(f.skip(i as int), bits) == float_text(f, bits),
        decreases shown@.len() - i,
    {
        assert(f.skip(i as int).drop_first() =~= f.skip(i + 1));
        assert(f.skip(i as int)[0] == f[i as int]);
        if shown[i].0 == bits {
            return Some(&shown[i].1);
        }
        i += 1;
    }
    None
}

/// Append a value, unless it is not known how to write it.
fn push_value(s: &mut String, v: &Value, shown: &Vec<(u64, String)>) -> (r: bool)
    ensures
        match value_text(v@, shown_view(shown@)) {
            Some(t) => r && final(s)@ == old(s)@ + t,
            None => !r,
        },
{
    let ghost before = s@;
    match v {
        Value::Integer(n) => {
            s.append("Integer(");
            push_int(s, *n);
            s.append(")");
        },
        Value::Float(b) => match find_shown(shown, *b) {
            None => {
                return false;
            },
            Some(t) => {
                s.append("Float(");
                s.append(t.as_str());
                s.append(")");
            },
        },
        Value::Text(t) => {
            s.append("Text(");
            let q = quote(t.as_str());
            s.append(q.as_str());
            s.append(")");
        },
        Value::Boolean(b) => {
            if *b {
                s.append("Boolean(true)");
            } else {
                s.append("Boolean(false)");
            }
        },
        Value::Null => {
            s.append("Null");
        },
        Value::Char(t) => {
            s.append("Char(");
            let q = quote(t.as_str());
            s.append(q.as_str());
            s.append(")");
        },
    }
    assert(s@ =~= before + value_text(v@, shown_view(shown@))->Some_0);
    true
}

/// Append a row, unless it is not known how to write one of its values.
fn push_row(s: &mut String, row: &Vec<Value>, shown: &Vec<(u64, String)>) -> (r: bool)
    ensures
        match row_text(row_view(row@), shown_view(shown@)) {
            Some(t) => r && final(s)@ == old(s)@ + t,
            None => !r,
        },
{
    let ghost before = s@;
    let ghost f = shown_view(shown@);
    let ghost views = row_view(row@);
    let mut i: usize = 0;
    assert(views.take(0) =~= Seq::empty());
    assert(s@ =~= before + Seq::<char>::empty());
    while i < row.len()
        invariant
            i <= row@.len(),
            f == shown_view(shown@),
            views == row_view(row@),
            row_text(views.take(i as int), f) matches Some(t) && s@ == before + t,
        decreases row@.len() - i,
    {
        let ghost t = row_text(views.take(i as int), f)->Some_0;
        proof {
            assert(views.take(i + 1).drop_last() =~= views.take(i as int));
            assert(views.take(i + 1).last() == row@[i as int]@);
        }
        if i > 0 {
            s.append(", ");
        }
        if !push_value(s, &row[i], shown) {
            proof {
                row_text_fails(views, f, i + 1);
            }
            return false;
        }
        proof {
            let u = value_text(row@[i as int]@, f)->Some_0;
            if i > 0 {
                assert(s@ =~= before + (t + ", "@ + u));
            } else {
                assert(s@ =~= before + u);
            }
        }
        i += 1;
    }
    assert(views.take(views.len() as int) =~= views);
    true
}

proof fn row_text_fails(row: Seq<ValueView>, f: Seq<(u64, Seq<char>)>, i: int)
    requires
        0 <= i <= row.len(),
        row_text(row.take(i), f) is None,
    ensures
        row_text(row, f) is None,
    decreases row.len() - i,
{
    if i < row.len() {
        assert(row.take(i + 1).drop_last() =~= row.take(i));
        row_text_fails(row, f, i + 1);
    } else {
        assert(row.take(i) =~= row);
    }
}

proof fn rows_text_fails(rows: Seq<Seq<ValueView>>, f: Seq<(u64, Seq<char>)>, i: int)
    requires
        0 <= i <= rows.len(),
        rows_text(rows.take(i), f) is None,
    ensures
        rows_text(rows, f) is None,
    decreases rows.len() - i,
{
    if i < rows.len() {
        assert(rows.take(i + 1).drop_last() =~= rows.take(i));
        rows_text_fails(rows, f, i + 1);
    } else {
        assert(rows.take(i) =~= rows);
    }
}

/// Rows as text, unless it is not known how to write one of their values.
fn show_rows(rows: &Vec<Vec<Value>>, shown: &Vec<(u64, String)>) -> (r: Option<String>)
    ensures
        match rows_text(rows_view(rows@), shown_view(shown@)) {
            Some(t) => r matches Some(s) && s@ == t,
            None => r is None,
        },
{
    let ghost f = shown_view(shown@);
    let ghost views = rows_view(rows@);
    let mut s = String::new();
    let mut i: usize = 0;
    assert(views.take(0) =~= Seq::empty());
    assert(s@ =~= Seq::<char>::empty());
    while i < rows.len()
        invariant
            i <= rows@.len(),
            f == shown_view(shown@),
            views == rows_view(rows@),
            rows_text(views.take(i as int), f) matches Some(t) && s@ == t,
        decreases rows@.len() - i,
    {
        let ghost t = s@;
        proof {
            assert(views.take(i + 1).drop_last() =~= views.take(i as int));
            assert(views.take(i + 1).last() == row_view(rows@[i as int]@));
        }
        if i > 0 {
            s.append("\n");
        }
        if !push_row(&mut s, &rows[i], shown) {
            proof {
                rows_text_fails(views, f, i + 1);
            }
            return None;
        }
        proof {
            let u = row_text(row_view(rows@[i as int]@), f)->Some_0;
            if i == 0 {
                assert(s@ =~= u);
            }
        }
        i += 1;
    }
    assert(views.take(views.len() as int) =~= views);
    Some(s)
}

impl QueryResult {
    /// The result as text. `shown` has the notations of the numbers with a decimal point by their bits;
    /// where one is missing there is no text.
    pub fn to_text(&self, shown: &Vec<(u64, String)>) -> (r: Option<String>)
        ensures
            match result_text(*self, shown_view(shown@)) {
                Some(t) => r matches Some(s) && s@ == t,
                None => r is None,
            },
    {
        match self {
            QueryResult::Success => Some("Query executed successfully".to_owned()),
            QueryResult::Rows(rows) => show_rows(rows, shown),
            QueryResult::RowsAffected(n) => {
                let mut s = String::new();
                push_digits(&mut s, *n as u64);
                s.append(" rows affected");
                assert(s@ =~= int_text(*n as int) + " rows affected"@);
                Some(s)
            },
        }
    }

    /// The bits of the numbers with a decimal point in the result.
    pub fn floats(&self) -> (r: Vec<u64>)
        ensures
            forall|b: u64| #[trigger] r@.contains(b) <==> has_float(*self, b),
    {
        let mut v: Vec<u64> = Vec::new();
        match self {
            QueryResult::Rows(rows) => {
                let mut i: usize = 0;
                while i < rows.len()
                    invariant
                        i <= rows@.len(),
                        forall|b: u64| #[trigger] v@.contains(b) <==> float_before(rows@, i as int, 0, b),
                    decreases rows@.len() - i,
                {
                    let row = &rows[i];
                    let mut j: usize = 0;
                    while j < row.len()
                        invariant
                            i < rows@.len(),
                            *row == rows@[i as int],
                            j <= row@.len(),
                            forall|b: u64| #[trigger] v@.contains(b) <==> float_before(rows@, i as int, j as int, b),
                        decreases row@.len() - j,
                    {
                        let ghost v0 = v@;
                        match &row[j] {
                            Value::Float(b) => {
                                v.push(*b);
                            },
                            _ => {},
                        }
                        proof {
                            let x = row@[j as int];
                            assert forall|b: u64| #[trigger] v@.contains(b) <==> float_before(
                                rows@,
                                i as int,
                                j + 1,
                                b,
                            ) by {
                                float_next(rows@, i as int, j as int, b);
                                if x is Float {
                                    assert(v@ =~= v0.push(x->Float_0));
                                    assert(v@[v0.len() as int] == x->Float_0);
                                    if v0.contains(b) {
                                        let k = v0.index_of(b);
                                        assert(v@[k] == b);
                                    }
                                }
                            }
                        }
                        j += 1;
                    }
                    proof {
                        assert forall|b: u64| #[trigger] v@.contains(b) <==> float_before(rows@, i + 1, 0, b) by {
                            float_next_row(rows@, i as int, b);
                        }
                    }
                    i += 1;
                }
                proof {
                    assert forall|b: u64| #[trigger] v@.contains(b) <==> has_float(*self, b) by {
                        if float_before(rows@, rows@.len() as int, 0, b) {
                            let (p, q) = choose|p: int, q: int| #[trigger]
                                is_float(rows@, p, q, b) && (p < rows@.len() || (p == rows@.len() && q < 0));
                            assert(is_float(rows@, p, q, b));
                        }
                    }
                }
            },
            _ => {},
        }
        v
    }
}

/// A value in a table of rows is the number with a decimal point of these bits.
pub open spec fn is_float(rows: Seq<Vec<Value>>, p: int, q: int, b: u64) -> bool {
    0 <= p < rows.len() && 0 <= q < rows[p]@.len() && rows[p]@[q] == Value::Float(b)
}

/// The number with a decimal point of these bits occurs in the result.
pub open spec fn has_float(r: QueryResult, b: u64) -> bool {
    r matches QueryResult::Rows(rows) && exists|p: int, q: int| #[trigger] is_float(rows@, p, q, b)
}

spec fn float_before(rows: Seq<Vec<Value>>, i: int, j: int, b: u64) -> bool {
    exists|p: int, q: int| #[trigger] is_float(rows, p, q, b) && (p < i || (p == i && q < j))
}

proof fn float_next(rows: Seq<Vec<Value>>, i: int, j: int, b: u64)
    requires
        0 <= i < rows.len(),
        0 <= j < rows[i]@.len(),
    ensures
        float_before(rows, i, j + 1, b) <==> float_before(rows, i, j, b) || rows[i]@[j] == Value::Float(b),
{
    if rows[i]@[j] == Value::Float(b) {
        assert(is_float(rows, i, j, b));
    }
    if float_before(rows, i, j, b) {
        let (p, q) = choose|p: int, q: int| #[trigger] is_float(rows, p, q, b) && (p < i || (p == i && q < j));
        assert(is_float(rows, p, q, b));
    }
    if float_before(rows, i, j + 1, b) {
        let (p, q) = choose|p: int, q: int| #[trigger] is_float(rows, p, q, b) && (p < i || (p == i && q < j + 1));
        assert(is_float(rows, p, q, b));
    }
}

proof fn float_next_row(rows: Seq<Vec<Value>>, i: int, b: u64)
    requires
        0 <= i < rows.len(),
    ensures
        float_before(rows, i + 1, 0, b) <==> float_before(rows, i, rows[i]@.len() as int, b),
{
    if float_before(rows, i + 1, 0, b) {
        let (p, q) = choose|p: int, q: int| #[trigger] is_float(rows, p, q, b) && (p < i + 1 || (p == i + 1 && q < 0));
        assert(is_float(rows, p, q, b));
    }
    if float_before(rows, i, rows[i]@.len() as int, b) {
        let (p, q) = choose|p: int, q: int| #[trigger]
            is_float(rows, p, q, b) && (p < i || (p == i && q < rows[i]@.len()));
        assert(is_float(rows, p, q, b));
    }
}

/// An integer is shown as its decimal digits, without zeros in front, behind a minus if it is below zero.
pub proof fn integers_are_shown_in_decimal(n: i64, shown: Seq<(u64, Seq<char>)>)
    ensures
        exists|d: Seq<char>| #[trigger]
            is_digits(d) && place_value(d) == (if n < 0 {
                -n
            } else {
                n as int
            }) && (d.len() > 1 ==> d[0] != '0') && value_text(ValueView::Integer(n), shown) == Some(
                if n < 0 {
                    "Integer(-"@ + d + ")"@
                } else {
                    "Integer("@ + d + ")"@
                },
            ),
{
    let size: nat = if n < 0 {
        (-n) as nat
    } else {
        n as nat
    };
    let d = digits(size);
    digits_are_read_back(size);
    digits_are_read_by_place(d);
    no_zero_in_front(size);
    assert(is_digits(d));
    if n < 0 {
        reveal_strlit("Integer(");
        reveal_strlit("Integer(-");
        assert("Integer("@ + (seq!['-'] + d) + ")"@ =~= "Integer(-"@ + d + ")"@);
    }
}

proof fn no_zero_in_front(n: nat)
    ensures
        digits(n).len() > 1 ==> digits(n)[0] != '0',
        digits(n).len() >= 1,
        n > 0 ==> digits(n)[0] != '0',
    decreases n,
{
    if n >= 10 {
        no_zero_in_front(n / 10);
        assert(digits(n)[0] == digits(n / 10)[0]);
    } else if n > 0 {
        assert(('0' as u32 + n) as char as u32 == '0' as u32 + n);
    }
}

/// A number of rows is shown as its decimal digits and what it counts.
pub proof fn counts_are_shown_in_decimal(n: usize, shown: Seq<(u64, Seq<char>)>)
    ensures
        exists|d: Seq<char>| #[trigger]
            is_digits(d) && place_value(d) == n && (d.len() > 1 ==> d[0] != '0') && result_text(
                QueryResult::RowsAffected(n),
                shown,
            ) == Some(d + " rows affected"@),
{
    let d = digits(n as nat);
    digits_are_read_back(n as nat);
    digits_are_read_by_place(d);
    no_zero_in_front(n as nat);
    assert(is_digits(d));
}

/// The other values are shown by the names of their types, with the notation of a number with a decimal
/// point as it is first given, and strings in quotes.
pub proof fn values_are_shown_by_type(v: ValueView, shown: Seq<(u64, Seq<char>)>, k: int)
    ensures
        v is Null ==> value_text(v, shown) == Some("Null"@),
        v == ValueView::Boolean(true) ==> value_text(v, shown) == Some("Boolean(true)"@),
        v == ValueView::Boolean(false) ==> value_text(v, shown) == Some("Boolean(false)"@),
        v matches ValueView::Text(s) ==> value_text(v, shown) == Some("Text("@ + quoted(s) + ")"@),
        v matches ValueView::Char(s) ==> value_text(v, shown) == Some("Char("@ + quoted(s) + ")"@),
        v matches ValueView::Float(b) ==> {
            &&& 0 <= k < shown.len() && shown[k].0 == b && (forall|j: int| 0 <= j < k ==> (#[trigger] shown[j]).0 != b)
                ==> value_text(v, shown) == Some("Float("@ + shown[k].1 + ")"@)
            &&& (forall|j: int| 0 <= j < shown.len() ==> (#[trigger] shown[j]).0 != b) ==> value_text(v, shown) is None
        },
{
    if v is Float {
        let b = v->Float_0;
        if 0 <= k < shown.len() && shown[k].0 == b && (forall|j: int| 0 <= j < k ==> (#[trigger] shown[j]).0 != b) {
            first_shown_counts(shown, b, k);
        }
        if forall|j: int| 0 <= j < shown.len() ==> (#[trigger] shown[j]).0 != b {
            not_shown(shown, b);
        }
    }
}

proof fn first_shown_counts(shown: Seq<(u64, Seq<char>)>, b: u64, k: int)
    requires
        0 <= k < shown.len(),
        shown[k].0 == b,
        forall|j: int| 0 <= j < k ==> (#[trigger] shown[j]).0 != b,
    ensures
        float_text(shown, b) == Some(shown[k].1),
    decreases shown.len(),
{
    if k > 0 {
        let rest = shown.drop_first();
        assert(shown[0].0 != b);
        assert forall|j: int| 0 <= j < k - 1 implies (#[trigger] rest[j]).0 != b by {
            assert(shown[j + 1].0 != b);
        }
        first_shown_counts(rest, b, k - 1);
    }
}

proof fn not_shown(shown: Seq<(u64, Seq<char>)>, b: u64)
    requires
        forall|j: int| 0 <= j < shown.len() ==> (#[trigger] shown[j]).0 != b,
    ensures
        float_text(shown, b) is None,
    decreases shown.len(),
{
    if shown.len() > 0 {
        let rest = shown.drop_first();
        assert(shown[0].0 != b);
        assert forall|j: int| 0 <= j < rest.len() implies (#[trigger] rest[j]).0 != b by {
            assert(shown[j + 1].0 != b);
        }
        not_shown(rest, b);
    }
}

/// A row is shown value by value, with a comma and a blank between any two of them: wherever a row is cut
/// in two, its text is that of the first part, these, and that of the second. A single value is shown as
/// it is, and a row with none as nothing.
pub proof fn rows_are_shown_value_by_value(a: Seq<ValueView>, b: Seq<ValueView>, v: ValueView, shown: Seq<(u64, Seq<char>)>)
    requires
        a.len() > 0,
        b.len() > 0,
    ensures
        row_text(a + b, shown) == match (row_text(a, shown), row_text(b, shown)) {
            (Some(x), Some(y)) => Some(x + ", "@ + y),
            _ => None,
        },
        row_text(seq![v], shown) == value_text(v, shown),
        row_text(Seq::empty(), shown) == Some(Seq::<char>::empty()),
    decreases b.len(),
{
    assert(seq![v].drop_last() =~= Seq::<ValueView>::empty());
    let all = a + b;
    assert(all.drop_last() =~= a + b.drop_last());
    assert(all.last() == b.last());
    if b.len() == 1 {
        assert(b.drop_last() =~= Seq::<ValueView>::empty());
        assert(a + b.drop_last() =~= a);
    } else {
        rows_are_shown_value_by_value(a, b.drop_last(), v, shown);
        if row_text(all, shown) is Some {
            let x = row_text(a, shown)->Some_0;
            let y = row_text(b.drop_last(), shown)->Some_0;
            let z = value_text(b.last(), shown)->Some_0;
            assert((x + ", "@ + y) + ", "@ + z =~= x + ", "@ + (y + ", "@ + z));
        }
    }
}

/// Rows are shown one to a line: wherever they are cut in two, their text is that of the first part, an end
/// of line, and that of the second. A single row is shown as it is, and no row as nothing.
pub proof fn results_are_shown_row_by_row(
    a: Seq<Seq<ValueView>>,
    b: Seq<Seq<ValueView>>,
    row: Seq<ValueView>,
    shown: Seq<(u64, Seq<char>)>,
)
    requires
        a.len() > 0,
        b.len() > 0,
    ensures
        rows_text(a + b, shown) == match (rows_text(a, shown), rows_text(b, shown)) {
            (Some(x), Some(y)) => Some(x + "\n"@ + y),
            _ => None,
        },
        rows_text(seq![row], shown) == row_text(row, shown),
        rows_text(Seq::empty(), shown) == Some(Seq::<char>::empty()),
    decreases b.len(),
{
    assert(seq![row].drop_last() =~= Seq::<Seq<ValueView>>::empty());
    let all = a + b;
    assert(all.drop_last() =~= a + b.drop_last());
    assert(all.last() == b.last());
    if b.len() == 1 {
        assert(b.drop_last() =~= Seq::<Seq<ValueView>>::empty());
        assert(a + b.drop_last() =~= a);
    } else {
        results_are_shown_row_by_row(a, b.drop_last(), row, shown);
        if rows_text(all, shown) is Some {
            let x = rows_text(a, shown)->Some_0;
            let y = rows_text(b.drop_last(), shown)->Some_0;
            let z = row_text(b.last(), shown)->Some_0;
            assert((x + "\n"@ + y) + "\n"@ + z =~= x + "\n"@ + (y + "\n"@ + z));
        }
    }
}

/// What a result is shown as: rows by their values, and a statement that gives none by these words.
pub proof fn results_are_shown_by_kind(q: QueryResult, shown: Seq<(u64, Seq<char>)>)
    ensures
        q is Success ==> result_text(q, shown) == Some("Query executed successfully"@),
        q matches QueryResult::Rows(rows) ==> result_text(q, shown) == rows_text(
            Seq::new(rows@.len(), |i: int| Seq::new(rows@[i]@.len(), |j: int| rows@[i]@[j]@)),
            shown,
        ),
{
    if q is Rows {
        let rows = q->Rows_0;
        assert(rows_view(rows@) =~= Seq::new(
            rows@.len(),
            |i: int| Seq::new(rows@[i]@.len(), |j: int| rows@[i]@[j]@),
        )) by {
            assert forall|i: int| 0 <= i < rows@.len() implies #[trigger] rows_view(rows@)[i] == Seq::new(
                rows@[i]@.len(),
                |j: int| rows@[i]@[j]@,
            ) by {
                assert(rows_view(rows@)[i] =~= Seq::new(rows@[i]@.len(), |j: int| rows@[i]@[j]@));
            }
        }
    }
}

} // verus!
