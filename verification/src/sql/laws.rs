//! What holds of all SQL strings.
use vstd::prelude::*;

use crate::engine::condition::{expr_value, meets};
use crate::sql::{float_texts, parsed};
use crate::sql::ast::{ColumnView, ExprView, StatementView, ValueView};
use crate::sql::grammar::{
    and_expr, and_rest, atom, is_at, or_expr, or_rest, statement, Fault, Floats,
};
use crate::sql::lexer::{
    belongs, capitals, is_digit, is_letter, is_space, keyword, run_end, run_is_whole, token_at,
    token_takes_characters, tokens_from, word_token, Class, LexError, Token, TokenView,
};
use crate::sql::parser::SyntaxView;
use crate::sql::spelling::{cut, texts_are_read_as_spelled};
use crate::sql::writing::{is_statement, marks, statements_are_read_as_written};

verus! {

/// Keywords are read alike in whatever case.
pub proof fn keywords_ignore_case(a: Seq<char>, b: Seq<char>)
    requires
        capitals(a) == capitals(b),
        keyword(capitals(a)) is Some,
    ensures
        word_token(a) == word_token(b),
{
}

/// Names keep their case.
pub proof fn names_keep_case(w: Seq<char>)
    requires
        keyword(capitals(w)) is None,
    ensures
        word_token(w) == TokenView::Identifier(w),
{
}

/// A word starts with a letter or an underscore and goes as far as letters, digits and underscores go;
/// it is a keyword if it is one in capitals, and else a name.
pub proof fn word_is_longest(s: Seq<char>, i: int, j: int)
    requires
        0 <= i < j <= s.len(),
        is_letter(s[i]) || s[i] == '_',
        forall|k: int| i <= k < j ==> is_letter(#[trigger] s[k]) || is_digit(s[k]) || s[k] == '_',
        j < s.len() ==> !is_letter(s[j]) && !is_digit(s[j]) && s[j] != '_',
    ensures
        token_at(s, i) == Ok::<(TokenView, int), LexError>((word_token(s.subrange(i, j)), j)),
{
    run_is(s, i, j, Class::Word);
}

/// A run goes as far as its characters go.
proof fn run_is(s: Seq<char>, i: int, j: int, class: Class)
    requires
        0 <= i <= j <= s.len(),
        forall|k: int| i <= k < j ==> belongs(#[trigger] s[k], class),
        j < s.len() ==> !belongs(s[j], class),
    ensures
        run_end(s, i, class) == j,
    decreases j - i,
{
    if i < j {
        run_is(s, i + 1, j, class);
    }
}

/// Space may stand between any two tokens, and it does not matter how much and of what kind: the tokens
/// are those of the texts in front of it and behind it.
pub proof fn space_separates(a: Seq<char>, u: Seq<char>, b: Seq<char>)
    requires
        u.len() > 0,
        forall|i: int| 0 <= i < u.len() ==> is_space(#[trigger] u[i]),
        tokens_from(a, 0) is Ok,
        tokens_from(b, 0) is Ok,
    ensures
        tokens_from(a + u + b, 0) == Ok::<Seq<TokenView>, LexError>(
            tokens_from(a, 0)->Ok_0 + tokens_from(b, 0)->Ok_0,
        ),
{
    tokens_before_space(a, u, b, 0);
}

/// A run that ends within the text, or that space ends, ends at the same place in a longer text.
proof fn run_stays(a: Seq<char>, s: Seq<char>, i: int, class: Class)
    requires
        0 <= i <= a.len(),
        a.len() < s.len(),
        s.take(a.len() as int) == a,
        is_space(s[a.len() as int]),
        class is Word || class is Digit || run_end(a, i, class) < a.len(),
    ensures
        run_end(s, i, class) == run_end(a, i, class),
    decreases a.len() - i,
{
    if i < a.len() {
        assert(s[i] == s.take(a.len() as int)[i]);
        if belongs(a[i], class) {
            run_stays(a, s, i + 1, class);
        }
    }
}

/// A token of a text is the same token where space follows the text.
proof fn token_stays(a: Seq<char>, s: Seq<char>, i: int)
    requires
        0 <= i < a.len(),
        a.len() < s.len(),
        s.take(a.len() as int) == a,
        is_space(s[a.len() as int]),
        token_at(a, i) is Ok,
    ensures
        token_at(s, i) == token_at(a, i),
{
    let n = a.len() as int;
    assert forall|k: int| 0 <= k < n implies #[trigger] s[k] == a[k] by {
        assert(s[k] == s.take(n)[k]);
    }
    let c = a[i];
    if is_letter(c) || c == '_' {
        run_stays(a, s, i, Class::Word);
        run_is_whole(a, i, Class::Word);
        let j = run_end(a, i, Class::Word);
        assert(s.subrange(i, j) =~= a.subrange(i, j));
    } else if is_digit(c) {
        run_stays(a, s, i, Class::Digit);
        run_is_whole(a, i, Class::Digit);
        let j = run_end(a, i, Class::Digit);
        assert(s.subrange(i, j) =~= a.subrange(i, j));
        if j + 1 < n {
            run_stays(a, s, j + 1, Class::Digit);
            run_is_whole(a, j + 1, Class::Digit);
            let k = run_end(a, j + 1, Class::Digit);
            assert(s.subrange(i, k) =~= a.subrange(i, k));
        }
    } else if c == '\'' {
        run_is_whole(a, i + 1, Class::Quoted);
        run_stays(a, s, i + 1, Class::Quoted);
        let j = run_end(a, i + 1, Class::Quoted);
        assert(s.subrange(i + 1, j) =~= a.subrange(i + 1, j));
    }
}

/// Space up to a place does not matter.
proof fn space_runs_on(s: Seq<char>, i: int, j: int)
    requires
        0 <= i <= j <= s.len(),
        forall|k: int| i <= k < j ==> is_space(#[trigger] s[k]),
    ensures
        run_end(s, i, Class::Space) == run_end(s, j, Class::Space),
    decreases j - i,
{
    if i < j {
        assert(is_space(s[i]));
        space_runs_on(s, i + 1, j);
    }
}

proof fn run_shifts(p: Seq<char>, b: Seq<char>, i: int, class: Class)
    requires
        0 <= i <= b.len(),
    ensures
        run_end(p + b, p.len() + i, class) == p.len() + run_end(b, i, class),
    decreases b.len() - i,
{
    if i < b.len() {
        assert((p + b)[p.len() + i] == b[i]);
        if belongs(b[i], class) {
            run_shifts(p, b, i + 1, class);
        }
    }
}

/// A token is the same wherever it stands.
proof fn token_shifts(p: Seq<char>, b: Seq<char>, i: int)
    requires
        0 <= i < b.len(),
        token_at(b, i) is Ok,
    ensures
        token_at(p + b, p.len() + i) == Ok::<(TokenView, int), LexError>(
            (token_at(b, i)->Ok_0.0, p.len() + token_at(b, i)->Ok_0.1),
        ),
{
    let s = p + b;
    let d = p.len() as int;
    assert forall|k: int| 0 <= k < b.len() implies s[d + k] == #[trigger] b[k] by {}
    let c = b[i];
    assert(s[d + i] == c);
    if is_letter(c) || c == '_' {
        run_shifts(p, b, i, Class::Word);
        run_is_whole(b, i, Class::Word);
        let j = run_end(b, i, Class::Word);
        assert(s.subrange(d + i, d + j) =~= b.subrange(i, j));
    } else if is_digit(c) {
        run_shifts(p, b, i, Class::Digit);
        run_is_whole(b, i, Class::Digit);
        let j = run_end(b, i, Class::Digit);
        assert(s.subrange(d + i, d + j) =~= b.subrange(i, j));
        if j + 1 < b.len() {
            assert(s[d + j] == b[j]);
            assert(s[d + j + 1] == b[j + 1]);
            run_shifts(p, b, j + 1, Class::Digit);
            run_is_whole(b, j + 1, Class::Digit);
            let k = run_end(b, j + 1, Class::Digit);
            assert(s.subrange(d + i, d + k) =~= b.subrange(i, k));
        }
    } else if c == '\'' {
        run_shifts(p, b, i + 1, Class::Quoted);
        run_is_whole(b, i + 1, Class::Quoted);
        let j = run_end(b, i + 1, Class::Quoted);
        assert(s.subrange(d + i + 1, d + j) =~= b.subrange(i + 1, j));
    } else {
        if i + 1 < b.len() {
            assert(s[d + i + 1] == b[i + 1]);
        }
    }
}

/// The tokens of a text are the same wherever it stands at the end of another.
proof fn tokens_shift(p: Seq<char>, b: Seq<char>, i: int)
    requires
        0 <= i <= b.len(),
        tokens_from(b, i) is Ok,
    ensures
        tokens_from(p + b, p.len() + i) == tokens_from(b, i),
    decreases b.len() - i,
{
    run_shifts(p, b, i, Class::Space);
    run_is_whole(b, i, Class::Space);
    let j = run_end(b, i, Class::Space);
    if j < b.len() {
        token_takes_characters(b, j);
        token_shifts(p, b, j);
        let k = token_at(b, j)->Ok_0.1;
        tokens_shift(p, b, k);
    }
}

proof fn tokens_before_space(a: Seq<char>, u: Seq<char>, b: Seq<char>, i: int)
    requires
        0 <= i <= a.len(),
        u.len() > 0,
        forall|k: int| 0 <= k < u.len() ==> is_space(#[trigger] u[k]),
        tokens_from(a, i) is Ok,
        tokens_from(b, 0) is Ok,
    ensures
        tokens_from(a + u + b, i) == Ok::<Seq<TokenView>, LexError>(
            tokens_from(a, i)->Ok_0 + tokens_from(b, 0)->Ok_0,
        ),
    decreases a.len() - i,
{
    let s = a + u + b;
    let n = a.len() as int;
    let m = n + u.len();
    assert(s.take(n) =~= a);
    assert(s[n] == u[0]);
    run_is_whole(a, i, Class::Space);
    let j = run_end(a, i, Class::Space);
    let y = tokens_from(b, 0)->Ok_0;
    if j >= n {
        assert forall|k: int| i <= k < m implies is_space(#[trigger] s[k]) by {
            if k < n {
                assert(s[k] == a[k]);
                assert(belongs(a[k], Class::Space));
            } else {
                assert(s[k] == u[k - n]);
            }
        }
        space_runs_on(s, i, m);
        assert(s =~= (a + u) + b);
        tokens_shift(a + u, b, 0);
        assert(tokens_from(s, m) == tokens_from(b, 0));
        run_is_whole(s, m, Class::Space);
        let q = run_end(s, m, Class::Space);
        if q < s.len() {
            token_takes_characters(s, q);
        }
        assert(tokens_from(s, i) == tokens_from(s, m));
        assert(Seq::<TokenView>::empty() + y =~= y);
    } else {
        run_stays(a, s, i, Class::Space);
        token_stays(a, s, j);
        token_takes_characters(a, j);
        let t = token_at(a, j)->Ok_0.0;
        let k = token_at(a, j)->Ok_0.1;
        tokens_before_space(a, u, b, k);
        let x = tokens_from(a, k)->Ok_0;
        assert(seq![t] + (x + y) =~= (seq![t] + x) + y);
    }
}

/// AND binds tighter than OR on its right.
pub proof fn and_before_or(s: Seq<TokenView>, f: Floats, i: int, j: int, k: int, l: int, a: ExprView, b: ExprView, c: ExprView)
    requires
        i < j < k < l <= s.len(),
        atom(s, f, i) == Ok::<(ExprView, int), Fault>((a, j)),
        is_at(s, j, Token::And),
        atom(s, f, j + 1) == Ok::<(ExprView, int), Fault>((b, k)),
        is_at(s, k, Token::Or),
        atom(s, f, k + 1) == Ok::<(ExprView, int), Fault>((c, l)),
        !is_at(s, l, Token::And),
        !is_at(s, l, Token::Or),
    ensures
        or_expr(s, f, i) == Ok::<(ExprView, int), Fault>(
            (ExprView::Or(Box::new(ExprView::And(Box::new(a), Box::new(b))), Box::new(c)), l),
        ),
{
    let ab = ExprView::And(Box::new(a), Box::new(b));
    assert(and_rest(s, f, k, ab) == Ok::<(ExprView, int), Fault>((ab, k)));
    assert(and_rest(s, f, j, a) == and_rest(s, f, k, ab));
    assert(and_expr(s, f, i) == Ok::<(ExprView, int), Fault>((ab, k)));
    assert(and_rest(s, f, l, c) == Ok::<(ExprView, int), Fault>((c, l)));
    assert(and_expr(s, f, k + 1) == Ok::<(ExprView, int), Fault>((c, l)));
    let abc = ExprView::Or(Box::new(ab), Box::new(c));
    assert(or_rest(s, f, l, abc) == Ok::<(ExprView, int), Fault>((abc, l)));
    assert(or_rest(s, f, k, ab) == or_rest(s, f, l, abc));
}

/// AND binds tighter than OR on its left.
pub proof fn or_after_and(s: Seq<TokenView>, f: Floats, i: int, j: int, k: int, l: int, a: ExprView, b: ExprView, c: ExprView)
    requires
        i < j < k < l <= s.len(),
        atom(s, f, i) == Ok::<(ExprView, int), Fault>((a, j)),
        is_at(s, j, Token::Or),
        atom(s, f, j + 1) == Ok::<(ExprView, int), Fault>((b, k)),
        is_at(s, k, Token::And),
        atom(s, f, k + 1) == Ok::<(ExprView, int), Fault>((c, l)),
        !is_at(s, l, Token::And),
        !is_at(s, l, Token::Or),
    ensures
        or_expr(s, f, i) == Ok::<(ExprView, int), Fault>(
            (ExprView::Or(Box::new(a), Box::new(ExprView::And(Box::new(b), Box::new(c)))), l),
        ),
{
    let bc = ExprView::And(Box::new(b), Box::new(c));
    assert(and_rest(s, f, j, a) == Ok::<(ExprView, int), Fault>((a, j)));
    assert(and_expr(s, f, i) == Ok::<(ExprView, int), Fault>((a, j)));
    assert(and_rest(s, f, l, bc) == Ok::<(ExprView, int), Fault>((bc, l)));
    assert(and_rest(s, f, k, b) == and_rest(s, f, l, bc));
    assert(and_expr(s, f, j + 1) == Ok::<(ExprView, int), Fault>((bc, l)));
    let abc = ExprView::Or(Box::new(a), Box::new(bc));
    assert(or_rest(s, f, l, abc) == Ok::<(ExprView, int), Fault>((abc, l)));
    assert(or_rest(s, f, j, a) == or_rest(s, f, l, abc));
}

/// A condition in parentheses is taken as a whole.
pub proof fn parentheses_group(s: Seq<TokenView>, f: Floats, i: int, j: int, e: ExprView)
    requires
        is_at(s, i, Token::LParen),
        or_expr(s, f, i + 1) == Ok::<(ExprView, int), Fault>((e, j)),
        is_at(s, j, Token::RParen),
    ensures
        atom(s, f, i) == Ok::<(ExprView, int), Fault>((e, j + 1)),
{
}

/// A statement that has no semicolon is refused.
pub proof fn semicolon_is_needed(s: Seq<TokenView>, f: Floats)
    requires
        forall|i: int| 0 <= i < s.len() ==> (#[trigger] s[i]) != TokenView::Plain(Token::Semicolon),
    ensures
        statement(s, f, 0) is Err,
{
    assert forall|i: int| !is_at(s, i, Token::Semicolon) by {
        if is_at(s, i, Token::Semicolon) {
            assert(s[i] == TokenView::Plain(Token::Semicolon));
        }
    }
}

/// Conditions joined by AND, grouped from the left.
pub open spec fn all_of(es: Seq<ExprView>) -> ExprView
    decreases es.len(),
{
    if es.len() <= 1 {
        es[0]
    } else {
        ExprView::And(Box::new(all_of(es.drop_last())), Box::new(es.last()))
    }
}

/// Conditions joined by OR, grouped from the left.
pub open spec fn any_of(es: Seq<ExprView>) -> ExprView
    decreases es.len(),
{
    if es.len() <= 1 {
        es[0]
    } else {
        ExprView::Or(Box::new(any_of(es.drop_last())), Box::new(es.last()))
    }
}

/// Every part of a chain joined by AND counts: comparisons and conditions in parentheses that stand one
/// after the other with AND between them are all joined, however many they are.
pub proof fn and_joins_every_part(s: Seq<TokenView>, f: Floats, starts: Seq<int>, es: Seq<ExprView>)
    requires
        es.len() > 0,
        starts.len() == es.len() + 1,
        forall|k: int|
            0 <= k < es.len() ==> 0 <= #[trigger] starts[k] < starts[k + 1] - 1 <= s.len() && atom(s, f, starts[k])
                == Ok::<(ExprView, int), Fault>((es[k], starts[k + 1] - 1)),
        forall|k: int| 0 < k < es.len() ==> is_at(s, #[trigger] starts[k] - 1, Token::And),
        !is_at(s, starts[es.len() as int] - 1, Token::And),
    ensures
        and_expr(s, f, starts[0]) == Ok::<(ExprView, int), Fault>((all_of(es), starts[es.len() as int] - 1)),
{
    and_joined_so_far(s, f, starts, es, es.len() as int);
    assert(es.take(es.len() as int) =~= es);
}

proof fn and_joined_so_far(s: Seq<TokenView>, f: Floats, starts: Seq<int>, es: Seq<ExprView>, n: int)
    requires
        0 < n <= es.len(),
        starts.len() == es.len() + 1,
        forall|k: int|
            0 <= k < es.len() ==> 0 <= #[trigger] starts[k] < starts[k + 1] - 1 <= s.len() && atom(s, f, starts[k])
                == Ok::<(ExprView, int), Fault>((es[k], starts[k + 1] - 1)),
        forall|k: int| 0 < k < es.len() ==> is_at(s, #[trigger] starts[k] - 1, Token::And),
    ensures
        and_expr(s, f, starts[0]) == and_rest(s, f, starts[n] - 1, all_of(es.take(n))),
    decreases n,
{
    let left = es.take(n);
    if n == 1 {
        assert(left[0] == es[0]);
        assert(starts[0] < starts[1] - 1);
    } else {
        and_joined_so_far(s, f, starts, es, n - 1);
        assert(left.drop_last() =~= es.take(n - 1));
        assert(left.last() == es[n - 1]);
        assert(starts[n - 1] < starts[n] - 1);
        assert(is_at(s, starts[n - 1] - 1, Token::And));
    }
}

/// Every part of a chain joined by OR counts.
pub proof fn or_joins_every_part(s: Seq<TokenView>, f: Floats, starts: Seq<int>, es: Seq<ExprView>)
    requires
        es.len() > 0,
        starts.len() == es.len() + 1,
        forall|k: int|
            0 <= k < es.len() ==> 0 <= #[trigger] starts[k] < starts[k + 1] - 1 <= s.len() && and_expr(s, f, starts[k])
                == Ok::<(ExprView, int), Fault>((es[k], starts[k + 1] - 1)),
        forall|k: int| 0 < k < es.len() ==> is_at(s, #[trigger] starts[k] - 1, Token::Or),
        !is_at(s, starts[es.len() as int] - 1, Token::Or),
    ensures
        or_expr(s, f, starts[0]) == Ok::<(ExprView, int), Fault>((any_of(es), starts[es.len() as int] - 1)),
{
    or_joined_so_far(s, f, starts, es, es.len() as int);
    assert(es.take(es.len() as int) =~= es);
}

proof fn or_joined_so_far(s: Seq<TokenView>, f: Floats, starts: Seq<int>, es: Seq<ExprView>, n: int)
    requires
        0 < n <= es.len(),
        starts.len() == es.len() + 1,
        forall|k: int|
            0 <= k < es.len() ==> 0 <= #[trigger] starts[k] < starts[k + 1] - 1 <= s.len() && and_expr(s, f, starts[k])
                == Ok::<(ExprView, int), Fault>((es[k], starts[k + 1] - 1)),
        forall|k: int| 0 < k < es.len() ==> is_at(s, #[trigger] starts[k] - 1, Token::Or),
    ensures
        or_expr(s, f, starts[0]) == or_rest(s, f, starts[n] - 1, any_of(es.take(n))),
    decreases n,
{
    let left = es.take(n);
    if n == 1 {
        assert(left[0] == es[0]);
        assert(starts[0] < starts[1] - 1);
    } else {
        or_joined_so_far(s, f, starts, es, n - 1);
        assert(left.drop_last() =~= es.take(n - 1));
        assert(left.last() == es[n - 1]);
        assert(starts[n - 1] < starts[n] - 1);
        assert(is_at(s, starts[n - 1] - 1, Token::Or));
    }
}

/// A row meets conditions joined by AND exactly if it meets each of them.
pub proof fn all_of_is_met_if_each_is(es: Seq<ExprView>, row: Seq<ValueView>, cols: Seq<ColumnView>)
    requires
        es.len() > 0,
    ensures
        meets(all_of(es), row, cols) <==> forall|k: int| 0 <= k < es.len() ==> meets(#[trigger] es[k], row, cols),
    decreases es.len(),
{
    if es.len() > 1 {
        let front = es.drop_last();
        let n = es.len() - 1;
        all_of_is_met_if_each_is(front, row, cols);
        if meets(all_of(es), row, cols) {
            assert forall|k: int| 0 <= k < es.len() implies meets(#[trigger] es[k], row, cols) by {
                if k < n {
                    assert(front[k] == es[k]);
                }
            }
        }
        if forall|k: int| 0 <= k < es.len() ==> meets(#[trigger] es[k], row, cols) {
            assert forall|k: int| 0 <= k < front.len() implies meets(#[trigger] front[k], row, cols) by {
                assert(front[k] == es[k]);
            }
            assert(meets(es[n], row, cols));
        }
    }
}

/// A row meets conditions joined by OR exactly if it meets one of them, and those in front of it are
/// denied.
pub proof fn any_of_is_met_if_one_is(es: Seq<ExprView>, row: Seq<ValueView>, cols: Seq<ColumnView>)
    requires
        es.len() > 0,
    ensures
        meets(any_of(es), row, cols) <==> exists|k: int|
            0 <= k < es.len() && meets(#[trigger] es[k], row, cols) && forall|j: int|
                0 <= j < k ==> expr_value(#[trigger] es[j], row, cols) == Some(false),
        expr_value(any_of(es), row, cols) == Some(false) <==> forall|j: int|
            0 <= j < es.len() ==> expr_value(#[trigger] es[j], row, cols) == Some(false),
    decreases es.len(),
{
    if es.len() > 1 {
        let front = es.drop_last();
        let n = es.len() - 1;
        any_of_is_met_if_one_is(front, row, cols);
        assert forall|j: int| 0 <= j < n implies #[trigger] es[j] == front[j] by {}
        assert(es[n] == es.last());
        if meets(any_of(front), row, cols) {
            let k = choose|k: int|
                0 <= k < front.len() && meets(#[trigger] front[k], row, cols) && forall|j: int|
                    0 <= j < k ==> expr_value(#[trigger] front[j], row, cols) == Some(false);
            assert(meets(es[k], row, cols));
            assert forall|j: int| 0 <= j < k implies expr_value(#[trigger] es[j], row, cols) == Some(false) by {
                assert(front[j] == es[j]);
            }
            assert(expr_value(es[k], row, cols) != Some(false));
        } else if expr_value(any_of(front), row, cols) == Some(false) {
            assert forall|j: int| 0 <= j < n implies expr_value(#[trigger] es[j], row, cols) == Some(false) by {
                assert(front[j] == es[j]);
            }
        } else {
            let j0 = choose|j: int| 0 <= j < front.len() && expr_value(#[trigger] front[j], row, cols) != Some(false);
            assert(expr_value(es[j0], row, cols) != Some(false));
            if exists|k: int|
                0 <= k < es.len() && meets(#[trigger] es[k], row, cols) && forall|j: int|
                    0 <= j < k ==> expr_value(#[trigger] es[j], row, cols) == Some(false) {
                let k = choose|k: int|
                    0 <= k < es.len() && meets(#[trigger] es[k], row, cols) && forall|j: int|
                        0 <= j < k ==> expr_value(#[trigger] es[j], row, cols) == Some(false);
                assert(k <= j0);
                assert(meets(front[k], row, cols));
                assert forall|j: int| 0 <= j < k implies expr_value(#[trigger] front[j], row, cols) == Some(false) by {
                    assert(front[j] == es[j]);
                }
            }
        }
    } else {
        assert(any_of(es) == es[0]);
    }
}

/// A SQL string is the statement that is written in it: it is read as a statement exactly if it can be cut
/// into tokens that begin with it.
pub proof fn sql_is_read_as_written(text: Seq<char>, f: Floats, stmt: StatementView)
    ensures
        parsed(text, f) == Ok::<StatementView, SyntaxView>(stmt) <==> exists|
            spans: Seq<(int, int)>,
            ts: Seq<TokenView>,
            j: int,
        | #![trigger cut(text, 0, spans, ts), marks(ts, f).take(j)]
            cut(text, 0, spans, ts) && 0 < j <= ts.len() && is_statement(marks(ts, f).take(j), stmt),
{
    if parsed(text, f) == Ok::<StatementView, SyntaxView>(stmt) {
        let ts = tokens_from(text, 0)->Ok_0;
        texts_are_read_as_spelled(text, ts);
        statements_are_read_as_written(ts, f, stmt);
        let spans = choose|spans: Seq<(int, int)>| #[trigger] cut(text, 0, spans, ts);
        let j = choose|j: int| 0 < j <= ts.len() && is_statement(#[trigger] marks(ts, f).take(j), stmt);
        assert(cut(text, 0, spans, ts) && is_statement(marks(ts, f).take(j), stmt));
    }
    if exists|spans: Seq<(int, int)>, ts: Seq<TokenView>, j: int| #![trigger cut(text, 0, spans, ts), marks(ts, f).take(j)]
        cut(text, 0, spans, ts) && 0 < j <= ts.len() && is_statement(marks(ts, f).take(j), stmt) {
        let (spans, ts, j) = choose|spans: Seq<(int, int)>, ts: Seq<TokenView>, j: int|
            #![trigger cut(text, 0, spans, ts), marks(ts, f).take(j)]
            cut(text, 0, spans, ts) && 0 < j <= ts.len() && is_statement(marks(ts, f).take(j), stmt);
        texts_are_read_as_spelled(text, ts);
        statements_are_read_as_written(ts, f, stmt);
    }
}

/// Space in the ASCII range is a blank, a tabulator, or what ends a line or a page; beyond it, these
/// characters.
pub proof fn space_characters(c: char)
    ensures
        c as u32 <= 127 ==> (is_space(c) <==> c == ' ' || c == '\t' || c == '\n' || c == '\r' || c as u32 == 11 || c as u32
            == 12),
        c as u32 > 127 ==> (is_space(c) <==> set![
            0x85u32,
            0xA0u32,
            0x1680u32,
            0x2000u32,
            0x2001u32,
            0x2002u32,
            0x2003u32,
            0x2004u32,
            0x2005u32,
            0x2006u32,
            0x2007u32,
            0x2008u32,
            0x2009u32,
            0x200Au32,
            0x2028u32,
            0x2029u32,
            0x202Fu32,
            0x205Fu32,
            0x3000u32,
        ].contains(c as u32)),
{
}

/// The numbers with a decimal point among tokens are those of the first ones and then those of the others;
/// a token alone is one or none.
pub proof fn float_texts_are_in_order(a: Seq<TokenView>, b: Seq<TokenView>, t: TokenView)
    ensures
        float_texts(a + b) == float_texts(a) + float_texts(b),
        float_texts(Seq::<TokenView>::empty()) == Seq::<Seq<char>>::empty(),
        float_texts(seq![t]) == match t {
            TokenView::FloatLiteral(x) => seq![x],
            _ => Seq::empty(),
        },
    decreases b.len(),
{
    assert(seq![t].drop_last() =~= Seq::<TokenView>::empty());
    assert(float_texts(Seq::<TokenView>::empty()) =~= Seq::<Seq<char>>::empty());
    assert(float_texts(seq![t]) =~= match t {
        TokenView::FloatLiteral(x) => seq![x],
        _ => Seq::empty(),
    });
    if b.len() == 0 {
        assert(a + b =~= a);
        assert(float_texts(b) =~= Seq::<Seq<char>>::empty());
        assert(float_texts(a) + float_texts(b) =~= float_texts(a));
    } else {
        float_texts_are_in_order(a, b.drop_last(), t);
        assert((a + b).drop_last() =~= a + b.drop_last());
        assert((a + b).last() == b.last());
        assert(float_texts(a + b) =~= float_texts(a) + float_texts(b));
    }
}

} // verus!
