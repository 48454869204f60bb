//! How tokens are spelled: the relation between characters and tokens, of which the lexer is the inverse.
use vstd::arithmetic::power::{lemma_pow0, lemma_pow1, lemma_pow_adds, pow};
use vstd::prelude::*;
use vstd::string::*;

use crate::sql::lexer::{
    belongs, capitals, decimal, is_digit, is_letter, is_space, keyword, run_end, run_is_whole,
    token_at, token_takes_characters, tokens_from, word_token, Class, LexError, Token, TokenView,
};

verus! {

/// The capitals that a keyword is spelled with.
pub open spec fn keyword_text(t: Token) -> Option<Seq<char>> {
    match t {
        Token::Select => Some("SELECT"@),
        Token::From => Some("FROM"@),
        Token::Where => Some("WHERE"@),
        Token::Insert => Some("INSERT"@),
        Token::Into => Some("INTO"@),
        Token::Values => Some("VALUES"@),
        Token::Update => Some("UPDATE"@),
        Token::SetKeyword => Some("SET"@),
        Token::Delete => Some("DELETE"@),
        Token::Create => Some("CREATE"@),
        Token::Drop => Some("DROP"@),
        Token::Table => Some("TABLE"@),
        Token::Index => Some("INDEX"@),
        Token::On => Some("ON"@),
        Token::True => Some("TRUE"@),
        Token::False => Some("FALSE"@),
        Token::Null => Some("NULL"@),
        Token::And => Some("AND"@),
        Token::Or => Some("OR"@),
        Token::Show => Some("SHOW"@),
        Token::Tables => Some("TABLES"@),
        Token::Database => Some("DATABASE"@),
        Token::Databases => Some("DATABASES"@),
        Token::Use => Some("USE"@),
        Token::Integer => Some("INTEGER"@),
        Token::Float => Some("FLOAT"@),
        Token::Text => Some("TEXT"@),
        Token::Boolean => Some("BOOLEAN"@),
        Token::Char => Some("CHAR"@),
        _ => None,
    }
}

/// The characters that an operator or a punctuation mark is spelled with.
pub open spec fn sign_text(t: Token) -> Option<Seq<char>> {
    match t {
        Token::Eq => Some(seq!['=']),
        Token::Ne => Some(seq!['!', '=']),
        Token::Gt => Some(seq!['>']),
        Token::Lt => Some(seq!['<']),
        Token::Ge => Some(seq!['>', '=']),
        Token::Le => Some(seq!['<', '=']),
        Token::Comma => Some(seq![',']),
        Token::LParen => Some(seq!['(']),
        Token::RParen => Some(seq![')']),
        Token::Star => Some(seq!['*']),
        Token::Semicolon => Some(seq![';']),
        _ => None,
    }
}

/// The capitals are those of a keyword. `INT` is one for `INTEGER`.
pub open spec fn is_keyword_text(w: Seq<char>, t: Token) -> bool {
    keyword_text(t) == Some(w) || (t is Integer && w == "INT"@)
}

/// A letter of the English alphabet, a decimal digit or an underscore.
pub open spec fn is_word_char(c: char) -> bool {
    is_letter(c) || is_digit(c) || c == '_'
}

/// A word: letters, digits and underscores, of which the first is no digit.
pub open spec fn is_word_text(w: Seq<char>) -> bool {
    &&& w.len() > 0
    &&& !is_digit(w[0])
    &&& forall|i: int| 0 <= i < w.len() ==> is_word_char(#[trigger] w[i])
}

/// Decimal digits, at least one.
pub open spec fn is_digits(w: Seq<char>) -> bool {
    &&& w.len() > 0
    &&& forall|i: int| 0 <= i < w.len() ==> is_digit(#[trigger] w[i])
}

/// The number that digits stand for: each counts ten times as much as the next.
pub open spec fn place_value(w: Seq<char>) -> int
    decreases w.len(),
{
    if w.len() == 0 {
        0
    } else {
        (w[0] as u32 - '0' as u32) * pow(10, (w.len() - 1) as nat) + place_value(w.drop_first())
    }
}

/// Digits, a point, and digits.
pub open spec fn is_decimal_text(w: Seq<char>) -> bool {
    exists|k: int| 0 < k < w.len() && #[trigger] w[k] == '.' && is_digits(w.take(k)) && is_digits(w.skip(k + 1))
}

/// The characters spell the token.
pub open spec fn spells(w: Seq<char>, t: TokenView) -> bool {
    match t {
        TokenView::Plain(p) => sign_text(p) == Some(w) || (is_word_text(w) && is_keyword_text(capitals(w), p)),
        TokenView::IntLiteral(n) => is_digits(w) && place_value(w) == n,
        TokenView::FloatLiteral(x) => w == x && is_decimal_text(x),
        TokenView::StringLiteral(x) => w == seq!['\''] + x + seq!['\''] && !x.contains('\''),
        TokenView::Identifier(x) => w == x && is_word_text(x) && forall|p: Token| !is_keyword_text(capitals(x), p),
    }
}

/// Small letters of the English alphabet become the capitals that stand so many places in front of them;
/// all else stays.
pub proof fn capitals_letter_by_letter(w: Seq<char>, i: int)
    requires
        0 <= i < w.len(),
    ensures
        capitals(w).len() == w.len(),
        'a' <= w[i] && w[i] <= 'z' ==> capitals(w)[i] as u32 == w[i] as u32 - ('a' as u32 - 'A' as u32),
        !('a' <= w[i] && w[i] <= 'z') ==> capitals(w)[i] == w[i],
{
}

/// Every keyword is found by its text, and only by it.
pub proof fn keywords_are_found(w: Seq<char>, t: Token)
    ensures
        keyword(w) == Some(t) <==> is_keyword_text(w, t),
{
    reveal_strlit("SELECT");
    reveal_strlit("FROM");
    reveal_strlit("WHERE");
    reveal_strlit("INSERT");
    reveal_strlit("INTO");
    reveal_strlit("VALUES");
    reveal_strlit("UPDATE");
    reveal_strlit("SET");
    reveal_strlit("DELETE");
    reveal_strlit("CREATE");
    reveal_strlit("DROP");
    reveal_strlit("TABLE");
    reveal_strlit("INDEX");
    reveal_strlit("ON");
    reveal_strlit("TRUE");
    reveal_strlit("FALSE");
    reveal_strlit("NULL");
    reveal_strlit("AND");
    reveal_strlit("OR");
    reveal_strlit("SHOW");
    reveal_strlit("TABLES");
    reveal_strlit("DATABASE");
    reveal_strlit("DATABASES");
    reveal_strlit("USE");
    reveal_strlit("INTEGER");
    reveal_strlit("INT");
    reveal_strlit("FLOAT");
    reveal_strlit("TEXT");
    reveal_strlit("BOOLEAN");
    reveal_strlit("CHAR");
    assert("SELECT"@.len() == 6 && "SELECT"@[0] == 'S' && "SELECT"@[1] == 'E');
    assert("FROM"@.len() == 4 && "FROM"@[0] == 'F' && "FROM"@[1] == 'R');
    assert("WHERE"@.len() == 5 && "WHERE"@[0] == 'W' && "WHERE"@[1] == 'H');
    assert("INSERT"@.len() == 6 && "INSERT"@[0] == 'I' && "INSERT"@[1] == 'N');
    assert("INTO"@.len() == 4 && "INTO"@[0] == 'I' && "INTO"@[1] == 'N');
    assert("VALUES"@.len() == 6 && "VALUES"@[0] == 'V' && "VALUES"@[1] == 'A');
    assert("UPDATE"@.len() == 6 && "UPDATE"@[0] == 'U' && "UPDATE"@[1] == 'P');
    assert("SET"@.len() == 3 && "SET"@[0] == 'S' && "SET"@[1] == 'E');
    assert("DELETE"@.len() == 6 && "DELETE"@[0] == 'D' && "DELETE"@[1] == 'E');
    assert("CREATE"@.len() == 6 && "CREATE"@[0] == 'C' && "CREATE"@[1] == 'R');
    assert("DROP"@.len() == 4 && "DROP"@[0] == 'D' && "DROP"@[1] == 'R');
    assert("TABLE"@.len() == 5 && "TABLE"@[0] == 'T' && "TABLE"@[1] == 'A');
    assert("INDEX"@.len() == 5 && "INDEX"@[0] == 'I' && "INDEX"@[1] == 'N');
    assert("ON"@.len() == 2 && "ON"@[0] == 'O' && "ON"@[1] == 'N');
    assert("TRUE"@.len() == 4 && "TRUE"@[0] == 'T' && "TRUE"@[1] == 'R');
    assert("FALSE"@.len() == 5 && "FALSE"@[0] == 'F' && "FALSE"@[1] == 'A');
    assert("NULL"@.len() == 4 && "NULL"@[0] == 'N' && "NULL"@[1] == 'U');
    assert("AND"@.len() == 3 && "AND"@[0] == 'A' && "AND"@[1] == 'N');
    assert("OR"@.len() == 2 && "OR"@[0] == 'O' && "OR"@[1] == 'R');
    assert("SHOW"@.len() == 4 && "SHOW"@[0] == 'S' && "SHOW"@[1] == 'H');
    assert("TABLES"@.len() == 6 && "TABLES"@[0] == 'T' && "TABLES"@[1] == 'A');
    assert("DATABASE"@.len() == 8 && "DATABASE"@[0] == 'D' && "DATABASE"@[1] == 'A');
    assert("DATABASES"@.len() == 9 && "DATABASES"@[0] == 'D' && "DATABASES"@[1] == 'A');
    assert("USE"@.len() == 3 && "USE"@[0] == 'U' && "USE"@[1] == 'S');
    assert("INTEGER"@.len() == 7 && "INTEGER"@[0] == 'I' && "INTEGER"@[1] == 'N');
    assert("INT"@.len() == 3 && "INT"@[0] == 'I' && "INT"@[1] == 'N');
    assert("FLOAT"@.len() == 5 && "FLOAT"@[0] == 'F' && "FLOAT"@[1] == 'L');
    assert("TEXT"@.len() == 4 && "TEXT"@[0] == 'T' && "TEXT"@[1] == 'E');
    assert("BOOLEAN"@.len() == 7 && "BOOLEAN"@[0] == 'B' && "BOOLEAN"@[1] == 'O');
    assert("CHAR"@.len() == 4 && "CHAR"@[0] == 'C' && "CHAR"@[1] == 'H');
}

/// A token ends where the text does not go on with it: what follows a word is no part of a word, what
/// follows a number no part of a number, and no `=` follows `<` or `>`.
pub open spec fn ends_at(s: Seq<char>, k: int, t: TokenView) -> bool {
    match t {
        TokenView::Plain(p) => if p is Gt || p is Lt {
            !(k < s.len() && s[k] == '=')
        } else if sign_text(p) is Some {
            true
        } else {
            !(k < s.len() && is_word_char(s[k]))
        },
        TokenView::Identifier(_) => !(k < s.len() && is_word_char(s[k])),
        TokenView::IntLiteral(_) => !(k < s.len() && is_digit(s[k])) && !(k + 1 < s.len() && s[k] == '.' && is_digit(
            s[k + 1],
        )),
        TokenView::FloatLiteral(_) => !(k < s.len() && is_digit(s[k])),
        TokenView::StringLiteral(_) => true,
    }
}

proof fn place_push(w: Seq<char>, c: char)
    requires
        is_digit(c),
        forall|i: int| 0 <= i < w.len() ==> is_digit(#[trigger] w[i]),
    ensures
        place_value(w.push(c)) == place_value(w) * 10 + (c as u32 - '0' as u32),
    decreases w.len(),
{
    let x = w.push(c);
    lemma_pow0(10);
    if w.len() == 0 {
        assert(x.drop_first() =~= Seq::empty());
        assert(place_value(x.drop_first()) == 0);
    } else {
        let rest = w.drop_first();
        let d = w[0] as u32 - '0' as u32;
        let n = (w.len() - 1) as nat;
        assert(x.drop_first() =~= rest.push(c));
        assert forall|i: int| 0 <= i < rest.len() implies is_digit(#[trigger] rest[i]) by {
            assert(rest[i] == w[i + 1]);
        }
        place_push(rest, c);
        lemma_pow_adds(10, n, 1);
        lemma_pow1(10);
        assert(d * (pow(10, n) * 10) == (d * pow(10, n)) * 10) by (nonlinear_arith);
    }
}

/// Digits are read as the number that they stand for.
pub proof fn digits_are_read_by_place(w: Seq<char>)
    requires
        forall|i: int| 0 <= i < w.len() ==> is_digit(#[trigger] w[i]),
    ensures
        decimal(w) == place_value(w),
    decreases w.len(),
{
    if w.len() > 0 {
        let front = w.drop_last();
        assert forall|i: int| 0 <= i < front.len() implies is_digit(#[trigger] front[i]) by {
            assert(front[i] == w[i]);
        }
        digits_are_read_by_place(front);
        place_push(front, w.last());
        assert(front.push(w.last()) =~= w);
    }
}

proof fn run_to(s: Seq<char>, i: int, j: int, class: Class)
    requires
        0 <= i <= j <= s.len(),
        forall|k: int| i <= k < j ==> belongs(#[trigger] s[k], class),
        j < s.len() ==> !belongs(s[j], class),
    ensures
        run_end(s, i, class) == j,
    decreases j - i,
{
    if i < j {
        run_to(s, i + 1, j, class);
    }
}

/// What is read as a token spells it, and the text does not go on with it.
pub proof fn what_is_read_is_spelled(s: Seq<char>, i: int)
    requires
        0 <= i < s.len(),
    ensures
        token_at(s, i) matches Ok((t, k)) ==> i < k <= s.len() && spells(s.subrange(i, k), t) && ends_at(s, k, t),
{
    token_takes_characters(s, i);
    if token_at(s, i) is Ok {
        let (t, k) = token_at(s, i)->Ok_0;
        let c = s[i];
        let w = s.subrange(i, k);
        if is_letter(c) || c == '_' {
            run_is_whole(s, i, Class::Word);
            assert forall|p: int| 0 <= p < w.len() implies is_word_char(#[trigger] w[p]) by {
                assert(belongs(s[i + p], Class::Word));
            }
            assert(w[0] == c);
            assert forall|p: Token| keyword(capitals(w)) == Some(p) <==> is_keyword_text(capitals(w), p) by {
                keywords_are_found(capitals(w), p);
            }
            if keyword(capitals(w)) is Some {
                let p = keyword(capitals(w))->Some_0;
                assert(is_keyword_text(capitals(w), p));
            }
        } else if is_digit(c) {
            run_is_whole(s, i, Class::Digit);
            let j = run_end(s, i, Class::Digit);
            assert(j > i) by {
                run_is_whole(s, i + 1, Class::Digit);
            }
            let front = s.subrange(i, j);
            assert forall|p: int| 0 <= p < front.len() implies is_digit(#[trigger] front[p]) by {
                assert(belongs(s[i + p], Class::Digit));
            }
            if j + 1 < s.len() && s[j] == '.' && is_digit(s[j + 1]) {
                run_is_whole(s, j + 1, Class::Digit);
                assert(k > j + 1) by {
                    run_is_whole(s, j + 2, Class::Digit);
                }
                let d = j - i;
                assert(w.take(d) =~= front);
                assert forall|p: int| 0 <= p < w.skip(d + 1).len() implies is_digit(#[trigger] w.skip(d + 1)[p]) by {
                    assert(belongs(s[j + 1 + p], Class::Digit));
                }
                assert(w[d] == '.');
                assert(is_decimal_text(w));
            } else {
                digits_are_read_by_place(front);
            }
        } else if c == '\'' {
            let j = run_end(s, i + 1, Class::Quoted);
            run_is_whole(s, i + 1, Class::Quoted);
            let x = s.subrange(i + 1, j);
            assert(w =~= seq!['\''] + x + seq!['\'']);
            if x.contains('\'') {
                let p = choose|p: int| 0 <= p < x.len() && x[p] == '\'';
                assert(belongs(s[i + 1 + p], Class::Quoted));
            }
        } else {
            match t {
                TokenView::Plain(p) => {
                    assert(w =~= sign_text(p)->Some_0);
                },
                _ => {},
            }
        }
    }
}

/// What spells a token is read as that token, if the text does not go on with it.
pub proof fn what_is_spelled_is_read(s: Seq<char>, i: int, k: int, t: TokenView)
    requires
        0 <= i <= k <= s.len(),
        spells(s.subrange(i, k), t),
        ends_at(s, k, t),
    ensures
        i < k,
        !is_space(s[i]),
        token_at(s, i) == Ok::<(TokenView, int), LexError>((t, k)),
{
    let w = s.subrange(i, k);
    match t {
        TokenView::Plain(p) => {
            if sign_text(p) == Some(w) {
                assert(s[i] == w[0]);
                if w.len() > 1 {
                    assert(s[i + 1] == w[1]);
                }
            } else {
                word_is_read(s, i, k);
                keywords_are_found(capitals(w), p);
            }
        },
        TokenView::Identifier(x) => {
            word_is_read(s, i, k);
            if keyword(capitals(w)) is Some {
                keywords_are_found(capitals(w), keyword(capitals(w))->Some_0);
            }
        },
        TokenView::IntLiteral(n) => {
            assert(s[i] == w[0]);
            assert forall|p: int| i <= p < k implies belongs(#[trigger] s[p], Class::Digit) by {
                assert(is_digit(w[p - i]));
            }
            run_to(s, i, k, Class::Digit);
            digits_are_read_by_place(w);
        },
        TokenView::FloatLiteral(x) => {
            let d = choose|d: int| 0 < d < w.len() && #[trigger] w[d] == '.' && is_digits(w.take(d)) && is_digits(w.skip(d + 1));
            assert(s[i] == w[0] && w[0] == w.take(d)[0]);
            assert(s[i + d] == w[d]);
            assert forall|p: int| i <= p < i + d implies belongs(#[trigger] s[p], Class::Digit) by {
                assert(is_digit(w.take(d)[p - i]));
            }
            assert forall|p: int| i + d + 1 <= p < k implies belongs(#[trigger] s[p], Class::Digit) by {
                assert(is_digit(w.skip(d + 1)[p - i - d - 1]));
            }
            run_to(s, i, i + d, Class::Digit);
            run_to(s, i + d + 1, k, Class::Digit);
            assert(belongs(s[i + d + 1], Class::Digit));
        },
        TokenView::StringLiteral(x) => {
            assert(w[0] == '\'' && s[i] == w[0]);
            assert(w[w.len() - 1] == '\'' && s[k - 1] == w[w.len() - 1]);
            assert forall|p: int| i + 1 <= p < k - 1 implies belongs(#[trigger] s[p], Class::Quoted) by {
                assert(s[p] == w[p - i]);
                assert(w[p - i] == x[p - i - 1]);
                assert(x.contains(x[p - i - 1]));
            }
            run_to(s, i + 1, k - 1, Class::Quoted);
            assert(s.subrange(i + 1, k - 1) =~= x) by {
                assert forall|p: int| 0 <= p < x.len() implies s.subrange(i + 1, k - 1)[p] == x[p] by {
                    assert(s[i + 1 + p] == w[p + 1]);
                    assert(w[p + 1] == x[p]);
                }
            }
        },
    }
}

proof fn word_is_read(s: Seq<char>, i: int, k: int)
    requires
        0 <= i <= k <= s.len(),
        is_word_text(s.subrange(i, k)),
        !(k < s.len() && is_word_char(s[k])),
    ensures
        i < k,
        is_letter(s[i]) || s[i] == '_',
        token_at(s, i) == Ok::<(TokenView, int), LexError>((word_token(s.subrange(i, k)), k)),
{
    let w = s.subrange(i, k);
    assert(s[i] == w[0]);
    assert forall|p: int| i <= p < k implies belongs(#[trigger] s[p], Class::Word) by {
        assert(is_word_char(w[p - i]));
    }
    run_to(s, i, k, Class::Word);
}

/// A text from a place on is cut into tokens: each spells one, and ends where the text does not go on with
/// it; they stand one behind the other, and all else is space.
pub open spec fn cut(s: Seq<char>, i: int, spans: Seq<(int, int)>, ts: Seq<TokenView>) -> bool {
    &&& spans.len() == ts.len()
    &&& forall|k: int|
        0 <= k < ts.len() ==> {
            &&& i <= (#[trigger] spans[k]).0 < spans[k].1 <= s.len()
            &&& spells(s.subrange(spans[k].0, spans[k].1), ts[k])
            &&& ends_at(s, spans[k].1, ts[k])
        }
    &&& forall|j: int, k: int| 0 <= j < k < ts.len() ==> (#[trigger] spans[j]).1 <= (#[trigger] spans[k]).0
    &&& forall|p: int|
        i <= p < s.len() && (forall|k: int| 0 <= k < ts.len() ==> !((#[trigger] spans[k]).0 <= p < spans[k].1))
            ==> is_space(#[trigger] s[p])
}

proof fn cut_as_read(s: Seq<char>, i: int) -> (spans: Seq<(int, int)>)
    requires
        0 <= i <= s.len(),
    ensures
        tokens_from(s, i) matches Ok(ts) ==> cut(s, i, spans, ts),
    decreases s.len() - i,
{
    run_is_whole(s, i, Class::Space);
    let j = run_end(s, i, Class::Space);
    assert forall|p: int| i <= p < j implies is_space(#[trigger] s[p]) by {
        assert(belongs(s[p], Class::Space));
    }
    if j < s.len() && tokens_from(s, i) is Ok {
        what_is_read_is_spelled(s, j);
        let (t, k) = token_at(s, j)->Ok_0;
        let rest = cut_as_read(s, k);
        let spans = seq![(j, k)] + rest;
        let ts = tokens_from(s, i)->Ok_0;
        let more = tokens_from(s, k)->Ok_0;
        assert(ts =~= seq![t] + more);
        assert(cut(s, i, spans, ts)) by {
            assert forall|q: int| 0 <= q < ts.len() implies {
                &&& i <= (#[trigger] spans[q]).0 < spans[q].1 <= s.len()
                &&& spells(s.subrange(spans[q].0, spans[q].1), ts[q])
                &&& ends_at(s, spans[q].1, ts[q])
            } by {
                if q > 0 {
                    assert(spans[q] == rest[q - 1]);
                    assert(ts[q] == more[q - 1]);
                }
            }
            assert forall|a: int, b: int| 0 <= a < b < ts.len() implies (#[trigger] spans[a]).1 <= (#[trigger] spans[b]).0 by {
                assert(spans[b] == rest[b - 1]);
                if a > 0 {
                    assert(spans[a] == rest[a - 1]);
                }
            }
            assert forall|p: int|
                i <= p < s.len() && (forall|q: int| 0 <= q < ts.len() ==> !((#[trigger] spans[q]).0 <= p < spans[q].1)) implies is_space(
                #[trigger] s[p],
            ) by {
                assert(!(spans[0].0 <= p < spans[0].1));
                if p >= k {
                    assert forall|q: int| 0 <= q < more.len() implies !((#[trigger] rest[q]).0 <= p < rest[q].1) by {
                        assert(spans[q + 1] == rest[q]);
                    }
                }
            }
        }
        spans
    } else {
        Seq::empty()
    }
}

proof fn read_as_cut(s: Seq<char>, i: int, spans: Seq<(int, int)>, ts: Seq<TokenView>)
    requires
        0 <= i <= s.len(),
        cut(s, i, spans, ts),
    ensures
        tokens_from(s, i) == Ok::<Seq<TokenView>, LexError>(ts),
    decreases ts.len(),
{
    if ts.len() == 0 {
        assert forall|p: int| i <= p < s.len() implies belongs(#[trigger] s[p], Class::Space) by {
            assert(is_space(s[p]));
        }
        run_to(s, i, s.len() as int, Class::Space);
        assert(ts =~= Seq::empty());
    } else {
        let (j, k) = spans[0];
        let rest = spans.drop_first();
        let more = ts.drop_first();
        what_is_spelled_is_read(s, j, k, ts[0]);
        assert forall|p: int| i <= p < j implies belongs(#[trigger] s[p], Class::Space) by {
            assert forall|q: int| 0 <= q < ts.len() implies !((#[trigger] spans[q]).0 <= p < spans[q].1) by {
                if q > 0 {
                    assert(spans[0].1 <= spans[q].0);
                }
            }
            assert(is_space(s[p]));
        }
        run_to(s, i, j, Class::Space);
        assert(cut(s, k, rest, more)) by {
            assert forall|q: int| 0 <= q < more.len() implies {
                &&& k <= (#[trigger] rest[q]).0 < rest[q].1 <= s.len()
                &&& spells(s.subrange(rest[q].0, rest[q].1), more[q])
                &&& ends_at(s, rest[q].1, more[q])
            } by {
                assert(rest[q] == spans[q + 1]);
                assert(more[q] == ts[q + 1]);
                assert(spans[0].1 <= spans[q + 1].0);
            }
            assert forall|a: int, b: int| 0 <= a < b < more.len() implies (#[trigger] rest[a]).1 <= (#[trigger] rest[b]).0 by {
                assert(spans[a + 1].1 <= spans[b + 1].0);
            }
            assert forall|p: int|
                k <= p < s.len() && (forall|q: int| 0 <= q < more.len() ==> !((#[trigger] rest[q]).0 <= p < rest[q].1)) implies is_space(
                #[trigger] s[p],
            ) by {
                assert forall|q: int| 0 <= q < ts.len() implies !((#[trigger] spans[q]).0 <= p < spans[q].1) by {
                    if q > 0 {
                        assert(rest[q - 1] == spans[q]);
                    }
                }
            }
        }
        read_as_cut(s, k, rest, more);
        assert(seq![ts[0]] + more =~= ts);
    }
}

/// A text is read as tokens exactly if it can be cut into them.
pub proof fn texts_are_read_as_spelled(s: Seq<char>, ts: Seq<TokenView>)
    ensures
        tokens_from(s, 0) == Ok::<Seq<TokenView>, LexError>(ts) <==> exists|spans: Seq<(int, int)>| #[trigger]
            cut(s, 0, spans, ts),
{
    if tokens_from(s, 0) == Ok::<Seq<TokenView>, LexError>(ts) {
        let spans = cut_as_read(s, 0);
        assert(cut(s, 0, spans, ts));
    }
    if exists|spans: Seq<(int, int)>| #[trigger] cut(s, 0, spans, ts) {
        let spans = choose|spans: Seq<(int, int)>| #[trigger] cut(s, 0, spans, ts);
        read_as_cut(s, 0, spans, ts);
    }
}

/// Why no token can be read at a place: a string is not closed, a number is too large, or no token starts
/// with the character.
pub proof fn what_cannot_be_read(s: Seq<char>, i: int)
    requires
        0 <= i < s.len() <= usize::MAX,
    ensures
        token_at(s, i) matches Err(e) ==> match e {
            LexError::UnterminatedString => s[i] == '\'' && forall|p: int| i < p < s.len() ==> (#[trigger] s[p]) != '\'',
            LexError::IntegerTooLarge { at } => at == i && exists|k: int|
                i < k <= s.len() && is_digits(#[trigger] s.subrange(i, k)) && place_value(s.subrange(i, k)) > i64::MAX,
            LexError::Unexpected { found, at } => {
                &&& at == i
                &&& found == s[i]
                &&& !is_word_char(found) && found != '\''
                &&& forall|t: Token| #[trigger] sign_text(t) matches Some(w) ==> !w.is_prefix_of(s.skip(i))
            },
        },
{
    let c = s[i];
    if token_at(s, i) is Err {
        if is_letter(c) || c == '_' {
        } else if is_digit(c) {
            run_is_whole(s, i, Class::Digit);
            run_is_whole(s, i + 1, Class::Digit);
            let j = run_end(s, i, Class::Digit);
            let w = s.subrange(i, j);
            assert forall|p: int| 0 <= p < w.len() implies is_digit(#[trigger] w[p]) by {
                assert(belongs(s[i + p], Class::Digit));
            }
            digits_are_read_by_place(w);
        } else if c == '\'' {
            run_is_whole(s, i + 1, Class::Quoted);
            assert forall|p: int| i < p < s.len() implies (#[trigger] s[p]) != '\'' by {
                assert(belongs(s[p], Class::Quoted));
            }
        } else {
            assert forall|t: Token| (#[trigger] sign_text(t)) is Some implies !sign_text(t)->Some_0.is_prefix_of(s.skip(i)) by {
                let w = sign_text(t)->Some_0;
                if w.is_prefix_of(s.skip(i)) {
                    assert(w[0] == s.skip(i)[0]);
                    if w.len() > 1 {
                        assert(w[1] == s.skip(i)[1]);
                    }
                }
            }
        }
    }
}

/// A text that cannot be read has a place, behind what can be read, at which no token can be.
pub proof fn unreadable_texts_have_a_place(s: Seq<char>, i: int)
    requires
        0 <= i <= s.len(),
    ensures
        tokens_from(s, i) matches Err(e) ==> exists|p: int|
            i <= p < s.len() && !is_space(s[p]) && #[trigger] token_at(s, p) == Err::<(TokenView, int), LexError>(e),
    decreases s.len() - i,
{
    run_is_whole(s, i, Class::Space);
    let j = run_end(s, i, Class::Space);
    if j < s.len() && tokens_from(s, i) is Err {
        token_takes_characters(s, j);
        match token_at(s, j) {
            Err(e) => {
                assert(token_at(s, j) == Err::<(TokenView, int), LexError>(e));
            },
            Ok((t, k)) => {
                unreadable_texts_have_a_place(s, k);
            },
        }
    }
}

} // verus!
