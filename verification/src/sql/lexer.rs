//! The lexer: from characters to tokens.
use vstd::prelude::*;

use crate::text::{all_ascii, ascii_upper, chars_of, same_text, text_of, uppercase};

verus! {

/// A token.
#[derive(Debug, PartialEq, Eq)]
pub enum Token {
    /// SELECT
    Select,
    /// FROM
    From,
    /// WHERE
    Where,
    /// INSERT
    Insert,
    /// INTO
    Into,
    /// VALUES
    Values,
    /// UPDATE
    Update,
    /// SET
    SetKeyword,
    /// DELETE
    Delete,
    /// CREATE
    Create,
    /// DROP
    Drop,
    /// TABLE
    Table,
    /// INDEX
    Index,
    /// ON
    On,
    /// TRUE
    True,
    /// FALSE
    False,
    /// NULL
    Null,
    /// AND
    And,
    /// OR
    Or,
    /// SHOW
    Show,
    /// TABLES
    Tables,
    /// DATABASE
    Database,
    /// DATABASES
    Databases,
    /// USE
    Use,
    /// INTEGER or INT
    Integer,
    /// FLOAT
    Float,
    /// TEXT
    Text,
    /// BOOLEAN
    Boolean,
    /// CHAR
    Char,
    /// `=`
    Eq,
    /// `!=`
    Ne,
    /// `>`
    Gt,
    /// `<`
    Lt,
    /// `>=`
    Ge,
    /// `<=`
    Le,
    /// `,`
    Comma,
    /// `(`
    LParen,
    /// `)`
    RParen,
    /// `*`
    Star,
    /// `;`
    Semicolon,
    /// An integer.
    IntLiteral(i64),
    /// A number with a decimal point, as it is written.
    FloatLiteral(String),
    /// A string in single quotes.
    StringLiteral(String),
    /// A name.
    Identifier(String),
}

/// A token, free of its representation.
pub ghost enum TokenView {
    /// A token that holds nothing.
    Plain(Token),
    IntLiteral(i64),
    FloatLiteral(Seq<char>),
    StringLiteral(Seq<char>),
    Identifier(Seq<char>),
}

impl View for Token {
    type V = TokenView;

    open spec fn view(&self) -> TokenView {
        match *self {
            Token::IntLiteral(n) => TokenView::IntLiteral(n),
            Token::FloatLiteral(t) => TokenView::FloatLiteral(t@),
            Token::StringLiteral(t) => TokenView::StringLiteral(t@),
            Token::Identifier(t) => TokenView::Identifier(t@),
            _ => TokenView::Plain(*self),
        }
    }
}

/// Why a text is no sequence of tokens.
#[derive(Debug, PartialEq, Eq, Clone, Copy, Structural)]
pub enum LexError {
    /// No token begins with this character, which stands at this place.
    Unexpected { found: char, at: usize },
    /// A string is not closed.
    UnterminatedString,
    /// The integer at this place is too large.
    IntegerTooLarge { at: usize },
}

/// A class of characters that the lexer reads in runs.
#[derive(Clone, Copy)]
pub enum Class {
    /// Space between tokens.
    Space,
    /// What a name is made of.
    Word,
    /// A decimal digit.
    Digit,
    /// What a string holds.
    Quoted,
}

/// A character of the Unicode property White_Space.
pub open spec fn is_space(c: char) -> bool {
    let n = c as u32;
    ||| 9 <= n <= 13
    ||| n == 0x20
    ||| n == 0x85
    ||| n == 0xA0
    ||| n == 0x1680
    ||| 0x2000 <= n <= 0x200A
    ||| n == 0x2028
    ||| n == 0x2029
    ||| n == 0x202F
    ||| n == 0x205F
    ||| n == 0x3000
}

/// A letter of the English alphabet.
pub open spec fn is_letter(c: char) -> bool {
    ('a' <= c && c <= 'z') || ('A' <= c && c <= 'Z')
}

/// A decimal digit.
pub open spec fn is_digit(c: char) -> bool {
    '0' <= c && c <= '9'
}

/// The character belongs to the class.
pub open spec fn belongs(c: char, class: Class) -> bool {
    match class {
        Class::Space => is_space(c),
        Class::Word => is_letter(c) || is_digit(c) || c == '_',
        Class::Digit => is_digit(c),
        Class::Quoted => c != '\'',
    }
}

/// Where the run of characters of a class that begins at `i` ends.
pub open spec fn run_end(s: Seq<char>, i: int, class: Class) -> int
    decreases s.len() - i,
{
    if 0 <= i < s.len() && belongs(s[i], class) {
        run_end(s, i + 1, class)
    } else {
        i
    }
}

/// The number that decimal digits stand for.
pub open spec fn decimal(s: Seq<char>) -> nat
    decreases s.len(),
{
    if s.len() == 0 {
        0
    } else {
        decimal(s.drop_last()) * 10 + (s.last() as u32 - '0' as u32) as nat
    }
}

/// The keyword that is written like this in upper case.
pub open spec fn keyword(w: Seq<char>) -> Option<Token> {
    if w == "SELECT"@ {
        Some(Token::Select)
    } else if w == "FROM"@ {
        Some(Token::From)
    } else if w == "WHERE"@ {
        Some(Token::Where)
    } else if w == "INSERT"@ {
        Some(Token::Insert)
    } else if w == "INTO"@ {
        Some(Token::Into)
    } else if w == "VALUES"@ {
        Some(Token::Values)
    } else if w == "UPDATE"@ {
        Some(Token::Update)
    } else if w == "SET"@ {
        Some(Token::SetKeyword)
    } else if w == "DELETE"@ {
        Some(Token::Delete)
    } else if w == "CREATE"@ {
        Some(Token::Create)
    } else if w == "DROP"@ {
        Some(Token::Drop)
    } else if w == "TABLE"@ {
        Some(Token::Table)
    } else if w == "INDEX"@ {
        Some(Token::Index)
    } else if w == "ON"@ {
        Some(Token::On)
    } else if w == "TRUE"@ {
        Some(Token::True)
    } else if w == "FALSE"@ {
        Some(Token::False)
    } else if w == "NULL"@ {
        Some(Token::Null)
    } else if w == "AND"@ {
        Some(Token::And)
    } else if w == "OR"@ {
        Some(Token::Or)
    } else if w == "SHOW"@ {
        Some(Token::Show)
    } else if w == "TABLES"@ {
        Some(Token::Tables)
    } else if w == "DATABASE"@ {
        Some(Token::Database)
    } else if w == "DATABASES"@ {
        Some(Token::Databases)
    } else if w == "USE"@ {
        Some(Token::Use)
    } else if w == "INTEGER"@ || w == "INT"@ {
        Some(Token::Integer)
    } else if w == "FLOAT"@ {
        Some(Token::Float)
    } else if w == "TEXT"@ {
        Some(Token::Text)
    } else if w == "BOOLEAN"@ {
        Some(Token::Boolean)
    } else if w == "CHAR"@ {
        Some(Token::Char)
    } else {
        None
    }
}

/// The letters of the English alphabet in upper case, and the rest as it is.
pub open spec fn capitals(w: Seq<char>) -> Seq<char> {
    w.map_values(|c: char| ascii_upper(c))
}

/// The token that a word is: a keyword in whatever case, or else a name.
pub open spec fn word_token(w: Seq<char>) -> TokenView {
    match keyword(capitals(w)) {
        Some(t) => TokenView::Plain(t),
        None => TokenView::Identifier(w),
    }
}

/// The token of one or two characters at `i`, and where it ends.
pub open spec fn sign_at(s: Seq<char>, i: int) -> Result<(TokenView, int), LexError> {
    let c = s[i];
    let equal = i + 1 < s.len() && s[i + 1] == '=';
    if c == '=' {
        Ok((TokenView::Plain(Token::Eq), i + 1))
    } else if c == '!' && equal {
        Ok((TokenView::Plain(Token::Ne), i + 2))
    } else if c == '>' {
        if equal {
            Ok((TokenView::Plain(Token::Ge), i + 2))
        } else {
            Ok((TokenView::Plain(Token::Gt), i + 1))
        }
    } else if c == '<' {
        if equal {
            Ok((TokenView::Plain(Token::Le), i + 2))
        } else {
            Ok((TokenView::Plain(Token::Lt), i + 1))
        }
    } else if c == ',' {
        Ok((TokenView::Plain(Token::Comma), i + 1))
    } else if c == '(' {
        Ok((TokenView::Plain(Token::LParen), i + 1))
    } else if c == ')' {
        Ok((TokenView::Plain(Token::RParen), i + 1))
    } else if c == '*' {
        Ok((TokenView::Plain(Token::Star), i + 1))
    } else if c == ';' {
        Ok((TokenView::Plain(Token::Semicolon), i + 1))
    } else {
        Err(LexError::Unexpected { found: c, at: i as usize })
    }
}

/// The number at `i`, and where it ends. With a point and a digit behind the point it is a float.
pub open spec fn number_at(s: Seq<char>, i: int) -> Result<(TokenView, int), LexError> {
    let j = run_end(s, i, Class::Digit);
    if j + 1 < s.len() && s[j] == '.' && is_digit(s[j + 1]) {
        let k = run_end(s, j + 1, Class::Digit);
        Ok((TokenView::FloatLiteral(s.subrange(i, k)), k))
    } else if decimal(s.subrange(i, j)) <= i64::MAX {
        Ok((TokenView::IntLiteral(decimal(s.subrange(i, j)) as i64), j))
    } else {
        Err(LexError::IntegerTooLarge { at: i as usize })
    }
}

/// The token at `i`, and where it ends.
pub open spec fn token_at(s: Seq<char>, i: int) -> Result<(TokenView, int), LexError> {
    let c = s[i];
    if is_letter(c) || c == '_' {
        let j = run_end(s, i, Class::Word);
        Ok((word_token(s.subrange(i, j)), j))
    } else if is_digit(c) {
        number_at(s, i)
    } else if c == '\'' {
        let j = run_end(s, i + 1, Class::Quoted);
        if j < s.len() {
            Ok((TokenView::StringLiteral(s.subrange(i + 1, j)), j + 1))
        } else {
            Err(LexError::UnterminatedString)
        }
    } else {
        sign_at(s, i)
    }
}

/// The tokens from `i` on.
pub open spec fn tokens_from(s: Seq<char>, i: int) -> Result<Seq<TokenView>, LexError>
    decreases s.len() - i,
{
    let j = run_end(s, i, Class::Space);
    if i < 0 || j >= s.len() {
        Ok(Seq::empty())
    } else {
        match token_at(s, j) {
            Err(e) => Err(e),
            Ok((t, k)) => if i < k <= s.len() {
                match tokens_from(s, k) {
                    Err(e) => Err(e),
                    Ok(rest) => Ok(seq![t] + rest),
                }
            } else {
                Ok(Seq::empty())
            },
        }
    }
}

/// The views of tokens.
pub open spec fn token_views(v: Seq<Token>) -> Seq<TokenView> {
    Seq::new(v.len(), |i: int| v[i]@)
}

/// A run does not end before it begins, all of it belongs to the class, and what follows does not.
pub proof fn run_is_whole(s: Seq<char>, i: int, class: Class)
    requires
        0 <= i <= s.len(),
    ensures
        i <= run_end(s, i, class) <= s.len(),
        forall|k: int| i <= k < run_end(s, i, class) ==> belongs(#[trigger] s[k], class),
        run_end(s, i, class) < s.len() ==> !belongs(s[run_end(s, i, class)], class),
    decreases s.len() - i,
{
    if i < s.len() && belongs(s[i], class) {
        run_is_whole(s, i + 1, class);
    }
}

/// Every token takes at least one character.
pub proof fn token_takes_characters(s: Seq<char>, i: int)
    requires
        0 <= i < s.len(),
    ensures
        token_at(s, i) matches Ok((_, k)) ==> i < k <= s.len(),
{
    run_is_whole(s, i + 1, Class::Quoted);
    run_is_whole(s, i, Class::Word);
    run_is_whole(s, i, Class::Digit);
    let j = run_end(s, i, Class::Digit);
    if j + 1 < s.len() {
        run_is_whole(s, j + 1, Class::Digit);
    }
    assert(run_end(s, i, Class::Word) == run_end(s, i + 1, Class::Word) || !belongs(s[i], Class::Word));
    assert(run_end(s, i, Class::Digit) == run_end(s, i + 1, Class::Digit) || !belongs(s[i], Class::Digit));
    run_is_whole(s, i + 1, Class::Word);
    run_is_whole(s, i + 1, Class::Digit);
}

pub fn char_belongs(c: char, class: Class) -> (r: bool)
    ensures
        r == belongs(c, class),
{
    match class {
        Class::Space => {
            let n: u32 = c as u32;
            (9 <= n && n <= 13) || n == 0x20 || n == 0x85 || n == 0xA0 || n == 0x1680 || (0x2000 <= n && n <= 0x200A)
                || n == 0x2028 || n == 0x2029 || n == 0x202F || n == 0x205F || n == 0x3000
        },
        Class::Word => ('a' <= c && c <= 'z') || ('A' <= c && c <= 'Z') || ('0' <= c && c <= '9') || c == '_',
        Class::Digit => '0' <= c && c <= '9',
        Class::Quoted => c != '\'',
    }
}

/// The keyword that is written like this in upper case.
fn find_keyword(w: &str) -> (r: Option<Token>)
    ensures
        r == keyword(w@),
{
    if same_text(w, "SELECT") {
        Some(Token::Select)
    } else if same_text(w, "FROM") {
        Some(Token::From)
    } else if same_text(w, "WHERE") {
        Some(Token::Where)
    } else if same_text(w, "INSERT") {
        Some(Token::Insert)
    } else if same_text(w, "INTO") {
        Some(Token::Into)
    } else if same_text(w, "VALUES") {
        Some(Token::Values)
    } else if same_text(w, "UPDATE") {
        Some(Token::Update)
    } else if same_text(w, "SET") {
        Some(Token::SetKeyword)
    } else if same_text(w, "DELETE") {
        Some(Token::Delete)
    } else if same_text(w, "CREATE") {
        Some(Token::Create)
    } else if same_text(w, "DROP") {
        Some(Token::Drop)
    } else if same_text(w, "TABLE") {
        Some(Token::Table)
    } else if same_text(w, "INDEX") {
        Some(Token::Index)
    } else if same_text(w, "ON") {
        Some(Token::On)
    } else if same_text(w, "TRUE") {
        Some(Token::True)
    } else if same_text(w, "FALSE") {
        Some(Token::False)
    } else if same_text(w, "NULL") {
        Some(Token::Null)
    } else if same_text(w, "AND") {
        Some(Token::And)
    } else if same_text(w, "OR") {
        Some(Token::Or)
    } else if same_text(w, "SHOW") {
        Some(Token::Show)
    } else if same_text(w, "TABLES") {
        Some(Token::Tables)
    } else if same_text(w, "DATABASE") {
        Some(Token::Database)
    } else if same_text(w, "DATABASES") {
        Some(Token::Databases)
    } else if same_text(w, "USE") {
        Some(Token::Use)
    } else if same_text(w, "INTEGER") || same_text(w, "INT") {
        Some(Token::Integer)
    } else if same_text(w, "FLOAT") {
        Some(Token::Float)
    } else if same_text(w, "TEXT") {
        Some(Token::Text)
    } else if same_text(w, "BOOLEAN") {
        Some(Token::Boolean)
    } else if same_text(w, "CHAR") {
        Some(Token::Char)
    } else {
        None
    }
}

/// A lexer.
pub struct Lexer {
    chars: Vec<char>,
    pos: usize,
}

/// What the lexer reads from `i` on agrees with `to`.
spec fn lexed(to: Result<(TokenView, int), LexError>, r: Result<Token, LexError>, pos: usize) -> bool {
    match to {
        Ok((t, k)) => r matches Ok(tok) && tok@ == t && pos == k,
        Err(e) => r == Err::<Token, LexError>(e),
    }
}

impl Lexer {
    /// The characters.
    pub closed spec fn text(&self) -> Seq<char> {
        self.chars@
    }

    /// How many of them have been read.
    pub closed spec fn at(&self) -> int {
        self.pos as int
    }

    /// A lexer at the beginning of a text.
    pub fn new(input: &str) -> (r: Lexer)
        ensures
            r.text() == input@,
            r.at() == 0,
    {
        Lexer { chars: chars_of(input), pos: 0 }
    }

    /// Read the rest of the text.
    pub fn tokenize(&mut self) -> (r: Result<Vec<Token>, LexError>)
        ensures
            match tokens_from(old(self).text(), old(self).at()) {
                Ok(v) => r matches Ok(tokens) && token_views(tokens@) == v,
                Err(e) => r == Err::<Vec<Token>, LexError>(e),
            },
            final(self).text() == old(self).text(),
    {
        let ghost s = self.chars@;
        let ghost start = self.pos as int;
        let mut tokens: Vec<Token> = Vec::new();
        proof {
            assert(token_views(tokens@) =~= Seq::empty());
            if let Ok(v) = tokens_from(s, start) {
                assert(Seq::<TokenView>::empty() + v =~= v);
            }
            if start >= s.len() {
                assert(run_end(s, start, Class::Space) >= s.len());
            }
        }
        while self.pos < self.chars.len()
            invariant
                s == self.chars@,
                s == old(self).text(),
                start == old(self).at(),
                match tokens_from(s, self.pos as int) {
                    Ok(v) => tokens_from(s, start) == Ok::<Seq<TokenView>, LexError>(token_views(tokens@) + v),
                    Err(e) => tokens_from(s, start) == Err::<Seq<TokenView>, LexError>(e),
                },
                start >= s.len() ==> tokens_from(s, start) == Ok::<Seq<TokenView>, LexError>(Seq::empty())
                    && tokens@.len() == 0,
            decreases self.chars@.len() - self.pos,
        {
            let ghost i = self.pos as int;
            let ghost before = token_views(tokens@);
            self.skip_whitespace();
            proof {
                run_is_whole(s, i, Class::Space);
            }
            if self.pos < self.chars.len() {
                let ghost j = self.pos as int;
                proof {
                    token_takes_characters(s, j);
                }
                match self.next_token() {
                    Err(e) => {
                        assert(tokens_from(s, i) == Err::<Seq<TokenView>, LexError>(e));
                        return Err(e);
                    },
                    Ok(t) => {
                        let ghost tv = t@;
                        tokens.push(t);
                        proof {
                            assert(token_views(tokens@) =~= before.push(tv));
                            if let Ok(v) = tokens_from(s, self.pos as int) {
                                assert(before + (seq![tv] + v) =~= before.push(tv) + v);
                            }
                        }
                    },
                }
            } else {
                proof {
                    assert(run_end(s, self.pos as int, Class::Space) >= s.len());
                    assert(tokens_from(s, i) == Ok::<Seq<TokenView>, LexError>(Seq::empty()));
                    assert(tokens_from(s, self.pos as int) == Ok::<Seq<TokenView>, LexError>(Seq::empty()));
                }
            }
        }
        proof {
            assert(run_end(s, self.pos as int, Class::Space) >= s.len());
            assert(tokens_from(s, self.pos as int) == Ok::<Seq<TokenView>, LexError>(Seq::empty()));
            assert(token_views(tokens@) + Seq::<TokenView>::empty() =~= token_views(tokens@));
        }
        Ok(tokens)
    }

    /// The place where a run that begins here ends.
    fn read_run(&mut self, class: Class)
        ensures
            final(self).chars@ == old(self).chars@,
            old(self).pos <= old(self).chars@.len() ==> final(self).pos == run_end(
                old(self).chars@,
                old(self).pos as int,
                class,
            ) && final(self).pos <= final(self).chars@.len(),
            old(self).pos > old(self).chars@.len() ==> final(self).pos == old(self).pos,
    {
        let ghost start = self.pos as int;
        let ghost s = self.chars@;
        while self.pos < self.chars.len() && char_belongs(self.chars[self.pos], class)
            invariant
                s == self.chars@,
                run_end(s, self.pos as int, class) == run_end(s, start, class),
                start <= self.pos,
                self.pos <= s.len() || self.pos == start,
            decreases s.len() - self.pos,
        {
            self.pos = self.pos + 1;
        }
    }

    /// Go past space.
    fn skip_whitespace(&mut self)
        ensures
            final(self).chars@ == old(self).chars@,
            old(self).pos <= old(self).chars@.len() ==> final(self).pos == run_end(
                old(self).chars@,
                old(self).pos as int,
                Class::Space,
            ) && final(self).pos <= final(self).chars@.len(),
    {
        self.read_run(Class::Space);
    }

    /// Read a token.
    fn next_token(&mut self) -> (r: Result<Token, LexError>)
        requires
            old(self).pos < old(self).chars@.len(),
        ensures
            final(self).chars@ == old(self).chars@,
            lexed(token_at(old(self).chars@, old(self).pos as int), r, final(self).pos),
    {
        let c = self.chars[self.pos];
        if c == '_' || (char_belongs(c, Class::Word) && !char_belongs(c, Class::Digit)) {
            return Ok(self.lex_word());
        }
        if char_belongs(c, Class::Digit) {
            return self.lex_number();
        }
        if c == '\'' {
            return self.lex_string();
        }
        self.lex_sign()
    }

    /// Read a token of one or two characters.
    fn lex_sign(&mut self) -> (r: Result<Token, LexError>)
        requires
            old(self).pos < old(self).chars@.len(),
        ensures
            final(self).chars@ == old(self).chars@,
            lexed(sign_at(old(self).chars@, old(self).pos as int), r, final(self).pos),
    {
        let at = self.pos;
        let c = self.chars[at];
        let equal = self.chars.len() - at > 1 && self.chars[at + 1] == '=';
        let (token, len): (Token, usize) = if c == '=' {
            (Token::Eq, 1)
        } else if c == '!' && equal {
            (Token::Ne, 2)
        } else if c == '>' {
            if equal {
                (Token::Ge, 2)
            } else {
                (Token::Gt, 1)
            }
        } else if c == '<' {
            if equal {
                (Token::Le, 2)
            } else {
                (Token::Lt, 1)
            }
        } else if c == ',' {
            (Token::Comma, 1)
        } else if c == '(' {
            (Token::LParen, 1)
        } else if c == ')' {
            (Token::RParen, 1)
        } else if c == '*' {
            (Token::Star, 1)
        } else if c == ';' {
            (Token::Semicolon, 1)
        } else {
            return Err(LexError::Unexpected { found: c, at });
        };
        self.pos = at + len;
        Ok(token)
    }

    /// Read a keyword or a name.
    fn lex_word(&mut self) -> (r: Token)
        requires
            old(self).pos < old(self).chars@.len(),
        ensures
            final(self).chars@ == old(self).chars@,
            ({
                let s = old(self).chars@;
                let j = run_end(s, old(self).pos as int, Class::Word);
                r@ == word_token(s.subrange(old(self).pos as int, j)) && final(self).pos == j
            }),
    {
        let start = self.pos;
        proof {
            run_is_whole(self.chars@, start as int, Class::Word);
        }
        self.read_run(Class::Word);
        let word = text_of(&self.chars, start, self.pos);
        assert(all_ascii(word@)) by {
            assert forall|i: int| 0 <= i < word@.len() implies (#[trigger] word@[i]) as u32 <= 127 by {
                assert(belongs(self.chars@[start + i], Class::Word));
            }
        }
        let upper = uppercase(word.as_str());
        assert(upper@ =~= capitals(word@));
        match find_keyword(upper.as_str()) {
            Some(t) => {
                proof {
                    keyword_is_plain(upper@);
                }
                t
            },
            None => Token::Identifier(word),
        }
    }

    /// Read a number.
    fn lex_number(&mut self) -> (r: Result<Token, LexError>)
        requires
            old(self).pos < old(self).chars@.len(),
        ensures
            final(self).chars@ == old(self).chars@,
            lexed(number_at(old(self).chars@, old(self).pos as int), r, final(self).pos),
    {
        let start = self.pos;
        let ghost s = self.chars@;
        proof {
            run_is_whole(s, start as int, Class::Digit);
        }
        self.read_run(Class::Digit);
        let j = self.pos;
        if j < self.chars.len() && self.chars.len() - j > 1 && self.chars[j] == '.' && char_belongs(self.chars[j + 1], Class::Digit) {
            self.pos = j + 1;
            proof {
                run_is_whole(s, j + 1, Class::Digit);
            }
            self.read_run(Class::Digit);
            let text = text_of(&self.chars, start, self.pos);
            return Ok(Token::FloatLiteral(text));
        }
        match read_decimal(&self.chars, start, j) {
            Some(n) => Ok(Token::IntLiteral(n)),
            None => Err(LexError::IntegerTooLarge { at: start }),
        }
    }

    /// Read a string in single quotes.
    fn lex_string(&mut self) -> (r: Result<Token, LexError>)
        requires
            old(self).pos < old(self).chars@.len(),
            old(self).chars@[old(self).pos as int] == '\'',
        ensures
            final(self).chars@ == old(self).chars@,
            lexed(token_at(old(self).chars@, old(self).pos as int), r, final(self).pos),
    {
        let len = self.chars.len();
        let start = self.pos + 1;
        self.pos = start;
        proof {
            run_is_whole(self.chars@, start as int, Class::Quoted);
        }
        self.read_run(Class::Quoted);
        if self.pos >= len {
            return Err(LexError::UnterminatedString);
        }
        let text = text_of(&self.chars, start, self.pos);
        self.pos = self.pos + 1;
        Ok(Token::StringLiteral(text))
    }
}

proof fn keyword_is_plain(w: Seq<char>)
    ensures
        keyword(w) matches Some(t) ==> t@ == TokenView::Plain(t),
{
}

proof fn decimal_grows(s: Seq<char>, i: int, j: int)
    requires
        0 <= i <= j <= s.len(),
        forall|k: int| 0 <= k < s.len() ==> is_digit(#[trigger] s[k]),
    ensures
        decimal(s.take(i)) <= decimal(s.take(j)),
    decreases j - i,
{
    if i < j {
        decimal_grows(s, i, j - 1);
        assert(s.take(j).drop_last() =~= s.take(j - 1));
        assert(decimal(s.take(j)) >= decimal(s.take(j - 1)));
    }
}

/// The number that digits stand for, unless it is too large.
fn read_decimal(v: &Vec<char>, from: usize, to: usize) -> (r: Option<i64>)
    requires
        from <= to <= v@.len(),
        forall|k: int| from <= k < to ==> belongs(#[trigger] v@[k], Class::Digit),
    ensures
        match r {
            Some(n) => decimal(v@.subrange(from as int, to as int)) == n,
            None => decimal(v@.subrange(from as int, to as int)) > i64::MAX,
        },
{
    let ghost s = v@.subrange(from as int, to as int);
    let mut n: i64 = 0;
    let mut i: usize = from;
    assert(s.take(0) =~= Seq::empty());
    while i < to
        invariant
            from <= i <= to <= v@.len(),
            s == v@.subrange(from as int, to as int),
            forall|k: int| from <= k < to ==> belongs(#[trigger] v@[k], Class::Digit),
            0 <= n,
            decimal(s.take(i - from)) == n,
        decreases to - i,
    {
        assert(belongs(v@[i as int], Class::Digit));
        let d: i64 = (v[i] as u32 - '0' as u32) as i64;
        proof {
            let t = s.take(i - from + 1);
            assert(t.drop_last() =~= s.take(i - from));
            assert(t.last() == v@[i as int]);
            assert(decimal(t) == n * 10 + d);
            assert forall|k: int| 0 <= k < s.len() implies is_digit(#[trigger] s[k]) by {
                assert(belongs(v@[from + k], Class::Digit));
            }
            decimal_grows(s, i - from + 1, s.len() as int);
            assert(s.take(s.len() as int) =~= s);
        }
        if n > (i64::MAX - d) / 10 {
            return None;
        }
        n = n * 10 + d;
        i += 1;
    }
    assert(s.take(s.len() as int) =~= s);
    Some(n)
}

} // verus!
