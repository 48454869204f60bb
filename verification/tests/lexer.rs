//! From characters to tokens.
use sakuradb::sql::lexer::{LexError, Lexer, Token};

fn tokenize(input: &str) -> Result<Vec<Token>, LexError> {
    let mut lexer = Lexer::new(input);
    lexer.tokenize()
}

#[test]
fn test_keywords() {
    let tokens = tokenize(
        "SELECT FROM WHERE INSERT INTO VALUES UPDATE SET DELETE CREATE DROP TABLE INDEX ON",
    )
    .unwrap();
    assert_eq!(
        tokens,
        vec![
            Token::Select,
            Token::From,
            Token::Where,
            Token::Insert,
            Token::Into,
            Token::Values,
            Token::Update,
            Token::SetKeyword,
            Token::Delete,
            Token::Create,
            Token::Drop,
            Token::Table,
            Token::Index,
            Token::On,
        ]
    );
}

#[test]
fn test_data_types() {
    let tokens = tokenize("INTEGER FLOAT TEXT BOOLEAN").unwrap();
    assert_eq!(
        tokens,
        vec![Token::Integer, Token::Float, Token::Text, Token::Boolean,]
    );
}

#[test]
fn test_bool_and_null() {
    let tokens = tokenize("TRUE FALSE NULL").unwrap();
    assert_eq!(tokens, vec![Token::True, Token::False, Token::Null,]);
}

#[test]
fn test_identifiers() {
    let tokens = tokenize("users id name age _private hello123").unwrap();
    assert_eq!(
        tokens,
        vec![
            Token::Identifier("users".into()),
            Token::Identifier("id".into()),
            Token::Identifier("name".into()),
            Token::Identifier("age".into()),
            Token::Identifier("_private".into()),
            Token::Identifier("hello123".into()),
        ]
    );
}

#[test]
fn test_numbers() {
    let tokens = tokenize("42 0 100 3.14 0.5").unwrap();
    assert_eq!(
        tokens,
        vec![
            Token::IntLiteral(42),
            Token::IntLiteral(0),
            Token::IntLiteral(100),
            Token::FloatLiteral("3.14".into()),
            Token::FloatLiteral("0.5".into()),
        ]
    );
}

#[test]
fn test_strings() {
    let tokens = tokenize("'hello' '' 'hello world'").unwrap();
    assert_eq!(
        tokens,
        vec![
            Token::StringLiteral("hello".into()),
            Token::StringLiteral("".into()),
            Token::StringLiteral("hello world".into()),
        ]
    );
}

#[test]
fn test_operators() {
    let tokens = tokenize("= != > < >= <=").unwrap();
    assert_eq!(
        tokens,
        vec![
            Token::Eq,
            Token::Ne,
            Token::Gt,
            Token::Lt,
            Token::Ge,
            Token::Le,
        ]
    );
}

#[test]
fn test_punctuation() {
    let tokens = tokenize(", ( ) * ;").unwrap();
    assert_eq!(
        tokens,
        vec![
            Token::Comma,
            Token::LParen,
            Token::RParen,
            Token::Star,
            Token::Semicolon,
        ]
    );
}

#[test]
fn test_whitespace() {
    let a = tokenize("SELECT 1").unwrap();
    let b = tokenize("SELECT\t\t1").unwrap();
    let c = tokenize("SELECT\n\n1").unwrap();
    assert_eq!(a, b);
    assert_eq!(a, c);
}

#[test]
fn test_error_bare_exclamation() {
    assert!(tokenize("SELECT !").is_err());
}

#[test]
fn test_error_unterminated_string() {
    assert!(tokenize("'hello").is_err());
}

#[test]
fn test_error_unexpected_char() {
    assert!(tokenize("SELECT @").is_err());
}

#[test]
fn errors_say_what_and_where() {
    assert_eq!(tokenize("SELECT @"), Err(LexError::Unexpected { found: '@', at: 7 }));
    assert_eq!(tokenize("a !b"), Err(LexError::Unexpected { found: '!', at: 2 }));
    assert_eq!(tokenize("'abc"), Err(LexError::UnterminatedString));
    assert_eq!(tokenize("1 9223372036854775808"), Err(LexError::IntegerTooLarge { at: 2 }));
    assert_eq!(tokenize("9223372036854775807"), Ok(vec![Token::IntLiteral(i64::MAX)]));
    assert_eq!(tokenize("1."), Err(LexError::Unexpected { found: '.', at: 1 }));
    assert_eq!(tokenize("é"), Err(LexError::Unexpected { found: 'é', at: 0 }));
}

#[test]
fn any_space_separates_tokens() {
    let plain = tokenize("INSERT>=1 'a b'").unwrap();
    assert_eq!(tokenize("\u{3000}insert\u{a0}>=\r\n1\u{2029}'a b'\t").unwrap(), plain);
    assert_eq!(tokenize("int INT Integer").unwrap(), vec![Token::Integer, Token::Integer, Token::Integer]);
    assert_eq!(tokenize("selects 12ab").unwrap(), vec![
        Token::Identifier("selects".into()),
        Token::IntLiteral(12),
        Token::Identifier("ab".into()),
    ]);
}

#[test]
fn a_word_is_as_long_as_it_can_be() {
    let tokens = tokenize("_x9 selecT selects select_ 1a").unwrap();
    let name = |w: &str| Token::Identifier(w.to_string());
    assert_eq!(
        format!("{:?}", tokens),
        format!(
            "{:?}",
            vec![
                name("_x9"),
                Token::Select,
                name("selects"),
                name("select_"),
                Token::IntLiteral(1),
                name("a"),
            ]
        )
    );
}
