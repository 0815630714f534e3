use rz3::parser::{Lexer, Token};

fn tokens(input: &str) -> Vec<Token> {
    let mut lexer = Lexer::new(input);
    let mut out = Vec::new();
    while let Some(t) = lexer.next_token() {
        out.push(t);
    }
    out
}

#[test]
fn lexes_each_kind_of_token() {
    assert_eq!(
        tokens("(assert (= x #b0101)) ; comment\n:named -7 2.50 \"hi\""),
        vec![
            Token::LParen,
            Token::Symbol("assert".to_string()),
            Token::LParen,
            Token::Symbol("=".to_string()),
            Token::Symbol("x".to_string()),
            Token::BitVec(5, 4),
            Token::RParen,
            Token::RParen,
            Token::Keyword(":named".to_string()),
            Token::Int(-7),
            Token::Real("2.50".to_string()),
            Token::String("hi".to_string()),
        ]
    );
}

#[test]
fn integers_beyond_i64_read_as_zero() {
    assert_eq!(tokens("9223372036854775807"), vec![Token::Int(i64::MAX)]);
    assert_eq!(tokens("-9223372036854775808"), vec![Token::Int(i64::MIN)]);
    assert_eq!(tokens("9223372036854775808"), vec![Token::Int(0)]);
}

#[test]
fn a_lone_hash_is_skipped_and_an_open_string_runs_to_the_end() {
    assert_eq!(tokens("#x1 y"), vec![Token::Int(1), Token::Symbol("y".to_string())]);
    assert_eq!(tokens("\"abc"), vec![Token::String("abc".to_string())]);
}
