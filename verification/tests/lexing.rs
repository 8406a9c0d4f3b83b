use parscript::token::{tokenize, TokenType};

#[test]
fn declaration_tokens() {
    let t = tokenize("var x = 1;").expect("tokens");
    assert_eq!(
        t,
        vec![
            TokenType::Var,
            TokenType::Identifier("x".to_string()),
            TokenType::Equal,
            TokenType::Number("1".to_string()),
            TokenType::Semicolon,
        ]
    );
}

#[test]
fn two_character_operators() {
    let t = tokenize("a <= b != c == d >= e").expect("tokens");
    assert_eq!(t[1], TokenType::LessEqual);
    assert_eq!(t[3], TokenType::BangEqual);
    assert_eq!(t[5], TokenType::EqualEqual);
    assert_eq!(t[7], TokenType::GreaterEqual);
    assert_eq!(t.len(), 9);
}

#[test]
fn single_character_operators() {
    let t = tokenize("! = < > . + - * / % ( ) { } [ ] ,").expect("tokens");
    assert_eq!(
        t,
        vec![
            TokenType::Bang,
            TokenType::Equal,
            TokenType::Less,
            TokenType::Greater,
            TokenType::Dot,
            TokenType::Plus,
            TokenType::Minus,
            TokenType::Star,
            TokenType::Slash,
            TokenType::Percent,
            TokenType::LeftParen,
            TokenType::RightParen,
            TokenType::LeftBrace,
            TokenType::RightBrace,
            TokenType::LeftBracket,
            TokenType::RightBracket,
            TokenType::Comma,
        ]
    );
}

#[test]
fn range_splits_the_numerals() {
    let t = tokenize("1..5").expect("tokens");
    assert_eq!(
        t,
        vec![TokenType::Number("1".to_string()), TokenType::DotDot, TokenType::Number("5".to_string())]
    );
}

#[test]
fn decimal_numeral() {
    let t = tokenize("1.5").expect("tokens");
    assert_eq!(t, vec![TokenType::Number("1.5".to_string())]);
}

#[test]
fn numeral_with_two_dots_fails() {
    assert_eq!(tokenize("1.2.3"), None);
}

#[test]
fn unknown_character_fails() {
    assert_eq!(tokenize("var x = 1 # 2;"), None);
}

#[test]
fn string_literal_runs_to_the_quote() {
    let t = tokenize("print \"hi there\";").expect("tokens");
    assert_eq!(t[1], TokenType::StringLit("hi there".to_string()));
    assert_eq!(t.len(), 3);
}

#[test]
fn unterminated_string_runs_to_the_end() {
    let t = tokenize("\"abc").expect("tokens");
    assert_eq!(t, vec![TokenType::StringLit("abc".to_string())]);
}

#[test]
fn keywords_and_identifiers() {
    let t = tokenize("and or if else while for in print var final true false nil map filter scanl foldl maps _x1")
        .expect("tokens");
    assert_eq!(
        t,
        vec![
            TokenType::And,
            TokenType::Or,
            TokenType::If,
            TokenType::Else,
            TokenType::While,
            TokenType::For,
            TokenType::In,
            TokenType::Print,
            TokenType::Var,
            TokenType::Final,
            TokenType::True,
            TokenType::False,
            TokenType::Nil,
            TokenType::MapKeyword,
            TokenType::Filter,
            TokenType::Scanl,
            TokenType::Foldl,
            TokenType::Identifier("maps".to_string()),
            TokenType::Identifier("_x1".to_string()),
        ]
    );
}

#[test]
fn whitespace_only_gives_no_tokens() {
    assert_eq!(tokenize(" \n\t\r "), Some(vec![]));
    assert_eq!(tokenize(""), Some(vec![]));
}

#[test]
fn surrounding_whitespace_changes_nothing() {
    let plain = tokenize("var x = y1 + 2.5;");
    assert_eq!(tokenize(" \tvar x = y1 + 2.5;\n"), plain);
    assert_eq!(tokenize("\n\n  1..x\r\n"), tokenize("1..x"));
    assert_eq!(tokenize("  #  "), None);
}

#[test]
fn a_word_runs_over_letters_digits_and_underscores() {
    let t = tokenize("ab_1 c").expect("tokens");
    assert_eq!(
        t,
        vec![TokenType::Identifier("ab_1".to_string()), TokenType::Identifier("c".to_string())]
    );
}
