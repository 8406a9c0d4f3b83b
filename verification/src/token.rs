//! The lexer: turns the characters of a script into tokens.
//!
//! A number token keeps the text of its numeral; the interpreter reads the
//! numeral's value when it evaluates the literal.

use vstd::prelude::*;
use vstd::string::*;

verus! {

/// A lexical token of the script language.
#[derive(Debug, Clone, PartialEq)]
pub enum TokenType {
    LeftParen,
    RightParen,
    LeftBrace,
    RightBrace,
    LeftBracket,
    RightBracket,
    Comma,
    Dot,
    Minus,
    Plus,
    Semicolon,
    Slash,
    Star,
    Percent,
    Bang,
    BangEqual,
    Equal,
    EqualEqual,
    Greater,
    GreaterEqual,
    Less,
    LessEqual,
    DotDot,
    Identifier(String),
    StringLit(String),
    Number(String),
    And,
    Or,
    If,
    Else,
    While,
    For,
    In,
    Print,
    Var,
    Final,
    True,
    False,
    Nil,
    MapKeyword,
    Filter,
    Scanl,
    Foldl,
}

/// What a token denotes: its kind, and for an identifier, a string literal or a
/// numeral, the characters of its text.
pub enum TokenModel {
    LeftParen,
    RightParen,
    LeftBrace,
    RightBrace,
    LeftBracket,
    RightBracket,
    Comma,
    Dot,
    Minus,
    Plus,
    Semicolon,
    Slash,
    Star,
    Percent,
    Bang,
    BangEqual,
    Equal,
    EqualEqual,
    Greater,
    GreaterEqual,
    Less,
    LessEqual,
    DotDot,
    Identifier(Seq<char>),
    StringLit(Seq<char>),
    Number(Seq<char>),
    And,
    Or,
    If,
    Else,
    While,
    For,
    In,
    Print,
    Var,
    Final,
    True,
    False,
    Nil,
    MapKeyword,
    Filter,
    Scanl,
    Foldl,
}

impl View for TokenType {
    type V = TokenModel;

    open spec fn view(&self) -> TokenModel {
        match self {
            TokenType::LeftParen => TokenModel::LeftParen,
            TokenType::RightParen => TokenModel::RightParen,
            TokenType::LeftBrace => TokenModel::LeftBrace,
            TokenType::RightBrace => TokenModel::RightBrace,
            TokenType::LeftBracket => TokenModel::LeftBracket,
            TokenType::RightBracket => TokenModel::RightBracket,
            TokenType::Comma => TokenModel::Comma,
            TokenType::Dot => TokenModel::Dot,
            TokenType::Minus => TokenModel::Minus,
            TokenType::Plus => TokenModel::Plus,
            TokenType::Semicolon => TokenModel::Semicolon,
            TokenType::Slash => TokenModel::Slash,
            TokenType::Star => TokenModel::Star,
            TokenType::Percent => TokenModel::Percent,
            TokenType::Bang => TokenModel::Bang,
            TokenType::BangEqual => TokenModel::BangEqual,
            TokenType::Equal => TokenModel::Equal,
            TokenType::EqualEqual => TokenModel::EqualEqual,
            TokenType::Greater => TokenModel::Greater,
            TokenType::GreaterEqual => TokenModel::GreaterEqual,
            TokenType::Less => TokenModel::Less,
            TokenType::LessEqual => TokenModel::LessEqual,
            TokenType::DotDot => TokenModel::DotDot,
            TokenType::Identifier(s) => TokenModel::Identifier(s@),
            TokenType::StringLit(s) => TokenModel::StringLit(s@),
            TokenType::Number(s) => TokenModel::Number(s@),
            TokenType::And => TokenModel::And,
            TokenType::Or => TokenModel::Or,
            TokenType::If => TokenModel::If,
            TokenType::Else => TokenModel::Else,
            TokenType::While => TokenModel::While,
            TokenType::For => TokenModel::For,
            TokenType::In => TokenModel::In,
            TokenType::Print => TokenModel::Print,
            TokenType::Var => TokenModel::Var,
            TokenType::Final => TokenModel::Final,
            TokenType::True => TokenModel::True,
            TokenType::False => TokenModel::False,
            TokenType::Nil => TokenModel::Nil,
            TokenType::MapKeyword => TokenModel::MapKeyword,
            TokenType::Filter => TokenModel::Filter,
            TokenType::Scanl => TokenModel::Scanl,
            TokenType::Foldl => TokenModel::Foldl,
        }
    }
}

impl TokenType {
    /// A copy of the token, equal to it.
    pub fn duplicate(&self) -> (r: TokenType)
        ensures
            r == *self,
    {
        match self {
            TokenType::Identifier(s) => TokenType::Identifier(s.clone()),
            TokenType::StringLit(s) => TokenType::StringLit(s.clone()),
            TokenType::Number(s) => TokenType::Number(s.clone()),
            TokenType::LeftParen => TokenType::LeftParen,
            TokenType::RightParen => TokenType::RightParen,
            TokenType::LeftBrace => TokenType::LeftBrace,
            TokenType::RightBrace => TokenType::RightBrace,
            TokenType::LeftBracket => TokenType::LeftBracket,
            TokenType::RightBracket => TokenType::RightBracket,
            TokenType::Comma => TokenType::Comma,
            TokenType::Dot => TokenType::Dot,
            TokenType::Minus => TokenType::Minus,
            TokenType::Plus => TokenType::Plus,
            TokenType::Semicolon => TokenType::Semicolon,
            TokenType::Slash => TokenType::Slash,
            TokenType::Star => TokenType::Star,
            TokenType::Percent => TokenType::Percent,
            TokenType::Bang => TokenType::Bang,
            TokenType::BangEqual => TokenType::BangEqual,
            TokenType::Equal => TokenType::Equal,
            TokenType::EqualEqual => TokenType::EqualEqual,
            TokenType::Greater => TokenType::Greater,
            TokenType::GreaterEqual => TokenType::GreaterEqual,
            TokenType::Less => TokenType::Less,
            TokenType::LessEqual => TokenType::LessEqual,
            TokenType::DotDot => TokenType::DotDot,
            TokenType::And => TokenType::And,
            TokenType::Or => TokenType::Or,
            TokenType::If => TokenType::If,
            TokenType::Else => TokenType::Else,
            TokenType::While => TokenType::While,
            TokenType::For => TokenType::For,
            TokenType::In => TokenType::In,
            TokenType::Print => TokenType::Print,
            TokenType::Var => TokenType::Var,
            TokenType::Final => TokenType::Final,
            TokenType::True => TokenType::True,
            TokenType::False => TokenType::False,
            TokenType::Nil => TokenType::Nil,
            TokenType::MapKeyword => TokenType::MapKeyword,
            TokenType::Filter => TokenType::Filter,
            TokenType::Scanl => TokenType::Scanl,
            TokenType::Foldl => TokenType::Foldl,
        }
    }
}

/// The kind of a token: which variant it is, whatever text it carries.
pub open spec fn token_kind(t: TokenType) -> u8 {
    match t {
            TokenType::LeftParen => 0,
            TokenType::RightParen => 1,
            TokenType::LeftBrace => 2,
            TokenType::RightBrace => 3,
            TokenType::LeftBracket => 4,
            TokenType::RightBracket => 5,
            TokenType::Comma => 6,
            TokenType::Dot => 7,
            TokenType::Minus => 8,
            TokenType::Plus => 9,
            TokenType::Semicolon => 10,
            TokenType::Slash => 11,
            TokenType::Star => 12,
            TokenType::Percent => 13,
            TokenType::Bang => 14,
            TokenType::BangEqual => 15,
            TokenType::Equal => 16,
            TokenType::EqualEqual => 17,
            TokenType::Greater => 18,
            TokenType::GreaterEqual => 19,
            TokenType::Less => 20,
            TokenType::LessEqual => 21,
            TokenType::DotDot => 22,
            TokenType::Identifier(_) => 23,
            TokenType::StringLit(_) => 24,
            TokenType::Number(_) => 25,
            TokenType::And => 26,
            TokenType::Or => 27,
            TokenType::If => 28,
            TokenType::Else => 29,
            TokenType::While => 30,
            TokenType::For => 31,
            TokenType::In => 32,
            TokenType::Print => 33,
            TokenType::Var => 34,
            TokenType::Final => 35,
            TokenType::True => 36,
            TokenType::False => 37,
            TokenType::Nil => 38,
            TokenType::MapKeyword => 39,
            TokenType::Filter => 40,
            TokenType::Scanl => 41,
            TokenType::Foldl => 42,
    }
}

impl TokenType {
    /// The kind of the token.
    pub fn kind(&self) -> (k: u8)
        ensures
            k == token_kind(*self),
    {
        match self {
            TokenType::LeftParen => 0,
            TokenType::RightParen => 1,
            TokenType::LeftBrace => 2,
            TokenType::RightBrace => 3,
            TokenType::LeftBracket => 4,
            TokenType::RightBracket => 5,
            TokenType::Comma => 6,
            TokenType::Dot => 7,
            TokenType::Minus => 8,
            TokenType::Plus => 9,
            TokenType::Semicolon => 10,
            TokenType::Slash => 11,
            TokenType::Star => 12,
            TokenType::Percent => 13,
            TokenType::Bang => 14,
            TokenType::BangEqual => 15,
            TokenType::Equal => 16,
            TokenType::EqualEqual => 17,
            TokenType::Greater => 18,
            TokenType::GreaterEqual => 19,
            TokenType::Less => 20,
            TokenType::LessEqual => 21,
            TokenType::DotDot => 22,
            TokenType::Identifier(_) => 23,
            TokenType::StringLit(_) => 24,
            TokenType::Number(_) => 25,
            TokenType::And => 26,
            TokenType::Or => 27,
            TokenType::If => 28,
            TokenType::Else => 29,
            TokenType::While => 30,
            TokenType::For => 31,
            TokenType::In => 32,
            TokenType::Print => 33,
            TokenType::Var => 34,
            TokenType::Final => 35,
            TokenType::True => 36,
            TokenType::False => 37,
            TokenType::Nil => 38,
            TokenType::MapKeyword => 39,
            TokenType::Filter => 40,
            TokenType::Scanl => 41,
            TokenType::Foldl => 42,
        }
    }
}

// ---------------------------------------------------------------------------
// Character classes

// ---------------------------------------------------------------------------

pub open spec fn is_space(c: char) -> bool {
    c == ' ' || c == '\n' || c == '\r' || c == '\t'
}

pub open spec fn is_digit(c: char) -> bool {
    '0' <= c && c <= '9'
}

pub open spec fn is_ascii_letter(c: char) -> bool {
    ('a' <= c && c <= 'z') || ('A' <= c && c <= 'Z')
}

/// A character that can start an identifier or a keyword.
pub open spec fn is_word_start(c: char) -> bool {
    is_ascii_letter(c) || c == '_'
}

/// What `char::is_alphanumeric` answers for a character (the Unicode
/// `Alphabetic` or `Numeric` property).
pub uninterp spec fn char_is_alphanumeric(c: char) -> bool;

/// A character that can continue an identifier or a keyword: `_`, or an
/// alphanumeric character, which among ASCII characters is a letter or a digit.
pub open spec fn is_word_char(c: char) -> bool {
    if (c as u32) < 128 {
        is_ascii_letter(c) || is_digit(c) || c == '_'
    } else {
        char_is_alphanumeric(c)
    }
}

/// Calls `char::is_alphanumeric`. The contract names its result
/// `char_is_alphanumeric`, and states that on ASCII characters it holds exactly
/// of the letters and the digits.
#[verifier::external_body]
fn is_alphanumeric(c: char) -> (r: bool)
    ensures
        r == char_is_alphanumeric(c),
        (c as u32) < 128 ==> (r <==> (is_ascii_letter(c) || is_digit(c))),
{
    c.is_alphanumeric()
}

/// Calls `str::chars` and collects the characters; the contract states that
/// they are the characters of the string, in order.
#[verifier::external_body]
fn chars_of(s: &str) -> (r: Vec<char>)
    ensures
        r@ == s@,
{
    s.chars().collect()
}

/// Collects characters into a `String`; the contract states that the string
/// holds exactly these characters, in order.
#[verifier::external_body]
pub(crate) fn string_from_chars(v: &[char]) -> (r: String)
    ensures
        r@ == v@,
{
    v.iter().collect()
}

// ---------------------------------------------------------------------------
// The lexical grammar
// ---------------------------------------------------------------------------

/// The token that a single character stands for, where it stands alone.
pub open spec fn single_char_token(c: char) -> Option<TokenModel> {
    if c == '(' {
        Some(TokenModel::LeftParen)
    } else if c == ')' {
        Some(TokenModel::RightParen)
    } else if c == '{' {
        Some(TokenModel::LeftBrace)
    } else if c == '}' {
        Some(TokenModel::RightBrace)
    } else if c == '[' {
        Some(TokenModel::LeftBracket)
    } else if c == ']' {
        Some(TokenModel::RightBracket)
    } else if c == ',' {
        Some(TokenModel::Comma)
    } else if c == '+' {
        Some(TokenModel::Plus)
    } else if c == '-' {
        Some(TokenModel::Minus)
    } else if c == '*' {
        Some(TokenModel::Star)
    } else if c == '/' {
        Some(TokenModel::Slash)
    } else if c == ';' {
        Some(TokenModel::Semicolon)
    } else if c == '%' {
        Some(TokenModel::Percent)
    } else {
        None
    }
}

/// The end of the numeral that continues at `j`: digits, and dots that are not
/// the first of a `..`.
pub open spec fn numeral_end(s: Seq<char>, j: int) -> int
    decreases s.len() - j,
{
    if 0 <= j < s.len() && (is_digit(s[j]) || (s[j] == '.' && !(j + 1 < s.len() && s[j + 1]
        == '.'))) {
        numeral_end(s, j + 1)
    } else {
        j
    }
}

/// The index of the first `"` at or after `j`, or the end of the text.
pub open spec fn quote_end(s: Seq<char>, j: int) -> int
    decreases s.len() - j,
{
    if 0 <= j < s.len() && s[j] != '"' {
        quote_end(s, j + 1)
    } else {
        j
    }
}

/// The end of the word that continues at `j`.
pub open spec fn word_end(s: Seq<char>, j: int) -> int
    decreases s.len() - j,
{
    if 0 <= j < s.len() && is_word_char(s[j]) {
        word_end(s, j + 1)
    } else {
        j
    }
}

/// A numeral reads as a number when it holds at most one dot.
pub open spec fn numeral_is_valid(t: Seq<char>) -> bool {
    forall|a: int, b: int| 0 <= a < b < t.len() ==> !(t[a] == '.' && t[b] == '.')
}

/// The token that a word stands for: a keyword, or else an identifier.
pub open spec fn word_token(w: Seq<char>) -> TokenModel {
    if w == "and"@ {
        TokenModel::And
    } else if w == "or"@ {
        TokenModel::Or
    } else if w == "if"@ {
        TokenModel::If
    } else if w == "else"@ {
        TokenModel::Else
    } else if w == "while"@ {
        TokenModel::While
    } else if w == "for"@ {
        TokenModel::For
    } else if w == "in"@ {
        TokenModel::In
    } else if w == "print"@ {
        TokenModel::Print
    } else if w == "var"@ {
        TokenModel::Var
    } else if w == "final"@ {
        TokenModel::Final
    } else if w == "true"@ {
        TokenModel::True
    } else if w == "false"@ {
        TokenModel::False
    } else if w == "nil"@ {
        TokenModel::Nil
    } else if w == "map"@ {
        TokenModel::MapKeyword
    } else if w == "filter"@ {
        TokenModel::Filter
    } else if w == "scanl"@ {
        TokenModel::Scanl
    } else if w == "foldl"@ {
        TokenModel::Foldl
    } else {
        TokenModel::Identifier(w)
    }
}

/// The token that `c` followed by an optional `=` stands for.
pub open spec fn with_equal(s: Seq<char>, i: int, alone: TokenModel, joined: TokenModel) -> (
    Option<TokenModel>,
    int,
) {
    if i + 1 < s.len() && s[i + 1] == '=' {
        (Some(joined), i + 2)
    } else {
        (Some(alone), i + 1)
    }
}

/// One step of the lexer at index `i`: the token read there (none for
/// whitespace) and the index after it, or `None` where the text cannot be read.
pub open spec fn lex_step(s: Seq<char>, i: int) -> Option<(Option<TokenModel>, int)> {
    let c = s[i];
    if is_space(c) {
        Some((None, i + 1))
    } else if single_char_token(c) is Some {
        Some((single_char_token(c), i + 1))
    } else if c == '.' {
        if i + 1 < s.len() && s[i + 1] == '.' {
            Some((Some(TokenModel::DotDot), i + 2))
        } else {
            Some((Some(TokenModel::Dot), i + 1))
        }
    } else if c == '!' {
        Some(with_equal(s, i, TokenModel::Bang, TokenModel::BangEqual))
    } else if c == '=' {
        Some(with_equal(s, i, TokenModel::Equal, TokenModel::EqualEqual))
    } else if c == '<' {
        Some(with_equal(s, i, TokenModel::Less, TokenModel::LessEqual))
    } else if c == '>' {
        Some(with_equal(s, i, TokenModel::Greater, TokenModel::GreaterEqual))
    } else if c == '"' {
        let e = quote_end(s, i + 1);
        Some(
            (
                Some(TokenModel::StringLit(s.subrange(i + 1, e))),
                if e < s.len() {
                    e + 1
                } else {
                    e
                },
            ),
        )
    } else if is_digit(c) {
        let e = numeral_end(s, i);
        if numeral_is_valid(s.subrange(i, e)) {
            Some((Some(TokenModel::Number(s.subrange(i, e))), e))
        } else {
            None
        }
    } else if is_word_start(c) {
        let e = word_end(s, i + 1);
        Some((Some(word_token(s.subrange(i, e))), e))
    } else {
        None
    }
}

/// The tokens of `s` from index `i` on, or `None` where some part of the text
/// cannot be read.
pub open spec fn lex_from(s: Seq<char>, i: int) -> Option<Seq<TokenModel>>
    decreases s.len() - i,
{
    if i < 0 || i >= s.len() {
        Some(Seq::empty())
    } else {
        match lex_step(s, i) {
            None => None,
            Some((t, j)) => {
                if i < j <= s.len() {
                    match lex_from(s, j) {
                        None => None,
                        Some(rest) => match t {
                            Some(tok) => Some(seq![tok] + rest),
                            None => Some(rest),
                        },
                    }
                } else {
                    None
                }
            },
        }
    }
}

/// The tokens of a whole text.
pub open spec fn lex(s: Seq<char>) -> Option<Seq<TokenModel>> {
    lex_from(s, 0)
}

// ---------------------------------------------------------------------------
// Properties of the lexical grammar
// ---------------------------------------------------------------------------

proof fn lemma_numeral_end_bounds(s: Seq<char>, j: int)
    requires
        0 <= j <= s.len(),
    ensures
        j <= numeral_end(s, j) <= s.len(),
    decreases s.len() - j,
{
    if j < s.len() && (is_digit(s[j]) || (s[j] == '.' && !(j + 1 < s.len() && s[j + 1] == '.'))) {
        lemma_numeral_end_bounds(s, j + 1);
    }
}

proof fn lemma_quote_end_bounds(s: Seq<char>, j: int)
    requires
        0 <= j <= s.len(),
    ensures
        j <= quote_end(s, j) <= s.len(),
        quote_end(s, j) < s.len() ==> s[quote_end(s, j)] == '"',
    decreases s.len() - j,
{
    if j < s.len() && s[j] != '"' {
        lemma_quote_end_bounds(s, j + 1);
    }
}

proof fn lemma_word_end_bounds(s: Seq<char>, j: int)
    requires
        0 <= j <= s.len(),
    ensures
        j <= word_end(s, j) <= s.len(),
    decreases s.len() - j,
{
    if j < s.len() && is_word_char(s[j]) {
        lemma_word_end_bounds(s, j + 1);
    }
}

/// Every character of `w` is whitespace.
pub open spec fn all_space(w: Seq<char>) -> bool {
    forall|i: int| 0 <= i < w.len() ==> is_space(#[trigger] w[i])
}

/// `s` holds no `"`.
pub open spec fn no_quote(s: Seq<char>) -> bool {
    forall|i: int| 0 <= i < s.len() ==> #[trigger] s[i] != '"'
}

proof fn lemma_numeral_end_shift(p: Seq<char>, s: Seq<char>, j: int)
    requires
        0 <= j <= s.len(),
    ensures
        numeral_end(p + s, p.len() + j) == p.len() + numeral_end(s, j),
    decreases s.len() - j,
{
    let u = p + s;
    if j < s.len() {
        assert(u[p.len() + j] == s[j]);
        if j + 1 < s.len() {
            assert(u[p.len() + j + 1] == s[j + 1]);
        }
        lemma_numeral_end_shift(p, s, j + 1);
    }
}

proof fn lemma_word_end_shift(p: Seq<char>, s: Seq<char>, j: int)
    requires
        0 <= j <= s.len(),
    ensures
        word_end(p + s, p.len() + j) == p.len() + word_end(s, j),
    decreases s.len() - j,
{
    let u = p + s;
    if j < s.len() {
        assert(u[p.len() + j] == s[j]);
        lemma_word_end_shift(p, s, j + 1);
    }
}

proof fn lemma_quote_end_shift(p: Seq<char>, s: Seq<char>, j: int)
    requires
        0 <= j <= s.len(),
    ensures
        quote_end(p + s, p.len() + j) == p.len() + quote_end(s, j),
    decreases s.len() - j,
{
    let u = p + s;
    if j < s.len() {
        assert(u[p.len() + j] == s[j]);
        lemma_quote_end_shift(p, s, j + 1);
    }
}

/// A step of the lexer reads the same after any prefix.
proof fn lemma_lex_step_shift(p: Seq<char>, s: Seq<char>, i: int)
    requires
        0 <= i < s.len(),
    ensures
        lex_step(p + s, p.len() + i) == match lex_step(s, i) {
            None => None,
            Some((t, j)) => Some((t, p.len() + j)),
        },
{
    let u = p + s;
    let k = p.len() + i;
    assert(u[k] == s[i]);
    if i + 1 < s.len() {
        assert(u[k + 1] == s[i + 1]);
    }
    lemma_numeral_end_shift(p, s, i);
    lemma_numeral_end_bounds(s, i);
    lemma_word_end_shift(p, s, i + 1);
    lemma_word_end_bounds(s, i + 1);
    lemma_quote_end_shift(p, s, i + 1);
    lemma_quote_end_bounds(s, i + 1);
    assert(u.subrange(k, p.len() + numeral_end(s, i)) =~= s.subrange(i, numeral_end(s, i)));
    assert(u.subrange(k, p.len() + word_end(s, i + 1)) =~= s.subrange(i, word_end(s, i + 1)));
    assert(u.subrange(k + 1, p.len() + quote_end(s, i + 1)) =~= s.subrange(i + 1, quote_end(s, i + 1)));
}

/// The lexer reads the same after any prefix.
proof fn lemma_lex_from_shift(p: Seq<char>, s: Seq<char>, i: int)
    requires
        0 <= i <= s.len(),
    ensures
        lex_from(p + s, p.len() + i) == lex_from(s, i),
    decreases s.len() - i,
{
    if i < s.len() {
        lemma_lex_step_shift(p, s, i);
        lemma_lex_step_advances(s, i);
        if let Some((t, j)) = lex_step(s, i) {
            lemma_lex_from_shift(p, s, j);
        }
    }
}

/// Whitespace from `i` to `k` is skipped.
proof fn lemma_skip_space(u: Seq<char>, i: int, k: int)
    requires
        0 <= i <= k <= u.len(),
        forall|x: int| i <= x < k ==> is_space(#[trigger] u[x]),
    ensures
        lex_from(u, i) == lex_from(u, k),
    decreases k - i,
{
    if i < k {
        lemma_skip_space(u, i + 1, k);
    }
}

/// A step of the lexer within a text without `"` reads the same where
/// whitespace follows the text.
proof fn lemma_lex_step_suffix(s: Seq<char>, w: Seq<char>, i: int)
    requires
        0 <= i < s.len(),
        all_space(w),
        no_quote(s),
    ensures
        lex_step(s + w, i) == lex_step(s, i),
{
    let t = s + w;
    assert(t[i] == s[i]);
    assert(s[i] != '"');
    if i + 1 < s.len() {
        assert(t[i + 1] == s[i + 1]);
    } else if w.len() > 0 {
        assert(t[i + 1] == w[0]);
        assert(is_space(w[0]));
    }
    lemma_numeral_end_suffix(s, w, i);
    lemma_numeral_end_bounds(s, i);
    lemma_word_end_suffix(s, w, i + 1);
    lemma_word_end_bounds(s, i + 1);
    assert(t.subrange(i, numeral_end(s, i)) =~= s.subrange(i, numeral_end(s, i)));
    assert(t.subrange(i, word_end(s, i + 1)) =~= s.subrange(i, word_end(s, i + 1)));
}

proof fn lemma_numeral_end_suffix(s: Seq<char>, w: Seq<char>, j: int)
    requires
        0 <= j <= s.len(),
        all_space(w),
    ensures
        numeral_end(s + w, j) == numeral_end(s, j),
    decreases s.len() - j,
{
    let t = s + w;
    if j < s.len() {
        assert(t[j] == s[j]);
        if j + 1 < s.len() {
            assert(t[j + 1] == s[j + 1]);
        } else if w.len() > 0 {
            assert(t[j + 1] == w[0]);
            assert(is_space(w[0]));
        }
        lemma_numeral_end_suffix(s, w, j + 1);
    } else if w.len() > 0 {
        assert(t[j] == w[0]);
        assert(is_space(w[0]));
    }
}

proof fn lemma_word_end_suffix(s: Seq<char>, w: Seq<char>, j: int)
    requires
        0 <= j <= s.len(),
        all_space(w),
    ensures
        word_end(s + w, j) == word_end(s, j),
    decreases s.len() - j,
{
    let t = s + w;
    if j < s.len() {
        assert(t[j] == s[j]);
        lemma_word_end_suffix(s, w, j + 1);
    } else if w.len() > 0 {
        assert(t[j] == w[0]);
        assert(is_space(w[0]));
    }
}

/// The lexer reads a text without `"` the same where whitespace follows it.
proof fn lemma_lex_from_suffix(s: Seq<char>, w: Seq<char>, i: int)
    requires
        0 <= i <= s.len(),
        all_space(w),
        no_quote(s),
    ensures
        lex_from(s + w, i) == lex_from(s, i),
    decreases s.len() - i,
{
    let t = s + w;
    if i < s.len() {
        lemma_lex_step_suffix(s, w, i);
        lemma_lex_step_advances(s, i);
        if let Some((tok, j)) = lex_step(s, i) {
            lemma_lex_from_suffix(s, w, j);
        }
    } else {
        assert forall|x: int| s.len() <= x < t.len() implies is_space(#[trigger] t[x]) by {
            assert(t[x] == w[x - s.len()]);
        }
        lemma_skip_space(t, i, t.len() as int);
    }
}

/// Whitespace before and after a text that holds no `"` changes neither its
/// tokens nor whether it can be read. (Where the text holds a `"`, a string
/// literal left open would take in the whitespace after it.)
pub proof fn law_surrounding_whitespace(pre: Seq<char>, s: Seq<char>, post: Seq<char>)
    requires
        all_space(pre),
        all_space(post),
        no_quote(s),
    ensures
        lex(pre + s + post) == lex(s),
{
    let u = pre + (s + post);
    assert(pre + s + post =~= u);
    assert forall|x: int| 0 <= x < pre.len() implies is_space(#[trigger] u[x]) by {
        assert(u[x] == pre[x]);
    }
    lemma_skip_space(u, 0, pre.len() as int);
    lemma_lex_from_shift(pre, s + post, 0);
    lemma_lex_from_suffix(s, post, 0);
}

/// Every step of the lexer moves forward and stays within the text.
proof fn lemma_lex_step_advances(s: Seq<char>, i: int)
    requires
        0 <= i < s.len(),
    ensures
        lex_step(s, i) matches Some((_, j)) ==> i < j <= s.len(),
{
    lemma_numeral_end_bounds(s, i);
    lemma_quote_end_bounds(s, i + 1);
    lemma_word_end_bounds(s, i + 1);
    if is_digit(s[i]) {
        assert(numeral_end(s, i) == numeral_end(s, i + 1));
        lemma_numeral_end_bounds(s, i + 1);
    }
}

// ---------------------------------------------------------------------------
// The lexer
// ---------------------------------------------------------------------------

fn scan_numeral(s: &Vec<char>, start: usize) -> (e: usize)
    requires
        start <= s.len(),
    ensures
        e as int == numeral_end(s@, start as int),
{
    let mut j = start;
    while j < s.len() && (('0' <= s[j] && s[j] <= '9') || (s[j] == '.' && !(j + 1 < s.len() && s[j
        + 1] == '.')))
        invariant
            start <= j <= s.len(),
            numeral_end(s@, start as int) == numeral_end(s@, j as int),
        decreases s.len() - j,
    {
        j = j + 1;
    }
    j
}

fn scan_quote(s: &Vec<char>, start: usize) -> (e: usize)
    requires
        start <= s.len(),
    ensures
        e as int == quote_end(s@, start as int),
{
    let mut j = start;
    while j < s.len() && s[j] != '"'
        invariant
            start <= j <= s.len(),
            quote_end(s@, start as int) == quote_end(s@, j as int),
        decreases s.len() - j,
    {
        j = j + 1;
    }
    j
}

fn scan_word(s: &Vec<char>, start: usize) -> (e: usize)
    requires
        start <= s.len(),
    ensures
        e as int == word_end(s@, start as int),
{
    let mut j = start;
    while j < s.len() && (is_alphanumeric(s[j]) || s[j] == '_')
        invariant
            start <= j <= s.len(),
            word_end(s@, start as int) == word_end(s@, j as int),
        decreases s.len() - j,
    {
        j = j + 1;
    }
    j
}

/// Whether the numeral `s[start..end]` holds at most one dot.
fn check_numeral(s: &Vec<char>, start: usize, end: usize) -> (ok: bool)
    requires
        start <= end <= s.len(),
    ensures
        ok == numeral_is_valid(s@.subrange(start as int, end as int)),
{
    let ghost t = s@.subrange(start as int, end as int);
    let mut seen_dot = false;
    let mut k = start;
    while k < end
        invariant
            start <= k <= end <= s.len(),
            t == s@.subrange(start as int, end as int),
            seen_dot <==> exists|a: int| 0 <= a < k - start && t[a] == '.',
            forall|a: int, b: int| 0 <= a < b < k - start ==> !(t[a] == '.' && t[b] == '.'),
        decreases end - k,
    {
        if s[k] == '.' {
            if seen_dot {
                assert(t[k - start] == '.');
                let ghost a = choose|a: int| 0 <= a < k - start && t[a] == '.';
                assert(!numeral_is_valid(t)) by {
                    assert(0 <= a < k - start < t.len() && t[a] == '.' && t[k - start] == '.');
                }
                return false;
            }
            seen_dot = true;
            assert(t[k - start] == '.');
        }
        k = k + 1;
    }
    true
}

/// Whether the characters `s[start..end]` spell the string `w`.
fn spells(s: &Vec<char>, start: usize, end: usize, w: &str) -> (r: bool)
    requires
        start <= end <= s.len(),
    ensures
        r == (s@.subrange(start as int, end as int) == w@),
{
    let n = w.unicode_len();
    if end - start != n {
        return false;
    }
    let mut k: usize = 0;
    while k < n
        invariant
            start <= end <= s.len(),
            end - start == n,
            n == w@.len(),
            k <= n,
            forall|a: int| 0 <= a < k ==> s@[start + a] == w@[a],
        decreases n - k,
    {
        if s[start + k] != w.get_char(k) {
            assert(s@.subrange(start as int, end as int)[k as int] != w@[k as int]);
            return false;
        }
        k = k + 1;
    }
    assert(s@.subrange(start as int, end as int) =~= w@);
    true
}

/// The token that the word `s[start..end]` stands for.
fn read_word(s: &Vec<char>, start: usize, end: usize) -> (t: TokenType)
    requires
        start <= end <= s.len(),
    ensures
        t@ == word_token(s@.subrange(start as int, end as int)),
{
    if spells(s, start, end, "and") {
        TokenType::And
    } else if spells(s, start, end, "or") {
        TokenType::Or
    } else if spells(s, start, end, "if") {
        TokenType::If
    } else if spells(s, start, end, "else") {
        TokenType::Else
    } else if spells(s, start, end, "while") {
        TokenType::While
    } else if spells(s, start, end, "for") {
        TokenType::For
    } else if spells(s, start, end, "in") {
        TokenType::In
    } else if spells(s, start, end, "print") {
        TokenType::Print
    } else if spells(s, start, end, "var") {
        TokenType::Var
    } else if spells(s, start, end, "final") {
        TokenType::Final
    } else if spells(s, start, end, "true") {
        TokenType::True
    } else if spells(s, start, end, "false") {
        TokenType::False
    } else if spells(s, start, end, "nil") {
        TokenType::Nil
    } else if spells(s, start, end, "map") {
        TokenType::MapKeyword
    } else if spells(s, start, end, "filter") {
        TokenType::Filter
    } else if spells(s, start, end, "scanl") {
        TokenType::Scanl
    } else if spells(s, start, end, "foldl") {
        TokenType::Foldl
    } else {
        TokenType::Identifier(string_from_chars(slice_of(s, start, end)))
    }
}

/// The characters `s[start..end]`.
fn slice_of(s: &Vec<char>, start: usize, end: usize) -> (r: &[char])
    requires
        start <= end <= s.len(),
    ensures
        r@ == s@.subrange(start as int, end as int),
{
    vstd::slice::slice_subrange(s.as_slice(), start, end)
}

/// Reads one token at index `i`, as `lex_step` does.
fn step(s: &Vec<char>, i: usize) -> (r: Option<(Option<TokenType>, usize)>)
    requires
        i < s.len(),
    ensures
        match r {
            None => lex_step(s@, i as int) is None,
            Some((t, j)) => lex_step(s@, i as int) == Some(
                (
                    match t {
                        Some(tok) => Some(tok@),
                        None => None::<TokenModel>,
                    },
                    j as int,
                ),
            ),
        },
{
    let c = s[i];
    let next_is = |d: char| -> (b: bool)
        ensures
            b == (i + 1 < s.len() && s@[i + 1] == d),
        { i + 1 < s.len() && s[i + 1] == d };
    if c == ' ' || c == '\n' || c == '\r' || c == '\t' {
        return Some((None, i + 1));
    }
    let single = if c == '(' {
        Some(TokenType::LeftParen)
    } else if c == ')' {
        Some(TokenType::RightParen)
    } else if c == '{' {
        Some(TokenType::LeftBrace)
    } else if c == '}' {
        Some(TokenType::RightBrace)
    } else if c == '[' {
        Some(TokenType::LeftBracket)
    } else if c == ']' {
        Some(TokenType::RightBracket)
    } else if c == ',' {
        Some(TokenType::Comma)
    } else if c == '+' {
        Some(TokenType::Plus)
    } else if c == '-' {
        Some(TokenType::Minus)
    } else if c == '*' {
        Some(TokenType::Star)
    } else if c == '/' {
        Some(TokenType::Slash)
    } else if c == ';' {
        Some(TokenType::Semicolon)
    } else if c == '%' {
        Some(TokenType::Percent)
    } else {
        None
    };
    if let Some(tok) = single {
        return Some((Some(tok), i + 1));
    }
    if c == '.' {
        if next_is('.') {
            Some((Some(TokenType::DotDot), i + 2))
        } else {
            Some((Some(TokenType::Dot), i + 1))
        }
    } else if c == '!' {
        if next_is('=') {
            Some((Some(TokenType::BangEqual), i + 2))
        } else {
            Some((Some(TokenType::Bang), i + 1))
        }
    } else if c == '=' {
        if next_is('=') {
            Some((Some(TokenType::EqualEqual), i + 2))
        } else {
            Some((Some(TokenType::Equal), i + 1))
        }
    } else if c == '<' {
        if next_is('=') {
            Some((Some(TokenType::LessEqual), i + 2))
        } else {
            Some((Some(TokenType::Less), i + 1))
        }
    } else if c == '>' {
        if next_is('=') {
            Some((Some(TokenType::GreaterEqual), i + 2))
        } else {
            Some((Some(TokenType::Greater), i + 1))
        }
    } else if c == '"' {
        let e = scan_quote(s, i + 1);
        proof {
            lemma_quote_end_bounds(s@, i + 1);
        }
        let text = string_from_chars(slice_of(s, i + 1, e));
        let next = if e < s.len() {
            e + 1
        } else {
            e
        };
        Some((Some(TokenType::StringLit(text)), next))
    } else if '0' <= c && c <= '9' {
        let e = scan_numeral(s, i);
        proof {
            lemma_numeral_end_bounds(s@, i as int);
        }
        if check_numeral(s, i, e) {
            Some((Some(TokenType::Number(string_from_chars(slice_of(s, i, e)))), e))
        } else {
            None
        }
    } else if ('a' <= c && c <= 'z') || ('A' <= c && c <= 'Z') || c == '_' {
        let e = scan_word(s, i + 1);
        proof {
            lemma_word_end_bounds(s@, i + 1);
        }
        Some((Some(read_word(s, i, e)), e))
    } else {
        None
    }
}

/// Splits a script into tokens.
///
/// Whitespace separates tokens; `..`, `!=`, `==`, `<=` and `>=` are read as one
/// token each; a string literal runs to the next `"` (or to the end of the
/// text); a numeral is a run of digits and dots that stops before a `..`; a
/// word is a letter or `_` followed by alphanumeric characters and `_`, and is a
/// keyword where it spells one. The result is `None` exactly where the text
/// holds a character that starts no token, or a numeral with two dots.
pub fn tokenize(input: &str) -> (res: Option<Vec<TokenType>>)
    ensures
        match res {
            None => lex(input@) is None,
            Some(v) => lex(input@) == Some(v@.map_values(|t: TokenType| t@)),
        },
{
    let s = chars_of(input);
    let mut tokens: Vec<TokenType> = Vec::new();
    let mut i: usize = 0;
    while i < s.len()
        invariant
            s@ == input@,
            i <= s.len(),
            lex_from(s@, 0) == match lex_from(s@, i as int) {
                None => None,
                Some(rest) => Some(tokens@.map_values(|t: TokenType| t@) + rest),
            },
        decreases s.len() - i,
    {
        proof {
            lemma_lex_step_advances(s@, i as int);
        }
        let ghost before = tokens@.map_values(|t: TokenType| t@);
        match step(&s, i) {
            None => {
                return None;
            },
            Some((t, j)) => {
                match t {
                    Some(tok) => {
                        tokens.push(tok);
                        assert(tokens@.map_values(|t: TokenType| t@) =~= before + seq![
                            tokens@.last()@,
                        ]);
                    },
                    None => {},
                }
                proof {
                    match lex_from(s@, j as int) {
                        None => {},
                        Some(rest) => {
                            assert(tokens@.map_values(|t: TokenType| t@) + rest =~= before + (
                            match lex_from(s@, i as int) {
                                Some(r) => r,
                                None => rest,
                            }));
                        },
                    }
                }
                i = j;
            },
        }
    }
    assert(tokens@.map_values(|t: TokenType| t@) + Seq::<TokenModel>::empty() =~= tokens@.map_values(
        |t: TokenType| t@,
    ));
    Some(tokens)
}

} // verus!
