//! The token model: token kinds, tokens and source positions.
use vstd::prelude::*;

verus! {

/// A place in the source text.
///
/// `offset` counts characters (not bytes) from the start of the text;
/// `line` starts at 1 and `column` at 0.
#[derive(Debug, Clone, Copy, PartialEq, Eq, Structural)]
pub struct Position {
    pub line: usize,
    pub column: usize,
    pub offset: usize,
}

impl Position {
    pub fn new(line: usize, column: usize, offset: usize) -> (r: Position)
        ensures
            r == (Position { line, column, offset }),
    {
        Position { line, column, offset }
    }
}

/// The kind of a token, with its payload where it has one.
///
/// `String`, `Ident` and `Float` borrow their text from the source; `Float`
/// holds the literal exactly as written (digits with one decimal point).
#[derive(Debug, Clone, Copy, PartialEq, Eq)]
pub enum TokenType<'a> {
    RParen,
    LParen,
    RBrace,
    LBrace,
    RBracket,
    LBracket,
    Percent,
    Plus,
    Minus,
    Slash,
    Asterisk,
    Equal,
    DoubleEqual,
    Bang,
    BangEqual,
    Period,
    Semicolon,
    Ampersand,
    And,
    Bar,
    Or,
    PlusEqual,
    MinusEqual,
    SlashEqual,
    AsteriskEqual,
    Integer(u64),
    Float(&'a str),
    String(&'a str),
    Ident(&'a str),
    Match,
    Import,
}

/// The reserved word spelled by `text`, if there is one.
pub open spec fn keyword_kind<'a>(text: Seq<char>) -> Option<TokenType<'a>> {
    if text == "match"@ {
        Some(TokenType::Match)
    } else if text == "import"@ {
        Some(TokenType::Import)
    } else {
        None
    }
}

/// The kind that an identifier-shaped `text` resolves to.
pub open spec fn resolve_word<'a>(text: &'a str) -> TokenType<'a> {
    match keyword_kind(text@) {
        Some(k) => k,
        None => TokenType::Ident(text),
    }
}

/// Whether two string slices hold the same characters.
fn same_text(a: &str, b: &str) -> (r: bool)
    ensures
        r == (a@ == b@),
{
    let n = a.unicode_len();
    if n != b.unicode_len() {
        return false;
    }
    let mut i: usize = 0;
    while i < n
        invariant
            n == a@.len(),
            n == b@.len(),
            i <= n,
            forall|j: int| 0 <= j < i ==> a@[j] == b@[j],
        decreases n - i,
    {
        if a.get_char(i) != b.get_char(i) {
            return false;
        }
        i += 1;
    }
    assert(a@ =~= b@);
    true
}

impl<'a> TokenType<'a> {
    /// Resolves an identifier's text: a reserved word gives its keyword,
    /// any other text gives `Ident(string)`.
    pub fn match_keyword(string: &'a str) -> (r: TokenType<'a>)
        ensures
            r == resolve_word(string),
    {
        if same_text(string, "match") {
            TokenType::Match
        } else if same_text(string, "import") {
            TokenType::Import
        } else {
            TokenType::Ident(string)
        }
    }
}

/// A classified piece of source text and the position of its first character.
#[derive(Debug, Clone, Copy, PartialEq, Eq)]
pub struct Token<'a> {
    pub kind: TokenType<'a>,
    pub position: Position,
}

impl<'a> Token<'a> {
    pub fn new(kind: TokenType<'a>, position: Position) -> (r: Token<'a>)
        ensures
            r == (Token { kind, position }),
    {
        Token { kind, position }
    }

    /// A token for identifier-shaped text, resolved through the keyword table.
    pub fn from_keyword(keyword: &'a str, position: Position) -> (r: Token<'a>)
        ensures
            r.kind == resolve_word(keyword),
            r.position == position,
    {
        Token { kind: TokenType::match_keyword(keyword), position }
    }
}

} // verus!
