//! The lexer engine: a cursor over borrowed source text that yields one
//! token per pull.
use vstd::prelude::*;

use crate::token::{keyword_kind, Position, Token, TokenType};

verus! {

// ---------------------------------------------------------------------------
// Character classes
// ---------------------------------------------------------------------------

/// Blank, tab or carriage return: ends an ambiguous operator.
pub open spec fn is_blank(c: char) -> bool {
    c == ' ' || c == '\t' || c == '\r'
}

/// Characters skipped between tokens.
pub open spec fn is_space(c: char) -> bool {
    is_blank(c) || c == '\n'
}

pub open spec fn is_digit(c: char) -> bool {
    '0' <= c && c <= '9'
}

/// Characters of identifiers: ASCII letters and underscore.
pub open spec fn is_word_char(c: char) -> bool {
    ('a' <= c && c <= 'z') || ('A' <= c && c <= 'Z') || c == '_'
}

/// The character at index `i`, or `None` past either end.
pub open spec fn char_at(text: Seq<char>, i: int) -> Option<char> {
    if 0 <= i < text.len() {
        Some(text[i])
    } else {
        None
    }
}

// ---------------------------------------------------------------------------
// Decision tables
// ---------------------------------------------------------------------------

pub open spec fn delimiter_kind<'a>(c: char) -> Option<TokenType<'a>> {
    if c == '(' {
        Some(TokenType::LParen)
    } else if c == ')' {
        Some(TokenType::RParen)
    } else if c == '[' {
        Some(TokenType::LBracket)
    } else if c == ']' {
        Some(TokenType::RBracket)
    } else if c == '{' {
        Some(TokenType::LBrace)
    } else if c == '}' {
        Some(TokenType::RBrace)
    } else {
        None
    }
}

/// The one-character reading of an operator that may also start a
/// two-character one.
pub open spec fn single_operator_kind<'a>(c: char) -> Option<TokenType<'a>> {
    if c == '!' {
        Some(TokenType::Bang)
    } else if c == '=' {
        Some(TokenType::Equal)
    } else if c == '|' {
        Some(TokenType::Bar)
    } else if c == '&' {
        Some(TokenType::Ampersand)
    } else if c == '+' {
        Some(TokenType::Plus)
    } else if c == '-' {
        Some(TokenType::Minus)
    } else if c == '/' {
        Some(TokenType::Slash)
    } else if c == '*' {
        Some(TokenType::Asterisk)
    } else {
        None
    }
}

/// The two-character operator spelled by `c` then `d`, if any.
pub open spec fn double_operator_kind<'a>(c: char, d: char) -> Option<TokenType<'a>> {
    if c == '!' && d == '=' {
        Some(TokenType::BangEqual)
    } else if c == '=' && d == '=' {
        Some(TokenType::DoubleEqual)
    } else if c == '|' && d == '|' {
        Some(TokenType::Or)
    } else if c == '&' && d == '&' {
        Some(TokenType::And)
    } else if c == '+' && d == '=' {
        Some(TokenType::PlusEqual)
    } else if c == '-' && d == '=' {
        Some(TokenType::MinusEqual)
    } else if c == '/' && d == '=' {
        Some(TokenType::SlashEqual)
    } else if c == '*' && d == '=' {
        Some(TokenType::AsteriskEqual)
    } else {
        None
    }
}

fn delimiter<'b>(c: char) -> (r: Option<TokenType<'b>>)
    ensures
        r == delimiter_kind::<'b>(c),
{
    match c {
        '(' => Some(TokenType::LParen),
        ')' => Some(TokenType::RParen),
        '[' => Some(TokenType::LBracket),
        ']' => Some(TokenType::RBracket),
        '{' => Some(TokenType::LBrace),
        '}' => Some(TokenType::RBrace),
        _ => None,
    }
}

fn single_operator<'b>(c: char) -> (r: Option<TokenType<'b>>)
    ensures
        r == single_operator_kind::<'b>(c),
{
    match c {
        '!' => Some(TokenType::Bang),
        '=' => Some(TokenType::Equal),
        '|' => Some(TokenType::Bar),
        '&' => Some(TokenType::Ampersand),
        '+' => Some(TokenType::Plus),
        '-' => Some(TokenType::Minus),
        '/' => Some(TokenType::Slash),
        '*' => Some(TokenType::Asterisk),
        _ => None,
    }
}

fn double_operator<'b>(c: char, d: char) -> (r: Option<TokenType<'b>>)
    ensures
        r == double_operator_kind::<'b>(c, d),
{
    match (c, d) {
        ('!', '=') => Some(TokenType::BangEqual),
        ('=', '=') => Some(TokenType::DoubleEqual),
        ('|', '|') => Some(TokenType::Or),
        ('&', '&') => Some(TokenType::And),
        ('+', '=') => Some(TokenType::PlusEqual),
        ('-', '=') => Some(TokenType::MinusEqual),
        ('/', '=') => Some(TokenType::SlashEqual),
        ('*', '=') => Some(TokenType::AsteriskEqual),
        _ => None,
    }
}

// ---------------------------------------------------------------------------
// Runs of characters
// ---------------------------------------------------------------------------

/// The first index at or after `i` that does not hold a space character.
pub open spec fn skip_space(text: Seq<char>, i: int) -> int
    decreases text.len() - i,
{
    if 0 <= i < text.len() && is_space(text[i]) {
        skip_space(text, i + 1)
    } else {
        i
    }
}

/// The end of the run of identifier characters that starts at `i`.
pub open spec fn word_end(text: Seq<char>, i: int) -> int
    decreases text.len() - i,
{
    if 0 <= i < text.len() && is_word_char(text[i]) {
        word_end(text, i + 1)
    } else {
        i
    }
}

/// The end of the numeric literal run that starts at `i`: digits, and a
/// `.` only where a digit follows it.
pub open spec fn number_end(text: Seq<char>, i: int) -> int
    decreases text.len() - i,
{
    if 0 <= i < text.len() && (is_digit(text[i]) || (text[i] == '.' && i + 1 < text.len()
        && is_digit(text[i + 1]))) {
        number_end(text, i + 1)
    } else {
        i
    }
}

/// The index of the first `"` at or after `i`, or the text's length if none.
pub open spec fn quote_index(text: Seq<char>, i: int) -> int
    decreases text.len() - i,
{
    if i < 0 || i >= text.len() {
        text.len() as int
    } else if text[i] == '"' {
        i
    } else {
        quote_index(text, i + 1)
    }
}

/// How many `.` characters `s` holds.
pub open spec fn count_dots(s: Seq<char>) -> nat
    decreases s.len(),
{
    if s.len() == 0 {
        0
    } else {
        count_dots(s.drop_last()) + if s.last() == '.' {
            1nat
        } else {
            0nat
        }
    }
}

/// The value of a run of decimal digits.
pub open spec fn digits_value(s: Seq<char>) -> nat
    decreases s.len(),
{
    if s.len() == 0 {
        0
    } else {
        digits_value(s.drop_last()) * 10 + (s.last() as nat - '0' as nat) as nat
    }
}

// ---------------------------------------------------------------------------
// Positions
// ---------------------------------------------------------------------------

/// The position after consuming `c` at `p`: a newline starts the next line.
pub open spec fn step(p: Position, c: char) -> Position {
    if c == '\n' {
        Position { line: (p.line + 1) as usize, column: 0, offset: (p.offset + 1) as usize }
    } else {
        Position { line: p.line, column: (p.column + 1) as usize, offset: (p.offset + 1) as usize }
    }
}

/// The position reached from `p` by consuming the characters `from..to`.
pub open spec fn advance_over(p: Position, text: Seq<char>, from: int, to: int) -> Position
    decreases to - from,
{
    if to <= from {
        p
    } else {
        step(advance_over(p, text, from, to - 1), text[to - 1])
    }
}

/// Consuming `a..b` and then `b..c` reaches where consuming `a..c` does.
proof fn lemma_advance_split(p: Position, text: Seq<char>, a: int, b: int, c: int)
    requires
        a <= b <= c,
    ensures
        advance_over(advance_over(p, text, a, b), text, b, c) == advance_over(p, text, a, c),
    decreases c - b,
{
    if c > b {
        lemma_advance_split(p, text, a, b, c - 1);
    }
}

/// Consuming `from..to` moves the offset from `from` to `to`.
proof fn lemma_advance_offset(p: Position, text: Seq<char>, to: int)
    requires
        p.offset <= to <= usize::MAX,
    ensures
        advance_over(p, text, p.offset as int, to).offset == to,
    decreases to - p.offset,
{
    if to > p.offset {
        lemma_advance_offset(p, text, to - 1);
    }
}

// ---------------------------------------------------------------------------
// One pull
// ---------------------------------------------------------------------------

/// Why a pull failed, with the position of the offending token's first
/// character.
#[derive(Debug, Clone, Copy, PartialEq, Eq, Structural)]
pub enum LexError {
    /// The character, or the character and its lookahead, start no token.
    UndefinedToken(Position),
    /// A numeric literal has no value of its type: an integer beyond `u64`,
    /// or a decimal with more than one point.
    MalformedLiteral(Position),
    /// The text ends before the closing quote of a string literal.
    UnterminatedString(Position),
}

/// The error raised by the token that starts at `s` (position `at`), if any.
pub open spec fn token_error(text: Seq<char>, s: int, at: Position) -> Option<LexError> {
    let c = text[s];
    if delimiter_kind::<'static>(c) is Some {
        None
    } else if single_operator_kind::<'static>(c) is Some {
        if s + 1 >= text.len() || is_blank(text[s + 1])
            || double_operator_kind::<'static>(c, text[s + 1]) is Some {
            None
        } else {
            Some(LexError::UndefinedToken(at))
        }
    } else if is_digit(c) {
        let lit = text.subrange(s, number_end(text, s));
        if count_dots(lit) > 1 || (count_dots(lit) == 0 && digits_value(lit) > u64::MAX) {
            Some(LexError::MalformedLiteral(at))
        } else {
            None
        }
    } else if c == '"' {
        if quote_index(text, s + 1) >= text.len() {
            Some(LexError::UnterminatedString(at))
        } else {
            None
        }
    } else if is_word_char(c) {
        None
    } else {
        Some(LexError::UndefinedToken(at))
    }
}

/// The index just past the token that starts at `s`.
#[verifier::opaque]
pub open spec fn token_end(text: Seq<char>, s: int) -> int {
    let c = text[s];
    if delimiter_kind::<'static>(c) is Some {
        s + 1
    } else if single_operator_kind::<'static>(c) is Some {
        if s + 1 < text.len() && double_operator_kind::<'static>(c, text[s + 1]) is Some {
            s + 2
        } else {
            s + 1
        }
    } else if is_digit(c) {
        number_end(text, s)
    } else if c == '"' {
        quote_index(text, s + 1) + 1
    } else {
        word_end(text, s)
    }
}

/// Whether `kind` is what the token that starts at `s` denotes.
pub open spec fn kind_of<'a>(text: Seq<char>, s: int, kind: TokenType<'a>) -> bool {
    let c = text[s];
    let e = token_end(text, s);
    if delimiter_kind::<'a>(c) is Some {
        kind == delimiter_kind::<'a>(c)->0
    } else if single_operator_kind::<'a>(c) is Some {
        if e == s + 2 {
            kind == double_operator_kind::<'a>(c, text[s + 1])->0
        } else {
            kind == single_operator_kind::<'a>(c)->0
        }
    } else if is_digit(c) {
        let lit = text.subrange(s, e);
        if count_dots(lit) == 0 {
            kind == TokenType::<'a>::Integer(digits_value(lit) as u64)
        } else {
            match kind {
                TokenType::Float(t) => t@ == lit,
                _ => false,
            }
        }
    } else if c == '"' {
        match kind {
            TokenType::String(t) => t@ == text.subrange(s + 1, e - 1),
            _ => false,
        }
    } else {
        match keyword_kind::<'a>(text.subrange(s, e)) {
            Some(k) => kind == k,
            None => match kind {
                TokenType::Ident(t) => t@ == text.subrange(s, e),
                _ => false,
            },
        }
    }
}

/// Whether `t` is what a pull from cursor `p` yields without error.
#[verifier::opaque]
pub open spec fn pulled_token<'a>(text: Seq<char>, p: Position, t: Token<'a>) -> bool {
    let s = skip_space(text, p.offset as int);
    let at = advance_over(p, text, p.offset as int, s);
    &&& s < text.len()
    &&& token_error(text, s, at) is None
    &&& t.position == at
    &&& kind_of(text, s, t.kind)
}

/// The cursor after a successful pull from `p`.
pub open spec fn next_cursor(text: Seq<char>, p: Position) -> Position {
    let s = skip_space(text, p.offset as int);
    advance_over(p, text, p.offset as int, token_end(text, s))
}

/// What one pull from cursor `p` returns (`r`) and where it leaves the
/// cursor (`q`): end of input once only space is left; otherwise the
/// token's error with the cursor on that token; otherwise the token, with
/// the cursor just past it.
pub open spec fn pull_outcome<'a>(
    text: Seq<char>,
    p: Position,
    r: Result<Option<Token<'a>>, LexError>,
    q: Position,
) -> bool {
    let s = skip_space(text, p.offset as int);
    let at = advance_over(p, text, p.offset as int, s);
    if s >= text.len() {
        r == Ok::<Option<Token<'a>>, LexError>(None) && q == at
    } else {
        match token_error(text, s, at) {
            Some(e) => r == Err::<Option<Token<'a>>, LexError>(e) && q == at,
            None => match r {
                Ok(Some(t)) => pulled_token(text, p, t) && q == next_cursor(text, p),
                _ => false,
            },
        }
    }
}

/// What lexing the token that starts under cursor `at` returns (`r`) and
/// where it leaves the cursor (`q`).
pub open spec fn token_outcome<'a>(
    text: Seq<char>,
    at: Position,
    r: Result<Option<Token<'a>>, LexError>,
    q: Position,
) -> bool {
    let s = at.offset as int;
    match token_error(text, s, at) {
        Some(e) => r == Err::<Option<Token<'a>>, LexError>(e) && q == at,
        None => match r {
            Ok(Some(t)) => t.position == at && kind_of(text, s, t.kind) && q == advance_over(
                at,
                text,
                s,
                token_end(text, s),
            ),
            _ => false,
        },
    }
}

/// Each run that starts at `i` ends within the text, no earlier than `i`.
proof fn lemma_run_bounds(text: Seq<char>, i: int)
    requires
        0 <= i <= text.len(),
    ensures
        i <= skip_space(text, i) <= text.len(),
        i <= word_end(text, i) <= text.len(),
        i <= number_end(text, i) <= text.len(),
        i <= quote_index(text, i) <= text.len(),
    decreases text.len() - i,
{
    if i < text.len() {
        lemma_run_bounds(text, i + 1);
    }
}

/// A token that lexes without error is not empty and lies within the text.
proof fn lemma_token_span(text: Seq<char>, s: int, at: Position)
    requires
        0 <= s < text.len(),
        token_error(text, s, at) is None,
    ensures
        s < token_end(text, s) <= text.len(),
{
    reveal(token_end);
    lemma_run_bounds(text, s + 1);
    let c = text[s];
    if is_digit(c) {
        assert(number_end(text, s) == number_end(text, s + 1));
    } else if is_word_char(c) {
        assert(word_end(text, s) == word_end(text, s + 1));
    }
}

// ---------------------------------------------------------------------------
// Whole runs of pulls
// ---------------------------------------------------------------------------

/// The cursor after pulling the tokens `toks` one after another from `p`.
pub open spec fn cursor_after<'a>(text: Seq<char>, p: Position, toks: Seq<Token<'a>>) -> Position
    decreases toks.len(),
{
    if toks.len() == 0 {
        p
    } else {
        next_cursor(text, cursor_after(text, p, toks.drop_last()))
    }
}

/// Whether successive pulls from `p` yield exactly `toks`, in order.
pub open spec fn pulls<'a>(text: Seq<char>, p: Position, toks: Seq<Token<'a>>) -> bool
    decreases toks.len(),
{
    toks.len() == 0 || (pulls(text, p, toks.drop_last()) && pulled_token(
        text,
        cursor_after(text, p, toks.drop_last()),
        toks.last(),
    ))
}

/// Whether lexing from `p` to the end of the text yields exactly `toks`.
pub open spec fn lexes_to<'a>(text: Seq<char>, p: Position, toks: Seq<Token<'a>>) -> bool {
    pulls(text, p, toks) && skip_space(text, cursor_after(text, p, toks).offset as int)
        >= text.len()
}

/// Whether lexing from `p` yields `toks` and then fails with `e`.
pub open spec fn fails_after<'a>(
    text: Seq<char>,
    p: Position,
    toks: Seq<Token<'a>>,
    e: LexError,
) -> bool {
    let m = cursor_after(text, p, toks);
    let s = skip_space(text, m.offset as int);
    &&& pulls(text, p, toks)
    &&& s < text.len()
    &&& token_error(text, s, advance_over(m, text, m.offset as int, s)) == Some(e)
}

// ---------------------------------------------------------------------------
// The engine
// ---------------------------------------------------------------------------

/// A cursor over borrowed source text.
pub struct Lexer<'a> {
    input: &'a str,
    length: usize,
    position: Position,
}

impl<'a> Lexer<'a> {
    /// The source text.
    pub closed spec fn text(&self) -> Seq<char> {
        self.input@
    }

    /// The scan cursor.
    pub closed spec fn cursor(&self) -> Position {
        self.position
    }

    /// The cursor lies within the text, and its line and column cannot have
    /// outrun its offset.
    pub closed spec fn wf(&self) -> bool {
        &&& self.length as int == self.input@.len()
        &&& self.length < usize::MAX
        &&& self.position.offset <= self.length
        &&& self.position.column <= self.position.offset
        &&& self.position.line <= self.position.offset + 1
    }

    pub fn new(input: &'a str) -> (r: Lexer<'a>)
        requires
            input@.len() < usize::MAX,
        ensures
            r.wf(),
            r.text() == input@,
            r.cursor() == (Position { line: 1, column: 0, offset: 0 }),
    {
        let length = input.unicode_len();
        Lexer { input, length, position: Position::new(1, 0, 0) }
    }

    /// Moves the cursor one character forward on the same line.
    pub fn consume_char(&mut self)
        requires
            old(self).wf(),
            old(self).cursor().offset < old(self).text().len(),
        ensures
            final(self).wf(),
            final(self).text() == old(self).text(),
            final(self).cursor() == (Position {
                line: old(self).cursor().line,
                column: (old(self).cursor().column + 1) as usize,
                offset: (old(self).cursor().offset + 1) as usize,
            }),
    {
        self.position.column += 1;
        self.position.offset += 1;
    }

    /// The character at absolute index `position`, if the text has one.
    pub fn get_nth_char(&self, position: usize) -> (r: Option<char>)
        requires
            self.wf(),
        ensures
            r == char_at(self.text(), position as int),
    {
        if position < self.length {
            Some(self.input.get_char(position))
        } else {
            None
        }
    }

    /// The character under the cursor.
    pub fn get_current_char(&self) -> (r: Option<char>)
        requires
            self.wf(),
        ensures
            r == char_at(self.text(), self.cursor().offset as int),
    {
        self.get_nth_char(self.position.offset)
    }

    /// The character just after the cursor.
    pub fn get_peek_char(&self) -> (r: Option<char>)
        requires
            self.wf(),
        ensures
            r == char_at(self.text(), self.cursor().offset + 1),
    {
        self.peek(1)
    }

    /// The character `k` places after the cursor; the cursor does not move.
    pub fn peek(&self, k: usize) -> (r: Option<char>)
        requires
            self.wf(),
        ensures
            r == char_at(self.text(), self.cursor().offset + k),
    {
        if k < self.length - self.position.offset {
            Some(self.input.get_char(self.position.offset + k))
        } else {
            None
        }
    }

    /// Emits a one-character token of `kind` at the cursor and moves past it.
    pub fn lex_single_char<'b>(&mut self, kind: TokenType<'b>) -> (r: Option<Token<'b>>)
        requires
            old(self).wf(),
            old(self).cursor().offset < old(self).text().len(),
        ensures
            r == Some(Token { kind, position: old(self).cursor() }),
            final(self).wf(),
            final(self).text() == old(self).text(),
            final(self).cursor() == (Position {
                line: old(self).cursor().line,
                column: (old(self).cursor().column + 1) as usize,
                offset: (old(self).cursor().offset + 1) as usize,
            }),
    {
        let position = self.position;
        self.consume_char();
        Some(Token { kind, position })
    }

    /// Emits a two-character token of `kind` at the cursor and moves past it.
    pub fn lex_double_char<'b>(&mut self, kind: TokenType<'b>) -> (r: Option<Token<'b>>)
        requires
            old(self).wf(),
            old(self).cursor().offset + 2 <= old(self).text().len(),
        ensures
            r == Some(Token { kind, position: old(self).cursor() }),
            final(self).wf(),
            final(self).text() == old(self).text(),
            final(self).cursor() == (Position {
                line: old(self).cursor().line,
                column: (old(self).cursor().column + 2) as usize,
                offset: (old(self).cursor().offset + 2) as usize,
            }),
    {
        let position = self.position;
        self.consume_char();
        self.consume_char();
        Some(Token { kind, position })
    }

    /// Consumes a newline under the cursor: the next line starts at column 0.
    fn consume_newline(&mut self)
        requires
            old(self).wf(),
            old(self).cursor().offset < old(self).text().len(),
        ensures
            final(self).wf(),
            final(self).text() == old(self).text(),
            final(self).cursor() == step(old(self).cursor(), '\n'),
    {
        self.consume_char();
        self.position.line += 1;
        self.position.column = 0;
    }

    /// Whether the character at index `i` is a decimal digit.
    fn digit_at(&self, i: usize) -> (r: bool)
        requires
            self.wf(),
        ensures
            r == (i < self.text().len() && is_digit(self.text()[i as int])),
    {
        if i < self.length {
            let d = self.input.get_char(i);
            '0' <= d && d <= '9'
        } else {
            false
        }
    }

    /// Lexes a numeric literal under the cursor.
    fn lex_number(&mut self) -> (r: Result<Option<Token<'a>>, LexError>)
        requires
            old(self).wf(),
            old(self).cursor().offset < old(self).text().len(),
            is_digit(old(self).text()[old(self).cursor().offset as int]),
        ensures
            final(self).wf(),
            final(self).text() == old(self).text(),
            token_outcome(old(self).text(), old(self).cursor(), r, final(self).cursor()),
    {
        reveal(token_end);
        let ghost text = self.input@;
        let start = self.position;
        let s = start.offset;
        let mut value: u64 = 0;
        let mut overflow = false;
        let mut dots: usize = 0;
        while self.position.offset < self.length
            invariant
                self.wf(),
                self.input@ == text,
                s <= self.position.offset,
                self.position == advance_over(start, text, s as int, self.position.offset as int),
                number_end(text, s as int) == number_end(text, self.position.offset as int),
                dots as int == count_dots(text.subrange(s as int, self.position.offset as int)),
                dots <= self.position.offset - s,
                dots == 0 && !overflow ==> value as nat == digits_value(
                    text.subrange(s as int, self.position.offset as int),
                ),
                dots == 0 && overflow ==> digits_value(
                    text.subrange(s as int, self.position.offset as int),
                ) > u64::MAX,
            ensures
                self.wf(),
                self.input@ == text,
                s <= self.position.offset,
                self.position == advance_over(start, text, s as int, self.position.offset as int),
                number_end(text, s as int) == self.position.offset,
                dots as int == count_dots(text.subrange(s as int, self.position.offset as int)),
                dots == 0 && !overflow ==> value as nat == digits_value(
                    text.subrange(s as int, self.position.offset as int),
                ),
                dots == 0 && overflow ==> digits_value(
                    text.subrange(s as int, self.position.offset as int),
                ) > u64::MAX,
            decreases self.length - self.position.offset,
        {
            let off = self.position.offset;
            let c = self.input.get_char(off);
            let ghost before = text.subrange(s as int, off as int);
            let ghost after = text.subrange(s as int, off + 1);
            assert(after.drop_last() =~= before);
            if '0' <= c && c <= '9' {
                if dots == 0 && !overflow {
                    let d = (c as u32 - '0' as u32) as u64;
                    match value.checked_mul(10) {
                        Some(m) => match m.checked_add(d) {
                            Some(n) => {
                                value = n;
                            },
                            None => {
                                overflow = true;
                            },
                        },
                        None => {
                            overflow = true;
                        },
                    }
                }
                self.consume_char();
            } else if c == '.' && self.digit_at(off + 1) {
                dots += 1;
                self.consume_char();
            } else {
                break;
            }
        }
        let e = self.position.offset;
        if dots > 1 || (dots == 0 && overflow) {
            self.position = start;
            return Err(LexError::MalformedLiteral(start));
        }
        if dots == 0 {
            Ok(Some(Token { kind: TokenType::Integer(value), position: start }))
        } else {
            let lit = self.input.substring_char(s, e);
            Ok(Some(Token { kind: TokenType::Float(lit), position: start }))
        }
    }

    /// Lexes a string literal whose opening quote is under the cursor.
    fn lex_string(&mut self) -> (r: Result<Option<Token<'a>>, LexError>)
        requires
            old(self).wf(),
            old(self).cursor().offset < old(self).text().len(),
            old(self).text()[old(self).cursor().offset as int] == '"',
        ensures
            final(self).wf(),
            final(self).text() == old(self).text(),
            token_outcome(old(self).text(), old(self).cursor(), r, final(self).cursor()),
    {
        reveal(token_end);
        let ghost text = self.input@;
        let start = self.position;
        let s = start.offset;
        self.consume_char();
        assert(advance_over(start, text, s as int, s as int) == start);
        assert(advance_over(start, text, s as int, s + 1) == step(start, '"'));
        while self.position.offset < self.length
            invariant
                self.wf(),
                self.input@ == text,
                s < self.position.offset,
                self.position == advance_over(start, text, s as int, self.position.offset as int),
                quote_index(text, s + 1) == quote_index(text, self.position.offset as int),
            ensures
                self.wf(),
                self.input@ == text,
                s < self.position.offset,
                self.position == advance_over(start, text, s as int, self.position.offset as int),
                quote_index(text, s + 1) == quote_index(text, self.position.offset as int),
                self.position.offset < self.length ==> text[self.position.offset as int] == '"',
            decreases self.length - self.position.offset,
        {
            let c = self.input.get_char(self.position.offset);
            if c == '"' {
                break;
            } else if c == '\n' {
                self.consume_newline();
            } else {
                self.consume_char();
            }
        }
        let e = self.position.offset;
        if e >= self.length {
            self.position = start;
            return Err(LexError::UnterminatedString(start));
        }
        let body = self.input.substring_char(s + 1, e);
        self.consume_char();
        Ok(Some(Token { kind: TokenType::String(body), position: start }))
    }

    /// Lexes an identifier or keyword under the cursor.
    fn lex_word(&mut self) -> (r: Result<Option<Token<'a>>, LexError>)
        requires
            old(self).wf(),
            old(self).cursor().offset < old(self).text().len(),
            is_word_char(old(self).text()[old(self).cursor().offset as int]),
        ensures
            final(self).wf(),
            final(self).text() == old(self).text(),
            token_outcome(old(self).text(), old(self).cursor(), r, final(self).cursor()),
    {
        reveal(token_end);
        let ghost text = self.input@;
        let start = self.position;
        let s = start.offset;
        while self.position.offset < self.length
            invariant
                self.wf(),
                self.input@ == text,
                s <= self.position.offset,
                self.position == advance_over(start, text, s as int, self.position.offset as int),
                word_end(text, s as int) == word_end(text, self.position.offset as int),
            ensures
                self.wf(),
                self.input@ == text,
                s <= self.position.offset,
                self.position == advance_over(start, text, s as int, self.position.offset as int),
                word_end(text, s as int) == self.position.offset,
            decreases self.length - self.position.offset,
        {
            let c = self.input.get_char(self.position.offset);
            if ('a' <= c && c <= 'z') || ('A' <= c && c <= 'Z') || c == '_' {
                self.consume_char();
            } else {
                break;
            }
        }
        let word = self.input.substring_char(s, self.position.offset);
        Ok(Some(Token::from_keyword(word, start)))
    }

    /// Lexes the token whose first character is under the cursor.
    fn lex_token(&mut self) -> (r: Result<Option<Token<'a>>, LexError>)
        requires
            old(self).wf(),
            old(self).cursor().offset < old(self).text().len(),
        ensures
            final(self).wf(),
            final(self).text() == old(self).text(),
            token_outcome(old(self).text(), old(self).cursor(), r, final(self).cursor()),
    {
        reveal(token_end);
        let ghost text = self.input@;
        let start = self.position;
        let s = start.offset;
        let c = self.input.get_char(s);
        proof {
            assert(advance_over(start, text, s as int, s as int) == start);
            assert(advance_over(start, text, s as int, s + 1) == step(start, c));
        }
        if let Some(kind) = delimiter(c) {
            return Ok(self.lex_single_char(kind));
        }
        if let Some(single) = single_operator(c) {
            match self.get_peek_char() {
                None => {
                    return Ok(self.lex_single_char(single));
                },
                Some(d) => {
                    if let Some(double) = double_operator(c, d) {
                        proof {
                            assert(advance_over(start, text, s as int, s + 2) == step(
                                step(start, c),
                                d,
                            ));
                        }
                        return Ok(self.lex_double_char(double));
                    } else if d == ' ' || d == '\t' || d == '\r' {
                        return Ok(self.lex_single_char(single));
                    } else {
                        return Err(LexError::UndefinedToken(start));
                    }
                },
            }
        }
        if '0' <= c && c <= '9' {
            self.lex_number()
        } else if c == '"' {
            self.lex_string()
        } else if ('a' <= c && c <= 'z') || ('A' <= c && c <= 'Z') || c == '_' {
            self.lex_word()
        } else {
            Err(LexError::UndefinedToken(start))
        }
    }

    /// Pulls the next token: skips blanks and newlines, then lexes one token.
    ///
    /// Returns `Ok(None)` once only blanks and newlines are left. On an error
    /// the cursor stays on the first character of the offending token.
    /// An operator that may start a two-character one (`! = | & + - / *`)
    /// must be followed by its second character, a blank, a tab, a carriage
    /// return or the end of the text; anything else is an undefined token.
    pub fn next_token(&mut self) -> (r: Result<Option<Token<'a>>, LexError>)
        requires
            old(self).wf(),
        ensures
            final(self).wf(),
            final(self).text() == old(self).text(),
            pull_outcome(old(self).text(), old(self).cursor(), r, final(self).cursor()),
            match r {
                Ok(Some(t)) => old(self).cursor().offset <= t.position.offset
                    < final(self).cursor().offset,
                _ => final(self).cursor().offset >= old(self).cursor().offset,
            },
    {
        let ghost text = self.input@;
        let ghost p0 = self.position;
        while self.position.offset < self.length
            invariant
                self.wf(),
                self.input@ == text,
                p0.offset <= self.position.offset,
                self.position == advance_over(p0, text, p0.offset as int, self.position.offset as int),
                skip_space(text, p0.offset as int) == skip_space(text, self.position.offset as int),
            ensures
                self.wf(),
                self.input@ == text,
                p0.offset <= self.position.offset,
                self.position == advance_over(p0, text, p0.offset as int, self.position.offset as int),
                skip_space(text, p0.offset as int) == self.position.offset,
            decreases self.length - self.position.offset,
        {
            let c = self.input.get_char(self.position.offset);
            if c == '\n' {
                self.consume_newline();
            } else if c == ' ' || c == '\t' || c == '\r' {
                self.consume_char();
            } else {
                break;
            }
        }
        if self.position.offset >= self.length {
            return Ok(None);
        }
        let ghost at = self.position;
        let r = self.lex_token();
        proof {
            reveal(pulled_token);
            let s = at.offset as int;
            if token_error(text, s, at) is None {
                lemma_token_span(text, s, at);
                lemma_advance_split(p0, text, p0.offset as int, s, token_end(text, s));
                lemma_advance_offset(at, text, token_end(text, s));
            }
        }
        r
    }

    /// Pulls every remaining token, up to the end of the text or the first
    /// error.
    pub fn tokens(&mut self) -> (r: Result<Vec<Token<'a>>, LexError>)
        requires
            old(self).wf(),
        ensures
            final(self).wf(),
            final(self).text() == old(self).text(),
            match r {
                Ok(v) => lexes_to(old(self).text(), old(self).cursor(), v@),
                Err(e) => exists|k: Seq<Token<'a>>| fails_after(old(self).text(), old(self).cursor(), k, e),
            },
            match r {
                Ok(v) => forall|i: int, j: int|
                    0 <= i < j < v.len() ==> v[i].position.offset < v[j].position.offset,
                _ => true,
            },
    {
        let ghost text = self.input@;
        let ghost p0 = self.position;
        let mut v: Vec<Token<'a>> = Vec::new();
        loop
            invariant
                self.wf(),
                self.input@ == text,
                text == old(self).text(),
                p0 == old(self).cursor(),
                pulls(text, p0, v@),
                self.position == cursor_after(text, p0, v@),
                forall|i: int, j: int|
                    0 <= i < j < v.len() ==> v[i].position.offset < v[j].position.offset,
                forall|i: int| 0 <= i < v.len() ==> v[i].position.offset < self.position.offset,
            decreases self.length - self.position.offset,
        {
            let ghost before = v@;
            match self.next_token() {
                Ok(None) => {
                    return Ok(v);
                },
                Ok(Some(t)) => {
                    v.push(t);
                    assert(v@.drop_last() =~= before);
                },
                Err(e) => {
                    assert(fails_after(text, p0, before, e));
                    return Err(e);
                },
            }
        }
    }
}

// ---------------------------------------------------------------------------
// Laws
// ---------------------------------------------------------------------------

/// Every character of `text[a..b]` is a blank or a newline.
pub open spec fn all_space(text: Seq<char>, a: int, b: int) -> bool {
    forall|j: int| a <= j < b ==> is_space(#[trigger] text[j])
}

/// The index where the token `toks[i]` ends, or `p`'s offset for `i == -1`.
pub open spec fn span_end<'a>(text: Seq<char>, p: Position, toks: Seq<Token<'a>>, i: int) -> int {
    if i < 0 {
        p.offset as int
    } else {
        token_end(text, toks[i].position.offset as int)
    }
}

/// The token `toks[i]` (if `i >= 0`) is a non-empty span of the text, and
/// only space lies between its end and the start of the next token.
pub open spec fn spans_in_order<'a>(text: Seq<char>, p: Position, toks: Seq<Token<'a>>, i: int) -> bool {
    let e = span_end(text, p, toks, i);
    &&& 0 <= i ==> toks[i].position.offset < e <= text.len()
    &&& i + 1 < toks.len() ==> e <= toks[i + 1].position.offset && all_space(
        text,
        e,
        toks[i + 1].position.offset as int,
    )
}

proof fn lemma_skip_space_all_space(text: Seq<char>, i: int)
    requires
        0 <= i <= text.len(),
    ensures
        all_space(text, i, skip_space(text, i)),
    decreases text.len() - i,
{
    if i < text.len() && is_space(text[i]) {
        lemma_skip_space_all_space(text, i + 1);
    }
}

/// Pulled tokens are non-empty spans of the text, in order, with only
/// blanks and newlines between them; the cursor ends just past the last.
/// One successful pull skips only space, and its token is a non-empty span
/// of the text that ends where the cursor is left.
proof fn lemma_pull_span<'a>(text: Seq<char>, m: Position, t: Token<'a>)
    requires
        pulled_token(text, m, t),
        m.offset <= text.len() <= usize::MAX,
    ensures
        m.offset <= t.position.offset,
        all_space(text, m.offset as int, t.position.offset as int),
        t.position.offset < token_end(text, t.position.offset as int) <= text.len(),
        next_cursor(text, m).offset == token_end(text, t.position.offset as int),
{
    reveal(pulled_token);
    lemma_run_bounds(text, m.offset as int);
    let s = skip_space(text, m.offset as int);
    let at = advance_over(m, text, m.offset as int, s);
    lemma_advance_offset(m, text, s);
    lemma_token_span(text, s, at);
    lemma_advance_offset(m, text, token_end(text, s));
    lemma_skip_space_all_space(text, m.offset as int);
}

/// Pulled tokens are non-empty spans of the text, in order, with only
/// blanks and newlines between them; the cursor ends just past the last.
pub proof fn lemma_pulls_spans<'a>(text: Seq<char>, p: Position, toks: Seq<Token<'a>>)
    requires
        pulls(text, p, toks),
        p.offset <= text.len() <= usize::MAX,
    ensures
        cursor_after(text, p, toks).offset == span_end(text, p, toks, toks.len() - 1),
        forall|i: int|
            -1 <= i < toks.len() ==> spans_in_order(text, p, toks, i),
    decreases toks.len(),
{
    if toks.len() > 0 {
        let init = toks.drop_last();
        let n = toks.len() - 1;
        lemma_pulls_spans(text, p, init);
        let m = cursor_after(text, p, init);
        assert(spans_in_order(text, p, init, n - 1));
        assert(m.offset == span_end(text, p, toks, n - 1));
        lemma_pull_span(text, m, toks[n]);
        assert forall|i: int| -1 <= i < toks.len() implies spans_in_order(text, p, toks, i) by {
            if i < n {
                if i >= 0 {
                    assert(init[i] == toks[i]);
                }
                assert(span_end(text, p, init, i) == span_end(text, p, toks, i));
                assert(spans_in_order(text, p, init, i));
            }
        }
    }
}

/// Lexing reproduces its input up to space: the tokens are non-empty spans
/// of the text, in order, and all that lies before, between and after them
/// is blanks and newlines.
pub proof fn lemma_tokens_cover_text<'a>(text: Seq<char>, p: Position, toks: Seq<Token<'a>>)
    requires
        lexes_to(text, p, toks),
        p.offset <= text.len() <= usize::MAX,
    ensures
        forall|i: int|
            -1 <= i < toks.len() ==> spans_in_order(text, p, toks, i),
        all_space(text, span_end(text, p, toks, toks.len() - 1), text.len() as int),
{
    lemma_pulls_spans(text, p, toks);
    let m = cursor_after(text, p, toks);
    assert(spans_in_order(text, p, toks, toks.len() - 1));
    lemma_skip_space_all_space(text, m.offset as int);
    lemma_run_bounds(text, m.offset as int);
}

/// `w` on its own is exactly one token, and lexes without error.
pub open spec fn is_lexeme(w: Seq<char>) -> bool {
    &&& w.len() > 0
    &&& !is_space(w[0])
    &&& token_error(w, 0, Position { line: 1, column: 0, offset: 0 }) is None
    &&& token_end(w, 0) == w.len()
}

/// `text` holds `w` at `st`, followed by a blank or by the end of the text.
pub open spec fn holds_at(text: Seq<char>, st: int, w: Seq<char>) -> bool {
    &&& 0 <= st
    &&& st + w.len() <= text.len()
    &&& text.subrange(st, st + w.len()) == w
    &&& (st + w.len() == text.len() || text[st + w.len()] == ' ')
}

proof fn lemma_char_in_place(text: Seq<char>, st: int, w: Seq<char>, j: int)
    requires
        holds_at(text, st, w),
        0 <= j < w.len(),
    ensures
        text[st + j] == w[j],
{
    assert(text.subrange(st, st + w.len())[j] == text[st + j]);
}

proof fn lemma_number_end_local(text: Seq<char>, st: int, w: Seq<char>, j: int)
    requires
        holds_at(text, st, w),
        0 <= j <= w.len(),
    ensures
        number_end(text, st + j) == st + number_end(w, j),
    decreases w.len() - j,
{
    if j < w.len() {
        lemma_char_in_place(text, st, w, j);
        if j + 1 < w.len() {
            lemma_char_in_place(text, st, w, j + 1);
        }
        lemma_number_end_local(text, st, w, j + 1);
    }
}

proof fn lemma_word_end_local(text: Seq<char>, st: int, w: Seq<char>, j: int)
    requires
        holds_at(text, st, w),
        0 <= j <= w.len(),
    ensures
        word_end(text, st + j) == st + word_end(w, j),
    decreases w.len() - j,
{
    if j < w.len() {
        lemma_char_in_place(text, st, w, j);
        lemma_word_end_local(text, st, w, j + 1);
    }
}

proof fn lemma_quote_index_local(text: Seq<char>, st: int, w: Seq<char>, j: int)
    requires
        holds_at(text, st, w),
        0 <= j,
        quote_index(w, j) < w.len(),
    ensures
        quote_index(text, st + j) == st + quote_index(w, j),
    decreases w.len() - j,
{
    lemma_char_in_place(text, st, w, j);
    if w[j] != '"' {
        lemma_quote_index_local(text, st, w, j + 1);
    }
}

/// A lexeme that stands in a text followed by a blank or the end lexes there
/// as on its own.
proof fn lemma_lexeme_in_place(text: Seq<char>, st: int, w: Seq<char>)
    requires
        holds_at(text, st, w),
        is_lexeme(w),
    ensures
        token_end(text, st) == st + w.len(),
        forall|at: Position| #[trigger] token_error(text, st, at) is None,
{
    reveal(token_end);
    lemma_char_in_place(text, st, w, 0);
    let c = w[0];
    if w.len() > 1 {
        lemma_char_in_place(text, st, w, 1);
    }
    if is_digit(c) {
        lemma_number_end_local(text, st, w, 0);
        assert(text.subrange(st, number_end(text, st)) == w);
        assert(w.subrange(0, number_end(w, 0)) =~= w);
    } else if c == '"' {
        lemma_run_bounds(w, 1);
        lemma_quote_index_local(text, st, w, 1);
    } else if is_word_char(c) {
        lemma_word_end_local(text, st, w, 0);
    }
}

/// The words `ws` joined by single blanks.
pub open spec fn join_blank(ws: Seq<Seq<char>>) -> Seq<char>
    decreases ws.len(),
{
    if ws.len() == 0 {
        Seq::empty()
    } else if ws.len() == 1 {
        ws[0]
    } else {
        join_blank(ws.drop_last()) + seq![' '] + ws.last()
    }
}

/// Where the word `ws[i]` starts in `join_blank(ws)`.
pub open spec fn word_start(ws: Seq<Seq<char>>, i: int) -> int
    decreases i,
{
    if i <= 0 {
        0
    } else {
        word_start(ws, i - 1) + ws[i - 1].len() + 1
    }
}

/// Where the word before `ws[i]` ends in `join_blank(ws)` (0 for the first).
pub open spec fn word_gap_start(ws: Seq<Seq<char>>, i: int) -> int {
    if i <= 0 {
        0
    } else {
        word_start(ws, i - 1) + ws[i - 1].len()
    }
}

proof fn lemma_word_start_prefix(ws: Seq<Seq<char>>, i: int)
    requires
        0 <= i < ws.len(),
    ensures
        word_start(ws, i) == word_start(ws.drop_last(), i),
    decreases i,
{
    if i > 0 {
        lemma_word_start_prefix(ws, i - 1);
        assert(ws[i - 1] == ws.drop_last()[i - 1]);
    }
}

proof fn lemma_join_layout(ws: Seq<Seq<char>>)
    ensures
        ws.len() == 0 ==> join_blank(ws).len() == 0,
        ws.len() > 0 ==> join_blank(ws).len() == word_gap_start(ws, ws.len() as int),
        forall|i: int|
            0 <= i < ws.len() ==> 0 <= #[trigger] word_start(ws, i) && word_start(ws, i)
                + ws[i].len() <= join_blank(ws).len() && join_blank(ws).subrange(
                word_start(ws, i),
                word_start(ws, i) + ws[i].len(),
            ) == ws[i] && (i + 1 < ws.len() ==> join_blank(ws)[word_start(ws, i)
                + ws[i].len()] == ' '),
    decreases ws.len(),
{
    if ws.len() > 1 {
        let init = ws.drop_last();
        let n = ws.len() - 1;
        let j = join_blank(init);
        let t = join_blank(ws);
        lemma_join_layout(init);
        assert(t == j + seq![' '] + ws[n]);
        lemma_word_start_prefix(ws, n - 1);
        assert(word_start(ws, n) == j.len() + 1);
        assert forall|i: int| 0 <= i < ws.len() implies 0 <= #[trigger] word_start(ws, i)
            && word_start(ws, i) + ws[i].len() <= t.len() && t.subrange(
            word_start(ws, i),
            word_start(ws, i) + ws[i].len(),
        ) == ws[i] && (i + 1 < ws.len() ==> t[word_start(ws, i) + ws[i].len()] == ' ') by {
            if i < n {
                lemma_word_start_prefix(ws, i);
                assert(init[i] == ws[i]);
                let a = word_start(ws, i);
                let b = a + ws[i].len();
                assert(t.subrange(a, b) =~= j.subrange(a, b));
                if i + 1 < n {
                    assert(t[b] == j[b]);
                }
            } else {
                assert(t.subrange(word_start(ws, i), word_start(ws, i) + ws[i].len()) =~= ws[n]);
            }
        }
    } else if ws.len() == 1 {
        assert(join_blank(ws).subrange(0, ws[0].len() as int) =~= ws[0]);
    }
}

/// Text made of lexemes separated by single blanks lexes word by word:
/// before each word only space is skipped, the word raises no error, and
/// its token ends exactly where the word does; the last word ends the text.
pub proof fn lemma_blank_separated_lexemes(ws: Seq<Seq<char>>)
    requires
        forall|i: int| 0 <= i < ws.len() ==> is_lexeme(#[trigger] ws[i]),
    ensures
        forall|i: int|
            0 <= i < ws.len() ==> {
                let text = join_blank(ws);
                let st = #[trigger] word_start(ws, i);
                &&& skip_space(text, word_gap_start(ws, i)) == st
                &&& token_end(text, st) == st + ws[i].len()
                &&& forall|at: Position| token_error(text, st, at) is None
            },
        skip_space(join_blank(ws), word_gap_start(ws, ws.len() as int)) == join_blank(ws).len(),
{
    let text = join_blank(ws);
    lemma_join_layout(ws);
    assert forall|i: int| 0 <= i < ws.len() implies {
        let st = #[trigger] word_start(ws, i);
        &&& skip_space(text, word_gap_start(ws, i)) == st
        &&& token_end(text, st) == st + ws[i].len()
        &&& forall|at: Position| token_error(text, st, at) is None
    } by {
        let st = word_start(ws, i);
        let w = ws[i];
        assert(is_lexeme(w));
        assert(holds_at(text, st, w));
        lemma_lexeme_in_place(text, st, w);
        lemma_char_in_place(text, st, w, 0);
        if i > 0 {
            let g = word_gap_start(ws, i);
            assert(word_start(ws, i - 1) + ws[i - 1].len() == g);
            assert(text[g] == ' ');
            assert(skip_space(text, g + 1) == st);
        }
    }
    if ws.len() == 0 {
        assert(skip_space(text, 0) == 0);
    }
}

/// The facts of `lemma_blank_separated_lexemes` and of the layout of
/// `join_blank` for the one word `ws[k]`.
proof fn lemma_word_facts(ws: Seq<Seq<char>>, k: int)
    requires
        forall|i: int| 0 <= i < ws.len() ==> is_lexeme(#[trigger] ws[i]),
        0 <= k < ws.len(),
    ensures
        0 <= word_gap_start(ws, k) <= word_start(ws, k),
        word_start(ws, k) + ws[k].len() <= join_blank(ws).len(),
        ws[k].len() > 0,
        word_gap_start(ws, k + 1) == word_start(ws, k) + ws[k].len(),
        skip_space(join_blank(ws), word_gap_start(ws, k)) == word_start(ws, k),
        token_end(join_blank(ws), word_start(ws, k)) == word_start(ws, k) + ws[k].len(),
        forall|at: Position| #[trigger] token_error(join_blank(ws), word_start(ws, k), at) is None,
{
    lemma_blank_separated_lexemes(ws);
    lemma_join_layout(ws);
    assert(is_lexeme(ws[k]));
    let st = word_start(ws, k);
    assert(0 <= st);
    if k > 0 {
        assert(0 <= word_start(ws, k - 1));
    }
}

proof fn lemma_words_end(ws: Seq<Seq<char>>)
    requires
        forall|i: int| 0 <= i < ws.len() ==> is_lexeme(#[trigger] ws[i]),
    ensures
        skip_space(join_blank(ws), word_gap_start(ws, ws.len() as int)) == join_blank(ws).len(),
        word_gap_start(ws, ws.len() as int) == join_blank(ws).len(),
{
    lemma_blank_separated_lexemes(ws);
    lemma_join_layout(ws);
}

proof fn lemma_pulls_track_words<'a>(ws: Seq<Seq<char>>, p: Position, toks: Seq<Token<'a>>)
    requires
        forall|i: int| 0 <= i < ws.len() ==> is_lexeme(#[trigger] ws[i]),
        join_blank(ws).len() <= usize::MAX,
        p.offset == 0,
        pulls(join_blank(ws), p, toks),
    ensures
        toks.len() <= ws.len(),
        cursor_after(join_blank(ws), p, toks).offset == word_gap_start(ws, toks.len() as int),
        forall|i: int|
            0 <= i < toks.len() ==> (#[trigger] toks[i]).position.offset == word_start(ws, i),
    decreases toks.len(),
{
    if toks.len() > 0 {
        let text = join_blank(ws);
        let init = toks.drop_last();
        let k = init.len() as int;
        lemma_pulls_track_words(ws, p, init);
        let m = cursor_after(text, p, init);
        reveal(pulled_token);
        assert(pulled_token(text, m, toks[k]));
        if k == ws.len() {
            lemma_words_end(ws);
        }
        assert(k < ws.len());
        lemma_word_facts(ws, k);
        let st = word_start(ws, k);
        lemma_advance_offset(m, text, st);
        lemma_advance_offset(m, text, token_end(text, st));
        assert forall|i: int| 0 <= i < toks.len() implies (#[trigger] toks[i]).position.offset
            == word_start(ws, i) by {
            if i < k {
                assert(toks[i] == init[i]);
            }
        }
    }
}

/// Text made of lexemes separated by single blanks never fails to lex, and
/// lexing it from its start yields one token per word, each starting at the
/// word's first character and ending just past its last.
pub proof fn lemma_blank_separated_tokens<'a>(ws: Seq<Seq<char>>, p: Position, toks: Seq<Token<'a>>)
    requires
        forall|i: int| 0 <= i < ws.len() ==> is_lexeme(#[trigger] ws[i]),
        join_blank(ws).len() <= usize::MAX,
        p.offset == 0,
    ensures
        forall|e: LexError| !fails_after(join_blank(ws), p, toks, e),
        lexes_to(join_blank(ws), p, toks) ==> toks.len() == ws.len(),
        pulls(join_blank(ws), p, toks) ==> forall|i: int|
            0 <= i < toks.len() ==> (#[trigger] toks[i]).position.offset == word_start(ws, i)
                && token_end(join_blank(ws), toks[i].position.offset as int) == word_start(ws, i)
                + ws[i].len(),
{
    let text = join_blank(ws);
    if pulls(text, p, toks) {
        lemma_pulls_track_words(ws, p, toks);
        assert forall|i: int| 0 <= i < toks.len() implies (#[trigger] toks[i]).position.offset
            == word_start(ws, i) && token_end(text, toks[i].position.offset as int) == word_start(
            ws,
            i,
        ) + ws[i].len() by {
            lemma_word_facts(ws, i);
        }
        let k = toks.len() as int;
        if k < ws.len() {
            lemma_word_facts(ws, k);
        } else {
            lemma_words_end(ws);
        }
    }
}

} // verus!
