use lexer::{LexError, Lexer, Position, Token, TokenType};

fn lex_all(text: &str) -> Result<Vec<Token<'_>>, LexError> {
    Lexer::new(text).tokens()
}

fn pos(line: usize, column: usize, offset: usize) -> Position {
    Position::new(line, column, offset)
}

#[test]
fn it_works() {
    let test_str = "1 + 2.3555";
    let l = Lexer::new(test_str);
    let mut l = l;
    let z = l.tokens().unwrap();
    println!("{:#?}", z);
    assert_eq!(z.len(), 3);
}

#[test]
fn sum_of_integer_and_float() {
    let mut l = Lexer::new("1 + 2.3555");
    assert_eq!(
        l.next_token(),
        Ok(Some(Token::new(TokenType::Integer(1), pos(1, 0, 0))))
    );
    assert_eq!(l.next_token(), Ok(Some(Token::new(TokenType::Plus, pos(1, 2, 2)))));
    let t = l.next_token().unwrap().unwrap();
    assert_eq!(t.position, pos(1, 4, 4));
    match t.kind {
        TokenType::Float(text) => {
            assert_eq!(text, "2.3555");
            assert_eq!(text.parse::<f64>().unwrap(), 2.3555);
        }
        other => panic!("expected a float, got {:?}", other),
    }
    assert_eq!(l.next_token(), Ok(None));
    assert_eq!(l.next_token(), Ok(None));
}

#[test]
fn keyword_wins_over_identifier() {
    assert_eq!(lex_all("match"), Ok(vec![Token::new(TokenType::Match, pos(1, 0, 0))]));
    assert_eq!(lex_all("import"), Ok(vec![Token::new(TokenType::Import, pos(1, 0, 0))]));
}

#[test]
fn identifier_with_underscore() {
    assert_eq!(
        lex_all("foo_bar"),
        Ok(vec![Token::new(TokenType::Ident("foo_bar"), pos(1, 0, 0))])
    );
}

#[test]
fn identifier_stops_at_digit() {
    let err = lex_all("foo1");
    assert_eq!(
        err,
        Ok(vec![
            Token::new(TokenType::Ident("foo"), pos(1, 0, 0)),
            Token::new(TokenType::Integer(1), pos(1, 3, 3)),
        ])
    );
}

#[test]
fn multi_line_string_keeps_opening_position() {
    let mut l = Lexer::new("\"hi\nthere\"");
    let t = l.next_token().unwrap().unwrap();
    assert_eq!(t, Token::new(TokenType::String("hi\nthere"), pos(1, 0, 0)));
    assert_eq!(l.next_token(), Ok(None));
}

#[test]
fn string_literal_after_newline_counts_lines() {
    let toks = lex_all("\"a\nb\" x").unwrap();
    assert_eq!(toks[0], Token::new(TokenType::String("a\nb"), pos(1, 0, 0)));
    assert_eq!(toks[1], Token::new(TokenType::Ident("x"), pos(2, 3, 6)));
}

#[test]
fn double_equal_is_one_token() {
    assert_eq!(lex_all("=="), Ok(vec![Token::new(TokenType::DoubleEqual, pos(1, 0, 0))]));
}

#[test]
fn bang_at_end_of_input() {
    assert_eq!(lex_all("!"), Ok(vec![Token::new(TokenType::Bang, pos(1, 0, 0))]));
}

#[test]
fn all_operators() {
    let toks = lex_all("! != = == | || & && + += - -= / /= * *=").unwrap();
    let kinds: Vec<TokenType> = toks.iter().map(|t| t.kind).collect();
    assert_eq!(
        kinds,
        vec![
            TokenType::Bang,
            TokenType::BangEqual,
            TokenType::Equal,
            TokenType::DoubleEqual,
            TokenType::Bar,
            TokenType::Or,
            TokenType::Ampersand,
            TokenType::And,
            TokenType::Plus,
            TokenType::PlusEqual,
            TokenType::Minus,
            TokenType::MinusEqual,
            TokenType::Slash,
            TokenType::SlashEqual,
            TokenType::Asterisk,
            TokenType::AsteriskEqual,
        ]
    );
}

#[test]
fn delimiters_need_no_space() {
    let toks = lex_all("([{}])").unwrap();
    let kinds: Vec<TokenType> = toks.iter().map(|t| t.kind).collect();
    assert_eq!(
        kinds,
        vec![
            TokenType::LParen,
            TokenType::LBracket,
            TokenType::LBrace,
            TokenType::RBrace,
            TokenType::RBracket,
            TokenType::RParen,
        ]
    );
    for (i, t) in toks.iter().enumerate() {
        assert_eq!(t.position, pos(1, i, i));
    }
}

#[test]
fn operator_before_tab_and_carriage_return() {
    assert_eq!(
        lex_all("+\t-\r"),
        Ok(vec![
            Token::new(TokenType::Plus, pos(1, 0, 0)),
            Token::new(TokenType::Minus, pos(1, 2, 2)),
        ])
    );
}

#[test]
fn operator_followed_by_digit_is_undefined() {
    assert_eq!(lex_all("1 +2"), Err(LexError::UndefinedToken(pos(1, 2, 2))));
}

#[test]
fn operator_followed_by_newline_is_undefined() {
    assert_eq!(lex_all("=\n"), Err(LexError::UndefinedToken(pos(1, 0, 0))));
}

#[test]
fn unknown_character_is_undefined() {
    assert_eq!(lex_all("a # b"), Err(LexError::UndefinedToken(pos(1, 2, 2))));
    assert_eq!(lex_all("%"), Err(LexError::UndefinedToken(pos(1, 0, 0))));
}

#[test]
fn error_leaves_cursor_on_token() {
    let mut l = Lexer::new("  ;");
    assert_eq!(l.next_token(), Err(LexError::UndefinedToken(pos(1, 2, 2))));
    assert_eq!(l.get_current_char(), Some(';'));
}

#[test]
fn integer_overflow_is_malformed() {
    assert_eq!(
        lex_all("18446744073709551615"),
        Ok(vec![Token::new(TokenType::Integer(u64::MAX), pos(1, 0, 0))])
    );
    assert_eq!(
        lex_all("x 18446744073709551616"),
        Err(LexError::MalformedLiteral(pos(1, 2, 2)))
    );
}

#[test]
fn two_decimal_points_are_malformed() {
    assert_eq!(lex_all("1.2.3"), Err(LexError::MalformedLiteral(pos(1, 0, 0))));
}

#[test]
fn trailing_point_is_not_part_of_number() {
    assert_eq!(lex_all("12."), Err(LexError::UndefinedToken(pos(1, 2, 2))));
    let mut l = Lexer::new("12.");
    assert_eq!(l.next_token(), Ok(Some(Token::new(TokenType::Integer(12), pos(1, 0, 0)))));
}

#[test]
fn unterminated_string() {
    assert_eq!(lex_all("x \"abc"), Err(LexError::UnterminatedString(pos(1, 2, 2))));
}

#[test]
fn empty_and_blank_input() {
    assert_eq!(lex_all(""), Ok(vec![]));
    assert_eq!(lex_all(" \n\t\r\n"), Ok(vec![]));
}

#[test]
fn newlines_reset_column() {
    assert_eq!(
        lex_all("a\n  b"),
        Ok(vec![
            Token::new(TokenType::Ident("a"), pos(1, 0, 0)),
            Token::new(TokenType::Ident("b"), pos(2, 2, 4)),
        ])
    );
}

#[test]
fn offsets_count_characters() {
    let toks = lex_all("\"é\" x").unwrap();
    assert_eq!(toks[0].kind, TokenType::String("é"));
    assert_eq!(toks[1].position, pos(1, 4, 4));
}

#[test]
fn offsets_strictly_increase() {
    let toks = lex_all("( foo == 12 ) { \"s t\" 3.5 }\n import && bar").unwrap();
    assert_eq!(toks.len(), 12);
    for w in toks.windows(2) {
        assert!(w[0].position.offset < w[1].position.offset);
    }
}

#[test]
fn spans_reproduce_text_up_to_space() {
    let text = "( foo == 12 ) \"s t\" 3.5 != bar";
    let toks = lex_all(text).unwrap();
    let chars: Vec<char> = text.chars().collect();
    let spans: Vec<String> = toks
        .iter()
        .map(|t| {
            let len = match t.kind {
                TokenType::Ident(s) | TokenType::Float(s) => s.chars().count(),
                TokenType::String(s) => s.chars().count() + 2,
                TokenType::Integer(n) => n.to_string().len(),
                TokenType::DoubleEqual | TokenType::BangEqual => 2,
                _ => 1,
            };
            chars[t.position.offset..t.position.offset + len].iter().collect()
        })
        .collect();
    assert_eq!(spans.join(" "), text);
}

#[test]
fn peek_does_not_move_cursor() {
    let mut l = Lexer::new("ab c");
    assert_eq!(l.peek(0), Some('a'));
    assert_eq!(l.peek(1), Some('b'));
    assert_eq!(l.peek(1), Some('b'));
    assert_eq!(l.peek(3), Some('c'));
    assert_eq!(l.peek(4), None);
    assert_eq!(l.peek(usize::MAX), None);
    assert_eq!(l.get_current_char(), Some('a'));
    assert_eq!(l.get_peek_char(), Some('b'));
    l.consume_char();
    assert_eq!(l.peek(0), Some('b'));
    assert_eq!(l.get_current_char(), Some('b'));
    assert_eq!(l.get_peek_char(), Some(' '));
    assert_eq!(l.get_nth_char(0), Some('a'));
    assert_eq!(l.get_nth_char(3), Some('c'));
    assert_eq!(l.get_nth_char(4), None);
}

#[test]
fn single_and_double_char_helpers() {
    let mut l = Lexer::new("+==");
    assert_eq!(
        l.lex_single_char(TokenType::Plus),
        Some(Token::new(TokenType::Plus, pos(1, 0, 0)))
    );
    assert_eq!(
        l.lex_double_char(TokenType::DoubleEqual),
        Some(Token::new(TokenType::DoubleEqual, pos(1, 1, 1)))
    );
    assert_eq!(l.get_current_char(), None);
    assert_eq!(l.next_token(), Ok(None));
}

#[test]
fn keyword_table() {
    assert_eq!(TokenType::match_keyword("match"), TokenType::Match);
    assert_eq!(TokenType::match_keyword("import"), TokenType::Import);
    assert_eq!(TokenType::match_keyword("matches"), TokenType::Ident("matches"));
    assert_eq!(TokenType::match_keyword("Match"), TokenType::Ident("Match"));
    assert_eq!(TokenType::match_keyword(""), TokenType::Ident(""));
    let t = Token::from_keyword("import", pos(3, 1, 9));
    assert_eq!(t, Token::new(TokenType::Import, pos(3, 1, 9)));
    let u = Token::from_keyword("imports", pos(1, 0, 0));
    assert_eq!(u.kind, TokenType::Ident("imports"));
}

#[test]
fn position_fields() {
    let p = Position::new(2, 5, 17);
    assert_eq!(p.line, 2);
    assert_eq!(p.column, 5);
    assert_eq!(p.offset, 17);
}

#[test]
fn blank_separated_words_lex_one_token_each() {
    let words = ["match", "(", "x_y", "!=", "42", ")", "\"a b\"", "0.5", "import", "{", "}", "||"];
    let text = words.join(" ");
    let toks = lex_all(&text).unwrap();
    assert_eq!(toks.len(), words.len());
    let mut start = 0;
    for (t, w) in toks.iter().zip(words.iter()) {
        assert_eq!(t.position.offset, start);
        start += w.chars().count() + 1;
    }
    assert_eq!(toks[6].kind, TokenType::String("a b"));
    assert_eq!(toks[4].kind, TokenType::Integer(42));
}
