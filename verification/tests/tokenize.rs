use platec_lexer::errors::LexError;
use platec_lexer::tokenize;
use platec_lexer::Location;
use platec_lexer::NumberKind;
use platec_lexer::Token;
use platec_lexer::TokenKind;

#[test]
fn test_empty_input_yields_no_tokens() {
    let toks = tokenize("").unwrap();
    assert!(toks.is_empty());
}

#[test]
fn test_eof_token_not_surfaced() {
    let toks = tokenize("123 / 123").unwrap();
    assert_eq!(toks.len(), 3);
    assert_eq!(toks[0].kind, TokenKind::Number(NumberKind::Int));
    assert_eq!(toks[1].kind, TokenKind::Slash);
    assert_eq!(toks[2].kind, TokenKind::Number(NumberKind::Int));
}

#[test]
fn test_tokenize_twice_is_identical() {
    let input = "let x = 10\n// note\nx + 2.5";
    let a = tokenize(input).unwrap();
    let b = tokenize(input).unwrap();
    assert_eq!(a, b);
}

#[test]
fn test_round_trip_reconstruction() {
    // Literals plus the skipped whitespace rebuild the input exactly for an
    // input without strings, comments or underscore separators.
    let input = "let abc = 12.5 +\nx";
    let toks = tokenize(input).unwrap();
    let literals: Vec<&str> = toks.iter().map(|t| t.literal.as_str()).collect();
    assert_eq!(literals, ["let", "abc", "=", "12.5", "+", "x"]);
    let rebuilt = format!(
        "{} {} {} {} {}\n{}",
        literals[0], literals[1], literals[2], literals[3], literals[4], literals[5]
    );
    assert_eq!(rebuilt, input);
}

#[test]
fn test_mixed_newline_locations_agree() {
    let a = tokenize("x\ny\nz").unwrap();
    let b = tokenize("x\r\ny\r\nz").unwrap();
    assert_eq!(a.len(), b.len());
    for (ta, tb) in a.iter().zip(b.iter()) {
        assert_eq!(ta.loc, tb.loc);
        assert_eq!(ta.literal, tb.literal);
    }
}

#[test]
fn test_nel_is_whitespace_not_newline() {
    let toks = tokenize("a\u{0085}b").unwrap();
    assert_eq!(toks.len(), 2);
    assert_eq!(toks[0].loc, Location::new(0, 0));
    assert_eq!(toks[1].loc, Location::new(0, 2));
}

#[test]
fn test_underscore_separator_dropped() {
    let toks = tokenize("1_000_000").unwrap();
    assert_eq!(toks.len(), 1);
    assert_eq!(toks[0].kind, TokenKind::Number(NumberKind::Int));
    assert_eq!(toks[0].literal, "1000000");
}

#[test]
fn test_leading_dot_is_dot_token() {
    let toks = tokenize(".5").unwrap();
    assert_eq!(toks.len(), 2);
    assert_eq!(toks[0].kind, TokenKind::Dot);
    assert_eq!(toks[1].kind, TokenKind::Number(NumberKind::Int));
    assert_eq!(toks[1].literal, "5");
}

#[test]
fn test_malformed_number_error() {
    assert_eq!(tokenize("123.456.7890"), Err(LexError::MalformedNumber));
}

#[test]
fn test_unterminated_string_error() {
    assert_eq!(tokenize("\"abc"), Err(LexError::UnterminatedString));
    assert_eq!(tokenize("\"ab\ncd\""), Err(LexError::UnterminatedString));
}

#[test]
fn test_unsupported_character_error() {
    assert_eq!(tokenize("#"), Err(LexError::UnsupportedCharacter));
    assert_eq!(tokenize("'c'"), Err(LexError::UnsupportedCharacter));
}

#[test]
fn test_reserved_word_error() {
    let reserved: String = ['w', 'h', 'i', 'l', 'e'].iter().collect();
    assert_eq!(
        tokenize(&reserved),
        Err(LexError::ReservedUnimplementedKeyword)
    );
    assert_eq!(
        tokenize("ret"),
        Err(LexError::ReservedUnimplementedKeyword)
    );
}

#[test]
fn test_sentinel_character_ends_scan() {
    // A literal NUL reads as the end-of-input sentinel: scanning stops there.
    let toks = tokenize("a\u{0000}b").unwrap();
    assert_eq!(toks.len(), 1);
    assert_eq!(toks[0].literal, "a");
}

#[test]
fn test_escaped_quote_kept_verbatim() {
    let toks = tokenize(r#""hi \"bob\"""#).unwrap();
    assert_eq!(toks.len(), 1);
    assert_eq!(toks[0].kind, TokenKind::String);
    assert_eq!(toks[0].literal, "hi \\\"bob\\\"");
}

#[test]
fn test_comment_location_and_following_row() {
    let toks = tokenize("// test\nx").unwrap();
    assert_eq!(toks.len(), 2);
    assert_eq!(
        toks[0],
        Token::new(
            TokenKind::Comment,
            String::from("// test"),
            Location::new(0, 0)
        )
    );
    assert_eq!(toks[1].loc, Location::new(1, 0));
}

#[test]
fn test_all_single_char_kinds() {
    let input = "-+/*:;()[]{}=!<>&|.";
    let toks = tokenize(input).unwrap();
    let kinds = [
        TokenKind::Minus,
        TokenKind::Plus,
        TokenKind::Slash,
        TokenKind::Star,
        TokenKind::Colon,
        TokenKind::SemiColon,
        TokenKind::OpenParen,
        TokenKind::CloseParen,
        TokenKind::OpenBracket,
        TokenKind::CloseBracket,
        TokenKind::OpenBrace,
        TokenKind::CloseBrace,
        TokenKind::Eq,
        TokenKind::Bang,
        TokenKind::Lt,
        TokenKind::Gt,
        TokenKind::Ampersand,
        TokenKind::Pipe,
        TokenKind::Dot,
    ];
    assert_eq!(toks.len(), kinds.len());
    for (i, t) in toks.iter().enumerate() {
        assert_eq!(t.kind, kinds[i]);
        assert_eq!(t.loc, Location::new(0, i));
    }
}
