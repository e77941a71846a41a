//! The mathematical model of the lexer: pure specification functions that say
//! what the cursor's position bookkeeping does and which token begins at any
//! point of the input.  The executable code in `cursor` and the crate root is
//! proved to agree with these functions.

use vstd::prelude::*;

use crate::errors::LexError;
use crate::KeywordKind;
use crate::NumberKind;
use crate::TokenKind;

verus! {

/// A source position with unbounded coordinates, for specification use.
pub ghost struct SpecLoc {
    pub row: int,
    pub col: int,
}

/// A token as the specification sees it: its kind, the characters of its
/// literal, and the position of its first character.
pub ghost struct SpecTok {
    pub kind: TokenKind,
    pub literal: Seq<char>,
    pub row: int,
    pub col: int,
}

/// The fixed whitespace classification table: the usual ASCII whitespace
/// characters, NEL, the two bidirectional marks, and the two dedicated
/// Unicode separators.
pub open spec fn is_whitespace_char(c: char) -> bool {
    ||| c == '\u{0009}'
    ||| c == '\u{000A}'
    ||| c == '\u{000B}'
    ||| c == '\u{000C}'
    ||| c == '\u{000D}'
    ||| c == '\u{0020}'
    ||| c == '\u{0085}'
    ||| c == '\u{200E}'
    ||| c == '\u{200F}'
    ||| c == '\u{2028}'
    ||| c == '\u{2029}'
}

/// Identifier characters: one class covers both start and continuation
/// (digits are intercepted by the number dispatch before this is consulted).
pub open spec fn is_ident_char(c: char) -> bool {
    ||| ('a' <= c && c <= 'z')
    ||| ('A' <= c && c <= 'Z')
    ||| ('0' <= c && c <= '9')
    ||| c == '_'
}

/// A decimal digit.
pub open spec fn is_digit_char(c: char) -> bool {
    '0' <= c && c <= '9'
}

/// The position reached from `row`/`col` after consuming all of `s`,
/// counting a bare line feed or a carriage-return/line-feed pair as one
/// logical newline: the row increments and the column resets; any other
/// character advances the column by one.
pub open spec fn loc_after(row: int, col: int, s: Seq<char>) -> SpecLoc
    decreases s.len(),
{
    if s.len() == 0 {
        SpecLoc { row, col }
    } else if s[0] == '\n' {
        loc_after(row + 1, 0, s.skip(1))
    } else if s[0] == '\r' && s.len() > 1 && s[1] == '\n' {
        loc_after(row + 1, 0, s.skip(2))
    } else {
        loc_after(row, col + 1, s.skip(1))
    }
}

/// Position tracking composes over concatenation, provided the split does not
/// separate a carriage return from the line feed that follows it.
pub proof fn lemma_loc_after_append(row: int, col: int, a: Seq<char>, b: Seq<char>)
    requires
        !(a.len() > 0 && b.len() > 0 && a.last() == '\r' && b.first() == '\n'),
    ensures
        loc_after(row, col, a + b) == loc_after(
            loc_after(row, col, a).row,
            loc_after(row, col, a).col,
            b,
        ),
    decreases a.len(),
{
    if a.len() == 0 {
        assert(a + b =~= b);
    } else {
        assert((a + b)[0] == a[0]);
        if a[0] == '\n' {
            assert((a + b).skip(1) =~= a.skip(1) + b);
            if a.skip(1).len() > 0 {
                assert(a.skip(1).last() == a.last());
            }
            lemma_loc_after_append(row + 1, 0, a.skip(1), b);
        } else if a[0] == '\r' && a.len() > 1 && a[1] == '\n' {
            assert((a + b)[1] == a[1]);
            assert((a + b).skip(2) =~= a.skip(2) + b);
            if a.skip(2).len() > 0 {
                assert(a.skip(2).last() == a.last());
            }
            lemma_loc_after_append(row + 1, 0, a.skip(2), b);
        } else {
            if a.len() == 1 {
                if a[0] == '\r' && b.len() > 0 {
                    assert((a + b)[1] == b[0]);
                    assert(b[0] != '\n');
                }
                assert((a + b).skip(1) =~= b);
                assert(a.skip(1) =~= Seq::<char>::empty());
            } else {
                assert((a + b)[1] == a[1]);
                assert((a + b).skip(1) =~= a.skip(1) + b);
                assert(a.skip(1).last() == a.last());
            }
            lemma_loc_after_append(row, col + 1, a.skip(1), b);
        }
    }
}

/// One consumed bare line feed: the row increments, the column resets.
pub proof fn lemma_loc_after_newline(row: int, col: int, s: Seq<char>)
    requires
        s.len() == 1,
        s[0] == '\n',
    ensures
        loc_after(row, col, s) == (SpecLoc { row: row + 1, col: 0 }),
{
    assert(s.skip(1) =~= Seq::<char>::empty());
    assert(loc_after(row + 1, 0, Seq::<char>::empty()) == (SpecLoc { row: row + 1, col: 0 }));
}

/// One consumed carriage-return/line-feed pair: the row increments once, the
/// column resets.
pub proof fn lemma_loc_after_crlf(row: int, col: int, s: Seq<char>)
    requires
        s.len() == 2,
        s[0] == '\r',
        s[1] == '\n',
    ensures
        loc_after(row, col, s) == (SpecLoc { row: row + 1, col: 0 }),
{
    assert(s.skip(2) =~= Seq::<char>::empty());
    assert(loc_after(row + 1, 0, Seq::<char>::empty()) == (SpecLoc { row: row + 1, col: 0 }));
}

/// One consumed ordinary character: the column advances by one.
pub proof fn lemma_loc_after_plain(row: int, col: int, s: Seq<char>)
    requires
        s.len() == 1,
        s[0] != '\n',
    ensures
        loc_after(row, col, s) == (SpecLoc { row, col: col + 1 }),
{
    assert(s.skip(1) =~= Seq::<char>::empty());
    assert(loc_after(row, col + 1, Seq::<char>::empty()) == (SpecLoc { row, col: col + 1 }));
}

/// The coordinates reached are bounded by the characters consumed.
pub proof fn lemma_loc_after_bounds(row: int, col: int, s: Seq<char>)
    requires
        0 <= row,
        0 <= col,
    ensures
        0 <= loc_after(row, col, s).row <= row + s.len(),
        0 <= loc_after(row, col, s).col <= col + s.len(),
    decreases s.len(),
{
    if s.len() == 0 {
    } else if s[0] == '\n' {
        lemma_loc_after_bounds(row + 1, 0, s.skip(1));
    } else if s[0] == '\r' && s.len() > 1 && s[1] == '\n' {
        lemma_loc_after_bounds(row + 1, 0, s.skip(2));
    } else {
        lemma_loc_after_bounds(row, col + 1, s.skip(1));
    }
}

/// The kind of the fixed single-character token that `c` alone forms, if
/// any.  The slash is resolved here as well; whether it instead opens a
/// comment is decided by one character of lookahead in the dispatch.
pub open spec fn single_char_kind(c: char) -> Option<TokenKind> {
    if c == '-' {
        Some(TokenKind::Minus)
    } else if c == '+' {
        Some(TokenKind::Plus)
    } else if c == '/' {
        Some(TokenKind::Slash)
    } else if c == '*' {
        Some(TokenKind::Star)
    } else if c == ':' {
        Some(TokenKind::Colon)
    } else if c == ';' {
        Some(TokenKind::SemiColon)
    } else if c == '(' {
        Some(TokenKind::OpenParen)
    } else if c == ')' {
        Some(TokenKind::CloseParen)
    } else if c == '[' {
        Some(TokenKind::OpenBracket)
    } else if c == ']' {
        Some(TokenKind::CloseBracket)
    } else if c == '{' {
        Some(TokenKind::OpenBrace)
    } else if c == '}' {
        Some(TokenKind::CloseBrace)
    } else if c == '=' {
        Some(TokenKind::Eq)
    } else if c == '!' {
        Some(TokenKind::Bang)
    } else if c == '<' {
        Some(TokenKind::Lt)
    } else if c == '>' {
        Some(TokenKind::Gt)
    } else if c == '&' {
        Some(TokenKind::Ampersand)
    } else if c == '|' {
        Some(TokenKind::Pipe)
    } else if c == '.' {
        Some(TokenKind::Dot)
    } else {
        None
    }
}

/// The keyword kind a finished identifier run spells, if any.
pub open spec fn keyword_of(s: Seq<char>) -> Option<KeywordKind> {
    if s == seq!['l', 'e', 't'] {
        Some(KeywordKind::Let)
    } else if s == seq!['f', 'n'] {
        Some(KeywordKind::Fn)
    } else if s == seq!['l', 'o', 'o', 'p'] {
        Some(KeywordKind::Loop)
    } else if s == seq!['b', 'r', 'e', 'a', 'k'] {
        Some(KeywordKind::Break)
    } else if s == seq!['i', 'n', 'c', 'l', 'u', 'd', 'e'] {
        Some(KeywordKind::Include)
    } else if s == seq!['e', 'x', 't', 'e', 'r', 'n'] {
        Some(KeywordKind::Extern)
    } else {
        None
    }
}

/// The spellings reserved for future language features; an identifier run
/// that matches one is rejected rather than accepted as an identifier.
pub open spec fn is_reserved_word(s: Seq<char>) -> bool {
    ||| s == seq!['t', 'r', 'u', 'e']
    ||| s == seq!['f', 'a', 'l', 's', 'e']
    ||| s == seq!['w', 'h', 'i', 'l', 'e']
    ||| s == seq!['f', 'o', 'r']
    ||| s == seq!['r', 'e', 't']
}

/// The maximal identifier run at the front of `s`.
pub open spec fn take_while_ident(s: Seq<char>) -> Seq<char>
    decreases s.len(),
{
    if s.len() == 0 || !is_ident_char(s[0]) {
        Seq::empty()
    } else {
        seq![s[0]] + take_while_ident(s.skip(1))
    }
}

/// Scans a numeric literal at the front of `s`: a maximal run of digits,
/// underscores (dropped from the literal) and at most one decimal point.
/// Returns the literal, the count of characters consumed, and whether a
/// decimal point was seen; a second decimal point is an error.
pub open spec fn scan_number(s: Seq<char>, dot_seen: bool) -> Result<(Seq<char>, int, bool), ()>
    decreases s.len(),
{
    if s.len() == 0 {
        Ok((Seq::empty(), 0, dot_seen))
    } else if is_digit_char(s[0]) {
        match scan_number(s.skip(1), dot_seen) {
            Ok((lit, n, dot)) => Ok((seq![s[0]] + lit, n + 1, dot)),
            Err(e) => Err(e),
        }
    } else if s[0] == '_' {
        match scan_number(s.skip(1), dot_seen) {
            Ok((lit, n, dot)) => Ok((lit, n + 1, dot)),
            Err(e) => Err(e),
        }
    } else if s[0] == '.' {
        if dot_seen {
            Err(())
        } else {
            match scan_number(s.skip(1), true) {
                Ok((lit, n, dot)) => Ok((seq!['.'] + lit, n + 1, dot)),
                Err(e) => Err(e),
            }
        }
    } else {
        Ok((Seq::empty(), 0, dot_seen))
    }
}

/// Scans a string literal body; `s` starts just past the opening quote.
/// The two-character escape of a quote is kept verbatim; an unescaped quote
/// closes the literal and is consumed but excluded from it; a line break or
/// the end of the input before the closing quote is an error.  Returns the
/// literal and the count of characters consumed (closing quote included).
pub open spec fn scan_string(s: Seq<char>) -> Result<(Seq<char>, int), ()>
    decreases s.len(),
{
    if s.len() == 0 {
        Err(())
    } else if s[0] == '\n' || (s[0] == '\r' && s.len() > 1 && s[1] == '\n') {
        Err(())
    } else if s[0] == '\\' && s.len() > 1 && s[1] == '"' {
        match scan_string(s.skip(2)) {
            Ok((lit, n)) => Ok((seq!['\\', '"'] + lit, n + 2)),
            Err(e) => Err(e),
        }
    } else if s[0] == '"' {
        Ok((Seq::empty(), 1))
    } else {
        match scan_string(s.skip(1)) {
            Ok((lit, n)) => Ok((seq![s[0]] + lit, n + 1)),
            Err(e) => Err(e),
        }
    }
}

/// Scans a comment; `s` starts at the first slash of a confirmed double
/// slash.  Everything up to the line break or the end of the input goes into
/// the literal; a terminating line break is consumed but excluded.  Returns
/// the literal and the count of characters consumed.
pub open spec fn scan_comment(s: Seq<char>) -> (Seq<char>, int)
    decreases s.len(),
{
    if s.len() == 0 {
        (Seq::empty(), 0)
    } else if s[0] == '\n' {
        (Seq::empty(), 1)
    } else if s[0] == '\r' && s.len() > 1 && s[1] == '\n' {
        (Seq::empty(), 2)
    } else {
        let (lit, n) = scan_comment(s.skip(1));
        (seq![s[0]] + lit, n + 1)
    }
}

/// Adds `d` to the consumed-character count of a dispatch outcome.
pub open spec fn shift_next(r: Result<(Option<SpecTok>, int), LexError>, d: int) -> Result<
    (Option<SpecTok>, int),
    LexError,
> {
    match r {
        Ok((t, n)) => Ok((t, n + d)),
        Err(e) => Err(e),
    }
}

/// The single dispatch step of the lexer at position `row`/`col` of the
/// input suffix `s`: skips whitespace, then classifies the next token.
/// `Ok((Some(t), n))` means token `t` was produced and `n` characters were
/// consumed in total (skipped whitespace included); `Ok((None, n))` means
/// the end of the input (or the sentinel character) was reached after `n`
/// skipped whitespace characters, and only the terminal end-of-input marker
/// remains; `Err` reports the error condition the scan ran into.
pub open spec fn next_token_spec(s: Seq<char>, row: int, col: int) -> Result<
    (Option<SpecTok>, int),
    LexError,
>
    decreases s.len(),
{
    if s.len() == 0 {
        Ok((None, 0))
    } else if is_whitespace_char(s[0]) {
        if s[0] == '\n' {
            shift_next(next_token_spec(s.skip(1), row + 1, 0), 1)
        } else if s[0] == '\r' && s.len() > 1 && s[1] == '\n' {
            shift_next(next_token_spec(s.skip(2), row + 1, 0), 2)
        } else {
            shift_next(next_token_spec(s.skip(1), row, col + 1), 1)
        }
    } else if single_char_kind(s[0]) is Some && !(s[0] == '/' && s.len() > 1 && s[1] == '/') {
        Ok((Some(SpecTok { kind: single_char_kind(s[0])->0, literal: seq![s[0]], row, col }), 1))
    } else if s[0] == '\u{0000}' {
        Ok((None, 0))
    } else if s[0] == '/' {
        let (lit, n) = scan_comment(s);
        Ok((Some(SpecTok { kind: TokenKind::Comment, literal: lit, row, col }), n))
    } else if is_digit_char(s[0]) {
        match scan_number(s, false) {
            Ok((lit, n, dot)) => Ok(
                (
                    Some(
                        SpecTok {
                            kind: TokenKind::Number(
                                if dot {
                                    NumberKind::Float
                                } else {
                                    NumberKind::Int
                                },
                            ),
                            literal: lit,
                            row,
                            col,
                        },
                    ),
                    n,
                ),
            ),
            Err(_) => Err(LexError::MalformedNumber),
        }
    } else if s[0] == '\'' {
        Err(LexError::UnsupportedCharacter)
    } else if s[0] == '"' {
        match scan_string(s.skip(1)) {
            Ok((lit, n)) => Ok(
                (Some(SpecTok { kind: TokenKind::String, literal: lit, row, col }), n + 1),
            ),
            Err(_) => Err(LexError::UnterminatedString),
        }
    } else if is_ident_char(s[0]) {
        let lit = take_while_ident(s);
        if keyword_of(lit) is Some {
            Ok(
                (
                    Some(
                        SpecTok {
                            kind: TokenKind::Keyword(keyword_of(lit)->0),
                            literal: lit,
                            row,
                            col,
                        },
                    ),
                    lit.len() as int,
                ),
            )
        } else if is_reserved_word(lit) {
            Err(LexError::ReservedUnimplementedKeyword)
        } else {
            Ok((Some(SpecTok { kind: TokenKind::Ident, literal: lit, row, col }), lit.len() as int))
        }
    } else {
        Err(LexError::UnsupportedCharacter)
    }
}

/// Every dispatch outcome consumes within the bounds of the suffix, and a
/// produced token consumes at least one character.
pub proof fn lemma_next_token_spec_bounds(s: Seq<char>, row: int, col: int)
    ensures
        match next_token_spec(s, row, col) {
            Ok((ot, n)) => 0 <= n <= s.len() && (match ot {
                Some(t) => 1 <= n && t.kind != TokenKind::Eof,
                None => true,
            }),
            Err(_) => true,
        },
    decreases s.len(),
{
    if s.len() == 0 {
    } else if is_whitespace_char(s[0]) {
        if s[0] == '\n' {
            lemma_next_token_spec_bounds(s.skip(1), row + 1, 0);
        } else if s[0] == '\r' && s.len() > 1 && s[1] == '\n' {
            lemma_next_token_spec_bounds(s.skip(2), row + 1, 0);
        } else {
            lemma_next_token_spec_bounds(s.skip(1), row, col + 1);
        }
    } else if single_char_kind(s[0]) is Some && !(s[0] == '/' && s.len() > 1 && s[1] == '/') {
    } else if s[0] == '\u{0000}' {
    } else if s[0] == '/' {
        lemma_scan_comment_bounds(s);
    } else if is_digit_char(s[0]) {
        lemma_scan_number_bounds(s, false);
    } else if s[0] == '\'' {
    } else if s[0] == '"' {
        lemma_scan_string_bounds(s.skip(1));
    } else if is_ident_char(s[0]) {
        lemma_take_while_ident_bounds(s);
    } else {
    }
}

/// The comment scanner consumes between one character and the whole suffix.
pub proof fn lemma_scan_comment_bounds(s: Seq<char>)
    ensures
        scan_comment(s).1 <= s.len(),
        s.len() > 0 ==> 1 <= scan_comment(s).1,
        scan_comment(s).0.len() <= scan_comment(s).1,
    decreases s.len(),
{
    if s.len() == 0 {
    } else if s[0] == '\n' {
    } else if s[0] == '\r' && s.len() > 1 && s[1] == '\n' {
    } else {
        lemma_scan_comment_bounds(s.skip(1));
    }
}

/// A successful number scan consumes between one character (when entered at
/// a digit) and the whole suffix.
pub proof fn lemma_scan_number_bounds(s: Seq<char>, dot_seen: bool)
    ensures
        match scan_number(s, dot_seen) {
            Ok((lit, n, _)) => 0 <= n <= s.len() && lit.len() <= n && (s.len() > 0
                && is_digit_char(s[0]) ==> 1 <= n),
            Err(_) => true,
        },
    decreases s.len(),
{
    if s.len() == 0 {
    } else if is_digit_char(s[0]) || s[0] == '_' {
        lemma_scan_number_bounds(s.skip(1), dot_seen);
    } else if s[0] == '.' && !dot_seen {
        lemma_scan_number_bounds(s.skip(1), true);
    } else {
    }
}

/// A successful string-body scan consumes between one character and the
/// whole suffix.
pub proof fn lemma_scan_string_bounds(s: Seq<char>)
    ensures
        match scan_string(s) {
            Ok((lit, n)) => 1 <= n <= s.len() && lit.len() < n,
            Err(_) => true,
        },
    decreases s.len(),
{
    if s.len() == 0 {
    } else if s[0] == '\n' || (s[0] == '\r' && s.len() > 1 && s[1] == '\n') {
    } else if s[0] == '\\' && s.len() > 1 && s[1] == '"' {
        lemma_scan_string_bounds(s.skip(2));
    } else if s[0] == '"' {
    } else {
        lemma_scan_string_bounds(s.skip(1));
    }
}

/// An identifier run is no longer than the suffix, and is non-empty exactly
/// when the suffix starts with an identifier character.
pub proof fn lemma_take_while_ident_bounds(s: Seq<char>)
    ensures
        take_while_ident(s).len() <= s.len(),
        s.len() > 0 && is_ident_char(s[0]) ==> take_while_ident(s).len() >= 1,
    decreases s.len(),
{
    if s.len() == 0 || !is_ident_char(s[0]) {
    } else {
        lemma_take_while_ident_bounds(s.skip(1));
    }
}

/// A run of identifier characters stopped by the first non-identifier
/// character (or the end of the input) is exactly the maximal identifier run.
pub proof fn lemma_take_while_ident_matches(s: Seq<char>, n: int)
    requires
        0 <= n <= s.len(),
        forall|i: int| 0 <= i < n ==> is_ident_char(#[trigger] s[i]),
        n == s.len() || !is_ident_char(s[n]),
    ensures
        take_while_ident(s) == s.take(n),
    decreases s.len(),
{
    if n == 0 {
        assert(s.take(0) =~= Seq::<char>::empty());
    } else {
        assert(is_ident_char(s[0]));
        assert(forall|i: int| 0 <= i < n - 1 ==> is_ident_char(#[trigger] s.skip(1)[i]));
        lemma_take_while_ident_matches(s.skip(1), n - 1);
        assert(seq![s[0]] + s.skip(1).take(n - 1) =~= s.take(n));
    }
}

/// The token sequence of the input suffix `s`, scanned from position
/// `row`/`col`: tokens are produced in order until the dispatch reports the
/// end of the input, whose terminal marker is not part of the sequence; the
/// first error aborts the whole scan.
pub open spec fn tokenize_spec_from(s: Seq<char>, row: int, col: int) -> Result<
    Seq<SpecTok>,
    LexError,
>
    decreases s.len(),
{
    match next_token_spec(s, row, col) {
        Err(e) => Err(e),
        Ok((ot, n)) => match ot {
            None => Ok(Seq::empty()),
            Some(t) => {
                if 1 <= n <= s.len() {
                    let l2 = loc_after(row, col, s.take(n));
                    match tokenize_spec_from(s.skip(n), l2.row, l2.col) {
                        Err(e) => Err(e),
                        Ok(rest) => Ok(seq![t] + rest),
                    }
                } else {
                    Ok(Seq::empty())
                }
            },
        },
    }
}

/// The token sequence of the whole input.
pub open spec fn tokenize_spec(s: Seq<char>) -> Result<Seq<SpecTok>, LexError> {
    tokenize_spec_from(s, 0, 0)
}

} // verus!
