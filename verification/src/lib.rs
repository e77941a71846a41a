use vstd::prelude::*;

pub mod cursor;
pub mod errors;
pub mod laws;
pub mod model;

use cursor::Cursor;
use cursor::EOF_CHAR;
use errors::LexError;
use model::lemma_loc_after_append;
use model::lemma_next_token_spec_bounds;
use model::next_token_spec;
use model::shift_next;
use model::tokenize_spec;
use model::tokenize_spec_from;
use model::is_ident_char;
use model::is_whitespace_char;
use model::keyword_of;
use model::is_reserved_word;
use model::lemma_take_while_ident_matches;
use model::scan_comment;
use model::scan_number;
use model::scan_string;
use model::single_char_kind;
use model::SpecTok;

verus! {

/// One classified unit of source text: its kind, its exact text, and the
/// position of its first character.
#[derive(Debug, PartialEq)]
pub struct Token {
    pub kind: TokenKind,
    pub literal: String,
    /// start location of the token
    pub loc: Location,
}

/// The closed set of token classes the lexer produces.
#[derive(Debug, Clone, Copy, PartialEq, Eq, Structural)]
pub enum TokenKind {
    /// -
    Minus,
    /// +
    Plus,
    /// /
    Slash,
    /// *
    Star,
    /// :
    Colon,
    /// ;
    SemiColon,
    /// (
    OpenParen,
    /// )
    CloseParen,
    /// [
    OpenBracket,
    /// ]
    CloseBracket,
    /// {
    OpenBrace,
    /// }
    CloseBrace,
    /// =
    Eq,
    /// !
    Bang,
    /// <
    Lt,
    /// >
    Gt,
    /// &
    Ampersand,
    /// |
    Pipe,
    /// .
    Dot,
    Ident,
    Keyword(KeywordKind),
    Number(NumberKind),
    Comment,
    String,
    /// Signals exhaustion of the input; never yielded by `tokenize`.
    Eof,
}

/// The two quote characters a literal could use; only the double quote is
/// scanned today.
#[derive(Debug, Clone, Copy, PartialEq, Eq, Structural)]
pub enum QuoteKind {
    Single,
    Double,
}

/// Whether a numeric literal carried a decimal point.
#[derive(Debug, Clone, Copy, PartialEq, Eq, Structural)]
pub enum NumberKind {
    Int,
    Float,
}

/// The reserved spellings the lexer recognizes as keywords.
#[derive(Debug, Clone, Copy, PartialEq, Eq, Structural)]
pub enum KeywordKind {
    Let,
    Fn,
    Loop,
    Break,
    Include,
    Extern,
}

/// A zero-based source position: `row` counts logical line breaks consumed,
/// `col` counts characters consumed since the last line break.
#[derive(Debug, Clone, Copy, PartialEq, Eq, Structural)]
pub struct Location {
    pub row: usize,
    pub col: usize,
}

impl Token {
    pub fn new(kind: TokenKind, literal: String, loc: Location) -> (t: Token)
        ensures
            t.kind == kind,
            t.literal == literal,
            t.loc == loc,
    {
        Token { kind, literal, loc }
    }
}

impl Location {
    pub fn new(row: usize, col: usize) -> (l: Location)
        ensures
            l.row == row,
            l.col == col,
    {
        Location { row, col }
    }
}

/// Relies on String::push: appends exactly the one character to the end of
/// the string.
#[verifier::external_body]
fn push_char(s: &mut String, c: char)
    ensures
        final(s)@ == old(s)@.push(c),
{
    s.push(c);
}

/// Builds the string holding exactly the given characters.
fn string_of_chars(v: &Vec<char>) -> (s: String)
    ensures
        s@ == v@,
{
    let mut s = String::new();
    let mut i: usize = 0;
    while i < v.len()
        invariant
            i <= v@.len(),
            s@ == v@.take(i as int),
        decreases v@.len() - i,
    {
        push_char(&mut s, v[i]);
        proof {
            assert(s@ =~= v@.take(i + 1));
        }
        i = i + 1;
    }
    proof {
        assert(v@.take(v@.len() as int) =~= v@);
    }
    s
}

/// Builds the one-character string.
fn string_of_char(c: char) -> (s: String)
    ensures
        s@ == seq![c],
{
    let mut s = String::new();
    push_char(&mut s, c);
    proof {
        assert(s@ =~= seq![c]);
    }
    s
}

/// Compares two character runs for equality.
fn chars_eq(a: &Vec<char>, b: &Vec<char>) -> (r: bool)
    ensures
        r == (a@ == b@),
{
    if a.len() != b.len() {
        return false;
    }
    let mut i: usize = 0;
    while i < a.len()
        invariant
            i <= a@.len(),
            a@.len() == b@.len(),
            forall|j: int| 0 <= j < i ==> a@[j] == b@[j],
        decreases a@.len() - i,
    {
        if a[i] != b[i] {
            return false;
        }
        i = i + 1;
    }
    proof {
        assert(a@ =~= b@);
    }
    true
}

/// The fixed whitespace classification table.
fn is_whitespace(c: char) -> (r: bool)
    ensures
        r == is_whitespace_char(c),
{
    c == '\u{0009}' || c == '\u{000A}' || c == '\u{000B}' || c == '\u{000C}' || c == '\u{000D}'
        || c == '\u{0020}' || c == '\u{0085}' || c == '\u{200E}' || c == '\u{200F}'
        || c == '\u{2028}' || c == '\u{2029}'
}

/// Identifier start/continue characters: ASCII letters, digits, underscore.
fn is_ident(c: char) -> (r: bool)
    ensures
        r == is_ident_char(c),
{
    ('a' <= c && c <= 'z') || ('A' <= c && c <= 'Z') || ('0' <= c && c <= '9') || c == '_'
}

/// The fixed single-character token kind for `c`, if it has one.
fn single_kind(c: char) -> (r: Option<TokenKind>)
    ensures
        r == single_char_kind(c),
{
    if c == '-' {
        Some(TokenKind::Minus)
    } else if c == '+' {
        Some(TokenKind::Plus)
    } else if c == '/' {
        Some(TokenKind::Slash)
    } else if c == '*' {
        Some(TokenKind::Star)
    } else if c == ':' {
        Some(TokenKind::Colon)
    } else if c == ';' {
        Some(TokenKind::SemiColon)
    } else if c == '(' {
        Some(TokenKind::OpenParen)
    } else if c == ')' {
        Some(TokenKind::CloseParen)
    } else if c == '[' {
        Some(TokenKind::OpenBracket)
    } else if c == ']' {
        Some(TokenKind::CloseBracket)
    } else if c == '{' {
        Some(TokenKind::OpenBrace)
    } else if c == '}' {
        Some(TokenKind::CloseBrace)
    } else if c == '=' {
        Some(TokenKind::Eq)
    } else if c == '!' {
        Some(TokenKind::Bang)
    } else if c == '<' {
        Some(TokenKind::Lt)
    } else if c == '>' {
        Some(TokenKind::Gt)
    } else if c == '&' {
        Some(TokenKind::Ampersand)
    } else if c == '|' {
        Some(TokenKind::Pipe)
    } else if c == '.' {
        Some(TokenKind::Dot)
    } else {
        None
    }
}

/// Classifies a finished identifier run: a keyword spelling maps to its
/// kind, a reserved-but-unimplemented spelling is rejected, everything else
/// is an identifier.
fn classify_ident(chars: &Vec<char>) -> (r: Result<TokenKind, LexError>)
    ensures
        (match keyword_of(chars@) {
            Some(kw) => r == Ok::<TokenKind, LexError>(TokenKind::Keyword(kw)),
            None => {
                if is_reserved_word(chars@) {
                    r == Err::<TokenKind, LexError>(LexError::ReservedUnimplementedKeyword)
                } else {
                    r == Ok::<TokenKind, LexError>(TokenKind::Ident)
                }
            },
        }),
{
    let w_let: Vec<char> = vec!['l', 'e', 't'];
    let w_fn: Vec<char> = vec!['f', 'n'];
    let w_loop: Vec<char> = vec!['l', 'o', 'o', 'p'];
    let w_break: Vec<char> = vec!['b', 'r', 'e', 'a', 'k'];
    let w_incl: Vec<char> = vec!['i', 'n', 'c', 'l', 'u', 'd', 'e'];
    let w_ext: Vec<char> = vec!['e', 'x', 't', 'e', 'r', 'n'];
    let r_true: Vec<char> = vec!['t', 'r', 'u', 'e'];
    let r_false: Vec<char> = vec!['f', 'a', 'l', 's', 'e'];
    let r_while: Vec<char> = vec!['w', 'h', 'i', 'l', 'e'];
    let r_for: Vec<char> = vec!['f', 'o', 'r'];
    let r_ret: Vec<char> = vec!['r', 'e', 't'];
    if chars_eq(chars, &w_let) {
        Ok(TokenKind::Keyword(KeywordKind::Let))
    } else if chars_eq(chars, &w_fn) {
        Ok(TokenKind::Keyword(KeywordKind::Fn))
    } else if chars_eq(chars, &w_loop) {
        Ok(TokenKind::Keyword(KeywordKind::Loop))
    } else if chars_eq(chars, &w_break) {
        Ok(TokenKind::Keyword(KeywordKind::Break))
    } else if chars_eq(chars, &w_incl) {
        Ok(TokenKind::Keyword(KeywordKind::Include))
    } else if chars_eq(chars, &w_ext) {
        Ok(TokenKind::Keyword(KeywordKind::Extern))
    } else if chars_eq(chars, &r_true) || chars_eq(chars, &r_false) || chars_eq(chars, &r_while)
        || chars_eq(chars, &r_for) || chars_eq(chars, &r_ret) {
        Err(LexError::ReservedUnimplementedKeyword)
    } else {
        Ok(TokenKind::Ident)
    }
}

impl Cursor {
    /// Scans a comment from the first slash of a confirmed double slash:
    /// everything up to the line break (consumed, but excluded from the
    /// literal) or the end of the input becomes the literal.
    fn eat_comment(&mut self, loc: Location) -> (r: Token)
        requires
            old(self).wf(),
        ensures
            final(self).wf(),
            final(self).input@ == old(self).input@,
            ({
                let (lit, n) = scan_comment(old(self).remaining());
                &&& r.kind == TokenKind::Comment
                &&& r.literal@ == lit
                &&& r.loc == loc
                &&& final(self).pos == old(self).pos + n
            }),
    {
        let mut lit: Vec<char> = Vec::new();
        loop
            invariant_except_break
                ({
                    let (l0, n0) = scan_comment(old(self).remaining());
                    let (l1, n1) = scan_comment(self.remaining());
                    l0 == lit@ + l1 && n0 == (self.pos - old(self).pos) + n1
                }),
            invariant
                self.wf(),
                self.input@ == old(self).input@,
                old(self).pos <= self.pos,
            ensures
                self.wf(),
                self.input@ == old(self).input@,
                old(self).pos <= self.pos,
                ({
                    let (l0, n0) = scan_comment(old(self).remaining());
                    l0 == lit@ && n0 == self.pos - old(self).pos
                }),
            decreases self.input@.len() - self.pos,
        {
            if self.is_eof() {
                proof {
                    let (l1, n1) = scan_comment(self.remaining());
                    assert(l1 =~= Seq::<char>::empty());
                    assert(lit@ + l1 =~= lit@);
                }
                break;
            }
            match self.is_newline() {
                Some(_) => {
                    let ghost pre = *self;
                    self.advance();
                    proof {
                        let (lp, np) = scan_comment(pre.remaining());
                        assert(lp =~= Seq::<char>::empty());
                        assert(lit@ + lp =~= lit@);
                    }
                    break;
                },
                None => {
                    let ghost pre = *self;
                    let c = self.advance();
                    proof {
                        assert(self.remaining() =~= pre.remaining().skip(1));
                        let (l1, n1) = scan_comment(self.remaining());
                        assert(scan_comment(pre.remaining()).0 == seq![c] + l1);
                        assert(lit@ + (seq![c] + l1) =~= lit@.push(c) + l1);
                    }
                    lit.push(c);
                },
            }
        }
        let literal = string_of_chars(&lit);
        Token::new(TokenKind::Comment, literal, loc)
    }

    /// Scans a numeric literal from a leading digit: a maximal run of
    /// digits, underscores (dropped from the literal) and at most one
    /// decimal point; a second decimal point is a malformed number.
    fn eat_number(&mut self, loc: Location) -> (r: Result<Token, LexError>)
        requires
            old(self).wf(),
        ensures
            final(self).wf(),
            final(self).input@ == old(self).input@,
            old(self).pos <= final(self).pos,
            (match scan_number(old(self).remaining(), false) {
                Ok((lit, n, dot)) => {
                    &&& r matches Ok(t)
                    &&& t.kind == TokenKind::Number(
                        if dot {
                            NumberKind::Float
                        } else {
                            NumberKind::Int
                        },
                    )
                    &&& t.literal@ == lit
                    &&& t.loc == loc
                    &&& final(self).pos == old(self).pos + n
                },
                Err(_) => r == Err::<Token, LexError>(LexError::MalformedNumber),
            }),
    {
        let mut lit: Vec<char> = Vec::new();
        let mut dot_flag = false;
        loop
            invariant
                self.wf(),
                self.input@ == old(self).input@,
                old(self).pos <= self.pos,
                (match (
                    scan_number(old(self).remaining(), false),
                    scan_number(self.remaining(), dot_flag),
                ) {
                    (Ok((l0, n0, d0)), Ok((l1, n1, d1))) => l0 == lit@ + l1 && n0 == (self.pos
                        - old(self).pos) + n1 && d0 == d1,
                    (Err(_), Err(_)) => true,
                    _ => false,
                }),
            ensures
                self.wf(),
                self.input@ == old(self).input@,
                old(self).pos <= self.pos,
                ({
                    let g = scan_number(old(self).remaining(), false);
                    g matches Ok(v) && v.0 == lit@ && v.1 == self.pos - old(self).pos && v.2
                        == dot_flag
                }),
            decreases self.input@.len() - self.pos,
        {
            let c = self.peek_first();
            if '0' <= c && c <= '9' {
                let ghost pre = *self;
                let a = self.advance();
                proof {
                    assert(a == c);
                    assert(self.remaining() =~= pre.remaining().skip(1));
                    match scan_number(self.remaining(), dot_flag) {
                        Ok((lx, _n, _d)) => {
                            assert(lit@ + (seq![c] + lx) =~= lit@.push(c) + lx);
                        },
                        Err(_) => {},
                    }
                }
                lit.push(a);
            } else if c == '_' {
                let ghost pre = *self;
                self.advance();
                proof {
                    assert(self.remaining() =~= pre.remaining().skip(1));
                }
            } else if c == '.' {
                if dot_flag {
                    return Err(LexError::MalformedNumber);
                }
                let ghost pre = *self;
                let a = self.advance();
                proof {
                    assert(a == c);
                    assert(self.remaining() =~= pre.remaining().skip(1));
                    match scan_number(self.remaining(), true) {
                        Ok((lx, _n, _d)) => {
                            assert(lit@ + (seq!['.'] + lx) =~= lit@.push('.') + lx);
                        },
                        Err(_) => {},
                    }
                }
                lit.push(a);
                dot_flag = true;
            } else {
                proof {
                    assert(lit@ + Seq::<char>::empty() =~= lit@);
                }
                break;
            }
        }
        let kind = if dot_flag {
            TokenKind::Number(NumberKind::Float)
        } else {
            TokenKind::Number(NumberKind::Int)
        };
        let literal = string_of_chars(&lit);
        Ok(Token::new(kind, literal, loc))
    }

    /// Scans a string literal from its opening quote.  The escaped quote is
    /// kept verbatim in the literal; the closing quote terminates it; a line
    /// break or the end of the input first makes it unterminated.
    fn eat_string(&mut self, loc: Location) -> (r: Result<Token, LexError>)
        requires
            old(self).wf(),
            old(self).remaining().len() > 0,
            old(self).remaining()[0] == '"',
        ensures
            final(self).wf(),
            final(self).input@ == old(self).input@,
            old(self).pos <= final(self).pos,
            (match scan_string(old(self).remaining().skip(1)) {
                Ok((lit, n)) => {
                    &&& r matches Ok(t)
                    &&& t.kind == TokenKind::String
                    &&& t.literal@ == lit
                    &&& t.loc == loc
                    &&& final(self).pos == old(self).pos + 1 + n
                },
                Err(_) => r == Err::<Token, LexError>(LexError::UnterminatedString),
            }),
    {
        let mut lit: Vec<char> = Vec::new();
        self.advance();
        proof {
            assert(self.remaining() =~= old(self).remaining().skip(1));
        }
        loop
            invariant
                self.wf(),
                self.input@ == old(self).input@,
                old(self).pos + 1 <= self.pos,
                (match (
                    scan_string(old(self).remaining().skip(1)),
                    scan_string(self.remaining()),
                ) {
                    (Ok((l0, n0)), Ok((l1, n1))) => l0 == lit@ + l1 && n0 == (self.pos - old(
                        self,
                    ).pos - 1) + n1,
                    (Err(_), Err(_)) => true,
                    _ => false,
                }),
            decreases self.input@.len() - self.pos,
        {
            if self.is_eof() {
                return Err(LexError::UnterminatedString);
            }
            match self.is_newline() {
                Some(_) => {
                    return Err(LexError::UnterminatedString);
                },
                None => {},
            }
            let c = self.peek_first();
            if c == '\\' && self.peek_second() == '"' {
                let ghost pre = *self;
                let a = self.advance();
                let b = self.advance();
                proof {
                    assert(a == '\\' && b == '"');
                    assert(self.remaining() =~= pre.remaining().skip(2));
                    match scan_string(self.remaining()) {
                        Ok((lx, _n)) => {
                            assert(lit@ + (seq!['\\', '"'] + lx) =~= lit@.push('\\').push('"') + lx);
                        },
                        Err(_) => {},
                    }
                }
                lit.push(a);
                lit.push(b);
            } else if c == '"' {
                self.advance();
                proof {
                    assert(lit@ + Seq::<char>::empty() =~= lit@);
                }
                let literal = string_of_chars(&lit);
                return Ok(Token::new(TokenKind::String, literal, loc));
            } else {
                let ghost pre = *self;
                let a = self.advance();
                proof {
                    assert(a == c);
                    assert(self.remaining() =~= pre.remaining().skip(1));
                    match scan_string(self.remaining()) {
                        Ok((lx, _n)) => {
                            assert(lit@ + (seq![c] + lx) =~= lit@.push(c) + lx);
                        },
                        Err(_) => {},
                    }
                }
                lit.push(a);
            }
        }
    }

    /// Produces the next token of the input: skips whitespace, then
    /// classifies the character(s) at the current position, delegating to
    /// the number, string and comment sub-scanners.  At the end of the input
    /// it produces the terminal end-of-input token without consuming; on
    /// malformed input it reports the error instead of a token.
    pub fn advance_token(&mut self) -> (r: Result<Token, LexError>)
        requires
            old(self).wf(),
        ensures
            final(self).wf(),
            final(self).input@ == old(self).input@,
            old(self).pos <= final(self).pos,
            (match next_token_spec(
                old(self).remaining(),
                old(self).loc.row as int,
                old(self).loc.col as int,
            ) {
                Ok((ot, n)) => {
                    &&& final(self).pos == old(self).pos + n
                    &&& (match ot {
                        Some(t) => r matches Ok(tok) && tok.kind == t.kind && tok.literal@
                            == t.literal && tok.loc.row as int == t.row && tok.loc.col as int
                            == t.col,
                        None => r matches Ok(tok) && tok.kind == TokenKind::Eof && tok.literal@
                            == seq![EOF_CHAR] && tok.loc == final(self).loc,
                    })
                },
                Err(e) => r == Err::<Token, LexError>(e),
            }),
    {
        loop
            invariant
                self.wf(),
                self.input@ == old(self).input@,
                old(self).pos <= self.pos,
                next_token_spec(
                    old(self).remaining(),
                    old(self).loc.row as int,
                    old(self).loc.col as int,
                ) == shift_next(
                    next_token_spec(self.remaining(), self.loc.row as int, self.loc.col as int),
                    self.pos - old(self).pos,
                ),
            ensures
                self.wf(),
                self.input@ == old(self).input@,
                old(self).pos <= self.pos,
                next_token_spec(
                    old(self).remaining(),
                    old(self).loc.row as int,
                    old(self).loc.col as int,
                ) == shift_next(
                    next_token_spec(self.remaining(), self.loc.row as int, self.loc.col as int),
                    self.pos - old(self).pos,
                ),
                self.remaining().len() == 0 || !is_whitespace_char(self.remaining()[0]),
            decreases self.input@.len() - self.pos,
        {
            let c = self.peek_first();
            if !is_whitespace(c) {
                break;
            }
            let ghost pre = *self;
            self.advance();
            proof {
                let s = pre.remaining();
                if s[0] == '\n' {
                    assert(self.remaining() =~= s.skip(1));
                } else if s[0] == '\r' && s.len() > 1 && s[1] == '\n' {
                    assert(self.remaining() =~= s.skip(2));
                } else {
                    assert(self.remaining() =~= s.skip(1));
                }
            }
        }
        let ghost cur = *self;
        let ghost crow = self.loc.row as int;
        let ghost ccol = self.loc.col as int;
        let loc0 = self.loc;
        let first = self.peek_first();
        let second = self.peek_second();
        if first == '/' && second == '/' {
            proof {
                crate::model::lemma_scan_comment_bounds(cur.remaining());
            }
            let t = self.eat_comment(loc0);
            return Ok(t);
        }
        match single_kind(first) {
            Some(kind) => {
                self.advance();
                let literal = string_of_char(first);
                return Ok(Token::new(kind, literal, loc0));
            },
            None => {},
        }
        if first == EOF_CHAR {
            let literal = string_of_char(EOF_CHAR);
            return Ok(Token::new(TokenKind::Eof, literal, loc0));
        }
        if '0' <= first && first <= '9' {
            return self.eat_number(loc0);
        }
        if first == '\'' {
            return Err(LexError::UnsupportedCharacter);
        }
        if first == '"' {
            return self.eat_string(loc0);
        }
        if is_ident(first) {
            let f = |x: char| -> (b: bool)
                ensures
                    b == is_ident_char(x),
                { is_ident(x) };
            let chars = self.eat_while(f, Ghost(|ch: char| is_ident_char(ch)));
            proof {
                assert forall|i: int| 0 <= i < chars@.len() implies is_ident_char(
                    #[trigger] cur.remaining()[i],
                ) by {
                    assert(chars@[i] == cur.remaining().take(chars@.len() as int)[i]);
                }
                lemma_take_while_ident_matches(cur.remaining(), chars@.len() as int);
            }
            let kind = match classify_ident(&chars) {
                Ok(k) => k,
                Err(e) => {
                    return Err(e);
                },
            };
            let literal = string_of_chars(&chars);
            return Ok(Token::new(kind, literal, loc0));
        }
        Err(LexError::UnsupportedCharacter)
    }
}

/// One produced token agrees with its specification counterpart: same kind,
/// same literal text, same starting position.
pub open spec fn token_matches(t: Token, g: SpecTok) -> bool {
    &&& t.kind == g.kind
    &&& t.literal@ == g.literal
    &&& t.loc.row as int == g.row
    &&& t.loc.col as int == g.col
}

/// Converts the whole input into its sequence of tokens, in order, stopping
/// before the terminal end-of-input marker; the first error condition aborts
/// the pass and is returned instead.  An empty input yields an empty token
/// sequence.
pub fn tokenize(input: &str) -> (r: Result<Vec<Token>, LexError>)
    ensures
        (match tokenize_spec(input@) {
            Ok(gt) => r matches Ok(toks) && toks@.len() == gt.len() && (forall|i: int|
                0 <= i < gt.len() ==> token_matches(#[trigger] toks@[i], gt[i])),
            Err(e) => r == Err::<Vec<Token>, LexError>(e),
        }),
        input@.len() == 0 ==> (r matches Ok(toks) && toks@.len() == 0),
{
    let mut c = Cursor::new(input);
    let mut toks: Vec<Token> = Vec::new();
    proof {
        assert(c.remaining() =~= input@);
        if input@.len() == 0 {
            assert(next_token_spec(input@, 0, 0) == Ok::<(Option<SpecTok>, int), LexError>(
                (None, 0),
            ));
            assert(tokenize_spec_from(input@, 0, 0) == Ok::<Seq<SpecTok>, LexError>(Seq::empty()));
        }
    }
    loop
        invariant
            c.wf(),
            c.input@ == input@,
            (match tokenize_spec_from(c.remaining(), c.loc.row as int, c.loc.col as int) {
                Ok(rest) => tokenize_spec(input@) matches Ok(all) && all.len() == toks@.len()
                    + rest.len() && (forall|i: int|
                    0 <= i < toks@.len() ==> token_matches(#[trigger] toks@[i], all[i])) && (
                forall|i: int| 0 <= i < rest.len() ==> all[toks@.len() + i] == #[trigger] rest[i]),
                Err(e) => tokenize_spec(input@) == Err::<Seq<SpecTok>, LexError>(e),
            }),
        decreases c.input@.len() - c.pos,
    {
        let ghost pre = c;
        let ghost prow = c.loc.row as int;
        let ghost pcol = c.loc.col as int;
        match c.advance_token() {
            Err(e) => {
                return Err(e);
            },
            Ok(tok) => {
                proof {
                    lemma_next_token_spec_bounds(pre.remaining(), prow, pcol);
                }
                if matches!(tok.kind, TokenKind::Eof) {
                    return Ok(toks);
                }
                proof {
                    match next_token_spec(pre.remaining(), prow, pcol) {
                        Ok((ot, n)) => {
                            let t = ot->0;
                            let chunk = pre.remaining().take(n);
                            assert(c.remaining() =~= pre.remaining().skip(n));
                            lemma_loc_after_append(0, 0, pre.consumed(), chunk);
                            assert(pre.consumed() + chunk =~= c.consumed());
                            let l2 = crate::model::loc_after(prow, pcol, chunk);
                            assert(c.loc.row as int == l2.row && c.loc.col as int == l2.col);
                            match tokenize_spec_from(pre.remaining(), prow, pcol) {
                                Ok(rest) => {
                                    match tokenize_spec_from(
                                        c.remaining(),
                                        c.loc.row as int,
                                        c.loc.col as int,
                                    ) {
                                        Ok(rest2) => {
                                            assert(rest == seq![t] + rest2);
                                            assert(rest[0] == t);
                                            assert(forall|i: int|
                                                0 <= i < rest2.len() ==> rest[1 + i]
                                                    == #[trigger] rest2[i]);
                                        },
                                        Err(_) => {},
                                    }
                                },
                                Err(_) => {},
                            }
                        },
                        Err(_) => {},
                    }
                }
                toks.push(tok);
            },
        }
    }
}

} // verus!
