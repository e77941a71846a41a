//! The general laws of the lexer, each proved from the specification
//! functions in `model`: position bookkeeping counts columns and normalizes
//! newline conventions, tokenizing is a pure function of the input, an empty
//! input yields no tokens, and an error-free scan decomposes the input
//! exactly into skipped whitespace and token source texts.

use vstd::prelude::*;

use crate::errors::LexError;
use crate::model::is_whitespace_char;
use crate::model::lemma_loc_after_append;
use crate::model::lemma_loc_after_newline;
use crate::model::lemma_loc_after_plain;
use crate::model::loc_after;
use crate::model::next_token_spec;
use crate::model::scan_comment;
use crate::model::scan_number;
use crate::model::scan_string;
use crate::model::single_char_kind;
use crate::model::take_while_ident;
use crate::model::tokenize_spec;
use crate::model::tokenize_spec_from;
use crate::model::is_ident_char;
use crate::model::SpecTok;
use crate::TokenKind;

verus! {

/// The number of characters of `s` after its last line feed (all of `s`
/// when it holds none).
pub open spec fn chars_since_last_break(s: Seq<char>) -> int
    decreases s.len(),
{
    if s.len() == 0 {
        0
    } else if s.last() == '\n' {
        0
    } else {
        1 + chars_since_last_break(s.drop_last())
    }
}

/// Column counting: consuming text whose only line breaks are bare line
/// feeds leaves the column equal to the number of characters since the last
/// line break.
pub proof fn lemma_column_counts_since_break(s: Seq<char>)
    requires
        forall|i: int| 0 <= i < s.len() ==> s[i] != '\r',
    ensures
        loc_after(0, 0, s).col == chars_since_last_break(s),
    decreases s.len(),
{
    if s.len() == 0 {
    } else {
        let a = s.drop_last();
        let b = seq![s.last()];
        assert(a + b =~= s);
        lemma_column_counts_since_break(a);
        lemma_loc_after_append(0, 0, a, b);
        if s.last() == '\n' {
            lemma_loc_after_newline(loc_after(0, 0, a).row, loc_after(0, 0, a).col, b);
        } else {
            lemma_loc_after_plain(loc_after(0, 0, a).row, loc_after(0, 0, a).col, b);
        }
    }
}

/// `s` with every bare line feed replaced by a carriage-return/line-feed
/// pair.
pub open spec fn crlf_of(s: Seq<char>) -> Seq<char>
    decreases s.len(),
{
    if s.len() == 0 {
        Seq::empty()
    } else if s[0] == '\n' {
        seq!['\r', '\n'] + crlf_of(s.skip(1))
    } else {
        seq![s[0]] + crlf_of(s.skip(1))
    }
}

/// Newline-convention invariance: a text free of carriage returns and the
/// same text written with carriage-return/line-feed pairs drive the position
/// to the same row and column.  Applied to every prefix, the whole row and
/// column histories of the two forms agree.
pub proof fn lemma_newline_normalization(row: int, col: int, s: Seq<char>)
    requires
        forall|i: int| 0 <= i < s.len() ==> s[i] != '\r',
    ensures
        loc_after(row, col, crlf_of(s)) == loc_after(row, col, s),
    decreases s.len(),
{
    if s.len() == 0 {
    } else if s[0] == '\n' {
        let rest = crlf_of(s.skip(1));
        let t = seq!['\r', '\n'] + rest;
        assert(t[0] == '\r' && t.len() > 1 && t[1] == '\n');
        assert(t.skip(2) =~= rest);
        lemma_newline_normalization(row + 1, 0, s.skip(1));
    } else {
        let rest = crlf_of(s.skip(1));
        let t = seq![s[0]] + rest;
        assert(t[0] == s[0]);
        assert(t[0] != '\n' && t[0] != '\r');
        assert(t.skip(1) =~= rest);
        lemma_newline_normalization(row, col + 1, s.skip(1));
    }
}

/// Idempotence: the token sequence is a pure function of the input text, so
/// scanning the same buffer twice yields identical results.
pub proof fn lemma_tokenize_deterministic(s1: Seq<char>, s2: Seq<char>)
    requires
        s1 == s2,
    ensures
        tokenize_spec(s1) == tokenize_spec(s2),
{
}

/// Boundary: an empty input yields an empty token sequence.
pub proof fn lemma_tokenize_empty()
    ensures
        tokenize_spec(Seq::<char>::empty()) == Ok::<Seq<SpecTok>, LexError>(Seq::empty()),
{
    assert(next_token_spec(Seq::<char>::empty(), 0, 0) == Ok::<(Option<SpecTok>, int), LexError>(
        (None, 0),
    ));
    assert(tokenize_spec_from(Seq::<char>::empty(), 0, 0) == Ok::<Seq<SpecTok>, LexError>(
        Seq::empty(),
    ));
}

/// `s` with every underscore separator removed.
pub open spec fn strip_separators(s: Seq<char>) -> Seq<char>
    decreases s.len(),
{
    if s.len() == 0 {
        Seq::empty()
    } else if s[0] == '_' {
        strip_separators(s.skip(1))
    } else {
        seq![s[0]] + strip_separators(s.skip(1))
    }
}

/// How one token's literal relates to the source text it was scanned from:
/// verbatim, except that a string's quotes surround its literal, a comment's
/// terminating line break is consumed but excluded, and a number's
/// underscore separators are dropped.
pub open spec fn token_source_matches(kind: TokenKind, lit: Seq<char>, body: Seq<char>) -> bool {
    match kind {
        TokenKind::Comment => {
            let nl = body.skip(lit.len() as int);
            &&& lit.len() <= body.len()
            &&& body.take(lit.len() as int) == lit
            &&& (nl == Seq::<char>::empty() || nl == seq!['\n'] || nl == seq!['\r', '\n'])
        },
        TokenKind::String => body == seq!['"'] + lit + seq!['"'],
        TokenKind::Number(_) => lit == strip_separators(body),
        _ => body == lit,
    }
}

/// The number of whitespace characters the dispatch skips at the front of
/// `s`, counting a carriage-return/line-feed pair as two.
pub open spec fn ws_prefix_len(s: Seq<char>) -> int
    decreases s.len(),
{
    if s.len() == 0 {
        0
    } else if is_whitespace_char(s[0]) {
        if s[0] == '\r' && s.len() > 1 && s[1] == '\n' {
            2 + ws_prefix_len(s.skip(2))
        } else {
            1 + ws_prefix_len(s.skip(1))
        }
    } else {
        0
    }
}

/// A scanned comment's consumed text is its literal followed by nothing, a
/// line feed, or a carriage-return/line-feed pair.
proof fn lemma_scan_comment_source(s: Seq<char>)
    ensures
        ({
            let (lit, n) = scan_comment(s);
            &&& 0 <= lit.len() <= n <= s.len()
            &&& token_source_matches(TokenKind::Comment, lit, s.subrange(0, n))
        }),
    decreases s.len(),
{
    crate::model::lemma_scan_comment_bounds(s);
    let (lit, n) = scan_comment(s);
    let body = s.subrange(0, n);
    if s.len() == 0 {
        assert(body =~= Seq::<char>::empty());
        assert(body.take(0) =~= Seq::<char>::empty());
        assert(body.skip(0) =~= Seq::<char>::empty());
    } else if s[0] == '\n' {
        assert(body =~= seq!['\n']);
        assert(body.take(0) =~= Seq::<char>::empty());
        assert(body.skip(0) =~= seq!['\n']);
    } else if s[0] == '\r' && s.len() > 1 && s[1] == '\n' {
        assert(body =~= seq!['\r', '\n']);
        assert(body.take(0) =~= Seq::<char>::empty());
        assert(body.skip(0) =~= seq!['\r', '\n']);
    } else {
        lemma_scan_comment_source(s.skip(1));
        let (l1, n1) = scan_comment(s.skip(1));
        let body1 = s.skip(1).subrange(0, n1);
        assert(body =~= seq![s[0]] + body1);
        assert(body.take(lit.len() as int) =~= seq![s[0]] + body1.take(l1.len() as int));
        assert(body.skip(lit.len() as int) =~= body1.skip(l1.len() as int));
    }
}

/// A scanned number's literal is its consumed text with the underscore
/// separators dropped.
proof fn lemma_scan_number_source(s: Seq<char>, dot_seen: bool)
    ensures
        (match scan_number(s, dot_seen) {
            Ok((lit, n, _)) => lit == strip_separators(s.subrange(0, n)),
            Err(_) => true,
        }),
    decreases s.len(),
{
    crate::model::lemma_scan_number_bounds(s, dot_seen);
    match scan_number(s, dot_seen) {
        Ok((lit, n, _)) => {
            let body = s.subrange(0, n);
            if s.len() == 0 {
                assert(body =~= Seq::<char>::empty());
            } else if crate::model::is_digit_char(s[0]) || (s[0] == '.' && !dot_seen) {
                let d2 = if s[0] == '.' {
                    true
                } else {
                    dot_seen
                };
                lemma_scan_number_source(s.skip(1), d2);
                crate::model::lemma_scan_number_bounds(s.skip(1), d2);
                match scan_number(s.skip(1), d2) {
                    Ok((l1, n1, _)) => {
                        assert(body =~= seq![s[0]] + s.skip(1).subrange(0, n1));
                        assert(strip_separators(body) == seq![s[0]] + strip_separators(
                            body.skip(1),
                        ));
                        assert(body.skip(1) =~= s.skip(1).subrange(0, n1));
                    },
                    Err(_) => {},
                }
            } else if s[0] == '_' {
                lemma_scan_number_source(s.skip(1), dot_seen);
                crate::model::lemma_scan_number_bounds(s.skip(1), dot_seen);
                match scan_number(s.skip(1), dot_seen) {
                    Ok((l1, n1, _)) => {
                        assert(body =~= seq!['_'] + s.skip(1).subrange(0, n1));
                        assert(strip_separators(body) == strip_separators(body.skip(1)));
                        assert(body.skip(1) =~= s.skip(1).subrange(0, n1));
                    },
                    Err(_) => {},
                }
            } else {
                assert(body =~= Seq::<char>::empty());
            }
        },
        Err(_) => {},
    }
}

/// A scanned string body's consumed text is its literal followed by the
/// closing quote.
proof fn lemma_scan_string_source(s: Seq<char>)
    ensures
        (match scan_string(s) {
            Ok((lit, n)) => s.subrange(0, n) == lit + seq!['"'],
            Err(_) => true,
        }),
    decreases s.len(),
{
    crate::model::lemma_scan_string_bounds(s);
    match scan_string(s) {
        Ok((lit, n)) => {
            if s[0] == '\\' && s.len() > 1 && s[1] == '"' {
                lemma_scan_string_source(s.skip(2));
                crate::model::lemma_scan_string_bounds(s.skip(2));
                match scan_string(s.skip(2)) {
                    Ok((l1, n1)) => {
                        assert(s.subrange(0, n) =~= seq!['\\', '"'] + s.skip(2).subrange(0, n1));
                        assert(seq!['\\', '"'] + (l1 + seq!['"']) =~= (seq!['\\', '"'] + l1)
                            + seq!['"']);
                    },
                    Err(_) => {},
                }
            } else if s[0] == '"' {
                assert(s.subrange(0, 1) =~= seq!['"']);
                assert(Seq::<char>::empty() + seq!['"'] =~= seq!['"']);
            } else {
                lemma_scan_string_source(s.skip(1));
                crate::model::lemma_scan_string_bounds(s.skip(1));
                match scan_string(s.skip(1)) {
                    Ok((l1, n1)) => {
                        assert(s.subrange(0, n) =~= seq![s[0]] + s.skip(1).subrange(0, n1));
                        assert(seq![s[0]] + (l1 + seq!['"']) =~= (seq![s[0]] + l1) + seq!['"']);
                    },
                    Err(_) => {},
                }
            }
        },
        Err(_) => {},
    }
}

/// The maximal identifier run is a prefix of the input made of identifier
/// characters.
proof fn lemma_take_while_ident_prefix(s: Seq<char>)
    ensures
        take_while_ident(s).len() <= s.len(),
        take_while_ident(s) == s.take(take_while_ident(s).len() as int),
    decreases s.len(),
{
    if s.len() == 0 || !is_ident_char(s[0]) {
        assert(take_while_ident(s) =~= s.take(0));
    } else {
        lemma_take_while_ident_prefix(s.skip(1));
        let r1 = take_while_ident(s.skip(1));
        assert(seq![s[0]] + r1.subrange(0, r1.len() as int) =~= s.take(r1.len() as int + 1));
        assert(r1.subrange(0, r1.len() as int) =~= r1);
    }
}

/// One dispatch step decomposes its consumed text into a run of skipped
/// whitespace characters followed by the produced token's source text; when
/// it instead reports the end of the input, everything consumed was
/// whitespace and only the end (or the sentinel character) follows.
pub proof fn lemma_step_source(s: Seq<char>, row: int, col: int)
    ensures
        (match next_token_spec(s, row, col) {
            Ok((ot, n)) => {
                let w = ws_prefix_len(s);
                &&& 0 <= w <= n
                &&& (forall|i: int| 0 <= i < w ==> is_whitespace_char(#[trigger] s[i]))
                &&& (match ot {
                    Some(t) => token_source_matches(t.kind, t.literal, s.subrange(w, n)),
                    None => w == n && (n == s.len() || s[n] == '\u{0000}'),
                })
            },
            Err(_) => true,
        }),
    decreases s.len(),
{
    crate::model::lemma_next_token_spec_bounds(s, row, col);
    if s.len() == 0 {
    } else if is_whitespace_char(s[0]) {
        let d: int = if s[0] == '\r' && s.len() > 1 && s[1] == '\n' {
            2
        } else {
            1
        };
        let s2 = s.skip(d);
        let row2: int = if s[0] == '\n' || d == 2 {
            row + 1
        } else {
            row
        };
        let col2: int = if s[0] == '\n' || d == 2 {
            0
        } else {
            col + 1
        };
        lemma_step_source(s2, row2, col2);
        crate::model::lemma_next_token_spec_bounds(s2, row2, col2);
        match next_token_spec(s2, row2, col2) {
            Ok((ot, n2)) => {
                let w2 = ws_prefix_len(s2);
                let w = ws_prefix_len(s);
                assert(w == d + w2);
                assert forall|i: int| 0 <= i < w implies is_whitespace_char(#[trigger] s[i]) by {
                    if i >= d {
                        assert(s[i] == s2[i - d]);
                    } else if i == 1 {
                        assert(s[1] == '\n');
                    }
                }
                match ot {
                    Some(t) => {
                        assert(s.subrange(d + w2, d + n2) =~= s2.subrange(w2, n2));
                    },
                    None => {
                        if d + n2 < s.len() {
                            assert(s[d + n2] == s2[n2]);
                        }
                    },
                }
            },
            Err(_) => {},
        }
    } else if single_char_kind(s[0]) is Some && !(s[0] == '/' && s.len() > 1 && s[1] == '/') {
        assert(s.subrange(0, 1) =~= seq![s[0]]);
    } else if s[0] == '\u{0000}' {
    } else if s[0] == '/' {
        lemma_scan_comment_source(s);
    } else if crate::model::is_digit_char(s[0]) {
        lemma_scan_number_source(s, false);
    } else if s[0] == '\'' {
    } else if s[0] == '"' {
        match scan_string(s.skip(1)) {
            Ok((lit, n1)) => {
                lemma_scan_string_source(s.skip(1));
                crate::model::lemma_scan_string_bounds(s.skip(1));
                assert(s.subrange(0, n1 + 1) =~= seq![s[0]] + s.skip(1).subrange(0, n1));
                assert(seq!['"'] + (lit + seq!['"']) =~= (seq!['"'] + lit) + seq!['"']);
            },
            Err(_) => {},
        }
    } else if is_ident_char(s[0]) {
        lemma_take_while_ident_prefix(s);
        let lit = take_while_ident(s);
        assert(s.subrange(0, lit.len() as int) == s.take(lit.len() as int));
    } else {
    }
}

/// `toks` rebuilds `s`: each token in turn accounts for a run of skipped
/// whitespace followed by its own source text, and after the last token only
/// whitespace remains.
pub open spec fn rebuilds(s: Seq<char>, toks: Seq<SpecTok>) -> bool
    decreases toks.len(),
{
    if toks.len() == 0 {
        forall|i: int| 0 <= i < s.len() ==> is_whitespace_char(#[trigger] s[i])
    } else {
        exists|w: int, n: int|
            {
                &&& 0 <= w <= n <= s.len()
                &&& 1 <= n
                &&& (forall|i: int| 0 <= i < w ==> is_whitespace_char(#[trigger] s[i]))
                &&& token_source_matches(toks[0].kind, toks[0].literal, s.subrange(w, n))
                &&& rebuilds(s.skip(n), toks.skip(1))
            }
    }
}

/// Round trip: an input that tokenizes without error and holds no sentinel
/// character is rebuilt exactly from its token sequence — token by token,
/// the skipped whitespace followed by the token's source text, with only
/// whitespace after the last token.  Each source text is the token's
/// literal itself, except that a string's literal is surrounded by its two
/// quotes, a comment's terminating line break is consumed but excluded, and
/// a number's underscore separators are dropped.
pub proof fn lemma_round_trip_from(s: Seq<char>, row: int, col: int)
    requires
        forall|i: int| 0 <= i < s.len() ==> s[i] != '\u{0000}',
    ensures
        (match tokenize_spec_from(s, row, col) {
            Ok(toks) => rebuilds(s, toks),
            Err(_) => true,
        }),
    decreases s.len(),
{
    crate::model::lemma_next_token_spec_bounds(s, row, col);
    lemma_step_source(s, row, col);
    match next_token_spec(s, row, col) {
        Ok((ot, n)) => {
            match ot {
                None => {
                    let w = ws_prefix_len(s);
                    assert(n == s.len());
                },
                Some(t) => {
                    let l2 = loc_after(row, col, s.take(n));
                    lemma_round_trip_from(s.skip(n), l2.row, l2.col);
                    match tokenize_spec_from(s.skip(n), l2.row, l2.col) {
                        Ok(rest) => {
                            let toks = seq![t] + rest;
                            assert(toks[0] == t);
                            assert(toks.skip(1) =~= rest);
                            let w = ws_prefix_len(s);
                            assert(rebuilds(s, toks)) by {
                                assert(0 <= w <= n <= s.len());
                                assert(1 <= n);
                                assert(token_source_matches(
                                    toks[0].kind,
                                    toks[0].literal,
                                    s.subrange(w, n),
                                ));
                                assert(rebuilds(s.skip(n), toks.skip(1)));
                            }
                        },
                        Err(_) => {},
                    }
                },
            }
        },
        Err(_) => {},
    }
}

/// Round trip for a whole input buffer, scanned from the origin.
pub proof fn lemma_round_trip(s: Seq<char>)
    requires
        forall|i: int| 0 <= i < s.len() ==> s[i] != '\u{0000}',
    ensures
        (match tokenize_spec(s) {
            Ok(toks) => rebuilds(s, toks),
            Err(_) => true,
        }),
{
    lemma_round_trip_from(s, 0, 0);
}

} // verus!
