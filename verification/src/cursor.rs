//! A minimal stateful forward-only scanner over a character sequence.  It
//! owns the row/column bookkeeping and offers lookahead of one or two
//! characters, unconditional advance with newline normalization, and
//! predicate-driven consumption of character runs.  It never looks at token
//! semantics.

use vstd::prelude::*;
use vstd::string::StrSliceExecFns;

use crate::model::lemma_loc_after_append;
use crate::model::lemma_loc_after_bounds;
use crate::model::lemma_loc_after_crlf;
use crate::model::lemma_loc_after_newline;
use crate::model::lemma_loc_after_plain;
use crate::model::loc_after;
use crate::model::SpecLoc;
use crate::Location;

verus! {

/// The sentinel returned by lookahead and advance once the input is
/// exhausted.
pub const EOF_CHAR: char = '\0';

/// Which form a logical newline at the current position takes.
pub enum Newline {
    /// A bare line feed.
    Newline,
    /// A carriage-return/line-feed pair.
    CarriageReturn,
}

/// A forward-only scanner over the characters of one input buffer, tracking
/// the zero-based row and column of the next character to be consumed.
pub struct Cursor {
    pub input: Vec<char>,
    pub pos: usize,
    pub loc: Location,
}

impl Cursor {
    /// The characters not yet consumed.
    pub open spec fn remaining(self) -> Seq<char> {
        self.input@.skip(self.pos as int)
    }

    /// The characters consumed so far.
    pub open spec fn consumed(self) -> Seq<char> {
        self.input@.take(self.pos as int)
    }

    /// The current location, with unbounded coordinates.
    pub open spec fn loc_spec(self) -> SpecLoc {
        SpecLoc { row: self.loc.row as int, col: self.loc.col as int }
    }

    /// Well-formedness: the position lies within the buffer, the stored
    /// location is exactly the one reached by consuming the prefix, and the
    /// position never splits a carriage-return/line-feed pair.
    pub open spec fn wf(self) -> bool {
        &&& self.pos <= self.input@.len()
        &&& self.loc_spec() == loc_after(0, 0, self.consumed())
        &&& (self.pos == 0 || !(self.input@[self.pos as int - 1] == '\r' && self.pos
            < self.input@.len() && self.input@[self.pos as int] == '\n'))
    }

    /// Creates a cursor over the whole input, positioned at row 0, column 0.
    pub fn new(input: &str) -> (c: Cursor)
        ensures
            c.wf(),
            c.input@ == input@,
            c.pos == 0,
            c.loc.row == 0,
            c.loc.col == 0,
    {
        let n: usize = input.unicode_len();
        let mut v: Vec<char> = Vec::new();
        let mut i: usize = 0;
        while i < n
            invariant
                i <= n,
                n == input@.len(),
                v@ == input@.take(i as int),
            decreases n - i,
        {
            let ch = input.get_char(i);
            v.push(ch);
            proof {
                assert(v@ =~= input@.take(i + 1));
            }
            i = i + 1;
        }
        proof {
            assert(v@ =~= input@);
        }
        let c = Cursor { input: v, pos: 0, loc: Location::new(0, 0) };
        proof {
            assert(c.consumed() =~= Seq::<char>::empty());
        }
        c
    }

    /// The character at the current position, or the sentinel if the input
    /// is exhausted.  Non-consuming.
    pub fn peek_first(&self) -> (r: char)
        requires
            self.wf(),
        ensures
            r == (if self.remaining().len() > 0 {
                self.remaining()[0]
            } else {
                EOF_CHAR
            }),
    {
        if self.pos < self.input.len() {
            self.input[self.pos]
        } else {
            EOF_CHAR
        }
    }

    /// The character one past the current position, or the sentinel if it is
    /// not available.  Non-consuming.
    pub fn peek_second(&self) -> (r: char)
        requires
            self.wf(),
        ensures
            r == (if self.remaining().len() > 1 {
                self.remaining()[1]
            } else {
                EOF_CHAR
            }),
    {
        let rem = self.input.len() - self.pos;
        if rem > 1 {
            self.input[self.pos + 1]
        } else {
            EOF_CHAR
        }
    }

    /// True exactly when no characters remain.
    pub fn is_eof(&self) -> (r: bool)
        requires
            self.wf(),
        ensures
            r == (self.remaining().len() == 0),
    {
        self.pos == self.input.len()
    }

    /// Whether the current position begins a logical newline, and of which
    /// form.  Non-consuming.
    pub fn is_newline(&self) -> (r: Option<Newline>)
        requires
            self.wf(),
        ensures
            ({
                let s = self.remaining();
                match r {
                    Some(Newline::Newline) => s.len() > 0 && s[0] == '\n',
                    Some(Newline::CarriageReturn) => s.len() > 1 && s[0] == '\r' && s[1] == '\n',
                    None => !(s.len() > 0 && s[0] == '\n') && !(s.len() > 1 && s[0] == '\r'
                        && s[1] == '\n'),
                }
            }),
    {
        let first = self.peek_first();
        if first == '\n' {
            Some(Newline::Newline)
        } else if first == '\r' && self.peek_second() == '\n' {
            Some(Newline::CarriageReturn)
        } else {
            None
        }
    }

    /// Consumes one step.  At the end of the input this returns the sentinel
    /// and changes nothing.  A logical newline (a bare line feed, or a
    /// carriage-return/line-feed pair consumed whole) increments the row,
    /// resets the column, and is returned as the normalized `'\n'`.  Any
    /// other character is consumed alone, advances the column by one, and is
    /// returned itself.
    pub fn advance(&mut self) -> (r: char)
        requires
            old(self).wf(),
        ensures
            final(self).wf(),
            final(self).input@ == old(self).input@,
            ({
                let s = old(self).remaining();
                if s.len() == 0 {
                    r == EOF_CHAR && *final(self) == *old(self)
                } else if s[0] == '\n' {
                    r == '\n' && final(self).pos == old(self).pos + 1 && final(self).loc.row
                        == old(self).loc.row + 1 && final(self).loc.col == 0
                } else if s[0] == '\r' && s.len() > 1 && s[1] == '\n' {
                    r == '\n' && final(self).pos == old(self).pos + 2 && final(self).loc.row
                        == old(self).loc.row + 1 && final(self).loc.col == 0
                } else {
                    r == s[0] && final(self).pos == old(self).pos + 1 && final(self).loc.row
                        == old(self).loc.row && final(self).loc.col == old(self).loc.col + 1
                }
            }),
    {
        let n = self.input.len();
        proof {
            lemma_loc_after_bounds(0, 0, old(self).consumed());
        }
        if self.is_eof() {
            return EOF_CHAR;
        }
        proof {
            assert(old(self).pos < n);
        }
        match self.is_newline() {
            Some(t) => {
                self.loc.row = self.loc.row + 1;
                self.loc.col = 0;
                match t {
                    Newline::Newline => {
                        proof {
                            let chunk = old(self).remaining().take(1);
                            lemma_loc_after_append(0, 0, old(self).consumed(), chunk);
                            lemma_loc_after_newline(
                                old(self).loc_spec().row,
                                old(self).loc_spec().col,
                                chunk,
                            );
                            assert(old(self).consumed() + chunk =~= old(self).input@.take(
                                old(self).pos + 1,
                            ));
                        }
                        self.pos = self.pos + 1;
                    },
                    Newline::CarriageReturn => {
                        proof {
                            let chunk = old(self).remaining().take(2);
                            lemma_loc_after_append(0, 0, old(self).consumed(), chunk);
                            lemma_loc_after_crlf(
                                old(self).loc_spec().row,
                                old(self).loc_spec().col,
                                chunk,
                            );
                            assert(old(self).consumed() + chunk =~= old(self).input@.take(
                                old(self).pos + 2,
                            ));
                        }
                        self.pos = self.pos + 2;
                    },
                }
                '\n'
            },
            None => {
                let c = self.input[self.pos];
                self.loc.col = self.loc.col + 1;
                proof {
                    let chunk = old(self).remaining().take(1);
                    lemma_loc_after_append(0, 0, old(self).consumed(), chunk);
                    lemma_loc_after_plain(
                        old(self).loc_spec().row,
                        old(self).loc_spec().col,
                        chunk,
                    );
                    assert(old(self).consumed() + chunk =~= old(self).input@.take(
                        old(self).pos + 1,
                    ));
                }
                self.pos = self.pos + 1;
                c
            },
        }
    }

    /// Repeatedly consumes characters while `filter` accepts the next one,
    /// returning the accumulated run (possibly empty).  The predicate must
    /// reject both newline characters, so every consumed character is taken
    /// verbatim and the run stays on one line; `p` is the pure predicate
    /// that `filter` computes.
    pub fn eat_while<F: Fn(char) -> bool>(
        &mut self,
        filter: F,
        Ghost(p): Ghost<spec_fn(char) -> bool>,
    ) -> (r: Vec<char>)
        requires
            old(self).wf(),
            forall|c: char| #[trigger] call_requires(filter, (c,)),
            forall|c: char, b: bool| #[trigger] call_ensures(filter, (c,), b) ==> b == p(c),
            !p('\n'),
            !p('\r'),
        ensures
            final(self).wf(),
            final(self).input@ == old(self).input@,
            final(self).pos == old(self).pos + r@.len(),
            r@ == old(self).remaining().take(r@.len() as int),
            forall|i: int| 0 <= i < r@.len() ==> p(#[trigger] r@[i]),
            r@.len() == old(self).remaining().len() || !p(old(self).remaining()[r@.len() as int]),
            final(self).loc.row == old(self).loc.row,
            final(self).loc.col == old(self).loc.col + r@.len(),
    {
        let mut ret: Vec<char> = Vec::new();
        loop
            invariant
                self.wf(),
                self.input@ == old(self).input@,
                self.pos == old(self).pos + ret@.len(),
                ret@ == old(self).remaining().take(ret@.len() as int),
                forall|i: int| 0 <= i < ret@.len() ==> p(#[trigger] ret@[i]),
                self.loc.row == old(self).loc.row,
                self.loc.col == old(self).loc.col + ret@.len(),
                !p('\n'),
                !p('\r'),
                forall|c: char| #[trigger] call_requires(filter, (c,)),
                forall|c: char, b: bool| #[trigger] call_ensures(filter, (c,), b) ==> b == p(c),
            ensures
                self.wf(),
                self.input@ == old(self).input@,
                self.pos == old(self).pos + ret@.len(),
                ret@ == old(self).remaining().take(ret@.len() as int),
                forall|i: int| 0 <= i < ret@.len() ==> p(#[trigger] ret@[i]),
                self.loc.row == old(self).loc.row,
                self.loc.col == old(self).loc.col + ret@.len(),
                ret@.len() == old(self).remaining().len() || !p(
                    old(self).remaining()[ret@.len() as int],
                ),
            decreases self.input@.len() - self.pos,
        {
            if self.is_eof() {
                break;
            }
            let c = self.peek_first();
            proof {
                assert(self.remaining() =~= old(self).remaining().skip(ret@.len() as int));
                assert(c == old(self).remaining()[ret@.len() as int]);
            }
            if !filter(c) {
                break;
            }
            let ghost pre = *self;
            let a = self.advance();
            proof {
                let k = ret@.len() as int;
                assert(p(c));
                assert(a == c);
                assert(ret@.push(a) =~= old(self).remaining().take(k + 1));
            }
            ret.push(a);
        }
        ret
    }
}

} // verus!
