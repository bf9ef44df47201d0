//! The source cursor: a character-level reader over the in-memory source
//! buffer that tracks line and column, supports one-character lookahead and
//! the conditional two-character match needed for compound operators.

use vstd::prelude::*;

use crate::model::{
    advance_pos, digit_run_len, ident_run_len, is_digit, is_ident_char, is_ident_start,
    lemma_advance_pos_snoc, lemma_digit_run_len_is, lemma_ident_run_len_is, lemma_run_until_is,
    number_len, run_until,
};
use crate::text::push_char;

verus! {

/// Model of the cursor: the characters not yet consumed and the current
/// 1-based line and column.
pub struct ScannerModel {
    pub rest: Seq<char>,
    pub line: nat,
    pub column: nat,
}

/// A character-level cursor over the source text.
pub struct Scanner {
    pub source: Vec<char>,
    pub pos: usize,
    pub line: usize,
    pub column: usize,
}

impl View for Scanner {
    type V = ScannerModel;

    open spec fn view(&self) -> ScannerModel {
        ScannerModel {
            rest: self.source@.skip(self.pos as int),
            line: self.line as nat,
            column: self.column as nat,
        }
    }
}

/// Whether `c` is an ASCII decimal digit.
pub fn char_is_digit(c: char) -> (b: bool)
    ensures
        b == is_digit(c),
{
    let u = c as u32;
    48 <= u && u <= 57
}

/// Whether `c` may begin an identifier.
pub fn char_is_ident_start(c: char) -> (b: bool)
    ensures
        b == is_ident_start(c),
{
    let u = c as u32;
    (97 <= u && u <= 122) || (65 <= u && u <= 90) || c == '_'
}

/// Whether `c` may continue an identifier.
pub fn char_is_ident_char(c: char) -> (b: bool)
    ensures
        b == is_ident_char(c),
{
    let u = c as u32;
    (97 <= u && u <= 122) || (65 <= u && u <= 90) || (48 <= u && u <= 57) || c == '_'
}

impl Scanner {
    /// Internal well-formedness: the consumed prefix bounds both the line
    /// and the column, which keeps every position update free of overflow.
    pub open spec fn wf(&self) -> bool {
        &&& self.pos <= self.source@.len()
        &&& self.source@.len() < usize::MAX
        &&& 1 <= self.line <= self.pos + 1
        &&& 1 <= self.column <= self.pos + 1
    }

    /// A fresh cursor at line 1, column 1, over the full source text.
    pub fn new(source: String) -> (sc: Scanner)
        requires
            source@.len() < usize::MAX,
        ensures
            sc.wf(),
            sc@.rest == source@,
            sc@.line == 1,
            sc@.column == 1,
    {
        let s: &str = source.as_str();
        let n: usize = s.unicode_len();
        let mut chars: Vec<char> = Vec::new();
        let mut i: usize = 0;
        while i < n
            invariant
                i <= n,
                n == s@.len(),
                s@ == source@,
                chars@ == s@.take(i as int),
            decreases n - i,
        {
            let c = s.get_char(i);
            chars.push(c);
            i = i + 1;
            proof {
                assert(chars@ =~= s@.take(i as int));
            }
        }
        proof {
            assert(chars@ =~= source@);
        }
        let sc = Scanner { source: chars, pos: 0, line: 1, column: 1 };
        proof {
            assert(sc@.rest =~= source@);
        }
        sc
    }

    /// One-character lookahead; consumes nothing.
    pub fn peek(&self) -> (r: Option<char>)
        requires
            self.wf(),
        ensures
            r == (if self@.rest.len() > 0 {
                Some(self@.rest[0])
            } else {
                None::<char>
            }),
    {
        if self.pos < self.source.len() {
            Some(self.source[self.pos])
        } else {
            None
        }
    }

    /// Two-character lookahead; consumes nothing.
    pub fn peek_next(&self) -> (r: Option<char>)
        requires
            self.wf(),
        ensures
            r == (if self@.rest.len() >= 2 {
                Some(self@.rest[1])
            } else {
                None::<char>
            }),
    {
        if self.pos + 1 < self.source.len() {
            Some(self.source[self.pos + 1])
        } else {
            None
        }
    }

    /// Consume one character, advancing the column by one.
    pub fn next(&mut self) -> (r: Option<char>)
        requires
            old(self).wf(),
        ensures
            final(self).wf(),
            old(self)@.rest.len() > 0 ==> {
                &&& r == Some(old(self)@.rest[0])
                &&& final(self)@.rest == old(self)@.rest.skip(1)
                &&& final(self)@.line == old(self)@.line
                &&& final(self)@.column == old(self)@.column + 1
            },
            old(self)@.rest.len() == 0 ==> r == None::<char> && *final(self) == *old(self),
    {
        if self.pos < self.source.len() {
            let c = self.source[self.pos];
            self.pos = self.pos + 1;
            self.column = self.column + 1;
            proof {
                assert(self.source@.skip(self.pos as int) =~= old(self)@.rest.skip(1));
            }
            Some(c)
        } else {
            None
        }
    }

    /// Consume one character through the line-incrementing path: the line
    /// advances by one and the column resets to the start-of-line value 1.
    pub fn next_line(&mut self) -> (r: Option<char>)
        requires
            old(self).wf(),
        ensures
            final(self).wf(),
            old(self)@.rest.len() > 0 ==> {
                &&& r == Some(old(self)@.rest[0])
                &&& final(self)@.rest == old(self)@.rest.skip(1)
                &&& final(self)@.line == old(self)@.line + 1
                &&& final(self)@.column == 1
            },
            old(self)@.rest.len() == 0 ==> r == None::<char> && *final(self) == *old(self),
    {
        if self.pos < self.source.len() {
            let c = self.source[self.pos];
            self.pos = self.pos + 1;
            self.line = self.line + 1;
            self.column = 1;
            proof {
                assert(self.source@.skip(self.pos as int) =~= old(self)@.rest.skip(1));
            }
            Some(c)
        } else {
            None
        }
    }

    /// The compound-operator match: always consumes the current character,
    /// then consumes the following one exactly when it equals `ch`.  The
    /// second character is tested before it is committed to: on a mismatch
    /// scanning continues from it unconsumed.
    pub fn advance_match(&mut self, ch: char) -> (r: bool)
        requires
            old(self).wf(),
        ensures
            final(self).wf(),
            r == (old(self)@.rest.len() >= 2 && old(self)@.rest[1] == ch),
            r ==> {
                &&& final(self)@.rest == old(self)@.rest.skip(2)
                &&& final(self)@.line == old(self)@.line
                &&& final(self)@.column == old(self)@.column + 2
            },
            !r && old(self)@.rest.len() > 0 ==> {
                &&& final(self)@.rest == old(self)@.rest.skip(1)
                &&& final(self)@.line == old(self)@.line
                &&& final(self)@.column == old(self)@.column + 1
            },
            !r && old(self)@.rest.len() == 0 ==> *final(self) == *old(self),
    {
        if self.pos < self.source.len() {
            self.pos = self.pos + 1;
            self.column = self.column + 1;
            if self.pos < self.source.len() && self.source[self.pos] == ch {
                self.pos = self.pos + 1;
                self.column = self.column + 1;
                proof {
                    assert(self.source@.skip(self.pos as int) =~= old(self)@.rest.skip(2));
                }
                true
            } else {
                proof {
                    assert(self.source@.skip(self.pos as int) =~= old(self)@.rest.skip(1));
                }
                false
            }
        } else {
            false
        }
    }

    /// Discard the rest of the current line: consume up to, but not
    /// including, the next newline (or to end of input).
    pub fn skip_line(&mut self)
        requires
            old(self).wf(),
        ensures
            final(self).wf(),
            final(self)@.rest == old(self)@.rest.skip(run_until(old(self)@.rest, '\n') as int),
            final(self)@.line == old(self)@.line,
            final(self)@.column == old(self)@.column + run_until(old(self)@.rest, '\n'),
    {
        let ghost rest0 = old(self)@.rest;
        let ghost line0 = old(self)@.line;
        let ghost col0 = old(self)@.column;
        let ghost mut i: int = 0;
        loop
            invariant
                self.wf(),
                0 <= i <= rest0.len(),
                self@.rest == rest0.skip(i),
                forall|j: int| 0 <= j < i ==> #[trigger] rest0[j] != '\n',
                self@.line == line0,
                self@.column == col0 + i,
            ensures
                self.wf(),
                0 <= i <= rest0.len(),
                self@.rest == rest0.skip(i),
                forall|j: int| 0 <= j < i ==> #[trigger] rest0[j] != '\n',
                self@.line == line0,
                self@.column == col0 + i,
                i < rest0.len() ==> rest0[i] == '\n',
            decreases self@.rest.len(),
        {
            match self.peek() {
                None => {
                    break ;
                },
                Some(c) => {
                    if c == '\n' {
                        proof {
                            assert(rest0[i] == rest0.skip(i)[0]);
                        }
                        break ;
                    }
                    proof {
                        assert(rest0[i] == rest0.skip(i)[0]);
                    }
                    self.next();
                    proof {
                        i = i + 1;
                        assert(self@.rest =~= rest0.skip(i));
                    }
                },
            }
        }
        proof {
            lemma_run_until_is(rest0, '\n', i);
        }
    }

    /// Scan a string literal.  The cursor stands on the opening quote.  On
    /// success the returned text is the literal's contents (quotes excluded,
    /// embedded newlines included) and the closing quote has been consumed;
    /// when the input ends before a closing quote, the partial text is
    /// discarded, `None` is returned, and the cursor stands at end of input.
    pub fn string(&mut self) -> (r: Option<String>)
        requires
            old(self).wf(),
            old(self)@.rest.len() > 0,
            old(self)@.rest[0] == '"',
        ensures
            final(self).wf(),
            ({
                let rest0 = old(self)@.rest;
                let b = run_until(rest0.skip(1), '"');
                if 1 + b < rest0.len() {
                    &&& r is Some
                    &&& r.unwrap()@ == rest0.subrange(1, 1 + b as int)
                    &&& final(self)@.rest == rest0.skip(2 + b as int)
                    &&& final(self)@.line == advance_pos(
                        rest0.take(2 + b as int),
                        old(self)@.line,
                        old(self)@.column,
                    ).0
                    &&& final(self)@.column == advance_pos(
                        rest0.take(2 + b as int),
                        old(self)@.line,
                        old(self)@.column,
                    ).1
                } else {
                    &&& r is None
                    &&& final(self)@.rest.len() == 0
                    &&& final(self)@.line == advance_pos(rest0, old(self)@.line, old(self)@.column).0
                    &&& final(self)@.column == advance_pos(
                        rest0,
                        old(self)@.line,
                        old(self)@.column,
                    ).1
                }
            }),
    {
        let ghost rest0 = old(self)@.rest;
        let ghost line0 = old(self)@.line;
        let ghost col0 = old(self)@.column;
        self.next();  // the opening quote
        proof {
            lemma_advance_pos_snoc(Seq::<char>::empty(), '"', line0, col0);
            assert(Seq::<char>::empty().push('"') =~= rest0.take(1));
            assert(advance_pos(Seq::<char>::empty(), line0, col0) == (line0, col0));
        }
        let mut out = String::new();
        let ghost mut i: int = 0;
        loop
            invariant
                self.wf(),
                rest0 == old(self)@.rest,
                line0 == old(self)@.line,
                col0 == old(self)@.column,
                0 <= i <= rest0.len() - 1,
                rest0.len() > 0 && rest0[0] == '"',
                self@.rest == rest0.skip(1 + i),
                out@ == rest0.subrange(1, 1 + i),
                forall|j: int| 0 <= j < i ==> #[trigger] rest0[1 + j] != '"',
                self@.line == advance_pos(rest0.take(1 + i), line0, col0).0,
                self@.column == advance_pos(rest0.take(1 + i), line0, col0).1,
            decreases self@.rest.len(),
        {
            match self.peek() {
                None => {
                    proof {
                        assert(rest0.len() - (1 + i) == 0);
                        assert forall|j: int| 0 <= j < i implies #[trigger] rest0.skip(1)[j]
                            != '"' by {
                            assert(rest0.skip(1)[j] == rest0[1 + j]);
                        }
                        lemma_run_until_is(rest0.skip(1), '"', i);
                        assert(rest0.take(1 + i) =~= rest0);
                    }
                    return None;
                },
                Some(c) => {
                    proof {
                        assert(rest0[1 + i] == rest0.skip(1 + i)[0]);
                    }
                    if c == '"' {
                        self.next();  // the closing quote
                        proof {
                            assert forall|j: int| 0 <= j < i implies #[trigger] rest0.skip(1)[j]
                                != '"' by {
                                assert(rest0.skip(1)[j] == rest0[1 + j]);
                            }
                            assert(rest0.skip(1)[i] == rest0[1 + i]);
                            lemma_run_until_is(rest0.skip(1), '"', i);
                            lemma_advance_pos_snoc(rest0.take(1 + i), '"', line0, col0);
                            assert(rest0.take(1 + i).push('"') =~= rest0.take(2 + i));
                            assert(self@.rest =~= rest0.skip(2 + i));
                        }
                        return Some(out);
                    } else if c == '\n' {
                        self.next_line();
                        push_char(&mut out, c);
                        proof {
                            lemma_advance_pos_snoc(rest0.take(1 + i), '\n', line0, col0);
                            assert(rest0.take(1 + i).push('\n') =~= rest0.take(2 + i));
                            i = i + 1;
                            assert(self@.rest =~= rest0.skip(1 + i));
                            assert(out@ =~= rest0.subrange(1, 1 + i));
                        }
                    } else {
                        self.next();
                        push_char(&mut out, c);
                        proof {
                            lemma_advance_pos_snoc(rest0.take(1 + i), c, line0, col0);
                            assert(rest0.take(1 + i).push(c) =~= rest0.take(2 + i));
                            i = i + 1;
                            assert(self@.rest =~= rest0.skip(1 + i));
                            assert(out@ =~= rest0.subrange(1, 1 + i));
                        }
                    }
                },
            }
        }
    }

    /// Scan a number literal: a maximal digit run, extended by one decimal
    /// point and a further digit run only when the point is immediately
    /// followed by a digit.  Returns the exact spelling.
    pub fn number(&mut self) -> (r: String)
        requires
            old(self).wf(),
        ensures
            final(self).wf(),
            ({
                let k = number_len(old(self)@.rest);
                &&& r@ == old(self)@.rest.take(k as int)
                &&& final(self)@.rest == old(self)@.rest.skip(k as int)
                &&& final(self)@.line == old(self)@.line
                &&& final(self)@.column == old(self)@.column + k
            }),
    {
        let ghost rest0 = old(self)@.rest;
        let ghost line0 = old(self)@.line;
        let ghost col0 = old(self)@.column;
        let mut out = String::new();
        let ghost mut i: int = 0;
        loop
            invariant
                self.wf(),
                0 <= i <= rest0.len(),
                self@.rest == rest0.skip(i),
                out@ == rest0.take(i),
                forall|j: int| 0 <= j < i ==> is_digit(#[trigger] rest0[j]),
                self@.line == line0,
                self@.column == col0 + i,
            ensures
                self.wf(),
                0 <= i <= rest0.len(),
                self@.rest == rest0.skip(i),
                out@ == rest0.take(i),
                forall|j: int| 0 <= j < i ==> is_digit(#[trigger] rest0[j]),
                self@.line == line0,
                self@.column == col0 + i,
                i == digit_run_len(rest0),
            decreases self@.rest.len(),
        {
            match self.peek() {
                None => {
                    proof {
                        lemma_digit_run_len_is(rest0, i);
                    }
                    break ;
                },
                Some(c) => {
                    proof {
                        assert(rest0[i] == rest0.skip(i)[0]);
                    }
                    if char_is_digit(c) {
                        self.next();
                        push_char(&mut out, c);
                        proof {
                            i = i + 1;
                            assert(self@.rest =~= rest0.skip(i));
                            assert(out@ =~= rest0.take(i));
                        }
                    } else {
                        proof {
                            lemma_digit_run_len_is(rest0, i);
                        }
                        break ;
                    }
                },
            }
        }
        let ghost k1 = i;
        let mut has_fraction = false;
        match self.peek() {
            Some(c) => {
                if c == '.' {
                    match self.peek_next() {
                        Some(d) => {
                            if char_is_digit(d) {
                                has_fraction = true;
                            }
                        },
                        None => {},
                    }
                }
            },
            None => {},
        }
        proof {
            assert(k1 < rest0.len() ==> rest0[k1] == rest0.skip(k1)[0]);
            assert(k1 + 1 < rest0.len() ==> rest0[k1 + 1] == rest0.skip(k1)[1]);
            assert(has_fraction == (k1 < rest0.len() && rest0[k1] == '.' && k1 + 1 < rest0.len()
                && is_digit(rest0[k1 + 1])));
        }
        if !has_fraction {
            proof {
                assert(number_len(rest0) == k1);
            }
            return out;
        }
        let dot = self.next();
        match dot {
            Some(c) => push_char(&mut out, c),
            None => {},
        }
        proof {
            i = i + 1;
            assert(self@.rest =~= rest0.skip(i));
            assert(out@ =~= rest0.take(i));
        }
        let ghost tail = rest0.skip(k1 + 1);
        let ghost mut j: int = 0;
        loop
            invariant
                self.wf(),
                0 <= k1,
                k1 + 1 <= rest0.len(),
                tail == rest0.skip(k1 + 1),
                i == k1 + 1 + j,
                0 <= j <= tail.len(),
                self@.rest == rest0.skip(i),
                out@ == rest0.take(i),
                forall|j2: int| 0 <= j2 < j ==> is_digit(#[trigger] tail[j2]),
                self@.line == line0,
                self@.column == col0 + i,
            ensures
                self.wf(),
                i == k1 + 1 + j,
                self@.rest == rest0.skip(i),
                out@ == rest0.take(i),
                self@.line == line0,
                self@.column == col0 + i,
                j == digit_run_len(tail),
            decreases self@.rest.len(),
        {
            match self.peek() {
                None => {
                    proof {
                        lemma_digit_run_len_is(tail, j);
                    }
                    break ;
                },
                Some(c) => {
                    proof {
                        assert(tail[j] == rest0.skip(i)[0]);
                    }
                    if char_is_digit(c) {
                        self.next();
                        push_char(&mut out, c);
                        proof {
                            i = i + 1;
                            j = j + 1;
                            assert(self@.rest =~= rest0.skip(i));
                            assert(out@ =~= rest0.take(i));
                        }
                    } else {
                        proof {
                            lemma_digit_run_len_is(tail, j);
                        }
                        break ;
                    }
                },
            }
        }
        proof {
            assert(number_len(rest0) == k1 + 1 + digit_run_len(tail));
        }
        out
    }

    /// Scan an identifier: a maximal run of letters, digits and
    /// underscores.  Returns the exact spelling.
    pub fn identifier(&mut self) -> (r: String)
        requires
            old(self).wf(),
        ensures
            final(self).wf(),
            ({
                let k = ident_run_len(old(self)@.rest);
                &&& r@ == old(self)@.rest.take(k as int)
                &&& final(self)@.rest == old(self)@.rest.skip(k as int)
                &&& final(self)@.line == old(self)@.line
                &&& final(self)@.column == old(self)@.column + k
            }),
    {
        let ghost rest0 = old(self)@.rest;
        let ghost line0 = old(self)@.line;
        let ghost col0 = old(self)@.column;
        let mut out = String::new();
        let ghost mut i: int = 0;
        loop
            invariant
                self.wf(),
                0 <= i <= rest0.len(),
                self@.rest == rest0.skip(i),
                out@ == rest0.take(i),
                forall|j: int| 0 <= j < i ==> is_ident_char(#[trigger] rest0[j]),
                self@.line == line0,
                self@.column == col0 + i,
            ensures
                self.wf(),
                self@.rest == rest0.skip(i),
                out@ == rest0.take(i),
                self@.line == line0,
                self@.column == col0 + i,
                i == ident_run_len(rest0),
            decreases self@.rest.len(),
        {
            match self.peek() {
                None => {
                    proof {
                        lemma_ident_run_len_is(rest0, i);
                    }
                    break ;
                },
                Some(c) => {
                    proof {
                        assert(rest0[i] == rest0.skip(i)[0]);
                    }
                    if char_is_ident_char(c) {
                        self.next();
                        push_char(&mut out, c);
                        proof {
                            i = i + 1;
                            assert(self@.rest =~= rest0.skip(i));
                            assert(out@ =~= rest0.take(i));
                        }
                    } else {
                        proof {
                            lemma_ident_run_len_is(rest0, i);
                        }
                        break ;
                    }
                },
            }
        }
        out
    }
}

} // verus!
