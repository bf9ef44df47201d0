//! Human-readable rendering of diagnostics, with a verified decimal
//! spelling of line and column numbers.

use vstd::prelude::*;

use crate::model::DiagModel;
use crate::text::push_char;
use crate::token::ParserError;

verus! {

/// The decimal digit character for `d` (meaningful for `d < 10`).
pub open spec fn digit_char(d: nat) -> char {
    if d == 0 {
        '0'
    } else if d == 1 {
        '1'
    } else if d == 2 {
        '2'
    } else if d == 3 {
        '3'
    } else if d == 4 {
        '4'
    } else if d == 5 {
        '5'
    } else if d == 6 {
        '6'
    } else if d == 7 {
        '7'
    } else if d == 8 {
        '8'
    } else {
        '9'
    }
}

/// The decimal spelling of `n`, most significant digit first, without
/// leading zeroes (except for `n == 0` itself).
pub open spec fn dec_str(n: nat) -> Seq<char>
    decreases n,
{
    if n < 10 {
        seq![digit_char(n)]
    } else {
        dec_str(n / 10).push(digit_char(n % 10))
    }
}

fn push_digit(out: &mut String, d: usize)
    requires
        d < 10,
    ensures
        final(out)@ == old(out)@.push(digit_char(d as nat)),
{
    let c: char = if d == 0 {
        '0'
    } else if d == 1 {
        '1'
    } else if d == 2 {
        '2'
    } else if d == 3 {
        '3'
    } else if d == 4 {
        '4'
    } else if d == 5 {
        '5'
    } else if d == 6 {
        '6'
    } else if d == 7 {
        '7'
    } else if d == 8 {
        '8'
    } else {
        '9'
    };
    push_char(out, c);
}

/// Append the decimal spelling of `n` to `out`.
pub fn push_decimal(out: &mut String, n: usize)
    ensures
        final(out)@ == old(out)@ + dec_str(n as nat),
    decreases n,
{
    if n >= 10 {
        push_decimal(out, n / 10);
        push_digit(out, n % 10);
        proof {
            assert(out@ =~= old(out)@ + dec_str(n as nat));
        }
    } else {
        push_digit(out, n);
        proof {
            assert(out@ =~= old(out)@ + dec_str(n as nat));
        }
    }
}

/// The rendering of one diagnostic: `"Error: <message> at <line>:<column>"`.
pub open spec fn render_of(d: DiagModel) -> Seq<char> {
    "Error: "@ + d.error + " at "@ + dec_str(d.line) + seq![':'] + dec_str(d.column)
}

impl ParserError {
    /// The human-readable form of this diagnostic.
    pub fn render(&self) -> (r: String)
        ensures
            r@ == render_of(self@),
    {
        let mut out = String::from_str("Error: ");
        out.append(self.error.as_str());
        out.append(" at ");
        push_decimal(&mut out, self.line);
        push_char(&mut out, ':');
        push_decimal(&mut out, self.column);
        proof {
            assert(out@ =~= render_of(self@));
        }
        out
    }
}

} // verus!
