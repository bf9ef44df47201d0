//! The mathematical model of one scan pass.
//!
//! [`scan_at`] is a specification-level scanner: applied to the sequence of
//! source characters and a starting line and column, it yields exactly the
//! token stream and the diagnostic list that a scan must produce.  The
//! executable scanner is verified against this function, so every contract
//! below pins the output down completely.

use vstd::prelude::*;

use crate::token::{Literal, ParserError, Token, TokenType};

verus! {

// ---------------------------------------------------------------------------
// Character classes
// ---------------------------------------------------------------------------

/// An ASCII decimal digit.
pub open spec fn is_digit(c: char) -> bool {
    '0' as u32 <= c as u32 && c as u32 <= '9' as u32
}

/// An ASCII letter.
pub open spec fn is_alpha(c: char) -> bool {
    ('a' as u32 <= c as u32 && c as u32 <= 'z' as u32) || ('A' as u32 <= c as u32 && c as u32
        <= 'Z' as u32)
}

/// A character that may begin an identifier: a letter or an underscore.
pub open spec fn is_ident_start(c: char) -> bool {
    is_alpha(c) || c == '_'
}

/// A character that may continue an identifier: a letter, a digit or an
/// underscore.
pub open spec fn is_ident_char(c: char) -> bool {
    is_alpha(c) || is_digit(c) || c == '_'
}

// ---------------------------------------------------------------------------
// Maximal runs
// ---------------------------------------------------------------------------

/// Length of the maximal run of decimal digits at the front of `s`.
pub open spec fn digit_run_len(s: Seq<char>) -> nat
    decreases s.len(),
{
    if s.len() > 0 && is_digit(s[0]) {
        1 + digit_run_len(s.skip(1))
    } else {
        0
    }
}

/// Length of the maximal run of identifier characters at the front of `s`.
pub open spec fn ident_run_len(s: Seq<char>) -> nat
    decreases s.len(),
{
    if s.len() > 0 && is_ident_char(s[0]) {
        1 + ident_run_len(s.skip(1))
    } else {
        0
    }
}

/// Length of the front of `s` up to (excluding) the first occurrence of
/// `stop`, or all of `s` if `stop` does not occur.
pub open spec fn run_until(s: Seq<char>, stop: char) -> nat
    decreases s.len(),
{
    if s.len() > 0 && s[0] != stop {
        1 + run_until(s.skip(1), stop)
    } else {
        0
    }
}

pub proof fn lemma_digit_run_len(s: Seq<char>)
    ensures
        digit_run_len(s) <= s.len(),
        forall|i: int| 0 <= i < digit_run_len(s) ==> is_digit(#[trigger] s[i]),
        digit_run_len(s) < s.len() ==> !is_digit(s[digit_run_len(s) as int]),
    decreases s.len(),
{
    if s.len() > 0 && is_digit(s[0]) {
        lemma_digit_run_len(s.skip(1));
        assert forall|i: int| 0 <= i < digit_run_len(s) implies is_digit(#[trigger] s[i]) by {
            if i > 0 {
                assert(s[i] == s.skip(1)[i - 1]);
            }
        }
        if digit_run_len(s) < s.len() {
            assert(s[digit_run_len(s) as int] == s.skip(1)[digit_run_len(s.skip(1)) as int]);
        }
    }
}

/// If the first `k` characters of `s` are digits and the next one (if any) is
/// not, then `k` is the maximal digit run.
pub proof fn lemma_digit_run_len_is(s: Seq<char>, k: int)
    requires
        0 <= k <= s.len(),
        forall|i: int| 0 <= i < k ==> is_digit(#[trigger] s[i]),
        k < s.len() ==> !is_digit(s[k]),
    ensures
        digit_run_len(s) == k,
    decreases s.len(),
{
    if k == 0 {
    } else {
        assert(is_digit(s[0]));
        lemma_digit_run_len_is(s.skip(1), k - 1);
    }
}

pub proof fn lemma_ident_run_len(s: Seq<char>)
    ensures
        ident_run_len(s) <= s.len(),
        forall|i: int| 0 <= i < ident_run_len(s) ==> is_ident_char(#[trigger] s[i]),
        ident_run_len(s) < s.len() ==> !is_ident_char(s[ident_run_len(s) as int]),
    decreases s.len(),
{
    if s.len() > 0 && is_ident_char(s[0]) {
        lemma_ident_run_len(s.skip(1));
        assert forall|i: int| 0 <= i < ident_run_len(s) implies is_ident_char(#[trigger] s[i]) by {
            if i > 0 {
                assert(s[i] == s.skip(1)[i - 1]);
            }
        }
        if ident_run_len(s) < s.len() {
            assert(s[ident_run_len(s) as int] == s.skip(1)[ident_run_len(s.skip(1)) as int]);
        }
    }
}

pub proof fn lemma_ident_run_len_is(s: Seq<char>, k: int)
    requires
        0 <= k <= s.len(),
        forall|i: int| 0 <= i < k ==> is_ident_char(#[trigger] s[i]),
        k < s.len() ==> !is_ident_char(s[k]),
    ensures
        ident_run_len(s) == k,
    decreases s.len(),
{
    if k == 0 {
    } else {
        assert(is_ident_char(s[0]));
        lemma_ident_run_len_is(s.skip(1), k - 1);
    }
}

pub proof fn lemma_run_until(s: Seq<char>, stop: char)
    ensures
        run_until(s, stop) <= s.len(),
        forall|i: int| 0 <= i < run_until(s, stop) ==> #[trigger] s[i] != stop,
        run_until(s, stop) < s.len() ==> s[run_until(s, stop) as int] == stop,
    decreases s.len(),
{
    if s.len() > 0 && s[0] != stop {
        lemma_run_until(s.skip(1), stop);
        assert forall|i: int| 0 <= i < run_until(s, stop) implies #[trigger] s[i] != stop by {
            if i > 0 {
                assert(s[i] == s.skip(1)[i - 1]);
            }
        }
        if run_until(s, stop) < s.len() {
            assert(s[run_until(s, stop) as int] == s.skip(1)[run_until(s.skip(1), stop) as int]);
        }
    }
}

pub proof fn lemma_run_until_is(s: Seq<char>, stop: char, k: int)
    requires
        0 <= k <= s.len(),
        forall|i: int| 0 <= i < k ==> #[trigger] s[i] != stop,
        k < s.len() ==> s[k] == stop,
    ensures
        run_until(s, stop) == k,
    decreases s.len(),
{
    if k == 0 {
    } else {
        assert(s[0] != stop);
        lemma_run_until_is(s.skip(1), stop, k - 1);
    }
}

/// Length of the spelling of the number literal at the front of `s`: a
/// maximal digit run, extended by one decimal point and a further maximal
/// digit run only when the point is immediately followed by a digit.
pub open spec fn number_len(s: Seq<char>) -> nat {
    let k1 = digit_run_len(s);
    if k1 < s.len() && s[k1 as int] == '.' && k1 + 1 < s.len() && is_digit(s[k1 as int + 1]) {
        k1 + 1 + digit_run_len(s.skip(k1 as int + 1))
    } else {
        k1
    }
}

pub proof fn lemma_number_len(s: Seq<char>)
    ensures
        number_len(s) <= s.len(),
        s.len() > 0 && is_digit(s[0]) ==> number_len(s) >= 1,
        forall|i: int| 0 <= i < number_len(s) ==> #[trigger] s[i] != '\n',
{
    lemma_digit_run_len(s);
    let k1 = digit_run_len(s);
    if k1 < s.len() && s[k1 as int] == '.' && k1 + 1 < s.len() && is_digit(s[k1 as int + 1]) {
        lemma_digit_run_len(s.skip(k1 as int + 1));
        assert forall|i: int| 0 <= i < number_len(s) implies #[trigger] s[i] != '\n' by {
            if i > k1 {
                assert(s[i] == s.skip(k1 as int + 1)[i - k1 - 1]);
                assert(is_digit(s[i]));
            }
        }
    }
}

// ---------------------------------------------------------------------------
// Line and column bookkeeping
// ---------------------------------------------------------------------------

/// The line and column reached after consuming all of `s`, starting from
/// `line` and `col`: every consumed character advances the column by one,
/// and a newline instead advances the line and resets the column to 1.
pub open spec fn advance_pos(s: Seq<char>, line: nat, col: nat) -> (nat, nat)
    decreases s.len(),
{
    if s.len() == 0 {
        (line, col)
    } else if s[0] == '\n' {
        advance_pos(s.skip(1), line + 1, 1)
    } else {
        advance_pos(s.skip(1), line, col + 1)
    }
}

pub proof fn lemma_advance_pos_concat(a: Seq<char>, b: Seq<char>, line: nat, col: nat)
    ensures
        advance_pos(a + b, line, col) == advance_pos(
            b,
            advance_pos(a, line, col).0,
            advance_pos(a, line, col).1,
        ),
    decreases a.len(),
{
    if a.len() == 0 {
        assert(a + b =~= b);
    } else {
        assert((a + b)[0] == a[0]);
        assert((a + b).skip(1) =~= a.skip(1) + b);
        if a[0] == '\n' {
            lemma_advance_pos_concat(a.skip(1), b, line + 1, 1);
        } else {
            lemma_advance_pos_concat(a.skip(1), b, line, col + 1);
        }
    }
}

/// Consuming one more character moves the position by one step.
pub proof fn lemma_advance_pos_snoc(s: Seq<char>, x: char, line: nat, col: nat)
    ensures
        advance_pos(s.push(x), line, col) == (if x == '\n' {
            ((advance_pos(s, line, col).0 + 1) as nat, 1nat)
        } else {
            (advance_pos(s, line, col).0, (advance_pos(s, line, col).1 + 1) as nat)
        }),
{
    assert(s.push(x) =~= s + seq![x]);
    lemma_advance_pos_concat(s, seq![x], line, col);
    let p = advance_pos(s, line, col);
    assert(seq![x].skip(1) =~= Seq::<char>::empty());
    if x == '\n' {
        assert(advance_pos(seq![x], p.0, p.1) == advance_pos(
            Seq::<char>::empty(),
            (p.0 + 1) as nat,
            1nat,
        ));
        assert(advance_pos(Seq::<char>::empty(), (p.0 + 1) as nat, 1nat) == (
            (p.0 + 1) as nat,
            1nat,
        ));
    } else {
        assert(advance_pos(seq![x], p.0, p.1) == advance_pos(
            Seq::<char>::empty(),
            p.0,
            (p.1 + 1) as nat,
        ));
        assert(advance_pos(Seq::<char>::empty(), p.0, (p.1 + 1) as nat) == (
            p.0,
            (p.1 + 1) as nat,
        ));
    }
}

/// Consuming newline-free text leaves the line unchanged and advances the
/// column by the length of the text.
pub proof fn lemma_advance_pos_no_newline(s: Seq<char>, line: nat, col: nat)
    requires
        forall|i: int| 0 <= i < s.len() ==> #[trigger] s[i] != '\n',
    ensures
        advance_pos(s, line, col) == (line, (col + s.len()) as nat),
    decreases s.len(),
{
    if s.len() > 0 {
        assert(s[0] != '\n');
        assert forall|i: int| 0 <= i < s.skip(1).len() implies #[trigger] s.skip(1)[i] != '\n' by {
            assert(s.skip(1)[i] == s[i + 1]);
        }
        lemma_advance_pos_no_newline(s.skip(1), line, col + 1);
    }
}

pub proof fn lemma_advance_pos_bounds(s: Seq<char>, line: nat, col: nat)
    requires
        col >= 1,
        line >= 1,
    ensures
        line <= advance_pos(s, line, col).0 <= line + s.len(),
        1 <= advance_pos(s, line, col).1 <= col + s.len(),
    decreases s.len(),
{
    if s.len() > 0 {
        if s[0] == '\n' {
            lemma_advance_pos_bounds(s.skip(1), line + 1, 1);
        } else {
            lemma_advance_pos_bounds(s.skip(1), line, col + 1);
        }
    }
}

// ---------------------------------------------------------------------------
// Token kind tables
// ---------------------------------------------------------------------------

/// The kind of a fixed single-character punctuation token, if `c` is one.
pub open spec fn single_char_kind(c: char) -> Option<TokenType> {
    if c == '(' {
        Some(TokenType::LeftParen)
    } else if c == ')' {
        Some(TokenType::RightParen)
    } else if c == '{' {
        Some(TokenType::LeftBrace)
    } else if c == '}' {
        Some(TokenType::RightBrace)
    } else if c == ',' {
        Some(TokenType::Comma)
    } else if c == '.' {
        Some(TokenType::Dot)
    } else if c == '-' {
        Some(TokenType::Minus)
    } else if c == '+' {
        Some(TokenType::Plus)
    } else if c == ';' {
        Some(TokenType::Semicolon)
    } else if c == '*' {
        Some(TokenType::Star)
    } else {
        None
    }
}

/// For a candidate two-character operator `c`, the pair of its one-character
/// kind and of its kind when followed by `=`.
pub open spec fn compound_kinds(c: char) -> Option<(TokenType, TokenType)> {
    if c == '!' {
        Some((TokenType::Bang, TokenType::BangEqual))
    } else if c == '=' {
        Some((TokenType::Equal, TokenType::EqualEqual))
    } else if c == '<' {
        Some((TokenType::Less, TokenType::LessEqual))
    } else if c == '>' {
        Some((TokenType::Greater, TokenType::GreaterEqual))
    } else {
        None
    }
}

/// The reserved-word table: the keyword kind for `w`, or `None` when `w` is
/// an ordinary identifier spelling.
pub open spec fn keyword_of(w: Seq<char>) -> Option<TokenType> {
    if w =~= seq!['a', 'n', 'd'] {
        Some(TokenType::And)
    } else if w =~= seq!['c', 'l', 'a', 's', 's'] {
        Some(TokenType::Class)
    } else if w =~= seq!['e', 'l', 's', 'e'] {
        Some(TokenType::Else)
    } else if w =~= seq!['f', 'a', 'l', 's', 'e'] {
        Some(TokenType::False)
    } else if w =~= seq!['f', 'o', 'r'] {
        Some(TokenType::For)
    } else if w =~= seq!['f', 'u', 'n'] {
        Some(TokenType::Fun)
    } else if w =~= seq!['i', 'f'] {
        Some(TokenType::If)
    } else if w =~= seq!['n', 'i', 'l'] {
        Some(TokenType::Nil)
    } else if w =~= seq!['o', 'r'] {
        Some(TokenType::Or)
    } else if w =~= seq!['p', 'r', 'i', 'n', 't'] {
        Some(TokenType::Print)
    } else if w =~= seq!['r', 'e', 't', 'u', 'r', 'n'] {
        Some(TokenType::Return)
    } else if w =~= seq!['s', 'u', 'p', 'e', 'r'] {
        Some(TokenType::Super)
    } else if w =~= seq!['t', 'h', 'i', 's'] {
        Some(TokenType::This)
    } else if w =~= seq!['t', 'r', 'u', 'e'] {
        Some(TokenType::True)
    } else if w =~= seq!['v', 'a', 'r'] {
        Some(TokenType::Var)
    } else if w =~= seq!['w', 'h', 'i', 'l', 'e'] {
        Some(TokenType::While)
    } else {
        None
    }
}

// ---------------------------------------------------------------------------
// Model values and views
// ---------------------------------------------------------------------------

/// Model of a literal payload.
pub enum LitModel {
    Ident(Seq<char>),
    Str(Seq<char>),
    Num(Seq<char>),
}

/// Model of a token.
pub struct TokenModel {
    pub token_type: TokenType,
    pub literal: Option<LitModel>,
    pub line: nat,
    pub column: nat,
}

/// Model of a diagnostic.
pub struct DiagModel {
    pub error: Seq<char>,
    pub line: nat,
    pub column: nat,
}

impl View for Literal {
    type V = LitModel;

    open spec fn view(&self) -> LitModel {
        match self {
            Literal::Identifier(s) => LitModel::Ident(s@),
            Literal::Str(s) => LitModel::Str(s@),
            Literal::Number(s) => LitModel::Num(s@),
        }
    }
}

/// The view of an optional literal payload.
pub open spec fn opt_lit_view(l: Option<Literal>) -> Option<LitModel> {
    match l {
        Some(x) => Some(x@),
        None => None,
    }
}

impl View for Token {
    type V = TokenModel;

    open spec fn view(&self) -> TokenModel {
        TokenModel {
            token_type: self.token_type,
            literal: opt_lit_view(self.literal),
            line: self.line as nat,
            column: self.column as nat,
        }
    }
}

impl View for ParserError {
    type V = DiagModel;

    open spec fn view(&self) -> DiagModel {
        DiagModel { error: self.error@, line: self.line as nat, column: self.column as nat }
    }
}

/// The views of a sequence of tokens.
pub open spec fn token_views(ts: Seq<Token>) -> Seq<TokenModel> {
    ts.map_values(|t: Token| t@)
}

/// The views of a sequence of diagnostics.
pub open spec fn diag_views(es: Seq<ParserError>) -> Seq<DiagModel> {
    es.map_values(|e: ParserError| e@)
}

pub proof fn lemma_token_views_push(ts: Seq<Token>, t: Token)
    ensures
        token_views(ts.push(t)) == token_views(ts).push(t@),
{
    assert(token_views(ts.push(t)) =~= token_views(ts).push(t@));
}

pub proof fn lemma_diag_views_push(es: Seq<ParserError>, e: ParserError)
    ensures
        diag_views(es.push(e)) == diag_views(es).push(e@),
{
    assert(diag_views(es.push(e)) =~= diag_views(es).push(e@));
}

// ---------------------------------------------------------------------------
// The specification-level scanner
// ---------------------------------------------------------------------------

/// The two ordered outputs of one scan pass.
pub struct ScanOut {
    pub tokens: Seq<TokenModel>,
    pub diags: Seq<DiagModel>,
}

/// A token without a literal payload.
pub open spec fn plain(t: TokenType, line: nat, col: nat) -> TokenModel {
    TokenModel { token_type: t, literal: None, line, column: col }
}

/// Prepend one token to a scan output.
pub open spec fn with_token(t: TokenModel, rest: ScanOut) -> ScanOut {
    ScanOut { tokens: seq![t] + rest.tokens, diags: rest.diags }
}

/// Prepend one diagnostic to a scan output.
pub open spec fn with_diag(d: DiagModel, rest: ScanOut) -> ScanOut {
    ScanOut { tokens: rest.tokens, diags: seq![d] + rest.diags }
}

/// The tokens and diagnostics produced by scanning `s` from position
/// (`line`, `col`), ending in exactly one end-of-input token.
pub open spec fn scan_at(s: Seq<char>, line: nat, col: nat) -> ScanOut
    decreases s.len(),
    via scan_at_decreases
{
    if s.len() == 0 {
        ScanOut { tokens: seq![plain(TokenType::Eof, line, col)], diags: Seq::empty() }
    } else {
        let c = s[0];
        if single_char_kind(c) is Some {
            with_token(
                plain(single_char_kind(c).unwrap(), line, col),
                scan_at(s.skip(1), line, col + 1),
            )
        } else if compound_kinds(c) is Some {
            if s.len() >= 2 && s[1] == '=' {
                with_token(
                    plain(compound_kinds(c).unwrap().1, line, col),
                    scan_at(s.skip(2), line, col + 2),
                )
            } else {
                with_token(
                    plain(compound_kinds(c).unwrap().0, line, col),
                    scan_at(s.skip(1), line, col + 1),
                )
            }
        } else if c == '/' {
            if s.len() >= 2 && s[1] == '/' {
                let k = 2 + run_until(s.skip(2), '\n');
                scan_at(s.skip(k as int), line, col + k)
            } else {
                with_token(plain(TokenType::Slash, line, col), scan_at(s.skip(1), line, col + 1))
            }
        } else if c == ' ' || c == '\r' || c == '\t' {
            scan_at(s.skip(1), line, col + 1)
        } else if c == '\n' {
            scan_at(s.skip(1), line + 1, 1)
        } else if c == '"' {
            let b = run_until(s.skip(1), '"');
            if 1 + b < s.len() {
                let next_pos = advance_pos(s.take(2 + b as int), line, col);
                with_token(
                    TokenModel {
                        token_type: TokenType::Str,
                        literal: Some(LitModel::Str(s.subrange(1, 1 + b as int))),
                        line,
                        column: col,
                    },
                    scan_at(s.skip(2 + b as int), next_pos.0, next_pos.1),
                )
            } else {
                let next_pos = advance_pos(s, line, col);
                with_diag(
                    DiagModel { error: "Unterminated string"@, line, column: col },
                    scan_at(s.skip(s.len() as int), next_pos.0, next_pos.1),
                )
            }
        } else if is_digit(c) {
            let k = number_len(s);
            with_token(
                TokenModel {
                    token_type: TokenType::Number,
                    literal: Some(LitModel::Num(s.take(k as int))),
                    line,
                    column: col,
                },
                scan_at(s.skip(k as int), line, col + k),
            )
        } else if is_ident_start(c) {
            let k = ident_run_len(s);
            let w = s.take(k as int);
            if keyword_of(w) is Some {
                with_token(
                    plain(keyword_of(w).unwrap(), line, col),
                    scan_at(s.skip(k as int), line, col + k),
                )
            } else {
                with_token(
                    TokenModel {
                        token_type: TokenType::Identifier,
                        literal: Some(LitModel::Ident(w)),
                        line,
                        column: col,
                    },
                    scan_at(s.skip(k as int), line, col + k),
                )
            }
        } else {
            with_diag(
                DiagModel { error: "Unexpected character"@, line, column: col },
                scan_at(s.skip(1), line, col + 1),
            )
        }
    }
}

#[via_fn]
proof fn scan_at_decreases(s: Seq<char>, line: nat, col: nat) {
    if s.len() >= 2 {
        lemma_run_until(s.skip(2), '\n');
    }
    if s.len() >= 1 {
        lemma_run_until(s.skip(1), '"');
        lemma_number_len(s);
        lemma_ident_run_len(s);
    }
}

// ---------------------------------------------------------------------------
// Laws of the scan
// ---------------------------------------------------------------------------

/// For every input and starting position, the scan terminates and its token
/// stream ends in exactly one end-of-input token: the last token is the
/// end-of-input sentinel and no earlier token is.
pub proof fn lemma_scan_ends_in_eof(s: Seq<char>, line: nat, col: nat)
    ensures
        scan_at(s, line, col).tokens.len() >= 1,
        scan_at(s, line, col).tokens.last().token_type == TokenType::Eof,
        forall|i: int|
            0 <= i < scan_at(s, line, col).tokens.len() - 1 ==> (#[trigger] scan_at(
                s,
                line,
                col,
            ).tokens[i]).token_type != TokenType::Eof,
    decreases s.len(),
{
    if s.len() == 0 {
    } else {
        let c = s[0];
        if single_char_kind(c) is Some {
            lemma_scan_ends_in_eof(s.skip(1), line, (col + 1) as nat);
        } else if compound_kinds(c) is Some {
            if s.len() >= 2 && s[1] == '=' {
                lemma_scan_ends_in_eof(s.skip(2), line, (col + 2) as nat);
            } else {
                lemma_scan_ends_in_eof(s.skip(1), line, (col + 1) as nat);
            }
        } else if c == '/' {
            if s.len() >= 2 && s[1] == '/' {
                lemma_run_until(s.skip(2), '\n');
                let k = 2 + run_until(s.skip(2), '\n');
                lemma_scan_ends_in_eof(s.skip(k as int), line, (col + k) as nat);
            } else {
                lemma_scan_ends_in_eof(s.skip(1), line, (col + 1) as nat);
            }
        } else if c == ' ' || c == '\r' || c == '\t' {
            lemma_scan_ends_in_eof(s.skip(1), line, (col + 1) as nat);
        } else if c == '\n' {
            lemma_scan_ends_in_eof(s.skip(1), (line + 1) as nat, 1nat);
        } else if c == '"' {
            lemma_run_until(s.skip(1), '"');
            let b = run_until(s.skip(1), '"');
            if 1 + b < s.len() {
                let next_pos = advance_pos(s.take(2 + b as int), line, col);
                lemma_scan_ends_in_eof(s.skip(2 + b as int), next_pos.0, next_pos.1);
            } else {
                let next_pos = advance_pos(s, line, col);
                lemma_scan_ends_in_eof(s.skip(s.len() as int), next_pos.0, next_pos.1);
            }
        } else if is_digit(c) {
            lemma_number_len(s);
            let k = number_len(s);
            lemma_scan_ends_in_eof(s.skip(k as int), line, (col + k) as nat);
        } else if is_ident_start(c) {
            lemma_ident_run_len(s);
            let k = ident_run_len(s);
            lemma_scan_ends_in_eof(s.skip(k as int), line, (col + k) as nat);
        } else {
            lemma_scan_ends_in_eof(s.skip(1), line, (col + 1) as nat);
        }
    }
}

/// Across one token stream, line numbers never decrease, and no token
/// stands before the scan's starting line.
pub proof fn lemma_scan_lines_monotonic(s: Seq<char>, line: nat, col: nat)
    requires
        1 <= line,
        1 <= col,
    ensures
        forall|i: int|
            0 <= i < scan_at(s, line, col).tokens.len() ==> line <= (#[trigger] scan_at(
                s,
                line,
                col,
            ).tokens[i]).line,
        forall|i: int, j: int|
            #![trigger scan_at(s, line, col).tokens[i], scan_at(s, line, col).tokens[j]]
            0 <= i <= j < scan_at(s, line, col).tokens.len() ==> (scan_at(s, line, col).tokens[i]).line
                <= (scan_at(s, line, col).tokens[j]).line,
    decreases s.len(),
{
    if s.len() == 0 {
    } else {
        let c = s[0];
        if single_char_kind(c) is Some {
            lemma_scan_lines_monotonic(s.skip(1), line, (col + 1) as nat);
        } else if compound_kinds(c) is Some {
            if s.len() >= 2 && s[1] == '=' {
                lemma_scan_lines_monotonic(s.skip(2), line, (col + 2) as nat);
            } else {
                lemma_scan_lines_monotonic(s.skip(1), line, (col + 1) as nat);
            }
        } else if c == '/' {
            if s.len() >= 2 && s[1] == '/' {
                lemma_run_until(s.skip(2), '\n');
                let k = 2 + run_until(s.skip(2), '\n');
                lemma_scan_lines_monotonic(s.skip(k as int), line, (col + k) as nat);
            } else {
                lemma_scan_lines_monotonic(s.skip(1), line, (col + 1) as nat);
            }
        } else if c == ' ' || c == '\r' || c == '\t' {
            lemma_scan_lines_monotonic(s.skip(1), line, (col + 1) as nat);
        } else if c == '\n' {
            lemma_scan_lines_monotonic(s.skip(1), (line + 1) as nat, 1nat);
        } else if c == '"' {
            lemma_run_until(s.skip(1), '"');
            let b = run_until(s.skip(1), '"');
            if 1 + b < s.len() {
                let next_pos = advance_pos(s.take(2 + b as int), line, col);
                lemma_advance_pos_bounds(s.take(2 + b as int), line, col);
                lemma_scan_lines_monotonic(s.skip(2 + b as int), next_pos.0, next_pos.1);
            } else {
                let next_pos = advance_pos(s, line, col);
                lemma_advance_pos_bounds(s, line, col);
                lemma_scan_lines_monotonic(s.skip(s.len() as int), next_pos.0, next_pos.1);
            }
        } else if is_digit(c) {
            lemma_number_len(s);
            let k = number_len(s);
            lemma_scan_lines_monotonic(s.skip(k as int), line, (col + k) as nat);
        } else if is_ident_start(c) {
            lemma_ident_run_len(s);
            let k = ident_run_len(s);
            lemma_scan_lines_monotonic(s.skip(k as int), line, (col + k) as nat);
        } else {
            lemma_scan_lines_monotonic(s.skip(1), line, (col + 1) as nat);
        }
    }
}

/// Whether a token carries exactly the literal payload its kind calls for:
/// identifier, string and number tokens their own variant, every other
/// token none.
pub open spec fn literal_consistent(t: TokenModel) -> bool {
    match t.token_type {
        TokenType::Identifier => t.literal matches Some(LitModel::Ident(_)),
        TokenType::Str => t.literal matches Some(LitModel::Str(_)),
        TokenType::Number => t.literal matches Some(LitModel::Num(_)),
        _ => t.literal is None,
    }
}

proof fn lemma_consistent_cons(t: TokenModel, rest: ScanOut)
    requires
        literal_consistent(t),
        forall|i: int|
            0 <= i < rest.tokens.len() ==> literal_consistent(#[trigger] rest.tokens[i]),
    ensures
        forall|i: int|
            0 <= i < with_token(t, rest).tokens.len() ==> literal_consistent(
                #[trigger] with_token(t, rest).tokens[i],
            ),
{
    assert forall|i: int| 0 <= i < with_token(t, rest).tokens.len() implies literal_consistent(
        with_token(t, rest).tokens[i],
    ) by {
        if i == 0 {
            assert(with_token(t, rest).tokens[0] == t);
        } else {
            assert(with_token(t, rest).tokens[i] == rest.tokens[i - 1]);
        }
    }
}

/// No token of a scan ever carries a literal payload inconsistent with its
/// kind.
pub proof fn lemma_scan_literals_consistent(s: Seq<char>, line: nat, col: nat)
    ensures
        forall|i: int|
            0 <= i < scan_at(s, line, col).tokens.len() ==> literal_consistent(
                #[trigger] scan_at(s, line, col).tokens[i],
            ),
    decreases s.len(),
{
    if s.len() == 0 {
    } else {
        let c = s[0];
        if single_char_kind(c) is Some {
            lemma_scan_literals_consistent(s.skip(1), line, (col + 1) as nat);
            lemma_consistent_cons(
                plain(single_char_kind(c).unwrap(), line, col),
                scan_at(s.skip(1), line, (col + 1) as nat),
            );
        } else if compound_kinds(c) is Some {
            if s.len() >= 2 && s[1] == '=' {
                lemma_scan_literals_consistent(s.skip(2), line, (col + 2) as nat);
                lemma_consistent_cons(
                    plain(compound_kinds(c).unwrap().1, line, col),
                    scan_at(s.skip(2), line, (col + 2) as nat),
                );
            } else {
                lemma_scan_literals_consistent(s.skip(1), line, (col + 1) as nat);
                lemma_consistent_cons(
                    plain(compound_kinds(c).unwrap().0, line, col),
                    scan_at(s.skip(1), line, (col + 1) as nat),
                );
            }
        } else if c == '/' {
            if s.len() >= 2 && s[1] == '/' {
                lemma_run_until(s.skip(2), '\n');
                let k = 2 + run_until(s.skip(2), '\n');
                lemma_scan_literals_consistent(s.skip(k as int), line, (col + k) as nat);
                assert(scan_at(s, line, col).tokens == scan_at(
                    s.skip(k as int),
                    line,
                    (col + k) as nat,
                ).tokens);
            } else {
                lemma_scan_literals_consistent(s.skip(1), line, (col + 1) as nat);
                lemma_consistent_cons(
                    plain(TokenType::Slash, line, col),
                    scan_at(s.skip(1), line, (col + 1) as nat),
                );
            }
        } else if c == ' ' || c == '\r' || c == '\t' {
            lemma_scan_literals_consistent(s.skip(1), line, (col + 1) as nat);
            assert(scan_at(s, line, col).tokens == scan_at(
                s.skip(1),
                line,
                (col + 1) as nat,
            ).tokens);
        } else if c == '\n' {
            lemma_scan_literals_consistent(s.skip(1), (line + 1) as nat, 1nat);
            assert(scan_at(s, line, col).tokens == scan_at(
                s.skip(1),
                (line + 1) as nat,
                1nat,
            ).tokens);
        } else if c == '"' {
            lemma_run_until(s.skip(1), '"');
            let b = run_until(s.skip(1), '"');
            if 1 + b < s.len() {
                let next_pos = advance_pos(s.take(2 + b as int), line, col);
                lemma_scan_literals_consistent(s.skip(2 + b as int), next_pos.0, next_pos.1);
                lemma_consistent_cons(
                    TokenModel {
                        token_type: TokenType::Str,
                        literal: Some(LitModel::Str(s.subrange(1, 1 + b as int))),
                        line,
                        column: col,
                    },
                    scan_at(s.skip(2 + b as int), next_pos.0, next_pos.1),
                );
            } else {
                let next_pos = advance_pos(s, line, col);
                lemma_scan_literals_consistent(s.skip(s.len() as int), next_pos.0, next_pos.1);
                assert(scan_at(s, line, col).tokens == scan_at(
                    s.skip(s.len() as int),
                    next_pos.0,
                    next_pos.1,
                ).tokens);
            }
        } else if is_digit(c) {
            lemma_number_len(s);
            let k = number_len(s);
            lemma_scan_literals_consistent(s.skip(k as int), line, (col + k) as nat);
            lemma_consistent_cons(
                TokenModel {
                    token_type: TokenType::Number,
                    literal: Some(LitModel::Num(s.take(k as int))),
                    line,
                    column: col,
                },
                scan_at(s.skip(k as int), line, (col + k) as nat),
            );
        } else if is_ident_start(c) {
            lemma_ident_run_len(s);
            let k = ident_run_len(s);
            lemma_scan_literals_consistent(s.skip(k as int), line, (col + k) as nat);
            let w = s.take(k as int);
            if keyword_of(w) is Some {
                lemma_consistent_cons(
                    plain(keyword_of(w).unwrap(), line, col),
                    scan_at(s.skip(k as int), line, (col + k) as nat),
                );
            } else {
                lemma_consistent_cons(
                    TokenModel {
                        token_type: TokenType::Identifier,
                        literal: Some(LitModel::Ident(w)),
                        line,
                        column: col,
                    },
                    scan_at(s.skip(k as int), line, (col + k) as nat),
                );
            }
        } else {
            lemma_scan_literals_consistent(s.skip(1), line, (col + 1) as nat);
            assert(scan_at(s, line, col).tokens == scan_at(
                s.skip(1),
                line,
                (col + 1) as nat,
            ).tokens);
        }
    }
}

/// Whether the input is lexically clean: it holds no character outside the
/// lexical rules and no string literal left unterminated at end of input.
pub open spec fn lexically_clean(s: Seq<char>) -> bool
    decreases s.len(),
    via lexically_clean_decreases
{
    if s.len() == 0 {
        true
    } else {
        let c = s[0];
        if single_char_kind(c) is Some {
            lexically_clean(s.skip(1))
        } else if compound_kinds(c) is Some {
            if s.len() >= 2 && s[1] == '=' {
                lexically_clean(s.skip(2))
            } else {
                lexically_clean(s.skip(1))
            }
        } else if c == '/' {
            if s.len() >= 2 && s[1] == '/' {
                lexically_clean(s.skip(2 + run_until(s.skip(2), '\n') as int))
            } else {
                lexically_clean(s.skip(1))
            }
        } else if c == ' ' || c == '\r' || c == '\t' || c == '\n' {
            lexically_clean(s.skip(1))
        } else if c == '"' {
            if 1 + run_until(s.skip(1), '"') < s.len() {
                lexically_clean(s.skip(2 + run_until(s.skip(1), '"') as int))
            } else {
                false
            }
        } else if is_digit(c) {
            lexically_clean(s.skip(number_len(s) as int))
        } else if is_ident_start(c) {
            lexically_clean(s.skip(ident_run_len(s) as int))
        } else {
            false
        }
    }
}

#[via_fn]
proof fn lexically_clean_decreases(s: Seq<char>) {
    if s.len() >= 2 {
        lemma_run_until(s.skip(2), '\n');
    }
    if s.len() >= 1 {
        lemma_run_until(s.skip(1), '"');
        lemma_number_len(s);
        lemma_ident_run_len(s);
    }
}

/// For every input and starting position, the scan yields no diagnostic if
/// and only if the input is lexically clean.
pub proof fn lemma_clean_iff_no_diags(s: Seq<char>, line: nat, col: nat)
    ensures
        lexically_clean(s) <==> scan_at(s, line, col).diags.len() == 0,
    decreases s.len(),
{
    if s.len() == 0 {
    } else {
        let c = s[0];
        if single_char_kind(c) is Some {
            lemma_clean_iff_no_diags(s.skip(1), line, (col + 1) as nat);
        } else if compound_kinds(c) is Some {
            if s.len() >= 2 && s[1] == '=' {
                lemma_clean_iff_no_diags(s.skip(2), line, (col + 2) as nat);
            } else {
                lemma_clean_iff_no_diags(s.skip(1), line, (col + 1) as nat);
            }
        } else if c == '/' {
            if s.len() >= 2 && s[1] == '/' {
                lemma_run_until(s.skip(2), '\n');
                let k = 2 + run_until(s.skip(2), '\n');
                lemma_clean_iff_no_diags(s.skip(k as int), line, (col + k) as nat);
            } else {
                lemma_clean_iff_no_diags(s.skip(1), line, (col + 1) as nat);
            }
        } else if c == ' ' || c == '\r' || c == '\t' {
            lemma_clean_iff_no_diags(s.skip(1), line, (col + 1) as nat);
        } else if c == '\n' {
            lemma_clean_iff_no_diags(s.skip(1), (line + 1) as nat, 1nat);
        } else if c == '"' {
            lemma_run_until(s.skip(1), '"');
            let b = run_until(s.skip(1), '"');
            if 1 + b < s.len() {
                let next_pos = advance_pos(s.take(2 + b as int), line, col);
                lemma_clean_iff_no_diags(s.skip(2 + b as int), next_pos.0, next_pos.1);
            } else {
                let next_pos = advance_pos(s, line, col);
                lemma_clean_iff_no_diags(s.skip(s.len() as int), next_pos.0, next_pos.1);
            }
        } else if is_digit(c) {
            lemma_number_len(s);
            let k = number_len(s);
            lemma_clean_iff_no_diags(s.skip(k as int), line, (col + k) as nat);
        } else if is_ident_start(c) {
            lemma_ident_run_len(s);
            let k = ident_run_len(s);
            lemma_clean_iff_no_diags(s.skip(k as int), line, (col + k) as nat);
        } else {
            lemma_clean_iff_no_diags(s.skip(1), line, (col + 1) as nat);
        }
    }
}

} // verus!
