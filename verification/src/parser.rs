//! The lexer: a single-pass dispatch loop that drives the cursor, emits
//! tokens and records diagnostics, never aborting on malformed input.

use vstd::prelude::*;

use crate::model::{
    advance_pos, compound_kinds, diag_views, ident_run_len, keyword_of, lemma_diag_views_push,
    lemma_number_len, lemma_token_views_push, number_len, plain, run_until, scan_at,
    single_char_kind, token_views, with_diag, with_token,
};
use crate::scanner::{char_is_digit, char_is_ident_start, Scanner};
use crate::token::{Literal, ParserError, Token, TokenType};

verus! {

/// The executable single-character punctuation table.
pub fn single_kind_lookup(c: char) -> (r: Option<TokenType>)
    ensures
        r == single_char_kind(c),
{
    if c == '(' {
        Some(TokenType::LeftParen)
    } else if c == ')' {
        Some(TokenType::RightParen)
    } else if c == '{' {
        Some(TokenType::LeftBrace)
    } else if c == '}' {
        Some(TokenType::RightBrace)
    } else if c == ',' {
        Some(TokenType::Comma)
    } else if c == '.' {
        Some(TokenType::Dot)
    } else if c == '-' {
        Some(TokenType::Minus)
    } else if c == '+' {
        Some(TokenType::Plus)
    } else if c == ';' {
        Some(TokenType::Semicolon)
    } else if c == '*' {
        Some(TokenType::Star)
    } else {
        None
    }
}

/// The executable two-character operator table: the kind without and with a
/// trailing `=`.
pub fn compound_kind_lookup(c: char) -> (r: Option<(TokenType, TokenType)>)
    ensures
        r == compound_kinds(c),
{
    if c == '!' {
        Some((TokenType::Bang, TokenType::BangEqual))
    } else if c == '=' {
        Some((TokenType::Equal, TokenType::EqualEqual))
    } else if c == '<' {
        Some((TokenType::Less, TokenType::LessEqual))
    } else if c == '>' {
        Some((TokenType::Greater, TokenType::GreaterEqual))
    } else {
        None
    }
}

/// The executable reserved-word table.
pub fn keyword_lookup(w: &str) -> (r: Option<TokenType>)
    ensures
        r == keyword_of(w@),
{
    let n: usize = w.unicode_len();
    if n == 2 {
        let c0 = w.get_char(0);
        let c1 = w.get_char(1);
        if c0 == 'i' && c1 == 'f' {
            proof {
                assert(w@ =~= seq!['i', 'f']);
            }
            return Some(TokenType::If);
        }
        if c0 == 'o' && c1 == 'r' {
            proof {
                assert(w@ =~= seq!['o', 'r']);
            }
            return Some(TokenType::Or);
        }
    } else if n == 3 {
        let c0 = w.get_char(0);
        let c1 = w.get_char(1);
        let c2 = w.get_char(2);
        if c0 == 'a' && c1 == 'n' && c2 == 'd' {
            proof {
                assert(w@ =~= seq!['a', 'n', 'd']);
            }
            return Some(TokenType::And);
        }
        if c0 == 'f' && c1 == 'o' && c2 == 'r' {
            proof {
                assert(w@ =~= seq!['f', 'o', 'r']);
            }
            return Some(TokenType::For);
        }
        if c0 == 'f' && c1 == 'u' && c2 == 'n' {
            proof {
                assert(w@ =~= seq!['f', 'u', 'n']);
            }
            return Some(TokenType::Fun);
        }
        if c0 == 'n' && c1 == 'i' && c2 == 'l' {
            proof {
                assert(w@ =~= seq!['n', 'i', 'l']);
            }
            return Some(TokenType::Nil);
        }
        if c0 == 'v' && c1 == 'a' && c2 == 'r' {
            proof {
                assert(w@ =~= seq!['v', 'a', 'r']);
            }
            return Some(TokenType::Var);
        }
    } else if n == 4 {
        let c0 = w.get_char(0);
        let c1 = w.get_char(1);
        let c2 = w.get_char(2);
        let c3 = w.get_char(3);
        if c0 == 'e' && c1 == 'l' && c2 == 's' && c3 == 'e' {
            proof {
                assert(w@ =~= seq!['e', 'l', 's', 'e']);
            }
            return Some(TokenType::Else);
        }
        if c0 == 't' && c1 == 'h' && c2 == 'i' && c3 == 's' {
            proof {
                assert(w@ =~= seq!['t', 'h', 'i', 's']);
            }
            return Some(TokenType::This);
        }
        if c0 == 't' && c1 == 'r' && c2 == 'u' && c3 == 'e' {
            proof {
                assert(w@ =~= seq!['t', 'r', 'u', 'e']);
            }
            return Some(TokenType::True);
        }
    } else if n == 5 {
        let c0 = w.get_char(0);
        let c1 = w.get_char(1);
        let c2 = w.get_char(2);
        let c3 = w.get_char(3);
        let c4 = w.get_char(4);
        if c0 == 'c' && c1 == 'l' && c2 == 'a' && c3 == 's' && c4 == 's' {
            proof {
                assert(w@ =~= seq!['c', 'l', 'a', 's', 's']);
            }
            return Some(TokenType::Class);
        }
        if c0 == 'f' && c1 == 'a' && c2 == 'l' && c3 == 's' && c4 == 'e' {
            proof {
                assert(w@ =~= seq!['f', 'a', 'l', 's', 'e']);
            }
            return Some(TokenType::False);
        }
        if c0 == 'p' && c1 == 'r' && c2 == 'i' && c3 == 'n' && c4 == 't' {
            proof {
                assert(w@ =~= seq!['p', 'r', 'i', 'n', 't']);
            }
            return Some(TokenType::Print);
        }
        if c0 == 's' && c1 == 'u' && c2 == 'p' && c3 == 'e' && c4 == 'r' {
            proof {
                assert(w@ =~= seq!['s', 'u', 'p', 'e', 'r']);
            }
            return Some(TokenType::Super);
        }
        if c0 == 'w' && c1 == 'h' && c2 == 'i' && c3 == 'l' && c4 == 'e' {
            proof {
                assert(w@ =~= seq!['w', 'h', 'i', 'l', 'e']);
            }
            return Some(TokenType::While);
        }
    } else if n == 6 {
        let c0 = w.get_char(0);
        let c1 = w.get_char(1);
        let c2 = w.get_char(2);
        let c3 = w.get_char(3);
        let c4 = w.get_char(4);
        let c5 = w.get_char(5);
        if c0 == 'r' && c1 == 'e' && c2 == 't' && c3 == 'u' && c4 == 'r' && c5 == 'n' {
            proof {
                assert(w@ =~= seq!['r', 'e', 't', 'u', 'r', 'n']);
            }
            return Some(TokenType::Return);
        }
    }
    None
}

/// One scan pass: the lexer that drives a [`Scanner`] over the whole source
/// text and collects the token stream and the diagnostics.
pub struct Parser {
    pub scanner: Scanner,
    pub tokens: Vec<Token>,
    pub errors: Vec<ParserError>,
}

impl Parser {
    pub open spec fn wf(&self) -> bool {
        self.scanner.wf()
    }

    /// A parser over the given source text, with no output yet.
    pub fn new(source: String) -> (p: Parser)
        requires
            source@.len() < usize::MAX,
        ensures
            p.wf(),
            p.scanner@.rest == source@,
            p.scanner@.line == 1,
            p.scanner@.column == 1,
            p.tokens@.len() == 0,
            p.errors@.len() == 0,
    {
        Parser { scanner: Scanner::new(source), tokens: Vec::new(), errors: Vec::new() }
    }

    /// Run the scan to end of input.  Appends to `tokens` exactly the token
    /// stream of the model scanner — ending in one end-of-input token — and
    /// to `errors` exactly its diagnostics, in detection order.
    #[verifier::rlimit(100)]
    pub fn scan_tokens(&mut self)
        requires
            old(self).wf(),
        ensures
            final(self).wf(),
            token_views(final(self).tokens@) == token_views(old(self).tokens@) + scan_at(
                old(self).scanner@.rest,
                old(self).scanner@.line,
                old(self).scanner@.column,
            ).tokens,
            diag_views(final(self).errors@) == diag_views(old(self).errors@) + scan_at(
                old(self).scanner@.rest,
                old(self).scanner@.line,
                old(self).scanner@.column,
            ).diags,
            final(self).scanner@.rest.len() == 0,
    {
        let ghost src0 = old(self).scanner@.rest;
        let ghost start_line = old(self).scanner@.line;
        let ghost start_col = old(self).scanner@.column;
        let ghost toks0 = token_views(old(self).tokens@);
        let ghost diags0 = diag_views(old(self).errors@);
        let ghost target = scan_at(src0, start_line, start_col);
        loop
            invariant
                self.wf(),
                target == scan_at(src0, start_line, start_col),
                toks0 == token_views(old(self).tokens@),
                diags0 == diag_views(old(self).errors@),
                toks0 + target.tokens == token_views(self.tokens@) + scan_at(
                    self.scanner@.rest,
                    self.scanner@.line,
                    self.scanner@.column,
                ).tokens,
                diags0 + target.diags == diag_views(self.errors@) + scan_at(
                    self.scanner@.rest,
                    self.scanner@.line,
                    self.scanner@.column,
                ).diags,
            ensures
                self.wf(),
                toks0 == token_views(old(self).tokens@),
                diags0 == diag_views(old(self).errors@),
                toks0 + target.tokens == token_views(self.tokens@) + scan_at(
                    self.scanner@.rest,
                    self.scanner@.line,
                    self.scanner@.column,
                ).tokens,
                diags0 + target.diags == diag_views(self.errors@) + scan_at(
                    self.scanner@.rest,
                    self.scanner@.line,
                    self.scanner@.column,
                ).diags,
                self.scanner@.rest.len() == 0,
            decreases self.scanner@.rest.len(),
        {
            let c = match self.scanner.peek() {
                None => {
                    break ;
                },
                Some(c) => c,
            };
            let ghost rest_b = self.scanner@.rest;
            let ghost line_b = self.scanner@.line;
            let ghost col_b = self.scanner@.column;
            let tl = self.scanner.line;
            let tc = self.scanner.column;
            match single_kind_lookup(c) {
                Some(k) => {
                    self.scanner.next();
                    let tok = Token::new(k, None, tl, tc);
                    proof {
                        lemma_token_views_push(self.tokens@, tok);
                        assert(scan_at(rest_b, line_b, col_b) == with_token(
                            plain(k, line_b, col_b),
                            scan_at(rest_b.skip(1), line_b, (col_b + 1) as nat),
                        ));
                    }
                    self.tokens.push(tok);
                    proof {
                        assert(toks0 + target.tokens =~= token_views(self.tokens@) + scan_at(
                            self.scanner@.rest,
                            self.scanner@.line,
                            self.scanner@.column,
                        ).tokens);
                    }
                },
                None => {
                    match compound_kind_lookup(c) {
                        Some(pair) => {
                            let matched = self.scanner.advance_match('=');
                            let k = if matched {
                                pair.1
                            } else {
                                pair.0
                            };
                            let tok = Token::new(k, None, tl, tc);
                            proof {
                                lemma_token_views_push(self.tokens@, tok);
                                if matched {
                                    assert(scan_at(rest_b, line_b, col_b) == with_token(
                                        plain(k, line_b, col_b),
                                        scan_at(rest_b.skip(2), line_b, (col_b + 2) as nat),
                                    ));
                                } else {
                                    assert(scan_at(rest_b, line_b, col_b) == with_token(
                                        plain(k, line_b, col_b),
                                        scan_at(rest_b.skip(1), line_b, (col_b + 1) as nat),
                                    ));
                                }
                            }
                            self.tokens.push(tok);
                            proof {
                                assert(toks0 + target.tokens =~= token_views(self.tokens@)
                                    + scan_at(
                                    self.scanner@.rest,
                                    self.scanner@.line,
                                    self.scanner@.column,
                                ).tokens);
                            }
                        },
                        None => {
                            if c == '/' {
                                if self.scanner.advance_match('/') {
                                    let ghost rest2 = self.scanner@.rest;
                                    self.scanner.skip_line();
                                    proof {
                                        crate::model::lemma_run_until(rest_b.skip(2), '\n');
                                        let k = 2 + run_until(rest_b.skip(2), '\n');
                                        assert(rest2 == rest_b.skip(2));
                                        assert(self.scanner@.rest =~= rest_b.skip(k as int));
                                        assert(scan_at(rest_b, line_b, col_b) == scan_at(
                                            rest_b.skip(k as int),
                                            line_b,
                                            (col_b + k) as nat,
                                        ));
                                    }
                                } else {
                                    let tok = Token::new(TokenType::Slash, None, tl, tc);
                                    proof {
                                        lemma_token_views_push(self.tokens@, tok);
                                        assert(scan_at(rest_b, line_b, col_b) == with_token(
                                            plain(TokenType::Slash, line_b, col_b),
                                            scan_at(rest_b.skip(1), line_b, (col_b + 1) as nat),
                                        ));
                                    }
                                    self.tokens.push(tok);
                                    proof {
                                        assert(toks0 + target.tokens =~= token_views(self.tokens@)
                                            + scan_at(
                                            self.scanner@.rest,
                                            self.scanner@.line,
                                            self.scanner@.column,
                                        ).tokens);
                                    }
                                }
                            } else if c == ' ' || c == '\r' || c == '\t' {
                                self.scanner.next();
                            } else if c == '\n' {
                                self.scanner.next_line();
                            } else if c == '"' {
                                match self.scanner.string() {
                                    Some(text) => {
                                        let tok = Token::new(
                                            TokenType::Str,
                                            Some(Literal::Str(text)),
                                            tl,
                                            tc,
                                        );
                                        proof {
                                            let b = run_until(rest_b.skip(1), '"');
                                            let next_pos = advance_pos(
                                                rest_b.take(2 + b as int),
                                                line_b,
                                                col_b,
                                            );
                                            lemma_token_views_push(self.tokens@, tok);
                                            assert(scan_at(rest_b, line_b, col_b) == with_token(
                                                tok@,
                                                scan_at(
                                                    rest_b.skip(2 + b as int),
                                                    next_pos.0,
                                                    next_pos.1,
                                                ),
                                            ));
                                        }
                                        self.tokens.push(tok);
                                        proof {
                                            assert(toks0 + target.tokens =~= token_views(
                                                self.tokens@,
                                            ) + scan_at(
                                                self.scanner@.rest,
                                                self.scanner@.line,
                                                self.scanner@.column,
                                            ).tokens);
                                        }
                                    },
                                    None => {
                                        let err = ParserError::new(
                                            String::new(),
                                            String::from_str("Unterminated string"),
                                            tl,
                                            tc,
                                        );
                                        proof {
                                            lemma_diag_views_push(self.errors@, err);
                                            assert(self.scanner@.rest =~= rest_b.skip(
                                                rest_b.len() as int,
                                            ));
                                            assert(scan_at(rest_b, line_b, col_b) == with_diag(
                                                err@,
                                                scan_at(
                                                    rest_b.skip(rest_b.len() as int),
                                                    self.scanner@.line,
                                                    self.scanner@.column,
                                                ),
                                            ));
                                        }
                                        self.errors.push(err);
                                        proof {
                                            assert(diags0 + target.diags =~= diag_views(
                                                self.errors@,
                                            ) + scan_at(
                                                self.scanner@.rest,
                                                self.scanner@.line,
                                                self.scanner@.column,
                                            ).diags);
                                        }
                                    },
                                }
                            } else if char_is_digit(c) {
                                let lex = self.scanner.number();
                                let tok = Token::new(
                                    TokenType::Number,
                                    Some(Literal::Number(lex)),
                                    tl,
                                    tc,
                                );
                                proof {
                                    lemma_number_len(rest_b);
                                    let k = number_len(rest_b);
                                    lemma_token_views_push(self.tokens@, tok);
                                    assert(scan_at(rest_b, line_b, col_b) == with_token(
                                        tok@,
                                        scan_at(rest_b.skip(k as int), line_b, (col_b + k) as nat),
                                    ));
                                }
                                self.tokens.push(tok);
                                proof {
                                    assert(toks0 + target.tokens =~= token_views(self.tokens@)
                                        + scan_at(
                                        self.scanner@.rest,
                                        self.scanner@.line,
                                        self.scanner@.column,
                                    ).tokens);
                                }
                            } else if char_is_ident_start(c) {
                                let w = self.scanner.identifier();
                                let kw = keyword_lookup(w.as_str());
                                match kw {
                                    Some(k) => {
                                        let tok = Token::new(k, None, tl, tc);
                                        proof {
                                            crate::model::lemma_ident_run_len(rest_b);
                                            let kl = ident_run_len(rest_b);
                                            lemma_token_views_push(self.tokens@, tok);
                                            assert(scan_at(rest_b, line_b, col_b) == with_token(
                                                plain(k, line_b, col_b),
                                                scan_at(
                                                    rest_b.skip(kl as int),
                                                    line_b,
                                                    (col_b + kl) as nat,
                                                ),
                                            ));
                                        }
                                        self.tokens.push(tok);
                                        proof {
                                            assert(toks0 + target.tokens =~= token_views(
                                                self.tokens@,
                                            ) + scan_at(
                                                self.scanner@.rest,
                                                self.scanner@.line,
                                                self.scanner@.column,
                                            ).tokens);
                                        }
                                    },
                                    None => {
                                        let tok = Token::new(
                                            TokenType::Identifier,
                                            Some(Literal::Identifier(w)),
                                            tl,
                                            tc,
                                        );
                                        proof {
                                            crate::model::lemma_ident_run_len(rest_b);
                                            let kl = ident_run_len(rest_b);
                                            lemma_token_views_push(self.tokens@, tok);
                                            assert(scan_at(rest_b, line_b, col_b) == with_token(
                                                tok@,
                                                scan_at(
                                                    rest_b.skip(kl as int),
                                                    line_b,
                                                    (col_b + kl) as nat,
                                                ),
                                            ));
                                        }
                                        self.tokens.push(tok);
                                        proof {
                                            assert(toks0 + target.tokens =~= token_views(
                                                self.tokens@,
                                            ) + scan_at(
                                                self.scanner@.rest,
                                                self.scanner@.line,
                                                self.scanner@.column,
                                            ).tokens);
                                        }
                                    },
                                }
                            } else {
                                self.scanner.next();
                                let err = ParserError::new(
                                    String::new(),
                                    String::from_str("Unexpected character"),
                                    tl,
                                    tc,
                                );
                                proof {
                                    lemma_diag_views_push(self.errors@, err);
                                    assert(scan_at(rest_b, line_b, col_b) == with_diag(
                                        err@,
                                        scan_at(rest_b.skip(1), line_b, (col_b + 1) as nat),
                                    ));
                                }
                                self.errors.push(err);
                                proof {
                                    assert(diags0 + target.diags =~= diag_views(self.errors@)
                                        + scan_at(
                                        self.scanner@.rest,
                                        self.scanner@.line,
                                        self.scanner@.column,
                                    ).diags);
                                }
                            }
                        },
                    }
                },
            }
        }
        let eof_line = self.scanner.line;
        let eof_col = self.scanner.column;
        let tok = Token::new(TokenType::Eof, None, eof_line, eof_col);
        proof {
            lemma_token_views_push(self.tokens@, tok);
            assert(scan_at(self.scanner@.rest, self.scanner@.line, self.scanner@.column).tokens
                =~= seq![plain(TokenType::Eof, self.scanner@.line, self.scanner@.column)]);
        }
        self.tokens.push(tok);
        proof {
            assert(token_views(self.tokens@) =~= toks0 + target.tokens);
            assert(diag_views(self.errors@) =~= diags0 + target.diags);
        }
    }
}

} // verus!
