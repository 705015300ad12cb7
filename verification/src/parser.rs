//! The parser: consumes the tokenizer's output with exactly one token of
//! lookahead, never backtracking, and always terminates, producing a
//! `Program`.
//!
//! The parser is specified against `spec_parse`, a mathematical parse of
//! the token sequence: statements are collected in source order, and each
//! statement-level failure is recorded as an error, after which the parser
//! resynchronizes by discarding tokens up to and including the next `;`
//! (stopping early at `let` or end-of-input).

pub mod ast;
pub mod error;

use vstd::prelude::*;

use crate::lexer::{spec_tokens, Lexer};
use crate::parser::ast::{Expression, Identifier, Program, SpecIdent, SpecStmt, Statement};
use crate::parser::error::{ParseError, SpecErr};
use crate::tokens::{kind_name, spec_kind_name, SpecTok, Token, TokenLoc, TokenType};

verus! {

/// The error reported when the token sequence ends mid-statement; it has
/// no token to blame, so it carries no location.
pub open spec fn eoi_err() -> SpecErr {
    SpecErr { msg: "Unexpected end of input"@, loc: None }
}

/// The message reported for a statement that starts with the wrong token.
pub open spec fn unexpected_msg(k: TokenType) -> Seq<char> {
    "unexpected token: "@ + spec_kind_name(k)
}

/// The message reported when one category was required and another found.
pub open spec fn expected_msg(exp: TokenType, act: TokenType) -> Seq<char> {
    "expected a '"@ + spec_kind_name(exp) + "' token but got '"@ + spec_kind_name(act) + "'"@
}

fn eoi_error() -> (e: ParseError)
    ensures
        e@ == eoi_err(),
{
    ParseError { message: "Unexpected end of input".to_owned(), loc: None }
}

fn unexpected_error(k: TokenType, loc: TokenLoc) -> (e: ParseError)
    ensures
        e@ == (SpecErr { msg: unexpected_msg(k), loc: Some((loc.line as int, loc.col as int)) }),
{
    let mut m = String::new();
    m.append("unexpected token: ");
    m.append(kind_name(k));
    proof {
        assert(m@ =~= unexpected_msg(k));
    }
    ParseError { message: m, loc: Some(loc) }
}

fn expected_error(exp: TokenType, act: TokenType, loc: TokenLoc) -> (e: ParseError)
    ensures
        e@ == (SpecErr {
            msg: expected_msg(exp, act),
            loc: Some((loc.line as int, loc.col as int)),
        }),
{
    let mut m = String::new();
    m.append("expected a '");
    m.append(kind_name(exp));
    m.append("' token but got '");
    m.append(kind_name(act));
    m.append("'");
    proof {
        assert(m@ =~= expected_msg(exp, act));
    }
    ParseError { message: m, loc: Some(loc) }
}

/// Requiring the next token to be of the given category: end-of-sequence
/// and a mismatch are errors, and a mismatched token is still consumed.
pub open spec fn spec_expect(toks: Seq<SpecTok>, typ: TokenType) -> (
    Result<SpecTok, SpecErr>,
    Seq<SpecTok>,
) {
    if toks.len() == 0 {
        (Err(eoi_err()), toks)
    } else if toks[0].typ != typ {
        (
            Err(
                SpecErr {
                    msg: expected_msg(typ, toks[0].typ),
                    loc: Some((toks[0].line, toks[0].col)),
                },
            ),
            toks.drop_first(),
        )
    } else {
        (Ok(toks[0]), toks.drop_first())
    }
}

/// Consuming tokens up to and including the next `;`; running out of
/// tokens first is the end-of-input error.
pub open spec fn spec_skip_semi(toks: Seq<SpecTok>) -> (Result<SpecTok, SpecErr>, Seq<SpecTok>)
    decreases toks.len(),
{
    if toks.len() == 0 {
        (Err(eoi_err()), toks)
    } else if toks[0].typ == TokenType::SemiColon {
        (Ok(toks[0]), toks.drop_first())
    } else {
        spec_skip_semi(toks.drop_first())
    }
}

/// A `let` statement after its `let` token: an identifier, then `=`, then
/// anything up to and including the next `;` (the value is a placeholder
/// until expression parsing exists).
pub open spec fn spec_parse_let(lt: SpecTok, toks: Seq<SpecTok>) -> (
    Result<SpecStmt, SpecErr>,
    Seq<SpecTok>,
) {
    match spec_expect(toks, TokenType::Identifier) {
        (Err(e), toks1) => (Err(e), toks1),
        (Ok(id), toks1) => match spec_expect(toks1, TokenType::Assign) {
            (Err(e), toks2) => (Err(e), toks2),
            (Ok(_assign), toks2) => match spec_skip_semi(toks2) {
                (Err(e), toks3) => (Err(e), toks3),
                (Ok(_semi), toks3) => (
                    Ok(
                        SpecStmt {
                            token: lt,
                            identifier: SpecIdent { token: id, value: id.lit },
                        },
                    ),
                    toks3,
                ),
            },
        },
    }
}

/// One statement: only `let` can begin one; any other leading token is an
/// error carrying that token's location.
pub open spec fn spec_parse_stmt(toks: Seq<SpecTok>) -> (Result<SpecStmt, SpecErr>, Seq<SpecTok>) {
    if toks.len() == 0 {
        (Err(eoi_err()), toks)
    } else {
        let t = toks[0];
        let rest = toks.drop_first();
        if t.typ == TokenType::Let {
            spec_parse_let(t, rest)
        } else {
            (Err(SpecErr { msg: unexpected_msg(t.typ), loc: Some((t.line, t.col)) }), rest)
        }
    }
}

/// Resynchronization after a failed statement: discard tokens up to and
/// including the next `;`, stopping early at a `let` or at end-of-input.
pub open spec fn spec_resync(toks: Seq<SpecTok>) -> Seq<SpecTok>
    decreases toks.len(),
{
    if toks.len() == 0 {
        toks
    } else if toks[0].typ == TokenType::EOF || toks[0].typ == TokenType::Let {
        toks
    } else if toks[0].typ == TokenType::SemiColon {
        toks.drop_first()
    } else {
        spec_resync(toks.drop_first())
    }
}

proof fn lemma_skip_semi_len(toks: Seq<SpecTok>)
    ensures
        spec_skip_semi(toks).1.len() <= toks.len(),
        toks.len() > 0 ==> spec_skip_semi(toks).1.len() < toks.len(),
    decreases toks.len(),
{
    if toks.len() > 0 && toks[0].typ != TokenType::SemiColon {
        lemma_skip_semi_len(toks.drop_first());
    }
}

pub proof fn lemma_parse_stmt_consumes(toks: Seq<SpecTok>)
    ensures
        spec_parse_stmt(toks).1.len() <= toks.len(),
        toks.len() > 0 ==> spec_parse_stmt(toks).1.len() < toks.len(),
{
    if toks.len() > 0 {
        let rest = toks.drop_first();
        if toks[0].typ == TokenType::Let {
            match spec_expect(rest, TokenType::Identifier) {
                (Err(e), toks1) => {},
                (Ok(id), toks1) => match spec_expect(toks1, TokenType::Assign) {
                    (Err(e), toks2) => {},
                    (Ok(a), toks2) => {
                        lemma_skip_semi_len(toks2);
                    },
                },
            }
        }
    }
}

pub proof fn lemma_resync_len(toks: Seq<SpecTok>)
    ensures
        spec_resync(toks).len() <= toks.len(),
    decreases toks.len(),
{
    if toks.len() > 0 && toks[0].typ != TokenType::EOF && toks[0].typ != TokenType::Let
        && toks[0].typ != TokenType::SemiColon {
        lemma_resync_len(toks.drop_first());
    }
}

/// The mathematical parse of a token sequence: statements in source order
/// and errors in source order, stopping at the end-of-input token.
pub open spec fn spec_parse(toks: Seq<SpecTok>) -> (Seq<SpecStmt>, Seq<SpecErr>)
    decreases toks.len(),
{
    if toks.len() == 0 || toks[0].typ == TokenType::EOF {
        (Seq::empty(), Seq::empty())
    } else {
        proof {
            lemma_parse_stmt_consumes(toks);
            lemma_resync_len(spec_parse_stmt(toks).1);
        }
        match spec_parse_stmt(toks) {
            (Ok(st), rest) => {
                let (ss, es) = spec_parse(rest);
                (seq![st] + ss, es)
            },
            (Err(e), rest) => {
                let (ss, es) = spec_parse(spec_resync(rest));
                (ss, seq![e] + es)
            },
        }
    }
}

/// The parser: a tokenizer plus an explicit single-token lookahead buffer
/// (look, decide, advance).
pub struct Parser<'a> {
    lexer: Lexer<'a>,
    buf: Option<Token>,
}

impl<'a> View for Parser<'a> {
    type V = Seq<SpecTok>;

    closed spec fn view(&self) -> Seq<SpecTok> {
        match self.buf {
            Some(t) => seq![t@] + spec_tokens(self.lexer@),
            None => spec_tokens(self.lexer@),
        }
    }
}

impl<'a> Parser<'a> {
    /// The parser's tokenizer is well-formed; the parser's view is then
    /// the sequence of tokens it has not yet consumed.
    pub closed spec fn wf(self) -> bool {
        self.lexer.wf()
    }

    /// A parser over the given tokenizer's output.
    pub fn new(l: Lexer<'a>) -> (p: Parser<'a>)
        requires
            l.wf(),
        ensures
            p.wf(),
            p@ == spec_tokens(l@),
    {
        Parser { lexer: l, buf: None }
    }

    /// Consume and return the next token; after the whole sequence is
    /// drained this is the end-of-input error.
    fn next(&mut self) -> (r: Result<Token, ParseError>)
        requires
            old(self).wf(),
        ensures
            final(self).wf(),
            old(self)@.len() > 0 ==> (r matches Ok(t) && t@ == old(self)@[0] && final(self)@
                == old(self)@.drop_first()),
            old(self)@.len() == 0 ==> (r matches Err(e) && e@ == eoi_err() && final(self)@
                == old(self)@),
    {
        let b = self.buf.take();
        match b {
            Some(t) => {
                proof {
                    assert((seq![t@] + spec_tokens(self.lexer@)).drop_first() =~= spec_tokens(
                        self.lexer@,
                    ));
                }
                Ok(t)
            },
            None => match self.lexer.next() {
                Some(t) => {
                    proof {
                        assert((seq![t@] + spec_tokens(self.lexer@)).drop_first() =~= spec_tokens(
                            self.lexer@,
                        ));
                    }
                    Ok(t)
                },
                None => Err(eoi_error()),
            },
        }
    }

    /// Look at the next token without consuming it.
    fn peek(&mut self) -> (r: Result<&Token, ParseError>)
        requires
            old(self).wf(),
        ensures
            final(self).wf(),
            final(self)@ == old(self)@,
            old(self)@.len() > 0 ==> (r matches Ok(t) && t@ == old(self)@[0]),
            old(self)@.len() == 0 ==> (r matches Err(e) && e@ == eoi_err()),
    {
        if self.buf.is_none() {
            self.buf = self.lexer.next();
        }
        match &self.buf {
            Some(t) => Ok(t),
            None => Err(eoi_error()),
        }
    }

    /// Look at the next token and require it to be of the given category,
    /// without consuming it either way.
    fn expect_peek(&mut self, typ: TokenType) -> (r: Result<&Token, ParseError>)
        requires
            old(self).wf(),
        ensures
            final(self).wf(),
            final(self)@ == old(self)@,
            old(self)@.len() == 0 ==> (r matches Err(e) && e@ == eoi_err()),
            old(self)@.len() > 0 && old(self)@[0].typ != typ ==> (r matches Err(e) && e@
                == (SpecErr {
                msg: expected_msg(typ, old(self)@[0].typ),
                loc: Some((old(self)@[0].line, old(self)@[0].col)),
            })),
            old(self)@.len() > 0 && old(self)@[0].typ == typ ==> (r matches Ok(t) && t@
                == old(self)@[0]),
    {
        let tok = match self.peek() {
            Ok(t) => t,
            Err(e) => {
                return Err(e);
            },
        };
        if tok.typ != typ {
            Err(expected_error(typ, tok.typ, tok.loc))
        } else {
            Ok(tok)
        }
    }

    /// Consume the next token and require it to be of the given category.
    fn expect_next(&mut self, typ: TokenType) -> (r: Result<Token, ParseError>)
        requires
            old(self).wf(),
        ensures
            final(self).wf(),
            ({
                let (sr, rest) = spec_expect(old(self)@, typ);
                final(self)@ == rest && (match r {
                    Ok(t) => sr matches Ok(st) && t@ == st,
                    Err(e) => sr matches Err(se) && e@ == se,
                })
            }),
    {
        let tok = match self.next() {
            Ok(t) => t,
            Err(e) => {
                return Err(e);
            },
        };
        if tok.typ != typ {
            Err(expected_error(typ, tok.typ, tok.loc))
        } else {
            Ok(tok)
        }
    }

    /// Parse one statement, starting from its first token.
    fn parse_statement(&mut self) -> (r: Result<Statement, ParseError>)
        requires
            old(self).wf(),
        ensures
            final(self).wf(),
            ({
                let (sr, rest) = spec_parse_stmt(old(self)@);
                final(self)@ == rest && (match r {
                    Ok(st) => sr matches Ok(sst) && st@ == sst,
                    Err(e) => sr matches Err(se) && e@ == se,
                })
            }),
    {
        let tok = match self.next() {
            Ok(t) => t,
            Err(e) => {
                return Err(e);
            },
        };
        match tok.typ {
            TokenType::Let => self.parse_let_statement(tok),
            _ => Err(unexpected_error(tok.typ, tok.loc)),
        }
    }

    /// Parse the rest of a `let` statement: identifier, `=`, then consume
    /// up to and including the `;`, leaving a placeholder value.
    #[verifier::loop_isolation(false)]
    fn parse_let_statement(&mut self, start: Token) -> (r: Result<Statement, ParseError>)
        requires
            old(self).wf(),
        ensures
            final(self).wf(),
            ({
                let (sr, rest) = spec_parse_let(start@, old(self)@);
                final(self)@ == rest && (match r {
                    Ok(st) => sr matches Ok(sst) && st@ == sst,
                    Err(e) => sr matches Err(se) && e@ == se,
                })
            }),
    {
        let id = match self.expect_next(TokenType::Identifier) {
            Ok(t) => t,
            Err(e) => {
                return Err(e);
            },
        };
        match self.expect_next(TokenType::Assign) {
            Ok(_) => {},
            Err(e) => {
                return Err(e);
            },
        };
        let ghost toks2 = self@;
        let mut t = match self.next() {
            Ok(t) => t,
            Err(e) => {
                return Err(e);
            },
        };
        proof {
            assert(seq![t@] + self@ =~= toks2);
        }
        while t.typ != TokenType::SemiColon
            invariant
                self.wf(),
                spec_skip_semi(seq![t@] + self@) == spec_skip_semi(toks2),
            decreases self@.len(),
        {
            let ghost v = self@;
            let ghost told = t@;
            t = match self.next() {
                Ok(x) => x,
                Err(e) => {
                    proof {
                        assert((seq![told] + v).drop_first() =~= v);
                        assert(spec_skip_semi(v) == (Err::<SpecTok, SpecErr>(eoi_err()), v));
                    }
                    return Err(e);
                },
            };
            proof {
                assert((seq![told] + v).drop_first() =~= v);
                assert(seq![t@] + v.drop_first() =~= v);
            }
        }
        proof {
            assert((seq![t@] + self@).drop_first() =~= self@);
        }
        Ok(
            Statement::LetStatement {
                token: start,
                identifier: Identifier { value: id.literal.clone(), token: id },
                value: Expression::Dummy,
            },
        )
    }

    /// Discard tokens up to and including the next `;`, stopping early at
    /// a `let` or at end-of-input, so that parsing can resume at a
    /// statement boundary.
    fn synchronize(&mut self)
        requires
            old(self).wf(),
        ensures
            final(self).wf(),
            final(self)@ == spec_resync(old(self)@),
    {
        let mut going = true;
        while going
            invariant
                self.wf(),
                going ==> spec_resync(old(self)@) == spec_resync(self@),
                !going ==> spec_resync(old(self)@) == self@,
            decreases self@.len() + (if going { 1int } else { 0int }),
        {
            let mut stop_here = false;
            let mut semi = false;
            match self.peek() {
                Ok(t) => {
                    if t.typ == TokenType::EOF || t.typ == TokenType::Let {
                        stop_here = true;
                    } else if t.typ == TokenType::SemiColon {
                        semi = true;
                    }
                },
                Err(_) => {
                    stop_here = true;
                },
            }
            if stop_here {
                going = false;
            } else if semi {
                let _ = self.next();
                going = false;
            } else {
                let _ = self.next();
            }
        }
    }

    /// Drain the whole token sequence into a program: statements in source
    /// order, errors in source order, resynchronizing after each failed
    /// statement.
    pub fn parse(&mut self) -> (program: Program)
        requires
            old(self).wf(),
        ensures
            final(self).wf(),
            program@.statements == spec_parse(old(self)@).0,
            program@.errors == spec_parse(old(self)@).1,
            final(self)@.len() == 0 || final(self)@[0].typ == TokenType::EOF,
    {
        let mut program = Program::default();
        let mut stop = false;
        while !stop
            invariant
                self.wf(),
                stop ==> (self@.len() == 0 || self@[0].typ == TokenType::EOF),
                spec_parse(old(self)@).0 == program@.statements + spec_parse(self@).0,
                spec_parse(old(self)@).1 == program@.errors + spec_parse(self@).1,
            decreases self@.len() + (if stop { 0int } else { 1int }),
        {
            let is_end = match self.peek() {
                Ok(t) => t.typ == TokenType::EOF,
                Err(_) => true,
            };
            if is_end {
                stop = true;
            } else {
                proof {
                    lemma_parse_stmt_consumes(self@);
                    lemma_resync_len(spec_parse_stmt(self@).1);
                }
                let ghost pre = self@;
                let ghost stmts0 = program@.statements;
                let ghost errs0 = program@.errors;
                match self.parse_statement() {
                    Ok(s) => {
                        program.statements.push(s);
                        proof {
                            assert(program@.statements =~= stmts0.push(s@));
                            assert(program@.errors =~= errs0);
                            assert(stmts0 + (seq![s@] + spec_parse(self@).0) =~= stmts0.push(s@)
                                + spec_parse(self@).0);
                        }
                    },
                    Err(e) => {
                        program.errors.push(e);
                        proof {
                            assert(program@.errors =~= errs0.push(e@));
                            assert(program@.statements =~= stmts0);
                        }
                        self.synchronize();
                        proof {
                            assert(errs0 + (seq![e@] + spec_parse(self@).1) =~= errs0.push(e@)
                                + spec_parse(self@).1);
                        }
                    },
                }
            }
        }
        proof {
            assert(program@.statements + Seq::<SpecStmt>::empty() =~= program@.statements);
            assert(program@.errors + Seq::<SpecErr>::empty() =~= program@.errors);
        }
        program
    }
}

} // verus!
