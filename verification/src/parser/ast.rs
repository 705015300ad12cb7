//! The program representation the parser produces: an ordered list of
//! statements plus an ordered list of recoverable parse errors.

use vstd::prelude::*;

use crate::parser::error::{ParseError, SpecErr};
use crate::tokens::{SpecTok, Token};

verus! {

/// A value expression. Expression parsing is a planned extension; today
/// the only inhabitant is a placeholder.
#[derive(Debug)]
pub enum Expression {
    Dummy,
}

/// An identifier: its name and the token it came from.
#[derive(Debug)]
pub struct Identifier {
    pub token: Token,
    pub value: String,
}

/// Mathematical model of an identifier.
pub ghost struct SpecIdent {
    pub token: SpecTok,
    pub value: Seq<char>,
}

impl View for Identifier {
    type V = SpecIdent;

    open spec fn view(&self) -> SpecIdent {
        SpecIdent { token: self.token@, value: self.value@ }
    }
}

/// A top-level syntactic unit; today only variable bindings exist.
#[derive(Debug)]
pub enum Statement {
    LetStatement { token: Token, identifier: Identifier, value: Expression },
}

/// Mathematical model of a statement: the originating `let` token and the
/// target identifier (the placeholder value carries no information).
pub ghost struct SpecStmt {
    pub token: SpecTok,
    pub identifier: SpecIdent,
}

impl View for Statement {
    type V = SpecStmt;

    open spec fn view(&self) -> SpecStmt {
        match self {
            Statement::LetStatement { token, identifier, value } => SpecStmt {
                token: token@,
                identifier: identifier@,
            },
        }
    }
}

/// An ordered sequence of statements plus an ordered sequence of parse
/// errors; a program with errors still exposes the statements that parsed.
#[derive(Debug)]
pub struct Program {
    pub statements: Vec<Statement>,
    pub errors: Vec<ParseError>,
}

/// Mathematical model of a program.
pub ghost struct SpecProg {
    pub statements: Seq<SpecStmt>,
    pub errors: Seq<SpecErr>,
}

impl View for Program {
    type V = SpecProg;

    open spec fn view(&self) -> SpecProg {
        SpecProg {
            statements: Seq::new(self.statements@.len(), |i: int| self.statements@[i]@),
            errors: Seq::new(self.errors@.len(), |i: int| self.errors@[i]@),
        }
    }
}

impl Default for Program {
    /// An empty program: no statements and no errors.
    fn default() -> (p: Program)
        ensures
            p@.statements == Seq::<SpecStmt>::empty(),
            p@.errors == Seq::<SpecErr>::empty(),
    {
        let p = Program { statements: Vec::new(), errors: Vec::new() };
        proof {
            assert(p@.statements =~= Seq::<SpecStmt>::empty());
            assert(p@.errors =~= Seq::<SpecErr>::empty());
        }
        p
    }
}

} // verus!
