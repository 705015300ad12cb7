//! Parse errors: a human-readable message plus an optional source
//! location, absent only when the error arises at true end-of-input with
//! no token to blame.

use vstd::prelude::*;

use crate::tokens::TokenLoc;

verus! {

/// A recoverable description of a syntactic expectation violation.
#[derive(Debug)]
pub struct ParseError {
    pub message: String,
    pub loc: Option<TokenLoc>,
}

/// Mathematical model of a parse error.
pub ghost struct SpecErr {
    pub msg: Seq<char>,
    pub loc: Option<(int, int)>,
}

impl View for ParseError {
    type V = SpecErr;

    open spec fn view(&self) -> SpecErr {
        SpecErr {
            msg: self.message@,
            loc: match self.loc {
                Some(l) => Some((l.line as int, l.col as int)),
                None => None,
            },
        }
    }
}

} // verus!
