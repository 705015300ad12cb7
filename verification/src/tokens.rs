//! Tokens: the categories the tokenizer can produce, a token's source
//! location, and the keyword table.

use vstd::prelude::*;

verus! {

/// The closed set of categories a token can belong to.
#[derive(Debug, Copy, Clone, PartialEq, Eq, Structural)]
pub enum TokenType {
    Illegal,
    EOF,
    // Identifiers + literals
    Identifier,
    Int,
    Float,
    // Operators
    Assign,
    Plus,
    Subtract,
    Divide,
    Multiply,
    Greater,
    GreaterEqual,
    Less,
    LessEqual,
    Not,
    EqualEqual,
    NotEqual,
    // Delimiters
    Comma,
    SemiColon,
    // Brackets
    LParen,
    RParen,
    LBrace,
    RBrace,
    // Keywords
    Function,
    Let,
    True,
    False,
    If,
    Else,
    Return,
}

/// A 1-based line number and 0-based column offset into the source text.
#[derive(Debug, Copy, Clone, PartialEq, Eq, Structural)]
pub struct TokenLoc {
    pub line: usize,
    pub col: usize,
}

/// A token: its category, the exact substring of source text that produced
/// it, and the location of its first character.
#[derive(Debug, PartialEq, Eq)]
pub struct Token {
    pub typ: TokenType,
    pub literal: String,
    pub loc: TokenLoc,
}

/// Mathematical model of a token: category, literal as a character
/// sequence, and the location of its first character.
pub ghost struct SpecTok {
    pub typ: TokenType,
    pub lit: Seq<char>,
    pub line: int,
    pub col: int,
}

impl View for Token {
    type V = SpecTok;

    open spec fn view(&self) -> SpecTok {
        SpecTok {
            typ: self.typ,
            lit: self.literal@,
            line: self.loc.line as int,
            col: self.loc.col as int,
        }
    }
}

/// The fixed keyword table: which identifier spellings are keywords, and
/// the category each one maps to.
pub open spec fn keyword_kind(s: Seq<char>) -> Option<TokenType> {
    if s == "let"@ {
        Some(TokenType::Let)
    } else if s == "fn"@ {
        Some(TokenType::Function)
    } else if s == "if"@ {
        Some(TokenType::If)
    } else if s == "else"@ {
        Some(TokenType::Else)
    } else if s == "return"@ {
        Some(TokenType::Return)
    } else if s == "true"@ {
        Some(TokenType::True)
    } else if s == "false"@ {
        Some(TokenType::False)
    } else {
        None
    }
}

/// The spelling of a category, as a reader of error messages sees it.
pub open spec fn spec_kind_name(t: TokenType) -> Seq<char> {
    match t {
        TokenType::Illegal => "Illegal"@,
        TokenType::EOF => "EOF"@,
        TokenType::Identifier => "Identifier"@,
        TokenType::Int => "Int"@,
        TokenType::Float => "Float"@,
        TokenType::Assign => "Assign"@,
        TokenType::Plus => "Plus"@,
        TokenType::Subtract => "Subtract"@,
        TokenType::Divide => "Divide"@,
        TokenType::Multiply => "Multiply"@,
        TokenType::Greater => "Greater"@,
        TokenType::GreaterEqual => "GreaterEqual"@,
        TokenType::Less => "Less"@,
        TokenType::LessEqual => "LessEqual"@,
        TokenType::Not => "Not"@,
        TokenType::EqualEqual => "EqualEqual"@,
        TokenType::NotEqual => "NotEqual"@,
        TokenType::Comma => "Comma"@,
        TokenType::SemiColon => "SemiColon"@,
        TokenType::LParen => "LParen"@,
        TokenType::RParen => "RParen"@,
        TokenType::LBrace => "LBrace"@,
        TokenType::RBrace => "RBrace"@,
        TokenType::Function => "Function"@,
        TokenType::Let => "Let"@,
        TokenType::True => "True"@,
        TokenType::False => "False"@,
        TokenType::If => "If"@,
        TokenType::Else => "Else"@,
        TokenType::Return => "Return"@,
    }
}

/// The spelling of a category; matches `spec_kind_name`.
pub fn kind_name(t: TokenType) -> (r: &'static str)
    ensures
        r@ == spec_kind_name(t),
{
    match t {
        TokenType::Illegal => "Illegal",
        TokenType::EOF => "EOF",
        TokenType::Identifier => "Identifier",
        TokenType::Int => "Int",
        TokenType::Float => "Float",
        TokenType::Assign => "Assign",
        TokenType::Plus => "Plus",
        TokenType::Subtract => "Subtract",
        TokenType::Divide => "Divide",
        TokenType::Multiply => "Multiply",
        TokenType::Greater => "Greater",
        TokenType::GreaterEqual => "GreaterEqual",
        TokenType::Less => "Less",
        TokenType::LessEqual => "LessEqual",
        TokenType::Not => "Not",
        TokenType::EqualEqual => "EqualEqual",
        TokenType::NotEqual => "NotEqual",
        TokenType::Comma => "Comma",
        TokenType::SemiColon => "SemiColon",
        TokenType::LParen => "LParen",
        TokenType::RParen => "RParen",
        TokenType::LBrace => "LBrace",
        TokenType::RBrace => "RBrace",
        TokenType::Function => "Function",
        TokenType::Let => "Let",
        TokenType::True => "True",
        TokenType::False => "False",
        TokenType::If => "If",
        TokenType::Else => "Else",
        TokenType::Return => "Return",
    }
}

/// Character-by-character string equality, proved against the views.
fn str_eq(a: &str, b: &str) -> (r: bool)
    ensures
        r == (a@ == b@),
{
    let alen = a.unicode_len();
    let blen = b.unicode_len();
    if alen != blen {
        return false;
    }
    let mut i: usize = 0;
    while i < alen
        invariant
            alen == a@.len(),
            blen == b@.len(),
            alen == blen,
            i <= alen,
            forall|j: int| 0 <= j < i ==> a@[j] == b@[j],
        decreases alen - i,
    {
        if a.get_char(i) != b.get_char(i) {
            return false;
        }
        i = i + 1;
    }
    proof {
        assert(a@ =~= b@);
    }
    true
}

impl Token {
    /// Build a token from its category, literal and location.
    pub fn new(typ: TokenType, lit: &str, line: usize, col: usize) -> (t: Token)
        ensures
            t@ == (SpecTok { typ, lit: lit@, line: line as int, col: col as int }),
    {
        Token { typ, literal: lit.to_owned(), loc: TokenLoc { line, col } }
    }

    /// Check a spelling against the keyword table; a match yields the
    /// corresponding keyword token at the given location.
    pub fn from_keyword(s: &str, line: usize, col: usize) -> (r: Option<Token>)
        ensures
            match keyword_kind(s@) {
                Some(k) => r matches Some(t) && t@ == (SpecTok {
                    typ: k,
                    lit: s@,
                    line: line as int,
                    col: col as int,
                }),
                None => r is None,
            },
    {
        let typ = if str_eq(s, "let") {
            TokenType::Let
        } else if str_eq(s, "fn") {
            TokenType::Function
        } else if str_eq(s, "if") {
            TokenType::If
        } else if str_eq(s, "else") {
            TokenType::Else
        } else if str_eq(s, "return") {
            TokenType::Return
        } else if str_eq(s, "true") {
            TokenType::True
        } else if str_eq(s, "false") {
            TokenType::False
        } else {
            return None;
        };
        Some(Token::new(typ, s, line, col))
    }
}

} // verus!
