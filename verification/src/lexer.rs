//! The tokenizer: scans source text into a finite, forward-only sequence of
//! positioned tokens terminated by exactly one end-of-input token.
//!
//! The scanner is specified against a mathematical model: `LexState`
//! describes the cursor (how many characters were read, and the current
//! line and column), `sscan` says which token the next scan produces and
//! how the cursor moves, and `spec_tokens` gives the whole token sequence.

use vstd::prelude::*;

use crate::tokens::{keyword_kind, SpecTok, Token, TokenType};

verus! {

/// ASCII whitespace: space, horizontal tab, line feed, form feed, carriage
/// return.
pub open spec fn is_ws(c: char) -> bool {
    c == ' ' || c == '\t' || c == '\n' || c == '\x0C' || c == '\r'
}

/// ASCII decimal digit.
pub open spec fn is_digit(c: char) -> bool {
    48 <= c as u32 && c as u32 <= 57
}

/// Whether a character counts as alphanumeric under Unicode's letter and
/// number categories; decided by the standard library.
pub uninterp spec fn alphanumeric(c: char) -> bool;

/// A character that may appear in an identifier.
pub open spec fn legal_ident(c: char) -> bool {
    alphanumeric(c) || c == '_'
}

/// Relies on char::is_ascii_whitespace: true exactly for space, horizontal
/// tab, line feed, form feed and carriage return.
pub assume_specification[ char::is_ascii_whitespace ](c: &char) -> (r: bool)
    ensures
        r == is_ws(*c),
;

/// Relies on char::is_ascii_digit: true exactly for the characters
/// '0' through '9'.
pub assume_specification[ char::is_ascii_digit ](c: &char) -> (r: bool)
    ensures
        r == is_digit(*c),
;

/// Relies on char::is_alphanumeric: membership in Unicode's letter and
/// number categories, a function of the character alone.
pub assume_specification[ char::is_alphanumeric ](c: char) -> (r: bool)
    ensures
        r == alphanumeric(c),
;

/// A character that may appear in an identifier.
pub fn legal_identifier_char(c: char) -> (r: bool)
    ensures
        r == legal_ident(c),
{
    c.is_alphanumeric() || c == '_'
}

/// Model of the tokenizer's cursor: the source text, how many characters
/// have been read (the scanner reads one character ahead, and reads one
/// sentinel past the end), the line and column reached, and whether the
/// end-of-input token has been produced.
pub ghost struct LexState {
    pub src: Seq<char>,
    pub reads: int,
    pub line: int,
    pub col: int,
    pub complete: bool,
}

/// The character at index `i`, with the NUL sentinel standing for
/// "no character" outside the text.
pub open spec fn char_at(src: Seq<char>, i: int) -> char {
    if 0 <= i < src.len() {
        src[i]
    } else {
        '\0'
    }
}

/// The current character: the one most recently read.
pub open spec fn cur(s: LexState) -> char {
    char_at(s.src, s.reads - 1)
}

/// The character one past the current one.
pub open spec fn ahead(s: LexState) -> char {
    char_at(s.src, s.reads)
}

/// Reading one character: the column advances, except that a newline
/// resets it and moves to the next line.
pub open spec fn sread(s: LexState) -> LexState {
    let c = char_at(s.src, s.reads);
    LexState {
        reads: s.reads + 1,
        line: if c == '\n' { s.line + 1 } else { s.line },
        col: if c == '\n' { 0 } else { s.col + 1 },
        ..s
    }
}

/// The line reached after reading `n` characters; lines are 1-based.
pub open spec fn spec_line(src: Seq<char>, n: int) -> int
    decreases n,
{
    if n <= 0 {
        1
    } else if char_at(src, n - 1) == '\n' {
        spec_line(src, n - 1) + 1
    } else {
        spec_line(src, n - 1)
    }
}

/// The column reached after reading `n` characters; columns are 0-based,
/// and `spec_line`/`spec_col` at `n` give the position of the character at
/// index `n` itself.
pub open spec fn spec_col(src: Seq<char>, n: int) -> int
    decreases n,
{
    if n <= 0 {
        0
    } else if char_at(src, n - 1) == '\n' {
        0
    } else {
        spec_col(src, n - 1) + 1
    }
}

/// A well-formed cursor: at least one character has been read, at most one
/// sentinel past the end, the line and column agree with the characters
/// read, and once complete the current character is the sentinel.
pub open spec fn lex_ok(s: LexState) -> bool {
    &&& 1 <= s.reads <= s.src.len() + 1
    &&& s.src.len() < usize::MAX
    &&& s.line == spec_line(s.src, s.reads)
    &&& s.col == spec_col(s.src, s.reads)
    &&& (s.complete ==> cur(s) == '\0')
}

proof fn lemma_loc_bounds(src: Seq<char>, n: int)
    requires
        0 <= n,
    ensures
        1 <= spec_line(src, n),
        0 <= spec_col(src, n),
        spec_line(src, n) + spec_col(src, n) <= n + 1,
    decreases n,
{
    if n > 0 {
        lemma_loc_bounds(src, n - 1);
    }
}

/// One read step keeps the line and column in agreement with the
/// characters read.
proof fn lemma_sread_loc(s: LexState)
    requires
        0 <= s.reads,
        s.line == spec_line(s.src, s.reads),
        s.col == spec_col(s.src, s.reads),
    ensures
        sread(s).line == spec_line(s.src, s.reads + 1),
        sread(s).col == spec_col(s.src, s.reads + 1),
{
}

proof fn lemma_col_zero(src: Seq<char>, n: int)
    requires
        1 <= n,
        spec_col(src, n) == 0,
    ensures
        char_at(src, n - 1) == '\n',
{
    lemma_loc_bounds(src, n - 1);
}

/// Skipping whitespace before a token.
pub open spec fn spec_skip_ws(s: LexState) -> LexState
    decreases s.src.len() + 1 - s.reads,
{
    if is_ws(cur(s)) {
        spec_skip_ws(sread(s))
    } else {
        s
    }
}

/// Skipping to the end of the current line (for `//` comments); stops with
/// the newline, or the sentinel, as the current character.
pub open spec fn spec_skip_line(s: LexState) -> LexState
    decreases s.src.len() + 1 - s.reads,
{
    if cur(s) != '\n' && cur(s) != '\0' {
        spec_skip_line(sread(s))
    } else {
        s
    }
}

pub proof fn lemma_skip_line_props(s: LexState)
    ensures
        ({
            let s2 = spec_skip_line(s);
            &&& s2.src == s.src
            &&& s2.complete == s.complete
            &&& s2.reads >= s.reads
            &&& (s.reads <= s.src.len() + 1 ==> s2.reads <= s.src.len() + 1)
            &&& (cur(s) != '\n' && cur(s) != '\0' ==> s2.reads > s.reads)
            &&& (cur(s2) == '\n' || cur(s2) == '\0')
            &&& (s.line == spec_line(s.src, s.reads) && s.col == spec_col(s.src, s.reads)
                ==> s2.line == spec_line(s.src, s2.reads) && s2.col == spec_col(s.src, s2.reads))
            &&& forall|j: int| s.reads - 1 <= j < s2.reads - 1 ==> char_at(s.src, j) != '\n'
        }),
    decreases s.src.len() + 1 - s.reads,
{
    if cur(s) != '\n' && cur(s) != '\0' {
        lemma_skip_line_props(sread(s));
    }
}

proof fn lemma_skip_ws_props(s: LexState)
    ensures
        ({
            let s2 = spec_skip_ws(s);
            &&& s2.src == s.src
            &&& s2.complete == s.complete
            &&& s2.reads >= s.reads
            &&& (s.reads <= s.src.len() + 1 ==> s2.reads <= s.src.len() + 1)
            &&& !is_ws(cur(s2))
            &&& (s.line == spec_line(s.src, s.reads) && s.col == spec_col(s.src, s.reads)
                ==> s2.line == spec_line(s.src, s2.reads) && s2.col == spec_col(s.src, s2.reads))
        }),
    decreases s.src.len() + 1 - s.reads,
{
    if is_ws(cur(s)) {
        lemma_skip_ws_props(sread(s));
    }
}

/// Skipping everything that never becomes a token: whitespace and `//`
/// comments, in any succession.
pub open spec fn spec_skip(s: LexState) -> LexState
    decreases s.src.len() + 1 - s.reads,
{
    if is_ws(cur(s)) {
        spec_skip(sread(s))
    } else if cur(s) == '/' && ahead(s) == '/' {
        proof {
            lemma_skip_line_props(s);
        }
        spec_skip(spec_skip_line(s))
    } else {
        s
    }
}

proof fn lemma_skip_props(s: LexState)
    ensures
        ({
            let s2 = spec_skip(s);
            &&& s2.src == s.src
            &&& s2.complete == s.complete
            &&& s2.reads >= s.reads
            &&& (s.reads <= s.src.len() + 1 ==> s2.reads <= s.src.len() + 1)
            &&& !is_ws(cur(s2))
            &&& !(cur(s2) == '/' && ahead(s2) == '/')
            &&& (s.line == spec_line(s.src, s.reads) && s.col == spec_col(s.src, s.reads)
                ==> s2.line == spec_line(s.src, s2.reads) && s2.col == spec_col(s.src, s2.reads))
        }),
    decreases s.src.len() + 1 - s.reads,
{
    if is_ws(cur(s)) {
        lemma_skip_props(sread(s));
    } else if cur(s) == '/' && ahead(s) == '/' {
        lemma_skip_line_props(s);
        lemma_skip_props(spec_skip_line(s));
    }
}

/// Skipping whitespace first, then skipping everything skippable, is the
/// same as skipping everything skippable at once.
proof fn lemma_skip_absorbs_ws(s: LexState)
    ensures
        spec_skip(spec_skip_ws(s)) == spec_skip(s),
    decreases s.src.len() + 1 - s.reads,
{
    if is_ws(cur(s)) {
        lemma_skip_absorbs_ws(sread(s));
    }
}

/// Scanning a number: consume digits and at most one point; a second point
/// ends the scan at once with an illegal token whose literal includes the
/// offending point.
pub open spec fn snum(s: LexState, has_point: bool, lit: Seq<char>) -> (Seq<char>, TokenType, LexState)
    decreases s.src.len() + 1 - s.reads,
{
    let c = cur(s);
    if is_digit(c) || c == '.' {
        if c == '.' && has_point {
            (lit.push('.'), TokenType::Illegal, sread(s))
        } else {
            snum(sread(s), has_point || c == '.', lit.push(c))
        }
    } else {
        (lit, if has_point { TokenType::Float } else { TokenType::Int }, s)
    }
}

/// Scanning an identifier: consume while characters are alphanumeric
/// or '_'.
pub open spec fn sident(s: LexState, lit: Seq<char>) -> (Seq<char>, LexState)
    decreases s.src.len() + 1 - s.reads,
{
    let c = cur(s);
    if c != '\0' && legal_ident(c) {
        sident(sread(s), lit.push(c))
    } else {
        (lit, s)
    }
}

/// A token starting at the cursor position of `s1`: since the cursor has
/// already read the token's first character, the token's column is one
/// before the cursor's.
pub open spec fn stok(typ: TokenType, lit: Seq<char>, s1: LexState) -> SpecTok {
    SpecTok { typ, lit, line: s1.line, col: s1.col - 1 }
}

/// A single-character token at the current character.
pub open spec fn one_char_tok(s1: LexState, typ: TokenType) -> (SpecTok, LexState) {
    (stok(typ, seq![cur(s1)], s1), sread(s1))
}

/// A two-character token at the current character and the one after it.
pub open spec fn two_char_tok(s1: LexState, typ: TokenType) -> (SpecTok, LexState) {
    (stok(typ, seq![cur(s1), ahead(s1)], s1), sread(sread(s1)))
}

/// One scan step: the next token and the cursor after it. Whitespace and
/// comments are skipped first; the sentinel yields the end-of-input token
/// and marks the sequence complete.
pub open spec fn sscan(s: LexState) -> (SpecTok, LexState) {
    let s1 = spec_skip(s);
    let c = cur(s1);
    if c == '\0' {
        (
            SpecTok { typ: TokenType::EOF, lit: Seq::empty(), line: s1.line, col: s1.col },
            LexState { complete: true, ..s1 },
        )
    } else if c == '=' {
        if ahead(s1) == '=' {
            two_char_tok(s1, TokenType::EqualEqual)
        } else {
            one_char_tok(s1, TokenType::Assign)
        }
    } else if c == '!' {
        if ahead(s1) == '=' {
            two_char_tok(s1, TokenType::NotEqual)
        } else {
            one_char_tok(s1, TokenType::Not)
        }
    } else if c == '>' {
        if ahead(s1) == '=' {
            two_char_tok(s1, TokenType::GreaterEqual)
        } else {
            one_char_tok(s1, TokenType::Greater)
        }
    } else if c == '<' {
        if ahead(s1) == '=' {
            two_char_tok(s1, TokenType::LessEqual)
        } else {
            one_char_tok(s1, TokenType::Less)
        }
    } else if c == '/' {
        one_char_tok(s1, TokenType::Divide)
    } else if c == ',' {
        one_char_tok(s1, TokenType::Comma)
    } else if c == ';' {
        one_char_tok(s1, TokenType::SemiColon)
    } else if c == '+' {
        one_char_tok(s1, TokenType::Plus)
    } else if c == '-' {
        one_char_tok(s1, TokenType::Subtract)
    } else if c == '*' {
        one_char_tok(s1, TokenType::Multiply)
    } else if c == '{' {
        one_char_tok(s1, TokenType::LBrace)
    } else if c == '}' {
        one_char_tok(s1, TokenType::RBrace)
    } else if c == '(' {
        one_char_tok(s1, TokenType::LParen)
    } else if c == ')' {
        one_char_tok(s1, TokenType::RParen)
    } else if is_digit(c) || c == '.' {
        let (lit, typ, s2) = snum(s1, false, Seq::empty());
        (stok(typ, lit, s1), s2)
    } else {
        let (lit, s2) = sident(s1, Seq::empty());
        if lit.len() == 0 {
            (stok(TokenType::Illegal, seq![c], s1), sread(s1))
        } else {
            let typ = match keyword_kind(lit) {
                Some(k) => k,
                None => TokenType::Identifier,
            };
            (stok(typ, lit, s1), s2)
        }
    }
}

proof fn lemma_snum_props(s: LexState, has_point: bool, lit: Seq<char>)
    requires
        1 <= s.reads <= s.src.len() + 1,
    ensures
        ({
            let (lit2, typ, s2) = snum(s, has_point, lit);
            &&& s2.src == s.src
            &&& s2.complete == s.complete
            &&& s.reads <= s2.reads <= s.src.len() + 1
            &&& s2.reads == s.reads + lit2.len() - lit.len()
            &&& lit2.len() >= lit.len()
            &&& (is_digit(cur(s)) || cur(s) == '.' ==> lit2.len() > lit.len())
            &&& (typ == TokenType::Illegal || typ == TokenType::Int || typ == TokenType::Float)
            &&& lit2 == lit + s.src.subrange(s.reads - 1, s2.reads - 1)
            &&& (s.line == spec_line(s.src, s.reads) && s.col == spec_col(s.src, s.reads)
                ==> s2.line == spec_line(s.src, s2.reads) && s2.col == spec_col(s.src, s2.reads))
        }),
    decreases s.src.len() + 1 - s.reads,
{
    let c = cur(s);
    if is_digit(c) || c == '.' {
        if c == '.' && has_point {
            assert(lit.push('.') =~= lit + s.src.subrange(s.reads - 1, s.reads));
        } else {
            lemma_snum_props(sread(s), has_point || c == '.', lit.push(c));
            let (lit2, typ, s2) = snum(s, has_point, lit);
            assert(lit.push(c) =~= lit + s.src.subrange(s.reads - 1, s.reads));
            assert(lit + s.src.subrange(s.reads - 1, s.reads) + s.src.subrange(s.reads, s2.reads - 1)
                =~= lit + s.src.subrange(s.reads - 1, s2.reads - 1));
        }
    } else {
        assert(lit =~= lit + s.src.subrange(s.reads - 1, s.reads - 1));
    }
}

proof fn lemma_sident_props(s: LexState, lit: Seq<char>)
    requires
        1 <= s.reads <= s.src.len() + 1,
    ensures
        ({
            let (lit2, s2) = sident(s, lit);
            &&& s2.src == s.src
            &&& s2.complete == s.complete
            &&& s.reads <= s2.reads <= s.src.len() + 1
            &&& s2.reads == s.reads + lit2.len() - lit.len()
            &&& lit2.len() >= lit.len()
            &&& lit2 == lit + s.src.subrange(s.reads - 1, s2.reads - 1)
            &&& (s.line == spec_line(s.src, s.reads) && s.col == spec_col(s.src, s.reads)
                ==> s2.line == spec_line(s.src, s2.reads) && s2.col == spec_col(s.src, s2.reads))
        }),
    decreases s.src.len() + 1 - s.reads,
{
    let c = cur(s);
    if c != '\0' && legal_ident(c) {
        lemma_sident_props(sread(s), lit.push(c));
        let (lit2, s2) = sident(s, lit);
        assert(lit.push(c) =~= lit + s.src.subrange(s.reads - 1, s.reads));
        assert(lit + s.src.subrange(s.reads - 1, s.reads) + s.src.subrange(s.reads, s2.reads - 1)
            =~= lit + s.src.subrange(s.reads - 1, s2.reads - 1));
    } else {
        assert(lit =~= lit + s.src.subrange(s.reads - 1, s.reads - 1));
    }
}

pub proof fn lemma_sscan_progress(s: LexState)
    ensures
        ({
            let (t, s2) = sscan(s);
            &&& s2.src == s.src
            &&& s2.complete == s.complete || s2.complete
            &&& s2.reads >= s.reads
            &&& (s.reads <= s.src.len() + 1 ==> s2.reads <= s.src.len() + 1)
            &&& (s2.reads == s.reads ==> s2.complete)
        }),
{
    lemma_skip_props(s);
    let s1 = spec_skip(s);
    let c = cur(s1);
    let s2 = sscan(s).1;
    if c == '\0' {
        assert(s2 == LexState { complete: true, ..s1 });
    } else {
        assert(0 <= s1.reads - 1 < s.src.len());
        if is_digit(c) || c == '.' {
            lemma_snum_props(s1, false, Seq::empty());
            assert(s2 == snum(s1, false, Seq::empty()).2);
        } else if c == '=' || c == '!' || c == '>' || c == '<' {
            if ahead(s1) == '=' {
                assert(0 <= s1.reads < s.src.len());
                assert(s2 == sread(sread(s1)));
            } else {
                assert(s2 == sread(s1));
            }
        } else if c == '/' || c == ',' || c == ';' || c == '+' || c == '-' || c == '*'
            || c == '{' || c == '}' || c == '(' || c == ')' {
            assert(s2 == sread(s1));
        } else {
            lemma_sident_props(s1, Seq::empty());
            let (lit, si) = sident(s1, Seq::empty());
            if lit.len() == 0 {
                assert(s2 == sread(s1));
            } else {
                assert(s2 == si);
            }
        }
    }
}

/// Preservation of well-formedness over one scan step.
pub proof fn lemma_sscan_ok(s: LexState)
    requires
        lex_ok(s),
    ensures
        lex_ok(sscan(s).1),
{
    lemma_skip_props(s);
    let s1 = spec_skip(s);
    let c = cur(s1);
    let s2 = sscan(s).1;
    if c == '\0' {
        assert(s2 == LexState { complete: true, ..s1 });
    } else {
        assert(0 <= s1.reads - 1 < s.src.len());
        assert(!s1.complete);
        if is_digit(c) || c == '.' {
            lemma_snum_props(s1, false, Seq::empty());
            assert(s2 == snum(s1, false, Seq::empty()).2);
        } else if c == '=' || c == '!' || c == '>' || c == '<' {
            lemma_sread_loc(s1);
            lemma_sread_loc(sread(s1));
            if ahead(s1) == '=' {
                assert(0 <= s1.reads < s.src.len());
                assert(s2 == sread(sread(s1)));
            } else {
                assert(s2 == sread(s1));
            }
        } else if c == '/' || c == ',' || c == ';' || c == '+' || c == '-' || c == '*'
            || c == '{' || c == '}' || c == '(' || c == ')' {
            lemma_sread_loc(s1);
            assert(s2 == sread(s1));
        } else {
            lemma_sident_props(s1, Seq::empty());
            let (lit, si) = sident(s1, Seq::empty());
            if lit.len() == 0 {
                lemma_sread_loc(s1);
                assert(s2 == sread(s1));
            } else {
                assert(s2 == si);
            }
        }
    }
}

/// The whole remaining token sequence, ending with the end-of-input token.
pub open spec fn spec_tokens(s: LexState) -> Seq<SpecTok>
    decreases s.src.len() + 1 - s.reads, (if s.complete { 0int } else { 1int }),
{
    if s.complete {
        Seq::empty()
    } else {
        proof {
            lemma_sscan_progress(s);
        }
        seq![sscan(s).0] + spec_tokens(sscan(s).1)
    }
}

/// The cursor state of a fresh tokenizer: one character read, at line 1.
pub open spec fn spec_new(src: Seq<char>) -> LexState {
    sread(LexState { src, reads: 0, line: 1, col: 0, complete: false })
}

/// The tokenizer. It owns a cursor over borrowed source text; each call of
/// `next_token` produces one token and advances the cursor.
pub struct Lexer<'a> {
    src: &'a str,
    len: usize,
    reads: usize,
    curr: char,
    pub complete: bool,
    line: usize,
    col: usize,
}

impl<'a> View for Lexer<'a> {
    type V = LexState;

    closed spec fn view(&self) -> LexState {
        LexState {
            src: self.src@,
            reads: self.reads as int,
            line: self.line as int,
            col: self.col as int,
            complete: self.complete,
        }
    }
}

impl<'a> Lexer<'a> {
    /// The tokenizer's fields agree with a well-formed model cursor.
    pub closed spec fn wf(self) -> bool {
        &&& lex_ok(self@)
        &&& self.len == self.src@.len()
        &&& self.curr == cur(self@)
    }

    /// A fresh tokenizer over the given source text, with the first
    /// character already read.
    pub fn new(src: &'a str) -> (l: Lexer<'a>)
        requires
            src@.len() < usize::MAX,
        ensures
            l.wf(),
            l@ == spec_new(src@),
    {
        let len = src.unicode_len();
        let mut l = Lexer { src, len, reads: 0, curr: '\0', complete: false, line: 1, col: 0 };
        l.read_char();
        proof {
            assert(spec_line(src@, 0) == 1);
            assert(spec_col(src@, 0) == 0);
            assert(l@ == sread(LexState { src: src@, reads: 0, line: 1, col: 0, complete: false }));
        }
        l
    }

    /// Read one character: the column advances, except that a newline
    /// resets it and moves to the next line; past the end the sentinel is
    /// read.
    fn read_char(&mut self)
        requires
            old(self).len == old(self).src@.len(),
            old(self).src@.len() < usize::MAX,
            old(self).reads <= old(self).len,
            old(self)@.line == spec_line(old(self).src@, old(self)@.reads),
            old(self)@.col == spec_col(old(self).src@, old(self)@.reads),
        ensures
            final(self)@ == sread(old(self)@),
            final(self).curr == cur(final(self)@),
            final(self).len == old(self).len,
            final(self).src == old(self).src,
            final(self).complete == old(self).complete,
    {
        proof {
            lemma_loc_bounds(self.src@, self.reads as int);
        }
        let c: char = if self.reads < self.len {
            self.src.get_char(self.reads)
        } else {
            '\0'
        };
        self.reads = self.reads + 1;
        if c == '\n' {
            self.col = 0;
            self.line = self.line + 1;
        } else {
            self.col = self.col + 1;
        }
        self.curr = c;
    }

    /// The character one past the current one, without advancing.
    fn peek_char(&self) -> (c: char)
        requires
            self.wf(),
        ensures
            c == ahead(self@),
    {
        if self.reads < self.len {
            self.src.get_char(self.reads)
        } else {
            '\0'
        }
    }

    /// Skip whitespace before a token.
    fn skip_whitespace(&mut self)
        requires
            old(self).wf(),
        ensures
            final(self).wf(),
            final(self)@ == spec_skip_ws(old(self)@),
    {
        while self.curr.is_ascii_whitespace()
            invariant
                self.wf(),
                spec_skip_ws(self@) == spec_skip_ws(old(self)@),
            decreases self@.src.len() + 1 - self@.reads,
        {
            self.read_char();
        }
    }

    /// Skip to the end of the current line.
    fn skip_to_next_line(&mut self)
        requires
            old(self).wf(),
        ensures
            final(self).wf(),
            final(self)@ == spec_skip_line(old(self)@),
    {
        while self.curr != '\n' && self.curr != '\0'
            invariant
                self.wf(),
                spec_skip_line(self@) == spec_skip_line(old(self)@),
            decreases self@.src.len() + 1 - self@.reads,
        {
            self.read_char();
        }
    }

    /// Produce the next token and advance past it.
    pub fn next_token(&mut self) -> (t: Token)
        requires
            old(self).wf(),
        ensures
            final(self).wf(),
            t@ == sscan(old(self)@).0,
            final(self)@ == sscan(old(self)@).1,
        decreases self@.src.len() + 1 - self@.reads,
    {
        self.skip_whitespace();
        proof {
            lemma_skip_ws_props(old(self)@);
            lemma_skip_absorbs_ws(old(self)@);
        }

        if self.curr == '\0' {
            proof {
                reveal_strlit("");
                assert(""@ =~= Seq::<char>::empty());
            }
            self.complete = true;
            return Token::new(TokenType::EOF, "", self.line, self.col);
        }
        proof {
            if self.col == 0 {
                lemma_col_zero(self.src@, self@.reads);
            }
            lemma_loc_bounds(self.src@, self@.reads);
            assert(0 <= self@.reads - 1 < self.src@.len());
        }
        let ghost pre = self@;
        let tline = self.line;
        let tcol = self.col - 1;
        let start = self.reads - 1;

        let typ = match self.curr {
            '=' => {
                if self.peek_char() == '=' {
                    self.read_char();
                    TokenType::EqualEqual
                } else {
                    TokenType::Assign
                }
            },
            '!' => {
                if self.peek_char() == '=' {
                    self.read_char();
                    TokenType::NotEqual
                } else {
                    TokenType::Not
                }
            },
            '>' => {
                if self.peek_char() == '=' {
                    self.read_char();
                    TokenType::GreaterEqual
                } else {
                    TokenType::Greater
                }
            },
            '<' => {
                if self.peek_char() == '=' {
                    self.read_char();
                    TokenType::LessEqual
                } else {
                    TokenType::Less
                }
            },
            '/' => {
                if self.peek_char() == '/' {
                    // line comment: skip it and scan again
                    self.skip_to_next_line();
                    proof {
                        lemma_skip_line_props(pre);
                    }
                    return self.next_token();
                }
                TokenType::Divide
            },
            ',' => TokenType::Comma,
            ';' => TokenType::SemiColon,
            '+' => TokenType::Plus,
            '-' => TokenType::Subtract,
            '*' => TokenType::Multiply,
            '{' => TokenType::LBrace,
            '}' => TokenType::RBrace,
            '(' => TokenType::LParen,
            ')' => TokenType::RParen,
            c => {
                if c.is_ascii_digit() || c == '.' {
                    return self.read_number();
                }
                return self.read_identifier();
            },
        };
        let lit = self.src.substring_char(start, self.reads);
        let t = Token::new(typ, lit, tline, tcol);
        self.read_char();
        proof {
            lemma_sread_loc(pre);
            lemma_sread_loc(sread(pre));
            if self@.reads == pre.reads + 1 {
                assert(lit@ =~= seq![cur(pre)]);
            } else {
                assert(lit@ =~= seq![cur(pre), ahead(pre)]);
            }
        }
        t
    }

    /// Scan a number: digits with at most one point make an integer or a
    /// float; a second point ends the token at once as illegal, with the
    /// offending point included in the literal.
    fn read_number(&mut self) -> (t: Token)
        requires
            old(self).wf(),
            is_digit(cur(old(self)@)) || cur(old(self)@) == '.',
        ensures
            final(self).wf(),
            ({
                let (lit, typ, s2) = snum(old(self)@, false, Seq::empty());
                t@ == stok(typ, lit, old(self)@) && final(self)@ == s2
            }),
    {
        proof {
            if self.col == 0 {
                lemma_col_zero(self.src@, self@.reads);
            }
            lemma_loc_bounds(self.src@, self@.reads);
            assert(0 <= self@.reads - 1 < self.src@.len());
            assert(Seq::<char>::empty() =~= self.src@.subrange(
                self@.reads - 1,
                self@.reads - 1,
            ));
        }
        let tline = self.line;
        let tcol = self.col - 1;
        let start = self.reads - 1;
        let mut has_point = false;
        while self.curr.is_ascii_digit() || self.curr == '.'
            invariant
                self.wf(),
                self@.src == old(self)@.src,
                start == old(self)@.reads - 1,
                start + 1 <= self@.reads,
                tline == old(self)@.line,
                tcol == old(self)@.col - 1,
                snum(old(self)@, false, Seq::empty()) == snum(
                    self@,
                    has_point,
                    self@.src.subrange(start as int, self@.reads - 1),
                ),
            decreases self@.src.len() + 1 - self@.reads,
        {
            let ghost before = self@;
            let ghost litb = before.src.subrange(start as int, before.reads - 1);
            proof {
                assert(0 <= before.reads - 1 < before.src.len());
            }
            if self.curr == '.' {
                if has_point {
                    self.read_char();
                    proof {
                        assert(litb.push('.') =~= self@.src.subrange(
                            start as int,
                            self@.reads - 1,
                        ));
                    }
                    let lit = self.src.substring_char(start, self.reads - 1);
                    return Token::new(TokenType::Illegal, lit, tline, tcol);
                }
                has_point = true;
            }
            self.read_char();
            proof {
                assert(litb.push(cur(before)) =~= self@.src.subrange(
                    start as int,
                    self@.reads - 1,
                ));
            }
        }
        let lit = self.src.substring_char(start, self.reads - 1);
        let typ = if has_point {
            TokenType::Float
        } else {
            TokenType::Int
        };
        Token::new(typ, lit, tline, tcol)
    }

    /// Scan an identifier, checking the result against the keyword table;
    /// a character that cannot start an identifier becomes a one-character
    /// illegal token.
    fn read_identifier(&mut self) -> (t: Token)
        requires
            old(self).wf(),
            cur(old(self)@) != '\0',
            !is_ws(cur(old(self)@)),
        ensures
            final(self).wf(),
            ({
                let (lit, s2) = sident(old(self)@, Seq::empty());
                if lit.len() == 0 {
                    t@ == stok(TokenType::Illegal, seq![cur(old(self)@)], old(self)@)
                        && final(self)@ == sread(old(self)@)
                } else {
                    t@ == stok(
                        match keyword_kind(lit) {
                            Some(k) => k,
                            None => TokenType::Identifier,
                        },
                        lit,
                        old(self)@,
                    ) && final(self)@ == s2
                }
            }),
    {
        proof {
            if self.col == 0 {
                lemma_col_zero(self.src@, self@.reads);
            }
            lemma_loc_bounds(self.src@, self@.reads);
            assert(0 <= self@.reads - 1 < self.src@.len());
            assert(Seq::<char>::empty() =~= self.src@.subrange(
                self@.reads - 1,
                self@.reads - 1,
            ));
        }
        let tline = self.line;
        let tcol = self.col - 1;
        let start = self.reads - 1;
        while self.curr != '\0' && legal_identifier_char(self.curr)
            invariant
                self.wf(),
                self@.src == old(self)@.src,
                start == old(self)@.reads - 1,
                start + 1 <= self@.reads,
                tline == old(self)@.line,
                tcol == old(self)@.col - 1,
                sident(old(self)@, Seq::empty()) == sident(
                    self@,
                    self@.src.subrange(start as int, self@.reads - 1),
                ),
            decreases self@.src.len() + 1 - self@.reads,
        {
            let ghost before = self@;
            let ghost litb = before.src.subrange(start as int, before.reads - 1);
            proof {
                assert(0 <= before.reads - 1 < before.src.len());
            }
            self.read_char();
            proof {
                assert(litb.push(cur(before)) =~= self@.src.subrange(
                    start as int,
                    self@.reads - 1,
                ));
            }
        }
        if self.reads - 1 == start {
            // no character could begin an identifier: one illegal character
            let lit = self.src.substring_char(start, start + 1);
            let t = Token::new(TokenType::Illegal, lit, tline, tcol);
            proof {
                assert(lit@ =~= seq![cur(self@)]);
            }
            self.read_char();
            return t;
        }
        let lit = self.src.substring_char(start, self.reads - 1);
        match Token::from_keyword(lit, tline, tcol) {
            Some(t) => t,
            None => Token::new(TokenType::Identifier, lit, tline, tcol),
        }
    }

    /// One more token, or nothing once the end-of-input token has been
    /// produced.
    pub fn next(&mut self) -> (r: Option<Token>)
        requires
            old(self).wf(),
        ensures
            final(self).wf(),
            old(self)@.complete ==> r is None && final(self)@ == old(self)@,
            !old(self)@.complete ==> (r matches Some(t) && t@ == sscan(old(self)@).0
                && final(self)@ == sscan(old(self)@).1),
    {
        if !self.complete {
            Some(self.next_token())
        } else {
            None
        }
    }
}

/// A token stands at index `start` of the source text: its literal is
/// exactly the text found there, and its recorded line and column are the
/// position of that index.
pub open spec fn token_at(src: Seq<char>, t: SpecTok, start: int) -> bool {
    &&& 0 <= start
    &&& 1 <= t.lit.len()
    &&& start + t.lit.len() <= src.len()
    &&& t.lit == src.subrange(start, start + t.lit.len())
    &&& t.line == spec_line(src, start)
    &&& t.col == spec_col(src, start)
}

/// Law: one scan step from a well-formed cursor produces the end-of-input
/// token exactly when the sentinel is reached; any other token records the
/// position of the first character of its literal, the literal is exactly
/// the source text found there, and the cursor ends one character past it.
pub proof fn lemma_token_location(s: LexState)
    requires
        lex_ok(s),
    ensures
        ({
            let (t, s2) = sscan(s);
            let start = spec_skip(s).reads - 1;
            &&& (t.typ == TokenType::EOF <==> cur(spec_skip(s)) == '\0')
            &&& (t.typ == TokenType::EOF ==> s2.complete)
            &&& (t.typ != TokenType::EOF ==> s2.complete == s.complete)
            &&& t.typ != TokenType::EOF ==> token_at(s.src, t, start) && s2.reads == start
                + t.lit.len() + 1
        }),
{
    lemma_skip_props(s);
    let s1 = spec_skip(s);
    let c = cur(s1);
    let start = s1.reads - 1;
    let (t, s2) = sscan(s);
    if c != '\0' {
        assert(0 <= start < s.src.len());
        // the token's first character is not whitespace, hence not a
        // newline, so its position is one column before the cursor's
        assert(spec_line(s.src, start + 1) == spec_line(s.src, start));
        assert(spec_col(s.src, start + 1) == spec_col(s.src, start) + 1);
        if is_digit(c) || c == '.' {
            lemma_snum_props(s1, false, Seq::empty());
            let (lit, typ, sn) = snum(s1, false, Seq::empty());
            assert(Seq::empty() + s.src.subrange(start, sn.reads - 1) =~= s.src.subrange(
                start,
                sn.reads - 1,
            ));
            assert(t.lit =~= s.src.subrange(start, start + t.lit.len()));
        } else if c == '=' || c == '!' || c == '>' || c == '<' {
            if ahead(s1) == '=' {
                assert(0 <= s1.reads < s.src.len());
                assert(t.lit =~= s.src.subrange(start, start + 2));
            } else {
                assert(t.lit =~= s.src.subrange(start, start + 1));
            }
        } else if c == '/' || c == ',' || c == ';' || c == '+' || c == '-' || c == '*'
            || c == '{' || c == '}' || c == '(' || c == ')' {
            assert(t.lit =~= s.src.subrange(start, start + 1));
        } else {
            lemma_sident_props(s1, Seq::empty());
            let (lit, si) = sident(s1, Seq::empty());
            if lit.len() == 0 {
                assert(t.lit =~= s.src.subrange(start, start + 1));
            } else {
                assert(Seq::empty() + s.src.subrange(start, si.reads - 1) =~= s.src.subrange(
                    start,
                    si.reads - 1,
                ));
                assert(t.lit =~= s.src.subrange(start, start + t.lit.len()));
            }
        }
    }
}

proof fn lemma_stream_locations(s: LexState)
    requires
        lex_ok(s),
    ensures
        forall|i: int|
            0 <= i < spec_tokens(s).len() ==> ((#[trigger] spec_tokens(s)[i]).typ
                != TokenType::EOF ==> exists|start: int| token_at(s.src, spec_tokens(s)[i], start)),
    decreases s.src.len() + 1 - s.reads, (if s.complete { 0int } else { 1int }),
{
    lemma_sscan_progress(s);
    if !s.complete {
        let (t, s2) = sscan(s);
        lemma_sscan_ok(s);
        lemma_token_location(s);
        lemma_stream_locations(s2);
        let toks = spec_tokens(s);
        assert forall|i: int|
            0 <= i < toks.len() && (#[trigger] toks[i]).typ != TokenType::EOF implies exists|
            start: int,
        | token_at(s.src, toks[i], start) by {
            if i == 0 {
                let start = spec_skip(s).reads - 1;
                assert(toks[0] == t);
                assert(token_at(s.src, toks[i], start));
            } else {
                assert(toks[i] == spec_tokens(s2)[i - 1]);
            }
        }
    }
}

/// Law: every token the tokenizer produces for a source text, other than
/// the end-of-input token, records the line and column of the first
/// character of its literal, and the literal is exactly the source text
/// found at that position.
pub proof fn lemma_token_locations(src: Seq<char>)
    requires
        src.len() < usize::MAX,
    ensures
        forall|i: int|
            0 <= i < spec_tokens(spec_new(src)).len() ==> ((#[trigger] spec_tokens(
                spec_new(src),
            )[i]).typ != TokenType::EOF ==> exists|start: int|
                token_at(src, spec_tokens(spec_new(src))[i], start)),
{
    assert(spec_line(src, 0) == 1);
    assert(spec_col(src, 0) == 0);
    assert(lex_ok(spec_new(src)));
    lemma_stream_locations(spec_new(src));
}

/// The concatenation, over the whole scan, of each skipped stretch
/// (whitespace and comments) followed by the literal of the token scanned
/// right after it.
pub open spec fn cat_tokens(s: LexState) -> Seq<char>
    decreases s.src.len() + 1 - s.reads, (if s.complete { 0int } else { 1int }),
{
    if s.complete {
        Seq::empty()
    } else {
        proof {
            lemma_sscan_progress(s);
        }
        s.src.subrange(s.reads - 1, spec_skip(s).reads - 1) + sscan(s).0.lit + cat_tokens(
            sscan(s).1,
        )
    }
}

proof fn lemma_cat_suffix(s: LexState)
    requires
        lex_ok(s),
        forall|i: int| 0 <= i < s.src.len() ==> s.src[i] != '\0',
    ensures
        cat_tokens(s) == s.src.subrange(s.reads - 1, s.src.len() as int),
    decreases s.src.len() + 1 - s.reads, (if s.complete { 0int } else { 1int }),
{
    lemma_sscan_progress(s);
    if s.complete {
        // once complete the cursor has read the sentinel past the end
        assert(s.reads - 1 == s.src.len());
        assert(s.src.subrange(s.reads - 1, s.src.len() as int) =~= Seq::<char>::empty());
    } else {
        let s1 = spec_skip(s);
        let (t, s2) = sscan(s);
        lemma_skip_props(s);
        lemma_sscan_ok(s);
        lemma_token_location(s);
        lemma_cat_suffix(s2);
        let start = s1.reads - 1;
        if cur(s1) == '\0' {
            assert(start == s.src.len());
            assert(s2.reads - 1 == start);
            assert(s.src.subrange(s.reads - 1, s.src.len() as int) =~= s.src.subrange(
                s.reads - 1,
                start,
            ) + t.lit + cat_tokens(s2));
        } else {
            assert(s2.reads - 1 == start + t.lit.len());
            assert(s.src.subrange(s.reads - 1, s.src.len() as int) =~= s.src.subrange(
                s.reads - 1,
                start,
            ) + s.src.subrange(start, start + t.lit.len()) + s.src.subrange(
                start + t.lit.len(),
                s.src.len() as int,
            ));
        }
    }
}

/// Law: for source text without NUL characters, concatenating each token's
/// literal with the whitespace and comments skipped before it reconstructs
/// the source text exactly; what tokenization discards is only comment and
/// whitespace text.
pub proof fn lemma_source_reconstruction(src: Seq<char>)
    requires
        src.len() < usize::MAX,
        forall|i: int| 0 <= i < src.len() ==> src[i] != '\0',
    ensures
        cat_tokens(spec_new(src)) == src,
{
    assert(spec_line(src, 0) == 1);
    assert(spec_col(src, 0) == 0);
    assert(lex_ok(spec_new(src)));
    lemma_cat_suffix(spec_new(src));
    assert(src.subrange(0, src.len() as int) =~= src);
}

/// The shape of skipped text: whitespace characters and `//` comments in
/// any succession.
pub open spec fn skip_shape(t: Seq<char>) -> bool
    decreases t.len(),
{
    if t.len() == 0 {
        true
    } else if is_ws(t[0]) {
        skip_shape(t.drop_first())
    } else if t.len() >= 2 && t[0] == '/' && t[1] == '/' {
        comment_rest(t.drop_first().drop_first())
    } else {
        false
    }
}

/// The rest of a `//` comment: characters up to a newline or to the end,
/// after which skipped text may continue.
pub open spec fn comment_rest(t: Seq<char>) -> bool
    decreases t.len(),
{
    if t.len() == 0 {
        true
    } else if t[0] == '\n' {
        skip_shape(t.drop_first())
    } else {
        comment_rest(t.drop_first())
    }
}

proof fn lemma_comment_rest_concat(a: Seq<char>, b: Seq<char>)
    requires
        forall|i: int| 0 <= i < a.len() ==> a[i] != '\n',
        b.len() == 0 || (b[0] == '\n' && skip_shape(b.drop_first())),
    ensures
        comment_rest(a + b),
    decreases a.len(),
{
    if a.len() == 0 {
        assert(a + b =~= b);
    } else {
        lemma_comment_rest_concat(a.drop_first(), b);
        assert((a + b).drop_first() =~= a.drop_first() + b);
    }
}

/// Law: the text the tokenizer skips between two tokens is exactly
/// whitespace and `//` comments.
pub proof fn lemma_skipped_text_shape(s: LexState)
    requires
        lex_ok(s),
    ensures
        skip_shape(s.src.subrange(s.reads - 1, spec_skip(s).reads - 1)),
    decreases s.src.len() + 1 - s.reads,
{
    lemma_skip_props(s);
    let s1 = spec_skip(s);
    let gap = s.src.subrange(s.reads - 1, s1.reads - 1);
    if is_ws(cur(s)) {
        assert(0 <= s.reads - 1 < s.src.len());
        lemma_skip_props(sread(s));
        lemma_skipped_text_shape(sread(s));
        assert(gap.len() >= 1);
        assert(gap[0] == cur(s));
        assert(gap.drop_first() =~= s.src.subrange(s.reads, s1.reads - 1));
    } else if cur(s) == '/' && ahead(s) == '/' {
        let m = spec_skip_line(s);
        lemma_skip_line_props(s);
        lemma_skip_line_props(sread(s));
        lemma_skip_line_props(sread(sread(s)));
        assert(0 <= s.reads - 1 < s.src.len());
        assert(0 <= s.reads < s.src.len());
        assert(m == spec_skip_line(sread(sread(s))));
        assert(m.reads >= s.reads + 2);
        lemma_skip_props(m);
        lemma_skipped_text_shape(m);
        let a = s.src.subrange(s.reads + 1, m.reads - 1);
        let b = s.src.subrange(m.reads - 1, spec_skip(m).reads - 1);
        assert forall|i: int| 0 <= i < a.len() implies a[i] != '\n' by {
            assert(a[i] == char_at(s.src, s.reads + 1 + i));
        }
        if cur(m) == '\n' {
            assert(0 <= m.reads - 1 < s.src.len());
            assert(b.len() >= 1 ==> b[0] == '\n');
            if b.len() == 0 {
            } else {
                assert(b[0] == '\n');
                assert(b.drop_first() =~= s.src.subrange(m.reads, spec_skip(m).reads - 1));
                assert(skip_shape(b) == skip_shape(b.drop_first()));
            }
            lemma_comment_rest_concat(a, b);
        } else {
            assert(spec_skip(m) == m);
            assert(b =~= Seq::<char>::empty());
            lemma_comment_rest_concat(a, b);
        }
        assert(a + b =~= gap.drop_first().drop_first());
        assert(gap.len() >= 2);
        assert(gap[0] == '/');
        assert(gap[1] == '/');
        assert(comment_rest(gap.drop_first().drop_first()));
    } else {
        assert(gap =~= Seq::<char>::empty());
    }
}


proof fn lemma_stream_single_eof(s: LexState)
    requires
        lex_ok(s),
        !s.complete,
    ensures
        spec_tokens(s).len() >= 1,
        spec_tokens(s).last().typ == TokenType::EOF,
        forall|i: int|
            0 <= i < spec_tokens(s).len() - 1 ==> (#[trigger] spec_tokens(s)[i]).typ
                != TokenType::EOF,
    decreases s.src.len() + 1 - s.reads, (if s.complete { 0int } else { 1int }),
{
    lemma_sscan_progress(s);
    lemma_sscan_ok(s);
    lemma_token_location(s);
    let (t, s2) = sscan(s);
    let toks = spec_tokens(s);
    if t.typ == TokenType::EOF {
        assert(spec_tokens(s2) =~= Seq::<SpecTok>::empty());
        assert(toks =~= seq![t]);
    } else {
        lemma_stream_single_eof(s2);
        assert(toks.last() == spec_tokens(s2).last());
        assert forall|i: int|
            0 <= i < toks.len() - 1 implies (#[trigger] toks[i]).typ != TokenType::EOF by {
            if i > 0 {
                assert(toks[i] == spec_tokens(s2)[i - 1]);
            }
        }
    }
}

/// Law: tokenizing any source text terminates with exactly one
/// end-of-input token: the token sequence is nonempty, its last token is
/// the end-of-input token, and no earlier token is one.
pub proof fn lemma_single_eof(src: Seq<char>)
    requires
        src.len() < usize::MAX,
    ensures
        spec_tokens(spec_new(src)).len() >= 1,
        spec_tokens(spec_new(src)).last().typ == TokenType::EOF,
        forall|i: int|
            0 <= i < spec_tokens(spec_new(src)).len() - 1 ==> (#[trigger] spec_tokens(
                spec_new(src),
            )[i]).typ != TokenType::EOF,
{
    assert(spec_line(src, 0) == 1);
    assert(spec_col(src, 0) == 0);
    assert(lex_ok(spec_new(src)));
    lemma_stream_single_eof(spec_new(src));
}

} // verus!
