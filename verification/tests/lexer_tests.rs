use minilang::lexer::Lexer;
use minilang::tokens::Token;
use minilang::tokens::TokenType::{
    Assign, Comma, Divide, Else, EqualEqual, False, Float, Function, Greater, GreaterEqual,
    Identifier, If, Illegal, Int, LBrace, LParen, Less, LessEqual, Let, Multiply, Not, NotEqual,
    Plus, RBrace, RParen, Return, SemiColon, Subtract, True, EOF,
};

#[test]
fn test_next_token() {
    let input = "let five = 5;
        
        let tenish = 2*10.0/2;

        let add = fn(x, y) { 
            x + y; 
        };

        let result = add(five, tenish);

        if((!true == false) != true) {
            return false;
        } else {
            return true;
        }
        
        5 < 10 > -5 <= 10 >= 50;
        // this is a comment!
        // this should all be ignored";

    let mut l = Lexer::new(input);

    let expected = vec![
        // let five = 5;
        Token::new(Let, "let", 1, 0),
        Token::new(Identifier, "five", 1, 4),
        Token::new(Assign, "=", 1, 9),
        Token::new(Int, "5", 1, 11),
        Token::new(SemiColon, ";", 1, 12),
        // let tenish = 2*10.0/2;
        Token::new(Let, "let", 3, 8),
        Token::new(Identifier, "tenish", 3, 12),
        Token::new(Assign, "=", 3, 19),
        Token::new(Int, "2", 3, 21),
        Token::new(Multiply, "*", 3, 22),
        Token::new(Float, "10.0", 3, 23),
        Token::new(Divide, "/", 3, 27),
        Token::new(Int, "2", 3, 28),
        Token::new(SemiColon, ";", 3, 29),
        // // let add = fn(x, y) { x + y; };
        Token::new(Let, "let", 5, 8),
        Token::new(Identifier, "add", 5, 12),
        Token::new(Assign, "=", 5, 16),
        Token::new(Function, "fn", 5, 18),
        Token::new(LParen, "(", 5, 20),
        Token::new(Identifier, "x", 5, 21),
        Token::new(Comma, ",", 5, 22),
        Token::new(Identifier, "y", 5, 24),
        Token::new(RParen, ")", 5, 25),
        Token::new(LBrace, "{", 5, 27),
        Token::new(Identifier, "x", 6, 12),
        Token::new(Plus, "+", 6, 14),
        Token::new(Identifier, "y", 6, 16),
        Token::new(SemiColon, ";", 6, 17),
        Token::new(RBrace, "}", 7, 8),
        Token::new(SemiColon, ";", 7, 9),
        // let result = add(five, ten);
        Token::new(Let, "let", 9, 8),
        Token::new(Identifier, "result", 9, 12),
        Token::new(Assign, "=", 9, 19),
        Token::new(Identifier, "add", 9, 21),
        Token::new(LParen, "(", 9, 24),
        Token::new(Identifier, "five", 9, 25),
        Token::new(Comma, ",", 9, 29),
        Token::new(Identifier, "tenish", 9, 31),
        Token::new(RParen, ")", 9, 37),
        Token::new(SemiColon, ";", 9, 38),
        // // if((!true == false) != true){ return false; } else { return true; }
        Token::new(If, "if", 11, 8),
        Token::new(LParen, "(", 11, 10),
        Token::new(LParen, "(", 11, 11),
        Token::new(Not, "!", 11, 12),
        Token::new(True, "true", 11, 13),
        Token::new(EqualEqual, "==", 11, 18),
        Token::new(False, "false", 11, 21),
        Token::new(RParen, ")", 11, 26),
        Token::new(NotEqual, "!=", 11, 28),
        Token::new(True, "true", 11, 31),
        Token::new(RParen, ")", 11, 35),
        Token::new(LBrace, "{", 11, 37),
        Token::new(Return, "return", 12, 12),
        Token::new(False, "false", 12, 19),
        Token::new(SemiColon, ";", 12, 24),
        Token::new(RBrace, "}", 13, 8),
        Token::new(Else, "else", 13, 10),
        Token::new(LBrace, "{", 13, 15),
        Token::new(Return, "return", 14, 12),
        Token::new(True, "true", 14, 19),
        Token::new(SemiColon, ";", 14, 23),
        Token::new(RBrace, "}", 15, 8),
        // // 5 < 10 > -5 <= 10 >= 50;
        Token::new(Int, "5", 17, 8),
        Token::new(Less, "<", 17, 10),
        Token::new(Int, "10", 17, 12),
        Token::new(Greater, ">", 17, 15),
        Token::new(Subtract, "-", 17, 17),
        Token::new(Int, "5", 17, 18),
        Token::new(LessEqual, "<=", 17, 20),
        Token::new(Int, "10", 17, 23),
        Token::new(GreaterEqual, ">=", 17, 26),
        Token::new(Int, "50", 17, 29),
        Token::new(SemiColon, ";", 17, 31),
        //
        Token::new(EOF, "", 19, 38),
    ];

    for i in expected.into_iter() {
        assert_eq!(i, l.next_token())
    }

    assert!(l.complete, "expected no more tokens")
}

#[test]
fn double_equal_is_one_token() {
    let mut l = Lexer::new("==");
    assert_eq!(l.next_token(), Token::new(EqualEqual, "==", 1, 0));
    assert_eq!(l.next_token().typ, EOF);
}

#[test]
fn second_point_makes_number_illegal() {
    let mut l = Lexer::new("1.2.3");
    assert_eq!(l.next_token(), Token::new(Illegal, "1.2.", 1, 0));
    assert_eq!(l.next_token(), Token::new(Int, "3", 1, 4));
    assert_eq!(l.next_token().typ, EOF);
    assert_eq!(l.next(), None);
}

#[test]
fn trailing_comment_without_newline_still_ends() {
    let mut l = Lexer::new("x // trailing words");
    assert_eq!(l.next_token(), Token::new(Identifier, "x", 1, 0));
    let mut eofs = 0;
    while let Some(t) = l.next() {
        assert_eq!(t.typ, EOF);
        eofs += 1;
    }
    assert_eq!(eofs, 1);
    assert!(l.complete);
}

#[test]
fn every_keyword_is_recognized() {
    let mut l = Lexer::new("let fn if else return true false");
    assert_eq!(l.next_token().typ, Let);
    assert_eq!(l.next_token().typ, Function);
    assert_eq!(l.next_token().typ, If);
    assert_eq!(l.next_token().typ, Else);
    assert_eq!(l.next_token().typ, Return);
    assert_eq!(l.next_token().typ, True);
    assert_eq!(l.next_token().typ, False);
    assert_eq!(l.next_token().typ, EOF);
}

#[test]
fn keyword_lookup_checks_whole_spelling() {
    let mut l = Lexer::new("letter truex");
    assert_eq!(l.next_token(), Token::new(Identifier, "letter", 1, 0));
    assert_eq!(l.next_token(), Token::new(Identifier, "truex", 1, 7));
}

#[test]
fn from_keyword_table() {
    assert_eq!(Token::from_keyword("let", 3, 7), Some(Token::new(Let, "let", 3, 7)));
    assert_eq!(Token::from_keyword("fn", 1, 0), Some(Token::new(Function, "fn", 1, 0)));
    assert_eq!(Token::from_keyword("abc", 1, 0), None);
    assert_eq!(Token::from_keyword("", 1, 0), None);
}

#[test]
fn empty_input_yields_one_eof() {
    let mut l = Lexer::new("");
    assert_eq!(l.next_token().typ, EOF);
    assert_eq!(l.next(), None);
    assert!(l.complete);
}

#[test]
fn unrecognized_character_is_illegal_and_consumed() {
    let mut l = Lexer::new("@@");
    assert_eq!(l.next_token(), Token::new(Illegal, "@", 1, 0));
    assert_eq!(l.next_token(), Token::new(Illegal, "@", 1, 1));
    assert_eq!(l.next_token().typ, EOF);
}

#[test]
fn token_location_survives_newline_terminator() {
    // an identifier terminated directly by a newline keeps the location of
    // its first character
    let mut l = Lexer::new("ab\ncd");
    assert_eq!(l.next_token(), Token::new(Identifier, "ab", 1, 0));
    assert_eq!(l.next_token(), Token::new(Identifier, "cd", 2, 0));
}

#[test]
fn lone_point_scans_as_float() {
    let mut l = Lexer::new(".5 .");
    assert_eq!(l.next_token(), Token::new(Float, ".5", 1, 0));
    assert_eq!(l.next_token(), Token::new(Float, ".", 1, 3));
}

#[test]
fn operators_with_and_without_equal() {
    let mut l = Lexer::new("= ! > < != >= <= /");
    assert_eq!(l.next_token(), Token::new(Assign, "=", 1, 0));
    assert_eq!(l.next_token(), Token::new(Not, "!", 1, 2));
    assert_eq!(l.next_token(), Token::new(Greater, ">", 1, 4));
    assert_eq!(l.next_token(), Token::new(Less, "<", 1, 6));
    assert_eq!(l.next_token(), Token::new(NotEqual, "!=", 1, 8));
    assert_eq!(l.next_token(), Token::new(GreaterEqual, ">=", 1, 11));
    assert_eq!(l.next_token(), Token::new(LessEqual, "<=", 1, 14));
    assert_eq!(l.next_token(), Token::new(Divide, "/", 1, 17));
}

#[test]
fn comment_between_tokens_is_skipped() {
    let mut l = Lexer::new("1 // gone\n2");
    assert_eq!(l.next_token(), Token::new(Int, "1", 1, 0));
    assert_eq!(l.next_token(), Token::new(Int, "2", 2, 0));
    assert_eq!(l.next_token().typ, EOF);
}

#[test]
fn underscores_and_digits_in_identifiers() {
    let mut l = Lexer::new("a_b1 _x");
    assert_eq!(l.next_token(), Token::new(Identifier, "a_b1", 1, 0));
    assert_eq!(l.next_token(), Token::new(Identifier, "_x", 1, 5));
}

#[test]
fn literal_concatenation_reconstructs_gapless_source() {
    // with nothing to skip, the token literals concatenate back to the
    // exact source text
    let src = "x=5;";
    let mut l = Lexer::new(src);
    let mut rebuilt = String::new();
    while let Some(t) = l.next() {
        rebuilt.push_str(&t.literal);
    }
    assert_eq!(rebuilt, src);
}

#[test]
fn locations_index_the_source() {
    // every token's literal is found in the source at its recorded line
    // and column
    let src = "let five = 5;\n  tenish <= 10.0 // end\n!=";
    let lines: Vec<&str> = src.split('\n').collect();
    let mut l = Lexer::new(src);
    let mut seen = 0;
    while let Some(t) = l.next() {
        if t.typ == EOF {
            break;
        }
        let line = lines[t.loc.line - 1];
        let at: String = line.chars().skip(t.loc.col).take(t.literal.chars().count()).collect();
        assert_eq!(at, t.literal);
        seen += 1;
    }
    assert_eq!(seen, 9);
}
