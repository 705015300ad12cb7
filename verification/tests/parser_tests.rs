use minilang::lexer::Lexer;
use minilang::parser::ast::{Identifier, Statement};
use minilang::parser::Parser;
use minilang::tokens::{TokenLoc, TokenType};

#[test]
fn test_parse() {
    let input = "
        let x = 5;
        let y = 10;
        let foobar = 838383;";

    let lex = Lexer::new(input);
    let mut parser = Parser::new(lex);

    let program = parser.parse();

    assert_eq!(program.statements.len(), 3);
    assert_eq!(program.errors.len(), 0);

    let expected_ids = vec!["x", "y", "foobar"];
    for (s, exp) in program.statements.into_iter().zip(expected_ids.iter()) {
        assert_let_statement(s, exp)
    }
}

fn assert_let_statement(s: Statement, id: &str) {
    match s {
        Statement::LetStatement { identifier: Identifier { value, .. }, .. } => {
            assert_eq!(id, &value)
        },
    }
}

#[test]
fn single_let_statement() {
    let mut parser = Parser::new(Lexer::new("let x = 5;"));
    let program = parser.parse();
    assert_eq!(program.statements.len(), 1);
    assert_eq!(program.errors.len(), 0);
    assert_let_statement(program.statements.into_iter().next().unwrap(), "x");
}

#[test]
fn missing_identifier_gives_one_error() {
    let mut parser = Parser::new(Lexer::new("let = 5;"));
    let program = parser.parse();
    assert_eq!(program.statements.len(), 0);
    assert_eq!(program.errors.len(), 1);
    let err = &program.errors[0];
    assert_eq!(err.message, "expected a 'Identifier' token but got 'Assign'");
    assert_eq!(err.loc, Some(TokenLoc { line: 1, col: 4 }));
}

#[test]
fn two_let_statements_in_source_order() {
    let mut parser = Parser::new(Lexer::new("let x = 5; let y = 10;"));
    let program = parser.parse();
    assert_eq!(program.errors.len(), 0);
    assert_eq!(program.statements.len(), 2);
    let mut it = program.statements.into_iter();
    assert_let_statement(it.next().unwrap(), "x");
    assert_let_statement(it.next().unwrap(), "y");
}

#[test]
fn statement_must_start_with_let() {
    let mut parser = Parser::new(Lexer::new("5;"));
    let program = parser.parse();
    assert_eq!(program.statements.len(), 0);
    assert_eq!(program.errors.len(), 1);
    let err = &program.errors[0];
    assert_eq!(err.message, "unexpected token: Int");
    assert_eq!(err.loc, Some(TokenLoc { line: 1, col: 0 }));
}

#[test]
fn missing_assign_gives_error_with_location() {
    let mut parser = Parser::new(Lexer::new("let x 5;"));
    let program = parser.parse();
    assert_eq!(program.statements.len(), 0);
    assert_eq!(program.errors.len(), 1);
    let err = &program.errors[0];
    assert_eq!(err.message, "expected a 'Assign' token but got 'Int'");
    assert_eq!(err.loc, Some(TokenLoc { line: 1, col: 6 }));
}

#[test]
fn end_of_input_mid_statement() {
    let mut parser = Parser::new(Lexer::new("let x = 5"));
    let program = parser.parse();
    assert_eq!(program.statements.len(), 0);
    assert_eq!(program.errors.len(), 1);
    let err = &program.errors[0];
    assert_eq!(err.message, "Unexpected end of input");
    assert_eq!(err.loc, None);
}

#[test]
fn error_then_recovery_at_next_let() {
    // the bad statement is reported once, and parsing resumes at the next
    // statement boundary
    let mut parser = Parser::new(Lexer::new("let = 5; let y = 10;"));
    let program = parser.parse();
    assert_eq!(program.errors.len(), 1);
    assert_eq!(program.statements.len(), 1);
    assert_let_statement(program.statements.into_iter().next().unwrap(), "y");
}

#[test]
fn empty_input_parses_to_empty_program() {
    let mut parser = Parser::new(Lexer::new(""));
    let program = parser.parse();
    assert_eq!(program.statements.len(), 0);
    assert_eq!(program.errors.len(), 0);
}

#[test]
fn let_statement_keeps_its_tokens() {
    let mut parser = Parser::new(Lexer::new("let abc = 1;"));
    let program = parser.parse();
    assert_eq!(program.errors.len(), 0);
    let s = program.statements.into_iter().next().unwrap();
    match s {
        Statement::LetStatement { token, identifier, .. } => {
            assert_eq!(token.typ, TokenType::Let);
            assert_eq!(token.literal, "let");
            assert_eq!(token.loc, TokenLoc { line: 1, col: 0 });
            assert_eq!(identifier.value, "abc");
            assert_eq!(identifier.token.typ, TokenType::Identifier);
            assert_eq!(identifier.token.loc, TokenLoc { line: 1, col: 4 });
        },
    }
}
