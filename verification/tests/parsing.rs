use tinybasic::ast::{Expression, Primary, PrintMessage, Statement, Term, TermComp, Unary};
use tinybasic::lexer::lex_source;
use tinybasic::parser::{ParseError, Program};
use tinybasic::token::Token;

fn parse(source: &str) -> Result<Program, ParseError> {
    let tokens = lex_source(source).expect("the source lexes");
    let mut program = Program::new();
    program.build(tokens)?;
    Ok(program)
}

fn error_of(source: &str) -> ParseError {
    match parse(source) {
        Ok(program) => panic!("parsed: {:?}", program),
        Err(e) => e,
    }
}

#[test]
fn test_prgm() {
    let prog = "LET a = 1\n";
    let program = parse(prog).unwrap();
    assert_eq!(program.statements().len(), 1);
    match &program.statements()[0] {
        Statement::Let { ident, expression } => {
            assert_eq!(ident, "a");
            assert!(expression.other_terms.is_empty());
            assert!(expression.first_term.components.is_empty());
            assert!(expression.first_term.unary.operator.is_none());
            assert!(matches!(expression.first_term.unary.primary, Primary::Int(1)));
        }
        other => panic!("not a LET: {:?}", other),
    }
    assert_eq!(program.symbols().len(), 1);
    assert!(program.symbols().contains("a"));
    assert_eq!(program.symbols().names(), &vec!["a".to_string()]);
}

#[test]
fn new_program_is_empty() {
    let program = Program::new();
    assert!(program.statements().is_empty());
    assert_eq!(program.symbols().len(), 0);
}

#[test]
fn blank_lines_are_skipped() {
    let program = parse("\n\nLET a = 1\n\n\nPRINT a\n\n").unwrap();
    assert_eq!(program.statements().len(), 2);
    let program = parse("").unwrap();
    assert!(program.statements().is_empty());
    let program = parse("\n\n\n").unwrap();
    assert!(program.statements().is_empty());
}

#[test]
fn print_before_declaration_fails() {
    assert_eq!(error_of("PRINT x\n"), ParseError::UndeclaredIdentifier);
    assert_eq!(error_of("PRINT x\nLET x = 1\n"), ParseError::UndeclaredIdentifier);
    assert_eq!(error_of("PRINT x\nINPUT x\n"), ParseError::UndeclaredIdentifier);
    assert_eq!(error_of("LET y = 1\nPRINT x\n"), ParseError::UndeclaredIdentifier);
    assert!(parse("LET x = 1\nPRINT x\n").is_ok());
    assert!(parse("INPUT x\nPRINT x\n").is_ok());
}

#[test]
fn let_cannot_use_the_variable_it_declares() {
    assert_eq!(error_of("LET a = a\n"), ParseError::UndeclaredIdentifier);
    assert!(parse("LET a = 1\nLET a = a + 1\n").is_ok());
}

#[test]
fn goto_needs_an_earlier_label() {
    assert_eq!(error_of("GOTO done\nLABEL done\n"), ParseError::UndeclaredLabel);
    assert_eq!(error_of("GOTO done\n"), ParseError::UndeclaredLabel);
    let program = parse("LABEL done\nGOTO done\n").unwrap();
    assert_eq!(program.statements().len(), 2);
    assert!(matches!(&program.statements()[0], Statement::Label { ident } if ident == "done"));
    assert!(matches!(&program.statements()[1], Statement::Goto { ident } if ident == "done"));
    let program = parse("LABEL done\nPRINT \"x\"\nGOTO done\nGOTO done\n").unwrap();
    assert_eq!(program.statements().len(), 4);
}

#[test]
fn labels_and_variables_are_kept_apart() {
    assert_eq!(error_of("LET done = 1\nGOTO done\n"), ParseError::UndeclaredLabel);
    assert_eq!(error_of("LABEL x\nPRINT x\n"), ParseError::UndeclaredIdentifier);
    let program = parse("LABEL x\n").unwrap();
    assert_eq!(program.symbols().len(), 0);
}

#[test]
fn label_inside_a_body_is_seen_after_it() {
    assert!(parse("IF 1 > 0 THEN\nLABEL inner\nENDIF\nGOTO inner\n").is_ok());
    assert_eq!(
        error_of("IF 1 > 0 THEN\nGOTO later\nENDIF\nLABEL later\n"),
        ParseError::UndeclaredLabel
    );
}

#[test]
fn missing_right_hand_side() {
    assert_eq!(error_of("LET a = \n"), ParseError::ExpectedPrimary);
    assert_eq!(error_of("LET a ="), ParseError::ExpectedPrimary);
    assert_eq!(ParseError::ExpectedPrimary.message(), "expected primary token");
}

#[test]
fn if_with_one_print() {
    let program = parse("LET a = 1\nIF a > 0 THEN\nPRINT \"pos\"\nENDIF\n").unwrap();
    assert_eq!(program.statements().len(), 2);
    match &program.statements()[1] {
        Statement::If {
            comparison,
            statements,
        } => {
            assert_eq!(comparison.operator, Token::Gt);
            assert!(matches!(
                &comparison.left.first_term.unary.primary,
                Primary::Ident(name) if name == "a"
            ));
            assert!(matches!(
                comparison.right.first_term.unary.primary,
                Primary::Int(0)
            ));
            assert_eq!(statements.len(), 1);
            assert!(matches!(
                &statements[0],
                Statement::Print(PrintMessage::StrLit(text)) if text == "pos"
            ));
        }
        other => panic!("not an IF: {:?}", other),
    }
}

#[test]
fn while_with_a_decrement() {
    let program = parse("LET a = 3\nWHILE a > 0 REPEAT\nLET a = a - 1\nENDWHILE\n").unwrap();
    assert_eq!(program.statements().len(), 2);
    match &program.statements()[1] {
        Statement::While { statements, .. } => {
            assert_eq!(statements.len(), 1);
            match &statements[0] {
                Statement::Let { ident, expression } => {
                    assert_eq!(ident, "a");
                    // `a - 1` is the term `a` and the term `-1`.
                    assert_eq!(expression.other_terms.len(), 1);
                    assert_eq!(
                        expression.other_terms[0].unary.operator,
                        Some(Token::Sub)
                    );
                    assert!(matches!(
                        expression.other_terms[0].unary.primary,
                        Primary::Int(1)
                    ));
                }
                other => panic!("not a LET: {:?}", other),
            }
        }
        other => panic!("not a WHILE: {:?}", other),
    }
    assert_eq!(program.symbols().names(), &vec!["a".to_string()]);
}

#[test]
fn nested_blocks() {
    let source = "LET a = 1\nWHILE a < 10 REPEAT\nIF a == 5 THEN\nPRINT \"five\"\nENDIF\nLET a = a + 1\nENDWHILE\n";
    let program = parse(source).unwrap();
    assert_eq!(program.statements().len(), 2);
    match &program.statements()[1] {
        Statement::While { statements, .. } => {
            assert_eq!(statements.len(), 2);
            assert!(matches!(&statements[0], Statement::If { statements, .. } if statements.len() == 1));
        }
        other => panic!("not a WHILE: {:?}", other),
    }
}

#[test]
fn every_relation_is_accepted() {
    for relation in ["==", "!=", ">", ">=", "<", "<="] {
        let source = format!("IF 1 {} 2 THEN\nENDIF\n", relation);
        assert!(parse(&source).is_ok(), "{}", relation);
    }
}

#[test]
fn terms_with_scaling() {
    let program = parse("LET a = 2 * 3 / 4.5\n").unwrap();
    match &program.statements()[0] {
        Statement::Let { expression, .. } => {
            let term = &expression.first_term;
            assert_eq!(term.components.len(), 2);
            assert_eq!(term.components[0].operator, Token::Mul);
            assert_eq!(term.components[1].operator, Token::Div);
            assert!(matches!(
                &term.components[1].unary.primary,
                Primary::Float(text) if text == "4.5"
            ));
        }
        other => panic!("not a LET: {:?}", other),
    }
}

#[test]
fn dangling_operators_are_errors() {
    // A sign or a scaling sign needs its operand.
    assert_eq!(error_of("LET a = 1 +\n"), ParseError::ExpectedPrimary);
    assert_eq!(error_of("LET a = 1 -\n"), ParseError::ExpectedPrimary);
    assert_eq!(error_of("LET a = 1 *\n"), ParseError::ExpectedPrimary);
    assert_eq!(error_of("LET a = 1 /\n"), ParseError::ExpectedPrimary);
    assert_eq!(error_of("LET a = 1 * +\n"), ParseError::ExpectedPrimary);
    assert_eq!(error_of("LET a = 1 + *\n"), ParseError::ExpectedPrimary);
    assert_eq!(error_of("LET a = 1 + + 2\n"), ParseError::ExpectedPrimary);
    assert_eq!(error_of("LET a = 1 +"), ParseError::ExpectedPrimary);
    assert_eq!(error_of("PRINT 1 +\n"), ParseError::ExpectedPrimary);
    assert_eq!(error_of("IF 1 + > 2 THEN\nENDIF\n"), ParseError::ExpectedPrimary);
    assert_eq!(error_of("IF 1 > 2 * THEN\nENDIF\n"), ParseError::ExpectedPrimary);
}

#[test]
fn let_with_a_sign_and_no_primary_declares_nothing() {
    let tokens = vec![
        Token::Let,
        Token::Ident("a".to_string()),
        Token::Assign,
        Token::Int(1),
        Token::Add,
        Token::NewLine,
    ];
    let mut program = Program::new();
    assert_eq!(program.build(tokens), Err(ParseError::ExpectedPrimary));
    assert!(program.statements().is_empty());
    assert_eq!(program.symbols().len(), 0);
}

#[test]
fn undeclared_operand_is_the_error() {
    assert_eq!(error_of("LET a = 1 + b\n"), ParseError::UndeclaredIdentifier);
    assert_eq!(error_of("LET a = 1 - b\n"), ParseError::UndeclaredIdentifier);
    assert_eq!(error_of("LET a = 1 * b\n"), ParseError::UndeclaredIdentifier);
    assert_eq!(error_of("LET a = 1 / - b\n"), ParseError::UndeclaredIdentifier);
    assert_eq!(error_of("LET a = 1 b\n"), ParseError::UndeclaredIdentifier);
    assert_eq!(error_of("LET a = 1\nPRINT a + b\n"), ParseError::UndeclaredIdentifier);
    assert_eq!(
        error_of("LET a = 1\nIF a > 1 + b THEN\nENDIF\n"),
        ParseError::UndeclaredIdentifier
    );
    assert_eq!(
        error_of("LET a = 1\nIF a * b > 1 THEN\nENDIF\n"),
        ParseError::UndeclaredIdentifier
    );
}

#[test]
fn signs_and_scaling_with_operands_parse() {
    assert!(parse("LET a = 1 + 2\n").is_ok());
    assert!(parse("LET a = 1 * + 2\n").is_ok());
    assert!(parse("LET a = - 1 - 2 / - 3\n").is_ok());
    assert_eq!(error_of("LET a = 1 - - 2\n"), ParseError::ExpectedPrimary);
    assert!(parse("LET a = 1\nLET b = a + a * a\n").is_ok());
}

#[test]
fn redeclaration_is_allowed() {
    let program = parse("LET a = 1\nLET b = 2\nLET a = 3\nINPUT b\nINPUT c\n").unwrap();
    assert_eq!(
        program.symbols().names(),
        &vec!["a".to_string(), "b".to_string(), "c".to_string()]
    );
}

#[test]
fn names_stay_declared_after_a_failure() {
    let tokens = lex_source("LET a = 1\nPRINT b\n").unwrap();
    let mut program = Program::new();
    assert_eq!(program.build(tokens), Err(ParseError::UndeclaredIdentifier));
    assert!(program.statements().is_empty());
    assert!(program.symbols().contains("a"));
    // A second run sees what the first one declared.
    let tokens = lex_source("PRINT a\n").unwrap();
    assert_eq!(program.build(tokens), Ok(()));
    assert_eq!(program.statements().len(), 1);
}

#[test]
fn build_replaces_the_statements() {
    let mut program = Program::new();
    program.build(lex_source("LET a = 1\nLET b = 2\n").unwrap()).unwrap();
    assert_eq!(program.statements().len(), 2);
    program.build(lex_source("PRINT a\n").unwrap()).unwrap();
    assert_eq!(program.statements().len(), 1);
    assert_eq!(program.symbols().len(), 2);
}

#[test]
fn expected_identifier() {
    assert_eq!(error_of("LET 1 = 2\n"), ParseError::ExpectedIdentifier);
    assert_eq!(error_of("LET"), ParseError::ExpectedIdentifier);
    assert_eq!(error_of("INPUT 5\n"), ParseError::ExpectedIdentifier);
    assert_eq!(error_of("LABEL\n"), ParseError::ExpectedIdentifier);
    assert_eq!(error_of("GOTO \"x\"\n"), ParseError::ExpectedIdentifier);
    assert_eq!(ParseError::ExpectedIdentifier.message(), "Expected identifier");
}

#[test]
fn expected_newline() {
    assert_eq!(error_of("INPUT a b\n"), ParseError::ExpectedNewline);
    assert_eq!(error_of("INPUT a"), ParseError::ExpectedNewline);
    assert_eq!(error_of("LABEL a GOTO a\n"), ParseError::ExpectedNewline);
    // The line break is asked for before the label is looked up.
    assert_eq!(error_of("GOTO nowhere"), ParseError::ExpectedNewline);
    assert_eq!(ParseError::ExpectedNewline.message(), "Expected newline");
}

#[test]
fn undeclared_label_message() {
    assert_eq!(
        ParseError::UndeclaredLabel.message(),
        "Attempt to GOTO undeclared label"
    );
}

#[test]
fn expected_assign() {
    assert_eq!(error_of("LET a 1\n"), ParseError::ExpectedAssign);
    assert_eq!(error_of("LET a == 1\n"), ParseError::ExpectedAssign);
    assert_eq!(error_of("LET a"), ParseError::ExpectedAssign);
    assert_eq!(ParseError::ExpectedAssign.message(), "Expected '='");
}

#[test]
fn expected_newline_after_let() {
    assert_eq!(error_of("LET a = 1"), ParseError::ExpectedNewlineAfterLet);
    assert_eq!(error_of("LET a = 1 \"b\"\n"), ParseError::ExpectedNewlineAfterLet);
    assert_eq!(error_of("LET a = 1 = 2\n"), ParseError::ExpectedNewlineAfterLet);
    assert_eq!(error_of("LET a = 1 PRINT a\n"), ParseError::ExpectedNewlineAfterLet);
    assert_eq!(
        ParseError::ExpectedNewlineAfterLet.message(),
        "Expected newline after 'LET' statement"
    );
}

#[test]
fn expected_newline_after_print() {
    assert_eq!(error_of("PRINT \"hi\" 1\n"), ParseError::ExpectedNewlineAfterPrint);
    assert_eq!(error_of("PRINT \"hi\""), ParseError::ExpectedNewlineAfterPrint);
    assert_eq!(error_of("PRINT 1"), ParseError::ExpectedNewlineAfterPrint);
    assert_eq!(error_of("PRINT 1 LET a = 1\n"), ParseError::ExpectedNewlineAfterPrint);
    assert_eq!(
        ParseError::ExpectedNewlineAfterPrint.message(),
        "Expected newline after 'PRINT' statement"
    );
}

#[test]
fn expected_then() {
    assert_eq!(error_of("IF 1 > 0\nENDIF\n"), ParseError::ExpectedThen);
    assert_eq!(error_of("IF 1 > 0 REPEAT\nENDIF\n"), ParseError::ExpectedThen);
    assert_eq!(
        ParseError::ExpectedThen.message(),
        "Expected 'THEN' after 'IF' comparison"
    );
}

#[test]
fn expected_newline_after_then() {
    assert_eq!(
        error_of("IF 1 > 0 THEN PRINT \"x\"\nENDIF\n"),
        ParseError::ExpectedNewlineAfterThen
    );
    assert_eq!(error_of("IF 1 > 0 THEN"), ParseError::ExpectedNewlineAfterThen);
    assert_eq!(
        ParseError::ExpectedNewlineAfterThen.message(),
        "Expected newline after 'THEN'"
    );
}

#[test]
fn expected_newline_after_endif() {
    assert_eq!(
        error_of("IF 1 > 0 THEN\nENDIF"),
        ParseError::ExpectedNewlineAfterEndIf
    );
    // A body that the text ends in is not closed.
    assert_eq!(
        error_of("IF 1 > 0 THEN\nPRINT \"x\"\n"),
        ParseError::ExpectedNewlineAfterEndIf
    );
    assert_eq!(
        error_of("IF 1 > 0 THEN\nENDIF PRINT \"x\"\n"),
        ParseError::ExpectedNewlineAfterEndIf
    );
    assert_eq!(
        ParseError::ExpectedNewlineAfterEndIf.message(),
        "Expected newline after 'ENDIF'"
    );
}

#[test]
fn expected_repeat() {
    assert_eq!(error_of("WHILE 1 > 0\nENDWHILE\n"), ParseError::ExpectedRepeat);
    assert_eq!(error_of("WHILE 1 > 0 THEN\nENDWHILE\n"), ParseError::ExpectedRepeat);
    assert_eq!(
        ParseError::ExpectedRepeat.message(),
        "Expected 'REPEAT' after 'WHILE' comparison"
    );
}

#[test]
fn expected_newline_after_repeat() {
    assert_eq!(
        error_of("WHILE 1 > 0 REPEAT ENDWHILE\n"),
        ParseError::ExpectedNewlineAfterRepeat
    );
    assert_eq!(
        ParseError::ExpectedNewlineAfterRepeat.message(),
        "Expected newline after 'REPEAT'"
    );
}

#[test]
fn expected_newline_after_endwhile() {
    assert_eq!(
        error_of("WHILE 1 > 0 REPEAT\nENDWHILE"),
        ParseError::ExpectedNewlineAfterEndWhile
    );
    assert_eq!(
        error_of("WHILE 1 > 0 REPEAT\n"),
        ParseError::ExpectedNewlineAfterEndWhile
    );
    assert_eq!(
        ParseError::ExpectedNewlineAfterEndWhile.message(),
        "Expected newline after 'ENDWHILE'"
    );
}

#[test]
fn wrong_closing_keyword() {
    assert_eq!(
        error_of("IF 1 > 0 THEN\nENDWHILE\n"),
        ParseError::StatementNotImplemented
    );
    assert_eq!(
        error_of("WHILE 1 > 0 REPEAT\nENDIF\n"),
        ParseError::StatementNotImplemented
    );
}

#[test]
fn expected_operator() {
    assert_eq!(error_of("IF 1 THEN\nENDIF\n"), ParseError::ExpectedOperator);
    assert_eq!(error_of("IF 1 = 1 THEN\nENDIF\n"), ParseError::ExpectedOperator);
    assert_eq!(error_of("WHILE 1"), ParseError::ExpectedOperator);
    assert_eq!(ParseError::ExpectedOperator.message(), "Expected operator!");
}

#[test]
fn undeclared_identifier_message() {
    assert_eq!(
        ParseError::UndeclaredIdentifier.message(),
        "Undeclared identifier!"
    );
    assert_eq!(error_of("IF x > 0 THEN\nENDIF\n"), ParseError::UndeclaredIdentifier);
    assert_eq!(error_of("IF 0 > x THEN\nENDIF\n"), ParseError::UndeclaredIdentifier);
}

#[test]
fn expected_primary() {
    assert_eq!(error_of("PRINT\n"), ParseError::ExpectedPrimary);
    assert_eq!(error_of("PRINT +\n"), ParseError::ExpectedPrimary);
    assert_eq!(error_of("IF > 0 THEN\nENDIF\n"), ParseError::ExpectedPrimary);
    assert_eq!(error_of("IF 1 > THEN\nENDIF\n"), ParseError::ExpectedPrimary);
    assert_eq!(error_of("LET a = *\n"), ParseError::ExpectedPrimary);
}

#[test]
fn statement_not_implemented() {
    assert_eq!(error_of("a = 1\n"), ParseError::StatementNotImplemented);
    assert_eq!(error_of("ENDIF\n"), ParseError::StatementNotImplemented);
    assert_eq!(error_of("THEN\n"), ParseError::StatementNotImplemented);
    assert_eq!(error_of("1\n"), ParseError::StatementNotImplemented);
    assert_eq!(error_of("?\n"), ParseError::StatementNotImplemented);
    assert_eq!(
        ParseError::StatementNotImplemented.message(),
        "statement not implemented"
    );
}

#[test]
fn invalid_tokens_fail_the_parse() {
    assert_eq!(error_of("LET a = ?\n"), ParseError::ExpectedPrimary);
    assert_eq!(error_of("LET a = 1.2.3\n"), ParseError::ExpectedPrimary);
    assert_eq!(error_of("LET a = 99999999999\n"), ParseError::ExpectedPrimary);
}

#[test]
fn first_error_wins() {
    assert_eq!(
        error_of("LET a 1\nPRINT x\nGOTO y\n"),
        ParseError::ExpectedAssign
    );
    assert_eq!(
        error_of("LET a = 1\nGOTO y\nPRINT x\n"),
        ParseError::UndeclaredLabel
    );
}

#[test]
fn expression_tree_by_value() {
    let program = parse("LET a = 1\nLET b = -a * 2 + 3.5 / a\n").unwrap();
    let expected = Expression {
        first_term: Term {
            unary: Unary {
                operator: Some(Token::Sub),
                primary: Primary::Ident("a".to_string()),
            },
            components: vec![TermComp {
                operator: Token::Mul,
                unary: Unary {
                    operator: None,
                    primary: Primary::Int(2),
                },
            }],
        },
        other_terms: vec![Term {
            unary: Unary {
                operator: Some(Token::Add),
                primary: Primary::Float("3.5".to_string()),
            },
            components: vec![TermComp {
                operator: Token::Div,
                unary: Unary {
                    operator: None,
                    primary: Primary::Ident("a".to_string()),
                },
            }],
        }],
    };
    match &program.statements()[1] {
        Statement::Let { ident, expression } => {
            assert_eq!(ident, "b");
            assert_eq!(expression, &expected);
        }
        other => panic!("not a LET: {:?}", other),
    }
}

#[test]
fn print_expression_tree_by_value() {
    let program = parse("PRINT 4\n").unwrap();
    let expected = PrintMessage::Expression(Expression {
        first_term: Term {
            unary: Unary {
                operator: None,
                primary: Primary::Int(4),
            },
            components: vec![],
        },
        other_terms: vec![],
    });
    assert!(matches!(&program.statements()[0], Statement::Print(message) if *message == expected));
}

#[test]
fn build_from_tokens_by_hand() {
    let tokens = vec![
        Token::Label,
        Token::Ident("done".to_string()),
        Token::NewLine,
        Token::Goto,
        Token::Ident("done".to_string()),
        Token::NewLine,
    ];
    let mut program = Program::new();
    assert_eq!(program.build(tokens), Ok(()));
    assert_eq!(program.statements().len(), 2);
    let tokens = vec![
        Token::Goto,
        Token::Ident("later".to_string()),
        Token::NewLine,
        Token::Label,
        Token::Ident("later".to_string()),
        Token::NewLine,
    ];
    let mut program = Program::new();
    assert_eq!(program.build(tokens), Err(ParseError::UndeclaredLabel));
}

#[test]
fn comparison_takes_the_token_after_its_left_side() {
    // `THEN` stands where the relation should: it is taken, and the error is the operator's.
    assert_eq!(error_of("IF 1 THEN\nENDIF\n"), ParseError::ExpectedOperator);
}
