use lox::error::{
    decimal, describe, runtime_message, scan_message, static_message, syntax_message, LoxError,
    RuntimeError, RuntimeErrorKind,
};
use lox::grammar::{FunctionKind, SyntaxError};
use lox::interpreter::{number_text, Interpreter};
use lox::lox::Lox;
use lox::object::Object;
use lox::parser::Parser;
use lox::scanner::{ScanError, Scanner};
use lox::scopes::StaticError;
use lox::token::{Literal, Token, TokenType};
use lox::util::Number;

#[test]
fn decimal_numbers() {
    assert_eq!(decimal(0), "0");
    assert_eq!(decimal(7), "7");
    assert_eq!(decimal(10), "10");
    assert_eq!(decimal(255), "255");
    assert_eq!(decimal(1234567890), "1234567890");
    assert_eq!(decimal(usize::MAX), usize::MAX.to_string());
}

#[test]
fn messages_of_scanning_and_static_errors() {
    assert_eq!(scan_message(ScanError::UnexpectedCharacter), "Unexpected character.");
    assert_eq!(scan_message(ScanError::UnterminatedString), "Unterminated");
    assert_eq!(scan_message(ScanError::UnterminatedComment), "Block comment never closed.");
    assert_eq!(
        static_message(StaticError::AlreadyDeclared),
        "Already a variable with this name in this scope."
    );
    assert_eq!(
        static_message(StaticError::ReadInOwnInitializer),
        "Can't read local variable in its own initializer."
    );
    assert_eq!(static_message(StaticError::ReturnAtTopLevel), "Can't return from top-level code.");
    assert_eq!(
        static_message(StaticError::ReturnValueFromInitializer),
        "Can't return a value from an initializer."
    );
    assert_eq!(
        static_message(StaticError::ThisOutsideClass),
        "Can't use 'this' outside of a class."
    );
    assert_eq!(
        static_message(StaticError::SuperOutsideClass),
        "Can't use 'super' outside of a class."
    );
    assert_eq!(
        static_message(StaticError::SuperWithoutSuperclass),
        "Can't use 'super' in a class with no superclass."
    );
    assert_eq!(static_message(StaticError::InheritFromSelf), "A class cannot inherit from itself.");
}

#[test]
fn messages_of_syntax_errors() {
    assert_eq!(syntax_message(SyntaxError::ExpectExpression), "Expect expression.");
    assert_eq!(syntax_message(SyntaxError::InvalidAssignmentTarget), "Invalid assignment target.");
    assert_eq!(
        syntax_message(SyntaxError::TooManyArguments),
        "Can't have more than 255 arguments."
    );
    assert_eq!(
        syntax_message(SyntaxError::TooManyParameters),
        "Can't have more than 255 parameters."
    );
    assert_eq!(
        syntax_message(SyntaxError::ExpectName(FunctionKind::Function)),
        "Expect function name."
    );
    assert_eq!(
        syntax_message(SyntaxError::ExpectName(FunctionKind::Method)),
        "Expect method name."
    );
    assert_eq!(
        syntax_message(SyntaxError::ExpectParenAfterName(FunctionKind::Method)),
        "Expect '(' after method name."
    );
    assert_eq!(
        syntax_message(SyntaxError::ExpectBraceBeforeBody(FunctionKind::Function)),
        "Expect '{' before function body."
    );
    assert_eq!(
        syntax_message(SyntaxError::ExpectSemicolonAfterVariable),
        "Expect ';' after variable declaration."
    );
    assert_eq!(syntax_message(SyntaxError::ExpectBraceAfterBlock), "Expect '}' after block.");
    assert_eq!(
        syntax_message(SyntaxError::ExpectParenAfterArguments),
        "Expect ')' after arguments."
    );
}

#[test]
fn messages_of_runtime_errors() {
    assert_eq!(runtime_message(RuntimeErrorKind::UndefinedVariable, "x"), "Undefined variable 'x'.");
    assert_eq!(runtime_message(RuntimeErrorKind::UndefinedProperty, "p"), "Undefined property 'p'.");
    assert_eq!(
        runtime_message(RuntimeErrorKind::OperandMustBeNumber, "-"),
        "Operand must be a number."
    );
    assert_eq!(
        runtime_message(RuntimeErrorKind::OperandsMustBeNumbers, "*"),
        "Operands must be numbers."
    );
    assert_eq!(
        runtime_message(RuntimeErrorKind::OperandsMustBeNumbersOrStrings, "+"),
        "Operands must be two numbers or two strings."
    );
    assert_eq!(
        runtime_message(RuntimeErrorKind::WrongArity { expected: 2, got: 10 }, ")"),
        "Expected 2 arguments but got 10."
    );
    assert_eq!(
        runtime_message(RuntimeErrorKind::OnlyInstancesHaveProperties, "p"),
        "Only instances have properties."
    );
    assert_eq!(
        runtime_message(RuntimeErrorKind::OnlyInstancesHaveFields, "p"),
        "Only instances have fields."
    );
    assert_eq!(
        runtime_message(RuntimeErrorKind::SuperclassMustBeClass, "A"),
        "Superclass must be a class."
    );
    assert_eq!(
        runtime_message(RuntimeErrorKind::NotCallable, ")"),
        "Callee must be a callable or a class"
    );
}

#[test]
fn a_runtime_error_is_described_with_its_token() {
    let mut scanner = Scanner::new("a\n\nbcd".to_string());
    scanner.scan_tokens();
    let parser = Parser::new(scanner.tokens);
    let error = RuntimeError { kind: RuntimeErrorKind::UndefinedVariable, token: 1 };
    match describe(&parser.ast, error) {
        LoxError::RuntimeError { message, token } => {
            assert_eq!(message, "Undefined variable 'bcd'.");
            let token = token.unwrap();
            assert_eq!(token.lexeme, "bcd");
            assert_eq!(token.line, 3);
        }
        other => panic!("{:?}", other),
    }
}

#[test]
fn lines_for_the_error_sink() {
    let mut lox = Lox::new();
    assert!(!lox.had_error);
    assert_eq!(lox.report(12, "at 'x'", "Boom."), "[line 12] Error at 'x': Boom.");
    assert!(lox.had_error);
    lox.had_error = false;
    assert_eq!(lox.error(3, "Unexpected character."), "[line 3] Error : Unexpected character.");
    assert!(lox.had_error);
    lox.had_error = false;
    let eof = Token::new(TokenType::Eof, String::new(), Literal::Nil, 7);
    assert_eq!(lox.parse_error(&eof, "Expect expression."), "[line 7] Error at end: Expect expression.");
    assert!(lox.had_error);
    let word = Token::new(TokenType::Identifier, "abc".to_string(), Literal::Nil, 1);
    assert_eq!(lox.parse_error(&word, "M"), "[line 1] Error at 'abc': M");
    assert!(!lox.had_runtime_error);
    let error = LoxError::RuntimeError { message: "Oops.".to_string(), token: Some(word) };
    assert_eq!(lox.runtime_error(error), "Oops.\n[line 1]");
    assert!(lox.had_runtime_error);
    let error = LoxError::RuntimeError { message: "Oops.".to_string(), token: None };
    assert_eq!(lox.runtime_error(error), "Oops.");
}

#[test]
fn the_text_of_a_number_loses_a_trailing_zero() {
    assert_eq!(number_text("3.0".to_string()), "3");
    assert_eq!(number_text("3".to_string()), "3");
    assert_eq!(number_text("3.5".to_string()), "3.5");
    assert_eq!(number_text("30".to_string()), "30");
    assert_eq!(number_text("3.00".to_string()), "3.00");
    assert_eq!(number_text(".0".to_string()), "");
    assert_eq!(number_text("0".to_string()), "0");
    assert_eq!(number_text("".to_string()), "");
    assert_eq!(number_text("-1.0".to_string()), "-1");
}

#[test]
fn the_text_of_values() {
    let interpreter = Interpreter::new();
    let heap = &interpreter.heap;
    assert_eq!(lox::interpreter::stringify(heap, &Object::Nil), Some("nil".to_string()));
    assert_eq!(lox::interpreter::stringify(heap, &Object::Boolean(true)), Some("true".to_string()));
    assert_eq!(lox::interpreter::stringify(heap, &Object::Boolean(false)), Some("false".to_string()));
    assert_eq!(lox::interpreter::stringify(heap, &Object::String("s t".to_string())), Some("s t".to_string()));
    assert_eq!(lox::interpreter::stringify(heap, &Object::Number(Number::from_bits(0))), None);
    let clock = heap.environments[0].values.get(&"clock".to_string()).unwrap();
    assert_eq!(lox::interpreter::stringify(heap, clock), Some("<native fn>".to_string()));
}

#[test]
fn every_syntax_error_has_its_message() {
    let table: Vec<(SyntaxError, &str)> = vec![
        (SyntaxError::ExpectClassName, "Expect class name."),
        (SyntaxError::ExpectSuperclassName, "Expect superclass name."),
        (SyntaxError::ExpectBraceBeforeClassBody, "Expect '{' before class body."),
        (SyntaxError::ExpectBraceAfterClassBody, "Expect '}' after class body."),
        (SyntaxError::ExpectName(FunctionKind::Function), "Expect function name."),
        (SyntaxError::ExpectName(FunctionKind::Method), "Expect method name."),
        (
            SyntaxError::ExpectParenAfterName(FunctionKind::Function),
            "Expect '(' after function name.",
        ),
        (SyntaxError::ExpectParenAfterName(FunctionKind::Method), "Expect '(' after method name."),
        (
            SyntaxError::ExpectBraceBeforeBody(FunctionKind::Function),
            "Expect '{' before function body.",
        ),
        (SyntaxError::ExpectBraceBeforeBody(FunctionKind::Method), "Expect '{' before method body."),
        (SyntaxError::TooManyParameters, "Can't have more than 255 parameters."),
        (SyntaxError::ExpectParameterName, "Expect parameter name."),
        (SyntaxError::ExpectParenAfterParameters, "Expect ')' after parameters."),
        (SyntaxError::ExpectVariableName, "Expect variable name."),
        (SyntaxError::ExpectSemicolonAfterVariable, "Expect ';' after variable declaration."),
        (SyntaxError::ExpectSemicolonAfterExpression, "Expect ';' after expression."),
        (SyntaxError::ExpectSemicolonAfterReturn, "Expect ';' after return value."),
        (SyntaxError::ExpectParenAfterFor, "Expect '(' after 'for'."),
        (SyntaxError::ExpectSemicolonAfterLoopCondition, "Expect ';' after loop condition"),
        (SyntaxError::ExpectParenAfterForClauses, "Expect ')' after for clauses."),
        (SyntaxError::ExpectParenAfterIf, "Expect '(' after 'if' ."),
        (SyntaxError::ExpectParenAfterIfCondition, "Expect ')' after if condition."),
        (SyntaxError::ExpectParenAfterWhile, "Expect '(' after 'while'."),
        (SyntaxError::ExpectParenAfterCondition, "Expect ')' after condition."),
        (SyntaxError::ExpectBraceAfterBlock, "Expect '}' after block."),
        (SyntaxError::InvalidAssignmentTarget, "Invalid assignment target."),
        (SyntaxError::TooManyArguments, "Can't have more than 255 arguments."),
        (SyntaxError::ExpectParenAfterArguments, "Expect ')' after arguments."),
        (SyntaxError::ExpectPropertyName, "Expect property name after '.'."),
        (SyntaxError::ExpectDotAfterSuper, "Expect '.' after 'super'."),
        (SyntaxError::ExpectSuperclassMethodName, "Expect superclass method name."),
        (SyntaxError::ExpectParenAfterExpression, "Expect ')' after expression."),
        (SyntaxError::ExpectExpression, "Expect expression."),
    ];
    for (kind, message) in table {
        assert_eq!(syntax_message(kind), message);
    }
}
