use crate::ast::Ast;
use crate::grammar::{FunctionKind, SyntaxError};
use crate::scanner::ScanError;
use crate::scopes::StaticError;
use crate::token::Token;
use vstd::prelude::*;
use vstd::string::*;

verus! {

/// What can go wrong while a program runs.
#[derive(PartialEq, Eq, Structural, Clone, Copy, Debug)]
pub enum RuntimeErrorKind {
    UndefinedVariable,
    OperandMustBeNumber,
    OperandsMustBeNumbers,
    OperandsMustBeNumbersOrStrings,
    NotCallable,
    WrongArity { expected: usize, got: usize },
    OnlyInstancesHaveProperties,
    OnlyInstancesHaveFields,
    UndefinedProperty,
    SuperclassMustBeClass,
}

/// A runtime error and the token it is reported at: the name for an
/// undefined variable or property, the operator or the closing parenthesis
/// otherwise.
#[derive(PartialEq, Eq, Structural, Clone, Copy, Debug)]
pub struct RuntimeError {
    pub kind: RuntimeErrorKind,
    pub token: usize,
}

/// An error as it is handed to the error sink.
#[derive(Debug)]
pub enum LoxError {
    ParseError,
    RuntimeError { message: String, token: Option<Token> },
}

/// The text of a decimal digit.
pub open spec fn digit_text(digit: nat) -> Seq<char> {
    if digit == 0 {
        "0"@
    } else if digit == 1 {
        "1"@
    } else if digit == 2 {
        "2"@
    } else if digit == 3 {
        "3"@
    } else if digit == 4 {
        "4"@
    } else if digit == 5 {
        "5"@
    } else if digit == 6 {
        "6"@
    } else if digit == 7 {
        "7"@
    } else if digit == 8 {
        "8"@
    } else {
        "9"@
    }
}

/// A natural number in decimal, without leading zeros.
pub open spec fn decimal_text(n: nat) -> Seq<char>
    decreases n,
{
    if n < 10 {
        digit_text(n)
    } else {
        decimal_text(n / 10) + digit_text(n % 10)
    }
}

fn digit(value: usize) -> (r: &'static str)
    requires
        value < 10,
    ensures
        r@ == digit_text(value as nat),
{
    if value == 0 {
        "0"
    } else if value == 1 {
        "1"
    } else if value == 2 {
        "2"
    } else if value == 3 {
        "3"
    } else if value == 4 {
        "4"
    } else if value == 5 {
        "5"
    } else if value == 6 {
        "6"
    } else if value == 7 {
        "7"
    } else if value == 8 {
        "8"
    } else {
        "9"
    }
}

/// A number in decimal.
pub fn decimal(n: usize) -> (r: String)
    ensures
        r@ == decimal_text(n as nat),
    decreases n,
{
    if n < 10 {
        String::from_str(digit(n))
    } else {
        decimal(n / 10).concat(digit(n % 10))
    }
}

/// The message of a scanning error.
pub open spec fn scan_text(kind: ScanError) -> Seq<char> {
    match kind {
        ScanError::UnexpectedCharacter => "Unexpected character."@,
        ScanError::UnterminatedString => "Unterminated"@,
        ScanError::UnterminatedComment => "Block comment never closed."@,
    }
}

/// The message of a scanning error.
pub fn scan_message(kind: ScanError) -> (r: &'static str)
    ensures
        r@ == scan_text(kind),
{
    match kind {
        ScanError::UnexpectedCharacter => "Unexpected character.",
        ScanError::UnterminatedString => "Unterminated",
        ScanError::UnterminatedComment => "Block comment never closed.",
    }
}

/// The message of a syntax error.
pub open spec fn syntax_text(kind: SyntaxError) -> Seq<char> {
    match kind {
        SyntaxError::ExpectClassName => "Expect class name."@,
        SyntaxError::ExpectSuperclassName => "Expect superclass name."@,
        SyntaxError::ExpectBraceBeforeClassBody => "Expect '{' before class body."@,
        SyntaxError::ExpectBraceAfterClassBody => "Expect '}' after class body."@,
        SyntaxError::ExpectName(FunctionKind::Function) => "Expect function name."@,
        SyntaxError::ExpectName(FunctionKind::Method) => "Expect method name."@,
        SyntaxError::ExpectParenAfterName(FunctionKind::Function) => "Expect '(' after function name."@,
        SyntaxError::ExpectParenAfterName(FunctionKind::Method) => "Expect '(' after method name."@,
        SyntaxError::ExpectBraceBeforeBody(FunctionKind::Function) => "Expect '{' before function body."@,
        SyntaxError::ExpectBraceBeforeBody(FunctionKind::Method) => "Expect '{' before method body."@,
        SyntaxError::TooManyParameters => "Can't have more than 255 parameters."@,
        SyntaxError::ExpectParameterName => "Expect parameter name."@,
        SyntaxError::ExpectParenAfterParameters => "Expect ')' after parameters."@,
        SyntaxError::ExpectVariableName => "Expect variable name."@,
        SyntaxError::ExpectSemicolonAfterVariable => "Expect ';' after variable declaration."@,
        SyntaxError::ExpectSemicolonAfterExpression => "Expect ';' after expression."@,
        SyntaxError::ExpectSemicolonAfterReturn => "Expect ';' after return value."@,
        SyntaxError::ExpectParenAfterFor => "Expect '(' after 'for'."@,
        SyntaxError::ExpectSemicolonAfterLoopCondition => "Expect ';' after loop condition"@,
        SyntaxError::ExpectParenAfterForClauses => "Expect ')' after for clauses."@,
        SyntaxError::ExpectParenAfterIf => "Expect '(' after 'if' ."@,
        SyntaxError::ExpectParenAfterIfCondition => "Expect ')' after if condition."@,
        SyntaxError::ExpectParenAfterWhile => "Expect '(' after 'while'."@,
        SyntaxError::ExpectParenAfterCondition => "Expect ')' after condition."@,
        SyntaxError::ExpectBraceAfterBlock => "Expect '}' after block."@,
        SyntaxError::InvalidAssignmentTarget => "Invalid assignment target."@,
        SyntaxError::TooManyArguments => "Can't have more than 255 arguments."@,
        SyntaxError::ExpectParenAfterArguments => "Expect ')' after arguments."@,
        SyntaxError::ExpectPropertyName => "Expect property name after '.'."@,
        SyntaxError::ExpectDotAfterSuper => "Expect '.' after 'super'."@,
        SyntaxError::ExpectSuperclassMethodName => "Expect superclass method name."@,
        SyntaxError::ExpectParenAfterExpression => "Expect ')' after expression."@,
        SyntaxError::ExpectExpression => "Expect expression."@,
    }
}

/// The message of a syntax error.
pub fn syntax_message(kind: SyntaxError) -> (r: &'static str)
    ensures
        r@ == syntax_text(kind),
{
    match kind {
        SyntaxError::ExpectClassName => "Expect class name.",
        SyntaxError::ExpectSuperclassName => "Expect superclass name.",
        SyntaxError::ExpectBraceBeforeClassBody => "Expect '{' before class body.",
        SyntaxError::ExpectBraceAfterClassBody => "Expect '}' after class body.",
        SyntaxError::ExpectName(FunctionKind::Function) => "Expect function name.",
        SyntaxError::ExpectName(FunctionKind::Method) => "Expect method name.",
        SyntaxError::ExpectParenAfterName(FunctionKind::Function) => "Expect '(' after function name.",
        SyntaxError::ExpectParenAfterName(FunctionKind::Method) => "Expect '(' after method name.",
        SyntaxError::ExpectBraceBeforeBody(FunctionKind::Function) => "Expect '{' before function body.",
        SyntaxError::ExpectBraceBeforeBody(FunctionKind::Method) => "Expect '{' before method body.",
        SyntaxError::TooManyParameters => "Can't have more than 255 parameters.",
        SyntaxError::ExpectParameterName => "Expect parameter name.",
        SyntaxError::ExpectParenAfterParameters => "Expect ')' after parameters.",
        SyntaxError::ExpectVariableName => "Expect variable name.",
        SyntaxError::ExpectSemicolonAfterVariable => "Expect ';' after variable declaration.",
        SyntaxError::ExpectSemicolonAfterExpression => "Expect ';' after expression.",
        SyntaxError::ExpectSemicolonAfterReturn => "Expect ';' after return value.",
        SyntaxError::ExpectParenAfterFor => "Expect '(' after 'for'.",
        SyntaxError::ExpectSemicolonAfterLoopCondition => "Expect ';' after loop condition",
        SyntaxError::ExpectParenAfterForClauses => "Expect ')' after for clauses.",
        SyntaxError::ExpectParenAfterIf => "Expect '(' after 'if' .",
        SyntaxError::ExpectParenAfterIfCondition => "Expect ')' after if condition.",
        SyntaxError::ExpectParenAfterWhile => "Expect '(' after 'while'.",
        SyntaxError::ExpectParenAfterCondition => "Expect ')' after condition.",
        SyntaxError::ExpectBraceAfterBlock => "Expect '}' after block.",
        SyntaxError::InvalidAssignmentTarget => "Invalid assignment target.",
        SyntaxError::TooManyArguments => "Can't have more than 255 arguments.",
        SyntaxError::ExpectParenAfterArguments => "Expect ')' after arguments.",
        SyntaxError::ExpectPropertyName => "Expect property name after '.'.",
        SyntaxError::ExpectDotAfterSuper => "Expect '.' after 'super'.",
        SyntaxError::ExpectSuperclassMethodName => "Expect superclass method name.",
        SyntaxError::ExpectParenAfterExpression => "Expect ')' after expression.",
        SyntaxError::ExpectExpression => "Expect expression.",
    }
}

/// The message of a static error.
pub open spec fn static_text(kind: StaticError) -> Seq<char> {
    match kind {
        StaticError::AlreadyDeclared => "Already a variable with this name in this scope."@,
        StaticError::ReadInOwnInitializer => "Can't read local variable in its own initializer."@,
        StaticError::ReturnAtTopLevel => "Can't return from top-level code."@,
        StaticError::ReturnValueFromInitializer => "Can't return a value from an initializer."@,
        StaticError::ThisOutsideClass => "Can't use 'this' outside of a class."@,
        StaticError::SuperOutsideClass => "Can't use 'super' outside of a class."@,
        StaticError::SuperWithoutSuperclass => "Can't use 'super' in a class with no superclass."@,
        StaticError::InheritFromSelf => "A class cannot inherit from itself."@,
    }
}

/// The message of a static error.
pub fn static_message(kind: StaticError) -> (r: &'static str)
    ensures
        r@ == static_text(kind),
{
    match kind {
        StaticError::AlreadyDeclared => "Already a variable with this name in this scope.",
        StaticError::ReadInOwnInitializer => "Can't read local variable in its own initializer.",
        StaticError::ReturnAtTopLevel => "Can't return from top-level code.",
        StaticError::ReturnValueFromInitializer => "Can't return a value from an initializer.",
        StaticError::ThisOutsideClass => "Can't use 'this' outside of a class.",
        StaticError::SuperOutsideClass => "Can't use 'super' outside of a class.",
        StaticError::SuperWithoutSuperclass => "Can't use 'super' in a class with no superclass.",
        StaticError::InheritFromSelf => "A class cannot inherit from itself.",
    }
}

/// The message of a runtime error of kind `kind` about the name `name`.
pub open spec fn runtime_text(kind: RuntimeErrorKind, name: Seq<char>) -> Seq<char> {
    match kind {
        RuntimeErrorKind::UndefinedVariable => "Undefined variable '"@ + name + "'."@,
        RuntimeErrorKind::OperandMustBeNumber => "Operand must be a number."@,
        RuntimeErrorKind::OperandsMustBeNumbers => "Operands must be numbers."@,
        RuntimeErrorKind::OperandsMustBeNumbersOrStrings =>
            "Operands must be two numbers or two strings."@,
        RuntimeErrorKind::NotCallable => "Callee must be a callable or a class"@,
        RuntimeErrorKind::WrongArity { expected, got } => "Expected "@ + decimal_text(
            expected as nat,
        ) + " arguments but got "@ + decimal_text(got as nat) + "."@,
        RuntimeErrorKind::OnlyInstancesHaveProperties => "Only instances have properties."@,
        RuntimeErrorKind::OnlyInstancesHaveFields => "Only instances have fields."@,
        RuntimeErrorKind::UndefinedProperty => "Undefined property '"@ + name + "'."@,
        RuntimeErrorKind::SuperclassMustBeClass => "Superclass must be a class."@,
    }
}

/// The message of a runtime error of kind `kind` about the name `name`.
pub fn runtime_message(kind: RuntimeErrorKind, name: &str) -> (r: String)
    ensures
        r@ == runtime_text(kind, name@),
{
    match kind {
        RuntimeErrorKind::UndefinedVariable => String::from_str("Undefined variable '").concat(
            name,
        ).concat("'."),
        RuntimeErrorKind::OperandMustBeNumber => String::from_str("Operand must be a number."),
        RuntimeErrorKind::OperandsMustBeNumbers => String::from_str("Operands must be numbers."),
        RuntimeErrorKind::OperandsMustBeNumbersOrStrings => String::from_str(
            "Operands must be two numbers or two strings.",
        ),
        RuntimeErrorKind::NotCallable => String::from_str("Callee must be a callable or a class"),
        RuntimeErrorKind::WrongArity { expected, got } => String::from_str("Expected ").concat(
            decimal(expected).as_str(),
        ).concat(" arguments but got ").concat(decimal(got).as_str()).concat("."),
        RuntimeErrorKind::OnlyInstancesHaveProperties => String::from_str(
            "Only instances have properties.",
        ),
        RuntimeErrorKind::OnlyInstancesHaveFields => String::from_str(
            "Only instances have fields.",
        ),
        RuntimeErrorKind::UndefinedProperty => String::from_str("Undefined property '").concat(
            name,
        ).concat("'."),
        RuntimeErrorKind::SuperclassMustBeClass => String::from_str("Superclass must be a class."),
    }
}

/// The runtime error `error` as it is handed to the error sink: with its
/// message and the token it is reported at.
pub fn describe(ast: &Ast, error: RuntimeError) -> (r: LoxError)
    requires
        error.token < ast.tokens@.len(),
    ensures
        r matches LoxError::RuntimeError { message, token } && message@ == runtime_text(
            error.kind,
            ast.text(error.token),
        ) && token == Some(ast.tokens@[error.token as int]),
{
    let token: Token = ast.tokens[error.token].clone();
    let message: String = runtime_message(error.kind, token.lexeme.as_str());
    LoxError::RuntimeError { message, token: Some(token) }
}

} // verus!
