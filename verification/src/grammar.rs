use crate::expr::{Constant, Expr, Span};
use crate::stmt::Stmt;
use crate::token::TokenType;
use vstd::prelude::*;

verus! {

/// Whether a function is declared on its own or in a class body.
#[derive(PartialEq, Eq, Structural, Clone, Copy, Debug)]
pub enum FunctionKind {
    Function,
    Method,
}

/// What the parser can find wrong with the tokens.
#[derive(PartialEq, Eq, Structural, Clone, Copy, Debug)]
pub enum SyntaxError {
    ExpectClassName,
    ExpectSuperclassName,
    ExpectBraceBeforeClassBody,
    ExpectBraceAfterClassBody,
    ExpectName(FunctionKind),
    ExpectParenAfterName(FunctionKind),
    ExpectBraceBeforeBody(FunctionKind),
    TooManyParameters,
    ExpectParameterName,
    ExpectParenAfterParameters,
    ExpectVariableName,
    ExpectSemicolonAfterVariable,
    ExpectSemicolonAfterExpression,
    ExpectSemicolonAfterReturn,
    ExpectParenAfterFor,
    ExpectSemicolonAfterLoopCondition,
    ExpectParenAfterForClauses,
    ExpectParenAfterIf,
    ExpectParenAfterIfCondition,
    ExpectParenAfterWhile,
    ExpectParenAfterCondition,
    ExpectBraceAfterBlock,
    InvalidAssignmentTarget,
    TooManyArguments,
    ExpectParenAfterArguments,
    ExpectPropertyName,
    ExpectDotAfterSuper,
    ExpectSuperclassMethodName,
    ExpectParenAfterExpression,
    ExpectExpression,
}

/// A syntax error and the token it was found at.
#[derive(Clone, Copy, Debug, PartialEq, Eq)]
pub struct ParseDiagnostic {
    pub token: usize,
    pub kind: SyntaxError,
}

/// The most parameters a function may declare, and the most arguments a
/// call may pass.
pub const MAX_ARITY: usize = 255;

/// What parsing has got to: the cursor, the nodes and lists made so far, and
/// the errors found so far.
pub struct PState {
    pub current: int,
    pub exprs: Seq<Expr>,
    pub stmts: Seq<Stmt>,
    pub lists: Seq<usize>,
    pub errors: Seq<ParseDiagnostic>,
}

/// The outcome of parsing one node: where parsing has got to, and the node's
/// index, or `None` after a syntax error.
pub struct Parsed {
    pub state: PState,
    pub result: Option<usize>,
}

/// The outcome of parsing a list of nodes.
pub struct ParsedList {
    pub state: PState,
    pub result: Option<Seq<usize>>,
}

impl PState {
    /// The cursor stands on the end-of-file token (or outside the tokens).
    pub open spec fn at_end(self, k: Seq<TokenType>) -> bool {
        !(0 <= self.current < k.len()) || k[self.current] == TokenType::Eof
    }

    /// The cursor stands on a token of kind `t`, which is not the end.
    pub open spec fn check(self, k: Seq<TokenType>, t: TokenType) -> bool {
        !self.at_end(k) && k[self.current] == t
    }

    /// One token further, unless at the end.
    pub open spec fn advance(self, k: Seq<TokenType>) -> PState {
        if self.at_end(k) {
            self
        } else {
            PState { current: self.current + 1, ..self }
        }
    }

    /// With one more error, found at token `token`.
    pub open spec fn report_at(self, token: int, kind: SyntaxError) -> PState {
        PState { errors: self.errors.push(ParseDiagnostic { token: token as usize, kind }), ..self }
    }

    /// With one more error, found at the cursor.
    pub open spec fn report(self, kind: SyntaxError) -> PState {
        self.report_at(self.current, kind)
    }

    /// The outcome of a syntax error in this state.
    pub open spec fn fail(self) -> Parsed {
        Parsed { state: self, result: None }
    }

    /// The outcome of a syntax error in a list, in this state.
    pub open spec fn fail_list(self) -> ParsedList {
        ParsedList { state: self, result: None }
    }

    /// The outcome that gives the node `id` in this state.
    pub open spec fn done(self, id: usize) -> Parsed {
        Parsed { state: self, result: Some(id) }
    }

    /// With one more expression node, whose index is the result.
    pub open spec fn emit_expr(self, e: Expr) -> Parsed {
        Parsed {
            state: PState { exprs: self.exprs.push(e), ..self },
            result: Some(self.exprs.len() as usize),
        }
    }

    /// With one more statement node, whose index is the result.
    pub open spec fn emit_stmt(self, s: Stmt) -> Parsed {
        Parsed {
            state: PState { stmts: self.stmts.push(s), ..self },
            result: Some(self.stmts.len() as usize),
        }
    }

    /// With `items` appended to the list table.
    pub open spec fn emit_list(self, items: Seq<usize>) -> PState {
        PState { lists: self.lists + items, ..self }
    }

    /// The run that `emit_list(items)` appends.
    pub open spec fn next_span(self, items: Seq<usize>) -> Span {
        Span { start: self.lists.len() as usize, len: items.len() as usize }
    }

    /// The cursor has moved on from where `earlier` stood, and is still on a
    /// token. Parsing never moves back, so where this is asked of the state
    /// behind a consumed token it holds.
    pub open spec fn beyond(self, earlier: PState, k: Seq<TokenType>) -> bool {
        earlier.current < self.current < k.len()
    }
}

/// Takes the token at the cursor if it is of kind `t`; reports `error` there
/// if it is not.
pub open spec fn spec_consume(k: Seq<TokenType>, s: PState, t: TokenType, error: SyntaxError)
    -> Parsed {
    if s.check(k, t) {
        s.advance(k).done(s.current as usize)
    } else {
        s.report(error).fail()
    }
}

/// The operators of a precedence level, from the tightest (1: `/ *`) to the
/// loosest (6: `or`).
pub open spec fn level_operator(level: nat, t: TokenType) -> bool {
    if level == 1 {
        t == TokenType::Slash || t == TokenType::Star
    } else if level == 2 {
        t == TokenType::Minus || t == TokenType::Plus
    } else if level == 3 {
        t == TokenType::Greater || t == TokenType::GreaterEqual || t == TokenType::Less || t
            == TokenType::LessEqual
    } else if level == 4 {
        t == TokenType::BangEqual || t == TokenType::EqualEqual
    } else if level == 5 {
        t == TokenType::And
    } else if level == 6 {
        t == TokenType::Or
    } else {
        false
    }
}

/// The node for `left operator right` at a precedence level: `and` and `or`
/// are logical, the rest binary.
pub open spec fn level_node(level: nat, left: usize, operator: usize, right: usize) -> Expr {
    if level >= 5 {
        Expr::Logical { left, operator, right }
    } else {
        Expr::Binary { left, operator, right }
    }
}

/// The precedence level of `/` and `*`.
pub const LEVEL_FACTOR: usize = 1;

/// The precedence level of `-` and `+`.
pub const LEVEL_TERM: usize = 2;

/// The precedence level of `>`, `>=`, `<` and `<=`.
pub const LEVEL_COMPARISON: usize = 3;

/// The precedence level of `!=` and `==`.
pub const LEVEL_EQUALITY: usize = 4;

/// The precedence level of `and`.
pub const LEVEL_AND: usize = 5;

/// The precedence level of `or`.
pub const LEVEL_OR: usize = 6;

/// primary := NUMBER | STRING | "true" | "false" | "nil" | "this" | IDENT
///          | "(" expression ")" | "super" "." IDENT
pub open spec fn spec_primary(k: Seq<TokenType>, s: PState) -> Parsed
    decreases k.len() - s.current, 3int,
{
    if s.check(k, TokenType::False) {
        s.advance(k).emit_expr(Expr::Literal { value: Constant::Boolean(false) })
    } else if s.check(k, TokenType::True) {
        s.advance(k).emit_expr(Expr::Literal { value: Constant::Boolean(true) })
    } else if s.check(k, TokenType::Nil) {
        s.advance(k).emit_expr(Expr::Literal { value: Constant::Nil })
    } else if s.check(k, TokenType::Number) || s.check(k, TokenType::String) {
        s.advance(k).emit_expr(Expr::Literal { value: Constant::OfToken(s.current as usize) })
    } else if s.check(k, TokenType::Super) {
        let dot = spec_consume(k, s.advance(k), TokenType::Dot, SyntaxError::ExpectDotAfterSuper);
        if dot.result is None {
            dot
        } else {
            let method = spec_consume(
                k,
                dot.state,
                TokenType::Identifier,
                SyntaxError::ExpectSuperclassMethodName,
            );
            match method.result {
                None => method,
                Some(name) => method.state.emit_expr(
                    Expr::Super { keyword: s.current as usize, method: name },
                ),
            }
        }
    } else if s.check(k, TokenType::This) {
        s.advance(k).emit_expr(Expr::This { keyword: s.current as usize })
    } else if s.check(k, TokenType::Identifier) {
        s.advance(k).emit_expr(Expr::Variable { name: s.current as usize })
    } else if s.check(k, TokenType::LeftParen) {
        let inner = spec_expression(k, s.advance(k));
        match inner.result {
            None => inner,
            Some(expression) => {
                let close = spec_consume(
                    k,
                    inner.state,
                    TokenType::RightParen,
                    SyntaxError::ExpectParenAfterExpression,
                );
                if close.result is None {
                    close
                } else {
                    close.state.emit_expr(Expr::Grouping { expression })
                }
            },
        }
    } else {
        s.report(SyntaxError::ExpectExpression).fail()
    }
}

/// arguments := expression ("," expression)*, appended to `acc`. An argument
/// beyond the cap is reported where it starts, and parsed all the same.
pub open spec fn spec_arguments(k: Seq<TokenType>, s: PState, acc: Seq<usize>) -> ParsedList
    decreases k.len() - s.current, 16int,
{
    let start = if acc.len() >= MAX_ARITY {
        s.report(SyntaxError::TooManyArguments)
    } else {
        s
    };
    let argument = spec_expression(k, start);
    match argument.result {
        None => argument.state.fail_list(),
        Some(id) => {
            if argument.state.check(k, TokenType::Comma) {
                let next = argument.state.advance(k);
                if next.beyond(s, k) {
                    spec_arguments(k, next, acc.push(id))
                } else {
                    next.fail_list()
                }
            } else {
                ParsedList { state: argument.state, result: Some(acc.push(id)) }
            }
        },
    }
}

/// The rest of a call, behind its `(`.
pub open spec fn spec_finish_call(k: Seq<TokenType>, s: PState, callee: usize) -> Parsed
    decreases k.len() - s.current, 17int,
{
    let arguments = if s.check(k, TokenType::RightParen) {
        ParsedList { state: s, result: Some(Seq::empty()) }
    } else {
        spec_arguments(k, s, Seq::empty())
    };
    match arguments.result {
        None => arguments.state.fail(),
        Some(items) => {
            let close = spec_consume(
                k,
                arguments.state,
                TokenType::RightParen,
                SyntaxError::ExpectParenAfterArguments,
            );
            match close.result {
                None => close,
                Some(paren) => close.state.emit_list(items).emit_expr(
                    Expr::Call { callee, paren, arguments: close.state.next_span(items) },
                ),
            }
        },
    }
}

/// The calls and property accesses that follow the expression `expr`.
pub open spec fn spec_call_rest(k: Seq<TokenType>, s: PState, expr: usize) -> Parsed
    decreases k.len() - s.current, 4int,
{
    if s.check(k, TokenType::LeftParen) {
        let call = spec_finish_call(k, s.advance(k), expr);
        match call.result {
            None => call,
            Some(id) => if call.state.beyond(s, k) {
                spec_call_rest(k, call.state, id)
            } else {
                call.state.fail()
            },
        }
    } else if s.check(k, TokenType::Dot) {
        let name = spec_consume(
            k,
            s.advance(k),
            TokenType::Identifier,
            SyntaxError::ExpectPropertyName,
        );
        match name.result {
            None => name,
            Some(name_token) => {
                let get = name.state.emit_expr(Expr::Get { object: expr, name: name_token });
                if get.state.beyond(s, k) {
                    spec_call_rest(k, get.state, get.result.unwrap())
                } else {
                    get.state.fail()
                }
            },
        }
    } else {
        s.done(expr)
    }
}

/// call := primary ( "(" arguments? ")" | "." IDENT )*
pub open spec fn spec_call(k: Seq<TokenType>, s: PState) -> Parsed
    decreases k.len() - s.current, 4int,
{
    let primary = spec_primary(k, s);
    match primary.result {
        None => primary,
        Some(id) => if primary.state.beyond(s, k) {
            spec_call_rest(k, primary.state, id)
        } else {
            primary.state.fail()
        },
    }
}

/// unary := ("!" | "-") unary | call
pub open spec fn spec_unary(k: Seq<TokenType>, s: PState) -> Parsed
    decreases k.len() - s.current, 5int,
{
    if s.check(k, TokenType::Bang) || s.check(k, TokenType::Minus) {
        let operand = spec_unary(k, s.advance(k));
        match operand.result {
            None => operand,
            Some(right) => operand.state.emit_expr(
                Expr::Unary { operator: s.current as usize, right },
            ),
        }
    } else {
        spec_call(k, s)
    }
}

/// The operators of `level` and their right operands that follow `left`:
/// each operator binds what stands before it, so chains lean to the left.
pub open spec fn spec_binary_rest(k: Seq<TokenType>, s: PState, level: nat, left: usize) -> Parsed
    decreases k.len() - s.current, 6int + level,
{
    if level >= 1 && !s.at_end(k) && level_operator(level, k[s.current]) {
        let operand = spec_binary(k, s.advance(k), (level - 1) as nat);
        match operand.result {
            None => operand,
            Some(right) => {
                let node = operand.state.emit_expr(
                    level_node(level, left, s.current as usize, right),
                );
                if node.state.beyond(s, k) {
                    spec_binary_rest(k, node.state, level, node.result.unwrap())
                } else {
                    node.state.fail()
                }
            },
        }
    } else {
        s.done(left)
    }
}

/// An expression of a precedence level: operands of the next tighter level,
/// joined by the level's operators. Level 0 is `unary`.
pub open spec fn spec_binary(k: Seq<TokenType>, s: PState, level: nat) -> Parsed
    decreases k.len() - s.current, 6int + level,
{
    if level == 0 {
        spec_unary(k, s)
    } else {
        let first = spec_binary(k, s, (level - 1) as nat);
        match first.result {
            None => first,
            Some(left) => if first.state.beyond(s, k) {
                spec_binary_rest(k, first.state, level, left)
            } else {
                first.state.fail()
            },
        }
    }
}

/// What `target = value` means: an assignment to a variable, a store into a
/// property, or nothing.
pub open spec fn assignment_node(target: Expr, value: usize) -> Option<Expr> {
    match target {
        Expr::Variable { name } => Some(Expr::Assign { name, value }),
        Expr::Get { object, name } => Some(Expr::SetProperty { object, name, value }),
        _ => None,
    }
}

/// assignment := (call ".")? IDENT "=" assignment | logic_or
pub open spec fn spec_assignment(k: Seq<TokenType>, s: PState) -> Parsed
    decreases k.len() - s.current, 14int,
{
    let target = spec_binary(k, s, LEVEL_OR as nat);
    match target.result {
        None => target,
        Some(left) => {
            if target.state.check(k, TokenType::Equal) {
                let equals = target.state.current;
                let next = target.state.advance(k);
                if !next.beyond(s, k) {
                    next.fail()
                } else {
                    let value = spec_assignment(k, next);
                    match value.result {
                        None => value,
                        Some(right) => {
                            if left < value.state.exprs.len() {
                                match assignment_node(value.state.exprs[left as int], right) {
                                    Some(node) => value.state.emit_expr(node),
                                    None => value.state.report_at(
                                        equals,
                                        SyntaxError::InvalidAssignmentTarget,
                                    ).fail(),
                                }
                            } else {
                                value.state.fail()
                            }
                        },
                    }
                }
            } else {
                target
            }
        },
    }
}

/// expression := assignment
pub open spec fn spec_expression(k: Seq<TokenType>, s: PState) -> Parsed
    decreases k.len() - s.current, 15int,
{
    spec_assignment(k, s)
}

/// The kinds that start a statement: where parsing picks up after an error.
pub open spec fn is_statement_start(t: TokenType) -> bool {
    t == TokenType::Class || t == TokenType::For || t == TokenType::Fn || t == TokenType::If || t
        == TokenType::Print || t == TokenType::Return || t == TokenType::Var || t
        == TokenType::While
}

/// Skips tokens until the one before the cursor is a semicolon, or the one
/// at the cursor starts a statement or ends the tokens.
pub open spec fn spec_synchronize_rest(k: Seq<TokenType>, s: PState) -> PState
    decreases k.len() - s.current,
{
    if s.at_end(k) {
        s
    } else if s.current >= 1 && k[s.current - 1] == TokenType::Semicolon {
        s
    } else if is_statement_start(k[s.current]) {
        s
    } else {
        spec_synchronize_rest(k, s.advance(k))
    }
}

/// Recovery after a syntax error: one token is given up, then tokens are
/// skipped to the next statement boundary.
pub open spec fn spec_synchronize(k: Seq<TokenType>, s: PState) -> PState {
    spec_synchronize_rest(k, s.advance(k))
}

/// parameters := IDENT ("," IDENT)*, appended to `acc`. A parameter beyond
/// the cap is reported where it stands, and taken all the same.
pub open spec fn spec_parameters(k: Seq<TokenType>, s: PState, acc: Seq<usize>) -> ParsedList
    decreases k.len() - s.current,
{
    let start = if acc.len() >= MAX_ARITY {
        s.report(SyntaxError::TooManyParameters)
    } else {
        s
    };
    let name = spec_consume(k, start, TokenType::Identifier, SyntaxError::ExpectParameterName);
    match name.result {
        None => name.state.fail_list(),
        Some(token) => {
            if name.state.check(k, TokenType::Comma) {
                spec_parameters(k, name.state.advance(k), acc.push(token))
            } else {
                ParsedList { state: name.state, result: Some(acc.push(token)) }
            }
        },
    }
}

/// The `;` that ends a statement, and the statement node.
pub open spec fn spec_finish_statement(
    k: Seq<TokenType>,
    s: PState,
    error: SyntaxError,
    node: Stmt,
) -> Parsed {
    let semicolon = spec_consume(k, s, TokenType::Semicolon, error);
    if semicolon.result is None {
        semicolon
    } else {
        semicolon.state.emit_stmt(node)
    }
}

/// exprStmt := expression ";"
pub open spec fn spec_expression_statement(k: Seq<TokenType>, s: PState) -> Parsed
    decreases k.len() - s.current, 18int,
{
    let value = spec_expression(k, s);
    match value.result {
        None => value,
        Some(expression) => spec_finish_statement(
            k,
            value.state,
            SyntaxError::ExpectSemicolonAfterExpression,
            Stmt::Expression { expression },
        ),
    }
}

/// printStmt := "print" expression ";", behind the keyword.
pub open spec fn spec_print_statement(k: Seq<TokenType>, s: PState) -> Parsed
    decreases k.len() - s.current, 18int,
{
    let value = spec_expression(k, s);
    match value.result {
        None => value,
        Some(expression) => spec_finish_statement(
            k,
            value.state,
            SyntaxError::ExpectSemicolonAfterExpression,
            Stmt::Print { expression },
        ),
    }
}

/// returnStmt := "return" expression? ";", behind the keyword `keyword`.
pub open spec fn spec_return_statement(k: Seq<TokenType>, s: PState, keyword: usize) -> Parsed
    decreases k.len() - s.current, 18int,
{
    if s.check(k, TokenType::Semicolon) {
        spec_finish_statement(
            k,
            s,
            SyntaxError::ExpectSemicolonAfterReturn,
            Stmt::Return { keyword, value: None },
        )
    } else {
        let value = spec_expression(k, s);
        match value.result {
            None => value,
            Some(expression) => spec_finish_statement(
                k,
                value.state,
                SyntaxError::ExpectSemicolonAfterReturn,
                Stmt::Return { keyword, value: Some(expression) },
            ),
        }
    }
}

/// varDecl := "var" IDENT ("=" expression)? ";", behind the keyword.
pub open spec fn spec_var_declaration(k: Seq<TokenType>, s: PState) -> Parsed
    decreases k.len() - s.current, 21int,
{
    let name = spec_consume(k, s, TokenType::Identifier, SyntaxError::ExpectVariableName);
    match name.result {
        None => name,
        Some(token) => {
            if name.state.check(k, TokenType::Equal) {
                let value = spec_expression(k, name.state.advance(k));
                match value.result {
                    None => value,
                    Some(expression) => spec_finish_statement(
                        k,
                        value.state,
                        SyntaxError::ExpectSemicolonAfterVariable,
                        Stmt::Var { name: token, initializer: Some(expression) },
                    ),
                }
            } else {
                spec_finish_statement(
                    k,
                    name.state,
                    SyntaxError::ExpectSemicolonAfterVariable,
                    Stmt::Var { name: token, initializer: None },
                )
            }
        },
    }
}

/// "(" expression ")", as it stands behind `if` and `while`.
pub open spec fn spec_condition(
    k: Seq<TokenType>,
    s: PState,
    before: SyntaxError,
    after: SyntaxError,
) -> Parsed
    decreases k.len() - s.current, 18int,
{
    let open = spec_consume(k, s, TokenType::LeftParen, before);
    if open.result is None {
        open
    } else {
        let condition = spec_expression(k, open.state);
        match condition.result {
            None => condition,
            Some(expression) => {
                let close = spec_consume(k, condition.state, TokenType::RightParen, after);
                if close.result is None {
                    close
                } else {
                    close.state.done(expression)
                }
            },
        }
    }
}

/// whileStmt := "while" "(" expression ")" statement, behind the keyword.
pub open spec fn spec_while_statement(k: Seq<TokenType>, s: PState) -> Parsed
    decreases k.len() - s.current, 19int,
{
    let head = spec_condition(
        k,
        s,
        SyntaxError::ExpectParenAfterWhile,
        SyntaxError::ExpectParenAfterCondition,
    );
    match head.result {
        None => head,
        Some(condition) => if head.state.beyond(s, k) {
            let body = spec_statement(k, head.state);
            match body.result {
                None => body,
                Some(body_id) => body.state.emit_stmt(Stmt::While { condition, body: body_id }),
            }
        } else {
            head.state.fail()
        },
    }
}

/// ifStmt := "if" "(" expression ")" statement ("else" statement)?, behind
/// the keyword. An `else` belongs to the nearest `if`.
pub open spec fn spec_if_statement(k: Seq<TokenType>, s: PState) -> Parsed
    decreases k.len() - s.current, 19int,
{
    let head = spec_condition(
        k,
        s,
        SyntaxError::ExpectParenAfterIf,
        SyntaxError::ExpectParenAfterIfCondition,
    );
    match head.result {
        None => head,
        Some(condition) => if head.state.beyond(s, k) {
            let then = spec_statement(k, head.state);
            match then.result {
                None => then,
                Some(then_branch) => {
                    if then.state.check(k, TokenType::Else) {
                        let next = then.state.advance(k);
                        if next.beyond(s, k) {
                            let otherwise = spec_statement(k, next);
                            match otherwise.result {
                                None => otherwise,
                                Some(else_branch) => otherwise.state.emit_stmt(
                                    Stmt::If {
                                        condition,
                                        then_branch,
                                        else_branch: Some(else_branch),
                                    },
                                ),
                            }
                        } else {
                            next.fail()
                        }
                    } else {
                        then.state.emit_stmt(
                            Stmt::If { condition, then_branch, else_branch: None },
                        )
                    }
                },
            }
        } else {
            head.state.fail()
        },
    }
}

/// With a block of the two statements `first` and `second`.
pub open spec fn emit_pair(s: PState, first: usize, second: usize) -> Parsed {
    let items = seq![first, second];
    s.emit_list(items).emit_stmt(Stmt::Block { statements: s.next_span(items) })
}

/// What a `for` loop stands for: `{ init; while (cond) { body; incr; } }`,
/// without the blocks that a missing clause makes needless, and with `true`
/// for a missing condition.
pub open spec fn spec_desugar_for(
    s: PState,
    initializer: Option<usize>,
    condition: Option<usize>,
    increment: Option<usize>,
    body: usize,
) -> Parsed {
    let stepped = match increment {
        Some(expression) => {
            let step = s.emit_stmt(Stmt::Expression { expression });
            emit_pair(step.state, body, step.result.unwrap())
        },
        None => s.done(body),
    };
    let tested = match condition {
        Some(expression) => stepped.state.done(expression),
        None => stepped.state.emit_expr(Expr::Literal { value: Constant::Boolean(true) }),
    };
    let looped = tested.state.emit_stmt(
        Stmt::While { condition: tested.result.unwrap(), body: stepped.result.unwrap() },
    );
    match initializer {
        Some(first) => emit_pair(looped.state, first, looped.result.unwrap()),
        None => looped,
    }
}

/// The rest of a `for` loop behind its increment clause: ")" statement.
pub open spec fn spec_for_body(
    k: Seq<TokenType>,
    s: PState,
    initializer: Option<usize>,
    condition: Option<usize>,
    increment: Option<usize>,
) -> Parsed
    decreases k.len() - s.current, 19int,
{
    let close = spec_consume(k, s, TokenType::RightParen, SyntaxError::ExpectParenAfterForClauses);
    if close.result is None {
        close
    } else {
        let body = spec_statement(k, close.state);
        match body.result {
            None => body,
            Some(body_id) => spec_desugar_for(
                body.state,
                initializer,
                condition,
                increment,
                body_id,
            ),
        }
    }
}

/// The rest of a `for` loop behind its condition clause: ";" expression?
/// and the body.
pub open spec fn spec_for_increment(
    k: Seq<TokenType>,
    s: PState,
    initializer: Option<usize>,
    condition: Option<usize>,
) -> Parsed
    decreases k.len() - s.current, 19int,
{
    let semicolon = spec_consume(
        k,
        s,
        TokenType::Semicolon,
        SyntaxError::ExpectSemicolonAfterLoopCondition,
    );
    if semicolon.result is None {
        semicolon
    } else if semicolon.state.check(k, TokenType::RightParen) {
        spec_for_body(k, semicolon.state, initializer, condition, None)
    } else {
        let increment = spec_expression(k, semicolon.state);
        match increment.result {
            None => increment,
            Some(expression) => if increment.state.beyond(s, k) {
                spec_for_body(k, increment.state, initializer, condition, Some(expression))
            } else {
                increment.state.fail()
            },
        }
    }
}

/// The rest of a `for` loop behind its initializer clause: expression? and
/// what follows.
pub open spec fn spec_for_condition(k: Seq<TokenType>, s: PState, initializer: Option<usize>)
    -> Parsed
    decreases k.len() - s.current, 20int,
{
    if s.check(k, TokenType::Semicolon) {
        spec_for_increment(k, s, initializer, None)
    } else {
        let condition = spec_expression(k, s);
        match condition.result {
            None => condition,
            Some(expression) => if condition.state.beyond(s, k) {
                spec_for_increment(k, condition.state, initializer, Some(expression))
            } else {
                condition.state.fail()
            },
        }
    }
}

/// forStmt := "for" "(" (varDecl | exprStmt | ";") expression? ";"
///            expression? ")" statement, behind the keyword.
pub open spec fn spec_for_statement(k: Seq<TokenType>, s: PState) -> Parsed
    decreases k.len() - s.current, 22int,
{
    let open = spec_consume(k, s, TokenType::LeftParen, SyntaxError::ExpectParenAfterFor);
    if open.result is None {
        open
    } else if open.state.check(k, TokenType::Semicolon) {
        spec_for_condition(k, open.state.advance(k), None)
    } else {
        let initializer = if open.state.check(k, TokenType::Var) {
            spec_var_declaration(k, open.state.advance(k))
        } else {
            spec_expression_statement(k, open.state)
        };
        match initializer.result {
            None => initializer,
            Some(first) => if initializer.state.beyond(s, k) {
                spec_for_condition(k, initializer.state, Some(first))
            } else {
                initializer.state.fail()
            },
        }
    }
}

/// The declarations of a block up to its "}", appended to `acc`. A
/// declaration that fails leaves no statement, and parsing goes on behind
/// it.
pub open spec fn spec_block_items(k: Seq<TokenType>, s: PState, acc: Seq<usize>) -> ParsedList
    decreases k.len() - s.current, 26int,
{
    if !s.check(k, TokenType::RightBrace) && !s.at_end(k) {
        let item = spec_declaration(k, s);
        let items = match item.result {
            Some(id) => acc.push(id),
            None => acc,
        };
        if item.state.beyond(s, k) {
            spec_block_items(k, item.state, items)
        } else {
            item.state.fail_list()
        }
    } else {
        let close = spec_consume(k, s, TokenType::RightBrace, SyntaxError::ExpectBraceAfterBlock);
        if close.result is None {
            close.state.fail_list()
        } else {
            ParsedList { state: close.state, result: Some(acc) }
        }
    }
}

/// block := "{" declaration* "}", behind the "{".
pub open spec fn spec_block(k: Seq<TokenType>, s: PState) -> ParsedList
    decreases k.len() - s.current, 27int,
{
    spec_block_items(k, s, Seq::empty())
}

/// statement := exprStmt | forStmt | ifStmt | printStmt | returnStmt
///            | whileStmt | block
pub open spec fn spec_statement(k: Seq<TokenType>, s: PState) -> Parsed
    decreases k.len() - s.current, 23int,
{
    if s.check(k, TokenType::For) {
        spec_for_statement(k, s.advance(k))
    } else if s.check(k, TokenType::If) {
        spec_if_statement(k, s.advance(k))
    } else if s.check(k, TokenType::Print) {
        spec_print_statement(k, s.advance(k))
    } else if s.check(k, TokenType::Return) {
        spec_return_statement(k, s.advance(k), s.current as usize)
    } else if s.check(k, TokenType::While) {
        spec_while_statement(k, s.advance(k))
    } else if s.check(k, TokenType::LeftBrace) {
        let block = spec_block(k, s.advance(k));
        match block.result {
            None => block.state.fail(),
            Some(items) => block.state.emit_list(items).emit_stmt(
                Stmt::Block { statements: block.state.next_span(items) },
            ),
        }
    } else {
        spec_expression_statement(k, s)
    }
}

/// function := IDENT "(" parameters? ")" block
pub open spec fn spec_function(k: Seq<TokenType>, s: PState, kind: FunctionKind) -> Parsed
    decreases k.len() - s.current, 24int,
{
    let name = spec_consume(k, s, TokenType::Identifier, SyntaxError::ExpectName(kind));
    match name.result {
        None => name,
        Some(name_token) => {
            let open = spec_consume(
                k,
                name.state,
                TokenType::LeftParen,
                SyntaxError::ExpectParenAfterName(kind),
            );
            if open.result is None {
                open
            } else {
                let params = if open.state.check(k, TokenType::RightParen) {
                    ParsedList { state: open.state, result: Some(Seq::empty()) }
                } else {
                    spec_parameters(k, open.state, Seq::empty())
                };
                match params.result {
                    None => params.state.fail(),
                    Some(names) => {
                        let close = spec_consume(
                            k,
                            params.state,
                            TokenType::RightParen,
                            SyntaxError::ExpectParenAfterParameters,
                        );
                        if close.result is None {
                            close
                        } else {
                            let brace = spec_consume(
                                k,
                                close.state,
                                TokenType::LeftBrace,
                                SyntaxError::ExpectBraceBeforeBody(kind),
                            );
                            if brace.result is None {
                                brace
                            } else if brace.state.beyond(s, k) {
                                let body = spec_block(k, brace.state);
                                match body.result {
                                    None => body.state.fail(),
                                    Some(items) => {
                                        let with_names = body.state.emit_list(names);
                                        with_names.emit_list(items).emit_stmt(
                                            Stmt::Function {
                                                name: name_token,
                                                params: body.state.next_span(names),
                                                body: with_names.next_span(items),
                                            },
                                        )
                                    },
                                }
                            } else {
                                brace.state.fail()
                            }
                        }
                    },
                }
            }
        },
    }
}

/// The methods of a class body up to its "}", appended to `acc`.
pub open spec fn spec_methods(k: Seq<TokenType>, s: PState, acc: Seq<usize>) -> ParsedList
    decreases k.len() - s.current, 25int,
{
    if !s.check(k, TokenType::RightBrace) && !s.at_end(k) {
        let method = spec_function(k, s, FunctionKind::Method);
        match method.result {
            None => method.state.fail_list(),
            Some(id) => if method.state.beyond(s, k) {
                spec_methods(k, method.state, acc.push(id))
            } else {
                method.state.fail_list()
            },
        }
    } else {
        ParsedList { state: s, result: Some(acc) }
    }
}

/// The body of a class: "{" function* "}".
pub open spec fn spec_class_body(
    k: Seq<TokenType>,
    s: PState,
    name: usize,
    superclass: Option<usize>,
) -> Parsed
    decreases k.len() - s.current, 26int,
{
    let brace = spec_consume(k, s, TokenType::LeftBrace, SyntaxError::ExpectBraceBeforeClassBody);
    if brace.result is None {
        brace
    } else {
        let methods = spec_methods(k, brace.state, Seq::empty());
        match methods.result {
            None => methods.state.fail(),
            Some(items) => {
                let close = spec_consume(
                    k,
                    methods.state,
                    TokenType::RightBrace,
                    SyntaxError::ExpectBraceAfterClassBody,
                );
                if close.result is None {
                    close
                } else {
                    close.state.emit_list(items).emit_stmt(
                        Stmt::Class { name, superclass, methods: close.state.next_span(items) },
                    )
                }
            },
        }
    }
}

/// classDecl := "class" IDENT ("<" IDENT)? "{" function* "}", behind the
/// keyword. The superclass is kept as a variable expression.
pub open spec fn spec_class_declaration(k: Seq<TokenType>, s: PState) -> Parsed
    decreases k.len() - s.current, 27int,
{
    let name = spec_consume(k, s, TokenType::Identifier, SyntaxError::ExpectClassName);
    match name.result {
        None => name,
        Some(name_token) => {
            if name.state.check(k, TokenType::Less) {
                let parent = spec_consume(
                    k,
                    name.state.advance(k),
                    TokenType::Identifier,
                    SyntaxError::ExpectSuperclassName,
                );
                match parent.result {
                    None => parent,
                    Some(parent_token) => {
                        let variable = parent.state.emit_expr(Expr::Variable { name: parent_token });
                        spec_class_body(k, variable.state, name_token, variable.result)
                    },
                }
            } else {
                spec_class_body(k, name.state, name_token, None)
            }
        },
    }
}

/// declaration := classDecl | funDecl | varDecl | statement. After a syntax
/// error the parser synchronizes, and the declaration leaves no statement.
pub open spec fn spec_declaration(k: Seq<TokenType>, s: PState) -> Parsed
    decreases k.len() - s.current, 25int,
{
    let parsed = if s.check(k, TokenType::Class) {
        spec_class_declaration(k, s.advance(k))
    } else if s.check(k, TokenType::Fn) {
        spec_function(k, s.advance(k), FunctionKind::Function)
    } else if s.check(k, TokenType::Var) {
        spec_var_declaration(k, s.advance(k))
    } else {
        spec_statement(k, s)
    };
    if parsed.result is None {
        spec_synchronize(k, parsed.state).fail()
    } else {
        parsed
    }
}

/// program := declaration* EOF: the statements of the declarations that
/// parsed, appended to `acc`.
#[verifier::opaque]
pub open spec fn spec_program(k: Seq<TokenType>, s: PState, acc: Seq<usize>) -> ParsedList
    decreases k.len() - s.current,
{
    if !s.at_end(k) {
        let item = spec_declaration(k, s);
        let items = match item.result {
            Some(id) => acc.push(id),
            None => acc,
        };
        if item.state.beyond(s, k) {
            spec_program(k, item.state, items)
        } else {
            item.state.fail_list()
        }
    } else {
        ParsedList { state: s, result: Some(acc) }
    }
}

} // verus!
