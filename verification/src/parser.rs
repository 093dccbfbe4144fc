use crate::ast::{expr_fits, span_below, stmt_fits, Ast};
use crate::expr::{Constant, Expr, Span};
use crate::grammar::{
    emit_pair, level_operator, spec_arguments, spec_assignment, spec_binary, spec_binary_rest,
    spec_block, spec_block_items, spec_call, spec_call_rest, spec_class_declaration, spec_consume,
    spec_declaration, spec_desugar_for, spec_expression, spec_expression_statement,
    spec_finish_call, spec_for_body, spec_for_condition, spec_for_increment, spec_for_statement,
    spec_function, spec_if_statement, spec_methods, spec_parameters, spec_primary,
    spec_print_statement, spec_program, spec_return_statement, spec_statement, spec_synchronize,
    spec_synchronize_rest, spec_unary, spec_var_declaration, spec_while_statement, FunctionKind,
    PState, ParseDiagnostic, Parsed, ParsedList, SyntaxError, LEVEL_AND, LEVEL_COMPARISON,
    LEVEL_EQUALITY, LEVEL_FACTOR, LEVEL_OR, LEVEL_TERM, MAX_ARITY,
};
use crate::stmt::Stmt;
use crate::token::{Token, TokenType};
use vstd::prelude::*;

verus! {

/// The mark of a syntax error: what went wrong is in the parser's error list.
#[derive(Debug)]
pub struct ParseError {}

/// A recursive-descent parser over the tokens of a syntax tree, to which it
/// appends the nodes it makes.
pub struct Parser {
    pub ast: Ast,
    pub current: usize,
    pub errors: Vec<ParseDiagnostic>,
}

impl Parser {
    /// The tree is well formed, its tokens end with an end-of-file token, and
    /// the cursor stands on a token.
    pub open spec fn wf(&self) -> bool {
        &&& self.ast.wf()
        &&& self.current < self.ast.tokens@.len()
        &&& self.ast.tokens@.last().token_type == TokenType::Eof
        &&& forall|i: int|
            0 <= i < self.errors@.len() ==> (#[trigger] self.errors@[i]).token
                < self.ast.tokens@.len()
    }

    /// The kinds of the tokens, in order.
    pub open spec fn kinds(&self) -> Seq<TokenType> {
        self.ast.kinds()
    }

    /// Where parsing has got to.
    pub open spec fn state(&self) -> PState {
        PState {
            current: self.current as int,
            exprs: self.ast.exprs@,
            stmts: self.ast.stmts@,
            lists: self.ast.lists@,
            errors: self.errors@,
        }
    }

    /// The parser reads the same tokens as `pre` and has not gone back: its
    /// cursor is no earlier and it holds no fewer nodes.
    pub open spec fn grown_from(&self, pre: &Parser) -> bool {
        &&& self.wf()
        &&& self.ast.tokens == pre.ast.tokens
        &&& self.current >= pre.current
        &&& self.ast.exprs@.len() >= pre.ast.exprs@.len()
        &&& self.ast.stmts@.len() >= pre.ast.stmts@.len()
        &&& self.ast.extends(&pre.ast)
    }

    /// The parser has got from `pre` to `state`, over the same tokens.
    pub open spec fn follows(&self, pre: &Parser, state: PState) -> bool {
        &&& self.grown_from(pre)
        &&& self.state() == state
    }

    /// The parser has got from `pre` to where `parsed` says, and `r` is the
    /// expression that `parsed` names.
    pub open spec fn gave_expr(
        &self,
        pre: &Parser,
        parsed: Parsed,
        r: Result<usize, ParseError>,
    ) -> bool {
        &&& self.follows(pre, parsed.state)
        &&& match r {
            Ok(id) => parsed.result == Some(id) && id < self.ast.exprs@.len() && self.current
                > pre.current,
            Err(_) => parsed.result is None,
        }
    }

    /// The parser has got from `pre` to where `parsed` says, and `r` is the
    /// statement that `parsed` names.
    pub open spec fn gave_stmt(
        &self,
        pre: &Parser,
        parsed: Parsed,
        r: Result<usize, ParseError>,
    ) -> bool {
        &&& self.follows(pre, parsed.state)
        &&& match r {
            Ok(id) => parsed.result == Some(id) && id < self.ast.stmts@.len() && self.current
                > pre.current,
            Err(_) => parsed.result is None,
        }
    }

    /// The parser has got from `pre` to where `parsed` says, and `r` holds
    /// the statements that `parsed` names.
    pub open spec fn gave_stmts(
        &self,
        pre: &Parser,
        parsed: ParsedList,
        r: Result<Vec<usize>, ParseError>,
    ) -> bool {
        &&& self.follows(pre, parsed.state)
        &&& match r {
            Ok(items) => parsed.result == Some(items@) && self.current > pre.current && forall|
                i: int,
            |
                0 <= i < items@.len() ==> #[trigger] items@[i] < self.ast.stmts@.len(),
            Err(_) => parsed.result is None,
        }
    }

    /// The token at the cursor.
    fn peek(&self) -> (r: &Token)
        requires
            self.wf(),
        ensures
            *r == self.ast.tokens@[self.current as int],
            r.token_type == self.kinds()[self.current as int],
    {
        &self.ast.tokens[self.current]
    }

    /// The token before the cursor.
    fn previous(&self) -> (r: &Token)
        requires
            self.wf(),
            self.current >= 1,
        ensures
            *r == self.ast.tokens@[self.current - 1],
            r.token_type == self.kinds()[self.current - 1],
    {
        &self.ast.tokens[self.current - 1]
    }

    fn is_at_end(&self) -> (r: bool)
        requires
            self.wf(),
        ensures
            r == self.state().at_end(self.kinds()),
    {
        self.peek().token_type == TokenType::Eof
    }

    fn check(&self, token_type: TokenType) -> (r: bool)
        requires
            self.wf(),
        ensures
            r == self.state().check(self.kinds(), token_type),
    {
        if self.is_at_end() {
            return false;
        }
        self.peek().token_type == token_type
    }

    /// Moves one token on, unless at the end.
    fn advance(&mut self)
        requires
            old(self).wf(),
        ensures
            final(self).follows(old(self), old(self).state().advance(old(self).kinds())),
            final(self).ast == old(self).ast,
            final(self).errors == old(self).errors,
            !old(self).state().at_end(old(self).kinds()) ==> final(self).current == old(
                self,
            ).current + 1,
    {
        if !self.is_at_end() {
            let count: usize = self.ast.tokens.len();
            assert(self.current != count - 1);
            self.current += 1;
        }
    }

    /// Moves on if the token at the cursor is of kind `token_type`.
    fn is_match_advance(&mut self, token_type: TokenType) -> (r: bool)
        requires
            old(self).wf(),
        ensures
            r == old(self).state().check(old(self).kinds(), token_type),
            r ==> final(self).follows(old(self), old(self).state().advance(old(self).kinds())),
            r ==> final(self).current == old(self).current + 1,
            !r ==> *final(self) == *old(self),
            final(self).ast == old(self).ast,
            final(self).errors == old(self).errors,
    {
        if self.check(token_type) {
            self.advance();
            return true;
        }
        false
    }

    /// Records an error found at token `token`.
    fn error(&mut self, token: usize, kind: SyntaxError) -> (r: ParseError)
        requires
            old(self).wf(),
            token < old(self).ast.tokens@.len(),
        ensures
            final(self).follows(old(self), old(self).state().report_at(token as int, kind)),
            final(self).ast == old(self).ast,
            final(self).current == old(self).current,
    {
        self.errors.push(ParseDiagnostic { token, kind });
        ParseError {  }
    }

    /// Takes the token at the cursor if it is of kind `token_type`, and
    /// reports `kind` there if it is not.
    fn consume(&mut self, token_type: TokenType, kind: SyntaxError) -> (r: Result<
        usize,
        ParseError,
    >)
        requires
            old(self).wf(),
        ensures
            final(self).follows(
                old(self),
                spec_consume(old(self).kinds(), old(self).state(), token_type, kind).state,
            ),
            final(self).ast == old(self).ast,
            match r {
                Ok(id) => spec_consume(
                    old(self).kinds(),
                    old(self).state(),
                    token_type,
                    kind,
                ).result == Some(id) && id == old(self).current && final(self).current == id + 1,
                Err(_) => spec_consume(
                    old(self).kinds(),
                    old(self).state(),
                    token_type,
                    kind,
                ).result is None,
            },
    {
        if self.check(token_type) {
            let id: usize = self.current;
            self.advance();
            return Ok(id);
        }
        Err(self.error(self.current, kind))
    }

    /// Appends an expression node.
    fn add_expr(&mut self, e: Expr) -> (id: usize)
        requires
            old(self).wf(),
            expr_fits(
                e,
                old(self).ast.exprs@.len() as int,
                old(self).ast.tokens@.len() as int,
                old(self).ast.lists@,
            ),
        ensures
            final(self).follows(old(self), old(self).state().emit_expr(e).state),
            old(self).state().emit_expr(e).result == Some(id),
            id < final(self).ast.exprs@.len(),
            final(self).current == old(self).current,
    {
        self.ast.add_expr(e)
    }

    /// Appends a statement node.
    fn add_stmt(&mut self, s: Stmt) -> (id: usize)
        requires
            old(self).wf(),
            stmt_fits(
                s,
                old(self).ast.stmts@.len() as int,
                old(self).ast.tokens@.len() as int,
                old(self).ast.exprs@.len() as int,
                old(self).ast.lists@,
            ),
        ensures
            final(self).follows(old(self), old(self).state().emit_stmt(s).state),
            old(self).state().emit_stmt(s).result == Some(id),
            id < final(self).ast.stmts@.len(),
            final(self).current == old(self).current,
    {
        self.ast.add_stmt(s)
    }

    /// Appends a list, and says where it stands.
    fn add_list(&mut self, items: &mut Vec<usize>, Ghost(bound): Ghost<int>) -> (span: Span)
        requires
            old(self).wf(),
            forall|i: int| 0 <= i < old(items)@.len() ==> #[trigger] old(items)@[i] < bound,
        ensures
            final(self).follows(old(self), old(self).state().emit_list(old(items)@)),
            span == old(self).state().next_span(old(items)@),
            span_below(final(self).ast.lists@, span, bound),
            final(self).current == old(self).current,
            final(self).ast.exprs == old(self).ast.exprs,
            final(self).ast.stmts == old(self).ast.stmts,
    {
        self.ast.add_list(items, Ghost(bound))
    }
}

impl Parser {
    /// primary := NUMBER | STRING | "true" | "false" | "nil" | "this" | IDENT
    ///          | "(" expression ")" | "super" "." IDENT
    fn primary(&mut self) -> (r: Result<usize, ParseError>)
        requires
            old(self).wf(),
        ensures
            final(self).gave_expr(
                old(self),
                spec_primary(old(self).kinds(), old(self).state()),
                r,
            ),
        decreases old(self).ast.tokens@.len() - old(self).current, 3int,
    {
        let start: usize = self.current;
        if self.is_match_advance(TokenType::False) {
            return Ok(self.add_expr(Expr::Literal { value: Constant::Boolean(false) }));
        }
        if self.is_match_advance(TokenType::True) {
            return Ok(self.add_expr(Expr::Literal { value: Constant::Boolean(true) }));
        }
        if self.is_match_advance(TokenType::Nil) {
            return Ok(self.add_expr(Expr::Literal { value: Constant::Nil }));
        }
        if self.is_match_advance(TokenType::Number) {
            return Ok(self.add_expr(Expr::Literal { value: Constant::OfToken(start) }));
        }
        if self.is_match_advance(TokenType::String) {
            return Ok(self.add_expr(Expr::Literal { value: Constant::OfToken(start) }));
        }
        if self.is_match_advance(TokenType::Super) {
            self.consume(TokenType::Dot, SyntaxError::ExpectDotAfterSuper)?;
            let method: usize = self.consume(
                TokenType::Identifier,
                SyntaxError::ExpectSuperclassMethodName,
            )?;
            return Ok(self.add_expr(Expr::Super { keyword: start, method }));
        }
        if self.is_match_advance(TokenType::This) {
            return Ok(self.add_expr(Expr::This { keyword: start }));
        }
        if self.is_match_advance(TokenType::Identifier) {
            return Ok(self.add_expr(Expr::Variable { name: start }));
        }
        if self.is_match_advance(TokenType::LeftParen) {
            let expression: usize = self.expression()?;
            self.consume(TokenType::RightParen, SyntaxError::ExpectParenAfterExpression)?;
            return Ok(self.add_expr(Expr::Grouping { expression }));
        }
        Err(self.error(self.current, SyntaxError::ExpectExpression))
    }

    /// The rest of a call, behind its `(`: the arguments and the `)`.
    fn finish_call(&mut self, callee: usize) -> (r: Result<usize, ParseError>)
        requires
            old(self).wf(),
            callee < old(self).ast.exprs@.len(),
        ensures
            final(self).gave_expr(
                old(self),
                spec_finish_call(old(self).kinds(), old(self).state(), callee),
                r,
            ),
        decreases old(self).ast.tokens@.len() - old(self).current, 17int,
    {
        let mut arguments: Vec<usize> = Vec::new();
        if !self.check(TokenType::RightParen) {
            let ghost k = self.kinds();
            let ghost whole = spec_arguments(k, self.state(), Seq::empty());
            loop
                invariant_except_break
                    spec_arguments(k, self.state(), arguments@) == whole,
                invariant
                    self.grown_from(old(self)),
                    k == self.kinds(),
                    callee < self.ast.exprs@.len(),
                    forall|i: int|
                        0 <= i < arguments@.len() ==> #[trigger] arguments@[i]
                            < self.ast.exprs@.len(),
                    k == old(self).kinds(),
                    !old(self).state().check(k, TokenType::RightParen),
                    whole == spec_arguments(k, old(self).state(), Seq::empty()),
                ensures
                    self.grown_from(old(self)),
                    self.current > old(self).current,
                    callee < self.ast.exprs@.len(),
                    forall|i: int|
                        0 <= i < arguments@.len() ==> #[trigger] arguments@[i]
                            < self.ast.exprs@.len(),
                    whole == (ParsedList { state: self.state(), result: Some(arguments@) }),
                decreases self.ast.tokens@.len() - self.current,
            {
                if arguments.len() >= MAX_ARITY {
                    self.error(self.current, SyntaxError::TooManyArguments);
                }
                let argument: usize = self.expression()?;
                arguments.push(argument);
                if !self.is_match_advance(TokenType::Comma) {
                    break ;
                }
            }
        }
        let paren: usize = self.consume(
            TokenType::RightParen,
            SyntaxError::ExpectParenAfterArguments,
        )?;
        let ghost bound = self.ast.exprs@.len() as int;
        let span: Span = self.add_list(&mut arguments, Ghost(bound));
        Ok(self.add_expr(Expr::Call { callee, paren, arguments: span }))
    }

    /// call := primary ( "(" arguments? ")" | "." IDENT )*
    fn call(&mut self) -> (r: Result<usize, ParseError>)
        requires
            old(self).wf(),
        ensures
            final(self).gave_expr(old(self), spec_call(old(self).kinds(), old(self).state()), r),
        decreases old(self).ast.tokens@.len() - old(self).current, 4int,
    {
        let mut expr: usize = self.primary()?;
        let ghost k = self.kinds();
        let ghost whole = spec_call_rest(k, self.state(), expr);
        loop
            invariant
                self.grown_from(old(self)),
                self.current > old(self).current,
                k == self.kinds(),
                expr < self.ast.exprs@.len(),
                spec_call_rest(k, self.state(), expr) == whole,
                k == old(self).kinds(),
                spec_call(k, old(self).state()) == whole,
            ensures
                self.grown_from(old(self)),
                self.current > old(self).current,
                expr < self.ast.exprs@.len(),
                whole == self.state().done(expr),
            decreases self.ast.tokens@.len() - self.current,
        {
            if self.is_match_advance(TokenType::LeftParen) {
                expr = self.finish_call(expr)?;
            } else if self.is_match_advance(TokenType::Dot) {
                let name: usize = self.consume(
                    TokenType::Identifier,
                    SyntaxError::ExpectPropertyName,
                )?;
                expr = self.add_expr(Expr::Get { object: expr, name });
            } else {
                break ;
            }
        }
        Ok(expr)
    }

    /// unary := ("!" | "-") unary | call
    fn unary(&mut self) -> (r: Result<usize, ParseError>)
        requires
            old(self).wf(),
        ensures
            final(self).gave_expr(old(self), spec_unary(old(self).kinds(), old(self).state()), r),
        decreases old(self).ast.tokens@.len() - old(self).current, 5int,
    {
        let operator: usize = self.current;
        if self.is_match_advance(TokenType::Bang) || self.is_match_advance(TokenType::Minus) {
            let right: usize = self.unary()?;
            return Ok(self.add_expr(Expr::Unary { operator, right }));
        }
        self.call()
    }

    /// Whether the token at the cursor is an operator of `level`.
    fn check_operator(&self, level: usize) -> (r: bool)
        requires
            self.wf(),
        ensures
            r == (!self.state().at_end(self.kinds()) && level_operator(
                level as nat,
                self.kinds()[self.current as int],
            )),
    {
        if level == LEVEL_FACTOR {
            self.check(TokenType::Slash) || self.check(TokenType::Star)
        } else if level == LEVEL_TERM {
            self.check(TokenType::Minus) || self.check(TokenType::Plus)
        } else if level == LEVEL_COMPARISON {
            self.check(TokenType::Greater) || self.check(TokenType::GreaterEqual) || self.check(
                TokenType::Less,
            ) || self.check(TokenType::LessEqual)
        } else if level == LEVEL_EQUALITY {
            self.check(TokenType::BangEqual) || self.check(TokenType::EqualEqual)
        } else if level == LEVEL_AND {
            self.check(TokenType::And)
        } else if level == LEVEL_OR {
            self.check(TokenType::Or)
        } else {
            false
        }
    }

    /// An expression of a precedence level: operands of the next tighter
    /// level, joined by the level's operators, leaning to the left.
    fn binary(&mut self, level: usize) -> (r: Result<usize, ParseError>)
        requires
            old(self).wf(),
            level <= LEVEL_OR,
        ensures
            final(self).gave_expr(
                old(self),
                spec_binary(old(self).kinds(), old(self).state(), level as nat),
                r,
            ),
        decreases old(self).ast.tokens@.len() - old(self).current, 6int + level,
    {
        if level == 0 {
            return self.unary();
        }
        let mut expr: usize = self.binary(level - 1)?;
        let ghost k = self.kinds();
        let ghost whole = spec_binary_rest(k, self.state(), level as nat, expr);
        while self.check_operator(level)
            invariant
                self.grown_from(old(self)),
                self.current > old(self).current,
                k == self.kinds(),
                1 <= level <= LEVEL_OR,
                expr < self.ast.exprs@.len(),
                spec_binary_rest(k, self.state(), level as nat, expr) == whole,
                k == old(self).kinds(),
                spec_binary(k, old(self).state(), level as nat) == whole,
            decreases self.ast.tokens@.len() - self.current,
        {
            let operator: usize = self.current;
            self.advance();
            let right: usize = self.binary(level - 1)?;
            let node: Expr = if level >= LEVEL_AND {
                Expr::Logical { left: expr, operator, right }
            } else {
                Expr::Binary { left: expr, operator, right }
            };
            expr = self.add_expr(node);
        }
        Ok(expr)
    }

    /// logic_or := logic_and ("or" logic_and)*
    fn or(&mut self) -> (r: Result<usize, ParseError>)
        requires
            old(self).wf(),
        ensures
            final(self).gave_expr(
                old(self),
                spec_binary(old(self).kinds(), old(self).state(), LEVEL_OR as nat),
                r,
            ),
        decreases old(self).ast.tokens@.len() - old(self).current, 13int,
    {
        self.binary(LEVEL_OR)
    }

    /// assignment := (call ".")? IDENT "=" assignment | logic_or
    fn assignment(&mut self) -> (r: Result<usize, ParseError>)
        requires
            old(self).wf(),
        ensures
            final(self).gave_expr(
                old(self),
                spec_assignment(old(self).kinds(), old(self).state()),
                r,
            ),
        decreases old(self).ast.tokens@.len() - old(self).current, 14int,
    {
        let expr: usize = self.or()?;
        if self.check(TokenType::Equal) {
            let equals: usize = self.current;
            self.advance();
            let value: usize = self.assignment()?;
            let target: Expr = self.ast.exprs[expr];
            proof {
                self.ast.lemma_expr_fits(expr as int);
            }
            return match target {
                Expr::Variable { name } => Ok(self.add_expr(Expr::Assign { name, value })),
                Expr::Get { object, name } => Ok(
                    self.add_expr(Expr::SetProperty { object, name, value }),
                ),
                _ => Err(self.error(equals, SyntaxError::InvalidAssignmentTarget)),
            };
        }
        Ok(expr)
    }

    /// expression := assignment
    fn expression(&mut self) -> (r: Result<usize, ParseError>)
        requires
            old(self).wf(),
        ensures
            final(self).gave_expr(
                old(self),
                spec_expression(old(self).kinds(), old(self).state()),
                r,
            ),
        decreases old(self).ast.tokens@.len() - old(self).current, 15int,
    {
        self.assignment()
    }
}

impl Parser {
    /// Recovery after a syntax error: gives up one token, then skips to the
    /// next statement boundary.
    fn synchronize(&mut self)
        requires
            old(self).wf(),
        ensures
            final(self).follows(old(self), spec_synchronize(old(self).kinds(), old(self).state())),
            !old(self).state().at_end(old(self).kinds()) ==> final(self).current > old(
                self,
            ).current,
    {
        self.advance();
        let ghost k = self.kinds();
        let ghost whole = spec_synchronize_rest(k, self.state());
        while !self.is_at_end()
            invariant
                self.grown_from(old(self)),
                k == self.kinds(),
                self.ast == old(self).ast,
                self.errors == old(self).errors,
                !old(self).state().at_end(k) ==> self.current > old(self).current,
                spec_synchronize_rest(k, self.state()) == whole,
                k == old(self).kinds(),
                whole == spec_synchronize(k, old(self).state()),
            decreases self.ast.tokens@.len() - self.current,
        {
            if self.current >= 1 && self.previous().token_type == TokenType::Semicolon {
                return ;
            }
            match self.peek().token_type {
                TokenType::Class
                | TokenType::For
                | TokenType::Fn
                | TokenType::If
                | TokenType::Print
                | TokenType::Return
                | TokenType::Var
                | TokenType::While => {
                    return ;
                },
                _ => {},
            }
            self.advance();
        }
    }

    /// Takes the `;` that ends a statement and appends the statement node.
    fn finish_statement(&mut self, kind: SyntaxError, node: Stmt) -> (r: Result<usize, ParseError>)
        requires
            old(self).wf(),
            stmt_fits(
                node,
                old(self).ast.stmts@.len() as int,
                old(self).ast.tokens@.len() as int,
                old(self).ast.exprs@.len() as int,
                old(self).ast.lists@,
            ),
        ensures
            final(self).gave_stmt(
                old(self),
                crate::grammar::spec_finish_statement(
                    old(self).kinds(),
                    old(self).state(),
                    kind,
                    node,
                ),
                r,
            ),
    {
        self.consume(TokenType::Semicolon, kind)?;
        Ok(self.add_stmt(node))
    }

    /// exprStmt := expression ";"
    fn expression_statement(&mut self) -> (r: Result<usize, ParseError>)
        requires
            old(self).wf(),
        ensures
            final(self).gave_stmt(
                old(self),
                spec_expression_statement(old(self).kinds(), old(self).state()),
                r,
            ),
        decreases old(self).ast.tokens@.len() - old(self).current, 18int,
    {
        let expression: usize = self.expression()?;
        self.finish_statement(
            SyntaxError::ExpectSemicolonAfterExpression,
            Stmt::Expression { expression },
        )
    }

    /// printStmt := "print" expression ";", behind the keyword.
    fn print_statement(&mut self) -> (r: Result<usize, ParseError>)
        requires
            old(self).wf(),
        ensures
            final(self).gave_stmt(
                old(self),
                spec_print_statement(old(self).kinds(), old(self).state()),
                r,
            ),
        decreases old(self).ast.tokens@.len() - old(self).current, 18int,
    {
        let expression: usize = self.expression()?;
        self.finish_statement(SyntaxError::ExpectSemicolonAfterExpression, Stmt::Print { expression })
    }

    /// returnStmt := "return" expression? ";", behind the keyword.
    fn return_statement(&mut self, keyword: usize) -> (r: Result<usize, ParseError>)
        requires
            old(self).wf(),
            keyword < old(self).ast.tokens@.len(),
        ensures
            final(self).gave_stmt(
                old(self),
                spec_return_statement(old(self).kinds(), old(self).state(), keyword),
                r,
            ),
        decreases old(self).ast.tokens@.len() - old(self).current, 18int,
    {
        let value: Option<usize> = if self.check(TokenType::Semicolon) {
            None
        } else {
            Some(self.expression()?)
        };
        self.finish_statement(
            SyntaxError::ExpectSemicolonAfterReturn,
            Stmt::Return { keyword, value },
        )
    }

    /// varDecl := "var" IDENT ("=" expression)? ";", behind the keyword.
    fn var_declaration(&mut self) -> (r: Result<usize, ParseError>)
        requires
            old(self).wf(),
        ensures
            final(self).gave_stmt(
                old(self),
                spec_var_declaration(old(self).kinds(), old(self).state()),
                r,
            ),
        decreases old(self).ast.tokens@.len() - old(self).current, 21int,
    {
        let name: usize = self.consume(TokenType::Identifier, SyntaxError::ExpectVariableName)?;
        let initializer: Option<usize> = if self.is_match_advance(TokenType::Equal) {
            Some(self.expression()?)
        } else {
            None
        };
        self.finish_statement(
            SyntaxError::ExpectSemicolonAfterVariable,
            Stmt::Var { name, initializer },
        )
    }

    /// whileStmt := "while" "(" expression ")" statement, behind the keyword.
    fn while_statement(&mut self) -> (r: Result<usize, ParseError>)
        requires
            old(self).wf(),
        ensures
            final(self).gave_stmt(
                old(self),
                spec_while_statement(old(self).kinds(), old(self).state()),
                r,
            ),
        decreases old(self).ast.tokens@.len() - old(self).current, 19int,
    {
        self.consume(TokenType::LeftParen, SyntaxError::ExpectParenAfterWhile)?;
        let condition: usize = self.expression()?;
        self.consume(TokenType::RightParen, SyntaxError::ExpectParenAfterCondition)?;
        let body: usize = self.statement()?;
        Ok(self.add_stmt(Stmt::While { condition, body }))
    }

    /// ifStmt := "if" "(" expression ")" statement ("else" statement)?,
    /// behind the keyword.
    fn if_statement(&mut self) -> (r: Result<usize, ParseError>)
        requires
            old(self).wf(),
        ensures
            final(self).gave_stmt(
                old(self),
                spec_if_statement(old(self).kinds(), old(self).state()),
                r,
            ),
        decreases old(self).ast.tokens@.len() - old(self).current, 19int,
    {
        self.consume(TokenType::LeftParen, SyntaxError::ExpectParenAfterIf)?;
        let condition: usize = self.expression()?;
        self.consume(TokenType::RightParen, SyntaxError::ExpectParenAfterIfCondition)?;
        let then_branch: usize = self.statement()?;
        let else_branch: Option<usize> = if self.is_match_advance(TokenType::Else) {
            Some(self.statement()?)
        } else {
            None
        };
        Ok(self.add_stmt(Stmt::If { condition, then_branch, else_branch }))
    }

    /// Appends a block of the two statements `first` and `second`.
    fn add_pair(&mut self, first: usize, second: usize) -> (id: usize)
        requires
            old(self).wf(),
            first < old(self).ast.stmts@.len(),
            second < old(self).ast.stmts@.len(),
        ensures
            final(self).follows(old(self), emit_pair(old(self).state(), first, second).state),
            emit_pair(old(self).state(), first, second).result == Some(id),
            id < final(self).ast.stmts@.len(),
            final(self).current == old(self).current,
    {
        let mut items: Vec<usize> = Vec::new();
        items.push(first);
        items.push(second);
        assert(items@ =~= seq![first, second]);
        let ghost bound = self.ast.stmts@.len() as int;
        let statements: Span = self.add_list(&mut items, Ghost(bound));
        self.add_stmt(Stmt::Block { statements })
    }

    /// Builds what a `for` loop stands for from its clauses and its body.
    fn desugar_for(
        &mut self,
        initializer: Option<usize>,
        condition: Option<usize>,
        increment: Option<usize>,
        body: usize,
    ) -> (id: usize)
        requires
            old(self).wf(),
            crate::ast::option_below(initializer, old(self).ast.stmts@.len() as int),
            crate::ast::option_below(condition, old(self).ast.exprs@.len() as int),
            crate::ast::option_below(increment, old(self).ast.exprs@.len() as int),
            body < old(self).ast.stmts@.len(),
        ensures
            final(self).follows(
                old(self),
                spec_desugar_for(old(self).state(), initializer, condition, increment, body).state,
            ),
            spec_desugar_for(old(self).state(), initializer, condition, increment, body).result
                == Some(id),
            id < final(self).ast.stmts@.len(),
            final(self).current == old(self).current,
    {
        let stepped: usize = match increment {
            Some(expression) => {
                let step: usize = self.add_stmt(Stmt::Expression { expression });
                self.add_pair(body, step)
            },
            None => body,
        };
        let tested: usize = match condition {
            Some(expression) => expression,
            None => self.add_expr(Expr::Literal { value: Constant::Boolean(true) }),
        };
        let looped: usize = self.add_stmt(Stmt::While { condition: tested, body: stepped });
        match initializer {
            Some(first) => self.add_pair(first, looped),
            None => looped,
        }
    }

    /// The rest of a `for` loop behind its increment clause: ")" statement.
    fn for_body(
        &mut self,
        initializer: Option<usize>,
        condition: Option<usize>,
        increment: Option<usize>,
    ) -> (r: Result<usize, ParseError>)
        requires
            old(self).wf(),
            crate::ast::option_below(initializer, old(self).ast.stmts@.len() as int),
            crate::ast::option_below(condition, old(self).ast.exprs@.len() as int),
            crate::ast::option_below(increment, old(self).ast.exprs@.len() as int),
        ensures
            final(self).gave_stmt(
                old(self),
                spec_for_body(
                    old(self).kinds(),
                    old(self).state(),
                    initializer,
                    condition,
                    increment,
                ),
                r,
            ),
        decreases old(self).ast.tokens@.len() - old(self).current, 19int,
    {
        self.consume(TokenType::RightParen, SyntaxError::ExpectParenAfterForClauses)?;
        let body: usize = self.statement()?;
        Ok(self.desugar_for(initializer, condition, increment, body))
    }

    /// The rest of a `for` loop behind its condition clause.
    fn for_increment(&mut self, initializer: Option<usize>, condition: Option<usize>) -> (r:
        Result<usize, ParseError>)
        requires
            old(self).wf(),
            crate::ast::option_below(initializer, old(self).ast.stmts@.len() as int),
            crate::ast::option_below(condition, old(self).ast.exprs@.len() as int),
        ensures
            final(self).gave_stmt(
                old(self),
                spec_for_increment(old(self).kinds(), old(self).state(), initializer, condition),
                r,
            ),
        decreases old(self).ast.tokens@.len() - old(self).current, 19int,
    {
        self.consume(TokenType::Semicolon, SyntaxError::ExpectSemicolonAfterLoopCondition)?;
        let increment: Option<usize> = if self.check(TokenType::RightParen) {
            None
        } else {
            Some(self.expression()?)
        };
        self.for_body(initializer, condition, increment)
    }

    /// The rest of a `for` loop behind its initializer clause.
    fn for_condition(&mut self, initializer: Option<usize>) -> (r: Result<usize, ParseError>)
        requires
            old(self).wf(),
            crate::ast::option_below(initializer, old(self).ast.stmts@.len() as int),
        ensures
            final(self).follows(
                old(self),
                spec_for_condition(old(self).kinds(), old(self).state(), initializer).state,
            ),
            match r {
                Ok(id) => spec_for_condition(
                    old(self).kinds(),
                    old(self).state(),
                    initializer,
                ).result == Some(id) && id < final(self).ast.stmts@.len() && final(self).current
                    > old(self).current,
                Err(_) => spec_for_condition(
                    old(self).kinds(),
                    old(self).state(),
                    initializer,
                ).result is None,
            },
        decreases old(self).ast.tokens@.len() - old(self).current, 20int,
    {
        let condition: Option<usize> = if self.check(TokenType::Semicolon) {
            None
        } else {
            Some(self.expression()?)
        };
        self.for_increment(initializer, condition)
    }

    /// forStmt := "for" "(" (varDecl | exprStmt | ";") expression? ";"
    ///            expression? ")" statement, behind the keyword.
    fn for_statement(&mut self) -> (r: Result<usize, ParseError>)
        requires
            old(self).wf(),
        ensures
            final(self).gave_stmt(
                old(self),
                spec_for_statement(old(self).kinds(), old(self).state()),
                r,
            ),
        decreases old(self).ast.tokens@.len() - old(self).current, 22int,
    {
        self.consume(TokenType::LeftParen, SyntaxError::ExpectParenAfterFor)?;
        let initializer: Option<usize> = if self.is_match_advance(TokenType::Semicolon) {
            None
        } else if self.is_match_advance(TokenType::Var) {
            Some(self.var_declaration()?)
        } else {
            Some(self.expression_statement()?)
        };
        self.for_condition(initializer)
    }

    /// block := "{" declaration* "}", behind the "{".
    fn block(&mut self) -> (r: Result<Vec<usize>, ParseError>)
        requires
            old(self).wf(),
        ensures
            final(self).gave_stmts(old(self), spec_block(old(self).kinds(), old(self).state()), r),
        decreases old(self).ast.tokens@.len() - old(self).current, 27int,
    {
        let mut statements: Vec<usize> = Vec::new();
        let ghost k = self.kinds();
        let ghost whole = spec_block_items(k, self.state(), Seq::empty());
        while !self.check(TokenType::RightBrace) && !self.is_at_end()
            invariant
                self.grown_from(old(self)),
                k == self.kinds(),
                forall|i: int|
                    0 <= i < statements@.len() ==> #[trigger] statements@[i]
                        < self.ast.stmts@.len(),
                spec_block_items(k, self.state(), statements@) == whole,
            decreases self.ast.tokens@.len() - self.current,
        {
            match self.declaration() {
                Some(id) => {
                    statements.push(id);
                },
                None => {},
            }
        }
        self.consume(TokenType::RightBrace, SyntaxError::ExpectBraceAfterBlock)?;
        Ok(statements)
    }

    /// statement := exprStmt | forStmt | ifStmt | printStmt | returnStmt
    ///            | whileStmt | block
    fn statement(&mut self) -> (r: Result<usize, ParseError>)
        requires
            old(self).wf(),
        ensures
            final(self).gave_stmt(
                old(self),
                spec_statement(old(self).kinds(), old(self).state()),
                r,
            ),
        decreases old(self).ast.tokens@.len() - old(self).current, 23int,
    {
        let start: usize = self.current;
        if self.is_match_advance(TokenType::For) {
            return self.for_statement();
        }
        if self.is_match_advance(TokenType::If) {
            return self.if_statement();
        }
        if self.is_match_advance(TokenType::Print) {
            return self.print_statement();
        }
        if self.is_match_advance(TokenType::Return) {
            return self.return_statement(start);
        }
        if self.is_match_advance(TokenType::While) {
            return self.while_statement();
        }
        if self.is_match_advance(TokenType::LeftBrace) {
            let mut items: Vec<usize> = self.block()?;
            let ghost bound = self.ast.stmts@.len() as int;
            let statements: Span = self.add_list(&mut items, Ghost(bound));
            return Ok(self.add_stmt(Stmt::Block { statements }));
        }
        self.expression_statement()
    }

    /// function := IDENT "(" parameters? ")" block
    fn function(&mut self, kind: FunctionKind) -> (r: Result<usize, ParseError>)
        requires
            old(self).wf(),
        ensures
            final(self).gave_stmt(
                old(self),
                spec_function(old(self).kinds(), old(self).state(), kind),
                r,
            ),
        decreases old(self).ast.tokens@.len() - old(self).current, 24int,
    {
        let name: usize = self.consume(TokenType::Identifier, SyntaxError::ExpectName(kind))?;
        self.consume(TokenType::LeftParen, SyntaxError::ExpectParenAfterName(kind))?;
        let mut params: Vec<usize> = Vec::new();
        if !self.check(TokenType::RightParen) {
            let ghost k = self.kinds();
            let ghost before = self.state();
            let ghost whole = spec_parameters(k, self.state(), Seq::empty());
            loop
                invariant_except_break
                    spec_parameters(k, self.state(), params@) == whole,
                invariant
                    self.grown_from(old(self)),
                    self.current > old(self).current,
                    self.ast == old(self).ast,
                    k == self.kinds(),
                    forall|i: int|
                        0 <= i < params@.len() ==> #[trigger] params@[i] < self.ast.tokens@.len(),
                    k == old(self).kinds(),
                    whole.result is None ==> spec_function(k, old(self).state(), kind)
                        == whole.state.fail(),
                ensures
                    whole == (ParsedList { state: self.state(), result: Some(params@) }),
                decreases self.ast.tokens@.len() - self.current,
            {
                if params.len() >= MAX_ARITY {
                    self.error(self.current, SyntaxError::TooManyParameters);
                }
                let parameter = self.consume(
                    TokenType::Identifier,
                    SyntaxError::ExpectParameterName,
                );
                match parameter {
                    Ok(token) => {
                        params.push(token);
                    },
                    Err(e) => {
                        assert(whole.result is None);
                        assert(whole.state == self.state());
                        return Err(e);
                    },
                }
                if !self.is_match_advance(TokenType::Comma) {
                    break ;
                }
            }
        }
        self.consume(TokenType::RightParen, SyntaxError::ExpectParenAfterParameters)?;
        self.consume(TokenType::LeftBrace, SyntaxError::ExpectBraceBeforeBody(kind))?;
        let mut body: Vec<usize> = self.block()?;
        let ghost token_bound = self.ast.tokens@.len() as int;
        let ghost bound = self.ast.stmts@.len() as int;
        let params_span: Span = self.add_list(&mut params, Ghost(token_bound));
        let body_span: Span = self.add_list(&mut body, Ghost(bound));
        Ok(self.add_stmt(Stmt::Function { name, params: params_span, body: body_span }))
    }

    /// classDecl := "class" IDENT ("<" IDENT)? "{" function* "}", behind the
    /// keyword.
    fn class_declaration(&mut self) -> (r: Result<usize, ParseError>)
        requires
            old(self).wf(),
        ensures
            final(self).gave_stmt(
                old(self),
                spec_class_declaration(old(self).kinds(), old(self).state()),
                r,
            ),
        decreases old(self).ast.tokens@.len() - old(self).current, 27int,
    {
        let name: usize = self.consume(TokenType::Identifier, SyntaxError::ExpectClassName)?;
        let superclass: Option<usize> = if self.is_match_advance(TokenType::Less) {
            let parent: usize = self.consume(
                TokenType::Identifier,
                SyntaxError::ExpectSuperclassName,
            )?;
            Some(self.add_expr(Expr::Variable { name: parent }))
        } else {
            None
        };
        self.consume(TokenType::LeftBrace, SyntaxError::ExpectBraceBeforeClassBody)?;
        let mut methods: Vec<usize> = Vec::new();
        let ghost k = self.kinds();
        let ghost whole = spec_methods(k, self.state(), Seq::empty());
        while !self.check(TokenType::RightBrace) && !self.is_at_end()
            invariant
                self.grown_from(old(self)),
                self.current > old(self).current,
                k == self.kinds(),
                name < self.ast.tokens@.len(),
                crate::ast::option_below(superclass, self.ast.exprs@.len() as int),
                forall|i: int|
                    0 <= i < methods@.len() ==> #[trigger] methods@[i] < self.ast.stmts@.len(),
                spec_methods(k, self.state(), methods@) == whole,
                spec_class_declaration(k, old(self).state()).result is None <== whole.result
                    is None,
                whole.result is None ==> spec_class_declaration(k, old(self).state()).state
                    == whole.state,
                k == old(self).kinds(),
            decreases self.ast.tokens@.len() - self.current,
        {
            let method: usize = self.function(FunctionKind::Method)?;
            methods.push(method);
        }
        self.consume(TokenType::RightBrace, SyntaxError::ExpectBraceAfterClassBody)?;
        let ghost bound = self.ast.stmts@.len() as int;
        let span: Span = self.add_list(&mut methods, Ghost(bound));
        Ok(self.add_stmt(Stmt::Class { name, superclass, methods: span }))
    }

    /// declaration := classDecl | funDecl | varDecl | statement. After a
    /// syntax error the parser synchronizes and gives no statement.
    fn declaration(&mut self) -> (r: Option<usize>)
        requires
            old(self).wf(),
        ensures
            final(self).follows(
                old(self),
                spec_declaration(old(self).kinds(), old(self).state()).state,
            ),
            r == spec_declaration(old(self).kinds(), old(self).state()).result,
            r matches Some(id) ==> id < final(self).ast.stmts@.len(),
            !old(self).state().at_end(old(self).kinds()) ==> final(self).current > old(
                self,
            ).current,
        decreases old(self).ast.tokens@.len() - old(self).current, 25int,
    {
        let parsed: Result<usize, ParseError> = if self.is_match_advance(TokenType::Class) {
            self.class_declaration()
        } else if self.is_match_advance(TokenType::Fn) {
            self.function(FunctionKind::Function)
        } else if self.is_match_advance(TokenType::Var) {
            self.var_declaration()
        } else {
            self.statement()
        };
        match parsed {
            Ok(id) => Some(id),
            Err(_) => {
                self.synchronize();
                None
            },
        }
    }
}

impl Parser {
    /// A parser over `tokens` and an empty tree.
    pub fn new(tokens: Vec<Token>) -> (r: Parser)
        requires
            tokens@.len() > 0,
            tokens@.last().token_type == TokenType::Eof,
        ensures
            r.wf(),
            r.ast.tokens@ == tokens@,
            r.current == 0,
            r.ast.exprs@.len() == 0,
            r.ast.stmts@.len() == 0,
            r.ast.lists@.len() == 0,
            r.errors@.len() == 0,
    {
        Parser::resume(Ast::new(), tokens)
    }

    /// A parser over `tokens`, appended to the tokens of the tree `ast`; the
    /// nodes it makes are appended to those of `ast`.
    pub fn resume(ast: Ast, tokens: Vec<Token>) -> (r: Parser)
        requires
            ast.wf(),
            tokens@.len() > 0,
            tokens@.last().token_type == TokenType::Eof,
        ensures
            r.wf(),
            r.ast.tokens@ == ast.tokens@ + tokens@,
            r.current == ast.tokens@.len(),
            r.ast.exprs == ast.exprs,
            r.ast.stmts == ast.stmts,
            r.ast.lists == ast.lists,
            r.errors@.len() == 0,
    {
        let mut ast = ast;
        let mut tokens = tokens;
        let current: usize = ast.add_tokens(&mut tokens);
        Parser { ast, current, errors: Vec::new() }
    }

    /// program := declaration* EOF. Gives the statements of the declarations
    /// that parsed; the errors of the others are in `errors`.
    pub fn parse(&mut self) -> (r: Vec<usize>)
        requires
            old(self).wf(),
        ensures
            final(self).follows(
                old(self),
                spec_program(old(self).kinds(), old(self).state(), Seq::empty()).state,
            ),
            spec_program(old(self).kinds(), old(self).state(), Seq::empty()).result == Some(r@),
            final(self).state().at_end(final(self).kinds()),
            forall|i: int| 0 <= i < r@.len() ==> #[trigger] r@[i] < final(self).ast.stmts@.len(),
    {
        let mut statements: Vec<usize> = Vec::new();
        let ghost k = self.kinds();
        let ghost whole = spec_program(k, self.state(), Seq::empty());
        reveal(spec_program);
        while !self.is_at_end()
            invariant
                self.grown_from(old(self)),
                k == self.kinds(),
                forall|i: int|
                    0 <= i < statements@.len() ==> #[trigger] statements@[i]
                        < self.ast.stmts@.len(),
                spec_program(k, self.state(), statements@) == whole,
            decreases self.ast.tokens@.len() - self.current,
        {
            reveal(spec_program);
            match self.declaration() {
                Some(id) => {
                    statements.push(id);
                },
                None => {},
            }
        }
        statements
    }

    /// Whether parsing has found a syntax error.
    pub fn had_error(&self) -> (r: bool)
        ensures
            r == (self.errors@.len() > 0),
    {
        self.errors.len() > 0
    }
}

} // verus!
