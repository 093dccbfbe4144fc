use crate::expr::{Constant, Expr};
use crate::grammar::{
    emit_pair, spec_block, spec_block_items, spec_class_body, spec_class_declaration,
    spec_condition, spec_consume, spec_declaration, spec_desugar_for, spec_expression,
    spec_expression_statement, spec_for_body, spec_for_condition, spec_for_increment,
    spec_for_statement, spec_function, spec_if_statement, spec_methods, spec_parameters,
    spec_print_statement, spec_program, spec_return_statement, spec_statement,
    spec_synchronize_rest, spec_var_declaration, spec_while_statement, FunctionKind, PState,
    ParsedList, SyntaxError,
};
use crate::once::{grown, is_declaration, lemma_grown_twice, neat, roomy};
use crate::once_expr::{gave_fresh, lemma_emit_expr, lemma_expression_fresh};
use crate::once_stmt::{
    all_functions, gave_list, gave_plain, gave_stmt, lemma_block, lemma_branched, lemma_class_node,
    lemma_finish, lemma_function_node, lemma_list_more, lemma_looped, lemma_pair,
    lemma_ranged_expr_kept, lemma_ranged_stmt_kept, lemma_simple, ranged_expr, ranged_list,
    ranged_stmt,
};
use crate::stmt::Stmt;
use crate::token::TokenType;
use crate::uses::{between, seen_expr, seen_program, seen_stmt};
use vstd::prelude::*;

verus! {

// The statements that the parser makes are trees: what the grammar of
// statements parses holds no use of a name twice, and only uses that were
// made while it was parsed.

/// exprStmt: what parses holds no use twice.
pub proof fn lemma_expression_statement_fresh(k: Seq<TokenType>, s: PState)
    requires
        roomy(k, s) ==> neat(k, s),
    ensures
        gave_plain(k, s, s.exprs.len() as int, spec_expression_statement(k, s)),
    decreases k.len() - s.current, 18int,
{
    lemma_expression_fresh(k, s);
    let value = spec_expression(k, s);
    if let Some(expression) = value.result {
        let st = Stmt::Expression { expression };
        lemma_finish(
            k,
            value.state,
            SyntaxError::ExpectSemicolonAfterExpression,
            st,
            s.exprs.len() as int,
        );
        lemma_grown_twice(s, value.state, spec_expression_statement(k, s).state);
    }
}

/// printStmt: what parses holds no use twice.
pub proof fn lemma_print_statement_fresh(k: Seq<TokenType>, s: PState)
    requires
        roomy(k, s) ==> neat(k, s),
    ensures
        gave_plain(k, s, s.exprs.len() as int, spec_print_statement(k, s)),
    decreases k.len() - s.current, 18int,
{
    lemma_expression_fresh(k, s);
    let value = spec_expression(k, s);
    if let Some(expression) = value.result {
        let st = Stmt::Print { expression };
        lemma_finish(
            k,
            value.state,
            SyntaxError::ExpectSemicolonAfterExpression,
            st,
            s.exprs.len() as int,
        );
        lemma_grown_twice(s, value.state, spec_print_statement(k, s).state);
    }
}

/// returnStmt: what parses holds no use twice.
pub proof fn lemma_return_statement_fresh(k: Seq<TokenType>, s: PState, keyword: usize)
    requires
        roomy(k, s) ==> neat(k, s),
    ensures
        gave_plain(k, s, s.exprs.len() as int, spec_return_statement(k, s, keyword)),
    decreases k.len() - s.current, 18int,
{
    if s.check(k, TokenType::Semicolon) {
        lemma_finish(
            k,
            s,
            SyntaxError::ExpectSemicolonAfterReturn,
            Stmt::Return { keyword, value: None },
            s.exprs.len() as int,
        );
    } else {
        lemma_expression_fresh(k, s);
        let value = spec_expression(k, s);
        if let Some(expression) = value.result {
            lemma_finish(
                k,
                value.state,
                SyntaxError::ExpectSemicolonAfterReturn,
                Stmt::Return { keyword, value: Some(expression) },
                s.exprs.len() as int,
            );
            lemma_grown_twice(s, value.state, spec_return_statement(k, s, keyword).state);
        }
    }
}

/// varDecl: what parses holds no use twice.
pub proof fn lemma_var_declaration_fresh(k: Seq<TokenType>, s: PState)
    requires
        roomy(k, s) ==> neat(k, s),
    ensures
        gave_stmt(k, s, s.exprs.len() as int, spec_var_declaration(k, s)),
    decreases k.len() - s.current, 21int,
{
    let name = spec_consume(k, s, TokenType::Identifier, SyntaxError::ExpectVariableName);
    if let Some(token) = name.result {
        if name.state.check(k, TokenType::Equal) {
            lemma_expression_fresh(k, name.state.advance(k));
            let value = spec_expression(k, name.state.advance(k));
            if let Some(expression) = value.result {
                lemma_finish(
                    k,
                    value.state,
                    SyntaxError::ExpectSemicolonAfterVariable,
                    Stmt::Var { name: token, initializer: Some(expression) },
                    s.exprs.len() as int,
                );
                lemma_grown_twice(s, value.state, spec_var_declaration(k, s).state);
            }
        } else {
            lemma_finish(
                k,
                name.state,
                SyntaxError::ExpectSemicolonAfterVariable,
                Stmt::Var { name: token, initializer: None },
                s.exprs.len() as int,
            );
        }
    }
}

/// The condition of an `if` or a loop: what parses holds no use twice.
pub proof fn lemma_condition_fresh(
    k: Seq<TokenType>,
    s: PState,
    before: SyntaxError,
    after: SyntaxError,
)
    requires
        roomy(k, s) ==> neat(k, s),
    ensures
        gave_fresh(k, s, s.exprs.len() as int, spec_condition(k, s, before, after)),
    decreases k.len() - s.current, 18int,
{
    let open = spec_consume(k, s, TokenType::LeftParen, before);
    if open.result is Some {
        lemma_expression_fresh(k, open.state);
    }
}

/// The body of a `for` loop with its increment behind it.
pub proof fn lemma_desugar_step(
    k: Seq<TokenType>,
    s: PState,
    increment: Option<usize>,
    body: usize,
    low: int,
    middle: int,
)
    requires
        neat(k, s),
        low <= middle <= s.exprs.len(),
        increment matches Some(expression) ==> ranged_expr(s, low, middle, expression),
        ranged_stmt(s, middle, s.exprs.len() as int, body),
        !is_declaration(s.stmts[body as int]),
        roomy(
            k,
            match increment {
                Some(expression) => emit_pair(
                    s.emit_stmt(Stmt::Expression { expression }).state,
                    body,
                    s.stmts.len() as usize,
                ),
                None => s.done(body),
            }.state,
        ),
    ensures
        ({
            let stepped = match increment {
                Some(expression) => emit_pair(
                    s.emit_stmt(Stmt::Expression { expression }).state,
                    body,
                    s.stmts.len() as usize,
                ),
                None => s.done(body),
            };
            &&& grown(s, stepped.state)
            &&& neat(k, stepped.state)
            &&& stepped.state.exprs == s.exprs
            &&& stepped.result matches Some(id) && ranged_stmt(
                stepped.state,
                low,
                s.exprs.len() as int,
                id,
            ) && !is_declaration(stepped.state.stmts[id as int])
        }),
{
    match increment {
        Some(expression) => {
            let st = Stmt::Expression { expression };
            let step = s.emit_stmt(st);
            let out = emit_pair(step.state, body, s.stmts.len() as usize);
            // sizes only grow, so the tables in between are no longer
            assert(step.state.stmts.len() == s.stmts.len() + 1);
            assert(out.state.stmts.len() == step.state.stmts.len() + 1);
            assert(out.state.lists.len() == step.state.lists.len() + 2);
            lemma_simple(k, s, st, low);
            let id = s.stmts.len() as usize;
            lemma_ranged_stmt_kept(k, s, step.state, middle, s.exprs.len() as int, body);
            assert(between(seen_stmt(step.state.exprs, step.state.stmts, step.state.lists, id), low, middle));
            lemma_pair(
                k,
                step.state,
                body,
                id,
                middle,
                s.exprs.len() as int,
                low,
                middle,
            );
            lemma_grown_twice(s, step.state, out.state);
        },
        None => {},
    }
}

/// What a `for` loop stands for holds the uses of its initializer, its
/// condition, its body and its increment, none twice.
pub proof fn lemma_desugar_for(
    k: Seq<TokenType>,
    s: PState,
    initializer: Option<usize>,
    condition: Option<usize>,
    increment: Option<usize>,
    body: usize,
    low: int,
    first: int,
    second: int,
    third: int,
)
    requires
        low <= first <= second <= third <= s.exprs.len(),
        roomy(k, s) ==> {
            &&& neat(k, s)
            &&& initializer matches Some(id) ==> ranged_stmt(s, low, first, id)
            &&& condition matches Some(id) ==> ranged_expr(s, first, second, id)
            &&& increment matches Some(id) ==> ranged_expr(s, second, third, id)
            &&& ranged_stmt(s, third, s.exprs.len() as int, body)
            &&& !is_declaration(s.stmts[body as int])
        },
    ensures
        gave_plain(k, s, low, spec_desugar_for(s, initializer, condition, increment, body)),
{
    let out = spec_desugar_for(s, initializer, condition, increment, body);
    let stepped = match increment {
        Some(expression) => {
            let step = s.emit_stmt(Stmt::Expression { expression });
            emit_pair(step.state, body, step.result.unwrap())
        },
        None => s.done(body),
    };
    let tested = match condition {
        Some(expression) => stepped.state.done(expression),
        None => stepped.state.emit_expr(Expr::Literal { value: Constant::Boolean(true) }),
    };
    let looped = tested.state.emit_stmt(
        Stmt::While { condition: tested.result.unwrap(), body: stepped.result.unwrap() },
    );
    // the tables only grow
    assert(grown(s, stepped.state)) by {
        if let Some(expression) = increment {
            let step = s.emit_stmt(Stmt::Expression { expression });
            assert(grown(s, step.state));
            assert(grown(step.state, stepped.state));
            lemma_grown_twice(s, step.state, stepped.state);
        }
    }
    assert(grown(stepped.state, tested.state));
    assert(grown(tested.state, looped.state));
    assert(grown(looped.state, out.state));
    lemma_grown_twice(s, stepped.state, tested.state);
    lemma_grown_twice(s, tested.state, looped.state);
    lemma_grown_twice(s, looped.state, out.state);
    if roomy(k, out.state) {
        let high = s.exprs.len() as int;
        if increment is Some {
            assert(s.stmts.len() + 1 <= stepped.state.stmts.len());
        }
        lemma_desugar_step(k, s, increment, body, second, third);
        let inner = stepped.result.unwrap();
        // the condition, or `true` for none
        let test = tested.result.unwrap();
        match condition {
            Some(expression) => {
                lemma_ranged_expr_kept(k, s, tested.state, first, second, expression);
            },
            None => {
                let e = Expr::Literal { value: Constant::Boolean(true) };
                lemma_emit_expr(k, stepped.state, e);
                assert(seen_expr(tested.state.exprs, tested.state.lists, test)
                    =~= Seq::<usize>::empty());
            },
        }
        assert(ranged_expr(tested.state, first, second, test));
        lemma_ranged_stmt_kept(k, stepped.state, tested.state, second, high, inner);
        lemma_looped(k, tested.state, test, inner, first, second, second, high);
        let whole = looped.result.unwrap();
        assert(ranged_stmt(looped.state, first, high, whole));
        match initializer {
            Some(id) => {
                lemma_grown_twice(s, tested.state, looped.state);
                lemma_ranged_stmt_kept(k, s, looped.state, low, first, id);
                lemma_pair(k, looped.state, id, whole, low, first, first, high);
            },
            None => {},
        }
    }
}

/// The rest of a `for` loop behind its increment: what parses holds no use
/// twice.
pub proof fn lemma_for_body_fresh(
    k: Seq<TokenType>,
    s: PState,
    initializer: Option<usize>,
    condition: Option<usize>,
    increment: Option<usize>,
    low: int,
    first: int,
    second: int,
)
    requires
        low <= first <= second <= s.exprs.len(),
        roomy(k, s) ==> {
            &&& neat(k, s)
            &&& initializer matches Some(id) ==> ranged_stmt(s, low, first, id)
            &&& condition matches Some(id) ==> ranged_expr(s, first, second, id)
            &&& increment matches Some(id) ==> ranged_expr(s, second, s.exprs.len() as int, id)
        },
    ensures
        gave_plain(k, s, low, spec_for_body(k, s, initializer, condition, increment)),
    decreases k.len() - s.current, 19int,
{
    let close = spec_consume(k, s, TokenType::RightParen, SyntaxError::ExpectParenAfterForClauses);
    if close.result is Some {
        lemma_statement_fresh(k, close.state);
        let body = spec_statement(k, close.state);
        let m = body.state;
        if let Some(body_id) = body.result {
            let out = spec_desugar_for(m, initializer, condition, increment, body_id);
            if roomy(k, m) {
                if let Some(id) = initializer {
                    lemma_ranged_stmt_kept(k, s, m, low, first, id);
                }
                if let Some(id) = condition {
                    lemma_ranged_expr_kept(k, s, m, first, second, id);
                }
                if let Some(id) = increment {
                    lemma_ranged_expr_kept(k, s, m, second, s.exprs.len() as int, id);
                }
            }
            lemma_desugar_for(
                k,
                m,
                initializer,
                condition,
                increment,
                body_id,
                low,
                first,
                second,
                s.exprs.len() as int,
            );
            lemma_grown_twice(s, m, out.state);
        }
    }
}

/// The rest of a `for` loop behind its condition: what parses holds no use
/// twice.
pub proof fn lemma_for_increment_fresh(
    k: Seq<TokenType>,
    s: PState,
    initializer: Option<usize>,
    condition: Option<usize>,
    low: int,
    first: int,
)
    requires
        low <= first <= s.exprs.len(),
        roomy(k, s) ==> {
            &&& neat(k, s)
            &&& initializer matches Some(id) ==> ranged_stmt(s, low, first, id)
            &&& condition matches Some(id) ==> ranged_expr(s, first, s.exprs.len() as int, id)
        },
    ensures
        gave_plain(k, s, low, spec_for_increment(k, s, initializer, condition)),
    decreases k.len() - s.current, 19int,
{
    let semicolon = spec_consume(
        k,
        s,
        TokenType::Semicolon,
        SyntaxError::ExpectSemicolonAfterLoopCondition,
    );
    let high = s.exprs.len() as int;
    if semicolon.result is Some {
        if semicolon.state.check(k, TokenType::RightParen) {
            lemma_for_body_fresh(k, semicolon.state, initializer, condition, None, low, first, high);
        } else {
            lemma_expression_fresh(k, semicolon.state);
            let increment = spec_expression(k, semicolon.state);
            let m = increment.state;
            if let Some(expression) = increment.result {
                if m.beyond(s, k) {
                    if roomy(k, m) {
                        if let Some(id) = initializer {
                            lemma_ranged_stmt_kept(k, s, m, low, first, id);
                        }
                        if let Some(id) = condition {
                            lemma_ranged_expr_kept(k, s, m, first, high, id);
                        }
                    }
                    lemma_for_body_fresh(
                        k,
                        m,
                        initializer,
                        condition,
                        Some(expression),
                        low,
                        first,
                        high,
                    );
                    lemma_grown_twice(
                        s,
                        m,
                        spec_for_body(k, m, initializer, condition, Some(expression)).state,
                    );
                }
            }
        }
    }
}

/// The rest of a `for` loop behind its initializer: what parses holds no
/// use twice.
pub proof fn lemma_for_condition_fresh(
    k: Seq<TokenType>,
    s: PState,
    initializer: Option<usize>,
    low: int,
)
    requires
        low <= s.exprs.len(),
        roomy(k, s) ==> {
            &&& neat(k, s)
            &&& initializer matches Some(id) ==> ranged_stmt(s, low, s.exprs.len() as int, id)
        },
    ensures
        gave_plain(k, s, low, spec_for_condition(k, s, initializer)),
    decreases k.len() - s.current, 20int,
{
    let high = s.exprs.len() as int;
    if s.check(k, TokenType::Semicolon) {
        lemma_for_increment_fresh(k, s, initializer, None, low, high);
    } else {
        lemma_expression_fresh(k, s);
        let condition = spec_expression(k, s);
        let m = condition.state;
        if let Some(expression) = condition.result {
            if m.beyond(s, k) {
                if roomy(k, m) {
                    if let Some(id) = initializer {
                        lemma_ranged_stmt_kept(k, s, m, low, high, id);
                    }
                }
                lemma_for_increment_fresh(k, m, initializer, Some(expression), low, high);
                lemma_grown_twice(
                    s,
                    m,
                    spec_for_increment(k, m, initializer, Some(expression)).state,
                );
            }
        }
    }
}

/// forStmt: what parses holds no use twice.
pub proof fn lemma_for_statement_fresh(k: Seq<TokenType>, s: PState)
    requires
        roomy(k, s) ==> neat(k, s),
    ensures
        gave_plain(k, s, s.exprs.len() as int, spec_for_statement(k, s)),
    decreases k.len() - s.current, 22int,
{
    let low = s.exprs.len() as int;
    let open = spec_consume(k, s, TokenType::LeftParen, SyntaxError::ExpectParenAfterFor);
    if open.result is Some {
        if open.state.check(k, TokenType::Semicolon) {
            lemma_for_condition_fresh(k, open.state.advance(k), None, low);
        } else {
            let initializer = if open.state.check(k, TokenType::Var) {
                spec_var_declaration(k, open.state.advance(k))
            } else {
                spec_expression_statement(k, open.state)
            };
            if open.state.check(k, TokenType::Var) {
                lemma_var_declaration_fresh(k, open.state.advance(k));
            } else {
                lemma_expression_statement_fresh(k, open.state);
            }
            if let Some(first) = initializer.result {
                if initializer.state.beyond(s, k) {
                    lemma_for_condition_fresh(k, initializer.state, Some(first), low);
                    lemma_grown_twice(
                        s,
                        initializer.state,
                        spec_for_condition(k, initializer.state, Some(first)).state,
                    );
                }
            }
        }
    }
}

/// whileStmt: what parses holds no use twice.
pub proof fn lemma_while_statement_fresh(k: Seq<TokenType>, s: PState)
    requires
        roomy(k, s) ==> neat(k, s),
    ensures
        gave_plain(k, s, s.exprs.len() as int, spec_while_statement(k, s)),
    decreases k.len() - s.current, 19int,
{
    let low = s.exprs.len() as int;
    lemma_condition_fresh(
        k,
        s,
        SyntaxError::ExpectParenAfterWhile,
        SyntaxError::ExpectParenAfterCondition,
    );
    let head = spec_condition(
        k,
        s,
        SyntaxError::ExpectParenAfterWhile,
        SyntaxError::ExpectParenAfterCondition,
    );
    let m = head.state;
    if let Some(condition) = head.result {
        if m.beyond(s, k) {
            lemma_statement_fresh(k, m);
            let body = spec_statement(k, m);
            let t = body.state;
            lemma_grown_twice(s, m, t);
            if let Some(body_id) = body.result {
                let out = t.emit_stmt(Stmt::While { condition, body: body_id });
                assert(grown(t, out.state));
                lemma_grown_twice(s, t, out.state);
                if roomy(k, out.state) {
                    lemma_ranged_expr_kept(k, m, t, low, m.exprs.len() as int, condition);
                    lemma_looped(
                        k,
                        t,
                        condition,
                        body_id,
                        low,
                        m.exprs.len() as int,
                        m.exprs.len() as int,
                        t.exprs.len() as int,
                    );
                }
            }
        }
    }
}

/// ifStmt: what parses holds no use twice.
pub proof fn lemma_if_statement_fresh(k: Seq<TokenType>, s: PState)
    requires
        roomy(k, s) ==> neat(k, s),
    ensures
        gave_plain(k, s, s.exprs.len() as int, spec_if_statement(k, s)),
    decreases k.len() - s.current, 19int,
{
    let low = s.exprs.len() as int;
    lemma_condition_fresh(
        k,
        s,
        SyntaxError::ExpectParenAfterIf,
        SyntaxError::ExpectParenAfterIfCondition,
    );
    let head = spec_condition(
        k,
        s,
        SyntaxError::ExpectParenAfterIf,
        SyntaxError::ExpectParenAfterIfCondition,
    );
    let m = head.state;
    if let Some(condition) = head.result {
        if m.beyond(s, k) {
            lemma_statement_fresh(k, m);
            let then = spec_statement(k, m);
            let t = then.state;
            lemma_grown_twice(s, m, t);
            if let Some(then_branch) = then.result {
                if t.check(k, TokenType::Else) {
                    let next = t.advance(k);
                    if next.beyond(s, k) {
                        lemma_statement_fresh(k, next);
                        let otherwise = spec_statement(k, next);
                        let u = otherwise.state;
                        lemma_grown_twice(s, t, u);
                        lemma_grown_twice(m, t, u);
                        if let Some(else_branch) = otherwise.result {
                            let st = Stmt::If {
                                condition,
                                then_branch,
                                else_branch: Some(else_branch),
                            };
                            let out = u.emit_stmt(st);
                            assert(grown(u, out.state));
                            lemma_grown_twice(s, u, out.state);
                            if roomy(k, out.state) {
                                lemma_ranged_expr_kept(
                                    k,
                                    m,
                                    u,
                                    low,
                                    m.exprs.len() as int,
                                    condition,
                                );
                                lemma_ranged_stmt_kept(
                                    k,
                                    t,
                                    u,
                                    m.exprs.len() as int,
                                    t.exprs.len() as int,
                                    then_branch,
                                );
                                lemma_branched(
                                    k,
                                    u,
                                    condition,
                                    then_branch,
                                    Some(else_branch),
                                    low,
                                    m.exprs.len() as int,
                                    t.exprs.len() as int,
                                    u.exprs.len() as int,
                                );
                            }
                        }
                    }
                } else {
                    let st = Stmt::If { condition, then_branch, else_branch: None };
                    let out = t.emit_stmt(st);
                    assert(grown(t, out.state));
                    lemma_grown_twice(s, t, out.state);
                    if roomy(k, out.state) {
                        lemma_ranged_expr_kept(k, m, t, low, m.exprs.len() as int, condition);
                        lemma_branched(
                            k,
                            t,
                            condition,
                            then_branch,
                            None,
                            low,
                            m.exprs.len() as int,
                            t.exprs.len() as int,
                            t.exprs.len() as int,
                        );
                    }
                }
            }
        }
    }
}

/// The declarations of a block: what parses holds no use twice.
pub proof fn lemma_block_items_fresh(k: Seq<TokenType>, s: PState, acc: Seq<usize>, low: int)
    requires
        low <= s.exprs.len(),
        roomy(k, s) ==> neat(k, s) && ranged_list(s, low, s.exprs.len() as int, acc),
    ensures
        gave_list(k, s, low, spec_block_items(k, s, acc)),
    decreases k.len() - s.current, 26int,
{
    if !s.check(k, TokenType::RightBrace) && !s.at_end(k) {
        lemma_declaration_fresh(k, s);
        let item = spec_declaration(k, s);
        let m = item.state;
        let items = match item.result {
            Some(id) => acc.push(id),
            None => acc,
        };
        if roomy(k, m) {
            match item.result {
                Some(id) => {
                    lemma_list_more(k, s, m, low, acc, id);
                },
                None => {
                    crate::once_stmt::lemma_list_grown(k, s, m, acc, 0);
                },
            }
        }
        if m.beyond(s, k) {
            lemma_block_items_fresh(k, m, items, low);
            lemma_grown_twice(s, m, spec_block_items(k, m, items).state);
        }
    }
}

/// block: what parses holds no use twice.
pub proof fn lemma_block_fresh(k: Seq<TokenType>, s: PState)
    requires
        roomy(k, s) ==> neat(k, s),
    ensures
        gave_list(k, s, s.exprs.len() as int, spec_block(k, s)),
    decreases k.len() - s.current, 27int,
{
    let none = Seq::<usize>::empty();
    assert(seen_program(s.exprs, s.stmts, s.lists, none, 0) =~= Seq::<usize>::empty());
    lemma_block_items_fresh(k, s, none, s.exprs.len() as int);
}

/// statement: what parses holds no use twice, and declares nothing.
pub proof fn lemma_statement_fresh(k: Seq<TokenType>, s: PState)
    requires
        roomy(k, s) ==> neat(k, s),
    ensures
        gave_plain(k, s, s.exprs.len() as int, spec_statement(k, s)),
    decreases k.len() - s.current, 23int,
{
    let next = s.advance(k);
    if s.check(k, TokenType::For) {
        lemma_for_statement_fresh(k, next);
    } else if s.check(k, TokenType::If) {
        lemma_if_statement_fresh(k, next);
    } else if s.check(k, TokenType::Print) {
        lemma_print_statement_fresh(k, next);
    } else if s.check(k, TokenType::Return) {
        lemma_return_statement_fresh(k, next, s.current as usize);
    } else if s.check(k, TokenType::While) {
        lemma_while_statement_fresh(k, next);
    } else if s.check(k, TokenType::LeftBrace) {
        lemma_block_fresh(k, next);
        let block = spec_block(k, next);
        let m = block.state;
        if let Some(items) = block.result {
            let out = m.emit_list(items).emit_stmt(Stmt::Block { statements: m.next_span(items) });
            assert(grown(m, m.emit_list(items)));
            assert(grown(m.emit_list(items), out.state));
            lemma_grown_twice(m, m.emit_list(items), out.state);
            lemma_grown_twice(s, m, out.state);
            if roomy(k, out.state) {
                lemma_block(k, m, items, s.exprs.len() as int, m.exprs.len() as int);
            }
        }
    } else {
        lemma_expression_statement_fresh(k, s);
    }
}

/// Taking the names of parameters leaves the tables.
pub proof fn lemma_parameters(k: Seq<TokenType>, s: PState, acc: Seq<usize>)
    ensures
        spec_parameters(k, s, acc).state.exprs == s.exprs,
        spec_parameters(k, s, acc).state.stmts == s.stmts,
        spec_parameters(k, s, acc).state.lists == s.lists,
    decreases k.len() - s.current,
{
    let start = if acc.len() >= crate::grammar::MAX_ARITY {
        s.report(SyntaxError::TooManyParameters)
    } else {
        s
    };
    let name = spec_consume(k, start, TokenType::Identifier, SyntaxError::ExpectParameterName);
    if let Some(token) = name.result {
        if name.state.check(k, TokenType::Comma) {
            lemma_parameters(k, name.state.advance(k), acc.push(token));
        }
    }
}

/// function: what parses is a function that holds no use twice.
pub proof fn lemma_function_fresh(k: Seq<TokenType>, s: PState, kind: FunctionKind)
    requires
        roomy(k, s) ==> neat(k, s),
    ensures
        gave_stmt(k, s, s.exprs.len() as int, spec_function(k, s, kind)),
        roomy(k, spec_function(k, s, kind).state) ==> (spec_function(k, s, kind).result matches Some(
            id,
        ) ==> spec_function(k, s, kind).state.stmts[id as int] is Function),
    decreases k.len() - s.current, 24int,
{
    let name = spec_consume(k, s, TokenType::Identifier, SyntaxError::ExpectName(kind));
    if let Some(name_token) = name.result {
        let open = spec_consume(
            k,
            name.state,
            TokenType::LeftParen,
            SyntaxError::ExpectParenAfterName(kind),
        );
        if open.result is Some {
            let params = if open.state.check(k, TokenType::RightParen) {
                ParsedList { state: open.state, result: Some(Seq::empty()) }
            } else {
                spec_parameters(k, open.state, Seq::empty())
            };
            lemma_parameters(k, open.state, Seq::empty());
            if let Some(names) = params.result {
                let close = spec_consume(
                    k,
                    params.state,
                    TokenType::RightParen,
                    SyntaxError::ExpectParenAfterParameters,
                );
                if close.result is Some {
                    let brace = spec_consume(
                        k,
                        close.state,
                        TokenType::LeftBrace,
                        SyntaxError::ExpectBraceBeforeBody(kind),
                    );
                    if brace.result is Some && brace.state.beyond(s, k) {
                        lemma_block_fresh(k, brace.state);
                        let body = spec_block(k, brace.state);
                        let m = body.state;
                        if let Some(items) = body.result {
                            let with_names = m.emit_list(names);
                            let out = with_names.emit_list(items).emit_stmt(
                                Stmt::Function {
                                    name: name_token,
                                    params: m.next_span(names),
                                    body: with_names.next_span(items),
                                },
                            );
                            assert(grown(m, with_names));
                            assert(grown(with_names, with_names.emit_list(items)));
                            assert(grown(with_names.emit_list(items), out.state));
                            lemma_grown_twice(m, with_names, with_names.emit_list(items));
                            lemma_grown_twice(m, with_names.emit_list(items), out.state);
                            lemma_grown_twice(s, m, out.state);
                            if roomy(k, out.state) {
                                lemma_function_node(
                                    k,
                                    m,
                                    name_token,
                                    names,
                                    items,
                                    s.exprs.len() as int,
                                );
                            }
                        }
                    }
                }
            }
        }
    }
}

/// The methods of a class body: what parses are functions that hold no
/// use twice.
pub proof fn lemma_methods_fresh(k: Seq<TokenType>, s: PState, acc: Seq<usize>, low: int)
    requires
        low <= s.exprs.len(),
        roomy(k, s) ==> neat(k, s) && ranged_list(s, low, s.exprs.len() as int, acc)
            && all_functions(s.stmts, acc),
    ensures
        gave_list(k, s, low, spec_methods(k, s, acc)),
        roomy(k, spec_methods(k, s, acc).state) ==> (spec_methods(k, s, acc).result matches Some(
            items,
        ) ==> all_functions(spec_methods(k, s, acc).state.stmts, items)),
    decreases k.len() - s.current, 25int,
{
    if !s.check(k, TokenType::RightBrace) && !s.at_end(k) {
        lemma_function_fresh(k, s, FunctionKind::Method);
        let method = spec_function(k, s, FunctionKind::Method);
        let m = method.state;
        if let Some(id) = method.result {
            if m.beyond(s, k) {
                let items = acc.push(id);
                if roomy(k, m) {
                    lemma_list_more(k, s, m, low, acc, id);
                    assert(all_functions(m.stmts, items)) by {
                        assert forall|j: int| 0 <= j < items.len() implies #[trigger] items[j]
                            < m.stmts.len() && m.stmts[items[j] as int] is Function by {
                            if j < acc.len() {
                                assert(items[j] == acc[j]);
                                assert(m.stmts[acc[j] as int] == s.stmts[acc[j] as int]);
                            }
                        }
                    }
                }
                lemma_methods_fresh(k, m, items, low);
                lemma_grown_twice(s, m, spec_methods(k, m, items).state);
            }
        }
    }
}

/// The body of a class: what parses holds no use twice.
pub proof fn lemma_class_body_fresh(
    k: Seq<TokenType>,
    s: PState,
    name: usize,
    superclass: Option<usize>,
    low: int,
)
    requires
        low <= s.exprs.len(),
        roomy(k, s) ==> neat(k, s) && (superclass matches Some(parent) ==> ranged_expr(
            s,
            low,
            s.exprs.len() as int,
            parent,
        ) && s.exprs[parent as int] is Variable),
    ensures
        gave_stmt(k, s, low, spec_class_body(k, s, name, superclass)),
    decreases k.len() - s.current, 26int,
{
    let brace = spec_consume(k, s, TokenType::LeftBrace, SyntaxError::ExpectBraceBeforeClassBody);
    if brace.result is Some {
        let none = Seq::<usize>::empty();
        assert(seen_program(s.exprs, s.stmts, s.lists, none, 0) =~= Seq::<usize>::empty());
        lemma_methods_fresh(k, brace.state, none, s.exprs.len() as int);
        let methods = spec_methods(k, brace.state, none);
        let m = methods.state;
        if let Some(items) = methods.result {
            let close = spec_consume(
                k,
                m,
                TokenType::RightBrace,
                SyntaxError::ExpectBraceAfterClassBody,
            );
            if close.result is Some {
                let t = close.state;
                let out = t.emit_list(items).emit_stmt(
                    Stmt::Class { name, superclass, methods: t.next_span(items) },
                );
                assert(grown(m, t.emit_list(items)));
                assert(grown(t.emit_list(items), out.state));
                lemma_grown_twice(m, t.emit_list(items), out.state);
                lemma_grown_twice(s, m, out.state);
                if roomy(k, out.state) {
                    if let Some(parent) = superclass {
                        lemma_ranged_expr_kept(k, s, t, low, s.exprs.len() as int, parent);
                    }
                    lemma_class_node(k, t, name, superclass, items, low, s.exprs.len() as int);
                }
            }
        }
    }
}

/// classDecl: what parses holds no use twice.
pub proof fn lemma_class_declaration_fresh(k: Seq<TokenType>, s: PState)
    requires
        roomy(k, s) ==> neat(k, s),
    ensures
        gave_stmt(k, s, s.exprs.len() as int, spec_class_declaration(k, s)),
    decreases k.len() - s.current, 27int,
{
    let low = s.exprs.len() as int;
    let name = spec_consume(k, s, TokenType::Identifier, SyntaxError::ExpectClassName);
    if let Some(name_token) = name.result {
        if name.state.check(k, TokenType::Less) {
            let parent = spec_consume(
                k,
                name.state.advance(k),
                TokenType::Identifier,
                SyntaxError::ExpectSuperclassName,
            );
            if let Some(parent_token) = parent.result {
                let e = Expr::Variable { name: parent_token };
                let variable = parent.state.emit_expr(e);
                assert(grown(s, variable.state));
                if roomy(k, variable.state) {
                    crate::once_expr::lemma_leaf(k, parent.state, e);
                }
                lemma_class_body_fresh(k, variable.state, name_token, variable.result, low);
                lemma_grown_twice(
                    s,
                    variable.state,
                    spec_class_body(k, variable.state, name_token, variable.result).state,
                );
            }
        } else {
            lemma_class_body_fresh(k, name.state, name_token, None, low);
        }
    }
}

/// Skipping tokens leaves the tables.
pub proof fn lemma_synchronize_rest(k: Seq<TokenType>, s: PState)
    ensures
        spec_synchronize_rest(k, s).exprs == s.exprs,
        spec_synchronize_rest(k, s).stmts == s.stmts,
        spec_synchronize_rest(k, s).lists == s.lists,
    decreases k.len() - s.current,
{
    if !s.at_end(k) && !(s.current >= 1 && k[s.current - 1] == TokenType::Semicolon)
        && !crate::grammar::is_statement_start(k[s.current]) {
        lemma_synchronize_rest(k, s.advance(k));
    }
}

/// declaration: what parses holds no use twice.
pub proof fn lemma_declaration_fresh(k: Seq<TokenType>, s: PState)
    requires
        roomy(k, s) ==> neat(k, s),
    ensures
        gave_stmt(k, s, s.exprs.len() as int, spec_declaration(k, s)),
    decreases k.len() - s.current, 25int,
{
    let next = s.advance(k);
    let parsed = if s.check(k, TokenType::Class) {
        spec_class_declaration(k, next)
    } else if s.check(k, TokenType::Fn) {
        spec_function(k, next, FunctionKind::Function)
    } else if s.check(k, TokenType::Var) {
        spec_var_declaration(k, next)
    } else {
        spec_statement(k, s)
    };
    if s.check(k, TokenType::Class) {
        lemma_class_declaration_fresh(k, next);
    } else if s.check(k, TokenType::Fn) {
        lemma_function_fresh(k, next, FunctionKind::Function);
    } else if s.check(k, TokenType::Var) {
        lemma_var_declaration_fresh(k, next);
    } else {
        lemma_statement_fresh(k, s);
    }
    if parsed.result is None {
        lemma_synchronize_rest(k, parsed.state.advance(k));
    }
}

/// program: the statements that parse hold no use twice, and only uses
/// that were not there before.
pub proof fn lemma_program_fresh(k: Seq<TokenType>, s: PState, acc: Seq<usize>, low: int)
    requires
        low <= s.exprs.len(),
        roomy(k, s) ==> neat(k, s) && ranged_list(s, low, s.exprs.len() as int, acc),
    ensures
        gave_list(k, s, low, spec_program(k, s, acc)),
    decreases k.len() - s.current,
{
    reveal(spec_program);
    if !s.at_end(k) {
        lemma_declaration_fresh(k, s);
        let item = spec_declaration(k, s);
        let m = item.state;
        let items = match item.result {
            Some(id) => acc.push(id),
            None => acc,
        };
        if roomy(k, m) {
            match item.result {
                Some(id) => {
                    lemma_list_more(k, s, m, low, acc, id);
                },
                None => {
                    crate::once_stmt::lemma_list_grown(k, s, m, acc, 0);
                },
            }
        }
        if m.beyond(s, k) {
            lemma_program_fresh(k, m, items, low);
            lemma_grown_twice(s, m, spec_program(k, m, items).state);
        }
    }
}

} // verus!
