use crate::grammar::{
    level_operator, spec_arguments, spec_assignment, spec_binary, spec_binary_rest, spec_block,
    spec_block_items, spec_call, spec_call_rest, spec_class_body, spec_class_declaration,
    spec_condition, spec_consume, spec_declaration, spec_expression, spec_expression_statement,
    spec_finish_call, spec_for_body, spec_for_condition, spec_for_increment, spec_for_statement,
    spec_function, spec_if_statement, spec_methods, spec_parameters, spec_primary,
    spec_print_statement, spec_program, spec_return_statement, spec_statement, spec_synchronize,
    spec_synchronize_rest, spec_unary, spec_var_declaration, spec_while_statement, FunctionKind,
    PState, Parsed, ParsedList, SyntaxError, LEVEL_OR, MAX_ARITY,
};
use crate::expr::Expr;
use crate::token::TokenType;
use vstd::prelude::*;

verus! {

// Parsing never moves the cursor back and never moves it off the tokens, and
// what parses has taken at least one token. So the tests in the grammar
// that the cursor has moved on (`beyond`) never fail, and parsing a program
// always comes to the end of the tokens.

/// The tokens end with an end-of-file token and the cursor stands on a
/// token.
pub open spec fn on_token(k: Seq<TokenType>, s: PState) -> bool {
    0 <= s.current < k.len() && k.last() == TokenType::Eof
}

/// Parsing has got from `s` to `after` without going back, and still stands
/// on a token.
pub open spec fn went_on(k: Seq<TokenType>, s: PState, after: PState) -> bool {
    on_token(k, after) && after.current >= s.current
}

/// Parsing has not gone back, and has taken at least one token if it gave
/// a node.
pub open spec fn consumed(k: Seq<TokenType>, s: PState, parsed: Parsed) -> bool {
    went_on(k, s, parsed.state) && (parsed.result is Some ==> parsed.state.current > s.current)
}

/// Parsing has not gone back, and has taken at least one token if it gave
/// a list.
pub open spec fn consumed_list(k: Seq<TokenType>, s: PState, parsed: ParsedList) -> bool {
    went_on(k, s, parsed.state) && (parsed.result is Some ==> parsed.state.current > s.current)
}

/// A primary expression takes at least one token.
pub proof fn lemma_primary(k: Seq<TokenType>, s: PState)
    requires
        on_token(k, s),
    ensures
        consumed(k, s, spec_primary(k, s)),
    decreases k.len() - s.current, 3int,
{
    if s.check(k, TokenType::LeftParen) {
        lemma_expression(k, s.advance(k));
    }
}

/// A list of arguments takes at least one token.
pub proof fn lemma_arguments(k: Seq<TokenType>, s: PState, acc: Seq<usize>)
    requires
        on_token(k, s),
    ensures
        consumed_list(k, s, spec_arguments(k, s, acc)),
    decreases k.len() - s.current, 16int,
{
    let start = if acc.len() >= MAX_ARITY {
        s.report(SyntaxError::TooManyArguments)
    } else {
        s
    };
    lemma_expression(k, start);
    let argument = spec_expression(k, start);
    if let Some(id) = argument.result {
        if argument.state.check(k, TokenType::Comma) {
            let next = argument.state.advance(k);
            if next.beyond(s, k) {
                lemma_arguments(k, next, acc.push(id));
            }
        }
    }
}

/// The rest of a call takes at least its closing parenthesis.
pub proof fn lemma_finish_call(k: Seq<TokenType>, s: PState, callee: usize)
    requires
        on_token(k, s),
    ensures
        consumed(k, s, spec_finish_call(k, s, callee)),
    decreases k.len() - s.current, 17int,
{
    if !s.check(k, TokenType::RightParen) {
        lemma_arguments(k, s, Seq::empty());
    }
}

/// Calls and property accesses behind an expression never go back.
pub proof fn lemma_call_rest(k: Seq<TokenType>, s: PState, expr: usize)
    requires
        on_token(k, s),
    ensures
        went_on(k, s, spec_call_rest(k, s, expr).state),
    decreases k.len() - s.current, 4int,
{
    if s.check(k, TokenType::LeftParen) {
        lemma_finish_call(k, s.advance(k), expr);
        let call = spec_finish_call(k, s.advance(k), expr);
        if let Some(id) = call.result {
            if call.state.beyond(s, k) {
                lemma_call_rest(k, call.state, id);
            }
        }
    } else if s.check(k, TokenType::Dot) {
        let name = spec_consume(
            k,
            s.advance(k),
            TokenType::Identifier,
            SyntaxError::ExpectPropertyName,
        );
        if let Some(name_token) = name.result {
            let get = name.state.emit_expr(Expr::Get { object: expr, name: name_token });
            if get.state.beyond(s, k) {
                lemma_call_rest(k, get.state, get.result.unwrap());
            }
        }
    }
}

/// A call expression takes at least one token.
pub proof fn lemma_call(k: Seq<TokenType>, s: PState)
    requires
        on_token(k, s),
    ensures
        consumed(k, s, spec_call(k, s)),
    decreases k.len() - s.current, 4int,
{
    lemma_primary(k, s);
    let primary = spec_primary(k, s);
    if let Some(id) = primary.result {
        if primary.state.beyond(s, k) {
            lemma_call_rest(k, primary.state, id);
        }
    }
}

/// A unary expression takes at least one token.
pub proof fn lemma_unary(k: Seq<TokenType>, s: PState)
    requires
        on_token(k, s),
    ensures
        consumed(k, s, spec_unary(k, s)),
    decreases k.len() - s.current, 5int,
{
    if s.check(k, TokenType::Bang) || s.check(k, TokenType::Minus) {
        lemma_unary(k, s.advance(k));
    } else {
        lemma_call(k, s);
    }
}

/// Operators and right operands behind a left operand never go back.
pub proof fn lemma_binary_rest(k: Seq<TokenType>, s: PState, level: nat, left: usize)
    requires
        on_token(k, s),
    ensures
        went_on(k, s, spec_binary_rest(k, s, level, left).state),
    decreases k.len() - s.current, 6int + level,
{
    if level >= 1 && !s.at_end(k) && level_operator(level, k[s.current]) {
        lemma_binary(k, s.advance(k), (level - 1) as nat);
        let operand = spec_binary(k, s.advance(k), (level - 1) as nat);
        if let Some(right) = operand.result {
            let node = operand.state.emit_expr(
                crate::grammar::level_node(level, left, s.current as usize, right),
            );
            if node.state.beyond(s, k) {
                lemma_binary_rest(k, node.state, level, node.result.unwrap());
            }
        }
    }
}

/// An expression of any precedence level takes at least one token.
pub proof fn lemma_binary(k: Seq<TokenType>, s: PState, level: nat)
    requires
        on_token(k, s),
    ensures
        consumed(k, s, spec_binary(k, s, level)),
    decreases k.len() - s.current, 6int + level,
{
    if level == 0 {
        lemma_unary(k, s);
    } else {
        lemma_binary(k, s, (level - 1) as nat);
        let first = spec_binary(k, s, (level - 1) as nat);
        if let Some(left) = first.result {
            if first.state.beyond(s, k) {
                lemma_binary_rest(k, first.state, level, left);
            }
        }
    }
}

/// An assignment takes at least one token.
pub proof fn lemma_assignment(k: Seq<TokenType>, s: PState)
    requires
        on_token(k, s),
    ensures
        consumed(k, s, spec_assignment(k, s)),
    decreases k.len() - s.current, 14int,
{
    lemma_binary(k, s, LEVEL_OR as nat);
    let target = spec_binary(k, s, LEVEL_OR as nat);
    if target.result is Some && target.state.check(k, TokenType::Equal) {
        let next = target.state.advance(k);
        if next.beyond(s, k) {
            lemma_assignment(k, next);
        }
    }
}

/// An expression takes at least one token.
pub proof fn lemma_expression(k: Seq<TokenType>, s: PState)
    requires
        on_token(k, s),
    ensures
        consumed(k, s, spec_expression(k, s)),
    decreases k.len() - s.current, 15int,
{
    lemma_assignment(k, s);
}

/// Skipping to a statement boundary never goes back.
pub proof fn lemma_synchronize_rest(k: Seq<TokenType>, s: PState)
    requires
        on_token(k, s),
    ensures
        went_on(k, s, spec_synchronize_rest(k, s)),
    decreases k.len() - s.current,
{
    if !s.at_end(k) && !(s.current >= 1 && k[s.current - 1] == TokenType::Semicolon)
        && !crate::grammar::is_statement_start(k[s.current]) {
        lemma_synchronize_rest(k, s.advance(k));
    }
}

/// Recovery gives up at least one token, unless it starts at the end.
pub proof fn lemma_synchronize(k: Seq<TokenType>, s: PState)
    requires
        on_token(k, s),
    ensures
        went_on(k, s, spec_synchronize(k, s)),
        !s.at_end(k) ==> spec_synchronize(k, s).current > s.current,
{
    lemma_synchronize_rest(k, s.advance(k));
}

/// A list of parameters takes at least one token.
pub proof fn lemma_parameters(k: Seq<TokenType>, s: PState, acc: Seq<usize>)
    requires
        on_token(k, s),
    ensures
        consumed_list(k, s, spec_parameters(k, s, acc)),
    decreases k.len() - s.current,
{
    let start = if acc.len() >= MAX_ARITY {
        s.report(SyntaxError::TooManyParameters)
    } else {
        s
    };
    let name = spec_consume(k, start, TokenType::Identifier, SyntaxError::ExpectParameterName);
    if let Some(token) = name.result {
        if name.state.check(k, TokenType::Comma) {
            lemma_parameters(k, name.state.advance(k), acc.push(token));
        }
    }
}

/// An expression statement takes at least one token.
pub proof fn lemma_expression_statement(k: Seq<TokenType>, s: PState)
    requires
        on_token(k, s),
    ensures
        consumed(k, s, spec_expression_statement(k, s)),
    decreases k.len() - s.current, 18int,
{
    lemma_expression(k, s);
}

/// A print statement never goes back.
pub proof fn lemma_print_statement(k: Seq<TokenType>, s: PState)
    requires
        on_token(k, s),
    ensures
        went_on(k, s, spec_print_statement(k, s).state),
    decreases k.len() - s.current, 18int,
{
    lemma_expression(k, s);
}

/// A return statement never goes back.
pub proof fn lemma_return_statement(k: Seq<TokenType>, s: PState, keyword: usize)
    requires
        on_token(k, s),
    ensures
        went_on(k, s, spec_return_statement(k, s, keyword).state),
    decreases k.len() - s.current, 18int,
{
    if !s.check(k, TokenType::Semicolon) {
        lemma_expression(k, s);
    }
}

/// A variable declaration never goes back.
pub proof fn lemma_var_declaration(k: Seq<TokenType>, s: PState)
    requires
        on_token(k, s),
    ensures
        went_on(k, s, spec_var_declaration(k, s).state),
    decreases k.len() - s.current, 21int,
{
    let name = spec_consume(k, s, TokenType::Identifier, SyntaxError::ExpectVariableName);
    if name.result is Some && name.state.check(k, TokenType::Equal) {
        lemma_expression(k, name.state.advance(k));
    }
}

/// A condition in parentheses takes at least one token.
pub proof fn lemma_condition(
    k: Seq<TokenType>,
    s: PState,
    before: SyntaxError,
    after: SyntaxError,
)
    requires
        on_token(k, s),
    ensures
        consumed(k, s, spec_condition(k, s, before, after)),
    decreases k.len() - s.current, 18int,
{
    let open = spec_consume(k, s, TokenType::LeftParen, before);
    if open.result is Some {
        lemma_expression(k, open.state);
    }
}

/// A while statement never goes back.
pub proof fn lemma_while_statement(k: Seq<TokenType>, s: PState)
    requires
        on_token(k, s),
    ensures
        went_on(k, s, spec_while_statement(k, s).state),
    decreases k.len() - s.current, 19int,
{
    lemma_condition(
        k,
        s,
        SyntaxError::ExpectParenAfterWhile,
        SyntaxError::ExpectParenAfterCondition,
    );
    let head = spec_condition(
        k,
        s,
        SyntaxError::ExpectParenAfterWhile,
        SyntaxError::ExpectParenAfterCondition,
    );
    if head.result is Some && head.state.beyond(s, k) {
        lemma_statement(k, head.state);
    }
}

/// An if statement never goes back.
pub proof fn lemma_if_statement(k: Seq<TokenType>, s: PState)
    requires
        on_token(k, s),
    ensures
        went_on(k, s, spec_if_statement(k, s).state),
    decreases k.len() - s.current, 19int,
{
    lemma_condition(k, s, SyntaxError::ExpectParenAfterIf, SyntaxError::ExpectParenAfterIfCondition);
    let head = spec_condition(
        k,
        s,
        SyntaxError::ExpectParenAfterIf,
        SyntaxError::ExpectParenAfterIfCondition,
    );
    if head.result is Some && head.state.beyond(s, k) {
        lemma_statement(k, head.state);
        let then = spec_statement(k, head.state);
        if then.result is Some && then.state.check(k, TokenType::Else) {
            let next = then.state.advance(k);
            if next.beyond(s, k) {
                lemma_statement(k, next);
            }
        }
    }
}

/// The body of a for loop never goes back.
pub proof fn lemma_for_body(
    k: Seq<TokenType>,
    s: PState,
    initializer: Option<usize>,
    condition: Option<usize>,
    increment: Option<usize>,
)
    requires
        on_token(k, s),
    ensures
        went_on(k, s, spec_for_body(k, s, initializer, condition, increment).state),
    decreases k.len() - s.current, 19int,
{
    let close = spec_consume(k, s, TokenType::RightParen, SyntaxError::ExpectParenAfterForClauses);
    if close.result is Some {
        lemma_statement(k, close.state);
    }
}

/// The increment clause of a for loop never goes back.
pub proof fn lemma_for_increment(
    k: Seq<TokenType>,
    s: PState,
    initializer: Option<usize>,
    condition: Option<usize>,
)
    requires
        on_token(k, s),
    ensures
        went_on(k, s, spec_for_increment(k, s, initializer, condition).state),
    decreases k.len() - s.current, 19int,
{
    let semicolon = spec_consume(
        k,
        s,
        TokenType::Semicolon,
        SyntaxError::ExpectSemicolonAfterLoopCondition,
    );
    if semicolon.result is Some {
        if semicolon.state.check(k, TokenType::RightParen) {
            lemma_for_body(k, semicolon.state, initializer, condition, None);
        } else {
            lemma_expression(k, semicolon.state);
            let increment = spec_expression(k, semicolon.state);
            if let Some(expression) = increment.result {
                if increment.state.beyond(s, k) {
                    lemma_for_body(k, increment.state, initializer, condition, Some(expression));
                }
            }
        }
    }
}

/// The condition clause of a for loop never goes back.
pub proof fn lemma_for_condition(k: Seq<TokenType>, s: PState, initializer: Option<usize>)
    requires
        on_token(k, s),
    ensures
        went_on(k, s, spec_for_condition(k, s, initializer).state),
    decreases k.len() - s.current, 20int,
{
    if s.check(k, TokenType::Semicolon) {
        lemma_for_increment(k, s, initializer, None);
    } else {
        lemma_expression(k, s);
        let condition = spec_expression(k, s);
        if let Some(expression) = condition.result {
            if condition.state.beyond(s, k) {
                lemma_for_increment(k, condition.state, initializer, Some(expression));
            }
        }
    }
}

/// A for statement never goes back.
pub proof fn lemma_for_statement(k: Seq<TokenType>, s: PState)
    requires
        on_token(k, s),
    ensures
        went_on(k, s, spec_for_statement(k, s).state),
    decreases k.len() - s.current, 22int,
{
    let open = spec_consume(k, s, TokenType::LeftParen, SyntaxError::ExpectParenAfterFor);
    if open.result is Some {
        if open.state.check(k, TokenType::Semicolon) {
            lemma_for_condition(k, open.state.advance(k), None);
        } else {
            let initializer = if open.state.check(k, TokenType::Var) {
                lemma_var_declaration(k, open.state.advance(k));
                spec_var_declaration(k, open.state.advance(k))
            } else {
                lemma_expression_statement(k, open.state);
                spec_expression_statement(k, open.state)
            };
            if let Some(first) = initializer.result {
                if initializer.state.beyond(s, k) {
                    lemma_for_condition(k, initializer.state, Some(first));
                }
            }
        }
    }
}

/// The declarations of a block take at least its closing brace.
pub proof fn lemma_block_items(k: Seq<TokenType>, s: PState, acc: Seq<usize>)
    requires
        on_token(k, s),
    ensures
        consumed_list(k, s, spec_block_items(k, s, acc)),
    decreases k.len() - s.current, 26int,
{
    if !s.check(k, TokenType::RightBrace) && !s.at_end(k) {
        lemma_declaration(k, s);
        let item = spec_declaration(k, s);
        let items = match item.result {
            Some(id) => acc.push(id),
            None => acc,
        };
        if item.state.beyond(s, k) {
            lemma_block_items(k, item.state, items);
        }
    }
}

/// A block takes at least its closing brace.
pub proof fn lemma_block(k: Seq<TokenType>, s: PState)
    requires
        on_token(k, s),
    ensures
        consumed_list(k, s, spec_block(k, s)),
    decreases k.len() - s.current, 27int,
{
    lemma_block_items(k, s, Seq::empty());
}

/// A statement takes at least one token.
pub proof fn lemma_statement(k: Seq<TokenType>, s: PState)
    requires
        on_token(k, s),
    ensures
        consumed(k, s, spec_statement(k, s)),
    decreases k.len() - s.current, 23int,
{
    if s.check(k, TokenType::For) {
        lemma_for_statement(k, s.advance(k));
    } else if s.check(k, TokenType::If) {
        lemma_if_statement(k, s.advance(k));
    } else if s.check(k, TokenType::Print) {
        lemma_print_statement(k, s.advance(k));
    } else if s.check(k, TokenType::Return) {
        lemma_return_statement(k, s.advance(k), s.current as usize);
    } else if s.check(k, TokenType::While) {
        lemma_while_statement(k, s.advance(k));
    } else if s.check(k, TokenType::LeftBrace) {
        lemma_block(k, s.advance(k));
    } else {
        lemma_expression_statement(k, s);
    }
}

/// A function takes at least one token.
pub proof fn lemma_function(k: Seq<TokenType>, s: PState, kind: FunctionKind)
    requires
        on_token(k, s),
    ensures
        consumed(k, s, spec_function(k, s, kind)),
    decreases k.len() - s.current, 24int,
{
    let name = spec_consume(k, s, TokenType::Identifier, SyntaxError::ExpectName(kind));
    if name.result is Some {
        let open = spec_consume(
            k,
            name.state,
            TokenType::LeftParen,
            SyntaxError::ExpectParenAfterName(kind),
        );
        if open.result is Some {
            let params = if open.state.check(k, TokenType::RightParen) {
                ParsedList { state: open.state, result: Some(Seq::empty()) }
            } else {
                lemma_parameters(k, open.state, Seq::empty());
                spec_parameters(k, open.state, Seq::empty())
            };
            if params.result is Some {
                let close = spec_consume(
                    k,
                    params.state,
                    TokenType::RightParen,
                    SyntaxError::ExpectParenAfterParameters,
                );
                if close.result is Some {
                    let brace = spec_consume(
                        k,
                        close.state,
                        TokenType::LeftBrace,
                        SyntaxError::ExpectBraceBeforeBody(kind),
                    );
                    if brace.result is Some && brace.state.beyond(s, k) {
                        lemma_block(k, brace.state);
                    }
                }
            }
        }
    }
}

/// The methods of a class body never go back.
pub proof fn lemma_methods(k: Seq<TokenType>, s: PState, acc: Seq<usize>)
    requires
        on_token(k, s),
    ensures
        went_on(k, s, spec_methods(k, s, acc).state),
    decreases k.len() - s.current, 25int,
{
    if !s.check(k, TokenType::RightBrace) && !s.at_end(k) {
        lemma_function(k, s, FunctionKind::Method);
        let method = spec_function(k, s, FunctionKind::Method);
        if let Some(id) = method.result {
            if method.state.beyond(s, k) {
                lemma_methods(k, method.state, acc.push(id));
            }
        }
    }
}

/// A class body takes at least one token.
pub proof fn lemma_class_body(
    k: Seq<TokenType>,
    s: PState,
    name: usize,
    superclass: Option<usize>,
)
    requires
        on_token(k, s),
    ensures
        consumed(k, s, spec_class_body(k, s, name, superclass)),
    decreases k.len() - s.current, 26int,
{
    let brace = spec_consume(k, s, TokenType::LeftBrace, SyntaxError::ExpectBraceBeforeClassBody);
    if brace.result is Some {
        lemma_methods(k, brace.state, Seq::empty());
    }
}

/// A class declaration takes at least one token.
pub proof fn lemma_class_declaration(k: Seq<TokenType>, s: PState)
    requires
        on_token(k, s),
    ensures
        consumed(k, s, spec_class_declaration(k, s)),
    decreases k.len() - s.current, 27int,
{
    let name = spec_consume(k, s, TokenType::Identifier, SyntaxError::ExpectClassName);
    if let Some(name_token) = name.result {
        if name.state.check(k, TokenType::Less) {
            let parent = spec_consume(
                k,
                name.state.advance(k),
                TokenType::Identifier,
                SyntaxError::ExpectSuperclassName,
            );
            if let Some(parent_token) = parent.result {
                let variable = parent.state.emit_expr(Expr::Variable { name: parent_token });
                lemma_class_body(k, variable.state, name_token, variable.result);
            }
        } else {
            lemma_class_body(k, name.state, name_token, None);
        }
    }
}

/// A declaration never goes back, and unless it starts at the end of the
/// tokens it takes at least one token, whether it parses or not.
pub proof fn lemma_declaration(k: Seq<TokenType>, s: PState)
    requires
        on_token(k, s),
    ensures
        went_on(k, s, spec_declaration(k, s).state),
        !s.at_end(k) ==> spec_declaration(k, s).state.current > s.current,
    decreases k.len() - s.current, 25int,
{
    let parsed = if s.check(k, TokenType::Class) {
        lemma_class_declaration(k, s.advance(k));
        spec_class_declaration(k, s.advance(k))
    } else if s.check(k, TokenType::Fn) {
        lemma_function(k, s.advance(k), FunctionKind::Function);
        spec_function(k, s.advance(k), FunctionKind::Function)
    } else if s.check(k, TokenType::Var) {
        lemma_var_declaration(k, s.advance(k));
        spec_var_declaration(k, s.advance(k))
    } else {
        lemma_statement(k, s);
        spec_statement(k, s)
    };
    if parsed.result is None {
        lemma_synchronize(k, parsed.state);
    }
}

/// Parsing a program never goes back, always gives a list, and ends at
/// the end-of-file token.
pub proof fn lemma_program(k: Seq<TokenType>, s: PState, acc: Seq<usize>)
    requires
        on_token(k, s),
    ensures
        went_on(k, s, spec_program(k, s, acc).state),
        spec_program(k, s, acc).result is Some,
        spec_program(k, s, acc).state.at_end(k),
    decreases k.len() - s.current,
{
    reveal(spec_program);
    if !s.at_end(k) {
        lemma_declaration(k, s);
        let item = spec_declaration(k, s);
        let items = match item.result {
            Some(id) => acc.push(id),
            None => acc,
        };
        lemma_program(k, item.state, items);
    }
}

} // verus!
