use crate::grammar::{
    level_node, level_operator, spec_arguments, spec_assignment, spec_binary, spec_binary_rest,
    spec_call, spec_call_rest, spec_consume, spec_expression, spec_finish_call, spec_primary,
    spec_unary, PState, ParseDiagnostic, SyntaxError, LEVEL_OR, MAX_ARITY,
};
use crate::token::TokenType;
use vstd::prelude::*;

verus! {

// A call may pass 255 arguments. Each argument beyond that is reported
// once, at the token where it starts, and parsed all the same: the list of
// arguments reports nothing else of its own.

/// The state `t` holds the errors of `s`, where they were, and maybe more
/// behind them.
pub open spec fn errors_kept(s: PState, t: PState) -> bool {
    &&& s.errors.len() <= t.errors.len()
    &&& forall|i: int| 0 <= i < s.errors.len() ==> #[trigger] t.errors[i] == s.errors[i]
}

/// Keeping errors twice is keeping them.
pub proof fn lemma_errors_kept_twice(s: PState, m: PState, t: PState)
    requires
        errors_kept(s, m),
        errors_kept(m, t),
    ensures
        errors_kept(s, t),
{
    assert forall|i: int| 0 <= i < s.errors.len() implies #[trigger] t.errors[i] == s.errors[i] by {
        assert(m.errors[i] == s.errors[i]);
    }
}

/// primary keeps the errors that were found.
pub proof fn lemma_primary_keeps(k: Seq<TokenType>, s: PState)
    ensures
        errors_kept(s, spec_primary(k, s).state),
    decreases k.len() - s.current, 3int,
{
    if s.check(k, TokenType::LeftParen) {
        lemma_expression_keeps(k, s.advance(k));
        let inner = spec_expression(k, s.advance(k));
        lemma_errors_kept_twice(s, inner.state, spec_primary(k, s).state);
    }
}

/// arguments keeps the errors that were found.
pub proof fn lemma_arguments_keeps(k: Seq<TokenType>, s: PState, acc: Seq<usize>)
    ensures
        errors_kept(s, spec_arguments(k, s, acc).state),
    decreases k.len() - s.current, 16int,
{
    let start = argument_start(s, acc);
    lemma_expression_keeps(k, start);
    let argument = spec_expression(k, start);
    lemma_errors_kept_twice(s, start, argument.state);
    if let Some(id) = argument.result {
        if argument.state.check(k, TokenType::Comma) {
            let next = argument.state.advance(k);
            if next.beyond(s, k) {
                lemma_arguments_keeps(k, next, acc.push(id));
                lemma_errors_kept_twice(s, next, spec_arguments(k, next, acc.push(id)).state);
            }
        }
    }
}

/// The rest of a call keeps the errors that were found.
pub proof fn lemma_finish_call_keeps(k: Seq<TokenType>, s: PState, callee: usize)
    ensures
        errors_kept(s, spec_finish_call(k, s, callee).state),
    decreases k.len() - s.current, 17int,
{
    if !s.check(k, TokenType::RightParen) {
        lemma_arguments_keeps(k, s, Seq::empty());
        let arguments = spec_arguments(k, s, Seq::empty());
        lemma_errors_kept_twice(s, arguments.state, spec_finish_call(k, s, callee).state);
    }
}

/// The calls and property accesses behind an expression keep the errors
/// that were found.
pub proof fn lemma_call_rest_keeps(k: Seq<TokenType>, s: PState, expr: usize)
    ensures
        errors_kept(s, spec_call_rest(k, s, expr).state),
    decreases k.len() - s.current, 4int,
{
    if s.check(k, TokenType::LeftParen) {
        lemma_finish_call_keeps(k, s.advance(k), expr);
        let call = spec_finish_call(k, s.advance(k), expr);
        if let Some(id) = call.result {
            if call.state.beyond(s, k) {
                lemma_call_rest_keeps(k, call.state, id);
                lemma_errors_kept_twice(s, call.state, spec_call_rest(k, call.state, id).state);
            }
        }
    } else if s.check(k, TokenType::Dot) {
        let name = spec_consume(
            k,
            s.advance(k),
            TokenType::Identifier,
            SyntaxError::ExpectPropertyName,
        );
        if let Some(name_token) = name.result {
            let get = name.state.emit_expr(crate::expr::Expr::Get { object: expr, name: name_token });
            if get.state.beyond(s, k) {
                lemma_call_rest_keeps(k, get.state, get.result.unwrap());
                lemma_errors_kept_twice(
                    s,
                    get.state,
                    spec_call_rest(k, get.state, get.result.unwrap()).state,
                );
            }
        }
    }
}

/// call keeps the errors that were found.
pub proof fn lemma_call_keeps(k: Seq<TokenType>, s: PState)
    ensures
        errors_kept(s, spec_call(k, s).state),
    decreases k.len() - s.current, 4int,
{
    lemma_primary_keeps(k, s);
    let primary = spec_primary(k, s);
    if let Some(id) = primary.result {
        if primary.state.beyond(s, k) {
            lemma_call_rest_keeps(k, primary.state, id);
            lemma_errors_kept_twice(s, primary.state, spec_call_rest(k, primary.state, id).state);
        }
    }
}

/// unary keeps the errors that were found.
pub proof fn lemma_unary_keeps(k: Seq<TokenType>, s: PState)
    ensures
        errors_kept(s, spec_unary(k, s).state),
    decreases k.len() - s.current, 5int,
{
    if s.check(k, TokenType::Bang) || s.check(k, TokenType::Minus) {
        lemma_unary_keeps(k, s.advance(k));
    } else {
        lemma_call_keeps(k, s);
    }
}

/// The operators of a level and their operands keep the errors that were
/// found.
pub proof fn lemma_binary_rest_keeps(k: Seq<TokenType>, s: PState, level: nat, left: usize)
    ensures
        errors_kept(s, spec_binary_rest(k, s, level, left).state),
    decreases k.len() - s.current, 6int + level,
{
    if level >= 1 && !s.at_end(k) && level_operator(level, k[s.current]) {
        lemma_binary_keeps(k, s.advance(k), (level - 1) as nat);
        let operand = spec_binary(k, s.advance(k), (level - 1) as nat);
        if let Some(right) = operand.result {
            let node = operand.state.emit_expr(level_node(level, left, s.current as usize, right));
            if node.state.beyond(s, k) {
                lemma_binary_rest_keeps(k, node.state, level, node.result.unwrap());
                lemma_errors_kept_twice(
                    s,
                    node.state,
                    spec_binary_rest(k, node.state, level, node.result.unwrap()).state,
                );
            }
        }
    }
}

/// An expression of a precedence level keeps the errors that were found.
pub proof fn lemma_binary_keeps(k: Seq<TokenType>, s: PState, level: nat)
    ensures
        errors_kept(s, spec_binary(k, s, level).state),
    decreases k.len() - s.current, 6int + level,
{
    if level == 0 {
        lemma_unary_keeps(k, s);
    } else {
        lemma_binary_keeps(k, s, (level - 1) as nat);
        let first = spec_binary(k, s, (level - 1) as nat);
        if let Some(left) = first.result {
            if first.state.beyond(s, k) {
                lemma_binary_rest_keeps(k, first.state, level, left);
                lemma_errors_kept_twice(
                    s,
                    first.state,
                    spec_binary_rest(k, first.state, level, left).state,
                );
            }
        }
    }
}

/// assignment keeps the errors that were found.
pub proof fn lemma_assignment_keeps(k: Seq<TokenType>, s: PState)
    ensures
        errors_kept(s, spec_assignment(k, s).state),
    decreases k.len() - s.current, 14int,
{
    lemma_binary_keeps(k, s, LEVEL_OR as nat);
    let target = spec_binary(k, s, LEVEL_OR as nat);
    if let Some(left) = target.result {
        if target.state.check(k, TokenType::Equal) {
            let next = target.state.advance(k);
            if next.beyond(s, k) {
                lemma_assignment_keeps(k, next);
                let value = spec_assignment(k, next);
                lemma_errors_kept_twice(s, next, value.state);
                lemma_errors_kept_twice(s, value.state, spec_assignment(k, s).state);
            }
        }
    }
}

/// expression keeps the errors that were found.
pub proof fn lemma_expression_keeps(k: Seq<TokenType>, s: PState)
    ensures
        errors_kept(s, spec_expression(k, s).state),
    decreases k.len() - s.current, 15int,
{
    lemma_assignment_keeps(k, s);
}

/// The state in which the next argument of a list is parsed, when `acc`
/// are the arguments before it: an argument beyond the cap is reported
/// first, at the cursor, which stands where the argument starts.
pub open spec fn argument_start(s: PState, acc: Seq<usize>) -> PState {
    if acc.len() >= MAX_ARITY {
        s.report(SyntaxError::TooManyArguments)
    } else {
        s
    }
}

/// How many of the arguments at the places from `before` up to `after` of
/// a list stand beyond the cap.
pub open spec fn beyond_cap(before: nat, after: nat) -> nat {
    if after <= before || after <= MAX_ARITY {
        0
    } else if before >= MAX_ARITY {
        (after - before) as nat
    } else {
        (after - MAX_ARITY) as nat
    }
}

/// How many errors are found inside the arguments of a list, while they
/// are parsed as expressions.
pub open spec fn errors_inside(k: Seq<TokenType>, s: PState, acc: Seq<usize>) -> int
    decreases k.len() - s.current,
{
    let start = argument_start(s, acc);
    let argument = spec_expression(k, start);
    let inside = argument.state.errors.len() - start.errors.len();
    match argument.result {
        Some(id) => if argument.state.check(k, TokenType::Comma) && argument.state.advance(
            k,
        ).beyond(s, k) {
            inside + errors_inside(k, argument.state.advance(k), acc.push(id))
        } else {
            inside
        },
        None => inside,
    }
}

/// The token at which the argument at the place `place` of a list starts,
/// when `acc` are the arguments before the cursor.
pub open spec fn argument_place(k: Seq<TokenType>, s: PState, acc: Seq<usize>, place: nat) -> int
    decreases k.len() - s.current,
{
    if place <= acc.len() {
        s.current
    } else {
        let argument = spec_expression(k, argument_start(s, acc));
        match argument.result {
            Some(id) => if argument.state.check(k, TokenType::Comma) && argument.state.advance(
                k,
            ).beyond(s, k) {
                argument_place(k, argument.state.advance(k), acc.push(id), place)
            } else {
                s.current
            },
            None => s.current,
        }
    }
}

/// A list of arguments that parses adds to the errors those found inside
/// its arguments and one for each argument beyond the cap, and no other.
pub proof fn lemma_arguments_errors(k: Seq<TokenType>, s: PState, acc: Seq<usize>)
    ensures
        spec_arguments(k, s, acc).result matches Some(items) ==> items.len() > acc.len()
            && spec_arguments(k, s, acc).state.errors.len() == s.errors.len() + errors_inside(
            k,
            s,
            acc,
        ) + beyond_cap(acc.len(), items.len()),
    decreases k.len() - s.current,
{
    let start = argument_start(s, acc);
    let argument = spec_expression(k, start);
    if let Some(id) = argument.result {
        if argument.state.check(k, TokenType::Comma) {
            let next = argument.state.advance(k);
            if next.beyond(s, k) {
                lemma_arguments_errors(k, next, acc.push(id));
            }
        }
    }
}

/// The error that the outcome of a list of arguments holds at the place
/// `i`, for an argument beyond the cap that starts at `token`.
pub open spec fn reported_at(out: PState, i: int, token: int) -> bool {
    0 <= i < out.errors.len() && out.errors[i] == (ParseDiagnostic {
        token: token as usize,
        kind: SyntaxError::TooManyArguments,
    })
}

/// The next argument of a list, if it stands beyond the cap, is reported
/// at the token where it starts, as the first error that the list adds.
pub proof fn lemma_next_argument_reported(k: Seq<TokenType>, s: PState, acc: Seq<usize>)
    requires
        acc.len() >= MAX_ARITY,
    ensures
        reported_at(spec_arguments(k, s, acc).state, s.errors.len() as int, s.current),
{
    let start = argument_start(s, acc);
    let i = s.errors.len() as int;
    assert(reported_at(start, i, s.current));
    lemma_expression_keeps(k, start);
    let argument = spec_expression(k, start);
    assert(argument.state.errors[i] == start.errors[i]);
    if let Some(id) = argument.result {
        if argument.state.check(k, TokenType::Comma) {
            let next = argument.state.advance(k);
            if next.beyond(s, k) {
                lemma_arguments_keeps(k, next, acc.push(id));
                assert(spec_arguments(k, next, acc.push(id)).state.errors[i] == next.errors[i]);
            }
        }
    }
}

/// An argument beyond the cap is reported at the token where it starts:
/// in a list that parses, the errors that the list adds hold, for every
/// place beyond the cap, an error of that kind at the token where the
/// argument at that place starts.
pub proof fn lemma_arguments_reported(k: Seq<TokenType>, s: PState, acc: Seq<usize>, place: nat)
    requires
        spec_arguments(k, s, acc).result matches Some(items) && acc.len() <= place < items.len(),
        place >= MAX_ARITY,
    ensures
        exists|i: int|
            s.errors.len() <= i && #[trigger] reported_at(
                spec_arguments(k, s, acc).state,
                i,
                argument_place(k, s, acc, place),
            ),
    decreases k.len() - s.current,
{
    let out = spec_arguments(k, s, acc);
    if place == acc.len() {
        lemma_next_argument_reported(k, s, acc);
        assert(reported_at(out.state, s.errors.len() as int, argument_place(k, s, acc, place)));
    } else {
        let start = argument_start(s, acc);
        let argument = spec_expression(k, start);
        lemma_expression_keeps(k, start);
        let id = argument.result.unwrap();
        let next = argument.state.advance(k);
        if argument.state.check(k, TokenType::Comma) && next.beyond(s, k) {
            lemma_arguments_reported(k, next, acc.push(id), place);
            let i = choose|i: int|
                next.errors.len() <= i && #[trigger] reported_at(
                    spec_arguments(k, next, acc.push(id)).state,
                    i,
                    argument_place(k, next, acc.push(id), place),
                );
            assert(reported_at(out.state, i, argument_place(k, s, acc, place)));
        } else {
            lemma_arguments_errors(k, s, acc);
        }
    }
}

/// 256 arguments at a call give exactly one error, at the 256th: where a
/// list of 256 arguments parses and no error is found inside the
/// arguments, one error is added, which says that there are too many
/// arguments and stands at the token where the 256th argument starts.
pub proof fn lemma_one_argument_too_many(k: Seq<TokenType>, s: PState)
    requires
        spec_arguments(k, s, Seq::empty()).result matches Some(items) && items.len() == MAX_ARITY
            + 1,
        errors_inside(k, s, Seq::empty()) == 0,
    ensures
        spec_arguments(k, s, Seq::empty()).state.errors == s.errors.push(
            ParseDiagnostic {
                token: argument_place(k, s, Seq::empty(), MAX_ARITY as nat) as usize,
                kind: SyntaxError::TooManyArguments,
            },
        ),
{
    let none = Seq::<usize>::empty();
    let out = spec_arguments(k, s, none);
    lemma_arguments_errors(k, s, none);
    lemma_arguments_reported(k, s, none, MAX_ARITY as nat);
    lemma_arguments_keeps(k, s, none);
    assert(out.state.errors.len() == s.errors.len() + 1);
    let i = choose|i: int|
        s.errors.len() <= i && #[trigger] reported_at(
            out.state,
            i,
            argument_place(k, s, none, MAX_ARITY as nat),
        );
    assert(i == s.errors.len());
    assert(out.state.errors =~= s.errors.push(
        ParseDiagnostic {
            token: argument_place(k, s, none, MAX_ARITY as nat) as usize,
            kind: SyntaxError::TooManyArguments,
        },
    ));
}

} // verus!
