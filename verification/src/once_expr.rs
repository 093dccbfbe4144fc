use crate::expr::{Constant, Expr, Span};
use crate::grammar::{
    assignment_node, level_node, level_operator, spec_arguments, spec_assignment, spec_binary,
    spec_binary_rest, spec_call, spec_call_rest, spec_consume, spec_expression, spec_finish_call,
    spec_primary, spec_unary, LEVEL_OR, MAX_ARITY, PState, Parsed, ParsedList, SyntaxError,
};
use crate::once::{
    expr_neat, grown, lemma_grown_twice, lemma_join, lemma_seen_expr_grown, neat, roomy, run_fits,
    stmt_neat,
};
use crate::token::TokenType;
use crate::uses::{between, seen_expr, seen_exprs, single};
use vstd::prelude::*;

verus! {

// The expressions that the parser makes are trees: what the grammar of
// expressions parses holds no use of a name twice, and only uses that were
// made while it was parsed.

/// The expression `id` is there; no use of a name occurs twice in it, and
/// its uses are expressions from `low` on.
pub open spec fn fresh_expr(t: PState, low: int, id: usize) -> bool {
    &&& id < t.exprs.len()
    &&& single(seen_expr(t.exprs, t.lists, id))
    &&& between(seen_expr(t.exprs, t.lists, id), low, t.exprs.len() as int)
}

/// What parsing an expression leaves: the tables have grown and are as the
/// grammar has them, and the expression that parsed holds no use twice,
/// and only uses from `low` on.
pub open spec fn gave_fresh(k: Seq<TokenType>, s: PState, low: int, out: Parsed) -> bool {
    &&& grown(s, out.state)
    &&& roomy(k, out.state) ==> neat(k, out.state) && (out.result matches Some(id)
        ==> fresh_expr(out.state, low, id))
}

/// The uses in the expressions `items` from the `i`-th on, one after the
/// other.
pub open spec fn seen_items(exprs: Seq<Expr>, lists: Seq<usize>, items: Seq<usize>, i: nat)
    -> Seq<usize>
    decreases items.len() - i,
{
    if i < items.len() {
        seen_expr(exprs, lists, items[i as int]) + seen_items(exprs, lists, items, i + 1)
    } else {
        Seq::empty()
    }
}

/// The expressions `items` are there; no use of a name occurs twice in
/// them, and their uses are expressions from `low` on.
pub open spec fn fresh_items(t: PState, low: int, items: Seq<usize>) -> bool {
    &&& forall|j: int| 0 <= j < items.len() ==> #[trigger] items[j] < t.exprs.len()
    &&& single(seen_items(t.exprs, t.lists, items, 0))
    &&& between(seen_items(t.exprs, t.lists, items, 0), low, t.exprs.len() as int)
}

/// What parsing a list of expressions leaves.
pub open spec fn gave_fresh_items(k: Seq<TokenType>, s: PState, low: int, out: ParsedList)
    -> bool {
    &&& grown(s, out.state)
    &&& roomy(k, out.state) ==> neat(k, out.state) && (out.result matches Some(items)
        ==> fresh_items(out.state, low, items))
}

/// An expression that was parsed stays as it is when the tables grow.
pub proof fn lemma_fresh_kept(k: Seq<TokenType>, s: PState, t: PState, low: int, id: usize)
    requires
        neat(k, s),
        grown(s, t),
        fresh_expr(s, low, id),
    ensures
        seen_expr(t.exprs, t.lists, id) == seen_expr(s.exprs, s.lists, id),
        fresh_expr(t, low, id),
{
    lemma_seen_expr_grown(k, s, t, id);
}

/// A new expression node that is as the grammar has it leaves the tables as
/// the grammar has them.
pub proof fn lemma_emit_expr(k: Seq<TokenType>, s: PState, e: Expr)
    requires
        neat(k, s),
        expr_neat(k, e, s.exprs.len() as int, s.lists.len() as int),
    ensures
        neat(k, s.emit_expr(e).state),
        grown(s, s.emit_expr(e).state),
        s.emit_expr(e).state.exprs.len() == s.exprs.len() + 1,
        s.emit_expr(e).state.exprs[s.exprs.len() as int] == e,
{
    let t = s.emit_expr(e).state;
    assert forall|i: int| 0 <= i < t.stmts.len() implies stmt_neat(
        k,
        #[trigger] t.stmts[i],
        i,
        t.exprs,
        t.stmts,
        t.lists.len() as int,
    ) by {
        assert(stmt_neat(k, s.stmts[i], i, s.exprs, s.stmts, s.lists.len() as int));
        if let crate::stmt::Stmt::Class { name, superclass, methods } = s.stmts[i] {
            if let Some(parent) = superclass {
                assert(t.exprs[parent as int] == s.exprs[parent as int]);
            }
        }
    }
}

/// A list appended to the list table leaves the tables as the grammar has
/// them.
pub proof fn lemma_emit_list(k: Seq<TokenType>, s: PState, items: Seq<usize>)
    requires
        neat(k, s),
    ensures
        neat(k, s.emit_list(items)),
        grown(s, s.emit_list(items)),
        run_fits(s.next_span(items), s.emit_list(items).lists.len() as int) || s.lists.len()
            + items.len() > usize::MAX,
{
    let t = s.emit_list(items);
    assert forall|i: int| 0 <= i < t.exprs.len() implies expr_neat(
        k,
        #[trigger] t.exprs[i],
        i,
        t.lists.len() as int,
    ) by {
        assert(expr_neat(k, s.exprs[i], i, s.lists.len() as int));
    }
    assert forall|i: int| 0 <= i < t.stmts.len() implies stmt_neat(
        k,
        #[trigger] t.stmts[i],
        i,
        t.exprs,
        t.stmts,
        t.lists.len() as int,
    ) by {
        assert(stmt_neat(k, s.stmts[i], i, s.exprs, s.stmts, s.lists.len() as int));
    }
}

/// A new node without an expression inside it holds at most itself as a
/// use.
pub proof fn lemma_leaf(k: Seq<TokenType>, s: PState, e: Expr)
    requires
        neat(k, s),
        expr_neat(k, e, s.exprs.len() as int, s.lists.len() as int),
        e is Literal || e is Variable || e is This || e is Super,
    ensures
        gave_fresh(k, s, s.exprs.len() as int, s.emit_expr(e)),
{
    lemma_emit_expr(k, s, e);
    let t = s.emit_expr(e).state;
    if roomy(k, t) {
        let id = s.exprs.len() as usize;
        assert(seen_expr(t.exprs, t.lists, id) =~= if e is Literal {
            Seq::<usize>::empty()
        } else {
            seq![id]
        });
    }
}

/// A new node around one expression holds the uses of that expression.
pub proof fn lemma_around(k: Seq<TokenType>, s: PState, e: Expr, child: usize, low: int)
    requires
        neat(k, s),
        fresh_expr(s, low, child),
        e == (Expr::Grouping { expression: child }) || (e matches Expr::Unary { right, .. }
            && right == child) || (e matches Expr::Get { object, .. } && object == child),
    ensures
        gave_fresh(k, s, low, s.emit_expr(e)),
{
    lemma_emit_expr(k, s, e);
    let t = s.emit_expr(e).state;
    if roomy(k, t) {
        let id = s.exprs.len() as usize;
        lemma_fresh_kept(k, s, t, low, child);
        assert(seen_expr(t.exprs, t.lists, id) == seen_expr(t.exprs, t.lists, child));
    }
}

/// A new node over two operands that were parsed one after the other holds
/// the uses of both.
pub proof fn lemma_over(
    k: Seq<TokenType>,
    s: PState,
    m: PState,
    e: Expr,
    first: usize,
    second: usize,
    low: int,
)
    requires
        neat(k, s),
        neat(k, m),
        grown(s, m),
        low <= s.exprs.len(),
        fresh_expr(s, low, first),
        fresh_expr(m, s.exprs.len() as int, second),
        (e matches Expr::Binary { left, right, .. } && left == first && right == second) || (
        e matches Expr::Logical { left, right, .. } && left == first && right == second),
    ensures
        gave_fresh(k, m, low, m.emit_expr(e)),
{
    lemma_emit_expr(k, m, e);
    let after = m.emit_expr(e).state;
    lemma_grown_twice(s, m, after);
    if roomy(k, after) {
        let id = m.exprs.len() as usize;
        lemma_fresh_kept(k, s, after, low, first);
        lemma_fresh_kept(k, m, after, s.exprs.len() as int, second);
        let a = seen_expr(after.exprs, after.lists, first);
        let b = seen_expr(after.exprs, after.lists, second);
        lemma_join(a, b, low, s.exprs.len() as int, m.exprs.len() as int);
        assert(seen_expr(after.exprs, after.lists, id) == a + b);
    }
}

/// A new assignment to a variable holds the uses of its value, and itself.
pub proof fn lemma_assign(k: Seq<TokenType>, s: PState, name: usize, value: usize, low: int)
    requires
        neat(k, s),
        low <= s.exprs.len(),
        fresh_expr(s, low, value),
    ensures
        gave_fresh(k, s, low, s.emit_expr(Expr::Assign { name, value })),
{
    let e = Expr::Assign { name, value };
    lemma_emit_expr(k, s, e);
    let t = s.emit_expr(e).state;
    if roomy(k, t) {
        let id = s.exprs.len() as usize;
        lemma_fresh_kept(k, s, t, low, value);
        let inner = seen_expr(t.exprs, t.lists, value);
        assert(seen_expr(t.exprs, t.lists, id) == inner.push(id));
        assert(inner.push(id) =~= inner + seq![id]);
        assert(single(seq![id]));
        assert(between(inner, low, id as int));
        lemma_join(inner, seq![id], low, id as int, id + 1);
    }
}

/// The uses in a list of expressions do not change when the tables grow.
pub proof fn lemma_items_grown(
    k: Seq<TokenType>,
    s: PState,
    t: PState,
    items: Seq<usize>,
    i: nat,
)
    requires
        neat(k, s),
        grown(s, t),
        forall|j: int| 0 <= j < items.len() ==> #[trigger] items[j] < s.exprs.len(),
    ensures
        seen_items(t.exprs, t.lists, items, i) == seen_items(s.exprs, s.lists, items, i),
    decreases items.len() - i,
{
    if i < items.len() {
        lemma_seen_expr_grown(k, s, t, items[i as int]);
        lemma_items_grown(k, s, t, items, i + 1);
    }
}

/// The uses in a list with one more expression are those of the list and
/// then those of the expression.
pub proof fn lemma_items_push(
    exprs: Seq<Expr>,
    lists: Seq<usize>,
    items: Seq<usize>,
    id: usize,
    i: nat,
)
    requires
        i <= items.len(),
    ensures
        seen_items(exprs, lists, items.push(id), i) == seen_items(exprs, lists, items, i)
            + seen_expr(exprs, lists, id),
    decreases items.len() - i,
{
    let more = items.push(id);
    if i < items.len() {
        lemma_items_push(exprs, lists, items, id, i + 1);
        assert(more[i as int] == items[i as int]);
        assert(seen_items(exprs, lists, more, i) =~= seen_items(exprs, lists, items, i)
            + seen_expr(exprs, lists, id));
    } else {
        assert(more[i as int] == id);
        assert(seen_items(exprs, lists, more, i + 1) =~= Seq::<usize>::empty());
        assert(seen_items(exprs, lists, more, i) =~= seen_items(exprs, lists, items, i)
            + seen_expr(exprs, lists, id));
    }
}

/// A list of expressions that were parsed one after the other, with one
/// more that was parsed after them, holds no use twice.
pub proof fn lemma_fresh_push(
    k: Seq<TokenType>,
    s: PState,
    m: PState,
    low: int,
    items: Seq<usize>,
    id: usize,
)
    requires
        neat(k, s),
        grown(s, m),
        low <= s.exprs.len(),
        fresh_items(s, low, items),
        fresh_expr(m, s.exprs.len() as int, id),
    ensures
        fresh_items(m, low, items.push(id)),
{
    lemma_items_grown(k, s, m, items, 0);
    lemma_items_push(m.exprs, m.lists, items, id, 0);
    lemma_join(
        seen_items(m.exprs, m.lists, items, 0),
        seen_expr(m.exprs, m.lists, id),
        low,
        s.exprs.len() as int,
        m.exprs.len() as int,
    );
}

/// The uses in a run of the list table that holds the expressions `items`
/// are the uses in `items`.
pub proof fn lemma_span_items(
    exprs: Seq<Expr>,
    lists: Seq<usize>,
    span: Span,
    items: Seq<usize>,
    i: nat,
    bound: usize,
)
    requires
        span.len == items.len(),
        span.start + span.len <= lists.len(),
        forall|j: int| 0 <= j < items.len() ==> lists[span.start + j] == #[trigger] items[j],
        forall|j: int| 0 <= j < items.len() ==> #[trigger] items[j] < bound,
    ensures
        seen_exprs(exprs, lists, span, i, bound) == seen_items(exprs, lists, items, i),
    decreases items.len() - i,
{
    if i < items.len() {
        assert(items[i as int] < bound);
        lemma_span_items(exprs, lists, span, items, i + 1, bound);
    }
}

/// A new call holds the uses of the callee and then those of the
/// arguments.
pub proof fn lemma_called(
    k: Seq<TokenType>,
    s: PState,
    m: PState,
    callee: usize,
    paren: usize,
    items: Seq<usize>,
    low: int,
)
    requires
        neat(k, s),
        neat(k, m),
        grown(s, m),
        low <= s.exprs.len(),
        fresh_expr(s, low, callee),
        fresh_items(m, s.exprs.len() as int, items),
    ensures
        gave_fresh(
            k,
            m,
            low,
            m.emit_list(items).emit_expr(
                Expr::Call { callee, paren, arguments: m.next_span(items) },
            ),
        ),
{
    let listed = m.emit_list(items);
    let span = m.next_span(items);
    let e = Expr::Call { callee, paren, arguments: span };
    let out = listed.emit_expr(e);
    let t = out.state;
    lemma_emit_list(k, m, items);
    if roomy(k, t) {
        assert(listed.lists.len() == t.lists.len());
        lemma_emit_expr(k, listed, e);
        lemma_grown_twice(m, listed, t);
        lemma_grown_twice(s, m, t);
        let id = m.exprs.len() as usize;
        lemma_fresh_kept(k, s, t, low, callee);
        lemma_items_grown(k, m, t, items, 0);
        assert forall|j: int| 0 <= j < items.len() implies t.lists[span.start + j]
            == #[trigger] items[j] by {
            assert(listed.lists[m.lists.len() + j] == items[j]);
        }
        lemma_span_items(t.exprs, t.lists, span, items, 0, id);
        let a = seen_expr(t.exprs, t.lists, callee);
        let b = seen_items(t.exprs, t.lists, items, 0);
        lemma_join(a, b, low, s.exprs.len() as int, m.exprs.len() as int);
        assert(seen_expr(t.exprs, t.lists, id) == a + b);
    } else {
        assert(grown(m, t)) by {
            lemma_grown_twice(
                m,
                listed,
                t,
            );
        }
    }
}

/// primary: what parses holds no use twice.
pub proof fn lemma_primary_fresh(k: Seq<TokenType>, s: PState)
    requires
        roomy(k, s) ==> neat(k, s),
    ensures
        gave_fresh(k, s, s.exprs.len() as int, spec_primary(k, s)),
    decreases k.len() - s.current, 3int,
{
    let next = s.advance(k);
    let low = s.exprs.len() as int;
    let out = spec_primary(k, s);
    if s.check(k, TokenType::Super) {
        let dot = spec_consume(k, next, TokenType::Dot, SyntaxError::ExpectDotAfterSuper);
        if dot.result is Some {
            let method = spec_consume(
                k,
                dot.state,
                TokenType::Identifier,
                SyntaxError::ExpectSuperclassMethodName,
            );
            if let Some(name) = method.result {
                if roomy(k, out.state) {
                    lemma_leaf(
                        k,
                        method.state,
                        Expr::Super { keyword: s.current as usize, method: name },
                    );
                }
            }
        }
    } else if s.check(k, TokenType::LeftParen) {
        lemma_expression_fresh(k, next);
        let inner = spec_expression(k, next);
        if let Some(expression) = inner.result {
            let close = spec_consume(
                k,
                inner.state,
                TokenType::RightParen,
                SyntaxError::ExpectParenAfterExpression,
            );
            if close.result is Some {
                let e = Expr::Grouping { expression };
                assert(grown(inner.state, out.state));
                lemma_grown_twice(s, inner.state, out.state);
                if roomy(k, out.state) {
                    lemma_around(k, close.state, e, expression, low);
                }
            }
        }
    } else if roomy(k, out.state) {
        if s.check(k, TokenType::False) {
            lemma_leaf(k, next, Expr::Literal { value: Constant::Boolean(false) });
        } else if s.check(k, TokenType::True) {
            lemma_leaf(k, next, Expr::Literal { value: Constant::Boolean(true) });
        } else if s.check(k, TokenType::Nil) {
            lemma_leaf(k, next, Expr::Literal { value: Constant::Nil });
        } else if s.check(k, TokenType::Number) || s.check(k, TokenType::String) {
            lemma_leaf(k, next, Expr::Literal { value: Constant::OfToken(s.current as usize) });
        } else if s.check(k, TokenType::This) {
            lemma_leaf(k, next, Expr::This { keyword: s.current as usize });
        } else if s.check(k, TokenType::Identifier) {
            lemma_leaf(k, next, Expr::Variable { name: s.current as usize });
        }
    }
}

/// arguments: what parses holds no use twice.
pub proof fn lemma_arguments_fresh(k: Seq<TokenType>, s: PState, acc: Seq<usize>, low: int)
    requires
        low <= s.exprs.len(),
        roomy(k, s) ==> neat(k, s) && fresh_items(s, low, acc),
    ensures
        gave_fresh_items(k, s, low, spec_arguments(k, s, acc)),
    decreases k.len() - s.current, 16int,
{
    let start = if acc.len() >= MAX_ARITY {
        s.report(SyntaxError::TooManyArguments)
    } else {
        s
    };
    lemma_expression_fresh(k, start);
    let argument = spec_expression(k, start);
    let m = argument.state;
    if let Some(id) = argument.result {
        if roomy(k, m) {
            lemma_fresh_push(k, s, m, low, acc, id);
        }
        if m.check(k, TokenType::Comma) {
            let next = m.advance(k);
            if next.beyond(s, k) {
                lemma_arguments_fresh(k, next, acc.push(id), low);
                lemma_grown_twice(s, m, spec_arguments(k, next, acc.push(id)).state);
            }
        }
    }
}

/// The rest of a call: what parses holds no use twice.
pub proof fn lemma_finish_call_fresh(k: Seq<TokenType>, s: PState, callee: usize, low: int)
    requires
        low <= s.exprs.len(),
        roomy(k, s) ==> neat(k, s) && fresh_expr(s, low, callee),
    ensures
        gave_fresh(k, s, low, spec_finish_call(k, s, callee)),
    decreases k.len() - s.current, 17int,
{
    let none = Seq::<usize>::empty();
    let arguments = if s.check(k, TokenType::RightParen) {
        ParsedList { state: s, result: Some(none) }
    } else {
        spec_arguments(k, s, none)
    };
    assert(seen_items(s.exprs, s.lists, none, 0) =~= Seq::<usize>::empty());
    if !s.check(k, TokenType::RightParen) {
        lemma_arguments_fresh(k, s, none, s.exprs.len() as int);
    }
    let m = arguments.state;
    let out = spec_finish_call(k, s, callee);
    if let Some(items) = arguments.result {
        let close = spec_consume(
            k,
            m,
            TokenType::RightParen,
            SyntaxError::ExpectParenAfterArguments,
        );
        if let Some(paren) = close.result {
            assert(grown(m, out.state));
            lemma_grown_twice(s, m, out.state);
            if roomy(k, out.state) {
                lemma_called(k, s, close.state, callee, paren, items, low);
            }
        }
    }
}

/// The calls and property accesses behind an expression: what parses holds
/// no use twice.
pub proof fn lemma_call_rest_fresh(k: Seq<TokenType>, s: PState, expr: usize, low: int)
    requires
        low <= s.exprs.len(),
        roomy(k, s) ==> neat(k, s) && fresh_expr(s, low, expr),
    ensures
        gave_fresh(k, s, low, spec_call_rest(k, s, expr)),
    decreases k.len() - s.current, 4int,
{
    if s.check(k, TokenType::LeftParen) {
        lemma_finish_call_fresh(k, s.advance(k), expr, low);
        let call = spec_finish_call(k, s.advance(k), expr);
        if let Some(id) = call.result {
            if call.state.beyond(s, k) {
                lemma_call_rest_fresh(k, call.state, id, low);
                lemma_grown_twice(s, call.state, spec_call_rest(k, call.state, id).state);
            }
        }
    } else if s.check(k, TokenType::Dot) {
        let name = spec_consume(
            k,
            s.advance(k),
            TokenType::Identifier,
            SyntaxError::ExpectPropertyName,
        );
        if let Some(name_token) = name.result {
            let e = Expr::Get { object: expr, name: name_token };
            let get = name.state.emit_expr(e);
            assert(grown(s, get.state));
            if roomy(k, get.state) {
                lemma_around(k, name.state, e, expr, low);
            }
            if get.state.beyond(s, k) {
                lemma_call_rest_fresh(k, get.state, get.result.unwrap(), low);
                lemma_grown_twice(
                    s,
                    get.state,
                    spec_call_rest(k, get.state, get.result.unwrap()).state,
                );
            }
        }
    }
}

/// call: what parses holds no use twice.
pub proof fn lemma_call_fresh(k: Seq<TokenType>, s: PState)
    requires
        roomy(k, s) ==> neat(k, s),
    ensures
        gave_fresh(k, s, s.exprs.len() as int, spec_call(k, s)),
    decreases k.len() - s.current, 4int,
{
    lemma_primary_fresh(k, s);
    let primary = spec_primary(k, s);
    if let Some(id) = primary.result {
        if primary.state.beyond(s, k) {
            lemma_call_rest_fresh(k, primary.state, id, s.exprs.len() as int);
            lemma_grown_twice(s, primary.state, spec_call_rest(k, primary.state, id).state);
        }
    }
}

/// unary: what parses holds no use twice.
pub proof fn lemma_unary_fresh(k: Seq<TokenType>, s: PState)
    requires
        roomy(k, s) ==> neat(k, s),
    ensures
        gave_fresh(k, s, s.exprs.len() as int, spec_unary(k, s)),
    decreases k.len() - s.current, 5int,
{
    if s.check(k, TokenType::Bang) || s.check(k, TokenType::Minus) {
        lemma_unary_fresh(k, s.advance(k));
        let operand = spec_unary(k, s.advance(k));
        if let Some(right) = operand.result {
            let e = Expr::Unary { operator: s.current as usize, right };
            let out = operand.state.emit_expr(e);
            assert(grown(operand.state, out.state));
            lemma_grown_twice(s, operand.state, out.state);
            if roomy(k, out.state) {
                lemma_around(k, operand.state, e, right, s.exprs.len() as int);
            }
        }
    } else {
        lemma_call_fresh(k, s);
    }
}

/// The operators of a level and their right operands: what parses holds no
/// use twice.
pub proof fn lemma_binary_rest_fresh(
    k: Seq<TokenType>,
    s: PState,
    level: nat,
    left: usize,
    low: int,
)
    requires
        low <= s.exprs.len(),
        roomy(k, s) ==> neat(k, s) && fresh_expr(s, low, left),
    ensures
        gave_fresh(k, s, low, spec_binary_rest(k, s, level, left)),
    decreases k.len() - s.current, 6int + level,
{
    if level >= 1 && !s.at_end(k) && level_operator(level, k[s.current]) {
        lemma_binary_fresh(k, s.advance(k), (level - 1) as nat);
        let operand = spec_binary(k, s.advance(k), (level - 1) as nat);
        let m = operand.state;
        if let Some(right) = operand.result {
            let e = level_node(level, left, s.current as usize, right);
            let node = m.emit_expr(e);
            assert(grown(m, node.state));
            lemma_grown_twice(s, m, node.state);
            if roomy(k, node.state) {
                lemma_over(k, s, m, e, left, right, low);
            }
            if node.state.beyond(s, k) {
                lemma_binary_rest_fresh(k, node.state, level, node.result.unwrap(), low);
                lemma_grown_twice(
                    s,
                    node.state,
                    spec_binary_rest(k, node.state, level, node.result.unwrap()).state,
                );
            }
        }
    }
}

/// An expression of a precedence level: what parses holds no use twice.
pub proof fn lemma_binary_fresh(k: Seq<TokenType>, s: PState, level: nat)
    requires
        roomy(k, s) ==> neat(k, s),
    ensures
        gave_fresh(k, s, s.exprs.len() as int, spec_binary(k, s, level)),
    decreases k.len() - s.current, 6int + level,
{
    if level == 0 {
        lemma_unary_fresh(k, s);
    } else {
        lemma_binary_fresh(k, s, (level - 1) as nat);
        let first = spec_binary(k, s, (level - 1) as nat);
        if let Some(left) = first.result {
            if first.state.beyond(s, k) {
                lemma_binary_rest_fresh(k, first.state, level, left, s.exprs.len() as int);
                lemma_grown_twice(
                    s,
                    first.state,
                    spec_binary_rest(k, first.state, level, left).state,
                );
            }
        }
    }
}

/// assignment: what parses holds no use twice.
pub proof fn lemma_assignment_fresh(k: Seq<TokenType>, s: PState)
    requires
        roomy(k, s) ==> neat(k, s),
    ensures
        gave_fresh(k, s, s.exprs.len() as int, spec_assignment(k, s)),
    decreases k.len() - s.current, 14int,
{
    let low = s.exprs.len() as int;
    lemma_binary_fresh(k, s, LEVEL_OR as nat);
    let target = spec_binary(k, s, LEVEL_OR as nat);
    let m = target.state;
    if let Some(left) = target.result {
        if m.check(k, TokenType::Equal) {
            let next = m.advance(k);
            if next.beyond(s, k) {
                lemma_assignment_fresh(k, next);
                let value = spec_assignment(k, next);
                let t = value.state;
                lemma_grown_twice(s, m, t);
                if let Some(right) = value.result {
                    if left < t.exprs.len() {
                        if let Some(node) = assignment_node(t.exprs[left as int], right) {
                            let out = t.emit_expr(node);
                            assert(grown(t, out.state));
                            lemma_grown_twice(s, t, out.state);
                            if roomy(k, out.state) {
                                lemma_stored(k, s, m, t, left, right, node);
                            }
                        }
                    }
                }
            }
        }
    }
}

/// A new assignment or store holds the uses of its value and of the
/// object stored into, none twice.
pub proof fn lemma_stored(
    k: Seq<TokenType>,
    s: PState,
    m: PState,
    t: PState,
    left: usize,
    right: usize,
    node: Expr,
)
    requires
        neat(k, m),
        neat(k, t),
        grown(s, m),
        grown(m, t),
        fresh_expr(m, s.exprs.len() as int, left),
        fresh_expr(t, m.exprs.len() as int, right),
        assignment_node(t.exprs[left as int], right) == Some(node),
        roomy(k, t.emit_expr(node).state),
    ensures
        neat(k, t.emit_expr(node).state),
        fresh_expr(t.emit_expr(node).state, s.exprs.len() as int, t.exprs.len() as usize),
{
    let low = s.exprs.len() as int;
    assert(t.exprs[left as int] == m.exprs[left as int]);
    match t.exprs[left as int] {
        Expr::Variable { name } => {
            lemma_between_wider_fresh(t, m.exprs.len() as int, low, right);
            lemma_assign(k, t, name, right, low);
        },
        Expr::Get { object, name } => {
            // the object of the access is what was parsed before the `.`
            assert(expr_neat(k, m.exprs[left as int], left as int, m.lists.len() as int));
            assert(seen_expr(m.exprs, m.lists, left) == seen_expr(m.exprs, m.lists, object));
            assert(fresh_expr(m, low, object));
            lemma_over_store(k, s, m, t, node, object, right);
        },
        _ => {},
    }
}

/// An expression is fresh from a lower bound too.
pub proof fn lemma_between_wider_fresh(t: PState, low: int, lower: int, id: usize)
    requires
        fresh_expr(t, low, id),
        lower <= low,
    ensures
        fresh_expr(t, lower, id),
{
}

/// A new store into a property of an object that was parsed before the
/// value holds the uses of the value and then those of the object.
pub proof fn lemma_over_store(
    k: Seq<TokenType>,
    s: PState,
    m: PState,
    t: PState,
    node: Expr,
    object: usize,
    value: usize,
)
    requires
        neat(k, m),
        neat(k, t),
        grown(m, t),
        s.exprs.len() <= m.exprs.len(),
        fresh_expr(m, s.exprs.len() as int, object),
        fresh_expr(t, m.exprs.len() as int, value),
        node matches Expr::SetProperty { object: o, value: v, .. } && o == object && v == value,
        roomy(k, t.emit_expr(node).state),
    ensures
        neat(k, t.emit_expr(node).state),
        fresh_expr(t.emit_expr(node).state, s.exprs.len() as int, t.exprs.len() as usize),
{
    let low = s.exprs.len() as int;
    lemma_emit_expr(k, t, node);
    let after = t.emit_expr(node).state;
    lemma_grown_twice(m, t, after);
    let id = t.exprs.len() as usize;
    lemma_fresh_kept(k, m, after, low, object);
    lemma_fresh_kept(k, t, after, m.exprs.len() as int, value);
    let a = seen_expr(after.exprs, after.lists, object);
    let b = seen_expr(after.exprs, after.lists, value);
    lemma_join(b, a, low, m.exprs.len() as int, t.exprs.len() as int);
    assert(seen_expr(after.exprs, after.lists, id) == b + a);
}

/// expression: what parses holds no use twice.
pub proof fn lemma_expression_fresh(k: Seq<TokenType>, s: PState)
    requires
        roomy(k, s) ==> neat(k, s),
    ensures
        gave_fresh(k, s, s.exprs.len() as int, spec_expression(k, s)),
    decreases k.len() - s.current, 15int,
{
    lemma_assignment_fresh(k, s);
}

} // verus!
