use crate::expr::{Expr, Span};
use crate::grammar::{
    emit_pair, spec_consume, spec_finish_statement, PState, Parsed, ParsedList, SyntaxError,
};
use crate::once::{
    grown, is_declaration, lemma_grown_twice, lemma_seen_expr_grown, lemma_seen_stmt_grown, neat,
    roomy, stmt_neat,
};
use crate::once_expr::{fresh_expr, lemma_emit_list};
use crate::stmt::Stmt;
use crate::token::TokenType;
use crate::uses::{
    between, seen_expr, seen_methods, seen_option, seen_program, seen_stmt, seen_stmts, single,
};
use vstd::prelude::*;

verus! {

// The statement nodes that the parser makes hold the uses of their parts,
// none twice, when the parts were parsed one after the other.

/// The expression `id` is there; no use of a name occurs twice in it, and
/// its uses are expressions from `low` on and below `high`.
pub open spec fn ranged_expr(t: PState, low: int, high: int, id: usize) -> bool {
    &&& id < t.exprs.len()
    &&& high <= t.exprs.len()
    &&& single(seen_expr(t.exprs, t.lists, id))
    &&& between(seen_expr(t.exprs, t.lists, id), low, high)
}

/// The statement `id` is there; no use of a name occurs twice in it, and
/// its uses are expressions from `low` on and below `high`.
pub open spec fn ranged_stmt(t: PState, low: int, high: int, id: usize) -> bool {
    &&& id < t.stmts.len()
    &&& high <= t.exprs.len()
    &&& single(seen_stmt(t.exprs, t.stmts, t.lists, id))
    &&& between(seen_stmt(t.exprs, t.stmts, t.lists, id), low, high)
}

/// The statements `items` are there; no use of a name occurs twice in
/// them, and their uses are expressions from `low` on and below `high`.
pub open spec fn ranged_list(t: PState, low: int, high: int, items: Seq<usize>) -> bool {
    &&& forall|j: int| 0 <= j < items.len() ==> #[trigger] items[j] < t.stmts.len()
    &&& high <= t.exprs.len()
    &&& single(seen_program(t.exprs, t.stmts, t.lists, items, 0))
    &&& between(seen_program(t.exprs, t.stmts, t.lists, items, 0), low, high)
}

/// What parsing a statement leaves: the tables have grown and are as the
/// grammar has them, and the statement that parsed holds no use twice,
/// and only uses from `low` on.
pub open spec fn gave_stmt(k: Seq<TokenType>, s: PState, low: int, out: Parsed) -> bool {
    &&& grown(s, out.state)
    &&& roomy(k, out.state) ==> neat(k, out.state) && (out.result matches Some(id)
        ==> ranged_stmt(out.state, low, out.state.exprs.len() as int, id))
}

/// What parsing a statement that is no declaration leaves.
pub open spec fn gave_plain(k: Seq<TokenType>, s: PState, low: int, out: Parsed) -> bool {
    &&& gave_stmt(k, s, low, out)
    &&& roomy(k, out.state) ==> (out.result matches Some(id) ==> !is_declaration(
        out.state.stmts[id as int],
    ))
}

/// What parsing a list of statements leaves.
pub open spec fn gave_list(k: Seq<TokenType>, s: PState, low: int, out: ParsedList) -> bool {
    &&& grown(s, out.state)
    &&& roomy(k, out.state) ==> neat(k, out.state) && (out.result matches Some(items)
        ==> ranged_list(out.state, low, out.state.exprs.len() as int, items))
}

/// An expression that was parsed stays as it is when the tables grow.
pub proof fn lemma_ranged_expr_kept(
    k: Seq<TokenType>,
    s: PState,
    t: PState,
    low: int,
    high: int,
    id: usize,
)
    requires
        neat(k, s),
        grown(s, t),
        ranged_expr(s, low, high, id),
    ensures
        seen_expr(t.exprs, t.lists, id) == seen_expr(s.exprs, s.lists, id),
        ranged_expr(t, low, high, id),
{
    lemma_seen_expr_grown(k, s, t, id);
}

/// A statement that was parsed stays as it is when the tables grow.
pub proof fn lemma_ranged_stmt_kept(
    k: Seq<TokenType>,
    s: PState,
    t: PState,
    low: int,
    high: int,
    id: usize,
)
    requires
        neat(k, s),
        grown(s, t),
        ranged_stmt(s, low, high, id),
    ensures
        seen_stmt(t.exprs, t.stmts, t.lists, id) == seen_stmt(s.exprs, s.stmts, s.lists, id),
        ranged_stmt(t, low, high, id),
        t.stmts[id as int] == s.stmts[id as int],
{
    lemma_seen_stmt_grown(k, s, t, id);
}

/// The uses in a list of statements do not change when the tables grow.
pub proof fn lemma_list_grown(k: Seq<TokenType>, s: PState, t: PState, items: Seq<usize>, i: nat)
    requires
        neat(k, s),
        grown(s, t),
        forall|j: int| 0 <= j < items.len() ==> #[trigger] items[j] < s.stmts.len(),
    ensures
        seen_program(t.exprs, t.stmts, t.lists, items, i) == seen_program(
            s.exprs,
            s.stmts,
            s.lists,
            items,
            i,
        ),
    decreases items.len() - i,
{
    if i < items.len() {
        lemma_seen_stmt_grown(k, s, t, items[i as int]);
        lemma_list_grown(k, s, t, items, i + 1);
    }
}

/// The uses in a list with one more statement are those of the list and
/// then those of the statement.
pub proof fn lemma_list_push(
    exprs: Seq<Expr>,
    stmts: Seq<Stmt>,
    lists: Seq<usize>,
    items: Seq<usize>,
    id: usize,
    i: nat,
)
    requires
        i <= items.len(),
    ensures
        seen_program(exprs, stmts, lists, items.push(id), i) == seen_program(
            exprs,
            stmts,
            lists,
            items,
            i,
        ) + seen_stmt(exprs, stmts, lists, id),
    decreases items.len() - i,
{
    let more = items.push(id);
    if i < items.len() {
        lemma_list_push(exprs, stmts, lists, items, id, i + 1);
        assert(more[i as int] == items[i as int]);
        assert(seen_program(exprs, stmts, lists, more, i) =~= seen_program(
            exprs,
            stmts,
            lists,
            items,
            i,
        ) + seen_stmt(exprs, stmts, lists, id));
    } else {
        assert(more[i as int] == id);
        assert(seen_program(exprs, stmts, lists, more, i + 1) =~= Seq::<usize>::empty());
        assert(seen_program(exprs, stmts, lists, more, i) =~= seen_program(
            exprs,
            stmts,
            lists,
            items,
            i,
        ) + seen_stmt(exprs, stmts, lists, id));
    }
}

/// Two runs of uses from ranges that do not meet make one that holds
/// nothing twice.
pub proof fn lemma_join_ranges(
    first: Seq<usize>,
    second: Seq<usize>,
    low: int,
    high: int,
    lower: int,
    higher: int,
)
    requires
        single(first),
        single(second),
        between(first, low, high),
        between(second, lower, higher),
        high <= lower || higher <= low,
    ensures
        single(first + second),
        between(
            first + second,
            if low <= lower {
                low
            } else {
                lower
            },
            if high >= higher {
                high
            } else {
                higher
            },
        ),
{
    let whole = first + second;
    assert forall|i: int, j: int| 0 <= i < j < whole.len() implies whole[i] != whole[j] by {
        if j < first.len() {
            assert(whole[i] == first[i] && whole[j] == first[j]);
        } else if i >= first.len() {
            assert(whole[i] == second[i - first.len()] && whole[j] == second[j - first.len()]);
        } else {
            assert(whole[i] == first[i] && whole[j] == second[j - first.len()]);
        }
    }
    assert forall|i: int| 0 <= i < whole.len() implies (if low <= lower {
        low
    } else {
        lower
    }) <= #[trigger] whole[i] < (if high >= higher {
        high
    } else {
        higher
    }) by {
        if i < first.len() {
            assert(whole[i] == first[i]);
        } else {
            assert(whole[i] == second[i - first.len()]);
        }
    }
}

/// A list of statements that were parsed one after the other, with one
/// more that was parsed after them, holds no use twice.
pub proof fn lemma_list_more(
    k: Seq<TokenType>,
    s: PState,
    m: PState,
    low: int,
    items: Seq<usize>,
    id: usize,
)
    requires
        neat(k, s),
        grown(s, m),
        low <= s.exprs.len(),
        ranged_list(s, low, s.exprs.len() as int, items),
        ranged_stmt(m, s.exprs.len() as int, m.exprs.len() as int, id),
    ensures
        ranged_list(m, low, m.exprs.len() as int, items.push(id)),
{
    lemma_list_grown(k, s, m, items, 0);
    lemma_list_push(m.exprs, m.stmts, m.lists, items, id, 0);
    lemma_join_ranges(
        seen_program(m.exprs, m.stmts, m.lists, items, 0),
        seen_stmt(m.exprs, m.stmts, m.lists, id),
        low,
        s.exprs.len() as int,
        s.exprs.len() as int,
        m.exprs.len() as int,
    );
}

/// A new statement node that is as the grammar has it leaves the tables as
/// the grammar has them.
pub proof fn lemma_emit_stmt(k: Seq<TokenType>, s: PState, st: Stmt)
    requires
        neat(k, s),
        stmt_neat(k, st, s.stmts.len() as int, s.exprs, s.stmts, s.lists.len() as int),
    ensures
        neat(k, s.emit_stmt(st).state),
        grown(s, s.emit_stmt(st).state),
        s.emit_stmt(st).state.stmts.len() == s.stmts.len() + 1,
        s.emit_stmt(st).state.stmts[s.stmts.len() as int] == st,
        s.emit_stmt(st).state.exprs == s.exprs,
        s.emit_stmt(st).state.lists == s.lists,
{
    let t = s.emit_stmt(st).state;
    assert forall|i: int| 0 <= i < t.stmts.len() implies stmt_neat(
        k,
        #[trigger] t.stmts[i],
        i,
        t.exprs,
        t.stmts,
        t.lists.len() as int,
    ) by {
        if i < s.stmts.len() {
            assert(stmt_neat(k, s.stmts[i], i, s.exprs, s.stmts, s.lists.len() as int));
            match s.stmts[i] {
                Stmt::If { condition, then_branch, else_branch } => {
                    assert(t.stmts[then_branch as int] == s.stmts[then_branch as int]);
                    if let Some(otherwise) = else_branch {
                        assert(t.stmts[otherwise as int] == s.stmts[otherwise as int]);
                    }
                },
                Stmt::While { condition, body } => {
                    assert(t.stmts[body as int] == s.stmts[body as int]);
                },
                _ => {},
            }
        } else {
            match st {
                Stmt::If { condition, then_branch, else_branch } => {
                    assert(t.stmts[then_branch as int] == s.stmts[then_branch as int]);
                    if let Some(otherwise) = else_branch {
                        assert(t.stmts[otherwise as int] == s.stmts[otherwise as int]);
                    }
                },
                Stmt::While { condition, body } => {
                    assert(t.stmts[body as int] == s.stmts[body as int]);
                },
                _ => {},
            }
        }
    }
}

/// A new statement around one expression, or none, holds the uses of that
/// expression.
pub proof fn lemma_simple(k: Seq<TokenType>, s: PState, st: Stmt, low: int)
    requires
        neat(k, s),
        roomy(k, s.emit_stmt(st).state),
        low <= s.exprs.len(),
        match st {
            Stmt::Expression { expression } => fresh_expr(s, low, expression),
            Stmt::Print { expression } => fresh_expr(s, low, expression),
            Stmt::Return { keyword, value } => value matches Some(expression) ==> fresh_expr(
                s,
                low,
                expression,
            ),
            Stmt::Var { name, initializer } => name < k.len() && k[name as int]
                == TokenType::Identifier && (initializer matches Some(expression) ==> fresh_expr(
                s,
                low,
                expression,
            )),
            _ => false,
        },
    ensures
        neat(k, s.emit_stmt(st).state),
        ranged_stmt(
            s.emit_stmt(st).state,
            low,
            s.exprs.len() as int,
            s.stmts.len() as usize,
        ),
{
    lemma_emit_stmt(k, s, st);
    let t = s.emit_stmt(st).state;
    let id = s.stmts.len() as usize;
    assert(t.stmts[id as int] == st);
    match st {
        Stmt::Return { keyword, value } => {
            if value is None {
                assert(seen_stmt(t.exprs, t.stmts, t.lists, id) =~= Seq::<usize>::empty());
            }
        },
        Stmt::Var { name, initializer } => {
            if initializer is None {
                assert(seen_stmt(t.exprs, t.stmts, t.lists, id) =~= Seq::<usize>::empty());
            }
        },
        _ => {},
    }
}

/// The `;` that ends a statement around one expression, or none, and the
/// statement node.
pub proof fn lemma_finish(k: Seq<TokenType>, s: PState, error: SyntaxError, st: Stmt, low: int)
    requires
        low <= s.exprs.len(),
        roomy(k, s) ==> neat(k, s) && match st {
            Stmt::Expression { expression } => fresh_expr(s, low, expression),
            Stmt::Print { expression } => fresh_expr(s, low, expression),
            Stmt::Return { keyword, value } => value matches Some(expression) ==> fresh_expr(
                s,
                low,
                expression,
            ),
            Stmt::Var { name, initializer } => name < k.len() && k[name as int]
                == TokenType::Identifier && (initializer matches Some(expression) ==> fresh_expr(
                s,
                low,
                expression,
            )),
            _ => false,
        },
    ensures
        gave_stmt(k, s, low, spec_finish_statement(k, s, error, st)),
        spec_finish_statement(k, s, error, st).result matches Some(id) ==> id
            == s.stmts.len() as usize && spec_finish_statement(k, s, error, st).state.stmts[s.stmts.len() as int]
            == st,
{
    let semicolon = spec_consume(k, s, TokenType::Semicolon, error);
    let out = spec_finish_statement(k, s, error, st);
    if semicolon.result is Some {
        if roomy(k, out.state) {
            lemma_simple(k, semicolon.state, st, low);
        }
    }
}

/// The lower of two bounds.
pub open spec fn lower_of(a: int, b: int) -> int {
    if a <= b {
        a
    } else {
        b
    }
}

/// The higher of two bounds.
pub open spec fn higher_of(a: int, b: int) -> int {
    if a >= b {
        a
    } else {
        b
    }
}

/// A new loop holds the uses of its condition and then those of its body.
pub proof fn lemma_looped(
    k: Seq<TokenType>,
    t: PState,
    condition: usize,
    body: usize,
    low: int,
    high: int,
    lower: int,
    higher: int,
)
    requires
        neat(k, t),
        roomy(k, t.emit_stmt(Stmt::While { condition, body }).state),
        ranged_expr(t, low, high, condition),
        ranged_stmt(t, lower, higher, body),
        high <= lower || higher <= low,
        !is_declaration(t.stmts[body as int]),
    ensures
        neat(k, t.emit_stmt(Stmt::While { condition, body }).state),
        ranged_stmt(
            t.emit_stmt(Stmt::While { condition, body }).state,
            lower_of(low, lower),
            higher_of(high, higher),
            t.stmts.len() as usize,
        ),
{
    let st = Stmt::While { condition, body };
    lemma_emit_stmt(k, t, st);
    let after = t.emit_stmt(st).state;
    let id = t.stmts.len() as usize;
    lemma_ranged_stmt_kept(k, t, after, lower, higher, body);
    lemma_join_ranges(
        seen_expr(after.exprs, after.lists, condition),
        seen_stmt(after.exprs, after.stmts, after.lists, body),
        low,
        high,
        lower,
        higher,
    );
}

/// A new `if` holds the uses of its condition, then those of the one
/// branch, then those of the other.
pub proof fn lemma_branched(
    k: Seq<TokenType>,
    t: PState,
    condition: usize,
    then_branch: usize,
    else_branch: Option<usize>,
    low: int,
    first: int,
    second: int,
    high: int,
)
    requires
        neat(k, t),
        roomy(k, t.emit_stmt(Stmt::If { condition, then_branch, else_branch }).state),
        low <= first <= second <= high,
        ranged_expr(t, low, first, condition),
        ranged_stmt(t, first, second, then_branch),
        !is_declaration(t.stmts[then_branch as int]),
        else_branch matches Some(otherwise) ==> ranged_stmt(t, second, high, otherwise)
            && !is_declaration(t.stmts[otherwise as int]),
        high <= t.exprs.len(),
    ensures
        neat(k, t.emit_stmt(Stmt::If { condition, then_branch, else_branch }).state),
        ranged_stmt(
            t.emit_stmt(Stmt::If { condition, then_branch, else_branch }).state,
            low,
            high,
            t.stmts.len() as usize,
        ),
{
    let st = Stmt::If { condition, then_branch, else_branch };
    lemma_emit_stmt(k, t, st);
    let after = t.emit_stmt(st).state;
    let id = t.stmts.len() as usize;
    lemma_ranged_stmt_kept(k, t, after, first, second, then_branch);
    let a = seen_expr(after.exprs, after.lists, condition);
    let b = seen_stmt(after.exprs, after.stmts, after.lists, then_branch);
    lemma_join_ranges(a, b, low, first, first, second);
    let c = match else_branch {
        Some(otherwise) => seen_stmt(after.exprs, after.stmts, after.lists, otherwise),
        None => Seq::empty(),
    };
    if let Some(otherwise) = else_branch {
        lemma_ranged_stmt_kept(k, t, after, second, high, otherwise);
    }
    lemma_join_ranges(a + b, c, low, second, second, high);
    assert(seen_stmt(after.exprs, after.stmts, after.lists, id) == a + b + c);
}

/// The uses in a run of the list table that holds the statements `items`
/// are the uses in `items`.
pub proof fn lemma_span_list(
    exprs: Seq<Expr>,
    stmts: Seq<Stmt>,
    lists: Seq<usize>,
    span: Span,
    items: Seq<usize>,
    i: nat,
    bound: usize,
)
    requires
        span.len == items.len(),
        span.start + span.len <= lists.len(),
        forall|j: int| 0 <= j < items.len() ==> lists[span.start + j] == #[trigger] items[j],
        forall|j: int| 0 <= j < items.len() ==> #[trigger] items[j] < bound,
    ensures
        seen_stmts(exprs, stmts, lists, span, i, bound) == seen_program(
            exprs,
            stmts,
            lists,
            items,
            i,
        ),
    decreases items.len() - i,
{
    if i < items.len() {
        assert(items[i as int] < bound);
        lemma_span_list(exprs, stmts, lists, span, items, i + 1, bound);
    }
}

/// Every one of the statements `items` is a function.
pub open spec fn all_functions(stmts: Seq<Stmt>, items: Seq<usize>) -> bool {
    forall|j: int|
        0 <= j < items.len() ==> #[trigger] items[j] < stmts.len() && stmts[items[j] as int]
            is Function
}

/// The uses in the methods of a run of the list table that holds the
/// functions `items` are the uses in `items`.
pub proof fn lemma_span_methods(
    exprs: Seq<Expr>,
    stmts: Seq<Stmt>,
    lists: Seq<usize>,
    span: Span,
    items: Seq<usize>,
    i: nat,
    bound: usize,
)
    requires
        span.len == items.len(),
        span.start + span.len <= lists.len(),
        forall|j: int| 0 <= j < items.len() ==> lists[span.start + j] == #[trigger] items[j],
        forall|j: int| 0 <= j < items.len() ==> #[trigger] items[j] < bound,
        all_functions(stmts, items),
    ensures
        seen_methods(exprs, stmts, lists, span, i, bound) == seen_program(
            exprs,
            stmts,
            lists,
            items,
            i,
        ),
    decreases items.len() - i,
{
    if i < items.len() {
        assert(items[i as int] < bound);
        assert(items[i as int] < stmts.len() && stmts[items[i as int] as int] is Function);
        lemma_span_methods(exprs, stmts, lists, span, items, i + 1, bound);
    }
}

/// A new block holds the uses of its statements.
pub proof fn lemma_block(k: Seq<TokenType>, t: PState, items: Seq<usize>, low: int, high: int)
    requires
        neat(k, t),
        roomy(
            k,
            t.emit_list(items).emit_stmt(Stmt::Block { statements: t.next_span(items) }).state,
        ),
        ranged_list(t, low, high, items),
    ensures
        neat(
            k,
            t.emit_list(items).emit_stmt(Stmt::Block { statements: t.next_span(items) }).state,
        ),
        ranged_stmt(
            t.emit_list(items).emit_stmt(Stmt::Block { statements: t.next_span(items) }).state,
            low,
            high,
            t.stmts.len() as usize,
        ),
{
    let listed = t.emit_list(items);
    let span = t.next_span(items);
    let st = Stmt::Block { statements: span };
    let after = listed.emit_stmt(st).state;
    lemma_emit_list(k, t, items);
    lemma_emit_stmt(k, listed, st);
    lemma_grown_twice(t, listed, after);
    let id = t.stmts.len() as usize;
    lemma_list_grown(k, t, after, items, 0);
    assert forall|j: int| 0 <= j < items.len() implies after.lists[span.start + j]
        == #[trigger] items[j] by {
        assert(listed.lists[t.lists.len() + j] == items[j]);
    }
    lemma_span_list(after.exprs, after.stmts, after.lists, span, items, 0, id);
}

/// The uses in a list of two statements.
pub proof fn lemma_two(t: PState, first: usize, second: usize)
    ensures
        seen_program(t.exprs, t.stmts, t.lists, seq![first, second], 0) == seen_stmt(
            t.exprs,
            t.stmts,
            t.lists,
            first,
        ) + seen_stmt(t.exprs, t.stmts, t.lists, second),
{
    let items = seq![first, second];
    assert(items[0] == first && items[1] == second);
    assert(seen_program(t.exprs, t.stmts, t.lists, items, 2) =~= Seq::<usize>::empty());
    assert(seen_program(t.exprs, t.stmts, t.lists, items, 1) =~= seen_stmt(
        t.exprs,
        t.stmts,
        t.lists,
        second,
    ));
}

/// A new block of two statements holds the uses of the one and then those
/// of the other.
pub proof fn lemma_pair(
    k: Seq<TokenType>,
    t: PState,
    first: usize,
    second: usize,
    low: int,
    high: int,
    lower: int,
    higher: int,
)
    requires
        neat(k, t),
        roomy(k, emit_pair(t, first, second).state),
        ranged_stmt(t, low, high, first),
        ranged_stmt(t, lower, higher, second),
        high <= lower || higher <= low,
    ensures
        neat(k, emit_pair(t, first, second).state),
        ranged_stmt(
            emit_pair(t, first, second).state,
            lower_of(low, lower),
            higher_of(high, higher),
            t.stmts.len() as usize,
        ),
        emit_pair(t, first, second).result == Some(t.stmts.len() as usize),
        emit_pair(t, first, second).state.stmts[t.stmts.len() as int] is Block,
        grown(t, emit_pair(t, first, second).state),
{
    let items = seq![first, second];
    lemma_two(t, first, second);
    lemma_join_ranges(
        seen_stmt(t.exprs, t.stmts, t.lists, first),
        seen_stmt(t.exprs, t.stmts, t.lists, second),
        low,
        high,
        lower,
        higher,
    );
    assert(items[0] == first && items[1] == second);
    lemma_block(k, t, items, lower_of(low, lower), higher_of(high, higher));
    lemma_emit_list(k, t, items);
    lemma_emit_stmt(k, t.emit_list(items), Stmt::Block { statements: t.next_span(items) });
    lemma_grown_twice(t, t.emit_list(items), emit_pair(t, first, second).state);
}

/// A new function holds the uses of the statements of its body.
pub proof fn lemma_function_node(
    k: Seq<TokenType>,
    t: PState,
    name: usize,
    names: Seq<usize>,
    items: Seq<usize>,
    low: int,
)
    requires
        neat(k, t),
        roomy(
            k,
            t.emit_list(names).emit_list(items).emit_stmt(
                Stmt::Function {
                    name,
                    params: t.next_span(names),
                    body: t.emit_list(names).next_span(items),
                },
            ).state,
        ),
        ranged_list(t, low, t.exprs.len() as int, items),
    ensures
        neat(
            k,
            t.emit_list(names).emit_list(items).emit_stmt(
                Stmt::Function {
                    name,
                    params: t.next_span(names),
                    body: t.emit_list(names).next_span(items),
                },
            ).state,
        ),
        ranged_stmt(
            t.emit_list(names).emit_list(items).emit_stmt(
                Stmt::Function {
                    name,
                    params: t.next_span(names),
                    body: t.emit_list(names).next_span(items),
                },
            ).state,
            low,
            t.exprs.len() as int,
            t.stmts.len() as usize,
        ),
{
    let named = t.emit_list(names);
    let listed = named.emit_list(items);
    let span = named.next_span(items);
    let st = Stmt::Function { name, params: t.next_span(names), body: span };
    let after = listed.emit_stmt(st).state;
    lemma_emit_list(k, t, names);
    lemma_emit_list(k, named, items);
    lemma_emit_stmt(k, listed, st);
    lemma_grown_twice(t, named, listed);
    lemma_grown_twice(t, listed, after);
    let id = t.stmts.len() as usize;
    lemma_list_grown(k, t, after, items, 0);
    assert forall|j: int| 0 <= j < items.len() implies after.lists[span.start + j]
        == #[trigger] items[j] by {
        assert(listed.lists[named.lists.len() + j] == items[j]);
    }
    lemma_span_list(after.exprs, after.stmts, after.lists, span, items, 0, id);
}

/// A new class holds the use of its superclass and then the uses of its
/// methods.
pub proof fn lemma_class_node(
    k: Seq<TokenType>,
    t: PState,
    name: usize,
    superclass: Option<usize>,
    items: Seq<usize>,
    low: int,
    middle: int,
)
    requires
        neat(k, t),
        roomy(
            k,
            t.emit_list(items).emit_stmt(
                Stmt::Class { name, superclass, methods: t.next_span(items) },
            ).state,
        ),
        low <= middle,
        superclass matches Some(parent) ==> ranged_expr(t, low, middle, parent)
            && t.exprs[parent as int] is Variable,
        ranged_list(t, middle, t.exprs.len() as int, items),
        all_functions(t.stmts, items),
    ensures
        neat(
            k,
            t.emit_list(items).emit_stmt(
                Stmt::Class { name, superclass, methods: t.next_span(items) },
            ).state,
        ),
        ranged_stmt(
            t.emit_list(items).emit_stmt(
                Stmt::Class { name, superclass, methods: t.next_span(items) },
            ).state,
            low,
            t.exprs.len() as int,
            t.stmts.len() as usize,
        ),
{
    let listed = t.emit_list(items);
    let span = t.next_span(items);
    let st = Stmt::Class { name, superclass, methods: span };
    let after = listed.emit_stmt(st).state;
    lemma_emit_list(k, t, items);
    lemma_emit_stmt(k, listed, st);
    lemma_grown_twice(t, listed, after);
    let id = t.stmts.len() as usize;
    lemma_list_grown(k, t, after, items, 0);
    assert forall|j: int| 0 <= j < items.len() implies after.lists[span.start + j]
        == #[trigger] items[j] by {
        assert(listed.lists[t.lists.len() + j] == items[j]);
    }
    assert(all_functions(after.stmts, items)) by {
        assert forall|j: int| 0 <= j < items.len() implies #[trigger] items[j] < after.stmts.len()
            && after.stmts[items[j] as int] is Function by {
            assert(after.stmts[items[j] as int] == t.stmts[items[j] as int]);
        }
    }
    lemma_span_methods(after.exprs, after.stmts, after.lists, span, items, 0, id);
    let a = seen_option(after.exprs, after.lists, superclass);
    let b = seen_program(after.exprs, after.stmts, after.lists, items, 0);
    if let Some(parent) = superclass {
        lemma_ranged_expr_kept(k, t, after, low, middle, parent);
    }
    lemma_join_ranges(a, b, low, middle, middle, t.exprs.len() as int);
    assert(seen_stmt(after.exprs, after.stmts, after.lists, id) == a + b);
}

} // verus!
