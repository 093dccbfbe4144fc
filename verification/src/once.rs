use crate::expr::{Expr, Span};
use crate::grammar::PState;
use crate::stmt::Stmt;
use crate::token::TokenType;
use crate::uses::{
    between, seen_expr, seen_exprs, seen_methods, seen_option, seen_stmt, seen_stmts, single,
};
use vstd::prelude::*;

verus! {

// What the parser makes is a tree: a node stands in one place only. So no
// use of a name is met twice by a walk over the program, and the uses in a
// program that has just been parsed are expressions that were not there
// before.

/// The run `span` lies within `lists` entries.
pub open spec fn run_fits(span: Span, lists: int) -> bool {
    span.start + span.len <= lists
}

/// The expression node, standing at index `id`, names a run that exists;
/// the object of a property access lies before it; and a `this` or a
/// `super` stands at its keyword.
pub open spec fn expr_neat(k: Seq<TokenType>, e: Expr, id: int, lists: int) -> bool {
    match e {
        Expr::Call { callee, paren, arguments } => run_fits(arguments, lists),
        Expr::Get { object, name } => object < id,
        Expr::This { keyword } => keyword < k.len() && k[keyword as int] == TokenType::This,
        Expr::Super { keyword, method } => keyword < k.len() && k[keyword as int]
            == TokenType::Super,
        _ => true,
    }
}

/// The statement declares a name in the scope around it.
pub open spec fn is_declaration(s: Stmt) -> bool {
    s is Var || s is Function || s is Class
}

/// The statement `id` is there and declares nothing.
pub open spec fn plain_at(stmts: Seq<Stmt>, id: usize, bound: int) -> bool {
    id < bound && id < stmts.len() && !is_declaration(stmts[id as int])
}

/// The statement node, standing at index `id`, names expressions and runs
/// that exist; a variable is declared at an identifier; the branches of an
/// `if` and the body of a loop declare nothing; and the superclass of a
/// class is a variable.
pub open spec fn stmt_neat(
    k: Seq<TokenType>,
    st: Stmt,
    id: int,
    exprs: Seq<Expr>,
    stmts: Seq<Stmt>,
    lists: int,
) -> bool {
    match st {
        Stmt::Block { statements } => run_fits(statements, lists),
        Stmt::Class { name, superclass, methods } => run_fits(methods, lists) && (
        superclass matches Some(parent) ==> parent < exprs.len() && exprs[parent as int]
            is Variable),
        Stmt::Expression { expression } => expression < exprs.len(),
        Stmt::Function { name, params, body } => run_fits(body, lists),
        Stmt::If { condition, then_branch, else_branch } => {
            &&& condition < exprs.len()
            &&& plain_at(stmts, then_branch, id)
            &&& else_branch matches Some(otherwise) ==> plain_at(stmts, otherwise, id)
        },
        Stmt::Print { expression } => expression < exprs.len(),
        Stmt::Return { keyword, value } => value matches Some(expression) ==> expression
            < exprs.len(),
        Stmt::Var { name, initializer } => {
            &&& name < k.len()
            &&& k[name as int] == TokenType::Identifier
            &&& initializer matches Some(expression) ==> expression < exprs.len()
        },
        Stmt::While { condition, body } => condition < exprs.len() && plain_at(stmts, body, id),
    }
}

/// Every node that parsing has made is as the grammar has it.
pub open spec fn neat(k: Seq<TokenType>, s: PState) -> bool {
    &&& forall|i: int|
        0 <= i < s.exprs.len() ==> expr_neat(k, #[trigger] s.exprs[i], i, s.lists.len() as int)
    &&& forall|i: int|
        0 <= i < s.stmts.len() ==> stmt_neat(
            k,
            #[trigger] s.stmts[i],
            i,
            s.exprs,
            s.stmts,
            s.lists.len() as int,
        )
}

/// The state `t` holds all the nodes and lists of `s`, where they were.
pub open spec fn grown(s: PState, t: PState) -> bool {
    &&& s.exprs.len() <= t.exprs.len()
    &&& s.stmts.len() <= t.stmts.len()
    &&& s.lists.len() <= t.lists.len()
    &&& forall|i: int| 0 <= i < s.exprs.len() ==> #[trigger] t.exprs[i] == s.exprs[i]
    &&& forall|i: int| 0 <= i < s.stmts.len() ==> #[trigger] t.stmts[i] == s.stmts[i]
    &&& forall|i: int| 0 <= i < s.lists.len() ==> #[trigger] t.lists[i] == s.lists[i]
}

/// The tables are no longer than an index can say.
pub open spec fn roomy(k: Seq<TokenType>, t: PState) -> bool {
    &&& k.len() <= usize::MAX
    &&& t.exprs.len() <= usize::MAX
    &&& t.stmts.len() <= usize::MAX
    &&& t.lists.len() <= usize::MAX
}

/// Growing twice is growing.
pub proof fn lemma_grown_twice(s: PState, m: PState, t: PState)
    requires
        grown(s, m),
        grown(m, t),
    ensures
        grown(s, t),
{
    assert forall|i: int| 0 <= i < s.exprs.len() implies #[trigger] t.exprs[i] == s.exprs[i] by {
        assert(m.exprs[i] == s.exprs[i]);
    }
    assert forall|i: int| 0 <= i < s.stmts.len() implies #[trigger] t.stmts[i] == s.stmts[i] by {
        assert(m.stmts[i] == s.stmts[i]);
    }
    assert forall|i: int| 0 <= i < s.lists.len() implies #[trigger] t.lists[i] == s.lists[i] by {
        assert(m.lists[i] == s.lists[i]);
    }
}

/// The uses in an expression do not change when the tables grow.
pub proof fn lemma_seen_expr_grown(k: Seq<TokenType>, s: PState, t: PState, id: usize)
    requires
        neat(k, s),
        grown(s, t),
        id < s.exprs.len(),
    ensures
        seen_expr(t.exprs, t.lists, id) == seen_expr(s.exprs, s.lists, id),
    decreases 0int, id, 1int, 0int,
{
    match s.exprs[id as int] {
        Expr::Assign { name, value } => {
            if value < id {
                lemma_seen_expr_grown(k, s, t, value);
            }
        },
        Expr::Binary { left, operator, right } => {
            if left < id {
                lemma_seen_expr_grown(k, s, t, left);
            }
            if right < id {
                lemma_seen_expr_grown(k, s, t, right);
            }
        },
        Expr::Logical { left, operator, right } => {
            if left < id {
                lemma_seen_expr_grown(k, s, t, left);
            }
            if right < id {
                lemma_seen_expr_grown(k, s, t, right);
            }
        },
        Expr::Call { callee, paren, arguments } => {
            if callee < id {
                lemma_seen_expr_grown(k, s, t, callee);
            }
            assert(expr_neat(k, s.exprs[id as int], id as int, s.lists.len() as int));
            lemma_seen_exprs_grown(k, s, t, arguments, 0, id);
        },
        Expr::Get { object, name } => {
            if object < id {
                lemma_seen_expr_grown(k, s, t, object);
            }
        },
        Expr::SetProperty { object, name, value } => {
            if value < id {
                lemma_seen_expr_grown(k, s, t, value);
            }
            if object < id {
                lemma_seen_expr_grown(k, s, t, object);
            }
        },
        Expr::Grouping { expression } => {
            if expression < id {
                lemma_seen_expr_grown(k, s, t, expression);
            }
        },
        Expr::Unary { operator, right } => {
            if right < id {
                lemma_seen_expr_grown(k, s, t, right);
            }
        },
        _ => {},
    }
}

/// The uses in a run of expressions do not change when the tables grow.
pub proof fn lemma_seen_exprs_grown(
    k: Seq<TokenType>,
    s: PState,
    t: PState,
    span: Span,
    i: nat,
    bound: usize,
)
    requires
        neat(k, s),
        grown(s, t),
        run_fits(span, s.lists.len() as int),
        bound <= s.exprs.len(),
    ensures
        seen_exprs(t.exprs, t.lists, span, i, bound) == seen_exprs(s.exprs, s.lists, span, i, bound),
    decreases 0int, bound, 0int, span.len - i,
{
    if i < span.len {
        assert(t.lists[span.start + i] == s.lists[span.start + i]);
        if s.lists[span.start + i] < bound {
            lemma_seen_expr_grown(k, s, t, s.lists[span.start + i]);
            lemma_seen_exprs_grown(k, s, t, span, i + 1, bound);
        }
    }
}

/// The uses in an expression that may be left out do not change when the
/// tables grow.
pub proof fn lemma_seen_option_grown(k: Seq<TokenType>, s: PState, t: PState, expr: Option<usize>)
    requires
        neat(k, s),
        grown(s, t),
        expr matches Some(id) ==> id < s.exprs.len(),
    ensures
        seen_option(t.exprs, t.lists, expr) == seen_option(s.exprs, s.lists, expr),
{
    if let Some(id) = expr {
        lemma_seen_expr_grown(k, s, t, id);
    }
}

/// The uses in a statement do not change when the tables grow.
pub proof fn lemma_seen_stmt_grown(k: Seq<TokenType>, s: PState, t: PState, id: usize)
    requires
        neat(k, s),
        grown(s, t),
        id < s.stmts.len(),
    ensures
        seen_stmt(t.exprs, t.stmts, t.lists, id) == seen_stmt(s.exprs, s.stmts, s.lists, id),
    decreases 1int, id, 1int, 0int,
{
    assert(stmt_neat(k, s.stmts[id as int], id as int, s.exprs, s.stmts, s.lists.len() as int));
    assert(t.stmts[id as int] == s.stmts[id as int]);
    match s.stmts[id as int] {
        Stmt::Block { statements } => {
            lemma_seen_stmts_grown(k, s, t, statements, 0, id);
        },
        Stmt::Class { name, superclass, methods } => {
            lemma_seen_option_grown(k, s, t, superclass);
            lemma_seen_methods_grown(k, s, t, methods, 0, id);
        },
        Stmt::Var { name, initializer } => {
            lemma_seen_option_grown(k, s, t, initializer);
        },
        Stmt::Function { name, params, body } => {
            lemma_seen_stmts_grown(k, s, t, body, 0, id);
        },
        Stmt::Expression { expression } => {
            lemma_seen_expr_grown(k, s, t, expression);
        },
        Stmt::If { condition, then_branch, else_branch } => {
            lemma_seen_expr_grown(k, s, t, condition);
            lemma_seen_stmt_grown(k, s, t, then_branch);
            if let Some(otherwise) = else_branch {
                lemma_seen_stmt_grown(k, s, t, otherwise);
            }
        },
        Stmt::Print { expression } => {
            lemma_seen_expr_grown(k, s, t, expression);
        },
        Stmt::Return { keyword, value } => {
            lemma_seen_option_grown(k, s, t, value);
        },
        Stmt::While { condition, body } => {
            lemma_seen_expr_grown(k, s, t, condition);
            lemma_seen_stmt_grown(k, s, t, body);
        },
    }
}

/// The uses in a run of statements do not change when the tables grow.
pub proof fn lemma_seen_stmts_grown(
    k: Seq<TokenType>,
    s: PState,
    t: PState,
    span: Span,
    i: nat,
    bound: usize,
)
    requires
        neat(k, s),
        grown(s, t),
        run_fits(span, s.lists.len() as int),
        bound <= s.stmts.len(),
    ensures
        seen_stmts(t.exprs, t.stmts, t.lists, span, i, bound) == seen_stmts(
            s.exprs,
            s.stmts,
            s.lists,
            span,
            i,
            bound,
        ),
    decreases 1int, bound, 0int, span.len - i,
{
    if i < span.len {
        assert(t.lists[span.start + i] == s.lists[span.start + i]);
        if s.lists[span.start + i] < bound {
            lemma_seen_stmt_grown(k, s, t, s.lists[span.start + i]);
            lemma_seen_stmts_grown(k, s, t, span, i + 1, bound);
        }
    }
}

/// The uses in a run of methods do not change when the tables grow.
pub proof fn lemma_seen_methods_grown(
    k: Seq<TokenType>,
    s: PState,
    t: PState,
    span: Span,
    i: nat,
    bound: usize,
)
    requires
        neat(k, s),
        grown(s, t),
        run_fits(span, s.lists.len() as int),
        bound <= s.stmts.len(),
    ensures
        seen_methods(t.exprs, t.stmts, t.lists, span, i, bound) == seen_methods(
            s.exprs,
            s.stmts,
            s.lists,
            span,
            i,
            bound,
        ),
    decreases 1int, bound, 0int, span.len - i,
{
    if i < span.len {
        assert(t.lists[span.start + i] == s.lists[span.start + i]);
        let method = s.lists[span.start + i];
        if method < bound {
            assert(t.stmts[method as int] == s.stmts[method as int]);
            assert(stmt_neat(
                k,
                s.stmts[method as int],
                method as int,
                s.exprs,
                s.stmts,
                s.lists.len() as int,
            ));
            if let Stmt::Function { name, params, body } = s.stmts[method as int] {
                lemma_seen_stmts_grown(k, s, t, body, 0, method);
            }
            lemma_seen_methods_grown(k, s, t, span, i + 1, bound);
        }
    }
}

/// Two runs of uses that share nothing and hold nothing twice make one
/// that holds nothing twice.
pub proof fn lemma_join(
    first: Seq<usize>,
    second: Seq<usize>,
    low: int,
    middle: int,
    high: int,
)
    requires
        single(first),
        single(second),
        between(first, low, middle) && between(second, middle, high) || between(
            first,
            middle,
            high,
        ) && between(second, low, middle),
        low <= middle <= high,
    ensures
        single(first + second),
        between(first + second, low, high),
{
    let whole = first + second;
    assert forall|i: int, j: int| 0 <= i < j < whole.len() implies whole[i] != whole[j] by {
        if j < first.len() {
            assert(whole[i] == first[i] && whole[j] == first[j]);
        } else if i >= first.len() {
            assert(whole[i] == second[i - first.len()] && whole[j] == second[j - first.len()]);
        } else {
            assert(whole[i] == first[i] && whole[j] == second[j - first.len()]);
        }
    }
    assert forall|i: int| 0 <= i < whole.len() implies low <= #[trigger] whole[i] < high by {
        if i < first.len() {
            assert(whole[i] == first[i]);
        } else {
            assert(whole[i] == second[i - first.len()]);
        }
    }
}

} // verus!
