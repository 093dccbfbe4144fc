use crate::ast::{span_below, Ast};
use crate::binding::{
    declared_by, depth_in, method_shape, owing, params_set, right_expr, right_exprs, right_function,
    right_list, right_methods, right_stmt, Shape,
};
use crate::expr::{Expr, Span};
use crate::stmt::Stmt;
use vstd::prelude::*;

verus! {

// A session keeps its tree and its table from one program to the next: the
// nodes of a new program are appended, and depths are recorded for them.
// Whether the table is right for a piece of the tree that was there before
// does not change by that.

/// The tree `later` holds all of `earlier`, and the table `table` holds for
/// the expressions of `earlier` what `before` holds for them.
pub open spec fn carried(
    later: &Ast,
    table: Seq<Option<usize>>,
    earlier: &Ast,
    before: Seq<Option<usize>>,
) -> bool {
    &&& earlier.wf()
    &&& later.wf()
    &&& later.extends(earlier)
    &&& forall|e: usize| e < earlier.exprs@.len() ==> depth_in(table, e) == depth_in(before, e)
}

/// What a tree holds stays where it is when the tree grows.
pub proof fn lemma_extends(later: &Ast, earlier: &Ast)
    requires
        later.extends(earlier),
    ensures
        earlier.tokens@.len() <= later.tokens@.len(),
        earlier.exprs@.len() <= later.exprs@.len(),
        earlier.stmts@.len() <= later.stmts@.len(),
        earlier.lists@.len() <= later.lists@.len(),
        forall|i: int| 0 <= i < earlier.tokens@.len() ==> later.tokens@[i] == earlier.tokens@[i],
        forall|i: int| 0 <= i < earlier.exprs@.len() ==> later.exprs@[i] == earlier.exprs@[i],
        forall|i: int| 0 <= i < earlier.stmts@.len() ==> later.stmts@[i] == earlier.stmts@[i],
        forall|i: int| 0 <= i < earlier.lists@.len() ==> later.lists@[i] == earlier.lists@[i],
{
}

/// Whether the table is right for an expression does not change when the
/// tree grows and depths are recorded for new expressions.
pub proof fn lemma_right_expr_carried(
    later: &Ast,
    table: Seq<Option<usize>>,
    earlier: &Ast,
    before: Seq<Option<usize>>,
    shape: Shape,
    id: usize,
)
    requires
        carried(later, table, earlier, before),
        id < earlier.exprs@.len(),
    ensures
        right_expr(later, table, shape, id) == right_expr(earlier, before, shape, id),
    decreases 0int, id, 1int, 0int,
{
    lemma_extends(later, earlier);
    earlier.lemma_expr_fits(id as int);
    later.lemma_expr_fits(id as int);
    match earlier.exprs@[id as int] {
        Expr::Assign { name, value } => {
            lemma_right_expr_carried(later, table, earlier, before, shape, value);
        },
        Expr::Binary { left, operator, right } => {
            lemma_right_expr_carried(later, table, earlier, before, shape, left);
            lemma_right_expr_carried(later, table, earlier, before, shape, right);
        },
        Expr::Logical { left, operator, right } => {
            lemma_right_expr_carried(later, table, earlier, before, shape, left);
            lemma_right_expr_carried(later, table, earlier, before, shape, right);
        },
        Expr::Call { callee, paren, arguments } => {
            lemma_right_expr_carried(later, table, earlier, before, shape, callee);
            lemma_right_exprs_carried(later, table, earlier, before, shape, arguments, 0, id);
        },
        Expr::Get { object, name } => {
            lemma_right_expr_carried(later, table, earlier, before, shape, object);
        },
        Expr::SetProperty { object, name, value } => {
            lemma_right_expr_carried(later, table, earlier, before, shape, object);
            lemma_right_expr_carried(later, table, earlier, before, shape, value);
        },
        Expr::Grouping { expression } => {
            lemma_right_expr_carried(later, table, earlier, before, shape, expression);
        },
        Expr::Unary { operator, right } => {
            lemma_right_expr_carried(later, table, earlier, before, shape, right);
        },
        _ => {},
    }
}

/// Whether the table is right for a run of expressions does not change
/// when the tree grows and depths are recorded for new expressions.
pub proof fn lemma_right_exprs_carried(
    later: &Ast,
    table: Seq<Option<usize>>,
    earlier: &Ast,
    before: Seq<Option<usize>>,
    shape: Shape,
    span: Span,
    i: nat,
    bound: usize,
)
    requires
        carried(later, table, earlier, before),
        span_below(earlier.lists@, span, bound as int),
        bound <= earlier.exprs@.len(),
    ensures
        right_exprs(later, table, shape, span, i) == right_exprs(earlier, before, shape, span, i),
    decreases 0int, bound, 0int, span.len - i,
{
    lemma_extends(later, earlier);
    if i < span.len {
        assert(earlier.lists@[span.start + i] < bound);
        lemma_right_expr_carried(
            later,
            table,
            earlier,
            before,
            shape,
            earlier.lists@[span.start + i],
        );
        lemma_right_exprs_carried(later, table, earlier, before, shape, span, i + 1, bound);
    }
}

/// The names of the parameters of a function do not change when the tree
/// grows.
pub proof fn lemma_params_carried(later: &Ast, earlier: &Ast, params: Span)
    requires
        later.extends(earlier),
        span_below(earlier.lists@, params, earlier.tokens@.len() as int),
    ensures
        params_set(later, params) == params_set(earlier, params),
{
    lemma_extends(later, earlier);
    assert forall|name: Seq<char>|
        params_set(later, params).contains(name) == params_set(earlier, params).contains(
            name,
        ) by {
        if params_set(later, params).contains(name) {
            let j = choose|j: int|
                0 <= j < params.len && later.text(#[trigger] later.lists@[params.start + j])
                    == name;
            assert(earlier.lists@[params.start + j] < earlier.tokens@.len());
            assert(0 <= j < params.len && earlier.text(earlier.lists@[params.start + j]) == name);
        }
        if params_set(earlier, params).contains(name) {
            let j = choose|j: int|
                0 <= j < params.len && earlier.text(#[trigger] earlier.lists@[params.start + j])
                    == name;
            assert(earlier.lists@[params.start + j] < earlier.tokens@.len());
            assert(0 <= j < params.len && later.text(later.lists@[params.start + j]) == name);
        }
    }
    assert(params_set(later, params) =~= params_set(earlier, params));
}

/// Whether the table is right for a statement does not change when the
/// tree grows and depths are recorded for new expressions.
pub proof fn lemma_right_stmt_carried(
    later: &Ast,
    table: Seq<Option<usize>>,
    earlier: &Ast,
    before: Seq<Option<usize>>,
    shape: Shape,
    id: usize,
)
    requires
        carried(later, table, earlier, before),
        id < earlier.stmts@.len(),
    ensures
        right_stmt(later, table, shape, id) == right_stmt(earlier, before, shape, id),
        declared_by(later, id) == declared_by(earlier, id),
    decreases 1int, id, 1int, 0int,
{
    lemma_extends(later, earlier);
    earlier.lemma_stmt_fits(id as int);
    later.lemma_stmt_fits(id as int);
    match earlier.stmts@[id as int] {
        Stmt::Expression { expression } => {
            lemma_right_expr_carried(later, table, earlier, before, shape, expression);
        },
        Stmt::Print { expression } => {
            lemma_right_expr_carried(later, table, earlier, before, shape, expression);
        },
        Stmt::Var { name, initializer } => {
            if let Some(value) = initializer {
                lemma_right_expr_carried(later, table, earlier, before, shape, value);
            }
        },
        Stmt::Block { statements } => {
            lemma_right_list_carried(
                later,
                table,
                earlier,
                before,
                shape.push(Set::empty()),
                statements,
                0,
                id,
            );
        },
        Stmt::If { condition, then_branch, else_branch } => {
            lemma_right_expr_carried(later, table, earlier, before, shape, condition);
            lemma_right_stmt_carried(later, table, earlier, before, shape, then_branch);
            if let Some(otherwise) = else_branch {
                lemma_right_stmt_carried(later, table, earlier, before, shape, otherwise);
            }
        },
        Stmt::While { condition, body } => {
            lemma_right_expr_carried(later, table, earlier, before, shape, condition);
            lemma_right_stmt_carried(later, table, earlier, before, shape, body);
        },
        Stmt::Function { name, params, body } => {
            lemma_right_function_carried(
                later,
                table,
                earlier,
                before,
                crate::binding::declare(shape, earlier.text(name)),
                params,
                body,
                id,
            );
        },
        Stmt::Return { keyword, value } => {
            if let Some(expression) = value {
                lemma_right_expr_carried(later, table, earlier, before, shape, expression);
            }
        },
        Stmt::Class { name, superclass, methods } => {
            if let Some(parent) = superclass {
                lemma_right_expr_carried(later, table, earlier, before, shape, parent);
            }
            lemma_right_methods_carried(
                later,
                table,
                earlier,
                before,
                method_shape(crate::binding::declare(shape, earlier.text(name)), superclass is Some),
                methods,
                0,
                id,
            );
        },
    }
}

/// Whether the table is right for the body of a function does not change
/// when the tree grows and depths are recorded for new expressions.
pub proof fn lemma_right_function_carried(
    later: &Ast,
    table: Seq<Option<usize>>,
    earlier: &Ast,
    before: Seq<Option<usize>>,
    shape: Shape,
    params: Span,
    body: Span,
    bound: usize,
)
    requires
        carried(later, table, earlier, before),
        span_below(earlier.lists@, params, earlier.tokens@.len() as int),
        span_below(earlier.lists@, body, bound as int),
        bound <= earlier.stmts@.len(),
    ensures
        right_function(later, table, shape, params, body) == right_function(
            earlier,
            before,
            shape,
            params,
            body,
        ),
    decreases 1int, bound, 0int, body.len + 1,
{
    lemma_params_carried(later, earlier, params);
    lemma_right_list_carried(
        later,
        table,
        earlier,
        before,
        shape.push(params_set(earlier, params)),
        body,
        0,
        bound,
    );
}

/// Whether the table is right for a run of methods does not change when
/// the tree grows and depths are recorded for new expressions.
pub proof fn lemma_right_methods_carried(
    later: &Ast,
    table: Seq<Option<usize>>,
    earlier: &Ast,
    before: Seq<Option<usize>>,
    shape: Shape,
    span: Span,
    i: nat,
    bound: usize,
)
    requires
        carried(later, table, earlier, before),
        span_below(earlier.lists@, span, bound as int),
        bound <= earlier.stmts@.len(),
    ensures
        right_methods(later, table, shape, span, i) == right_methods(
            earlier,
            before,
            shape,
            span,
            i,
        ),
    decreases 1int, bound, 0int, span.len - i,
{
    lemma_extends(later, earlier);
    if i < span.len {
        let method = earlier.lists@[span.start + i];
        assert(method < bound);
        earlier.lemma_stmt_fits(method as int);
        later.lemma_stmt_fits(method as int);
        if let Stmt::Function { name, params, body } = earlier.stmts@[method as int] {
            lemma_right_function_carried(
                later,
                table,
                earlier,
                before,
                shape,
                params,
                body,
                method,
            );
        }
        lemma_right_methods_carried(later, table, earlier, before, shape, span, i + 1, bound);
    }
}

/// Whether the table is right for a run of statements does not change
/// when the tree grows and depths are recorded for new expressions.
pub proof fn lemma_right_list_carried(
    later: &Ast,
    table: Seq<Option<usize>>,
    earlier: &Ast,
    before: Seq<Option<usize>>,
    shape: Shape,
    span: Span,
    i: nat,
    bound: usize,
)
    requires
        carried(later, table, earlier, before),
        span_below(earlier.lists@, span, bound as int),
        bound <= earlier.stmts@.len(),
    ensures
        right_list(later, table, shape, span, i) == right_list(earlier, before, shape, span, i),
    decreases 1int, bound, 0int, span.len - i,
{
    lemma_extends(later, earlier);
    if i < span.len {
        let stmt = earlier.lists@[span.start + i];
        assert(stmt < bound);
        lemma_right_stmt_carried(later, table, earlier, before, shape, stmt);
        lemma_right_list_carried(
            later,
            table,
            earlier,
            before,
            owing(shape, declared_by(earlier, stmt)),
            span,
            i + 1,
            bound,
        );
    }
}

} // verus!
