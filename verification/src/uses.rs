use crate::ast::{span_below, Ast};
use crate::binding::declared_by;
use crate::expr::{Expr, Span};
use crate::scopes::{
    method_kind, spec_resolve_class, spec_resolve_expr, spec_resolve_exprs, spec_resolve_function,
    spec_resolve_methods, spec_resolve_params, spec_resolve_program, spec_resolve_stmt,
    spec_resolve_stmts, ClassType, FunctionType, RState, Scope, StaticError,
};
use crate::stmt::Stmt;
use vstd::prelude::*;

verus! {

// The uses of names in a piece of the tree are the expressions for which
// the resolver may record a depth: variables, assignments, `this` and
// `super`. Here they are listed in the order in which the resolver meets
// them, and the resolver is shown to record depths for them only, one for
// each at most, while it leaves its scopes as a statement should.

/// The uses of names in the expression `id` of a table of expressions, in
/// the order in which the resolver meets them: the expressions for which
/// it may record a depth. Only what lies before a node counts as inside it.
pub open spec fn seen_expr(exprs: Seq<Expr>, lists: Seq<usize>, id: usize) -> Seq<usize>
    decreases 0int, id, 1int, 0int,
{
    if id >= exprs.len() {
        Seq::empty()
    } else {
        match exprs[id as int] {
            Expr::Variable { name } => seq![id],
            Expr::This { keyword } => seq![id],
            Expr::Super { keyword, method } => seq![id],
            Expr::Assign { name, value } => (if value < id {
                seen_expr(exprs, lists, value)
            } else {
                Seq::empty()
            }).push(id),
            Expr::Binary { left, operator, right } => (if left < id {
                seen_expr(exprs, lists, left)
            } else {
                Seq::empty()
            }) + (if right < id {
                seen_expr(exprs, lists, right)
            } else {
                Seq::empty()
            }),
            Expr::Logical { left, operator, right } => (if left < id {
                seen_expr(exprs, lists, left)
            } else {
                Seq::empty()
            }) + (if right < id {
                seen_expr(exprs, lists, right)
            } else {
                Seq::empty()
            }),
            Expr::Call { callee, paren, arguments } => (if callee < id {
                seen_expr(exprs, lists, callee)
            } else {
                Seq::empty()
            }) + seen_exprs(exprs, lists, arguments, 0, id),
            Expr::Get { object, name } => if object < id {
                seen_expr(exprs, lists, object)
            } else {
                Seq::empty()
            },
            Expr::SetProperty { object, name, value } => (if value < id {
                seen_expr(exprs, lists, value)
            } else {
                Seq::empty()
            }) + (if object < id {
                seen_expr(exprs, lists, object)
            } else {
                Seq::empty()
            }),
            Expr::Grouping { expression } => if expression < id {
                seen_expr(exprs, lists, expression)
            } else {
                Seq::empty()
            },
            Expr::Literal { value } => Seq::empty(),
            Expr::Unary { operator, right } => if right < id {
                seen_expr(exprs, lists, right)
            } else {
                Seq::empty()
            },
        }
    }
}

/// The uses of names in the expressions of the run `span` from its `i`-th
/// on.
pub open spec fn seen_exprs(
    exprs: Seq<Expr>,
    lists: Seq<usize>,
    span: Span,
    i: nat,
    bound: usize,
) -> Seq<usize>
    decreases 0int, bound, 0int, span.len - i,
{
    if i < span.len && span.start + i < lists.len() && lists[span.start + i] < bound {
        seen_expr(exprs, lists, lists[span.start + i]) + seen_exprs(
            exprs,
            lists,
            span,
            i + 1,
            bound,
        )
    } else {
        Seq::empty()
    }
}

/// The uses of names in the bodies of the methods of the run `span` from
/// its `i`-th on.
pub open spec fn seen_methods(
    exprs: Seq<Expr>,
    stmts: Seq<Stmt>,
    lists: Seq<usize>,
    span: Span,
    i: nat,
    bound: usize,
) -> Seq<usize>
    decreases 1int, bound, 0int, span.len - i,
{
    if i < span.len && span.start + i < lists.len() && lists[span.start + i] < bound
        && lists[span.start + i] < stmts.len() {
        let method = lists[span.start + i];
        let inside = match stmts[method as int] {
            Stmt::Function { name, params, body } => seen_stmts(
                exprs,
                stmts,
                lists,
                body,
                0,
                method,
            ),
            _ => Seq::empty(),
        };
        inside + seen_methods(exprs, stmts, lists, span, i + 1, bound)
    } else {
        Seq::empty()
    }
}

/// The uses of names in an expression that may be left out.
pub open spec fn seen_option(exprs: Seq<Expr>, lists: Seq<usize>, expr: Option<usize>) -> Seq<
    usize,
> {
    match expr {
        Some(id) => seen_expr(exprs, lists, id),
        None => Seq::empty(),
    }
}

/// The uses of names in the statement `id`.
pub open spec fn seen_stmt(exprs: Seq<Expr>, stmts: Seq<Stmt>, lists: Seq<usize>, id: usize)
    -> Seq<usize>
    decreases 1int, id, 1int, 0int,
{
    if id >= stmts.len() {
        Seq::empty()
    } else {
        match stmts[id as int] {
            Stmt::Block { statements } => seen_stmts(exprs, stmts, lists, statements, 0, id),
            Stmt::Class { name, superclass, methods } => seen_option(exprs, lists, superclass)
                + seen_methods(exprs, stmts, lists, methods, 0, id),
            Stmt::Var { name, initializer } => seen_option(exprs, lists, initializer),
            Stmt::Function { name, params, body } => seen_stmts(exprs, stmts, lists, body, 0, id),
            Stmt::Expression { expression } => seen_expr(exprs, lists, expression),
            Stmt::If { condition, then_branch, else_branch } => seen_expr(exprs, lists, condition)
                + (if then_branch < id {
                seen_stmt(exprs, stmts, lists, then_branch)
            } else {
                Seq::empty()
            }) + (match else_branch {
                Some(otherwise) => if otherwise < id {
                    seen_stmt(exprs, stmts, lists, otherwise)
                } else {
                    Seq::empty()
                },
                None => Seq::empty(),
            }),
            Stmt::Print { expression } => seen_expr(exprs, lists, expression),
            Stmt::Return { keyword, value } => seen_option(exprs, lists, value),
            Stmt::While { condition, body } => seen_expr(exprs, lists, condition) + (if body
                < id {
                seen_stmt(exprs, stmts, lists, body)
            } else {
                Seq::empty()
            }),
        }
    }
}

/// The uses of names in the statements of the run `span` from its `i`-th
/// on.
pub open spec fn seen_stmts(
    exprs: Seq<Expr>,
    stmts: Seq<Stmt>,
    lists: Seq<usize>,
    span: Span,
    i: nat,
    bound: usize,
) -> Seq<usize>
    decreases 1int, bound, 0int, span.len - i,
{
    if i < span.len && span.start + i < lists.len() && lists[span.start + i] < bound {
        seen_stmt(exprs, stmts, lists, lists[span.start + i]) + seen_stmts(
            exprs,
            stmts,
            lists,
            span,
            i + 1,
            bound,
        )
    } else {
        Seq::empty()
    }
}

/// The uses of names in the statements `statements` from the `i`-th on.
pub open spec fn seen_program(
    exprs: Seq<Expr>,
    stmts: Seq<Stmt>,
    lists: Seq<usize>,
    statements: Seq<usize>,
    i: nat,
) -> Seq<usize>
    decreases statements.len() - i,
{
    if i < statements.len() {
        seen_stmt(exprs, stmts, lists, statements[i as int]) + seen_program(
            exprs,
            stmts,
            lists,
            statements,
            i + 1,
        )
    } else {
        Seq::empty()
    }
}

/// The uses of names in the expression `id` of the tree.
pub open spec fn uses_expr(ast: &Ast, id: usize) -> Seq<usize> {
    seen_expr(ast.exprs@, ast.lists@, id)
}

/// The uses of names in the expressions of the run `span` from its `i`-th
/// on.
pub open spec fn uses_exprs(ast: &Ast, span: Span, i: nat, bound: usize) -> Seq<usize> {
    seen_exprs(ast.exprs@, ast.lists@, span, i, bound)
}

/// The uses of names in the bodies of the methods of the run `span` from
/// its `i`-th on.
pub open spec fn uses_methods(ast: &Ast, span: Span, i: nat, bound: usize) -> Seq<usize> {
    seen_methods(ast.exprs@, ast.stmts@, ast.lists@, span, i, bound)
}

/// The uses of names in an expression that may be left out.
pub open spec fn uses_option(ast: &Ast, expr: Option<usize>) -> Seq<usize> {
    seen_option(ast.exprs@, ast.lists@, expr)
}

/// The uses of names in the statement `id` of the tree.
pub open spec fn uses_stmt(ast: &Ast, id: usize) -> Seq<usize> {
    seen_stmt(ast.exprs@, ast.stmts@, ast.lists@, id)
}

/// The uses of names in the statements of the run `span` from its `i`-th
/// on.
pub open spec fn uses_stmts(ast: &Ast, span: Span, i: nat, bound: usize) -> Seq<usize> {
    seen_stmts(ast.exprs@, ast.stmts@, ast.lists@, span, i, bound)
}

/// The uses of names in the statements `statements` from the `i`-th on.
pub open spec fn uses_program(ast: &Ast, statements: Seq<usize>, i: nat) -> Seq<usize> {
    seen_program(ast.exprs@, ast.stmts@, ast.lists@, statements, i)
}

/// No use occurs twice.
pub open spec fn single(uses: Seq<usize>) -> bool {
    forall|i: int, j: int| 0 <= i < j < uses.len() ==> uses[i] != uses[j]
}

/// From `s` to `after` the resolver has gone on: the errors and the depths
/// that it had are still there, and each depth that has come is one for a
/// use among `uses`, no two for the same.
pub open spec fn grew(s: RState, after: RState, uses: Seq<usize>) -> bool {
    &&& s.errors.len() <= after.errors.len()
    &&& after.errors.subrange(0, s.errors.len() as int) == s.errors
    &&& s.resolutions.len() <= after.resolutions.len()
    &&& after.resolutions.subrange(0, s.resolutions.len() as int) == s.resolutions
    &&& forall|k: int|
        s.resolutions.len() <= k < after.resolutions.len() ==> uses.contains(
            (#[trigger] after.resolutions[k]).expr,
        )
    &&& forall|k: int, l: int|
        s.resolutions.len() <= k < l < after.resolutions.len() ==> (
        #[trigger] after.resolutions[k]).expr != (#[trigger] after.resolutions[l]).expr
}

/// The parts of a sequence without a double have none, and share nothing.
pub proof fn lemma_single_parts(first: Seq<usize>, second: Seq<usize>)
    requires
        single(first + second),
    ensures
        single(first),
        single(second),
        forall|e: usize| !(first.contains(e) && second.contains(e)),
{
    let whole = first + second;
    assert forall|i: int, j: int| 0 <= i < j < first.len() implies first[i] != first[j] by {
        assert(whole[i] == first[i] && whole[j] == first[j]);
    }
    assert forall|i: int, j: int| 0 <= i < j < second.len() implies second[i] != second[j] by {
        assert(whole[first.len() + i] == second[i] && whole[first.len() + j] == second[j]);
    }
    assert forall|e: usize| !(first.contains(e) && second.contains(e)) by {
        if first.contains(e) && second.contains(e) {
            let i = choose|i: int| 0 <= i < first.len() && first[i] == e;
            let j = choose|j: int| 0 <= j < second.len() && second[j] == e;
            assert(whole[i] == e && whole[first.len() + j] == e);
        }
    }
}

/// Going on twice is going on, over the uses of both parts.
pub proof fn lemma_grew_twice(
    s: RState,
    between: RState,
    after: RState,
    first: Seq<usize>,
    second: Seq<usize>,
)
    requires
        grew(s, between, first),
        grew(between, after, second),
        single(first + second),
    ensures
        grew(s, after, first + second),
{
    lemma_single_parts(first, second);
    let whole = first + second;
    assert(after.errors.subrange(0, s.errors.len() as int) =~= between.errors.subrange(
        0,
        s.errors.len() as int,
    )) by {
        assert forall|i: int| 0 <= i < s.errors.len() implies after.errors[i]
            == between.errors[i] by {
            assert(after.errors.subrange(0, between.errors.len() as int)[i] == between.errors[i]);
        }
    }
    assert forall|k: int| 0 <= k < between.resolutions.len() implies after.resolutions[k]
        == between.resolutions[k] by {
        assert(after.resolutions.subrange(0, between.resolutions.len() as int)[k]
            == between.resolutions[k]);
    }
    assert(after.resolutions.subrange(0, s.resolutions.len() as int)
        =~= between.resolutions.subrange(0, s.resolutions.len() as int));
    assert forall|k: int| s.resolutions.len() <= k < after.resolutions.len() implies whole.contains(
        (#[trigger] after.resolutions[k]).expr,
    ) by {
        let e = after.resolutions[k].expr;
        if k < between.resolutions.len() {
            assert(first.contains(between.resolutions[k].expr));
            let i = choose|i: int| 0 <= i < first.len() && first[i] == e;
            assert(whole[i] == e);
        } else {
            assert(second.contains(e));
            let j = choose|j: int| 0 <= j < second.len() && second[j] == e;
            assert(whole[first.len() + j] == e);
        }
    }
    assert forall|k: int, l: int|
        s.resolutions.len() <= k < l < after.resolutions.len() implies (
    #[trigger] after.resolutions[k]).expr != (#[trigger] after.resolutions[l]).expr by {
        if l < between.resolutions.len() {
            assert(between.resolutions[k].expr != between.resolutions[l].expr);
        } else if k < between.resolutions.len() {
            assert(first.contains(between.resolutions[k].expr));
            assert(second.contains(after.resolutions[l].expr));
        }
    }
}

/// Going on over some uses is going on over more.
pub proof fn lemma_grew_within(s: RState, after: RState, uses: Seq<usize>, more: Seq<usize>)
    requires
        grew(s, after, uses),
        forall|e: usize| uses.contains(e) ==> more.contains(e),
    ensures
        grew(s, after, more),
{
}

/// Staying is going on.
pub proof fn lemma_grew_none(s: RState, uses: Seq<usize>)
    ensures
        grew(s, s, uses),
{
    assert(s.errors.subrange(0, s.errors.len() as int) =~= s.errors);
    assert(s.resolutions.subrange(0, s.resolutions.len() as int) =~= s.resolutions);
}

/// Going on from and to states with the same errors and depths.
pub proof fn lemma_grew_like(
    s: RState,
    after: RState,
    from: RState,
    to: RState,
    uses: Seq<usize>,
)
    requires
        grew(s, after, uses),
        from.errors == s.errors,
        from.resolutions == s.resolutions,
        to.errors == after.errors,
        to.resolutions == after.resolutions,
    ensures
        grew(from, to, uses),
{
}

/// Reporting an error is going on.
pub proof fn lemma_grew_report(s: RState, token: usize, kind: StaticError, uses: Seq<usize>)
    ensures
        grew(s, s.report(token, kind), uses),
{
    let after = s.report(token, kind);
    assert(after.errors.subrange(0, s.errors.len() as int) =~= s.errors);
    assert(after.resolutions.subrange(0, s.resolutions.len() as int) =~= s.resolutions);
}

/// Recording the depth of a use is going on.
pub proof fn lemma_grew_local(s: RState, id: usize, name: Seq<char>)
    ensures
        grew(s, s.resolve_local(id, name), seq![id]),
        s.resolve_local(id, name).scopes == s.scopes,
        s.resolve_local(id, name).current_function == s.current_function,
        s.resolve_local(id, name).current_class == s.current_class,
        s.resolve_local(id, name).errors == s.errors,
{
    let after = s.resolve_local(id, name);
    assert(after.errors.subrange(0, s.errors.len() as int) =~= s.errors);
    assert(after.resolutions.subrange(0, s.resolutions.len() as int) =~= s.resolutions);
    assert(seq![id][0] == id);
}

/// Declaring a name is going on.
pub proof fn lemma_grew_declare(ast: &Ast, s: RState, token: usize, uses: Seq<usize>)
    ensures
        grew(s, s.declare(ast, token), uses),
        s.declare(ast, token).scopes == s.bind(ast.text(token), false).scopes,
        s.declare(ast, token).current_function == s.current_function,
        s.declare(ast, token).current_class == s.current_class,
        s.declare(ast, token).resolutions == s.resolutions,
{
    lemma_grew_none(s, uses);
    lemma_grew_report(s, token, StaticError::AlreadyDeclared, uses);
}

/// All scopes but the innermost are the same.
pub open spec fn same_but_last(before: Seq<Scope>, after: Seq<Scope>) -> bool {
    &&& after.len() == before.len()
    &&& forall|i: int| 0 <= i < before.len() - 1 ==> after[i] == before[i]
}

/// The scopes after a statement: the innermost holds the name that the
/// statement declares as ready.
pub open spec fn scopes_after(ast: &Ast, s: RState, id: usize) -> Seq<Scope> {
    match declared_by(ast, id) {
        Some(name) => s.bind(name, true).scopes,
        None => s.scopes,
    }
}

/// Resolving an expression goes on over its uses and leaves the scopes.
pub proof fn lemma_expr_grows(ast: &Ast, s: RState, id: usize)
    requires
        ast.wf(),
        id < ast.exprs@.len(),
        single(uses_expr(ast, id)),
    ensures
        grew(s, spec_resolve_expr(ast, s, id), uses_expr(ast, id)),
        spec_resolve_expr(ast, s, id).scopes == s.scopes,
        spec_resolve_expr(ast, s, id).current_function == s.current_function,
        spec_resolve_expr(ast, s, id).current_class == s.current_class,
    decreases 0int, id, 1int, 0int,
{
    ast.lemma_expr_fits(id as int);
    let after = spec_resolve_expr(ast, s, id);
    let uses = uses_expr(ast, id);
    let none = Seq::<usize>::empty();
    match ast.exprs@[id as int] {
        Expr::Variable { name } => {
            lemma_grew_use(s, id, name, ast.text(name), after);
        },
        Expr::This { keyword } => {
            lemma_grew_use(s, id, keyword, ast.text(keyword), after);
        },
        Expr::Super { keyword, method } => {
            lemma_grew_use(s, id, keyword, ast.text(keyword), after);
        },
        Expr::Assign { name, value } => {
            let valued = spec_resolve_expr(ast, s, value);
            assert(uses =~= uses_expr(ast, value) + seq![id]);
            lemma_single_parts(uses_expr(ast, value), seq![id]);
            lemma_expr_grows(ast, s, value);
            lemma_grew_use(valued, id, name, ast.text(name), after);
            lemma_grew_twice(s, valued, after, uses_expr(ast, value), seq![id]);
        },
        Expr::Binary { left, operator, right } => {
            lemma_pair_grows(ast, s, left, right, id);
        },
        Expr::Logical { left, operator, right } => {
            lemma_pair_grows(ast, s, left, right, id);
        },
        Expr::Call { callee, paren, arguments } => {
            let called = spec_resolve_expr(ast, s, callee);
            lemma_single_parts(uses_expr(ast, callee), uses_exprs(ast, arguments, 0, id));
            lemma_expr_grows(ast, s, callee);
            lemma_exprs_grow(ast, called, arguments, 0, id);
            lemma_grew_twice(
                s,
                called,
                after,
                uses_expr(ast, callee),
                uses_exprs(ast, arguments, 0, id),
            );
        },
        Expr::Get { object, name } => {
            lemma_expr_grows(ast, s, object);
        },
        Expr::SetProperty { object, name, value } => {
            lemma_pair_grows(ast, s, value, object, id);
        },
        Expr::Grouping { expression } => {
            lemma_expr_grows(ast, s, expression);
        },
        Expr::Literal { value } => {
            lemma_grew_none(s, uses);
        },
        Expr::Unary { operator, right } => {
            lemma_expr_grows(ast, s, right);
        },
    }
}

/// Recording the depth of a use, after an error was reported or none, is
/// going on.
pub proof fn lemma_grew_use(s: RState, id: usize, token: usize, name: Seq<char>, after: RState)
    requires
        after == s.resolve_local(id, name) || after == s || (exists|kind: StaticError|
            after == s.report(token, kind) || after == s.report(token, kind).resolve_local(
                id,
                name,
            )),
    ensures
        grew(s, after, seq![id]),
        after.scopes == s.scopes,
        after.current_function == s.current_function,
        after.current_class == s.current_class,
{
    let none = Seq::<usize>::empty();
    assert(none + seq![id] =~= seq![id]);
    if after == s.resolve_local(id, name) {
        lemma_grew_local(s, id, name);
    } else if after == s {
        lemma_grew_none(s, seq![id]);
    } else {
        let kind = choose|kind: StaticError|
            after == s.report(token, kind) || after == s.report(token, kind).resolve_local(
                id,
                name,
            );
        let checked = s.report(token, kind);
        lemma_grew_report(s, token, kind, none);
        if after == checked {
            lemma_grew_report(s, token, kind, seq![id]);
        } else {
            lemma_grew_local(checked, id, name);
            lemma_grew_twice(s, checked, after, none, seq![id]);
        }
    }
}

/// Resolving two expressions, one after the other, goes on over the uses
/// of both.
pub proof fn lemma_pair_grows(ast: &Ast, s: RState, first: usize, second: usize, bound: usize)
    requires
        ast.wf(),
        first < bound,
        second < bound,
        bound <= ast.exprs@.len(),
        single(uses_expr(ast, first) + uses_expr(ast, second)),
    ensures
        ({
            let after = spec_resolve_expr(ast, spec_resolve_expr(ast, s, first), second);
            &&& grew(s, after, uses_expr(ast, first) + uses_expr(ast, second))
            &&& after.scopes == s.scopes
            &&& after.current_function == s.current_function
            &&& after.current_class == s.current_class
        }),
    decreases 0int, bound, 0int, 0int,
{
    let between = spec_resolve_expr(ast, s, first);
    let after = spec_resolve_expr(ast, between, second);
    lemma_single_parts(uses_expr(ast, first), uses_expr(ast, second));
    lemma_expr_grows(ast, s, first);
    lemma_expr_grows(ast, between, second);
    lemma_grew_twice(s, between, after, uses_expr(ast, first), uses_expr(ast, second));
}

/// Resolving a run of expressions goes on over their uses and leaves the
/// scopes.
pub proof fn lemma_exprs_grow(ast: &Ast, s: RState, span: Span, i: nat, bound: usize)
    requires
        ast.wf(),
        span_below(ast.lists@, span, bound as int),
        bound <= ast.exprs@.len(),
        single(uses_exprs(ast, span, i, bound)),
    ensures
        grew(s, spec_resolve_exprs(ast, s, span, i, bound), uses_exprs(ast, span, i, bound)),
        spec_resolve_exprs(ast, s, span, i, bound).scopes == s.scopes,
        spec_resolve_exprs(ast, s, span, i, bound).current_function == s.current_function,
        spec_resolve_exprs(ast, s, span, i, bound).current_class == s.current_class,
    decreases 0int, bound, 0int, span.len - i,
{
    if i < span.len {
        let id = ast.lists@[span.start + i];
        let between = spec_resolve_expr(ast, s, id);
        let after = spec_resolve_exprs(ast, between, span, i + 1, bound);
        lemma_single_parts(uses_expr(ast, id), uses_exprs(ast, span, i + 1, bound));
        lemma_expr_grows(ast, s, id);
        lemma_exprs_grow(ast, between, span, i + 1, bound);
        lemma_grew_twice(
            s,
            between,
            after,
            uses_expr(ast, id),
            uses_exprs(ast, span, i + 1, bound),
        );
    } else {
        lemma_grew_none(s, uses_exprs(ast, span, i, bound));
    }
}

/// What the grammar keeps apart: the branches of an `if` and the body of a
/// loop declare nothing in the scope around them, and the superclass of a
/// class is a variable.
pub open spec fn tidy_stmt(ast: &Ast, id: usize) -> bool {
    match ast.stmts@[id as int] {
        Stmt::If { condition, then_branch, else_branch } => {
            &&& declared_by(ast, then_branch) is None
            &&& else_branch matches Some(otherwise) ==> declared_by(ast, otherwise) is None
        },
        Stmt::While { condition, body } => declared_by(ast, body) is None,
        Stmt::Class { name, superclass, methods } => superclass matches Some(parent)
            ==> ast.exprs@[parent as int] is Variable,
        _ => true,
    }
}

/// Every statement of the tree is as the grammar has it.
pub open spec fn tidy(ast: &Ast) -> bool {
    forall|id: usize| id < ast.stmts@.len() ==> tidy_stmt(ast, id)
}

/// Declaring and defining a name at once is going on, and binds the name
/// as ready.
pub proof fn lemma_grew_named(ast: &Ast, s: RState, token: usize, uses: Seq<usize>)
    ensures
        grew(s, s.declare(ast, token).define(ast, token), uses),
        s.declare(ast, token).define(ast, token).scopes == s.bind(ast.text(token), true).scopes,
        s.declare(ast, token).define(ast, token).current_function == s.current_function,
        s.declare(ast, token).define(ast, token).current_class == s.current_class,
        s.declare(ast, token).define(ast, token).resolutions == s.resolutions,
{
    let declared = s.declare(ast, token);
    let after = declared.define(ast, token);
    let name = ast.text(token);
    lemma_grew_declare(ast, s, token, uses);
    lemma_grew_like(s, declared, s, after, uses);
    if s.scopes.len() > 0 {
        assert(s.scopes.last().insert(name, false).insert(name, true) =~= s.scopes.last().insert(
            name,
            true,
        ));
        assert(after.scopes =~= s.bind(name, true).scopes);
    }
}

/// Declaring the parameters is going on; it changes the innermost scope
/// only and records nothing.
pub proof fn lemma_params_grow(ast: &Ast, s: RState, span: Span, i: nat, uses: Seq<usize>)
    ensures
        grew(s, spec_resolve_params(ast, s, span, i), uses),
        same_but_last(s.scopes, spec_resolve_params(ast, s, span, i).scopes),
        spec_resolve_params(ast, s, span, i).current_function == s.current_function,
        spec_resolve_params(ast, s, span, i).current_class == s.current_class,
        spec_resolve_params(ast, s, span, i).resolutions == s.resolutions,
    decreases span.len - i,
{
    if i < span.len {
        let token = ast.lists@[span.start + i];
        let between = s.declare(ast, token).define(ast, token);
        let after = spec_resolve_params(ast, between, span, i + 1);
        let none = Seq::<usize>::empty();
        lemma_grew_named(ast, s, token, none);
        lemma_params_grow(ast, between, span, i + 1, none);
        assert(none + none =~= none);
        lemma_grew_twice(s, between, after, none, none);
        lemma_grew_within(s, after, none, uses);
    } else {
        lemma_grew_none(s, uses);
    }
}

/// Resolving a function goes on over the uses in its body and leaves the
/// scopes.
pub proof fn lemma_function_grows(
    ast: &Ast,
    s: RState,
    params: Span,
    body: Span,
    kind: FunctionType,
    bound: usize,
)
    requires
        ast.wf(),
        tidy(ast),
        span_below(ast.lists@, body, bound as int),
        bound <= ast.stmts@.len(),
        single(uses_stmts(ast, body, 0, bound)),
    ensures
        grew(
            s,
            spec_resolve_function(ast, s, params, body, kind, bound),
            uses_stmts(ast, body, 0, bound),
        ),
        spec_resolve_function(ast, s, params, body, kind, bound).scopes == s.scopes,
        spec_resolve_function(ast, s, params, body, kind, bound).current_function
            == s.current_function,
        spec_resolve_function(ast, s, params, body, kind, bound).current_class == s.current_class,
    decreases 1int, bound, 0int, body.len + 1,
{
    let uses = uses_stmts(ast, body, 0, bound);
    let none = Seq::<usize>::empty();
    let start = s.in_function(kind).begin_scope();
    let inside = spec_resolve_params(ast, start, params, 0);
    let done = spec_resolve_stmts(ast, inside, body, 0, bound);
    let after = done.end_scope().in_function(s.current_function);
    lemma_params_grow(ast, start, params, 0, none);
    lemma_stmts_grow(ast, inside, body, 0, bound);
    assert(none + uses =~= uses);
    lemma_grew_twice(start, inside, done, none, uses);
    lemma_grew_like(start, done, s, after, uses);
    assert(after.scopes =~= s.scopes);
}

/// Resolving the methods of a class goes on over the uses in their bodies
/// and leaves the scopes.
pub proof fn lemma_methods_grow(ast: &Ast, s: RState, span: Span, i: nat, bound: usize)
    requires
        ast.wf(),
        tidy(ast),
        span_below(ast.lists@, span, bound as int),
        bound <= ast.stmts@.len(),
        single(uses_methods(ast, span, i, bound)),
    ensures
        grew(s, spec_resolve_methods(ast, s, span, i, bound), uses_methods(ast, span, i, bound)),
        spec_resolve_methods(ast, s, span, i, bound).scopes == s.scopes,
        spec_resolve_methods(ast, s, span, i, bound).current_function == s.current_function,
        spec_resolve_methods(ast, s, span, i, bound).current_class == s.current_class,
    decreases 1int, bound, 0int, span.len - i,
{
    if i < span.len {
        let method = ast.lists@[span.start + i];
        ast.lemma_stmt_fits(method as int);
        let inside = match ast.stmts@[method as int] {
            Stmt::Function { name, params, body } => uses_stmts(ast, body, 0, method),
            _ => Seq::empty(),
        };
        let rest = uses_methods(ast, span, i + 1, bound);
        lemma_single_parts(inside, rest);
        let between = match ast.stmts@[method as int] {
            Stmt::Function { name, params, body } => spec_resolve_function(
                ast,
                s,
                params,
                body,
                method_kind(ast.text(name)),
                method,
            ),
            _ => s,
        };
        match ast.stmts@[method as int] {
            Stmt::Function { name, params, body } => {
                lemma_function_grows(ast, s, params, body, method_kind(ast.text(name)), method);
            },
            _ => {
                lemma_grew_none(s, inside);
            },
        }
        let after = spec_resolve_methods(ast, between, span, i + 1, bound);
        lemma_methods_grow(ast, between, span, i + 1, bound);
        lemma_grew_twice(s, between, after, inside, rest);
    } else {
        lemma_grew_none(s, uses_methods(ast, span, i, bound));
    }
}

/// Resolving a class goes on over the uses in its superclass and in its
/// methods, and binds the name of the class as ready.
pub proof fn lemma_class_grows(
    ast: &Ast,
    s: RState,
    name: usize,
    superclass: Option<usize>,
    methods: Span,
    bound: usize,
)
    requires
        ast.wf(),
        tidy(ast),
        span_below(ast.lists@, methods, bound as int),
        bound <= ast.stmts@.len(),
        superclass matches Some(parent) ==> parent < ast.exprs@.len(),
        single(uses_option(ast, superclass) + uses_methods(ast, methods, 0, bound)),
    ensures
        grew(
            s,
            spec_resolve_class(ast, s, name, superclass, methods, bound),
            uses_option(ast, superclass) + uses_methods(ast, methods, 0, bound),
        ),
        spec_resolve_class(ast, s, name, superclass, methods, bound).scopes == s.bind(
            ast.text(name),
            true,
        ).scopes,
        spec_resolve_class(ast, s, name, superclass, methods, bound).current_function
            == s.current_function,
        spec_resolve_class(ast, s, name, superclass, methods, bound).current_class
            == s.current_class,
    decreases 1int, bound, 0int, methods.len + 1,
{
    let first = uses_option(ast, superclass);
    let second = uses_methods(ast, methods, 0, bound);
    let none = Seq::<usize>::empty();
    lemma_single_parts(first, second);
    let entered = s.in_class(ClassType::Class);
    let named = entered.declare(ast, name).define(ast, name);
    lemma_grew_named(ast, entered, name, none);
    lemma_grew_like(entered, named, s, named, none);
    let opened = match superclass {
        Some(parent) => {
            let checked = if crate::scopes::inherits_from_itself(ast, name, parent) {
                named.report(
                    crate::scopes::superclass_token(ast, parent),
                    StaticError::InheritFromSelf,
                )
            } else {
                named
            };
            spec_resolve_expr(ast, checked.in_class(ClassType::Subclass), parent).begin_scope()
                .bind("super"@, true)
        },
        None => named,
    };
    match superclass {
        Some(parent) => {
            let checked = if crate::scopes::inherits_from_itself(ast, name, parent) {
                named.report(
                    crate::scopes::superclass_token(ast, parent),
                    StaticError::InheritFromSelf,
                )
            } else {
                named
            };
            lemma_grew_none(named, none);
            lemma_grew_report(
                named,
                crate::scopes::superclass_token(ast, parent),
                StaticError::InheritFromSelf,
                none,
            );
            let sub = checked.in_class(ClassType::Subclass);
            let resolved = spec_resolve_expr(ast, sub, parent);
            lemma_expr_grows(ast, sub, parent);
            lemma_grew_like(named, checked, named, sub, none);
            assert(none + first =~= first);
            lemma_grew_twice(named, sub, resolved, none, first);
            lemma_grew_like(named, resolved, named, opened, first);
        },
        None => {
            lemma_grew_none(named, first);
        },
    }
    assert(none + first =~= first);
    lemma_grew_twice(s, named, opened, none, first);
    let inside = opened.begin_scope().bind("this"@, true);
    let walked = spec_resolve_methods(ast, inside, methods, 0, bound);
    lemma_methods_grow(ast, inside, methods, 0, bound);
    let after = spec_resolve_class(ast, s, name, superclass, methods, bound);
    lemma_grew_like(inside, walked, opened, after, second);
    lemma_grew_twice(s, opened, after, first, second);
    assert(inside.scopes.drop_last() =~= opened.scopes);
    if superclass is Some {
        assert(opened.scopes.drop_last() =~= named.scopes);
    }
    assert(after.scopes =~= named.scopes);
}

/// Resolving a block goes on over the uses in it and leaves the scopes.
pub proof fn lemma_block_grows(ast: &Ast, s: RState, id: usize)
    requires
        ast.wf(),
        tidy(ast),
        id < ast.stmts@.len(),
        single(uses_stmt(ast, id)),
        ast.stmts@[id as int] is Block,
    ensures
        grew(s, spec_resolve_stmt(ast, s, id), uses_stmt(ast, id)),
        spec_resolve_stmt(ast, s, id).scopes == scopes_after(ast, s, id),
        spec_resolve_stmt(ast, s, id).current_function == s.current_function,
        spec_resolve_stmt(ast, s, id).current_class == s.current_class,
    decreases 1int, id, 0int, usize::MAX + 2,
{
    ast.lemma_stmt_fits(id as int);
    assert(tidy_stmt(ast, id));
    let after = spec_resolve_stmt(ast, s, id);
    let uses = uses_stmt(ast, id);
    let none = Seq::<usize>::empty();
    if let Stmt::Block { statements } = ast.stmts@[id as int] {
        let start = s.begin_scope();
        let done = spec_resolve_stmts(ast, start, statements, 0, id);
        lemma_stmts_grow(ast, start, statements, 0, id);
        lemma_grew_like(start, done, s, after, uses);
        assert(after.scopes =~= s.scopes);
    }
}

/// Resolving the declaration of a variable goes on over the uses in its
/// initializer, and binds the variable as ready.
pub proof fn lemma_var_grows(ast: &Ast, s: RState, id: usize)
    requires
        ast.wf(),
        tidy(ast),
        id < ast.stmts@.len(),
        single(uses_stmt(ast, id)),
        ast.stmts@[id as int] is Var,
    ensures
        grew(s, spec_resolve_stmt(ast, s, id), uses_stmt(ast, id)),
        spec_resolve_stmt(ast, s, id).scopes == scopes_after(ast, s, id),
        spec_resolve_stmt(ast, s, id).current_function == s.current_function,
        spec_resolve_stmt(ast, s, id).current_class == s.current_class,
{
    ast.lemma_stmt_fits(id as int);
    assert(tidy_stmt(ast, id));
    let after = spec_resolve_stmt(ast, s, id);
    let uses = uses_stmt(ast, id);
    let none = Seq::<usize>::empty();
    if let Stmt::Var { name, initializer } = ast.stmts@[id as int] {
        let declared = s.declare(ast, name);
        lemma_grew_declare(ast, s, name, none);
        let initialized = match initializer {
            Some(value) => spec_resolve_expr(ast, declared, value),
            None => declared,
        };
        match initializer {
            Some(value) => {
                lemma_expr_grows(ast, declared, value);
            },
            None => {
                lemma_grew_none(declared, uses);
            },
        }
        assert(none + uses =~= uses);
        lemma_grew_twice(s, declared, initialized, none, uses);
        lemma_grew_like(s, initialized, s, after, uses);
        let text = ast.text(name);
        if s.scopes.len() > 0 {
            assert(s.scopes.last().insert(text, false).insert(text, true)
                =~= s.scopes.last().insert(text, true));
            assert(after.scopes =~= s.bind(text, true).scopes);
        }
    }
}

/// Resolving the declaration of a function goes on over the uses in its
/// body, and binds the function as ready.
pub proof fn lemma_declaration_grows(ast: &Ast, s: RState, id: usize)
    requires
        ast.wf(),
        tidy(ast),
        id < ast.stmts@.len(),
        single(uses_stmt(ast, id)),
        ast.stmts@[id as int] is Function,
    ensures
        grew(s, spec_resolve_stmt(ast, s, id), uses_stmt(ast, id)),
        spec_resolve_stmt(ast, s, id).scopes == scopes_after(ast, s, id),
        spec_resolve_stmt(ast, s, id).current_function == s.current_function,
        spec_resolve_stmt(ast, s, id).current_class == s.current_class,
    decreases 1int, id, 0int, usize::MAX + 2,
{
    ast.lemma_stmt_fits(id as int);
    assert(tidy_stmt(ast, id));
    let after = spec_resolve_stmt(ast, s, id);
    let uses = uses_stmt(ast, id);
    let none = Seq::<usize>::empty();
    if let Stmt::Function { name, params, body } = ast.stmts@[id as int] {
        let named = s.declare(ast, name).define(ast, name);
        lemma_grew_named(ast, s, name, none);
        lemma_function_grows(ast, named, params, body, FunctionType::Function, id);
        assert(none + uses =~= uses);
        lemma_grew_twice(s, named, after, none, uses);
    }
}

/// Resolving an `if` goes on over the uses in it and leaves the scopes.
pub proof fn lemma_if_grows(ast: &Ast, s: RState, id: usize)
    requires
        ast.wf(),
        tidy(ast),
        id < ast.stmts@.len(),
        single(uses_stmt(ast, id)),
        ast.stmts@[id as int] is If,
    ensures
        grew(s, spec_resolve_stmt(ast, s, id), uses_stmt(ast, id)),
        spec_resolve_stmt(ast, s, id).scopes == scopes_after(ast, s, id),
        spec_resolve_stmt(ast, s, id).current_function == s.current_function,
        spec_resolve_stmt(ast, s, id).current_class == s.current_class,
    decreases 1int, id, 0int, usize::MAX + 2,
{
    ast.lemma_stmt_fits(id as int);
    assert(tidy_stmt(ast, id));
    let after = spec_resolve_stmt(ast, s, id);
    let uses = uses_stmt(ast, id);
    let none = Seq::<usize>::empty();
    if let Stmt::If { condition, then_branch, else_branch } = ast.stmts@[id as int] {
        let first = uses_expr(ast, condition);
        let second = uses_stmt(ast, then_branch);
        let third = match else_branch {
            Some(otherwise) => uses_stmt(ast, otherwise),
            None => Seq::empty(),
        };
        lemma_single_parts(first + second, third);
        lemma_single_parts(first, second);
        let tested = spec_resolve_expr(ast, s, condition);
        let then = spec_resolve_stmt(ast, tested, then_branch);
        lemma_expr_grows(ast, s, condition);
        lemma_stmt_grows(ast, tested, then_branch);
        lemma_grew_twice(s, tested, then, first, second);
        match else_branch {
            Some(otherwise) => {
                lemma_stmt_grows(ast, then, otherwise);
            },
            None => {
                lemma_grew_none(then, third);
            },
        }
        lemma_grew_twice(s, then, after, first + second, third);
    }
}

/// Resolving a `return` goes on over the uses in its value and leaves
/// the scopes.
pub proof fn lemma_return_grows(ast: &Ast, s: RState, id: usize)
    requires
        ast.wf(),
        tidy(ast),
        id < ast.stmts@.len(),
        single(uses_stmt(ast, id)),
        ast.stmts@[id as int] is Return,
    ensures
        grew(s, spec_resolve_stmt(ast, s, id), uses_stmt(ast, id)),
        spec_resolve_stmt(ast, s, id).scopes == scopes_after(ast, s, id),
        spec_resolve_stmt(ast, s, id).current_function == s.current_function,
        spec_resolve_stmt(ast, s, id).current_class == s.current_class,
{
    ast.lemma_stmt_fits(id as int);
    assert(tidy_stmt(ast, id));
    let after = spec_resolve_stmt(ast, s, id);
    let uses = uses_stmt(ast, id);
    let none = Seq::<usize>::empty();
    if let Stmt::Return { keyword, value } = ast.stmts@[id as int] {
        let checked = if s.current_function == FunctionType::Outside {
            s.report(keyword, StaticError::ReturnAtTopLevel)
        } else {
            s
        };
        lemma_grew_none(s, none);
        lemma_grew_report(s, keyword, StaticError::ReturnAtTopLevel, none);
        match value {
            Some(expression) => {
                if checked.current_function == FunctionType::Initializer {
                    lemma_grew_report(
                        checked,
                        keyword,
                        StaticError::ReturnValueFromInitializer,
                        uses,
                    );
                } else {
                    lemma_expr_grows(ast, checked, expression);
                }
            },
            None => {
                lemma_grew_none(checked, uses);
            },
        }
        assert(none + uses =~= uses);
        lemma_grew_twice(s, checked, after, none, uses);
    }
}

/// Resolving a loop goes on over the uses in it and leaves the scopes.
pub proof fn lemma_while_grows(ast: &Ast, s: RState, id: usize)
    requires
        ast.wf(),
        tidy(ast),
        id < ast.stmts@.len(),
        single(uses_stmt(ast, id)),
        ast.stmts@[id as int] is While,
    ensures
        grew(s, spec_resolve_stmt(ast, s, id), uses_stmt(ast, id)),
        spec_resolve_stmt(ast, s, id).scopes == scopes_after(ast, s, id),
        spec_resolve_stmt(ast, s, id).current_function == s.current_function,
        spec_resolve_stmt(ast, s, id).current_class == s.current_class,
    decreases 1int, id, 0int, usize::MAX + 2,
{
    ast.lemma_stmt_fits(id as int);
    assert(tidy_stmt(ast, id));
    let after = spec_resolve_stmt(ast, s, id);
    let uses = uses_stmt(ast, id);
    let none = Seq::<usize>::empty();
    if let Stmt::While { condition, body } = ast.stmts@[id as int] {
        let first = uses_expr(ast, condition);
        let second = uses_stmt(ast, body);
        lemma_single_parts(first, second);
        let tested = spec_resolve_expr(ast, s, condition);
        lemma_expr_grows(ast, s, condition);
        lemma_stmt_grows(ast, tested, body);
        lemma_grew_twice(s, tested, after, first, second);
    }
}

/// Resolving a statement goes on over its uses; what it declares is bound
/// as ready in the innermost scope, and the scopes are the same apart from
/// that.
pub proof fn lemma_stmt_grows(ast: &Ast, s: RState, id: usize)
    requires
        ast.wf(),
        tidy(ast),
        id < ast.stmts@.len(),
        single(uses_stmt(ast, id)),
    ensures
        grew(s, spec_resolve_stmt(ast, s, id), uses_stmt(ast, id)),
        spec_resolve_stmt(ast, s, id).scopes == scopes_after(ast, s, id),
        spec_resolve_stmt(ast, s, id).current_function == s.current_function,
        spec_resolve_stmt(ast, s, id).current_class == s.current_class,
    decreases 1int, id, 1int, 0int,
{
    ast.lemma_stmt_fits(id as int);
    match ast.stmts@[id as int] {
        Stmt::Block { statements } => {
            lemma_block_grows(ast, s, id);
        },
        Stmt::Class { name, superclass, methods } => {
            lemma_class_grows(ast, s, name, superclass, methods, id);
        },
        Stmt::Var { name, initializer } => {
            lemma_var_grows(ast, s, id);
        },
        Stmt::Function { name, params, body } => {
            lemma_declaration_grows(ast, s, id);
        },
        Stmt::Expression { expression } => {
            lemma_expr_grows(ast, s, expression);
        },
        Stmt::Print { expression } => {
            lemma_expr_grows(ast, s, expression);
        },
        Stmt::If { condition, then_branch, else_branch } => {
            lemma_if_grows(ast, s, id);
        },
        Stmt::Return { keyword, value } => {
            lemma_return_grows(ast, s, id);
        },
        Stmt::While { condition, body } => {
            lemma_while_grows(ast, s, id);
        },
    }
}

/// What a statement leaves of the scopes is all but the innermost.
pub proof fn lemma_scopes_after(ast: &Ast, s: RState, id: usize)
    ensures
        same_but_last(s.scopes, scopes_after(ast, s, id)),
{
}

/// Resolving a run of statements goes on over their uses and changes the
/// innermost scope only.
pub proof fn lemma_stmts_grow(ast: &Ast, s: RState, span: Span, i: nat, bound: usize)
    requires
        ast.wf(),
        tidy(ast),
        span_below(ast.lists@, span, bound as int),
        bound <= ast.stmts@.len(),
        single(uses_stmts(ast, span, i, bound)),
    ensures
        grew(s, spec_resolve_stmts(ast, s, span, i, bound), uses_stmts(ast, span, i, bound)),
        same_but_last(s.scopes, spec_resolve_stmts(ast, s, span, i, bound).scopes),
        spec_resolve_stmts(ast, s, span, i, bound).current_function == s.current_function,
        spec_resolve_stmts(ast, s, span, i, bound).current_class == s.current_class,
    decreases 1int, bound, 0int, span.len - i,
{
    if i < span.len {
        let id = ast.lists@[span.start + i];
        let between = spec_resolve_stmt(ast, s, id);
        let after = spec_resolve_stmts(ast, between, span, i + 1, bound);
        lemma_single_parts(uses_stmt(ast, id), uses_stmts(ast, span, i + 1, bound));
        lemma_stmt_grows(ast, s, id);
        lemma_scopes_after(ast, s, id);
        lemma_stmts_grow(ast, between, span, i + 1, bound);
        lemma_grew_twice(
            s,
            between,
            after,
            uses_stmt(ast, id),
            uses_stmts(ast, span, i + 1, bound),
        );
    } else {
        lemma_grew_none(s, uses_stmts(ast, span, i, bound));
    }
}

/// Resolving a program goes on over its uses and changes the innermost
/// scope only.
pub proof fn lemma_program_grows(ast: &Ast, s: RState, statements: Seq<usize>, i: nat)
    requires
        ast.wf(),
        tidy(ast),
        forall|j: int| 0 <= j < statements.len() ==> statements[j] < ast.stmts@.len(),
        single(uses_program(ast, statements, i)),
    ensures
        grew(s, spec_resolve_program(ast, s, statements, i), uses_program(ast, statements, i)),
        same_but_last(s.scopes, spec_resolve_program(ast, s, statements, i).scopes),
        spec_resolve_program(ast, s, statements, i).current_function == s.current_function,
        spec_resolve_program(ast, s, statements, i).current_class == s.current_class,
    decreases statements.len() - i,
{
    if i < statements.len() {
        let id = statements[i as int];
        let between = spec_resolve_stmt(ast, s, id);
        let after = spec_resolve_program(ast, between, statements, i + 1);
        lemma_single_parts(uses_stmt(ast, id), uses_program(ast, statements, i + 1));
        lemma_stmt_grows(ast, s, id);
        lemma_scopes_after(ast, s, id);
        lemma_program_grows(ast, between, statements, i + 1);
        lemma_grew_twice(
            s,
            between,
            after,
            uses_stmt(ast, id),
            uses_program(ast, statements, i + 1),
        );
    } else {
        lemma_grew_none(s, uses_program(ast, statements, i));
    }
}

/// Every use is at or above `low` and below `high`.
pub open spec fn between(uses: Seq<usize>, low: int, high: int) -> bool {
    forall|i: int| 0 <= i < uses.len() ==> low <= #[trigger] uses[i] < high
}

/// The uses in an expression are expressions of the tree.
pub proof fn lemma_uses_expr_below(ast: &Ast, id: usize)
    requires
        ast.wf(),
        id < ast.exprs@.len(),
    ensures
        between(uses_expr(ast, id), 0, id + 1),
    decreases 0int, id, 1int, 0int,
{
    ast.lemma_expr_fits(id as int);
    match ast.exprs@[id as int] {
        Expr::Assign { name, value } => {
            lemma_uses_expr_below(ast, value);
        },
        Expr::Binary { left, operator, right } => {
            lemma_uses_expr_below(ast, left);
            lemma_uses_expr_below(ast, right);
        },
        Expr::Logical { left, operator, right } => {
            lemma_uses_expr_below(ast, left);
            lemma_uses_expr_below(ast, right);
        },
        Expr::Call { callee, paren, arguments } => {
            lemma_uses_expr_below(ast, callee);
            lemma_uses_exprs_below(ast, arguments, 0, id);
        },
        Expr::Get { object, name } => {
            lemma_uses_expr_below(ast, object);
        },
        Expr::SetProperty { object, name, value } => {
            lemma_uses_expr_below(ast, value);
            lemma_uses_expr_below(ast, object);
        },
        Expr::Grouping { expression } => {
            lemma_uses_expr_below(ast, expression);
        },
        Expr::Unary { operator, right } => {
            lemma_uses_expr_below(ast, right);
        },
        _ => {},
    }
}

/// The uses in a run of expressions are expressions of the tree.
pub proof fn lemma_uses_exprs_below(ast: &Ast, span: Span, i: nat, bound: usize)
    requires
        ast.wf(),
        span_below(ast.lists@, span, bound as int),
        bound <= ast.exprs@.len(),
    ensures
        between(uses_exprs(ast, span, i, bound), 0, bound as int),
    decreases 0int, bound, 0int, span.len - i,
{
    if i < span.len {
        lemma_uses_expr_below(ast, ast.lists@[span.start + i]);
        lemma_uses_exprs_below(ast, span, i + 1, bound);
    }
}

/// The uses in the methods of a class are expressions of the tree.
pub proof fn lemma_uses_methods_below(ast: &Ast, span: Span, i: nat, bound: usize)
    requires
        ast.wf(),
        span_below(ast.lists@, span, bound as int),
        bound <= ast.stmts@.len(),
    ensures
        between(uses_methods(ast, span, i, bound), 0, ast.exprs@.len() as int),
    decreases 1int, bound, 0int, span.len - i,
{
    if i < span.len {
        let method = ast.lists@[span.start + i];
        ast.lemma_stmt_fits(method as int);
        if let Stmt::Function { name, params, body } = ast.stmts@[method as int] {
            lemma_uses_stmts_below(ast, body, 0, method);
        }
        lemma_uses_methods_below(ast, span, i + 1, bound);
    }
}

/// The uses in a statement are expressions of the tree.
pub proof fn lemma_uses_stmt_below(ast: &Ast, id: usize)
    requires
        ast.wf(),
        id < ast.stmts@.len(),
    ensures
        between(uses_stmt(ast, id), 0, ast.exprs@.len() as int),
    decreases 1int, id, 1int, 0int,
{
    ast.lemma_stmt_fits(id as int);
    match ast.stmts@[id as int] {
        Stmt::Block { statements } => {
            lemma_uses_stmts_below(ast, statements, 0, id);
        },
        Stmt::Class { name, superclass, methods } => {
            if let Some(parent) = superclass {
                lemma_uses_expr_below(ast, parent);
            }
            lemma_uses_methods_below(ast, methods, 0, id);
        },
        Stmt::Var { name, initializer } => {
            if let Some(value) = initializer {
                lemma_uses_expr_below(ast, value);
            }
        },
        Stmt::Function { name, params, body } => {
            lemma_uses_stmts_below(ast, body, 0, id);
        },
        Stmt::Expression { expression } => {
            lemma_uses_expr_below(ast, expression);
        },
        Stmt::If { condition, then_branch, else_branch } => {
            lemma_uses_expr_below(ast, condition);
            lemma_uses_stmt_below(ast, then_branch);
            if let Some(otherwise) = else_branch {
                lemma_uses_stmt_below(ast, otherwise);
            }
        },
        Stmt::Print { expression } => {
            lemma_uses_expr_below(ast, expression);
        },
        Stmt::Return { keyword, value } => {
            if let Some(expression) = value {
                lemma_uses_expr_below(ast, expression);
            }
        },
        Stmt::While { condition, body } => {
            lemma_uses_expr_below(ast, condition);
            lemma_uses_stmt_below(ast, body);
        },
    }
}

/// The uses in a run of statements are expressions of the tree.
pub proof fn lemma_uses_stmts_below(ast: &Ast, span: Span, i: nat, bound: usize)
    requires
        ast.wf(),
        span_below(ast.lists@, span, bound as int),
        bound <= ast.stmts@.len(),
    ensures
        between(uses_stmts(ast, span, i, bound), 0, ast.exprs@.len() as int),
    decreases 1int, bound, 0int, span.len - i,
{
    if i < span.len {
        lemma_uses_stmt_below(ast, ast.lists@[span.start + i]);
        lemma_uses_stmts_below(ast, span, i + 1, bound);
    }
}

/// The uses in a program are expressions of the tree.
pub proof fn lemma_uses_program_below(ast: &Ast, statements: Seq<usize>, i: nat)
    requires
        ast.wf(),
        forall|j: int| 0 <= j < statements.len() ==> statements[j] < ast.stmts@.len(),
    ensures
        between(uses_program(ast, statements, i), 0, ast.exprs@.len() as int),
    decreases statements.len() - i,
{
    if i < statements.len() {
        lemma_uses_stmt_below(ast, statements[i as int]);
        lemma_uses_program_below(ast, statements, i + 1);
    }
}

} // verus!
