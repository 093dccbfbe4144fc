use crate::ast::{span_below, span_fits, Ast};
use crate::binding::{
    declare, declared_by, depth_in, method_shape, owing, params_set, right_expr, right_exprs,
    right_function, right_list, right_methods, right_stmt, right_use, Shape,
};
use crate::expr::{Expr, Span};
use crate::scopes::{
    innermost, lemma_innermost, method_kind, spec_resolve_class, spec_resolve_expr,
    spec_resolve_exprs, spec_resolve_function, spec_resolve_methods, spec_resolve_params,
    spec_resolve_program, spec_resolve_stmt, spec_resolve_stmts, ClassType, FunctionType, RState,
    Scope, StaticError,
};
use crate::stmt::Stmt;
use crate::uses::{
    grew, lemma_expr_grows, lemma_exprs_grow, lemma_function_grows, lemma_grew_declare,
    lemma_grew_like, lemma_grew_local, lemma_grew_named, lemma_grew_none, lemma_grew_report,
    lemma_grew_twice, lemma_grew_use, lemma_methods_grow, lemma_params_grow, lemma_program_grows,
    lemma_single_parts, lemma_stmt_grows, lemma_stmts_grow, same_but_last, scopes_after, single,
    tidy, tidy_stmt, uses_expr, uses_exprs, uses_methods, uses_option, uses_program, uses_stmt,
    uses_stmts,
};
use vstd::prelude::*;

verus! {

// What the resolver records is right. Where it finds no error in a piece
// of the tree and no use of a name occurs twice in the piece, a table that
// holds the depths that it recorded, and for the uses in the piece no
// others, is right for the piece in the shape of the scopes in which the
// piece was resolved: the names that the scopes hold as ready are the names
// that the environments will bind.

/// The names that a scope holds as ready.
pub open spec fn ready(scope: Scope) -> Set<Seq<char>> {
    Set::new(|name: Seq<char>| scope.contains_key(name) && scope[name])
}

/// The shape of the chain of environments that goes with a stack of
/// scopes: each environment binds the names that its scope holds as ready.
pub open spec fn shape_of_scopes(scopes: Seq<Scope>) -> Shape {
    Seq::new(scopes.len(), |i: int| ready(scopes[i]))
}

/// Every name that a scope holds is ready.
pub open spec fn settled(scopes: Seq<Scope>) -> bool {
    forall|i: int, name: Seq<char>|
        0 <= i < scopes.len() && (#[trigger] scopes[i]).contains_key(name) ==> #[trigger] scopes[i][name]
}

/// A declaration of a variable in the tree has this name.
pub open spec fn var_named(ast: &Ast, text: Seq<char>) -> bool {
    exists|v: int|
        0 <= v < ast.stmts@.len() && (#[trigger] ast.stmts@[v] matches Stmt::Var { name, .. }
            && ast.text(name) == text)
}

/// Every name that a scope holds is ready, but for variables whose
/// initializers are under way, which the innermost scope may hold.
pub open spec fn half(ast: &Ast, scopes: Seq<Scope>) -> bool {
    forall|i: int, name: Seq<char>|
        0 <= i < scopes.len() && (#[trigger] scopes[i]).contains_key(name) && !(
        #[trigger] scopes[i][name]) ==> i == scopes.len() - 1 && var_named(ast, name)
}

/// No variable is declared under the name of a `this` or a `super` of the
/// tree.
pub open spec fn apart(ast: &Ast) -> bool {
    forall|e: int|
        0 <= e < ast.exprs@.len() ==> match #[trigger] ast.exprs@[e] {
            Expr::This { keyword } => !var_named(ast, ast.text(keyword)),
            Expr::Super { keyword, method } => !var_named(ast, ast.text(keyword)),
            _ => true,
        }
}

/// The table holds the depths that the resolver recorded between `s` and
/// `after`, and for the uses `uses` no others.
pub open spec fn agrees(table: Seq<Option<usize>>, s: RState, after: RState, uses: Seq<usize>)
    -> bool {
    &&& forall|k: int|
        s.resolutions.len() <= k < after.resolutions.len() ==> depth_in(
            table,
            (#[trigger] after.resolutions[k]).expr,
        ) == Some(after.resolutions[k].depth)
    &&& forall|e: usize|
        #[trigger] uses.contains(e) && depth_in(table, e) is Some ==> exists|k: int|
            s.resolutions.len() <= k < after.resolutions.len() && (
            #[trigger] after.resolutions[k]).expr == e
}

/// What holds of a walk holds of its two parts: where the walk found no
/// error neither part did, and where the table agrees with the walk it
/// agrees with both.
pub proof fn lemma_parts(
    table: Seq<Option<usize>>,
    s: RState,
    between: RState,
    after: RState,
    first: Seq<usize>,
    second: Seq<usize>,
)
    requires
        grew(s, between, first),
        grew(between, after, second),
        single(first + second),
        after.errors == s.errors,
        agrees(table, s, after, first + second),
    ensures
        between.errors == s.errors,
        after.errors == between.errors,
        agrees(table, s, between, first),
        agrees(table, between, after, second),
{
    lemma_single_parts(first, second);
    let whole = first + second;
    assert(between.errors =~= s.errors) by {
        assert(between.errors.len() == s.errors.len());
        assert(between.errors.subrange(0, s.errors.len() as int) =~= between.errors);
    }
    assert forall|k: int| 0 <= k < between.resolutions.len() implies after.resolutions[k]
        == between.resolutions[k] by {
        assert(after.resolutions.subrange(0, between.resolutions.len() as int)[k]
            == between.resolutions[k]);
    }
    assert forall|e: usize| #[trigger]
        first.contains(e) && depth_in(table, e) is Some implies exists|k: int|
        s.resolutions.len() <= k < between.resolutions.len() && (
        #[trigger] between.resolutions[k]).expr == e by {
        let i = choose|i: int| 0 <= i < first.len() && first[i] == e;
        assert(whole[i] == e);
        assert(whole.contains(e));
        let k = choose|k: int|
            s.resolutions.len() <= k < after.resolutions.len() && (
            #[trigger] after.resolutions[k]).expr == e;
        if k >= between.resolutions.len() {
            assert(second.contains(after.resolutions[k].expr));
        }
        assert(between.resolutions[k].expr == e);
    }
    assert forall|e: usize| #[trigger]
        second.contains(e) && depth_in(table, e) is Some implies exists|k: int|
        between.resolutions.len() <= k < after.resolutions.len() && (
        #[trigger] after.resolutions[k]).expr == e by {
        let j = choose|j: int| 0 <= j < second.len() && second[j] == e;
        assert(whole[first.len() + j] == e);
        assert(whole.contains(e));
        let k = choose|k: int|
            s.resolutions.len() <= k < after.resolutions.len() && (
            #[trigger] after.resolutions[k]).expr == e;
        if k < between.resolutions.len() {
            assert(first.contains(between.resolutions[k].expr));
        }
    }
}

/// Where the table agrees with the recording of the depth of a use, and
/// the name is ready wherever it is declared, the table is right for the
/// use.
pub proof fn lemma_local_right(s: RState, id: usize, name: Seq<char>, table: Seq<Option<usize>>)
    requires
        s.scopes.len() <= usize::MAX,
        agrees(table, s, s.resolve_local(id, name), seq![id]),
        forall|i: int|
            0 <= i < s.scopes.len() && (#[trigger] s.scopes[i]).contains_key(name)
                ==> s.scopes[i][name],
    ensures
        right_use(table, shape_of_scopes(s.scopes), id, name),
{
    let after = s.resolve_local(id, name);
    let count = s.scopes.len() as int;
    lemma_innermost(s.scopes, name, count);
    assert(seq![id][0] == id);
    assert(seq![id].contains(id));
    match innermost(s.scopes, name, count) {
        Some(index) => {
            let k = s.resolutions.len() as int;
            assert(after.resolutions[k].expr == id);
            let depth = (count - 1 - index) as usize;
            assert(depth_in(table, id) == Some(depth));
            assert(s.scopes[index].contains_key(name));
            assert(ready(s.scopes[index]).contains(name));
            assert(shape_of_scopes(s.scopes)[count - 1 - depth] == ready(s.scopes[index]));
        },
        None => {
            assert(after.resolutions.len() == s.resolutions.len());
            assert(depth_in(table, id) is None);
        },
    }
}

/// Where a name is not used in its own initializer, it is ready wherever
/// it is declared.
pub proof fn lemma_checked_right(
    ast: &Ast,
    s: RState,
    id: usize,
    name: usize,
    table: Seq<Option<usize>>,
)
    requires
        s.scopes.len() <= usize::MAX,
        half(ast, s.scopes),
        !(s.scopes.len() > 0 && s.scopes.last().contains_key(ast.text(name))
            && !s.scopes.last()[ast.text(name)]),
        agrees(table, s, s.resolve_local(id, ast.text(name)), seq![id]),
    ensures
        right_use(table, shape_of_scopes(s.scopes), id, ast.text(name)),
{
    let text = ast.text(name);
    assert forall|i: int| 0 <= i < s.scopes.len() && (#[trigger] s.scopes[i]).contains_key(
        text,
    ) implies s.scopes[i][text] by {
        if !s.scopes[i][text] {
            assert(i == s.scopes.len() - 1);
        }
    }
    lemma_local_right(s, id, text, table);
}

/// A `this` or a `super` is ready wherever it is declared.
pub proof fn lemma_keyword_right(
    ast: &Ast,
    s: RState,
    id: usize,
    keyword: usize,
    table: Seq<Option<usize>>,
)
    requires
        s.scopes.len() <= usize::MAX,
        half(ast, s.scopes),
        !var_named(ast, ast.text(keyword)),
        agrees(table, s, s.resolve_local(id, ast.text(keyword)), seq![id]),
    ensures
        right_use(table, shape_of_scopes(s.scopes), id, ast.text(keyword)),
{
    lemma_local_right(s, id, ast.text(keyword), table);
}

/// Where the resolver finds no error in an expression, the depths that it
/// records are right for the expression in the shape of its scopes.
pub proof fn lemma_expr_right(ast: &Ast, s: RState, id: usize, table: Seq<Option<usize>>)
    requires
        ast.wf(),
        apart(ast),
        id < ast.exprs@.len(),
        single(uses_expr(ast, id)),
        half(ast, s.scopes),
        s.scopes.len() <= usize::MAX,
        spec_resolve_expr(ast, s, id).errors == s.errors,
        agrees(table, s, spec_resolve_expr(ast, s, id), uses_expr(ast, id)),
    ensures
        right_expr(ast, table, shape_of_scopes(s.scopes), id),
    decreases 0int, id, 1int, 0int,
{
    ast.lemma_expr_fits(id as int);
    let after = spec_resolve_expr(ast, s, id);
    let shape = shape_of_scopes(s.scopes);
    match ast.exprs@[id as int] {
        Expr::Variable { name } => {
            lemma_grew_local(s.report(name, StaticError::ReadInOwnInitializer), id, ast.text(name));
            lemma_checked_right(ast, s, id, name, table);
        },
        Expr::This { keyword } => {
            assert(s.report(keyword, StaticError::ThisOutsideClass).errors.len() == s.errors.len()
                + 1);
            lemma_keyword_right(ast, s, id, keyword, table);
        },
        Expr::Super { keyword, method } => {
            lemma_grew_local(s.report(keyword, StaticError::SuperOutsideClass), id, ast.text(keyword));
            lemma_grew_local(
                s.report(keyword, StaticError::SuperWithoutSuperclass),
                id,
                ast.text(keyword),
            );
            lemma_keyword_right(ast, s, id, keyword, table);
        },
        Expr::Assign { name, value } => {
            let valued = spec_resolve_expr(ast, s, value);
            let first = uses_expr(ast, value);
            assert(uses_expr(ast, id) =~= first + seq![id]);
            lemma_single_parts(first, seq![id]);
            lemma_expr_grows(ast, s, value);
            lemma_grew_use(valued, id, name, ast.text(name), after);
            lemma_parts(table, s, valued, after, first, seq![id]);
            lemma_expr_right(ast, s, value, table);
            lemma_grew_local(
                valued.report(name, StaticError::ReadInOwnInitializer),
                id,
                ast.text(name),
            );
            lemma_checked_right(ast, valued, id, name, table);
        },
        Expr::Binary { left, operator, right } => {
            lemma_pair_right(ast, s, left, right, id, table);
        },
        Expr::Logical { left, operator, right } => {
            lemma_pair_right(ast, s, left, right, id, table);
        },
        Expr::Call { callee, paren, arguments } => {
            let called = spec_resolve_expr(ast, s, callee);
            let first = uses_expr(ast, callee);
            let second = uses_exprs(ast, arguments, 0, id);
            lemma_single_parts(first, second);
            lemma_expr_grows(ast, s, callee);
            lemma_exprs_grow(ast, called, arguments, 0, id);
            lemma_parts(table, s, called, after, first, second);
            lemma_expr_right(ast, s, callee, table);
            lemma_exprs_right(ast, called, arguments, 0, id, table);
        },
        Expr::Get { object, name } => {
            lemma_expr_right(ast, s, object, table);
        },
        Expr::SetProperty { object, name, value } => {
            lemma_pair_right(ast, s, value, object, id, table);
        },
        Expr::Grouping { expression } => {
            lemma_expr_right(ast, s, expression, table);
        },
        Expr::Literal { value } => {},
        Expr::Unary { operator, right } => {
            lemma_expr_right(ast, s, right, table);
        },
    }
}

/// Where the resolver finds no error in two expressions that it resolves
/// one after the other, the depths that it records are right for both.
pub proof fn lemma_pair_right(
    ast: &Ast,
    s: RState,
    first: usize,
    second: usize,
    bound: usize,
    table: Seq<Option<usize>>,
)
    requires
        ast.wf(),
        apart(ast),
        first < bound,
        second < bound,
        bound <= ast.exprs@.len(),
        single(uses_expr(ast, first) + uses_expr(ast, second)),
        half(ast, s.scopes),
        s.scopes.len() <= usize::MAX,
        spec_resolve_expr(ast, spec_resolve_expr(ast, s, first), second).errors == s.errors,
        agrees(
            table,
            s,
            spec_resolve_expr(ast, spec_resolve_expr(ast, s, first), second),
            uses_expr(ast, first) + uses_expr(ast, second),
        ),
    ensures
        right_expr(ast, table, shape_of_scopes(s.scopes), first),
        right_expr(ast, table, shape_of_scopes(s.scopes), second),
    decreases 0int, bound, 0int, 0int,
{
    let between = spec_resolve_expr(ast, s, first);
    let after = spec_resolve_expr(ast, between, second);
    lemma_single_parts(uses_expr(ast, first), uses_expr(ast, second));
    lemma_expr_grows(ast, s, first);
    lemma_expr_grows(ast, between, second);
    lemma_parts(table, s, between, after, uses_expr(ast, first), uses_expr(ast, second));
    lemma_expr_right(ast, s, first, table);
    lemma_expr_right(ast, between, second, table);
}

/// Where the resolver finds no error in a run of expressions, the depths
/// that it records are right for each of them.
pub proof fn lemma_exprs_right(
    ast: &Ast,
    s: RState,
    span: Span,
    i: nat,
    bound: usize,
    table: Seq<Option<usize>>,
)
    requires
        ast.wf(),
        apart(ast),
        span_below(ast.lists@, span, bound as int),
        bound <= ast.exprs@.len(),
        single(uses_exprs(ast, span, i, bound)),
        half(ast, s.scopes),
        s.scopes.len() <= usize::MAX,
        spec_resolve_exprs(ast, s, span, i, bound).errors == s.errors,
        agrees(table, s, spec_resolve_exprs(ast, s, span, i, bound), uses_exprs(ast, span, i, bound)),
    ensures
        right_exprs(ast, table, shape_of_scopes(s.scopes), span, i),
    decreases 0int, bound, 0int, span.len - i,
{
    if i < span.len {
        let id = ast.lists@[span.start + i];
        let between = spec_resolve_expr(ast, s, id);
        let after = spec_resolve_exprs(ast, between, span, i + 1, bound);
        let first = uses_expr(ast, id);
        let second = uses_exprs(ast, span, i + 1, bound);
        lemma_single_parts(first, second);
        lemma_expr_grows(ast, s, id);
        lemma_exprs_grow(ast, between, span, i + 1, bound);
        lemma_parts(table, s, between, after, first, second);
        lemma_expr_right(ast, s, id, table);
        lemma_exprs_right(ast, between, span, i + 1, bound, table);
    }
}

/// Binding a name as ready declares it in the shape.
pub proof fn lemma_shape_bound(s: RState, name: Seq<char>)
    ensures
        shape_of_scopes(s.bind(name, true).scopes) == declare(shape_of_scopes(s.scopes), name),
        settled(s.scopes) ==> settled(s.bind(name, true).scopes),
        s.bind(name, true).scopes.len() == s.scopes.len(),
{
    let after = s.bind(name, true).scopes;
    if s.scopes.len() > 0 {
        let last = s.scopes.len() - 1;
        assert(ready(after[last]) =~= ready(s.scopes[last]).insert(name));
        assert(shape_of_scopes(after) =~= declare(shape_of_scopes(s.scopes), name));
    } else {
        assert(shape_of_scopes(after) =~= declare(shape_of_scopes(s.scopes), name));
    }
}

/// What a statement leaves of the scopes has the shape in which the name
/// that the statement declares is bound.
pub proof fn lemma_shape_after(ast: &Ast, s: RState, id: usize)
    ensures
        shape_of_scopes(scopes_after(ast, s, id)) == owing(
            shape_of_scopes(s.scopes),
            declared_by(ast, id),
        ),
        settled(s.scopes) ==> settled(scopes_after(ast, s, id)),
        scopes_after(ast, s, id).len() == s.scopes.len(),
{
    match declared_by(ast, id) {
        Some(name) => {
            lemma_shape_bound(s, name);
        },
        None => {},
    }
}

/// Opening a scope, with or without one name in it, adds a link to the
/// shape.
pub proof fn lemma_shape_begin(s: RState)
    ensures
        shape_of_scopes(s.begin_scope().scopes) == shape_of_scopes(s.scopes).push(Set::empty()),
        forall|name: Seq<char>|
            shape_of_scopes(#[trigger] s.begin_scope().bind(name, true).scopes) == shape_of_scopes(
                s.scopes,
            ).push(set![name]),
        settled(s.scopes) ==> settled(s.begin_scope().scopes),
        forall|name: Seq<char>|
            settled(s.scopes) ==> settled(#[trigger] s.begin_scope().bind(name, true).scopes),
{
    let opened = s.begin_scope().scopes;
    assert(ready(Map::<Seq<char>, bool>::empty()) =~= Set::<Seq<char>>::empty());
    assert(shape_of_scopes(opened) =~= shape_of_scopes(s.scopes).push(Set::empty()));
    assert forall|name: Seq<char>|
        shape_of_scopes(#[trigger] s.begin_scope().bind(name, true).scopes) == shape_of_scopes(
            s.scopes,
        ).push(set![name]) by {
        let bound = s.begin_scope().bind(name, true).scopes;
        assert(ready(Map::<Seq<char>, bool>::empty().insert(name, true)) =~= set![name]);
        assert(shape_of_scopes(bound) =~= shape_of_scopes(s.scopes).push(set![name]));
    }
}

/// A parameter of the run `span` from its `i`-th on has this name.
pub open spec fn named_from(ast: &Ast, span: Span, i: nat, name: Seq<char>) -> bool {
    exists|j: int|
        i <= j < span.len && ast.text(#[trigger] ast.lists@[span.start + j]) == name
}

/// Declaring the parameters binds their names as ready in the innermost
/// scope and leaves all else.
pub proof fn lemma_params_scope(ast: &Ast, s: RState, span: Span, i: nat)
    requires
        s.scopes.len() > 0,
    ensures
        ({
            let after = spec_resolve_params(ast, s, span, i).scopes;
            &&& same_but_last(s.scopes, after)
            &&& forall|name: Seq<char>|
                after.last().contains_key(name) <==> s.scopes.last().contains_key(name)
                    || named_from(ast, span, i, name)
            &&& forall|name: Seq<char>|
                after.last().contains_key(name) ==> (after.last()[name] <==> named_from(
                    ast,
                    span,
                    i,
                    name,
                ) || s.scopes.last()[name])
        }),
    decreases span.len - i,
{
    if i < span.len {
        let token = ast.lists@[span.start + i];
        let text = ast.text(token);
        let between = s.declare(ast, token).define(ast, token);
        lemma_grew_named(ast, s, token, Seq::empty());
        lemma_params_scope(ast, between, span, i + 1);
        let after = spec_resolve_params(ast, s, span, i).scopes;
        assert(between.scopes.last() == s.scopes.last().insert(text, true));
        assert forall|name: Seq<char>|
            named_from(ast, span, i, name) <==> name == text || named_from(
                ast,
                span,
                i + 1,
                name,
            ) by {
            if named_from(ast, span, i, name) {
                let j = choose|j: int|
                    i <= j < span.len && ast.text(#[trigger] ast.lists@[span.start + j]) == name;
                if j != i {
                    assert(i + 1 <= j < span.len && ast.text(ast.lists@[span.start + j]) == name);
                }
            }
            if name == text {
                assert(i <= i < span.len && ast.text(ast.lists@[span.start + i]) == name);
            }
            if named_from(ast, span, i + 1, name) {
                let j = choose|j: int|
                    i + 1 <= j < span.len && ast.text(#[trigger] ast.lists@[span.start + j])
                        == name;
                assert(i <= j < span.len && ast.text(ast.lists@[span.start + j]) == name);
            }
        }
    } else {
        assert forall|name: Seq<char>| !named_from(ast, span, i, name) by {}
    }
}

/// Where the resolver finds no error in a function, the depths that it
/// records are right for the body in the shape of the scopes with one more
/// link, which binds the parameters.
pub proof fn lemma_function_right(
    ast: &Ast,
    s: RState,
    params: Span,
    body: Span,
    kind: FunctionType,
    bound: usize,
    table: Seq<Option<usize>>,
)
    requires
        ast.wf(),
        tidy(ast),
        apart(ast),
        span_below(ast.lists@, body, bound as int),
        bound <= ast.stmts@.len(),
        single(uses_stmts(ast, body, 0, bound)),
        settled(s.scopes),
        s.scopes.len() + 1 + 2 * bound <= usize::MAX,
        spec_resolve_function(ast, s, params, body, kind, bound).errors == s.errors,
        agrees(
            table,
            s,
            spec_resolve_function(ast, s, params, body, kind, bound),
            uses_stmts(ast, body, 0, bound),
        ),
    ensures
        right_function(ast, table, shape_of_scopes(s.scopes), params, body),
    decreases 1int, bound, 0int, body.len + 1,
{
    let uses = uses_stmts(ast, body, 0, bound);
    let none = Seq::<usize>::empty();
    let start = s.in_function(kind).begin_scope();
    let inside = spec_resolve_params(ast, start, params, 0);
    let done = spec_resolve_stmts(ast, inside, body, 0, bound);
    lemma_params_grow(ast, start, params, 0, none);
    lemma_stmts_grow(ast, inside, body, 0, bound);
    assert(none + uses =~= uses);
    assert(agrees(table, start, done, none + uses));
    lemma_parts(table, start, inside, done, none, uses);
    lemma_params_scope(ast, start, params, 0);
    assert(ready(inside.scopes.last()) =~= params_set(ast, params)) by {
        assert forall|name: Seq<char>|
            named_from(ast, params, 0, name) <==> params_set(ast, params).contains(name) by {
            if named_from(ast, params, 0, name) {
                let j = choose|j: int|
                    0 <= j < params.len && ast.text(#[trigger] ast.lists@[params.start + j])
                        == name;
                assert(0 <= j < params.len && ast.text(ast.lists@[params.start + j]) == name);
            }
        }
    }
    assert(shape_of_scopes(inside.scopes) =~= shape_of_scopes(s.scopes).push(
        params_set(ast, params),
    ));
    assert(settled(inside.scopes)) by {
        assert forall|i: int, name: Seq<char>|
            0 <= i < inside.scopes.len() && (#[trigger] inside.scopes[i]).contains_key(
                name,
            ) implies #[trigger] inside.scopes[i][name] by {
            if i < inside.scopes.len() - 1 {
                assert(inside.scopes[i] == start.scopes[i]);
                assert(start.scopes[i] == s.scopes[i]);
            }
        }
    }
    lemma_stmts_right(ast, inside, body, 0, bound, table);
}

/// Where the resolver finds no error in the methods of a class, the depths
/// that it records are right for their bodies.
pub proof fn lemma_methods_right(
    ast: &Ast,
    s: RState,
    span: Span,
    i: nat,
    bound: usize,
    table: Seq<Option<usize>>,
)
    requires
        ast.wf(),
        tidy(ast),
        apart(ast),
        span_below(ast.lists@, span, bound as int),
        bound <= ast.stmts@.len(),
        single(uses_methods(ast, span, i, bound)),
        settled(s.scopes),
        s.scopes.len() + 2 * bound <= usize::MAX,
        spec_resolve_methods(ast, s, span, i, bound).errors == s.errors,
        agrees(
            table,
            s,
            spec_resolve_methods(ast, s, span, i, bound),
            uses_methods(ast, span, i, bound),
        ),
    ensures
        right_methods(ast, table, shape_of_scopes(s.scopes), span, i),
    decreases 1int, bound, 0int, span.len - i,
{
    if i < span.len {
        let method = ast.lists@[span.start + i];
        ast.lemma_stmt_fits(method as int);
        let inside = match ast.stmts@[method as int] {
            Stmt::Function { name, params, body } => uses_stmts(ast, body, 0, method),
            _ => Seq::empty(),
        };
        let rest = uses_methods(ast, span, i + 1, bound);
        lemma_single_parts(inside, rest);
        let between = match ast.stmts@[method as int] {
            Stmt::Function { name, params, body } => spec_resolve_function(
                ast,
                s,
                params,
                body,
                method_kind(ast.text(name)),
                method,
            ),
            _ => s,
        };
        let after = spec_resolve_methods(ast, between, span, i + 1, bound);
        match ast.stmts@[method as int] {
            Stmt::Function { name, params, body } => {
                lemma_function_grows(ast, s, params, body, method_kind(ast.text(name)), method);
            },
            _ => {
                lemma_grew_none(s, inside);
            },
        }
        lemma_methods_grow(ast, between, span, i + 1, bound);
        lemma_parts(table, s, between, after, inside, rest);
        match ast.stmts@[method as int] {
            Stmt::Function { name, params, body } => {
                lemma_function_right(
                    ast,
                    s,
                    params,
                    body,
                    method_kind(ast.text(name)),
                    method,
                    table,
                );
            },
            _ => {},
        }
        lemma_methods_right(ast, between, span, i + 1, bound, table);
    }
}

/// Where the resolver finds no error in a run of statements, the depths
/// that it records are right for the run in the shape of its scopes.
pub proof fn lemma_stmts_right(
    ast: &Ast,
    s: RState,
    span: Span,
    i: nat,
    bound: usize,
    table: Seq<Option<usize>>,
)
    requires
        ast.wf(),
        tidy(ast),
        apart(ast),
        span_below(ast.lists@, span, bound as int),
        bound <= ast.stmts@.len(),
        single(uses_stmts(ast, span, i, bound)),
        settled(s.scopes),
        s.scopes.len() + 2 * bound <= usize::MAX,
        spec_resolve_stmts(ast, s, span, i, bound).errors == s.errors,
        agrees(table, s, spec_resolve_stmts(ast, s, span, i, bound), uses_stmts(ast, span, i, bound)),
    ensures
        right_list(ast, table, shape_of_scopes(s.scopes), span, i),
    decreases 1int, bound, 0int, span.len - i,
{
    if i < span.len {
        let id = ast.lists@[span.start + i];
        let between = spec_resolve_stmt(ast, s, id);
        let after = spec_resolve_stmts(ast, between, span, i + 1, bound);
        let first = uses_stmt(ast, id);
        let second = uses_stmts(ast, span, i + 1, bound);
        lemma_single_parts(first, second);
        lemma_stmt_grows(ast, s, id);
        lemma_stmts_grow(ast, between, span, i + 1, bound);
        lemma_parts(table, s, between, after, first, second);
        lemma_shape_after(ast, s, id);
        lemma_stmt_right(ast, s, id, table);
        lemma_stmts_right(ast, between, span, i + 1, bound, table);
    }
}

/// Where the resolver finds no error in a block, the depths that it
/// records are right for it.
pub proof fn lemma_block_right(ast: &Ast, s: RState, id: usize, table: Seq<Option<usize>>)
    requires
        ast.wf(),
        tidy(ast),
        apart(ast),
        id < ast.stmts@.len(),
        single(uses_stmt(ast, id)),
        settled(s.scopes),
        s.scopes.len() + 2 * id + 2 <= usize::MAX,
        spec_resolve_stmt(ast, s, id).errors == s.errors,
        agrees(table, s, spec_resolve_stmt(ast, s, id), uses_stmt(ast, id)),
        ast.stmts@[id as int] is Block,
    ensures
        right_stmt(ast, table, shape_of_scopes(s.scopes), id),
    decreases 1int, id, 0int, usize::MAX + 2,
{
    ast.lemma_stmt_fits(id as int);
    assert(tidy_stmt(ast, id));
    let after = spec_resolve_stmt(ast, s, id);
    let uses = uses_stmt(ast, id);
    let shape = shape_of_scopes(s.scopes);
    let none = Seq::<usize>::empty();
    if let Stmt::Block { statements } = ast.stmts@[id as int] {
        let start = s.begin_scope();
        let done = spec_resolve_stmts(ast, start, statements, 0, id);
        lemma_shape_begin(s);
        assert(agrees(table, start, done, uses));
        lemma_stmts_right(ast, start, statements, 0, id, table);
    }
}

/// Where the resolver finds no error in the declaration of a variable,
/// the depths that it records are right for it: the initializer is
/// resolved with the variable declared and not ready, and evaluated before
/// the variable is bound.
pub proof fn lemma_var_right(ast: &Ast, s: RState, id: usize, table: Seq<Option<usize>>)
    requires
        ast.wf(),
        tidy(ast),
        apart(ast),
        id < ast.stmts@.len(),
        single(uses_stmt(ast, id)),
        settled(s.scopes),
        s.scopes.len() + 2 * id + 2 <= usize::MAX,
        spec_resolve_stmt(ast, s, id).errors == s.errors,
        agrees(table, s, spec_resolve_stmt(ast, s, id), uses_stmt(ast, id)),
        ast.stmts@[id as int] is Var,
    ensures
        right_stmt(ast, table, shape_of_scopes(s.scopes), id),
{
    ast.lemma_stmt_fits(id as int);
    assert(tidy_stmt(ast, id));
    let after = spec_resolve_stmt(ast, s, id);
    let uses = uses_stmt(ast, id);
    let shape = shape_of_scopes(s.scopes);
    let none = Seq::<usize>::empty();
    if let Stmt::Var { name, initializer } = ast.stmts@[id as int] {
        if let Some(value) = initializer {
            let declared = s.declare(ast, name);
            let valued = spec_resolve_expr(ast, declared, value);
            let text = ast.text(name);
            lemma_grew_declare(ast, s, name, none);
            lemma_expr_grows(ast, declared, value);
            assert(none + uses =~= uses);
            assert(agrees(table, s, valued, none + uses));
            lemma_parts(table, s, declared, valued, none, uses);
            assert(s.report(name, StaticError::AlreadyDeclared).errors.len() == s.errors.len()
                + 1);
            if s.scopes.len() > 0 {
                let last = s.scopes.len() - 1;
                assert(!s.scopes.last().contains_key(text));
                assert(ready(declared.scopes[last]) =~= ready(s.scopes[last]));
                assert(ast.stmts@[id as int] matches Stmt::Var { name: n, .. } && ast.text(n)
                    == text);
                assert(var_named(ast, text));
            }
            assert(shape_of_scopes(declared.scopes) =~= shape);
            assert(half(ast, declared.scopes));
            lemma_expr_right(ast, declared, value, table);
        }
    }
}

/// Where the resolver finds no error in the declaration of a function,
/// the depths that it records are right for it.
pub proof fn lemma_declaration_right(ast: &Ast, s: RState, id: usize, table: Seq<Option<usize>>)
    requires
        ast.wf(),
        tidy(ast),
        apart(ast),
        id < ast.stmts@.len(),
        single(uses_stmt(ast, id)),
        settled(s.scopes),
        s.scopes.len() + 2 * id + 2 <= usize::MAX,
        spec_resolve_stmt(ast, s, id).errors == s.errors,
        agrees(table, s, spec_resolve_stmt(ast, s, id), uses_stmt(ast, id)),
        ast.stmts@[id as int] is Function,
    ensures
        right_stmt(ast, table, shape_of_scopes(s.scopes), id),
    decreases 1int, id, 0int, usize::MAX + 2,
{
    ast.lemma_stmt_fits(id as int);
    assert(tidy_stmt(ast, id));
    let after = spec_resolve_stmt(ast, s, id);
    let uses = uses_stmt(ast, id);
    let shape = shape_of_scopes(s.scopes);
    let none = Seq::<usize>::empty();
    if let Stmt::Function { name, params, body } = ast.stmts@[id as int] {
        let named = s.declare(ast, name).define(ast, name);
        lemma_grew_named(ast, s, name, none);
        lemma_function_grows(ast, named, params, body, FunctionType::Function, id);
        assert(none + uses =~= uses);
        lemma_parts(table, s, named, after, none, uses);
        lemma_shape_bound(s, ast.text(name));
        lemma_function_right(ast, named, params, body, FunctionType::Function, id, table);
    }
}

/// Where the resolver finds no error in an `if`, the depths that it
/// records are right for it.
pub proof fn lemma_if_right(ast: &Ast, s: RState, id: usize, table: Seq<Option<usize>>)
    requires
        ast.wf(),
        tidy(ast),
        apart(ast),
        id < ast.stmts@.len(),
        single(uses_stmt(ast, id)),
        settled(s.scopes),
        s.scopes.len() + 2 * id + 2 <= usize::MAX,
        spec_resolve_stmt(ast, s, id).errors == s.errors,
        agrees(table, s, spec_resolve_stmt(ast, s, id), uses_stmt(ast, id)),
        ast.stmts@[id as int] is If,
    ensures
        right_stmt(ast, table, shape_of_scopes(s.scopes), id),
    decreases 1int, id, 0int, usize::MAX + 2,
{
    ast.lemma_stmt_fits(id as int);
    assert(tidy_stmt(ast, id));
    let after = spec_resolve_stmt(ast, s, id);
    let uses = uses_stmt(ast, id);
    let shape = shape_of_scopes(s.scopes);
    let none = Seq::<usize>::empty();
    if let Stmt::If { condition, then_branch, else_branch } = ast.stmts@[id as int] {
        let first = uses_expr(ast, condition);
        let second = uses_stmt(ast, then_branch);
        let third = match else_branch {
            Some(otherwise) => uses_stmt(ast, otherwise),
            None => Seq::empty(),
        };
        lemma_single_parts(first + second, third);
        lemma_single_parts(first, second);
        let tested = spec_resolve_expr(ast, s, condition);
        let then = spec_resolve_stmt(ast, tested, then_branch);
        lemma_expr_grows(ast, s, condition);
        lemma_stmt_grows(ast, tested, then_branch);
        lemma_grew_twice(s, tested, then, first, second);
        match else_branch {
            Some(otherwise) => {
                lemma_stmt_grows(ast, then, otherwise);
            },
            None => {
                lemma_grew_none(then, third);
            },
        }
        lemma_parts(table, s, then, after, first + second, third);
        lemma_parts(table, s, tested, then, first, second);
        lemma_expr_right(ast, s, condition, table);
        lemma_stmt_right(ast, tested, then_branch, table);
        if let Some(otherwise) = else_branch {
            lemma_stmt_right(ast, then, otherwise, table);
        }
    }
}

/// Where the resolver finds no error in a `return`, the depths that it
/// records are right for it.
pub proof fn lemma_return_right(ast: &Ast, s: RState, id: usize, table: Seq<Option<usize>>)
    requires
        ast.wf(),
        tidy(ast),
        apart(ast),
        id < ast.stmts@.len(),
        single(uses_stmt(ast, id)),
        settled(s.scopes),
        s.scopes.len() + 2 * id + 2 <= usize::MAX,
        spec_resolve_stmt(ast, s, id).errors == s.errors,
        agrees(table, s, spec_resolve_stmt(ast, s, id), uses_stmt(ast, id)),
        ast.stmts@[id as int] is Return,
    ensures
        right_stmt(ast, table, shape_of_scopes(s.scopes), id),
{
    ast.lemma_stmt_fits(id as int);
    assert(tidy_stmt(ast, id));
    let after = spec_resolve_stmt(ast, s, id);
    let uses = uses_stmt(ast, id);
    let shape = shape_of_scopes(s.scopes);
    let none = Seq::<usize>::empty();
    if let Stmt::Return { keyword, value } = ast.stmts@[id as int] {
        assert(s.report(keyword, StaticError::ReturnAtTopLevel).errors.len() == s.errors.len()
            + 1);
        if let Some(expression) = value {
            let checked = if s.current_function == FunctionType::Outside {
                s.report(keyword, StaticError::ReturnAtTopLevel)
            } else {
                s
            };
            assert(checked.report(keyword, StaticError::ReturnValueFromInitializer).errors.len()
                == checked.errors.len() + 1);
            if checked.current_function != FunctionType::Initializer {
                lemma_expr_grows(ast, checked, expression);
                lemma_expr_right(ast, s, expression, table);
            }
        }
    }
}

/// Where the resolver finds no error in a loop, the depths that it
/// records are right for it.
pub proof fn lemma_while_right(ast: &Ast, s: RState, id: usize, table: Seq<Option<usize>>)
    requires
        ast.wf(),
        tidy(ast),
        apart(ast),
        id < ast.stmts@.len(),
        single(uses_stmt(ast, id)),
        settled(s.scopes),
        s.scopes.len() + 2 * id + 2 <= usize::MAX,
        spec_resolve_stmt(ast, s, id).errors == s.errors,
        agrees(table, s, spec_resolve_stmt(ast, s, id), uses_stmt(ast, id)),
        ast.stmts@[id as int] is While,
    ensures
        right_stmt(ast, table, shape_of_scopes(s.scopes), id),
    decreases 1int, id, 0int, usize::MAX + 2,
{
    ast.lemma_stmt_fits(id as int);
    assert(tidy_stmt(ast, id));
    let after = spec_resolve_stmt(ast, s, id);
    let uses = uses_stmt(ast, id);
    let shape = shape_of_scopes(s.scopes);
    let none = Seq::<usize>::empty();
    if let Stmt::While { condition, body } = ast.stmts@[id as int] {
        let first = uses_expr(ast, condition);
        let second = uses_stmt(ast, body);
        lemma_single_parts(first, second);
        let tested = spec_resolve_expr(ast, s, condition);
        lemma_expr_grows(ast, s, condition);
        lemma_stmt_grows(ast, tested, body);
        lemma_parts(table, s, tested, after, first, second);
        lemma_expr_right(ast, s, condition, table);
        lemma_stmt_right(ast, tested, body, table);
    }
}

/// Where the resolver finds no error in a statement, the depths that it
/// records are right for the statement in the shape of its scopes.
pub proof fn lemma_stmt_right(ast: &Ast, s: RState, id: usize, table: Seq<Option<usize>>)
    requires
        ast.wf(),
        tidy(ast),
        apart(ast),
        id < ast.stmts@.len(),
        single(uses_stmt(ast, id)),
        settled(s.scopes),
        s.scopes.len() + 2 * id + 2 <= usize::MAX,
        spec_resolve_stmt(ast, s, id).errors == s.errors,
        agrees(table, s, spec_resolve_stmt(ast, s, id), uses_stmt(ast, id)),
    ensures
        right_stmt(ast, table, shape_of_scopes(s.scopes), id),
    decreases 1int, id, 1int, 0int,
{
    ast.lemma_stmt_fits(id as int);
    match ast.stmts@[id as int] {
        Stmt::Block { statements } => {
            lemma_block_right(ast, s, id, table);
        },
        Stmt::Class { name, superclass, methods } => {
            assert(tidy_stmt(ast, id));
            lemma_class_right(ast, s, name, superclass, methods, id, table);
        },
        Stmt::Var { name, initializer } => {
            lemma_var_right(ast, s, id, table);
        },
        Stmt::Function { name, params, body } => {
            lemma_declaration_right(ast, s, id, table);
        },
        Stmt::Expression { expression } => {
            lemma_expr_right(ast, s, expression, table);
        },
        Stmt::Print { expression } => {
            lemma_expr_right(ast, s, expression, table);
        },
        Stmt::If { condition, then_branch, else_branch } => {
            lemma_if_right(ast, s, id, table);
        },
        Stmt::Return { keyword, value } => {
            lemma_return_right(ast, s, id, table);
        },
        Stmt::While { condition, body } => {
            lemma_while_right(ast, s, id, table);
        },
    }
}

/// Where the resolver finds no error in a class, the depths that it
/// records are right for the superclass in the shape of its scopes, and
/// for the methods in the shape with the name of the class and the links
/// for `super` and `this`.
pub proof fn lemma_class_right(
    ast: &Ast,
    s: RState,
    name: usize,
    superclass: Option<usize>,
    methods: Span,
    bound: usize,
    table: Seq<Option<usize>>,
)
    requires
        ast.wf(),
        tidy(ast),
        apart(ast),
        span_below(ast.lists@, methods, bound as int),
        bound <= ast.stmts@.len(),
        superclass matches Some(parent) ==> parent < ast.exprs@.len() && ast.exprs@[parent as int]
            is Variable,
        single(uses_option(ast, superclass) + uses_methods(ast, methods, 0, bound)),
        settled(s.scopes),
        s.scopes.len() + 2 * bound + 2 <= usize::MAX,
        spec_resolve_class(ast, s, name, superclass, methods, bound).errors == s.errors,
        agrees(
            table,
            s,
            spec_resolve_class(ast, s, name, superclass, methods, bound),
            uses_option(ast, superclass) + uses_methods(ast, methods, 0, bound),
        ),
    ensures
        superclass matches Some(parent) ==> right_expr(
            ast,
            table,
            shape_of_scopes(s.scopes),
            parent,
        ),
        right_methods(
            ast,
            table,
            method_shape(declare(shape_of_scopes(s.scopes), ast.text(name)), superclass is Some),
            methods,
            0,
        ),
    decreases 1int, bound, 0int, methods.len + 1,
{
    let shape = shape_of_scopes(s.scopes);
    let first = uses_option(ast, superclass);
    let second = uses_methods(ast, methods, 0, bound);
    let none = Seq::<usize>::empty();
    let after = spec_resolve_class(ast, s, name, superclass, methods, bound);
    lemma_single_parts(first, second);
    let entered = s.in_class(ClassType::Class);
    let named = entered.declare(ast, name).define(ast, name);
    lemma_grew_named(ast, entered, name, none);
    lemma_grew_like(entered, named, s, named, none);
    lemma_shape_bound(entered, ast.text(name));
    assert(shape_of_scopes(named.scopes) == declare(shape, ast.text(name)));
    assert(settled(named.scopes));
    match superclass {
        Some(parent) => {
            let token = crate::scopes::superclass_token(ast, parent);
            let checked = if crate::scopes::inherits_from_itself(ast, name, parent) {
                named.report(token, StaticError::InheritFromSelf)
            } else {
                named
            };
            lemma_grew_none(named, none);
            lemma_grew_report(named, token, StaticError::InheritFromSelf, none);
            let sub = checked.in_class(ClassType::Subclass);
            let resolved = spec_resolve_expr(ast, sub, parent);
            let opened = resolved.begin_scope().bind("super"@, true);
            let inside = opened.begin_scope().bind("this"@, true);
            let walked = spec_resolve_methods(ast, inside, methods, 0, bound);
            lemma_expr_grows(ast, sub, parent);
            lemma_methods_grow(ast, inside, methods, 0, bound);
            // the walk in its parts: naming, the superclass, the methods
            lemma_grew_like(named, checked, named, sub, none);
            lemma_grew_twice(s, named, sub, none, none);
            assert(none + none =~= none);
            assert(none + first =~= first);
            lemma_grew_twice(s, sub, resolved, none, first);
            lemma_grew_like(s, resolved, s, inside, first);
            lemma_grew_like(inside, walked, inside, after, second);
            lemma_parts(table, s, inside, after, first, second);
            assert(agrees(table, s, resolved, none + first));
            lemma_parts(table, s, sub, resolved, none, first);
            assert(named.report(token, StaticError::InheritFromSelf).errors.len()
                == named.errors.len() + 1);
            assert(checked == named);
            // the superclass is a variable other than the class itself
            lemma_expr_right(ast, sub, parent, table);
            ast.lemma_expr_fits(parent as int);
            if let Expr::Variable { name: other } = ast.exprs@[parent as int] {
                assert(ast.text(other) != ast.text(name));
                lemma_bound_before(shape, ast.text(name), table, parent, ast.text(other));
            }
            // the methods
            lemma_shape_begin(resolved);
            lemma_shape_begin(opened);
            assert(shape_of_scopes(inside.scopes) == method_shape(
                declare(shape, ast.text(name)),
                true,
            ));
            assert(agrees(table, inside, walked, second));
            lemma_methods_right(ast, inside, methods, 0, bound, table);
        },
        None => {
            let inside = named.begin_scope().bind("this"@, true);
            let walked = spec_resolve_methods(ast, inside, methods, 0, bound);
            lemma_methods_grow(ast, inside, methods, 0, bound);
            assert(none + second =~= second);
            assert(first =~= none);
            lemma_grew_like(s, named, s, inside, none);
            lemma_grew_like(inside, walked, inside, after, second);
            lemma_parts(table, s, inside, after, none, second);
            lemma_shape_begin(named);
            assert(shape_of_scopes(inside.scopes) == method_shape(
                declare(shape, ast.text(name)),
                false,
            ));
            assert(agrees(table, inside, walked, second));
            lemma_methods_right(ast, inside, methods, 0, bound, table);
        },
    }
}

/// A use of a name that is right in a shape with another name declared is
/// right without.
pub proof fn lemma_bound_before(
    shape: Shape,
    declared: Seq<char>,
    table: Seq<Option<usize>>,
    expr: usize,
    name: Seq<char>,
)
    requires
        name != declared,
        right_use(table, declare(shape, declared), expr, name),
    ensures
        right_use(table, shape, expr, name),
{
}

/// Where the resolver finds no error in a program, the depths that it
/// records are right for the list of its statements, executed at top level.
pub proof fn lemma_program_right(
    ast: &Ast,
    s: RState,
    statements: Seq<usize>,
    i: nat,
    span: Span,
    table: Seq<Option<usize>>,
)
    requires
        ast.wf(),
        tidy(ast),
        apart(ast),
        2 * ast.stmts@.len() <= usize::MAX,
        s.scopes.len() == 0,
        span.len == statements.len(),
        span_fits(span, ast.lists@.len() as int),
        forall|j: int|
            0 <= j < statements.len() ==> ast.lists@[span.start + j] == statements[j]
                && statements[j] < ast.stmts@.len(),
        single(uses_program(ast, statements, i)),
        spec_resolve_program(ast, s, statements, i).errors == s.errors,
        agrees(
            table,
            s,
            spec_resolve_program(ast, s, statements, i),
            uses_program(ast, statements, i),
        ),
    ensures
        right_list(ast, table, Seq::empty(), span, i),
    decreases statements.len() - i,
{
    if i < statements.len() {
        let id = statements[i as int];
        let between = spec_resolve_stmt(ast, s, id);
        let after = spec_resolve_program(ast, between, statements, i + 1);
        let first = uses_stmt(ast, id);
        let second = uses_program(ast, statements, i + 1);
        lemma_single_parts(first, second);
        lemma_stmt_grows(ast, s, id);
        lemma_program_grows(ast, between, statements, i + 1);
        lemma_parts(table, s, between, after, first, second);
        lemma_shape_after(ast, s, id);
        assert(shape_of_scopes(s.scopes) =~= Seq::<Set<Seq<char>>>::empty());
        lemma_stmt_right(ast, s, id, table);
        lemma_program_right(ast, between, statements, i + 1, span, table);
    }
}

} // verus!
