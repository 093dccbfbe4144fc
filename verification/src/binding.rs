use crate::ast::{span_below, Ast};
use crate::expr::{Expr, Span};
use crate::heap::Heap;
use crate::stmt::Stmt;
use vstd::prelude::*;

verus! {

// A depth that the resolver records says how many environments out a name
// is bound. What matters of a chain of environments for that is its shape:
// which names each of its environments binds. Here is what it means for a
// table of depths to be right for a piece of the tree in a shape: every
// depth that the table holds for a use of a name inside the piece leads to
// an environment that binds the name when the use is evaluated.

/// The names that each environment of a chain binds, outermost first; the
/// outermost environment of the chain, the global one, is left out.
pub type Shape = Seq<Set<Seq<char>>>;

/// The heap `later` has all the environments of `earlier`, each inside the
/// same environment as before and binding no fewer names.
pub open spec fn keeps_bindings(later: &Heap, earlier: &Heap) -> bool {
    &&& later.environments@.len() >= earlier.environments@.len()
    &&& forall|i: int|
        0 <= i < earlier.environments@.len() ==> {
            &&& (#[trigger] later.environments@[i]).enclosing == earlier.environments@[i].enclosing
            &&& forall|name: Seq<char>|
                earlier.environments@[i].values@.contains_key(name)
                    ==> #[trigger] later.environments@[i].values@.contains_key(name)
        }
}

/// The environment `depth` links out binds `name`.
pub open spec fn bound_at(shape: Shape, depth: nat, name: Seq<char>) -> bool {
    depth < shape.len() && shape[shape.len() - 1 - depth].contains(name)
}

/// `larger` is as long as `smaller` and binds link by link all that
/// `smaller` binds.
pub open spec fn covers(larger: Shape, smaller: Shape) -> bool {
    &&& larger.len() == smaller.len()
    &&& forall|i: int, name: Seq<char>|
        0 <= i < smaller.len() && smaller[i].contains(name) ==> #[trigger] larger[i].contains(name)
}

/// With `name` bound at the innermost link, if there is one.
pub open spec fn declare(shape: Shape, name: Seq<char>) -> Shape {
    if shape.len() == 0 {
        shape
    } else {
        shape.update(shape.len() - 1, shape.last().insert(name))
    }
}

/// With `name` bound at the innermost link, if a name is given.
pub open spec fn owing(shape: Shape, owed: Option<Seq<char>>) -> Shape {
    match owed {
        Some(name) => declare(shape, name),
        None => shape,
    }
}

/// The shape of the chain of environments from `env` outwards.
pub open spec fn shape_of(heap: &Heap, env: usize) -> Shape
    decreases env,
{
    if env >= heap.environments@.len() {
        Seq::empty()
    } else {
        match heap.environments@[env as int].enclosing {
            Some(parent) => if parent < env {
                shape_of(heap, parent).push(heap.environments@[env as int].values@.dom())
            } else {
                Seq::empty()
            },
            None => Seq::empty(),
        }
    }
}

/// What the shape of a chain says is bound is found at its depth.
pub proof fn lemma_bound_is_found(heap: &Heap, env: usize, depth: nat, name: Seq<char>)
    requires
        bound_at(shape_of(heap, env), depth, name),
    ensures
        heap.found_at(env, depth, name) is Some,
        heap.ancestor(env, depth) matches Some(found) && heap.environments@[found as int]
            .values@.contains_key(name),
    decreases env,
{
    let parent = heap.environments@[env as int].enclosing.unwrap();
    if depth == 0 {
        assert(heap.ancestor(env, 0) == Some(env));
    } else {
        lemma_bound_is_found(heap, parent, (depth - 1) as nat, name);
        assert(heap.ancestor(env, depth) == heap.ancestor(parent, (depth - 1) as nat));
    }
}

/// Making environments and binding names leaves the shape of a chain as
/// long as it was, with no fewer names.
pub proof fn lemma_shape_kept(later: &Heap, earlier: &Heap, env: usize)
    requires
        keeps_bindings(later, earlier),
        env < earlier.environments@.len(),
    ensures
        covers(shape_of(later, env), shape_of(earlier, env)),
    decreases env,
{
    assert(later.environments@[env as int].enclosing
        == earlier.environments@[env as int].enclosing);
    match earlier.environments@[env as int].enclosing {
        Some(parent) => {
            if parent < env {
                lemma_shape_kept(later, earlier, parent);
                let outer_later = shape_of(later, parent);
                let outer_earlier = shape_of(earlier, parent);
                let here_later = later.environments@[env as int].values@.dom();
                let here_earlier = earlier.environments@[env as int].values@.dom();
                assert forall|i: int, name: Seq<char>|
                    0 <= i < outer_earlier.push(here_earlier).len() && outer_earlier.push(
                        here_earlier,
                    )[i].contains(name) implies #[trigger] outer_later.push(here_later)[i].contains(
                    name,
                ) by {
                    if i < outer_earlier.len() {
                        assert(outer_later[i].contains(name));
                    } else {
                        assert(earlier.environments@[env as int].values@.contains_key(name));
                        assert(later.environments@[env as int].values@.contains_key(name));
                    }
                }
            }
        },
        None => {},
    }
}

/// `covers` is reflexive.
pub proof fn lemma_covers_itself(shape: Shape)
    ensures
        covers(shape, shape),
{
}

/// `covers` is transitive.
pub proof fn lemma_covers_chain(largest: Shape, larger: Shape, smaller: Shape)
    requires
        covers(largest, larger),
        covers(larger, smaller),
    ensures
        covers(largest, smaller),
{
    assert forall|i: int, name: Seq<char>|
        0 <= i < smaller.len() && smaller[i].contains(name) implies #[trigger] largest[i].contains(
        name,
    ) by {
        assert(larger[i].contains(name));
    }
}

/// Binding a name on both sides keeps `covers`.
pub proof fn lemma_covers_declare(larger: Shape, smaller: Shape, name: Seq<char>)
    requires
        covers(larger, smaller),
    ensures
        covers(declare(larger, name), declare(smaller, name)),
        covers(declare(larger, name), smaller),
{
    let l = declare(larger, name);
    let s = declare(smaller, name);
    assert forall|i: int, x: Seq<char>| 0 <= i < s.len() && s[i].contains(x) implies #[trigger] l[i]
        .contains(x) by {
        if i == s.len() - 1 {
            if x != name {
                assert(smaller[i].contains(x));
                assert(larger[i].contains(x));
            }
        } else {
            assert(smaller[i].contains(x));
            assert(larger[i].contains(x));
        }
    }
    assert forall|i: int, x: Seq<char>|
        0 <= i < smaller.len() && smaller[i].contains(x) implies #[trigger] l[i].contains(x) by {
        assert(larger[i].contains(x));
    }
}

/// One more link on both sides keeps `covers`, if the new link on the
/// larger side binds all that the one on the smaller side binds.
pub proof fn lemma_covers_push(
    larger: Shape,
    smaller: Shape,
    more: Set<Seq<char>>,
    fewer: Set<Seq<char>>,
)
    requires
        covers(larger, smaller),
        fewer.subset_of(more),
    ensures
        covers(larger.push(more), smaller.push(fewer)),
{
    assert forall|i: int, x: Seq<char>|
        0 <= i < smaller.push(fewer).len() && smaller.push(fewer)[i].contains(
            x,
        ) implies #[trigger] larger.push(more)[i].contains(x) by {
        if i < smaller.len() {
            assert(smaller[i].contains(x));
            assert(larger[i].contains(x));
        }
    }
}

/// What is bound in a shape is bound in one that covers it.
pub proof fn lemma_covers_bound(larger: Shape, smaller: Shape, depth: nat, name: Seq<char>)
    requires
        covers(larger, smaller),
        bound_at(smaller, depth, name),
    ensures
        bound_at(larger, depth, name),
{
    let i = smaller.len() - 1 - depth;
    assert(smaller[i].contains(name));
    assert(larger[i].contains(name));
}

/// One more than the greatest entry of the run `span` from its `i`-th on,
/// and zero if there is none.
pub open spec fn span_top(lists: Seq<usize>, span: Span, i: nat) -> nat
    decreases span.len - i,
{
    if i >= span.len {
        0
    } else {
        let rest = span_top(lists, span, i + 1);
        let here = (lists[span.start + i] + 1) as nat;
        if here > rest {
            here
        } else {
            rest
        }
    }
}

/// A run whose entries are below a bound has its top at or below it.
pub proof fn lemma_span_top(lists: Seq<usize>, span: Span, i: nat, bound: int)
    requires
        span_below(lists, span, bound),
        bound >= 0,
    ensures
        span_top(lists, span, i) <= bound,
    decreases span.len - i,
{
    if i < span.len {
        lemma_span_top(lists, span, i + 1, bound);
        assert(lists[span.start + i] < bound);
    }
}

/// The depth that the table holds for the expression, if any.
pub open spec fn depth_in(table: Seq<Option<usize>>, expr: usize) -> Option<usize> {
    if expr < table.len() {
        table[expr as int]
    } else {
        None
    }
}

/// The depth that the table holds for the expression `expr`, if it holds
/// one, is a depth at which the shape binds `name`.
pub open spec fn right_use(table: Seq<Option<usize>>, shape: Shape, expr: usize, name: Seq<char>)
    -> bool {
    depth_in(table, expr) matches Some(depth) ==> bound_at(shape, depth as nat, name)
}

/// The table is right for the expression `id` and all inside it, evaluated
/// in an environment of the shape `shape`: every depth that it holds for a
/// use of a name is a depth at which the name is bound.
pub open spec fn right_expr(ast: &Ast, table: Seq<Option<usize>>, shape: Shape, id: usize) -> bool
    decreases 0int, id, 1int, 0int,
    when ast.wf() && id < ast.exprs@.len()
{
    proof {
        ast.lemma_expr_fits(id as int);
        if let Expr::Call { callee, paren, arguments } = ast.exprs@[id as int] {
            lemma_span_top(ast.lists@, arguments, 0, id as int);
        }
    }
    match ast.exprs@[id as int] {
        Expr::Variable { name } => right_use(table, shape, id, ast.text(name)),
        Expr::This { keyword } => right_use(table, shape, id, ast.text(keyword)),
        Expr::Super { keyword, method } => right_use(table, shape, id, ast.text(keyword)),
        Expr::Assign { name, value } => right_expr(ast, table, shape, value) && right_use(
            table,
            shape,
            id,
            ast.text(name),
        ),
        Expr::Binary { left, operator, right } => right_expr(ast, table, shape, left)
            && right_expr(ast, table, shape, right),
        Expr::Logical { left, operator, right } => right_expr(ast, table, shape, left)
            && right_expr(ast, table, shape, right),
        Expr::Call { callee, paren, arguments } => right_expr(ast, table, shape, callee)
            && right_exprs(ast, table, shape, arguments, 0),
        Expr::Get { object, name } => right_expr(ast, table, shape, object),
        Expr::SetProperty { object, name, value } => right_expr(ast, table, shape, object)
            && right_expr(ast, table, shape, value),
        Expr::Grouping { expression } => right_expr(ast, table, shape, expression),
        Expr::Unary { operator, right } => right_expr(ast, table, shape, right),
        Expr::Literal { value } => true,
    }
}

/// The table is right for the expressions of the run `span` from its
/// `i`-th on.
pub open spec fn right_exprs(
    ast: &Ast,
    table: Seq<Option<usize>>,
    shape: Shape,
    span: Span,
    i: nat,
) -> bool
    decreases 0int, span_top(ast.lists@, span, i), 0int, span.len - i,
{
    i < span.len ==> right_expr(ast, table, shape, ast.lists@[span.start + i]) && right_exprs(
        ast,
        table,
        shape,
        span,
        i + 1,
    )
}

/// The name that a statement binds in the environment in which it is
/// executed, if it binds one.
pub open spec fn declared_by(ast: &Ast, stmt: usize) -> Option<Seq<char>> {
    match ast.stmts@[stmt as int] {
        Stmt::Var { name, initializer } => Some(ast.text(name)),
        Stmt::Function { name, params, body } => Some(ast.text(name)),
        Stmt::Class { name, superclass, methods } => Some(ast.text(name)),
        _ => None,
    }
}

/// The names of the parameters of the run `params`.
pub open spec fn params_set(ast: &Ast, params: Span) -> Set<Seq<char>> {
    Set::new(
        |name: Seq<char>|
            exists|j: int|
                0 <= j < params.len && ast.text(#[trigger] ast.lists@[params.start + j]) == name,
    )
}

/// The shape in which the bodies of the methods of a class are executed
/// below their parameters, given the shape in which the class is declared:
/// a link for `super` if the class has a superclass, and a link for `this`.
pub open spec fn method_shape(shape: Shape, has_superclass: bool) -> Shape {
    if has_superclass {
        shape.push(set!["super"@]).push(set!["this"@])
    } else {
        shape.push(set!["this"@])
    }
}

/// The table is right for the statement `id` and all inside it, executed
/// in an environment of the shape `shape`.
pub open spec fn right_stmt(ast: &Ast, table: Seq<Option<usize>>, shape: Shape, id: usize) -> bool
    decreases 1int, id, 1int, 0int,
    when ast.wf() && id < ast.stmts@.len()
{
    proof {
        ast.lemma_stmt_fits(id as int);
        match ast.stmts@[id as int] {
            Stmt::Block { statements } => {
                lemma_span_top(ast.lists@, statements, 0, id as int);
            },
            Stmt::Function { name, params, body } => {
                lemma_span_top(ast.lists@, body, 0, id as int);
            },
            Stmt::Class { name, superclass, methods } => {
                lemma_span_top(ast.lists@, methods, 0, id as int);
            },
            _ => {},
        }
    }
    match ast.stmts@[id as int] {
        Stmt::Expression { expression } => right_expr(ast, table, shape, expression),
        Stmt::Print { expression } => right_expr(ast, table, shape, expression),
        Stmt::Var { name, initializer } => initializer matches Some(value) ==> right_expr(
            ast,
            table,
            shape,
            value,
        ),
        Stmt::Block { statements } => right_list(
            ast,
            table,
            shape.push(Set::empty()),
            statements,
            0,
        ),
        Stmt::If { condition, then_branch, else_branch } => {
            &&& right_expr(ast, table, shape, condition)
            &&& right_stmt(ast, table, shape, then_branch)
            &&& else_branch matches Some(otherwise) ==> right_stmt(ast, table, shape, otherwise)
        },
        Stmt::While { condition, body } => right_expr(ast, table, shape, condition)
            && right_stmt(ast, table, shape, body),
        Stmt::Function { name, params, body } => right_function(
            ast,
            table,
            declare(shape, ast.text(name)),
            params,
            body,
        ),
        Stmt::Return { keyword, value } => value matches Some(expression) ==> right_expr(
            ast,
            table,
            shape,
            expression,
        ),
        Stmt::Class { name, superclass, methods } => {
            &&& superclass matches Some(parent) ==> right_expr(ast, table, shape, parent)
            &&& right_methods(
                ast,
                table,
                method_shape(declare(shape, ast.text(name)), superclass is Some),
                methods,
                0,
            )
        },
    }
}

/// The table is right for the body of a function that is closed over an
/// environment of the shape `shape`: the body is executed in an environment
/// inside that one, which binds the parameters.
pub open spec fn right_function(
    ast: &Ast,
    table: Seq<Option<usize>>,
    shape: Shape,
    params: Span,
    body: Span,
) -> bool
    decreases 1int, span_top(ast.lists@, body, 0), 0int, body.len + 1,
{
    right_list(ast, table, shape.push(params_set(ast, params)), body, 0)
}

/// The table is right for the methods of the run `span` from its `i`-th
/// on, bound to an instance in an environment of the shape `shape`.
pub open spec fn right_methods(
    ast: &Ast,
    table: Seq<Option<usize>>,
    shape: Shape,
    span: Span,
    i: nat,
) -> bool
    decreases 1int, span_top(ast.lists@, span, i), 0int, span.len - i,
    when ast.wf() && (i < span.len ==> ast.lists@[span.start + i] < ast.stmts@.len())
{
    i < span.len ==> {
        let method = ast.lists@[span.start + i];
        proof {
            ast.lemma_stmt_fits(method as int);
            if let Stmt::Function { name, params, body } = ast.stmts@[method as int] {
                lemma_span_top(ast.lists@, body, 0, method as int);
            }
        }
        &&& match ast.stmts@[method as int] {
            Stmt::Function { name, params, body } => right_function(
                ast,
                table,
                shape,
                params,
                body,
            ),
            _ => true,
        }
        &&& right_methods(ast, table, shape, span, i + 1)
    }
}

/// The table is right for the statements of the run `span` from its
/// `i`-th on, executed one after the other in an environment of the shape
/// `shape`, in which each binds the name that it declares.
pub open spec fn right_list(
    ast: &Ast,
    table: Seq<Option<usize>>,
    shape: Shape,
    span: Span,
    i: nat,
) -> bool
    decreases 1int, span_top(ast.lists@, span, i), 0int, span.len - i,
{
    i < span.len ==> {
        let stmt = ast.lists@[span.start + i];
        &&& right_stmt(ast, table, shape, stmt)
        &&& right_list(ast, table, owing(shape, declared_by(ast, stmt)), span, i + 1)
    }
}

/// A table that is right for an expression in one shape is right for it in
/// every shape that covers that one.
pub proof fn lemma_right_expr_covers(
    ast: &Ast,
    table: Seq<Option<usize>>,
    larger: Shape,
    smaller: Shape,
    id: usize,
)
    requires
        ast.wf(),
        id < ast.exprs@.len(),
        covers(larger, smaller),
        right_expr(ast, table, smaller, id),
    ensures
        right_expr(ast, table, larger, id),
    decreases 0int, id, 1int, 0int,
{
    ast.lemma_expr_fits(id as int);
    match ast.exprs@[id as int] {
        Expr::Variable { name } => {
            if let Some(depth) = depth_in(table, id) {
                lemma_covers_bound(larger, smaller, depth as nat, ast.text(name));
            }
        },
        Expr::This { keyword } => {
            if let Some(depth) = depth_in(table, id) {
                lemma_covers_bound(larger, smaller, depth as nat, ast.text(keyword));
            }
        },
        Expr::Super { keyword, method } => {
            if let Some(depth) = depth_in(table, id) {
                lemma_covers_bound(larger, smaller, depth as nat, ast.text(keyword));
            }
        },
        Expr::Assign { name, value } => {
            lemma_right_expr_covers(ast, table, larger, smaller, value);
            if let Some(depth) = depth_in(table, id) {
                lemma_covers_bound(larger, smaller, depth as nat, ast.text(name));
            }
        },
        Expr::Binary { left, operator, right } => {
            lemma_right_expr_covers(ast, table, larger, smaller, left);
            lemma_right_expr_covers(ast, table, larger, smaller, right);
        },
        Expr::Logical { left, operator, right } => {
            lemma_right_expr_covers(ast, table, larger, smaller, left);
            lemma_right_expr_covers(ast, table, larger, smaller, right);
        },
        Expr::Call { callee, paren, arguments } => {
            lemma_right_expr_covers(ast, table, larger, smaller, callee);
            lemma_span_top(ast.lists@, arguments, 0, id as int);
            lemma_right_exprs_covers(ast, table, larger, smaller, arguments, 0);
        },
        Expr::Get { object, name } => {
            lemma_right_expr_covers(ast, table, larger, smaller, object);
        },
        Expr::SetProperty { object, name, value } => {
            lemma_right_expr_covers(ast, table, larger, smaller, object);
            lemma_right_expr_covers(ast, table, larger, smaller, value);
        },
        Expr::Grouping { expression } => {
            lemma_right_expr_covers(ast, table, larger, smaller, expression);
        },
        Expr::Unary { operator, right } => {
            lemma_right_expr_covers(ast, table, larger, smaller, right);
        },
        Expr::Literal { value } => {},
    }
}

/// A table that is right for a run of expressions in one shape is right for
/// it in every shape that covers that one.
pub proof fn lemma_right_exprs_covers(
    ast: &Ast,
    table: Seq<Option<usize>>,
    larger: Shape,
    smaller: Shape,
    span: Span,
    i: nat,
)
    requires
        ast.wf(),
        span_below(ast.lists@, span, ast.exprs@.len() as int),
        covers(larger, smaller),
        right_exprs(ast, table, smaller, span, i),
    ensures
        right_exprs(ast, table, larger, span, i),
    decreases 0int, span_top(ast.lists@, span, i), 0int, span.len - i,
{
    if i < span.len {
        lemma_right_expr_covers(ast, table, larger, smaller, ast.lists@[span.start + i]);
        lemma_right_exprs_covers(ast, table, larger, smaller, span, i + 1);
    }
}

/// A table that is right for a statement in one shape is right for it in
/// every shape that covers that one.
pub proof fn lemma_right_stmt_covers(
    ast: &Ast,
    table: Seq<Option<usize>>,
    larger: Shape,
    smaller: Shape,
    id: usize,
)
    requires
        ast.wf(),
        id < ast.stmts@.len(),
        covers(larger, smaller),
        right_stmt(ast, table, smaller, id),
    ensures
        right_stmt(ast, table, larger, id),
    decreases 1int, id, 1int, 0int,
{
    ast.lemma_stmt_fits(id as int);
    match ast.stmts@[id as int] {
        Stmt::Expression { expression } => {
            lemma_right_expr_covers(ast, table, larger, smaller, expression);
        },
        Stmt::Print { expression } => {
            lemma_right_expr_covers(ast, table, larger, smaller, expression);
        },
        Stmt::Var { name, initializer } => {
            if let Some(value) = initializer {
                lemma_right_expr_covers(ast, table, larger, smaller, value);
            }
        },
        Stmt::Block { statements } => {
            lemma_span_top(ast.lists@, statements, 0, id as int);
            lemma_covers_push(larger, smaller, Set::empty(), Set::empty());
            lemma_right_list_covers(
                ast,
                table,
                larger.push(Set::empty()),
                smaller.push(Set::empty()),
                statements,
                0,
            );
        },
        Stmt::If { condition, then_branch, else_branch } => {
            lemma_right_expr_covers(ast, table, larger, smaller, condition);
            lemma_right_stmt_covers(ast, table, larger, smaller, then_branch);
            if let Some(otherwise) = else_branch {
                lemma_right_stmt_covers(ast, table, larger, smaller, otherwise);
            }
        },
        Stmt::While { condition, body } => {
            lemma_right_expr_covers(ast, table, larger, smaller, condition);
            lemma_right_stmt_covers(ast, table, larger, smaller, body);
        },
        Stmt::Function { name, params, body } => {
            lemma_span_top(ast.lists@, body, 0, id as int);
            lemma_covers_declare(larger, smaller, ast.text(name));
            lemma_right_function_covers(
                ast,
                table,
                declare(larger, ast.text(name)),
                declare(smaller, ast.text(name)),
                params,
                body,
            );
        },
        Stmt::Return { keyword, value } => {
            if let Some(expression) = value {
                lemma_right_expr_covers(ast, table, larger, smaller, expression);
            }
        },
        Stmt::Class { name, superclass, methods } => {
            if let Some(parent) = superclass {
                lemma_right_expr_covers(ast, table, larger, smaller, parent);
            }
            lemma_span_top(ast.lists@, methods, 0, id as int);
            lemma_covers_declare(larger, smaller, ast.text(name));
            let l = declare(larger, ast.text(name));
            let s = declare(smaller, ast.text(name));
            if superclass is Some {
                lemma_covers_push(l, s, set!["super"@], set!["super"@]);
                lemma_covers_push(
                    l.push(set!["super"@]),
                    s.push(set!["super"@]),
                    set!["this"@],
                    set!["this"@],
                );
            } else {
                lemma_covers_push(l, s, set!["this"@], set!["this"@]);
            }
            lemma_right_methods_covers(
                ast,
                table,
                method_shape(l, superclass is Some),
                method_shape(s, superclass is Some),
                methods,
                0,
            );
        },
    }
}

/// A table that is right for a function closed over one shape is right for
/// it closed over every shape that covers that one.
pub proof fn lemma_right_function_covers(
    ast: &Ast,
    table: Seq<Option<usize>>,
    larger: Shape,
    smaller: Shape,
    params: Span,
    body: Span,
)
    requires
        ast.wf(),
        span_below(ast.lists@, body, ast.stmts@.len() as int),
        covers(larger, smaller),
        right_function(ast, table, smaller, params, body),
    ensures
        right_function(ast, table, larger, params, body),
    decreases 1int, span_top(ast.lists@, body, 0), 0int, body.len + 1,
{
    lemma_covers_push(larger, smaller, params_set(ast, params), params_set(ast, params));
    lemma_right_list_covers(
        ast,
        table,
        larger.push(params_set(ast, params)),
        smaller.push(params_set(ast, params)),
        body,
        0,
    );
}

/// A table that is right for a run of methods in one shape is right for it
/// in every shape that covers that one.
pub proof fn lemma_right_methods_covers(
    ast: &Ast,
    table: Seq<Option<usize>>,
    larger: Shape,
    smaller: Shape,
    span: Span,
    i: nat,
)
    requires
        ast.wf(),
        span_below(ast.lists@, span, ast.stmts@.len() as int),
        covers(larger, smaller),
        right_methods(ast, table, smaller, span, i),
    ensures
        right_methods(ast, table, larger, span, i),
    decreases 1int, span_top(ast.lists@, span, i), 0int, span.len - i,
{
    if i < span.len {
        let method = ast.lists@[span.start + i];
        ast.lemma_stmt_fits(method as int);
        if let Stmt::Function { name, params, body } = ast.stmts@[method as int] {
            lemma_span_top(ast.lists@, body, 0, method as int);
            lemma_right_function_covers(ast, table, larger, smaller, params, body);
        }
        lemma_right_methods_covers(ast, table, larger, smaller, span, i + 1);
    }
}

/// A table that is right for a run of statements in one shape is right for
/// it in every shape that covers that one.
pub proof fn lemma_right_list_covers(
    ast: &Ast,
    table: Seq<Option<usize>>,
    larger: Shape,
    smaller: Shape,
    span: Span,
    i: nat,
)
    requires
        ast.wf(),
        span_below(ast.lists@, span, ast.stmts@.len() as int),
        covers(larger, smaller),
        right_list(ast, table, smaller, span, i),
    ensures
        right_list(ast, table, larger, span, i),
    decreases 1int, span_top(ast.lists@, span, i), 0int, span.len - i,
{
    if i < span.len {
        let stmt = ast.lists@[span.start + i];
        lemma_right_stmt_covers(ast, table, larger, smaller, stmt);
        match declared_by(ast, stmt) {
            Some(name) => {
                lemma_covers_declare(larger, smaller, name);
            },
            None => {},
        }
        lemma_right_list_covers(
            ast,
            table,
            owing(larger, declared_by(ast, stmt)),
            owing(smaller, declared_by(ast, stmt)),
            span,
            i + 1,
        );
    }
}

} // verus!
