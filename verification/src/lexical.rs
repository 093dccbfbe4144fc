use crate::ast::span_below;
use crate::binding::{
    covers, declare, declared_by, keeps_bindings, lemma_bound_is_found, lemma_covers_chain,
    lemma_covers_declare, lemma_covers_itself, lemma_covers_push, lemma_right_expr_covers,
    lemma_right_exprs_covers, lemma_right_function_covers, lemma_right_list_covers,
    lemma_right_methods_covers, lemma_right_stmt_covers, lemma_shape_kept, method_shape, owing,
    params_set, right_expr, right_exprs, right_function, right_list, right_methods, right_stmt,
    right_use, shape_of, Shape,
};
use crate::callable::LoxCallable;
use crate::expr::Expr;
use crate::frame::{all_fit, Action, Exit, Frame};
use crate::heap::Heap;
use crate::interpreter::Machine;
use crate::laws::{above, environment_after, lemma_step_keeps_environment};
use crate::object::Object;
use crate::semantics::{
    argument_given, assigned, binary_applied, bindings, branched, call_boundary, call_ended,
    call_result, callee_checked, class_declared, collecting, constant_given, discarded, entered,
    evaluated, executed, function_of, initializing, invoked, left_given, listed, logical_decided,
    looked_up, loop_tested, method_bound, method_table, number_replied, printed, property_read,
    restored, stepped, store_checked, stored, super_found, superclass_given, text_replied, this_of,
    unary_applied, variable_defined,
};
use crate::stmt::Stmt;
use vstd::prelude::*;

verus! {

// The table of depths stays right while a program runs. `scoped` says that
// the table is right for all that the machine has left to do, each entry of
// the stack taken in the shape of the environment in which it will go on,
// and for the functions that the heap holds. Every step keeps it; and where
// it holds, a name that is looked up at its depth is found.

/// The table is right for the body of the callable, executed in an
/// environment inside its closure; a method is bound to an instance first.
pub open spec fn callable_right(
    heap: &Heap,
    table: Seq<Option<usize>>,
    callable: LoxCallable,
    method: bool,
) -> bool {
    match callable {
        LoxCallable::User { name, params, body, closure, is_initializer } => right_function(
            &heap.ast,
            table,
            if method {
                shape_of(heap, closure).push(set!["this"@])
            } else {
                shape_of(heap, closure)
            },
            params,
            body,
        ),
        LoxCallable::Native { .. } => true,
    }
}

/// The table is right for the value, if it is a function of the program.
pub open spec fn object_right(heap: &Heap, table: Seq<Option<usize>>, value: Object) -> bool {
    value matches Object::Callable(callable) ==> callable_right(heap, table, callable, false)
}

/// The table is right for every function that an environment binds or an
/// instance holds, and for every method of a class.
#[verifier::opaque]
pub open spec fn heap_right(heap: &Heap, table: Seq<Option<usize>>) -> bool {
    &&& forall|i: int, name: Seq<char>|
        0 <= i < heap.environments@.len() && heap.environments@[i].values@.contains_key(name)
            ==> object_right(heap, table, #[trigger] heap.environments@[i].values@[name])
    &&& forall|i: int, name: Seq<char>|
        0 <= i < heap.instances@.len() && heap.instances@[i].fields@.contains_key(name)
            ==> object_right(heap, table, #[trigger] heap.instances@[i].fields@[name])
    &&& forall|i: int, name: Seq<char>|
        0 <= i < heap.classes@.len() && heap.classes@[i].methods@.contains_key(name)
            ==> callable_right(heap, table, #[trigger] heap.classes@[i].methods@[name], true)
}

/// The environment that will be current when the `i`-th entry of the stack
/// is the uppermost.
pub open spec fn frame_env(m: Machine, i: int) -> usize {
    environment_after(above(m.frames, i + 1), m.environment)
}

/// The name that the entry above the `i`-th will have bound in the
/// environment of the `i`-th when it is done: the name that a declaration
/// under way declares.
pub open spec fn owed(m: Machine, i: int) -> Option<Seq<char>> {
    if 0 <= i && i + 1 < m.frames.len() {
        match m.frames[i + 1] {
            Frame::Exec(stmt) => declared_by(&m.heap.ast, stmt),
            Frame::DefineVar(name) => Some(m.heap.ast.text(name)),
            Frame::ClassSuper { name, methods, token } => Some(m.heap.ast.text(name)),
            _ => None,
        }
    } else {
        None
    }
}

/// The shape of the environment in which the `i`-th entry of the stack
/// will go on.
pub open spec fn frame_shape(m: Machine, i: int) -> Shape {
    owing(shape_of(&m.heap, frame_env(m, i)), owed(m, i))
}

/// The table is right for what an entry of the stack has left to do, done
/// in an environment of the shape `shape`, and for the values it holds.
#[verifier::opaque]
pub open spec fn code_right(heap: &Heap, table: Seq<Option<usize>>, frame: Frame, shape: Shape)
    -> bool {
    let ast = &heap.ast;
    match frame {
        Frame::Exec(stmt) => right_stmt(ast, table, shape, stmt),
        Frame::ExecList { span, next } => right_list(ast, table, shape, span, next as nat),
        Frame::Branch { then_branch, else_branch } => right_stmt(ast, table, shape, then_branch)
            && (else_branch matches Some(otherwise) ==> right_stmt(ast, table, shape, otherwise)),
        Frame::LoopTest { condition, body } => right_expr(ast, table, shape, condition)
            && right_stmt(ast, table, shape, body),
        Frame::ClassSuper { name, methods, token } => right_methods(
            ast,
            table,
            method_shape(declare(shape, ast.text(name)), true),
            methods,
            0,
        ),
        Frame::Eval(expr) => right_expr(ast, table, shape, expr),
        Frame::BinaryRight { operator, right } => right_expr(ast, table, shape, right),
        Frame::LogicalRhs { operator, right } => right_expr(ast, table, shape, right),
        Frame::Assign { expr, name } => right_use(table, shape, expr, ast.text(name)),
        Frame::SetCheck { name, value } => right_expr(ast, table, shape, value),
        Frame::CallCheck { paren, arguments } => right_exprs(ast, table, shape, arguments, 0),
        Frame::Argument { paren, callee, arguments, done } => {
            &&& right_exprs(ast, table, shape, arguments, (done@.len() + 1) as nat)
            &&& object_right(heap, table, callee)
            &&& forall|j: int| 0 <= j < done@.len() ==> object_right(heap, table, #[trigger] done@[j])
        },
        Frame::BinaryApply { operator, left } => object_right(heap, table, left),
        _ => true,
    }
}

/// The place of the entry that the innermost call comes back to; zero
/// outside any call.
pub open spec fn boundary(frames: Seq<Frame>) -> int {
    match call_boundary(frames, frames.len() as int) {
        Some(at) => at,
        None => 0,
    }
}

/// The table is right for all that the machine has left to do and for all
/// the functions that it holds. While the machine leaves the stack for a
/// `return`, what it has left to do is what lies below the innermost call;
/// while it leaves the stack for a runtime error, nothing is left to do.
#[verifier::opaque]
pub open spec fn scoped(m: Machine) -> bool {
    &&& heap_right(&m.heap, m.locals)
    &&& (m.value matches Some(value) ==> object_right(&m.heap, m.locals, value))
    &&& match m.leaving {
        None => forall|i: int|
            0 <= i < m.frames.len() ==> code_right(
                &m.heap,
                m.locals,
                #[trigger] m.frames[i],
                frame_shape(m, i),
            ),
        Some(Exit::Error(_)) => true,
        Some(Exit::Return(value)) => object_right(&m.heap, m.locals, value) && forall|i: int|
            0 <= i < boundary(m.frames) ==> code_right(
                &m.heap,
                m.locals,
                #[trigger] m.frames[i],
                frame_shape(m, i),
            ),
    }
}

/// Where the table is right, reading a variable at the depth that the table
/// holds finds the variable: when the use of a name is about to be
/// evaluated and the table holds a depth for it, the chain of environments
/// is more than that many links long and the environment that many links
/// out binds the name.
pub proof fn lemma_use_is_bound(m: Machine, expr: usize, name: usize, depth: usize)
    requires
        m.wf(),
        scoped(m),
        m.leaving is None,
        m.frames.len() > 0,
        m.frames.last() == Frame::Eval(expr),
        m.heap.ast.exprs@[expr as int] == (Expr::Variable { name }) || m.heap.ast.exprs@[expr as int]
            == (Expr::This { keyword: name }) || (m.heap.ast.exprs@[expr as int] matches Expr::Super {
            keyword,
            ..
        } && keyword == name),
        m.depth(expr) == Some(depth),
    ensures
        m.heap.ancestor(m.environment, depth as nat) matches Some(found)
            && m.heap.environments@[found as int].values@.contains_key(m.heap.ast.text(name)),
        m.heap.found_at(m.environment, depth as nat, m.heap.ast.text(name)) is Some,
{
    let top = m.frames.len() - 1;
    reveal(scoped);
    reveal(code_right);
    assert(code_right(&m.heap, m.locals, m.frames[top], frame_shape(m, top)));
    assert(above(m.frames, top + 1) =~= Seq::<Frame>::empty());
    assert(frame_env(m, top) == m.environment);
    assert(m.frames[top].fits(&m.heap));
    m.heap.lemma_ast();
    lemma_bound_is_found(&m.heap, m.environment, depth as nat, m.heap.ast.text(name));
}

/// Where the table is right, assigning to a variable at the depth that the
/// table holds finds the variable.
pub proof fn lemma_assignment_is_bound(m: Machine, expr: usize, name: usize, depth: usize)
    requires
        m.wf(),
        scoped(m),
        m.leaving is None,
        m.frames.len() > 0,
        m.frames.last() == (Frame::Assign { expr, name }),
        m.depth(expr) == Some(depth),
    ensures
        m.heap.ancestor(m.environment, depth as nat) matches Some(found)
            && m.heap.environments@[found as int].values@.contains_key(m.heap.ast.text(name)),
{
    let top = m.frames.len() - 1;
    reveal(scoped);
    reveal(code_right);
    assert(code_right(&m.heap, m.locals, m.frames[top], frame_shape(m, top)));
    assert(above(m.frames, top + 1) =~= Seq::<Frame>::empty());
    assert(frame_env(m, top) == m.environment);
    lemma_bound_is_found(&m.heap, m.environment, depth as nat, m.heap.ast.text(name));
}

/// Making environments and binding names keeps the table right for a
/// callable.
pub proof fn lemma_callable_right_kept(
    later: &Heap,
    earlier: &Heap,
    table: Seq<Option<usize>>,
    callable: LoxCallable,
    method: bool,
)
    requires
        earlier.wf(),
        later.ast == earlier.ast,
        keeps_bindings(later, earlier),
        earlier.holds_callable(callable),
        callable_right(earlier, table, callable, method),
    ensures
        callable_right(later, table, callable, method),
{
    earlier.lemma_ast();
    match callable {
        LoxCallable::User { name, params, body, closure, is_initializer } => {
            lemma_shape_kept(later, earlier, closure);
            let larger = shape_of(later, closure);
            let smaller = shape_of(earlier, closure);
            if method {
                lemma_covers_push(larger, smaller, set!["this"@], set!["this"@]);
                lemma_right_function_covers(
                    &earlier.ast,
                    table,
                    larger.push(set!["this"@]),
                    smaller.push(set!["this"@]),
                    params,
                    body,
                );
            } else {
                lemma_right_function_covers(&earlier.ast, table, larger, smaller, params, body);
            }
        },
        LoxCallable::Native { .. } => {},
    }
}

/// Making environments and binding names keeps the table right for a
/// value.
pub proof fn lemma_object_right_kept(
    later: &Heap,
    earlier: &Heap,
    table: Seq<Option<usize>>,
    value: Object,
)
    requires
        earlier.wf(),
        later.ast == earlier.ast,
        keeps_bindings(later, earlier),
        earlier.holds(value),
        object_right(earlier, table, value),
    ensures
        object_right(later, table, value),
{
    if let Object::Callable(callable) = value {
        lemma_callable_right_kept(later, earlier, table, callable, false);
    }
}

/// Every value that `later` keeps anywhere is one that `earlier` kept, or
/// one for which the table is right.
pub open spec fn adds_right(later: &Heap, earlier: &Heap, table: Seq<Option<usize>>) -> bool {
    &&& forall|i: int, name: Seq<char>|
        0 <= i < later.environments@.len() && later.environments@[i].values@.contains_key(name)
            ==> object_right(later, table, #[trigger] later.environments@[i].values@[name]) || (i
            < earlier.environments@.len() && earlier.environments@[i].values@.contains_key(name)
            && earlier.environments@[i].values@[name] == later.environments@[i].values@[name])
    &&& forall|i: int, name: Seq<char>|
        0 <= i < later.instances@.len() && later.instances@[i].fields@.contains_key(name)
            ==> object_right(later, table, #[trigger] later.instances@[i].fields@[name]) || (i
            < earlier.instances@.len() && earlier.instances@[i].fields@.contains_key(name)
            && earlier.instances@[i].fields@[name] == later.instances@[i].fields@[name])
    &&& forall|i: int, name: Seq<char>|
        0 <= i < later.classes@.len() && later.classes@[i].methods@.contains_key(name)
            ==> callable_right(later, table, #[trigger] later.classes@[i].methods@[name], true)
            || (i < earlier.classes@.len() && earlier.classes@[i].methods@.contains_key(name)
            && earlier.classes@[i].methods@[name] == later.classes@[i].methods@[name])
}

/// The table stays right for a heap to which only values are added for
/// which it is right.
pub proof fn lemma_heap_right_grown(later: &Heap, earlier: &Heap, table: Seq<Option<usize>>)
    requires
        earlier.wf(),
        later.ast == earlier.ast,
        keeps_bindings(later, earlier),
        heap_right(earlier, table),
        adds_right(later, earlier, table),
    ensures
        heap_right(later, table),
{
    reveal(heap_right);
    assert forall|i: int, name: Seq<char>|
        0 <= i < later.environments@.len() && later.environments@[i].values@.contains_key(
            name,
        ) implies object_right(later, table, #[trigger] later.environments@[i].values@[name]) by {
        let value = later.environments@[i].values@[name];
        if !object_right(later, table, value) {
            earlier.lemma_environment(i);
            assert(earlier.holds(earlier.environments@[i].values@[name]));
            assert(object_right(earlier, table, earlier.environments@[i].values@[name]));
            lemma_object_right_kept(later, earlier, table, value);
        }
    }
    assert forall|i: int, name: Seq<char>|
        0 <= i < later.instances@.len() && later.instances@[i].fields@.contains_key(
            name,
        ) implies object_right(later, table, #[trigger] later.instances@[i].fields@[name]) by {
        let value = later.instances@[i].fields@[name];
        if !object_right(later, table, value) {
            earlier.lemma_instance(i);
            assert(earlier.holds(earlier.instances@[i].fields@[name]));
            assert(object_right(earlier, table, earlier.instances@[i].fields@[name]));
            lemma_object_right_kept(later, earlier, table, value);
        }
    }
    assert forall|i: int, name: Seq<char>|
        0 <= i < later.classes@.len() && later.classes@[i].methods@.contains_key(
            name,
        ) implies callable_right(
        later,
        table,
        #[trigger] later.classes@[i].methods@[name],
        true,
    ) by {
        let method = later.classes@[i].methods@[name];
        if !callable_right(later, table, method, true) {
            earlier.lemma_class(i);
            assert(earlier.holds_callable(earlier.classes@[i].methods@[name]));
            assert(callable_right(earlier, table, earlier.classes@[i].methods@[name], true));
            lemma_callable_right_kept(later, earlier, table, method, true);
        }
    }
}

/// The table stays right for what an entry of the stack has left to do
/// when environments are made and names are bound, in a shape that covers
/// the one it had.
pub proof fn lemma_code_right_kept(
    later: &Heap,
    earlier: &Heap,
    table: Seq<Option<usize>>,
    frame: Frame,
    larger: Shape,
    smaller: Shape,
)
    requires
        earlier.wf(),
        later.ast == earlier.ast,
        keeps_bindings(later, earlier),
        frame.fits(earlier),
        covers(larger, smaller),
        code_right(earlier, table, frame, smaller),
    ensures
        code_right(later, table, frame, larger),
{
    reveal(code_right);
    earlier.lemma_ast();
    let ast = &earlier.ast;
    match frame {
        Frame::Exec(stmt) => {
            lemma_right_stmt_covers(ast, table, larger, smaller, stmt);
        },
        Frame::ExecList { span, next } => {
            lemma_right_list_covers(ast, table, larger, smaller, span, next as nat);
        },
        Frame::Branch { then_branch, else_branch } => {
            lemma_right_stmt_covers(ast, table, larger, smaller, then_branch);
            if let Some(otherwise) = else_branch {
                lemma_right_stmt_covers(ast, table, larger, smaller, otherwise);
            }
        },
        Frame::LoopTest { condition, body } => {
            lemma_right_expr_covers(ast, table, larger, smaller, condition);
            lemma_right_stmt_covers(ast, table, larger, smaller, body);
        },
        Frame::ClassSuper { name, methods, token } => {
            lemma_covers_declare(larger, smaller, ast.text(name));
            let l = declare(larger, ast.text(name));
            let s = declare(smaller, ast.text(name));
            lemma_covers_push(l, s, set!["super"@], set!["super"@]);
            lemma_covers_push(
                l.push(set!["super"@]),
                s.push(set!["super"@]),
                set!["this"@],
                set!["this"@],
            );
            lemma_right_methods_covers(
                ast,
                table,
                method_shape(l, true),
                method_shape(s, true),
                methods,
                0,
            );
        },
        Frame::Eval(expr) => {
            lemma_right_expr_covers(ast, table, larger, smaller, expr);
        },
        Frame::BinaryRight { operator, right } => {
            lemma_right_expr_covers(ast, table, larger, smaller, right);
        },
        Frame::LogicalRhs { operator, right } => {
            lemma_right_expr_covers(ast, table, larger, smaller, right);
        },
        Frame::Assign { expr, name } => {
            if let Some(depth) = crate::binding::depth_in(table, expr) {
                crate::binding::lemma_covers_bound(larger, smaller, depth as nat, ast.text(name));
            }
        },
        Frame::SetCheck { name, value } => {
            lemma_right_expr_covers(ast, table, larger, smaller, value);
        },
        Frame::CallCheck { paren, arguments } => {
            lemma_right_exprs_covers(ast, table, larger, smaller, arguments, 0);
        },
        Frame::Argument { paren, callee, arguments, done } => {
            lemma_right_exprs_covers(
                ast,
                table,
                larger,
                smaller,
                arguments,
                (done@.len() + 1) as nat,
            );
            lemma_object_right_kept(later, earlier, table, callee);
            assert forall|j: int| 0 <= j < done@.len() implies object_right(
                later,
                table,
                #[trigger] done@[j],
            ) by {
                lemma_object_right_kept(later, earlier, table, done@[j]);
            }
        },
        Frame::BinaryApply { operator, left } => {
            lemma_object_right_kept(later, earlier, table, left);
        },
        _ => {},
    }
}

/// One more environment keeps the bindings of the others.
pub proof fn lemma_keeps_new(later: &Heap, earlier: &Heap)
    requires
        later.environments@.len() >= earlier.environments@.len(),
        later.environments@.subrange(0, earlier.environments@.len() as int)
            == earlier.environments@,
    ensures
        keeps_bindings(later, earlier),
{
    assert forall|i: int| 0 <= i < earlier.environments@.len() implies (
    #[trigger] later.environments@[i]) == earlier.environments@[i] by {
        assert(later.environments@.subrange(0, earlier.environments@.len() as int)[i]
            == later.environments@[i]);
    }
}

/// A binding in one environment keeps the bindings of all.
pub proof fn lemma_keeps_bound(
    later: &Heap,
    earlier: &Heap,
    env: usize,
    values: Map<Seq<char>, Object>,
)
    requires
        later.with_bindings(earlier, env, values),
        env < earlier.environments@.len(),
        forall|name: Seq<char>|
            earlier.environments@[env as int].values@.contains_key(name)
                ==> #[trigger] values.contains_key(name),
    ensures
        keeps_bindings(later, earlier),
{
    assert forall|i: int| 0 <= i < earlier.environments@.len() implies ({
        &&& (#[trigger] later.environments@[i]).enclosing == earlier.environments@[i].enclosing
        &&& forall|name: Seq<char>|
            earlier.environments@[i].values@.contains_key(name)
                ==> #[trigger] later.environments@[i].values@.contains_key(name)
    }) by {
        if i != env {
            assert(later.environments@[i] == earlier.environments@[i]);
        }
    }
}

/// Binding a name to a value for which the table is right adds nothing
/// else to the heap.
pub proof fn lemma_adds_binding(
    later: &Heap,
    earlier: &Heap,
    table: Seq<Option<usize>>,
    env: usize,
    name: Seq<char>,
    value: Object,
)
    requires
        env < earlier.environments@.len(),
        later.with_binding(earlier, env, name, value),
        object_right(later, table, value),
    ensures
        keeps_bindings(later, earlier),
        adds_right(later, earlier, table),
{
    lemma_keeps_bound(
        later,
        earlier,
        env,
        earlier.environments@[env as int].values@.insert(name, value),
    );
    assert forall|i: int, key: Seq<char>|
        0 <= i < later.environments@.len() && later.environments@[i].values@.contains_key(
            key,
        ) implies object_right(later, table, #[trigger] later.environments@[i].values@[key]) || (i
        < earlier.environments@.len() && earlier.environments@[i].values@.contains_key(key)
        && earlier.environments@[i].values@[key] == later.environments@[i].values@[key]) by {
        if i != env {
            assert(later.environments@[i] == earlier.environments@[i]);
        }
    }
}

/// The bindings of an environment after a name is bound in it cover its
/// shape with the name declared.
pub proof fn lemma_shape_declared(
    later: &Heap,
    earlier: &Heap,
    env: usize,
    name: Seq<char>,
    value: Object,
)
    requires
        earlier.wf(),
        env < earlier.environments@.len(),
        later.with_binding(earlier, env, name, value),
    ensures
        covers(shape_of(later, env), declare(shape_of(earlier, env), name)),
{
    lemma_keeps_bound(
        later,
        earlier,
        env,
        earlier.environments@[env as int].values@.insert(name, value),
    );
    lemma_shape_kept(later, earlier, env);
    let larger = shape_of(later, env);
    let smaller = shape_of(earlier, env);
    let declared = declare(smaller, name);
    if smaller.len() > 0 {
        earlier.lemma_environment(env as int);
        assert(later.environments@[env as int].values@.contains_key(name));
        assert(larger.last().contains(name));
        assert forall|i: int, x: Seq<char>|
            0 <= i < declared.len() && declared[i].contains(x) implies #[trigger] larger[i]
            .contains(x) by {
            if i == declared.len() - 1 && x == name {
            } else {
                assert(smaller[i].contains(x));
            }
        }
    }
}

/// One more environment whose values the table is right for adds nothing
/// else to the heap.
pub proof fn lemma_adds_environment(
    later: &Heap,
    earlier: &Heap,
    table: Seq<Option<usize>>,
    enclosing: Option<usize>,
    values: Map<Seq<char>, Object>,
)
    requires
        later.with_new_environment(earlier, enclosing, values),
        forall|name: Seq<char>|
            values.contains_key(name) ==> object_right(later, table, #[trigger] values[name]),
    ensures
        keeps_bindings(later, earlier),
        adds_right(later, earlier, table),
{
    let n = earlier.environments@.len() as int;
    assert(later.environments@.subrange(0, n) =~= later.environments@.drop_last());
    lemma_keeps_new(later, earlier);
    assert forall|i: int, key: Seq<char>|
        0 <= i < later.environments@.len() && later.environments@[i].values@.contains_key(
            key,
        ) implies object_right(later, table, #[trigger] later.environments@[i].values@[key]) || (i
        < earlier.environments@.len() && earlier.environments@[i].values@.contains_key(key)
        && earlier.environments@[i].values@[key] == later.environments@[i].values@[key]) by {
        if i < n {
            assert(later.environments@.drop_last()[i] == later.environments@[i]);
        } else {
            assert(later.environments@[i] == later.environments@.last());
        }
    }
}

/// The shape of a new environment is that of the one around it, with one
/// more link that binds what the new environment binds.
pub proof fn lemma_shape_new(
    later: &Heap,
    earlier: &Heap,
    enclosing: usize,
    values: Map<Seq<char>, Object>,
)
    requires
        enclosing < earlier.environments@.len(),
        later.with_new_environment(earlier, Some(enclosing), values),
    ensures
        covers(
            shape_of(later, earlier.environments@.len() as usize),
            shape_of(earlier, enclosing).push(values.dom()),
        ),
        shape_of(later, earlier.environments@.len() as usize) == shape_of(later, enclosing).push(
            values.dom(),
        ),
{
    let n = earlier.environments@.len() as int;
    assert(later.environments.len() == later.environments@.len());
    assert(later.environments@.subrange(0, n) =~= later.environments@.drop_last());
    lemma_keeps_new(later, earlier);
    lemma_shape_kept(later, earlier, enclosing);
    assert(later.environments@[n] == later.environments@.last());
    lemma_covers_push(
        shape_of(later, enclosing),
        shape_of(earlier, enclosing),
        values.dom(),
        values.dom(),
    );
}

/// A field set to a value for which the table is right adds nothing else
/// to the heap.
pub proof fn lemma_adds_field(
    later: &Heap,
    earlier: &Heap,
    table: Seq<Option<usize>>,
    instance: usize,
    name: Seq<char>,
    value: Object,
)
    requires
        instance < earlier.instances@.len(),
        later.with_field(earlier, instance, name, value),
        object_right(later, table, value),
    ensures
        keeps_bindings(later, earlier),
        adds_right(later, earlier, table),
{
    assert forall|i: int, key: Seq<char>|
        0 <= i < later.instances@.len() && later.instances@[i].fields@.contains_key(
            key,
        ) implies object_right(later, table, #[trigger] later.instances@[i].fields@[key]) || (i
        < earlier.instances@.len() && earlier.instances@[i].fields@.contains_key(key)
        && earlier.instances@[i].fields@[key] == later.instances@[i].fields@[key]) by {
        if i != instance {
            assert(later.instances@[i] == earlier.instances@[i]);
        }
    }
}

/// One more instance adds no value to the heap.
pub proof fn lemma_adds_instance(
    later: &Heap,
    earlier: &Heap,
    table: Seq<Option<usize>>,
    class: usize,
)
    requires
        later.with_new_instance(earlier, class),
    ensures
        keeps_bindings(later, earlier),
        adds_right(later, earlier, table),
{
    let n = earlier.instances@.len() as int;
    assert forall|i: int, key: Seq<char>|
        0 <= i < later.instances@.len() && later.instances@[i].fields@.contains_key(
            key,
        ) implies object_right(later, table, #[trigger] later.instances@[i].fields@[key]) || (i
        < earlier.instances@.len() && earlier.instances@[i].fields@.contains_key(key)
        && earlier.instances@[i].fields@[key] == later.instances@[i].fields@[key]) by {
        if i < n {
            assert(later.instances@.drop_last()[i] == later.instances@[i]);
        } else {
            assert(later.instances@[i] == later.instances@.last());
        }
    }
}

/// The environment that will be current when entries are done exists.
pub proof fn lemma_after_fits(heap: &Heap, frames: Seq<Frame>, environment: usize)
    requires
        all_fit(frames, heap),
        environment < heap.environments@.len(),
    ensures
        environment_after(frames, environment) < heap.environments@.len(),
    decreases frames.len(),
{
    if frames.len() > 0 {
        let below = match frames.last() {
            Frame::RestoreEnv(earlier) => earlier,
            Frame::CallReturn { previous, .. } => previous,
            _ => environment,
        };
        assert(frames.last().fits(heap));
        assert forall|i: int| 0 <= i < frames.drop_last().len() implies (
        #[trigger] frames.drop_last()[i]).fits(heap) by {
            assert(frames[i].fits(heap));
        }
        lemma_after_fits(heap, frames.drop_last(), below);
    }
}

/// The environment in which an entry of the stack will go on exists.
pub proof fn lemma_frame_env_fits(m: Machine, i: int)
    requires
        m.wf(),
        0 <= i < m.frames.len(),
    ensures
        frame_env(m, i) < m.heap.environments@.len(),
{
    let upper = above(m.frames, i + 1);
    assert forall|j: int| 0 <= j < upper.len() implies (#[trigger] upper[j]).fits(&m.heap) by {
        assert(m.frames[i + 1 + j].fits(&m.heap));
    }
    lemma_after_fits(&m.heap, upper, m.environment);
}

/// A step of a machine that goes on before it and after it: it neither
/// leaves the stack nor begins to.
#[verifier::opaque]
pub open spec fn went(pre: Machine, post: Machine, action: Action) -> bool {
    &&& stepped(pre, post, action)
    &&& pre.leaving is None
    &&& post.leaving is None
}

/// After a step, the shape in which an entry below the uppermost will go on
/// covers the one before, if the entry above it is the same.
pub proof fn lemma_shape_below(pre: Machine, post: Machine, action: Action, i: int)
    requires
        pre.wf(),
        went(pre, post, action),
        post.heap.ast == pre.heap.ast,
        keeps_bindings(&post.heap, &pre.heap),
        0 <= i,
        i + 1 < pre.frames.len(),
        i + 1 <= post.frames.len(),
        post.frames.subrange(0, i + 1) == pre.frames.subrange(0, i + 1),
    ensures
        frame_env(post, i) == frame_env(pre, i),
        covers(
            shape_of(&post.heap, frame_env(post, i)),
            shape_of(&pre.heap, frame_env(pre, i)),
        ),
        owed(post, i) == owed(pre, i) || owed(pre, i) is None ==> covers(
            frame_shape(post, i),
            frame_shape(pre, i),
        ),
{
    assert(frame_env(post, i) == frame_env(pre, i)) by {
        reveal(went);
        lemma_step_keeps_environment(pre, post, action, i + 1);
    }
    lemma_frame_env_fits(pre, i);
    lemma_shape_kept(&post.heap, &pre.heap, frame_env(pre, i));
    let larger = shape_of(&post.heap, frame_env(post, i));
    let smaller = shape_of(&pre.heap, frame_env(pre, i));
    if owed(post, i) == owed(pre, i) {
        match owed(pre, i) {
            Some(name) => {
                lemma_covers_declare(larger, smaller, name);
            },
            None => {},
        }
    } else if owed(pre, i) is None {
        match owed(post, i) {
            Some(name) => {
                lemma_covers_declare(larger, smaller, name);
            },
            None => {},
        }
    }
}

/// After a step, the table is still right for an entry of the stack that
/// the step has left in place, if the shape in which it goes on covers the
/// one before.
pub proof fn lemma_one_below(pre: Machine, post: Machine, i: int)
    requires
        pre.wf(),
        post.heap.ast == pre.heap.ast,
        post.locals == pre.locals,
        keeps_bindings(&post.heap, &pre.heap),
        0 <= i < pre.frames.len(),
        i < post.frames.len(),
        post.frames[i] == pre.frames[i],
        code_right(&pre.heap, pre.locals, pre.frames[i], frame_shape(pre, i)),
        covers(frame_shape(post, i), frame_shape(pre, i)),
    ensures
        code_right(&post.heap, post.locals, post.frames[i], frame_shape(post, i)),
{
    assert(pre.frames[i].fits(&pre.heap));
    lemma_code_right_kept(
        &post.heap,
        &pre.heap,
        pre.locals,
        pre.frames[i],
        frame_shape(post, i),
        frame_shape(pre, i),
    );
}

/// After a step, the shape in which an entry goes on that the step has
/// left in place, with the entry above it, covers the one before.
pub proof fn lemma_covers_below(pre: Machine, post: Machine, action: Action, kept: int, i: int)
    requires
        pre.wf(),
        went(pre, post, action),
        post.heap.ast == pre.heap.ast,
        keeps_bindings(&post.heap, &pre.heap),
        0 <= kept < pre.frames.len(),
        kept <= post.frames.len(),
        post.frames.subrange(0, kept) == pre.frames.subrange(0, kept),
        0 <= i < kept - 1,
    ensures
        covers(frame_shape(post, i), frame_shape(pre, i)),
{
    assert(post.frames.subrange(0, i + 1) =~= pre.frames.subrange(0, i + 1)) by {
        assert forall|j: int| 0 <= j < i + 1 implies post.frames[j] == pre.frames[j] by {
            assert(post.frames[j] == post.frames.subrange(0, kept)[j]);
            assert(pre.frames[j] == pre.frames.subrange(0, kept)[j]);
        }
    }
    assert(post.frames[i + 1] == post.frames.subrange(0, kept)[i + 1]);
    assert(pre.frames[i + 1] == pre.frames.subrange(0, kept)[i + 1]);
    lemma_shape_below(pre, post, action, i);
}

/// After a step, the table is still right for the entries of the stack
/// that the step has left in place, if the name that the entry below the
/// uppermost was owed is settled.
#[verifier::rlimit(60)]
pub proof fn lemma_below_right(pre: Machine, post: Machine, action: Action, kept: int)
    requires
        pre.wf(),
        forall|i: int|
            0 <= i < pre.frames.len() ==> code_right(
                &pre.heap,
                pre.locals,
                #[trigger] pre.frames[i],
                frame_shape(pre, i),
            ),
        went(pre, post, action),
        post.heap.ast == pre.heap.ast,
        post.locals == pre.locals,
        keeps_bindings(&post.heap, &pre.heap),
        0 <= kept < pre.frames.len(),
        kept <= post.frames.len(),
        post.frames.subrange(0, kept) == pre.frames.subrange(0, kept),
        kept >= 1 ==> covers(frame_shape(post, kept - 1), frame_shape(pre, kept - 1)),
    ensures
        forall|i: int|
            0 <= i < kept ==> code_right(
                &post.heap,
                post.locals,
                #[trigger] post.frames[i],
                frame_shape(post, i),
            ),
{
    assert forall|i: int| 0 <= i < kept implies code_right(
        &post.heap,
        post.locals,
        #[trigger] post.frames[i],
        frame_shape(post, i),
    ) by {
        assert(post.frames[i] == post.frames.subrange(0, kept)[i]);
        assert(pre.frames[i] == pre.frames.subrange(0, kept)[i]);
        if i < kept - 1 {
            lemma_covers_below(pre, post, action, kept, i);
        }
        lemma_one_below(pre, post, i);
    }
}

/// The shape of the current environment.
pub open spec fn here(m: Machine) -> Shape {
    shape_of(&m.heap, m.environment)
}

/// The uppermost entry of the stack goes on in the current environment.
pub proof fn lemma_top_shape(m: Machine)
    requires
        m.frames.len() > 0,
    ensures
        frame_shape(m, m.frames.len() - 1) == here(m),
{
    assert(above(m.frames, m.frames.len() as int) =~= Seq::<Frame>::empty());
}

/// The entry below the uppermost goes on in the current environment, with
/// the name that the uppermost owes, if the uppermost leaves the environment
/// as it is.
pub proof fn lemma_second_shape(m: Machine)
    requires
        m.frames.len() > 1,
        m.frames.last().keeps_environment(),
    ensures
        frame_shape(m, m.frames.len() - 2) == owing(here(m), owed(m, m.frames.len() - 2)),
{
    let n = m.frames.len() as int;
    let upper = above(m.frames, n - 1);
    reveal_with_fuel(environment_after, 3);
    assert(upper.len() == 1);
    assert(upper.drop_last() =~= Seq::<Frame>::empty());
    assert(upper.last() == m.frames.last());
    assert(frame_env(m, n - 2) == m.environment);
}

/// The entry two below the uppermost goes on in the current environment,
/// if the two above it leave the environment as it is.
pub proof fn lemma_third_shape(m: Machine)
    requires
        m.frames.len() > 2,
        m.frames.last().keeps_environment(),
        m.frames[m.frames.len() - 2].keeps_environment(),
    ensures
        frame_shape(m, m.frames.len() - 3) == owing(here(m), owed(m, m.frames.len() - 3)),
{
    let n = m.frames.len() as int;
    let upper = above(m.frames, n - 2);
    reveal_with_fuel(environment_after, 4);
    assert(upper.len() == 2);
    assert(upper.last() == m.frames.last());
    assert(upper.drop_last().last() == m.frames[n - 2]);
    assert(upper.drop_last().drop_last() =~= Seq::<Frame>::empty());
    assert(frame_env(m, n - 3) == m.environment);
}

/// After a step that has put entries in place of the uppermost one, the
/// table is right for the machine if it is right for what the step has
/// added: for the values in the heap, for the value under way, and for the
/// new entries; and if the name that the uppermost entry owed to the one
/// below it is settled.
pub proof fn lemma_assemble(pre: Machine, post: Machine, action: Action)
    requires
        pre.wf(),
        scoped(pre),
        went(pre, post, action),
        pre.frames.len() > 0,
        post.heap.ast == pre.heap.ast,
        post.locals == pre.locals,
        keeps_bindings(&post.heap, &pre.heap),
        adds_right(&post.heap, &pre.heap, pre.locals),
        post.value matches Some(value) ==> object_right(&post.heap, post.locals, value),
        post.frames.len() >= pre.frames.len() - 1,
        post.frames.subrange(0, pre.frames.len() - 1) == pre.frames.drop_last(),
        pre.frames.len() >= 2 && owed(pre, pre.frames.len() - 2) is Some ==> covers(
            frame_shape(post, pre.frames.len() - 2),
            frame_shape(pre, pre.frames.len() - 2),
        ),
        forall|i: int|
            pre.frames.len() - 1 <= i < post.frames.len() ==> code_right(
                &post.heap,
                post.locals,
                #[trigger] post.frames[i],
                frame_shape(post, i),
            ),
    ensures
        scoped(post),
{
    assert(pre.leaving is None && post.leaving is None) by {
        reveal(went);
    }
    reveal(scoped);
    let n = pre.frames.len() as int;
    lemma_heap_right_grown(&post.heap, &pre.heap, pre.locals);
    assert(pre.frames.drop_last() =~= pre.frames.subrange(0, n - 1));
    if n >= 2 && owed(pre, n - 2) is None {
        assert(post.frames.subrange(0, n - 1) =~= pre.frames.subrange(0, n - 1));
        lemma_shape_below(pre, post, action, n - 2);
    }
    lemma_below_right(pre, post, action, n - 1);
}

/// What every per-step proof starts from: a well-formed machine for which
/// the table is right, about to do what its uppermost entry stands for.
pub open spec fn about_to(pre: Machine, post: Machine, action: Action, top: Frame) -> bool {
    &&& pre.wf()
    &&& scoped(pre)
    &&& went(pre, post, action)
    &&& pre.leaving is None
    &&& post.leaving is None
    &&& pre.pending is None
    &&& pre.frames.len() > 0
    &&& pre.frames.last() == top
}

/// The table is right for what the uppermost entry has left to do, in the
/// shape of the current environment.
pub proof fn lemma_top_right(pre: Machine)
    requires
        pre.wf(),
        scoped(pre),
        pre.leaving is None,
        pre.frames.len() > 0,
    ensures
        code_right(&pre.heap, pre.locals, pre.frames.last(), here(pre)),
        pre.frames.last().fits(&pre.heap),
        pre.heap.ast.wf(),
        pre.value matches Some(value) ==> pre.heap.holds(value) && object_right(
            &pre.heap,
            pre.locals,
            value,
        ),
{
    reveal(scoped);
    let n = pre.frames.len() as int;
    lemma_top_shape(pre);
    assert(code_right(&pre.heap, pre.locals, pre.frames[n - 1], frame_shape(pre, n - 1)));
    assert(pre.frames[n - 1].fits(&pre.heap));
    pre.heap.lemma_ast();
}

/// A step that leaves the heap and the environment as they are and puts the
/// entries `suffix` in place of the uppermost one keeps the table right, if
/// the table is right for each new entry in the shape in which it goes on,
/// and if the new entries owe the entry below what the uppermost one owed.
#[verifier::rlimit(50)]
pub proof fn lemma_pushed(pre: Machine, post: Machine, action: Action, suffix: Seq<Frame>)
    requires
        pre.wf(),
        scoped(pre),
        went(pre, post, action),
        pre.frames.len() > 0,
        post.heap == pre.heap,
        post.locals == pre.locals,
        post.environment == pre.environment,
        post.frames == pre.frames.drop_last() + suffix,
        suffix.len() <= 3,
        forall|j: int| 0 <= j < suffix.len() ==> (#[trigger] suffix[j]).keeps_environment(),
        post.value matches Some(value) ==> object_right(&pre.heap, pre.locals, value),
        pre.frames.len() >= 2 && owed(pre, pre.frames.len() - 2) is Some ==> owed(
            post,
            pre.frames.len() - 2,
        ) == owed(pre, pre.frames.len() - 2),
        forall|j: int|
            0 <= j < suffix.len() ==> code_right(
                &pre.heap,
                pre.locals,
                #[trigger] suffix[j],
                owing(here(pre), owed(post, pre.frames.len() - 1 + j)),
            ),
    ensures
        scoped(post),
{
    let n = pre.frames.len() as int;
    let rest = pre.frames.drop_last();
    assert(post.frames.subrange(0, n - 1) =~= rest);
    assert(rest =~= pre.frames.subrange(0, n - 1));
    if n >= 2 && owed(pre, n - 2) is Some {
        lemma_shape_below(pre, post, action, n - 2);
    }
    assert forall|i: int| n - 1 <= i < post.frames.len() implies code_right(
        &post.heap,
        post.locals,
        #[trigger] post.frames[i],
        frame_shape(post, i),
    ) by {
        let j = i - (n - 1);
        assert(post.frames[i] == suffix[j]);
        let m = post.frames.len() as int;
        if i == m - 1 {
            lemma_top_shape(post);
        } else if i == m - 2 {
            assert(post.frames[m - 1] == suffix[j + 1]);
            lemma_second_shape(post);
        } else {
            assert(post.frames[m - 1] == suffix[j + 2]);
            assert(post.frames[m - 2] == suffix[j + 1]);
            lemma_third_shape(post);
        }
        assert(frame_shape(post, i) == owing(here(pre), owed(post, i)));
    }
    lemma_assemble(pre, post, action);
}

/// The table is right for what the parts of a statement have left to do,
/// if it is right for the statement.
pub proof fn lemma_stmt_parts(heap: &Heap, table: Seq<Option<usize>>, shape: Shape, stmt: usize)
    requires
        heap.ast.wf(),
        stmt < heap.ast.stmts@.len(),
        code_right(heap, table, Frame::Exec(stmt), shape),
    ensures
        match heap.ast.stmts@[stmt as int] {
            Stmt::Expression { expression } => code_right(
                heap,
                table,
                Frame::Eval(expression),
                shape,
            ),
            Stmt::Print { expression } => code_right(heap, table, Frame::Eval(expression), shape),
            Stmt::Var { name, initializer } => initializer matches Some(value) ==> code_right(
                heap,
                table,
                Frame::Eval(value),
                shape,
            ),
            Stmt::If { condition, then_branch, else_branch } => code_right(
                heap,
                table,
                Frame::Branch { then_branch, else_branch },
                shape,
            ) && code_right(heap, table, Frame::Eval(condition), shape),
            Stmt::While { condition, body } => code_right(
                heap,
                table,
                Frame::LoopTest { condition, body },
                shape,
            ) && code_right(heap, table, Frame::Eval(condition), shape),
            Stmt::Return { keyword, value } => value matches Some(expression) ==> code_right(
                heap,
                table,
                Frame::Eval(expression),
                shape,
            ),
            Stmt::Class { name, superclass, methods } => superclass matches Some(parent)
                ==> code_right(heap, table, Frame::Eval(parent), shape) && forall|token: usize|
                code_right(heap, table, Frame::ClassSuper { name, methods, token }, shape),
            _ => true,
        },
        code_right(heap, table, Frame::Discard, shape),
        code_right(heap, table, Frame::Print, shape),
        code_right(heap, table, Frame::Return, shape),
        forall|name: usize| code_right(heap, table, Frame::DefineVar(name), shape),
{
    reveal(code_right);
    heap.ast.lemma_stmt_fits(stmt as int);
}

/// A step that puts two entries in place of the uppermost one, the lower
/// of which owes what the uppermost one owed, and leaves all else as it is,
/// keeps the table right if it is right for the two.
pub proof fn lemma_pushed_pair(
    pre: Machine,
    post: Machine,
    action: Action,
    lower: Frame,
    upper: Frame,
)
    requires
        pre.wf(),
        scoped(pre),
        went(pre, post, action),
        pre.frames.len() > 0,
        post.heap == pre.heap,
        post.locals == pre.locals,
        post.environment == pre.environment,
        post.value is None,
        post.frames == pre.frames.drop_last().push(lower).push(upper),
        lower.keeps_environment(),
        upper.keeps_environment(),
        !(upper is Exec) && !(upper is DefineVar) && !(upper is ClassSuper),
        pre.frames.len() >= 2 ==> owed(pre, pre.frames.len() - 2) == match lower {
            Frame::Exec(stmt) => declared_by(&pre.heap.ast, stmt),
            Frame::DefineVar(name) => Some(pre.heap.ast.text(name)),
            Frame::ClassSuper { name, methods, token } => Some(pre.heap.ast.text(name)),
            _ => None,
        },
        code_right(&pre.heap, pre.locals, lower, here(pre)),
        code_right(&pre.heap, pre.locals, upper, here(pre)),
    ensures
        scoped(post),
{
    let n = pre.frames.len() as int;
    let suffix = seq![lower, upper];
    assert(post.frames =~= pre.frames.drop_last() + suffix);
    assert(post.frames[n - 1] == lower);
    assert(post.frames[n] == upper);
    lemma_pushed(pre, post, action, suffix);
}

/// Executing a statement that only puts entries on the stack keeps the
/// table right.
pub proof fn lemma_executed_pushing(pre: Machine, post: Machine, action: Action, stmt: usize)
    requires
        about_to(pre, post, action, Frame::Exec(stmt)),
        match pre.heap.ast.stmts@[stmt as int] {
            Stmt::Expression { expression } => post == pre.pop().push(Frame::Discard).push(
                Frame::Eval(expression),
            ),
            Stmt::Print { expression } => post == pre.pop().push(Frame::Print).push(
                Frame::Eval(expression),
            ),
            Stmt::Var { name, initializer } => initializer matches Some(value) && post
                == pre.pop().push(Frame::DefineVar(name)).push(Frame::Eval(value)),
            Stmt::If { condition, then_branch, else_branch } => post == pre.pop().push(
                Frame::Branch { then_branch, else_branch },
            ).push(Frame::Eval(condition)),
            Stmt::While { condition, body } => post == pre.pop().push(
                Frame::LoopTest { condition, body },
            ).push(Frame::Eval(condition)),
            Stmt::Return { keyword, value } => match value {
                Some(expression) => post == pre.pop().push(Frame::Return).push(
                    Frame::Eval(expression),
                ),
                None => post == pre.pop().push(Frame::Return).give(Object::Nil),
            },
            Stmt::Class { name, superclass, methods } => superclass matches Some(parent) && post
                == pre.pop().push(
                Frame::ClassSuper {
                    name,
                    methods,
                    token: crate::semantics::superclass_name(&pre.heap.ast, name, parent),
                },
            ).push(Frame::Eval(parent)),
            _ => false,
        },
    ensures
        scoped(post),
{
    lemma_top_right(pre);
    lemma_stmt_parts(&pre.heap, pre.locals, here(pre), stmt);
    let n = pre.frames.len() as int;
    match pre.heap.ast.stmts@[stmt as int] {
        Stmt::Expression { expression } => {
            lemma_pushed_pair(pre, post, action, Frame::Discard, Frame::Eval(expression));
        },
        Stmt::Print { expression } => {
            lemma_pushed_pair(pre, post, action, Frame::Print, Frame::Eval(expression));
        },
        Stmt::Var { name, initializer } => {
            lemma_pushed_pair(
                pre,
                post,
                action,
                Frame::DefineVar(name),
                Frame::Eval(initializer.unwrap()),
            );
        },
        Stmt::If { condition, then_branch, else_branch } => {
            lemma_pushed_pair(
                pre,
                post,
                action,
                Frame::Branch { then_branch, else_branch },
                Frame::Eval(condition),
            );
        },
        Stmt::While { condition, body } => {
            lemma_pushed_pair(
                pre,
                post,
                action,
                Frame::LoopTest { condition, body },
                Frame::Eval(condition),
            );
        },
        Stmt::Return { keyword, value } => {
            match value {
                Some(expression) => {
                    lemma_pushed_pair(pre, post, action, Frame::Return, Frame::Eval(expression));
                },
                None => {
                    let suffix = seq![Frame::Return];
                    assert(post.frames =~= pre.frames.drop_last() + suffix);
                    assert(post.frames[n - 1] == suffix[0]);
                    lemma_pushed(pre, post, action, suffix);
                },
            }
        },
        Stmt::Class { name, superclass, methods } => {
            let token = crate::semantics::superclass_name(
                &pre.heap.ast,
                name,
                superclass.unwrap(),
            );
            lemma_pushed_pair(
                pre,
                post,
                action,
                Frame::ClassSuper { name, methods, token },
                Frame::Eval(superclass.unwrap()),
            );
        },
        _ => {},
    }
}

/// A step that binds a name in the current environment, in which the entry
/// below the uppermost goes on, settles what that entry was owed.
pub proof fn lemma_settled(pre: Machine, post: Machine, name: Seq<char>, value: Object)
    requires
        pre.wf(),
        pre.frames.len() >= 2,
        pre.frames.last().keeps_environment(),
        owed(pre, pre.frames.len() - 2) == Some(name),
        post.frames == pre.frames.drop_last(),
        post.environment == pre.environment,
        post.heap.with_binding(&pre.heap, pre.environment, name, value),
    ensures
        covers(frame_shape(post, pre.frames.len() - 2), frame_shape(pre, pre.frames.len() - 2)),
{
    lemma_second_shape(pre);
    lemma_top_shape(post);
    lemma_shape_declared(&post.heap, &pre.heap, pre.environment, name, value);
}

/// Declaring a variable without an initializer keeps the table right.
pub proof fn lemma_declared_nil(pre: Machine, post: Machine, action: Action, stmt: usize)
    requires
        about_to(pre, post, action, Frame::Exec(stmt)),
        executed(pre.pop(), stmt, post, action),
        pre.heap.ast.stmts@[stmt as int] matches Stmt::Var { name, initializer } && initializer
            is None,
    ensures
        scoped(post),
{
    lemma_top_right(pre);
    let n = pre.frames.len() as int;
    let ast = &pre.heap.ast;
    ast.lemma_stmt_fits(stmt as int);
    if let Stmt::Var { name, initializer } = pre.heap.ast.stmts@[stmt as int] {
        let text = ast.text(name);
        lemma_adds_binding(&post.heap, &pre.heap, pre.locals, pre.environment, text, Object::Nil);
        assert(post.frames.subrange(0, n - 1) =~= pre.frames.drop_last());
        if n >= 2 {
            lemma_settled(pre, post, text, Object::Nil);
        }
        lemma_assemble(pre, post, action);
    }
}

/// Declaring a function keeps the table right.
pub proof fn lemma_declared_function(pre: Machine, post: Machine, action: Action, stmt: usize)
    requires
        about_to(pre, post, action, Frame::Exec(stmt)),
        executed(pre.pop(), stmt, post, action),
        pre.heap.ast.stmts@[stmt as int] is Function,
    ensures
        scoped(post),
{
    lemma_top_right(pre);
    reveal(code_right);
    let n = pre.frames.len() as int;
    let ast = &pre.heap.ast;
    ast.lemma_stmt_fits(stmt as int);
    if let Stmt::Function { name, params, body } = pre.heap.ast.stmts@[stmt as int] {
        let text = ast.text(name);
        let function = function_of(ast, name, params, body, pre.environment, false);
        let value = Object::Callable(function);
        lemma_shape_declared(&post.heap, &pre.heap, pre.environment, text, value);
        assert(right_stmt(ast, pre.locals, here(pre), stmt));
        lemma_right_function_covers(
            ast,
            pre.locals,
            shape_of(&post.heap, pre.environment),
            declare(here(pre), text),
            params,
            body,
        );
        assert(object_right(&post.heap, pre.locals, value));
        lemma_adds_binding(&post.heap, &pre.heap, pre.locals, pre.environment, text, value);
        assert(post.frames.subrange(0, n - 1) =~= pre.frames.drop_last());
        if n >= 2 {
            lemma_settled(pre, post, text, value);
        }
        lemma_assemble(pre, post, action);
    }
}

/// Entering a block keeps the table right.
pub proof fn lemma_entered_block(pre: Machine, post: Machine, action: Action, stmt: usize)
    requires
        about_to(pre, post, action, Frame::Exec(stmt)),
        executed(pre.pop(), stmt, post, action),
        pre.heap.ast.stmts@[stmt as int] is Block,
    ensures
        scoped(post),
{
    lemma_top_right(pre);
    reveal(code_right);
    let n = pre.frames.len() as int;
    let ast = &pre.heap.ast;
    ast.lemma_stmt_fits(stmt as int);
    if let Stmt::Block { statements } = pre.heap.ast.stmts@[stmt as int] {
        let nothing = Map::<Seq<char>, Object>::empty();
        lemma_adds_environment(&post.heap, &pre.heap, pre.locals, Some(pre.environment), nothing);
        lemma_shape_new(&post.heap, &pre.heap, pre.environment, nothing);
        assert(nothing.dom() =~= Set::<Seq<char>>::empty());
        assert(right_stmt(ast, pre.locals, here(pre), stmt));
        lemma_right_list_covers(
            ast,
            pre.locals,
            here(post),
            here(pre).push(Set::empty()),
            statements,
            0,
        );
        assert(post.frames.subrange(0, n - 1) =~= pre.frames.drop_last());
        assert(post.frames.len() == n + 1);
        lemma_top_shape(post);
        assert forall|i: int| n - 1 <= i < post.frames.len() implies code_right(
            &post.heap,
            post.locals,
            #[trigger] post.frames[i],
            frame_shape(post, i),
        ) by {
            if i == n {
                assert(post.frames[n] == (Frame::ExecList { span: statements, next: 0 }));
            } else {
                assert(post.frames[n - 1] == Frame::RestoreEnv(pre.environment));
            }
        }
        lemma_assemble(pre, post, action);
    }
}

/// A table that is right for a run of methods is right for each of them.
pub proof fn lemma_method_right(
    ast: &crate::ast::Ast,
    table: Seq<Option<usize>>,
    shape: Shape,
    span: crate::expr::Span,
    i: nat,
    j: nat,
)
    requires
        ast.wf(),
        span_below(ast.lists@, span, ast.stmts@.len() as int),
        right_methods(ast, table, shape, span, i),
        i <= j < span.len,
    ensures
        ast.stmts@[ast.lists@[span.start + j] as int] matches Stmt::Function { params, body, .. }
            ==> right_function(ast, table, shape, params, body),
    decreases j - i,
{
    if i < j {
        lemma_method_right(ast, table, shape, span, i + 1, j);
    }
}

/// Every method of a method table is made from one of the declarations.
pub proof fn lemma_method_table(
    ast: &crate::ast::Ast,
    span: crate::expr::Span,
    closure: usize,
    upto: nat,
    key: Seq<char>,
)
    requires
        method_table(ast, span, closure, upto).contains_key(key),
    ensures
        exists|j: nat|
            j < upto && (#[trigger] ast.stmts@[ast.lists@[span.start + j] as int] matches Stmt::Function {
                name,
                params,
                body,
            } && method_table(ast, span, closure, upto)[key] == function_of(
                ast,
                name,
                params,
                body,
                closure,
                ast.text(name) == "init"@,
            )),
    decreases upto,
{
    if upto > 0 {
        let earlier = method_table(ast, span, closure, (upto - 1) as nat);
        let last = (upto - 1) as nat;
        match ast.stmts@[ast.lists@[span.start + upto - 1] as int] {
            Stmt::Function { name, params, body } => {
                if key == ast.text(name) {
                    assert(ast.stmts@[ast.lists@[span.start + last] as int] is Function);
                } else {
                    lemma_method_table(ast, span, closure, last, key);
                    let j = choose|j: nat|
                        j < last && (
                        #[trigger] ast.stmts@[ast.lists@[span.start + j] as int] matches Stmt::Function {
                            name,
                            params,
                            body,
                        } && earlier[key] == function_of(
                            ast,
                            name,
                            params,
                            body,
                            closure,
                            ast.text(name) == "init"@,
                        ));
                    assert(j < upto);
                }
            },
            _ => {
                lemma_method_table(ast, span, closure, last, key);
                let j = choose|j: nat|
                    j < last && (
                    #[trigger] ast.stmts@[ast.lists@[span.start + j] as int] matches Stmt::Function {
                        name,
                        params,
                        body,
                    } && earlier[key] == function_of(
                        ast,
                        name,
                        params,
                        body,
                        closure,
                        ast.text(name) == "init"@,
                    ));
                assert(j < upto);
            },
        }
    }
}

/// Declaring a class adds to the heap only values for which the table is
/// right, if it is right for the methods; and it binds the name of the
/// class in the current environment.
pub proof fn lemma_class_declared(
    earlier: &Heap,
    later: &Heap,
    table: Seq<Option<usize>>,
    environment: usize,
    name: usize,
    superclass: Option<usize>,
    methods: crate::expr::Span,
)
    requires
        earlier.wf(),
        environment < earlier.environments@.len(),
        span_below(earlier.ast.lists@, methods, earlier.ast.stmts@.len() as int),
        class_declared(earlier, environment, name, superclass, methods, later),
        right_methods(
            &earlier.ast,
            table,
            method_shape(
                declare(shape_of(earlier, environment), earlier.ast.text(name)),
                superclass is Some,
            ),
            methods,
            0,
        ),
    ensures
        keeps_bindings(later, earlier),
        adds_right(later, earlier, table),
        covers(
            shape_of(later, environment),
            declare(shape_of(earlier, environment), earlier.ast.text(name)),
        ),
{
    earlier.lemma_ast();
    let ast = &earlier.ast;
    let text = ast.text(name);
    let n = earlier.environments@.len() as int;
    let class = earlier.classes@.len() as usize;
    assert(later.environments.len() == later.environments@.len());
    let closure = if superclass is Some {
        n as usize
    } else {
        environment
    };
    // the environments
    assert forall|i: int| 0 <= i < n implies ({
        &&& (#[trigger] later.environments@[i]).enclosing == earlier.environments@[i].enclosing
        &&& forall|x: Seq<char>|
            earlier.environments@[i].values@.contains_key(x)
                ==> #[trigger] later.environments@[i].values@.contains_key(x)
    }) by {
        if i != environment {
            assert(later.environments@[i] == earlier.environments@[i]);
        }
    }
    lemma_shape_kept(later, earlier, environment);
    let smaller = shape_of(earlier, environment);
    let larger = shape_of(later, environment);
    let declared = declare(smaller, text);
    if smaller.len() > 0 {
        earlier.lemma_environment(environment as int);
        assert(later.environments@[environment as int].values@.contains_key(text));
        assert(larger.last().contains(text));
        assert forall|i: int, x: Seq<char>|
            0 <= i < declared.len() && declared[i].contains(x) implies #[trigger] larger[i]
            .contains(x) by {
            if i == declared.len() - 1 && x == text {
            } else {
                assert(smaller[i].contains(x));
            }
        }
    }
    // the shape in which the methods are closed
    let inside = shape_of(later, closure).push(set!["this"@]);
    let wanted = method_shape(declared, superclass is Some);
    match superclass {
        Some(parent) => {
            assert(later.environments@[n] == later.environments@.last());
            let bound = later.environments@.last().values@.dom();
            assert(bound.contains("super"@));
            assert(shape_of(later, closure) == larger.push(bound));
            lemma_covers_push(larger, declared, bound, set!["super"@]);
            lemma_covers_push(
                larger.push(bound),
                declared.push(set!["super"@]),
                set!["this"@],
                set!["this"@],
            );
        },
        None => {
            lemma_covers_push(larger, declared, set!["this"@], set!["this"@]);
        },
    }
    lemma_right_methods_covers(ast, table, inside, wanted, methods, 0);
    // the values
    assert forall|i: int, key: Seq<char>|
        0 <= i < later.environments@.len() && later.environments@[i].values@.contains_key(
            key,
        ) implies object_right(later, table, #[trigger] later.environments@[i].values@[key]) || (i
        < earlier.environments@.len() && earlier.environments@[i].values@.contains_key(key)
        && earlier.environments@[i].values@[key] == later.environments@[i].values@[key]) by {
        if i < n && i != environment {
            assert(later.environments@[i] == earlier.environments@[i]);
        } else if i >= n {
            assert(later.environments@[i] == later.environments@.last());
        }
    }
    assert forall|i: int, key: Seq<char>|
        0 <= i < later.classes@.len() && later.classes@[i].methods@.contains_key(
            key,
        ) implies callable_right(later, table, #[trigger] later.classes@[i].methods@[key], true)
        || (i < earlier.classes@.len() && earlier.classes@[i].methods@.contains_key(key)
        && earlier.classes@[i].methods@[key] == later.classes@[i].methods@[key]) by {
        if i < earlier.classes@.len() {
            assert(later.classes@.drop_last()[i] == later.classes@[i]);
        } else {
            assert(later.classes@[i] == later.classes@.last());
            lemma_method_table(ast, methods, closure, methods.len as nat, key);
            let j = choose|j: nat|
                j < methods.len && (
                #[trigger] ast.stmts@[ast.lists@[methods.start + j] as int] matches Stmt::Function {
                    name,
                    params,
                    body,
                } && method_table(ast, methods, closure, methods.len as nat)[key] == function_of(
                    ast,
                    name,
                    params,
                    body,
                    closure,
                    ast.text(name) == "init"@,
                ));
            lemma_method_right(ast, table, inside, methods, 0, j);
        }
    }
}

/// Declaring a class without a superclass keeps the table right.
pub proof fn lemma_declared_class(pre: Machine, post: Machine, action: Action, stmt: usize)
    requires
        about_to(pre, post, action, Frame::Exec(stmt)),
        executed(pre.pop(), stmt, post, action),
        pre.heap.ast.stmts@[stmt as int] matches Stmt::Class { superclass, .. } && superclass
            is None,
    ensures
        scoped(post),
{
    lemma_top_right(pre);
    reveal(code_right);
    let n = pre.frames.len() as int;
    let ast = &pre.heap.ast;
    ast.lemma_stmt_fits(stmt as int);
    if let Stmt::Class { name, superclass, methods } = pre.heap.ast.stmts@[stmt as int] {
        assert(right_stmt(ast, pre.locals, here(pre), stmt));
        lemma_class_declared(
            &pre.heap,
            &post.heap,
            pre.locals,
            pre.environment,
            name,
            None,
            methods,
        );
        assert(post.frames.subrange(0, n - 1) =~= pre.frames.drop_last());
        if n >= 2 {
            lemma_second_shape(pre);
            lemma_top_shape(post);
        }
        lemma_assemble(pre, post, action);
    }
}

/// Defining a variable keeps the table right.
pub proof fn lemma_defined(pre: Machine, post: Machine, action: Action, name: usize)
    requires
        about_to(pre, post, action, Frame::DefineVar(name)),
        variable_defined(pre.pop(), name, post, action),
    ensures
        scoped(post),
{
    lemma_top_right(pre);
    let n = pre.frames.len() as int;
    let text = pre.heap.ast.text(name);
    let value = pre.value.unwrap();
    lemma_keeps_bound(
        &post.heap,
        &pre.heap,
        pre.environment,
        pre.heap.environments@[pre.environment as int].values@.insert(text, value),
    );
    lemma_object_right_kept(&post.heap, &pre.heap, pre.locals, value);
    lemma_adds_binding(&post.heap, &pre.heap, pre.locals, pre.environment, text, value);
    assert(post.frames.subrange(0, n - 1) =~= pre.frames.drop_last());
    if n >= 2 {
        lemma_settled(pre, post, text, value);
    }
    lemma_assemble(pre, post, action);
}

/// Declaring a class with a superclass keeps the table right.
pub proof fn lemma_declared_subclass(
    pre: Machine,
    post: Machine,
    action: Action,
    name: usize,
    methods: crate::expr::Span,
    token: usize,
)
    requires
        about_to(pre, post, action, Frame::ClassSuper { name, methods, token }),
        superclass_given(pre.pop(), name, methods, token, post, action),
    ensures
        scoped(post),
{
    lemma_top_right(pre);
    reveal(code_right);
    let n = pre.frames.len() as int;
    if let Some(Object::Class(parent)) = pre.value {
        lemma_class_declared(
            &pre.heap,
            &post.heap,
            pre.locals,
            pre.environment,
            name,
            Some(parent),
            methods,
        );
        assert(post.frames.subrange(0, n - 1) =~= pre.frames.drop_last());
        if n >= 2 {
            lemma_second_shape(pre);
            lemma_top_shape(post);
        }
        lemma_assemble(pre, post, action);
    }
}

/// A table that is right for what an entry has left to do is right for it
/// when one more name is bound.
pub proof fn lemma_code_right_owing(
    heap: &Heap,
    table: Seq<Option<usize>>,
    frame: Frame,
    shape: Shape,
    owed: Option<Seq<char>>,
)
    requires
        heap.wf(),
        frame.fits(heap),
        code_right(heap, table, frame, shape),
    ensures
        code_right(heap, table, frame, owing(shape, owed)),
{
    lemma_covers_itself(shape);
    match owed {
        Some(name) => {
            lemma_covers_declare(shape, shape, name);
        },
        None => {},
    }
    assert(keeps_bindings(heap, heap));
    lemma_code_right_kept(heap, heap, table, frame, owing(shape, owed), shape);
}

/// Going on in a list of statements keeps the table right.
pub proof fn lemma_listed(
    pre: Machine,
    post: Machine,
    action: Action,
    span: crate::expr::Span,
    next: usize,
)
    requires
        about_to(pre, post, action, Frame::ExecList { span, next }),
        listed(pre.pop(), span, next, post, action),
    ensures
        scoped(post),
{
    lemma_top_right(pre);
    reveal(code_right);
    let n = pre.frames.len() as int;
    let rest = pre.frames.drop_last();
    let ast = &pre.heap.ast;
    assert(right_list(ast, pre.locals, here(pre), span, next as nat));
    if next < span.len {
        let stmt = ast.lists@[span.start + next];
        let suffix = seq![Frame::ExecList { span, next: (next + 1) as usize }, Frame::Exec(stmt)];
        assert(post.frames =~= rest + suffix);
        assert(post.frames[n] == suffix[1]);
        assert(post.frames[n - 1] == suffix[0]);
        lemma_pushed(pre, post, action, suffix);
    } else {
        let suffix = Seq::<Frame>::empty();
        assert(post.frames =~= rest + suffix);
        lemma_pushed(pre, post, action, suffix);
    }
}

/// Dropping a value keeps the table right.
pub proof fn lemma_discarded(pre: Machine, post: Machine, action: Action)
    requires
        about_to(pre, post, action, Frame::Discard),
        discarded(pre.pop(), post, action),
    ensures
        scoped(post),
{
    let suffix = Seq::<Frame>::empty();
    assert(post.frames =~= pre.frames.drop_last() + suffix);
    lemma_pushed(pre, post, action, suffix);
}

/// Printing a value keeps the table right.
pub proof fn lemma_printed(pre: Machine, post: Machine, action: Action)
    requires
        about_to(pre, post, action, Frame::Print),
        printed(pre.pop(), post, action),
    ensures
        scoped(post),
{
    reveal(code_right);
    let n = pre.frames.len() as int;
    if pre.value matches Some(Object::Number(number)) {
        let suffix = seq![Frame::Print];
        assert(post.frames =~= pre.frames.drop_last() + suffix);
        assert(post.frames[n - 1] == suffix[0]);
        lemma_pushed(pre, post, action, suffix);
    } else {
        let suffix = Seq::<Frame>::empty();
        assert(post.frames =~= pre.frames.drop_last() + suffix);
        lemma_pushed(pre, post, action, suffix);
    }
}

/// Taking a branch keeps the table right.
pub proof fn lemma_branched(
    pre: Machine,
    post: Machine,
    action: Action,
    then_branch: usize,
    else_branch: Option<usize>,
)
    requires
        about_to(pre, post, action, Frame::Branch { then_branch, else_branch }),
        branched(pre.pop(), then_branch, else_branch, post, action),
    ensures
        scoped(post),
{
    lemma_top_right(pre);
    reveal(code_right);
    let n = pre.frames.len() as int;
    let rest = pre.frames.drop_last();
    if post.frames.len() == n {
        let suffix = seq![post.frames[n - 1]];
        assert(post.frames =~= rest + suffix);
        lemma_pushed(pre, post, action, suffix);
    } else {
        let suffix = Seq::<Frame>::empty();
        assert(post.frames =~= rest + suffix);
        lemma_pushed(pre, post, action, suffix);
    }
}

/// Testing a loop keeps the table right.
pub proof fn lemma_loop_tested(
    pre: Machine,
    post: Machine,
    action: Action,
    condition: usize,
    body: usize,
)
    requires
        about_to(pre, post, action, Frame::LoopTest { condition, body }),
        loop_tested(pre.pop(), condition, body, post, action),
    ensures
        scoped(post),
{
    lemma_top_right(pre);
    let n = pre.frames.len() as int;
    let rest = pre.frames.drop_last();
    if pre.value.unwrap().truthy() {
        let suffix = seq![
            Frame::LoopTest { condition, body },
            Frame::Eval(condition),
            Frame::Exec(body),
        ];
        assert(post.frames =~= rest + suffix);
        assert(post.frames[n - 1] == suffix[0]);
        assert(post.frames[n] == suffix[1]);
        assert(post.frames[n + 1] == suffix[2]);
        assert(code_right(&pre.heap, pre.locals, suffix[0], here(pre)));
        assert(code_right(&pre.heap, pre.locals, suffix[1], here(pre))) by {
            reveal(code_right);
        }
        assert(code_right(&pre.heap, pre.locals, suffix[2], here(pre))) by {
            reveal(code_right);
        }
        assert(suffix[1].fits(&pre.heap) && suffix[2].fits(&pre.heap));
        assert forall|j: int| 0 <= j < suffix.len() implies code_right(
            &pre.heap,
            pre.locals,
            #[trigger] suffix[j],
            owing(here(pre), owed(post, n - 1 + j)),
        ) by {
            lemma_code_right_owing(
                &pre.heap,
                pre.locals,
                suffix[j],
                here(pre),
                owed(post, n - 1 + j),
            );
        }
        lemma_pushed(pre, post, action, suffix);
    } else {
        let suffix = Seq::<Frame>::empty();
        assert(post.frames =~= rest + suffix);
        lemma_pushed(pre, post, action, suffix);
    }
}

/// Applying a unary operator keeps the table right.
pub proof fn lemma_unary_applied(pre: Machine, post: Machine, action: Action, operator: usize)
    requires
        about_to(pre, post, action, Frame::Unary(operator)),
        unary_applied(pre.pop(), operator, post, action),
    ensures
        scoped(post),
{
    let suffix = Seq::<Frame>::empty();
    assert(post.frames =~= pre.frames.drop_last() + suffix);
    lemma_pushed(pre, post, action, suffix);
}

/// Keeping the left operand keeps the table right.
pub proof fn lemma_left_given(
    pre: Machine,
    post: Machine,
    action: Action,
    operator: usize,
    right: usize,
)
    requires
        about_to(pre, post, action, Frame::BinaryRight { operator, right }),
        left_given(pre.pop(), operator, right, post, action),
    ensures
        scoped(post),
{
    lemma_top_right(pre);
    reveal(code_right);
    let n = pre.frames.len() as int;
    let suffix = seq![
        Frame::BinaryApply { operator, left: pre.value.unwrap() },
        Frame::Eval(right),
    ];
    assert(post.frames =~= pre.frames.drop_last() + suffix);
    assert(post.frames[n - 1] == suffix[0]);
    assert(post.frames[n] == suffix[1]);
    lemma_pushed(pre, post, action, suffix);
}

/// Applying a binary operator keeps the table right.
pub proof fn lemma_binary_applied(
    pre: Machine,
    post: Machine,
    action: Action,
    operator: usize,
    left: Object,
)
    requires
        about_to(pre, post, action, Frame::BinaryApply { operator, left }),
        binary_applied(pre.pop(), operator, left, post, action),
    ensures
        scoped(post),
{
    let suffix = Seq::<Frame>::empty();
    assert(post.frames =~= pre.frames.drop_last() + suffix);
    lemma_pushed(pre, post, action, suffix);
}

/// Deciding `and` or `or` keeps the table right.
pub proof fn lemma_logical_decided(
    pre: Machine,
    post: Machine,
    action: Action,
    operator: usize,
    right: usize,
)
    requires
        about_to(pre, post, action, Frame::LogicalRhs { operator, right }),
        logical_decided(pre.pop(), operator, right, post, action),
    ensures
        scoped(post),
{
    lemma_top_right(pre);
    reveal(code_right);
    let n = pre.frames.len() as int;
    if post.frames.len() == n {
        let suffix = seq![Frame::Eval(right)];
        assert(post.frames =~= pre.frames.drop_last() + suffix);
        assert(post.frames[n - 1] == suffix[0]);
        lemma_pushed(pre, post, action, suffix);
    } else {
        let suffix = Seq::<Frame>::empty();
        assert(post.frames =~= pre.frames.drop_last() + suffix);
        lemma_pushed(pre, post, action, suffix);
    }
}

/// Checking the object of a store keeps the table right.
pub proof fn lemma_store_checked(
    pre: Machine,
    post: Machine,
    action: Action,
    name: usize,
    value: usize,
)
    requires
        about_to(pre, post, action, Frame::SetCheck { name, value }),
        store_checked(pre.pop(), name, value, post, action),
    ensures
        scoped(post),
{
    lemma_top_right(pre);
    reveal(code_right);
    let n = pre.frames.len() as int;
    if let Some(Object::Instance(instance)) = pre.value {
        let suffix = seq![Frame::SetProp { instance, name }, Frame::Eval(value)];
        assert(post.frames =~= pre.frames.drop_last() + suffix);
        assert(post.frames[n - 1] == suffix[0]);
        assert(post.frames[n] == suffix[1]);
        lemma_pushed(pre, post, action, suffix);
    }
}

/// A value that an environment binds is one for which the table is right.
pub proof fn lemma_bound_right(m: Machine, env: usize, name: Seq<char>)
    requires
        scoped(m),
        env < m.heap.environments@.len(),
        m.heap.environments@[env as int].values@.contains_key(name),
    ensures
        object_right(&m.heap, m.locals, m.heap.bound(env, name)),
{
    reveal(scoped);
    reveal(heap_right);
}

/// What is found at a depth is a value for which the table is right.
pub proof fn lemma_found_right(m: Machine, env: usize, distance: nat, name: Seq<char>)
    requires
        scoped(m),
        m.heap.found_at(env, distance, name) is Some,
    ensures
        object_right(&m.heap, m.locals, m.heap.found_at(env, distance, name).unwrap()),
        object_right(&m.heap, m.locals, m.heap.at(env, distance, name)),
{
    lemma_ancestor_fits(&m.heap, env, distance);
    let found = m.heap.ancestor(env, distance).unwrap();
    lemma_bound_right(m, found, name);
}

/// The environment some links out exists.
pub proof fn lemma_ancestor_fits(heap: &Heap, env: usize, distance: nat)
    ensures
        heap.ancestor(env, distance) matches Some(found) ==> found < heap.environments@.len(),
    decreases distance,
{
    if env < heap.environments@.len() && distance > 0 {
        if let Some(parent) = heap.environments@[env as int].enclosing {
            lemma_ancestor_fits(heap, parent, (distance - 1) as nat);
        }
    }
}

/// The environment that binds a name on a chain exists and binds it.
pub proof fn lemma_binder_fits(heap: &Heap, env: usize, name: Seq<char>)
    ensures
        heap.binder(env, name) matches Some(found) ==> found < heap.environments@.len()
            && heap.environments@[found as int].values@.contains_key(name),
    decreases env,
{
    if env < heap.environments@.len() && !heap.environments@[env as int].values@.contains_key(
        name,
    ) {
        if let Some(parent) = heap.environments@[env as int].enclosing {
            if parent < env {
                lemma_binder_fits(heap, parent, name);
            }
        }
    }
}

/// Reading a variable keeps the table right.
pub proof fn lemma_looked_up(pre: Machine, post: Machine, action: Action, expr: usize, name: usize)
    requires
        about_to(pre, post, action, Frame::Eval(expr)),
        looked_up(pre.pop(), expr, name, post, action),
    ensures
        scoped(post),
{
    let text = pre.heap.ast.text(name);
    match pre.depth(expr) {
        Some(distance) => {
            if pre.heap.found_at(pre.environment, distance as nat, text) is Some {
                lemma_found_right(pre, pre.environment, distance as nat, text);
            }
        },
        None => {
            lemma_binder_fits(&pre.heap, pre.globals, text);
            if let Some(b) = pre.heap.binder(pre.globals, text) {
                lemma_bound_right(pre, b, text);
            }
        },
    }
    let suffix = Seq::<Frame>::empty();
    assert(post.frames =~= pre.frames.drop_last() + suffix);
    lemma_pushed(pre, post, action, suffix);
}

/// The table is right for what the parts of an expression have left to
/// do, if it is right for the expression.
pub proof fn lemma_expr_parts(heap: &Heap, table: Seq<Option<usize>>, shape: Shape, expr: usize)
    requires
        heap.ast.wf(),
        expr < heap.ast.exprs@.len(),
        code_right(heap, table, Frame::Eval(expr), shape),
    ensures
        match heap.ast.exprs@[expr as int] {
            Expr::Grouping { expression } => code_right(heap, table, Frame::Eval(expression), shape),
            Expr::Unary { operator, right } => code_right(heap, table, Frame::Unary(operator), shape)
                && code_right(heap, table, Frame::Eval(right), shape),
            Expr::Binary { left, operator, right } => code_right(
                heap,
                table,
                Frame::BinaryRight { operator, right },
                shape,
            ) && code_right(heap, table, Frame::Eval(left), shape),
            Expr::Logical { left, operator, right } => code_right(
                heap,
                table,
                Frame::LogicalRhs { operator, right },
                shape,
            ) && code_right(heap, table, Frame::Eval(left), shape),
            Expr::Assign { name, value } => code_right(
                heap,
                table,
                Frame::Assign { expr, name },
                shape,
            ) && code_right(heap, table, Frame::Eval(value), shape),
            Expr::Call { callee, paren, arguments } => code_right(
                heap,
                table,
                Frame::CallCheck { paren, arguments },
                shape,
            ) && code_right(heap, table, Frame::Eval(callee), shape),
            Expr::Get { object, name } => code_right(heap, table, Frame::GetProp(name), shape)
                && code_right(heap, table, Frame::Eval(object), shape),
            Expr::SetProperty { object, name, value } => code_right(
                heap,
                table,
                Frame::SetCheck { name, value },
                shape,
            ) && code_right(heap, table, Frame::Eval(object), shape),
            _ => true,
        },
{
    reveal(code_right);
    heap.ast.lemma_expr_fits(expr as int);
}

/// A step that puts two entries that hold no declaration in place of the
/// uppermost one, and leaves all else as it is, keeps the table right if it
/// is right for the two.
pub proof fn lemma_pushed_two(
    pre: Machine,
    post: Machine,
    action: Action,
    lower: Frame,
    upper: Frame,
)
    requires
        pre.wf(),
        scoped(pre),
        went(pre, post, action),
        pre.frames.len() > 0,
        post.heap == pre.heap,
        post.locals == pre.locals,
        post.environment == pre.environment,
        post.value is None,
        post.frames == pre.frames.drop_last().push(lower).push(upper),
        lower.keeps_environment(),
        upper.keeps_environment(),
        !(lower is Exec) && !(lower is DefineVar) && !(lower is ClassSuper),
        !(upper is Exec) && !(upper is DefineVar) && !(upper is ClassSuper),
        pre.frames.len() >= 2 ==> owed(pre, pre.frames.len() - 2) is None,
        code_right(&pre.heap, pre.locals, lower, here(pre)),
        code_right(&pre.heap, pre.locals, upper, here(pre)),
    ensures
        scoped(post),
{
    let n = pre.frames.len() as int;
    let suffix = seq![lower, upper];
    assert(post.frames =~= pre.frames.drop_last() + suffix);
    assert(post.frames[n - 1] == lower);
    assert(post.frames[n] == upper);
    lemma_pushed(pre, post, action, suffix);
}

/// A step that puts one entry that holds no declaration in place of the
/// uppermost one, and leaves all else as it is, keeps the table right if it
/// is right for the entry.
pub proof fn lemma_pushed_one(pre: Machine, post: Machine, action: Action, entry: Frame)
    requires
        pre.wf(),
        scoped(pre),
        went(pre, post, action),
        pre.frames.len() > 0,
        post.heap == pre.heap,
        post.locals == pre.locals,
        post.environment == pre.environment,
        post.value is None,
        post.frames == pre.frames.drop_last().push(entry),
        entry.keeps_environment(),
        !(entry is Exec) && !(entry is DefineVar) && !(entry is ClassSuper),
        pre.frames.len() >= 2 ==> owed(pre, pre.frames.len() - 2) is None,
        code_right(&pre.heap, pre.locals, entry, here(pre)),
    ensures
        scoped(post),
{
    let n = pre.frames.len() as int;
    let suffix = seq![entry];
    assert(post.frames =~= pre.frames.drop_last() + suffix);
    assert(post.frames[n - 1] == entry);
    lemma_pushed(pre, post, action, suffix);
}

/// A step that takes the uppermost entry off the stack and leaves a value
/// for which the table is right, or none, keeps the table right, if the
/// entry held no declaration.
pub proof fn lemma_popped(pre: Machine, post: Machine, action: Action)
    requires
        pre.wf(),
        scoped(pre),
        went(pre, post, action),
        pre.frames.len() > 0,
        post.heap == pre.heap,
        post.locals == pre.locals,
        post.environment == pre.environment,
        post.value matches Some(value) ==> object_right(&pre.heap, pre.locals, value),
        post.frames == pre.frames.drop_last(),
        pre.frames.len() >= 2 ==> owed(pre, pre.frames.len() - 2) is None,
    ensures
        scoped(post),
{
    let suffix = Seq::<Frame>::empty();
    assert(post.frames =~= pre.frames.drop_last() + suffix);
    lemma_pushed(pre, post, action, suffix);
}

/// Evaluating an expression that only puts entries on the stack, or gives
/// a literal, keeps the table right.
pub proof fn lemma_evaluated_pushing(pre: Machine, post: Machine, action: Action, expr: usize)
    requires
        about_to(pre, post, action, Frame::Eval(expr)),
        match pre.heap.ast.exprs@[expr as int] {
            Expr::Literal { value } => constant_given(pre.pop(), value, post, action),
            Expr::Grouping { expression } => post == pre.pop().push(Frame::Eval(expression)),
            Expr::Unary { operator, right } => post == pre.pop().push(Frame::Unary(operator)).push(
                Frame::Eval(right),
            ),
            Expr::Binary { left, operator, right } => post == pre.pop().push(
                Frame::BinaryRight { operator, right },
            ).push(Frame::Eval(left)),
            Expr::Logical { left, operator, right } => post == pre.pop().push(
                Frame::LogicalRhs { operator, right },
            ).push(Frame::Eval(left)),
            Expr::Assign { name, value } => post == pre.pop().push(
                Frame::Assign { expr, name },
            ).push(Frame::Eval(value)),
            Expr::Call { callee, paren, arguments } => post == pre.pop().push(
                Frame::CallCheck { paren, arguments },
            ).push(Frame::Eval(callee)),
            Expr::Get { object, name } => post == pre.pop().push(Frame::GetProp(name)).push(
                Frame::Eval(object),
            ),
            Expr::SetProperty { object, name, value } => post == pre.pop().push(
                Frame::SetCheck { name, value },
            ).push(Frame::Eval(object)),
            _ => false,
        },
    ensures
        scoped(post),
{
    lemma_top_right(pre);
    lemma_expr_parts(&pre.heap, pre.locals, here(pre), expr);
    let n = pre.frames.len() as int;
    assert(pre.frames[n - 1].fits(&pre.heap));
    if n >= 2 {
        assert(owed(pre, n - 2) is None);
    }
    match pre.heap.ast.exprs@[expr as int] {
        Expr::Literal { value } => {
            lemma_popped(pre, post, action);
        },
        Expr::Grouping { expression } => {
            lemma_pushed_one(pre, post, action, Frame::Eval(expression));
        },
        Expr::Unary { operator, right } => {
            lemma_pushed_two(pre, post, action, Frame::Unary(operator), Frame::Eval(right));
        },
        Expr::Binary { left, operator, right } => {
            lemma_pushed_two(
                pre,
                post,
                action,
                Frame::BinaryRight { operator, right },
                Frame::Eval(left),
            );
        },
        Expr::Logical { left, operator, right } => {
            lemma_pushed_two(
                pre,
                post,
                action,
                Frame::LogicalRhs { operator, right },
                Frame::Eval(left),
            );
        },
        Expr::Assign { name, value } => {
            lemma_pushed_two(pre, post, action, Frame::Assign { expr, name }, Frame::Eval(value));
        },
        Expr::Call { callee, paren, arguments } => {
            lemma_pushed_two(
                pre,
                post,
                action,
                Frame::CallCheck { paren, arguments },
                Frame::Eval(callee),
            );
        },
        Expr::Get { object, name } => {
            lemma_pushed_two(pre, post, action, Frame::GetProp(name), Frame::Eval(object));
        },
        Expr::SetProperty { object, name, value } => {
            lemma_pushed_two(
                pre,
                post,
                action,
                Frame::SetCheck { name, value },
                Frame::Eval(object),
            );
        },
        _ => {},
    }
}

/// A heap adds nothing to itself.
pub proof fn lemma_adds_nothing(heap: &Heap, table: Seq<Option<usize>>)
    ensures
        keeps_bindings(heap, heap),
        adds_right(heap, heap, table),
{
}

/// Going back to an environment keeps the table right.
pub proof fn lemma_restored(pre: Machine, post: Machine, action: Action, environment: usize)
    requires
        about_to(pre, post, action, Frame::RestoreEnv(environment)),
        restored(pre.pop(), environment, post, action),
    ensures
        scoped(post),
{
    let n = pre.frames.len() as int;
    lemma_adds_nothing(&pre.heap, pre.locals);
    assert(post.frames.subrange(0, n - 1) =~= pre.frames.drop_last());
    lemma_assemble(pre, post, action);
}

/// What `this` is bound to is a value for which the table is right.
pub proof fn lemma_this_right(m: Machine, closure: usize)
    requires
        scoped(m),
        closure < m.heap.environments@.len(),
    ensures
        object_right(&m.heap, m.locals, this_of(&m.heap, closure)),
{
    if m.heap.environments@[closure as int].values@.contains_key("this"@) {
        lemma_bound_right(m, closure, "this"@);
    }
}

/// The end of a call keeps the table right.
pub proof fn lemma_call_ended(
    pre: Machine,
    post: Machine,
    action: Action,
    previous: usize,
    closure: usize,
    is_initializer: bool,
)
    requires
        about_to(pre, post, action, Frame::CallReturn { previous, closure, is_initializer }),
        call_ended(pre.pop(), previous, closure, is_initializer, post, action),
    ensures
        scoped(post),
{
    lemma_top_right(pre);
    let n = pre.frames.len() as int;
    lemma_this_right(pre, closure);
    lemma_adds_nothing(&pre.heap, pre.locals);
    assert(post.frames.subrange(0, n - 1) =~= pre.frames.drop_last());
    lemma_assemble(pre, post, action);
}

/// Whether an entry is the uppermost one that a call comes back to
/// depends on the entries up to it alone.
pub proof fn lemma_boundary_prefix(longer: Seq<Frame>, shorter: Seq<Frame>, upto: int)
    requires
        0 <= upto <= shorter.len() <= longer.len(),
        forall|j: int| 0 <= j < upto ==> longer[j] == shorter[j],
    ensures
        call_boundary(longer, upto) == call_boundary(shorter, upto),
    decreases upto,
{
    if upto > 0 {
        lemma_boundary_prefix(longer, shorter, upto - 1);
    }
}

/// Below the uppermost entry, the place that the innermost call comes back
/// to is the same, unless the uppermost entry is that place.
pub proof fn lemma_boundary_rest(frames: Seq<Frame>)
    requires
        frames.len() > 0,
        !(frames.last() is CallReturn),
    ensures
        boundary(frames.drop_last()) == boundary(frames),
        boundary(frames) <= frames.len() - 1,
{
    lemma_boundary_prefix(frames, frames.drop_last(), frames.len() - 1);
    crate::laws::lemma_call_boundary(frames, frames.len() - 1);
}

/// The place that the innermost call comes back to holds such an entry.
pub proof fn lemma_boundary_within(frames: Seq<Frame>)
    ensures
        boundary(frames) == 0 || (0 < boundary(frames) < frames.len() && frames[boundary(frames)]
            is CallReturn),
        0 <= boundary(frames),
{
    crate::laws::lemma_call_boundary(frames, frames.len() as int);
}

/// The environment that is current when the uppermost entry has been
/// left: the one that the entry goes back to, if it goes back to one.
pub open spec fn left_in(m: Machine) -> usize {
    match m.frames.last() {
        Frame::RestoreEnv(earlier) => earlier,
        Frame::CallReturn { previous, .. } => previous,
        _ => m.environment,
    }
}

/// The uppermost entry has been taken off, the environment is the one that
/// the entry goes back to, and the heap and the table are as they were.
pub open spec fn popped(pre: Machine, post: Machine) -> bool {
    &&& pre.frames.len() > 0
    &&& post.frames == pre.frames.drop_last()
    &&& post.environment == left_in(pre)
    &&& post.heap == pre.heap
    &&& post.locals == pre.locals
}

/// When the uppermost entry has been left, the table is still right for
/// an entry below it, if the entry above that one owes it what it did.
pub proof fn lemma_left_below(pre: Machine, post: Machine, i: int)
    requires
        popped(pre, post),
        0 <= i < post.frames.len(),
        owed(post, i) == owed(pre, i),
        code_right(&pre.heap, pre.locals, pre.frames[i], frame_shape(pre, i)),
    ensures
        code_right(&post.heap, post.locals, post.frames[i], frame_shape(post, i)),
{
    let upper = above(pre.frames, i + 1);
    assert(upper.drop_last() =~= above(post.frames, i + 1));
    assert(upper.last() == pre.frames.last());
    assert(frame_env(post, i) == frame_env(pre, i));
}

/// The table stays right for what lies below the innermost call when the
/// uppermost entry, which is not where a call comes back, has been left.
pub proof fn lemma_below_call_kept(pre: Machine, post: Machine)
    requires
        popped(pre, post),
        !(pre.frames.last() is CallReturn),
        forall|i: int|
            0 <= i < boundary(pre.frames) ==> code_right(
                &pre.heap,
                pre.locals,
                #[trigger] pre.frames[i],
                frame_shape(pre, i),
            ),
    ensures
        forall|i: int|
            0 <= i < boundary(post.frames) ==> code_right(
                &post.heap,
                post.locals,
                #[trigger] post.frames[i],
                frame_shape(post, i),
            ),
{
    lemma_boundary_rest(pre.frames);
    lemma_boundary_within(post.frames);
    assert forall|i: int| 0 <= i < boundary(post.frames) implies code_right(
        &post.heap,
        post.locals,
        #[trigger] post.frames[i],
        frame_shape(post, i),
    ) by {
        assert(post.frames[i + 1] == pre.frames[i + 1]);
        assert(code_right(&pre.heap, pre.locals, pre.frames[i], frame_shape(pre, i)));
        lemma_left_below(pre, post, i);
    }
}

/// The table is right for all that lies below the entry that a call comes
/// back to when that entry has been left.
pub proof fn lemma_call_left(pre: Machine, post: Machine)
    requires
        popped(pre, post),
        pre.frames.last() is CallReturn,
        forall|i: int|
            0 <= i < pre.frames.len() - 1 ==> code_right(
                &pre.heap,
                pre.locals,
                #[trigger] pre.frames[i],
                frame_shape(pre, i),
            ),
    ensures
        forall|i: int|
            0 <= i < post.frames.len() ==> code_right(
                &post.heap,
                post.locals,
                #[trigger] post.frames[i],
                frame_shape(post, i),
            ),
{
    let n = pre.frames.len() as int;
    assert forall|i: int| 0 <= i < post.frames.len() implies code_right(
        &post.heap,
        post.locals,
        #[trigger] post.frames[i],
        frame_shape(post, i),
    ) by {
        if i + 1 < post.frames.len() {
            assert(post.frames[i + 1] == pre.frames[i + 1]);
        }
        assert(owed(post, i) == owed(pre, i));
        assert(code_right(&pre.heap, pre.locals, pre.frames[i], frame_shape(pre, i)));
        lemma_left_below(pre, post, i);
    }
}

/// A `return` keeps the table right: the machine begins to leave the
/// stack, and the table is right for what lies below the innermost call.
pub proof fn lemma_returned(pre: Machine, post: Machine, action: Action)
    requires
        pre.wf(),
        scoped(pre),
        pre.pending is None,
        pre.leaving is None,
        pre.frames.len() > 0,
        pre.frames.last() == Frame::Return,
        stepped(pre, post, action),
    ensures
        scoped(post),
{
    assert(popped(pre, post));
    assert(post.leaving == Some(Exit::Return(pre.value->Some_0)) && post.value is None);
    lemma_boundary_within(pre.frames);
    lemma_return_begun(pre, post);
}

/// The table is right for a machine that has begun to leave the stack
/// with the value that was under way.
pub proof fn lemma_return_begun(pre: Machine, post: Machine)
    requires
        scoped(pre),
        pre.leaving is None,
        popped(pre, post),
        !(pre.frames.last() is CallReturn),
        pre.value is Some,
        post.leaving == Some(Exit::Return(pre.value->Some_0)),
        post.value is None,
    ensures
        scoped(post),
{
    reveal(scoped);
    lemma_boundary_within(pre.frames);
    lemma_below_call_kept(pre, post);
}

/// The table is right for a machine that has left an entry of the stack.
pub proof fn lemma_left(pre: Machine, post: Machine)
    requires
        scoped(pre),
        pre.leaving is Some,
        popped(pre, post),
        post.leaving == pre.leaving,
        post.value is None,
        !(pre.frames.last() is CallReturn && pre.leaving matches Some(Exit::Return(_))),
    ensures
        scoped(post),
{
    reveal(scoped);
    if pre.leaving matches Some(Exit::Return(_)) {
        lemma_below_call_kept(pre, post);
    }
}

/// The table is right for a machine that has come back from the call that
/// it left with a value, which the call gives.
pub proof fn lemma_return_ended(pre: Machine, post: Machine, closure: usize, initializer: bool)
    requires
        scoped(pre),
        popped(pre, post),
        pre.frames.last() is CallReturn,
        closure < pre.heap.environments@.len(),
        pre.leaving matches Some(Exit::Return(value)) && post.value == Some(
            call_result(&pre.heap, closure, initializer, value),
        ),
        post.leaving is None,
    ensures
        scoped(post),
{
    lemma_this_right(pre, closure);
    reveal(scoped);
    crate::laws::lemma_call_boundary(pre.frames, pre.frames.len() as int);
    assert(boundary(pre.frames) == pre.frames.len() - 1);
    lemma_call_left(pre, post);
}

/// Leaving an entry of the stack keeps the table right. Where a `return`
/// ends at the entry that its call comes back to, the table is right for
/// all that lies below, which is what the machine goes on with.
pub proof fn lemma_unwound(pre: Machine, post: Machine, action: Action)
    requires
        pre.wf(),
        scoped(pre),
        pre.pending is None,
        pre.leaving is Some,
        stepped(pre, post, action),
    ensures
        scoped(post),
{
    let n = pre.frames.len() as int;
    if n == 0 {
        assert(scoped(post)) by {
            reveal(scoped);
        }
    } else {
        assert(popped(pre, post));
        assert(pre.frames[n - 1].fits(&pre.heap));
        match pre.frames.last() {
            Frame::CallReturn { previous, closure, is_initializer } => {
                if pre.leaving matches Some(Exit::Return(_)) {
                    lemma_return_ended(pre, post, closure, is_initializer);
                } else {
                    lemma_left(pre, post);
                }
            },
            _ => {
                lemma_left(pre, post);
            },
        }
    }
}

/// Assigning to a variable keeps the table right.
pub proof fn lemma_assigned(pre: Machine, post: Machine, action: Action, expr: usize, name: usize)
    requires
        about_to(pre, post, action, Frame::Assign { expr, name }),
        assigned(pre.pop(), expr, name, post, action),
    ensures
        scoped(post),
{
    lemma_top_right(pre);
    let n = pre.frames.len() as int;
    let text = pre.heap.ast.text(name);
    let value = pre.value.unwrap();
    assert(post.frames.subrange(0, n - 1) =~= pre.frames.drop_last());
    if post.heap == pre.heap {
        lemma_adds_nothing(&pre.heap, pre.locals);
    } else {
        let target = match pre.depth(expr) {
            Some(distance) => pre.heap.ancestor(pre.environment, distance as nat).unwrap(),
            None => pre.heap.binder(pre.globals, text).unwrap(),
        };
        match pre.depth(expr) {
            Some(distance) => {
                lemma_ancestor_fits(&pre.heap, pre.environment, distance as nat);
            },
            None => {
                lemma_binder_fits(&pre.heap, pre.globals, text);
            },
        }
        lemma_keeps_bound(
            &post.heap,
            &pre.heap,
            target,
            pre.heap.environments@[target as int].values@.insert(text, value),
        );
        lemma_object_right_kept(&post.heap, &pre.heap, pre.locals, value);
        lemma_adds_binding(&post.heap, &pre.heap, pre.locals, target, text, value);
    }
    lemma_assemble(pre, post, action);
}

/// Storing a value in a field keeps the table right.
pub proof fn lemma_stored(
    pre: Machine,
    post: Machine,
    action: Action,
    instance: usize,
    name: usize,
)
    requires
        about_to(pre, post, action, Frame::SetProp { instance, name }),
        stored(pre.pop(), instance, name, post, action),
    ensures
        scoped(post),
{
    lemma_top_right(pre);
    let n = pre.frames.len() as int;
    let text = pre.heap.ast.text(name);
    let value = pre.value.unwrap();
    assert(keeps_bindings(&post.heap, &pre.heap));
    lemma_object_right_kept(&post.heap, &pre.heap, pre.locals, value);
    lemma_adds_field(&post.heap, &pre.heap, pre.locals, instance, text, value);
    assert(post.frames.subrange(0, n - 1) =~= pre.frames.drop_last());
    lemma_assemble(pre, post, action);
}

/// A method that a class has, its own or inherited, is one for which the
/// table is right.
pub proof fn lemma_method_in_heap(m: Machine, class: usize, name: Seq<char>)
    requires
        scoped(m),
    ensures
        m.heap.method(class, name) matches Some(method) ==> callable_right(
            &m.heap,
            m.locals,
            method,
            true,
        ),
    decreases class,
{
    if class < m.heap.classes@.len() {
        if m.heap.classes@[class as int].methods@.contains_key(name) {
            reveal(scoped);
            reveal(heap_right);
        } else if let Some(parent) = m.heap.classes@[class as int].superclass {
            if parent < class {
                lemma_method_in_heap(m, parent, name);
            }
        }
    }
}

/// A field that an instance holds is a value for which the table is right.
pub proof fn lemma_field_right(m: Machine, instance: usize, name: Seq<char>)
    requires
        scoped(m),
        instance < m.heap.instances@.len(),
        m.heap.instances@[instance as int].fields@.contains_key(name),
    ensures
        object_right(&m.heap, m.locals, m.heap.instances@[instance as int].fields@[name]),
{
    reveal(scoped);
    reveal(heap_right);
}

/// Binding a method to an object keeps the table right, with the bound
/// method as the value.
pub proof fn lemma_method_bound(
    pre: Machine,
    post: Machine,
    action: Action,
    method: LoxCallable,
    object: Object,
)
    requires
        pre.wf(),
        scoped(pre),
        went(pre, post, action),
        pre.frames.len() > 0,
        pre.frames.len() >= 2 ==> owed(pre, pre.frames.len() - 2) is None,
        method is User,
        pre.heap.holds_callable(method),
        pre.heap.holds(object),
        callable_right(&pre.heap, pre.locals, method, true),
        object_right(&pre.heap, pre.locals, object),
        method_bound(pre.pop(), method, object, post),
    ensures
        scoped(post),
{
    let n = pre.frames.len() as int;
    let table = pre.locals;
    if let LoxCallable::User { name, params, body, closure, is_initializer } = method {
        let values = Map::<Seq<char>, Object>::empty().insert("this"@, object);
        let made = pre.heap.environments@.len() as usize;
        assert(post.heap.environments.len() == post.heap.environments@.len());
        lemma_keeps_new_environment(&post.heap, &pre.heap, Some(closure), values);
        lemma_object_right_kept(&post.heap, &pre.heap, table, object);
        lemma_adds_environment(&post.heap, &pre.heap, table, Some(closure), values);
        lemma_shape_new(&post.heap, &pre.heap, closure, values);
        assert(values.dom().contains("this"@));
        pre.heap.lemma_ast();
        lemma_covers_itself(shape_of(&pre.heap, closure));
        lemma_covers_push(
            shape_of(&pre.heap, closure),
            shape_of(&pre.heap, closure),
            values.dom(),
            set!["this"@],
        );
        lemma_covers_chain(
            shape_of(&post.heap, made),
            shape_of(&pre.heap, closure).push(values.dom()),
            shape_of(&pre.heap, closure).push(set!["this"@]),
        );
        lemma_right_function_covers(
            &pre.heap.ast,
            table,
            shape_of(&post.heap, made),
            shape_of(&pre.heap, closure).push(set!["this"@]),
            params,
            body,
        );
        assert(callable_right(&post.heap, table, method.with_closure(made), false));
        assert(post.frames.subrange(0, n - 1) =~= pre.frames.drop_last());
        lemma_assemble(pre, post, action);
    }
}

/// One more environment keeps the bindings of the others.
pub proof fn lemma_keeps_new_environment(
    later: &Heap,
    earlier: &Heap,
    enclosing: Option<usize>,
    values: Map<Seq<char>, Object>,
)
    requires
        later.with_new_environment(earlier, enclosing, values),
    ensures
        keeps_bindings(later, earlier),
{
    let n = earlier.environments@.len() as int;
    assert(later.environments@.subrange(0, n) =~= later.environments@.drop_last());
    lemma_keeps_new(later, earlier);
}

/// Reading a property keeps the table right.
pub proof fn lemma_property_read(pre: Machine, post: Machine, action: Action, name: usize)
    requires
        about_to(pre, post, action, Frame::GetProp(name)),
        property_read(pre.pop(), name, post, action),
    ensures
        scoped(post),
{
    lemma_top_right(pre);
    let n = pre.frames.len() as int;
    let text = pre.heap.ast.text(name);
    if let Some(Object::Instance(instance)) = pre.value {
        let object = pre.heap.instances@[instance as int];
        if object.fields@.contains_key(text) {
            lemma_field_right(pre, instance, text);
            lemma_popped(pre, post, action);
        } else {
            pre.heap.lemma_instance(instance as int);
            pre.heap.lemma_method(object.class, text);
            lemma_method_in_heap(pre, object.class, text);
            if let Some(method) = pre.heap.method(object.class, text) {
                lemma_method_bound(pre, post, action, method, Object::Instance(instance));
            }
        }
    }
}

/// Evaluating `super.method` keeps the table right.
pub proof fn lemma_super_found(
    pre: Machine,
    post: Machine,
    action: Action,
    expr: usize,
    keyword: usize,
    method: usize,
)
    requires
        about_to(pre, post, action, Frame::Eval(expr)),
        super_found(pre.pop(), expr, keyword, method, post, action),
    ensures
        scoped(post),
{
    lemma_top_right(pre);
    let distance: nat = match pre.depth(expr) {
        Some(d) => d as nat,
        None => 0,
    };
    let inner: nat = if distance >= 1 {
        (distance - 1) as nat
    } else {
        0
    };
    let object = pre.heap.at(pre.environment, inner, "this"@);
    if pre.heap.found_at(pre.environment, inner, "this"@) is Some {
        lemma_found_right(pre, pre.environment, inner, "this"@);
        lemma_ancestor_fits(&pre.heap, pre.environment, inner);
        pre.heap.lemma_environment(pre.heap.ancestor(pre.environment, inner).unwrap() as int);
    }
    if let Object::Class(class) = pre.heap.at(pre.environment, distance, "super"@) {
        pre.heap.lemma_method(class, pre.heap.ast.text(method));
        lemma_method_in_heap(pre, class, pre.heap.ast.text(method));
        if let Some(found) = pre.heap.method(class, pre.heap.ast.text(method)) {
            lemma_method_bound(pre, post, action, found, object);
        }
    }
}

/// Every value that the parameters are bound to is one of the arguments.
pub proof fn lemma_bindings_value(
    ast: &crate::ast::Ast,
    params: crate::expr::Span,
    arguments: Seq<Object>,
    upto: nat,
    key: Seq<char>,
)
    requires
        bindings(ast, params, arguments, upto).contains_key(key),
    ensures
        exists|j: int|
            0 <= j < upto && bindings(ast, params, arguments, upto)[key] == #[trigger] arguments[j],
    decreases upto,
{
    if upto > 0 {
        let name = ast.text(ast.lists@[params.start + upto - 1]);
        if key == name {
            assert(bindings(ast, params, arguments, upto)[key] == arguments[upto - 1]);
        } else {
            lemma_bindings_value(ast, params, arguments, (upto - 1) as nat, key);
            let j = choose|j: int|
                0 <= j < upto - 1 && bindings(ast, params, arguments, (upto - 1) as nat)[key]
                    == #[trigger] arguments[j];
            assert(bindings(ast, params, arguments, upto)[key] == arguments[j]);
        }
    }
}

/// Every parameter is bound.
pub proof fn lemma_bindings_dom(
    ast: &crate::ast::Ast,
    params: crate::expr::Span,
    arguments: Seq<Object>,
    upto: nat,
    j: int,
)
    requires
        0 <= j < upto,
    ensures
        bindings(ast, params, arguments, upto).contains_key(
            ast.text(ast.lists@[params.start + j]),
        ),
    decreases upto,
{
    if j < upto - 1 {
        lemma_bindings_dom(ast, params, arguments, (upto - 1) as nat, j);
    }
}

/// The environment of a call binds the names of all parameters.
pub proof fn lemma_params_bound(
    ast: &crate::ast::Ast,
    params: crate::expr::Span,
    arguments: Seq<Object>,
)
    ensures
        params_set(ast, params).subset_of(
            bindings(ast, params, arguments, params.len as nat).dom(),
        ),
{
    assert forall|name: Seq<char>| params_set(ast, params).contains(name) implies bindings(
        ast,
        params,
        arguments,
        params.len as nat,
    ).dom().contains(name) by {
        let j = choose|j: int|
            0 <= j < params.len && ast.text(#[trigger] ast.lists@[params.start + j]) == name;
        lemma_bindings_dom(ast, params, arguments, params.len as nat, j);
    }
}

/// The table is right for the values that the parameters are bound to, if
/// it is right for the arguments.
pub proof fn lemma_bindings_right(
    later: &Heap,
    earlier: &Heap,
    table: Seq<Option<usize>>,
    params: crate::expr::Span,
    arguments: Seq<Object>,
)
    requires
        earlier.wf(),
        later.ast == earlier.ast,
        keeps_bindings(later, earlier),
        forall|j: int|
            0 <= j < arguments.len() ==> earlier.holds(#[trigger] arguments[j]) && object_right(
                earlier,
                table,
                arguments[j],
            ),
        arguments.len() == params.len,
    ensures
        forall|name: Seq<char>|
            bindings(&earlier.ast, params, arguments, params.len as nat).contains_key(name)
                ==> object_right(
                later,
                table,
                #[trigger] bindings(&earlier.ast, params, arguments, params.len as nat)[name],
            ),
{
    let values = bindings(&earlier.ast, params, arguments, params.len as nat);
    assert forall|name: Seq<char>| values.contains_key(name) implies object_right(
        later,
        table,
        #[trigger] values[name],
    ) by {
        lemma_bindings_value(&earlier.ast, params, arguments, params.len as nat, name);
        let j = choose|j: int|
            0 <= j < params.len && values[name] == #[trigger] arguments[j];
        lemma_object_right_kept(later, earlier, table, arguments[j]);
    }
}

/// Entering a function keeps the table right.
pub proof fn lemma_entered(
    pre: Machine,
    post: Machine,
    action: Action,
    params: crate::expr::Span,
    body: crate::expr::Span,
    closure: usize,
    is_initializer: bool,
    arguments: Seq<Object>,
)
    requires
        pre.wf(),
        scoped(pre),
        went(pre, post, action),
        pre.frames.len() > 0,
        pre.frames.len() >= 2 ==> owed(pre, pre.frames.len() - 2) is None,
        entered(pre.pop().take(), params, body, closure, is_initializer, arguments, post),
        closure < pre.heap.environments@.len(),
        span_below(pre.heap.ast.lists@, body, pre.heap.ast.stmts@.len() as int),
        arguments.len() == params.len,
        forall|j: int|
            0 <= j < arguments.len() ==> pre.heap.holds(#[trigger] arguments[j]) && object_right(
                &pre.heap,
                pre.locals,
                arguments[j],
            ),
        right_function(&pre.heap.ast, pre.locals, shape_of(&pre.heap, closure), params, body),
    ensures
        scoped(post),
{
    let n = pre.frames.len() as int;
    let table = pre.locals;
    let ast = &pre.heap.ast;
    let values = bindings(ast, params, arguments, params.len as nat);
    pre.heap.lemma_ast();
    lemma_keeps_new_environment(&post.heap, &pre.heap, Some(closure), values);
    lemma_bindings_right(&post.heap, &pre.heap, table, params, arguments);
    lemma_adds_environment(&post.heap, &pre.heap, table, Some(closure), values);
    lemma_shape_new(&post.heap, &pre.heap, closure, values);
    lemma_params_bound(ast, params, arguments);
    let outer = shape_of(&pre.heap, closure);
    lemma_covers_itself(outer);
    lemma_covers_push(outer, outer, values.dom(), params_set(ast, params));
    lemma_covers_chain(here(post), outer.push(values.dom()), outer.push(params_set(ast, params)));
    lemma_right_list_covers(ast, table, here(post), outer.push(params_set(ast, params)), body, 0);
    assert(post.frames.subrange(0, n - 1) =~= pre.frames.drop_last());
    lemma_top_shape(post);
    assert forall|i: int| n - 1 <= i < post.frames.len() implies code_right(
        &post.heap,
        post.locals,
        #[trigger] post.frames[i],
        frame_shape(post, i),
    ) by {
        reveal(code_right);
        if i == n {
            assert(post.frames[n] == (Frame::ExecList { span: body, next: 0 }));
        } else {
            assert(post.frames[n - 1] is CallReturn);
        }
    }
    lemma_assemble(pre, post, action);
}

/// Entering the initializer of a class on a new instance keeps the table
/// right.
pub proof fn lemma_initialized(
    pre: Machine,
    post: Machine,
    action: Action,
    class: usize,
    params: crate::expr::Span,
    body: crate::expr::Span,
    closure: usize,
    is_initializer: bool,
    arguments: Seq<Object>,
)
    requires
        pre.wf(),
        scoped(pre),
        went(pre, post, action),
        pre.frames.len() > 0,
        pre.frames.len() >= 2 ==> owed(pre, pre.frames.len() - 2) is None,
        initializing(&pre.heap, class, closure, params, arguments, &post.heap),
        post == pre.pop().take().on(post.heap).enter(
            (pre.heap.environments@.len() + 1) as usize,
        ).push(
            Frame::CallReturn {
                previous: pre.environment,
                closure: pre.heap.environments@.len() as usize,
                is_initializer,
            },
        ).push(Frame::ExecList { span: body, next: 0 }),
        closure < pre.heap.environments@.len(),
        span_below(pre.heap.ast.lists@, body, pre.heap.ast.stmts@.len() as int),
        arguments.len() == params.len,
        forall|j: int|
            0 <= j < arguments.len() ==> pre.heap.holds(#[trigger] arguments[j]) && object_right(
                &pre.heap,
                pre.locals,
                arguments[j],
            ),
        right_function(
            &pre.heap.ast,
            pre.locals,
            shape_of(&pre.heap, closure).push(set!["this"@]),
            params,
            body,
        ),
    ensures
        scoped(post),
{
    let n = pre.frames.len() as int;
    let table = pre.locals;
    let ast = &pre.heap.ast;
    let values = bindings(ast, params, arguments, params.len as nat);
    let count = pre.heap.environments@.len() as int;
    let bound = count as usize;
    let inner = (count + 1) as usize;
    pre.heap.lemma_ast();
    assert(post.heap.environments.len() == post.heap.environments@.len());
    lemma_keeps_new(&post.heap, &pre.heap);
    lemma_bindings_right(&post.heap, &pre.heap, table, params, arguments);
    // the values
    assert(adds_right(&post.heap, &pre.heap, table)) by {
        assert forall|i: int, key: Seq<char>|
            0 <= i < post.heap.environments@.len() && post.heap.environments@[i].values@
                .contains_key(key) implies object_right(
            &post.heap,
            table,
            #[trigger] post.heap.environments@[i].values@[key],
        ) || (i < pre.heap.environments@.len() && pre.heap.environments@[i].values@.contains_key(
            key,
        ) && pre.heap.environments@[i].values@[key] == post.heap.environments@[i].values@[key]) by {
            if i < count {
                assert(post.heap.environments@.subrange(0, count)[i]
                    == post.heap.environments@[i]);
            }
        }
        assert forall|i: int, key: Seq<char>|
            0 <= i < post.heap.instances@.len() && post.heap.instances@[i].fields@.contains_key(
                key,
            ) implies object_right(
            &post.heap,
            table,
            #[trigger] post.heap.instances@[i].fields@[key],
        ) || (i < pre.heap.instances@.len() && pre.heap.instances@[i].fields@.contains_key(key)
            && pre.heap.instances@[i].fields@[key] == post.heap.instances@[i].fields@[key]) by {
            if i < pre.heap.instances@.len() {
                assert(post.heap.instances@.drop_last()[i] == post.heap.instances@[i]);
            } else {
                assert(post.heap.instances@[i] == post.heap.instances@.last());
            }
        }
    }
    // the shape of the new environment
    lemma_shape_kept(&post.heap, &pre.heap, closure);
    let outer = shape_of(&pre.heap, closure);
    let this_dom = post.heap.environments@[count].values@.dom();
    assert(this_dom.contains("this"@));
    assert(shape_of(&post.heap, bound) == shape_of(&post.heap, closure).push(this_dom));
    assert(shape_of(&post.heap, inner) == shape_of(&post.heap, bound).push(values.dom()));
    lemma_covers_push(shape_of(&post.heap, closure), outer, this_dom, set!["this"@]);
    lemma_params_bound(ast, params, arguments);
    lemma_covers_push(
        shape_of(&post.heap, bound),
        outer.push(set!["this"@]),
        values.dom(),
        params_set(ast, params),
    );
    lemma_right_list_covers(
        ast,
        table,
        here(post),
        outer.push(set!["this"@]).push(params_set(ast, params)),
        body,
        0,
    );
    assert(post.frames.subrange(0, n - 1) =~= pre.frames.drop_last());
    lemma_top_shape(post);
    assert forall|i: int| n - 1 <= i < post.frames.len() implies code_right(
        &post.heap,
        post.locals,
        #[trigger] post.frames[i],
        frame_shape(post, i),
    ) by {
        reveal(code_right);
        if i == n {
            assert(post.frames[n] == (Frame::ExecList { span: body, next: 0 }));
        } else {
            assert(post.frames[n - 1] is CallReturn);
        }
    }
    lemma_assemble(pre, post, action);
}

/// Calling something keeps the table right.
pub proof fn lemma_invoked(
    pre: Machine,
    post: Machine,
    action: Action,
    paren: usize,
    callee: Object,
    arguments: Seq<Object>,
)
    requires
        pre.wf(),
        scoped(pre),
        went(pre, post, action),
        pre.leaving is None,
        post.leaving is None,
        pre.frames.len() > 0,
        pre.frames.len() >= 2 ==> owed(pre, pre.frames.len() - 2) is None,
        invoked(pre.pop().take(), paren, callee, arguments, post, action),
        pre.heap.holds(callee),
        object_right(&pre.heap, pre.locals, callee),
        forall|j: int|
            0 <= j < arguments.len() ==> pre.heap.holds(#[trigger] arguments[j]) && object_right(
                &pre.heap,
                pre.locals,
                arguments[j],
            ),
    ensures
        scoped(post),
{
    let n = pre.frames.len() as int;
    match callee {
        Object::Callable(LoxCallable::Native { arity, function }) => {
            lemma_popped(pre, post, action);
        },
        Object::Callable(LoxCallable::User { name, params, body, closure, is_initializer }) => {
            lemma_entered(pre, post, action, params, body, closure, is_initializer, arguments);
        },
        Object::Class(class) => {
            pre.heap.lemma_method(class, "init"@);
            lemma_method_in_heap(pre, class, "init"@);
            assert(pre.heap.environments.len() == pre.heap.environments@.len());
            assert(post.heap.environments.len() == post.heap.environments@.len());
            match pre.heap.method(class, "init"@) {
                Some(LoxCallable::User { name, params, body, closure, is_initializer }) => {
                    lemma_initialized(
                        pre,
                        post,
                        action,
                        class,
                        params,
                        body,
                        closure,
                        is_initializer,
                        arguments,
                    );
                },
                _ => {
                    lemma_adds_instance(&post.heap, &pre.heap, pre.locals, class);
                    assert(post.frames.subrange(0, n - 1) =~= pre.frames.drop_last());
                    lemma_assemble(pre, post, action);
                },
            }
        },
        _ => {},
    }
}

/// The table is right for an entry that collects arguments, if it is
/// right for the callee, for the arguments that are there and for those to
/// come.
pub proof fn lemma_argument_right(
    heap: &Heap,
    table: Seq<Option<usize>>,
    frame: Frame,
    shape: Shape,
    paren: usize,
    callee: Object,
    arguments: crate::expr::Span,
    done: Seq<Object>,
)
    requires
        frame.is_argument(paren, callee, arguments, done),
        object_right(heap, table, callee),
        forall|j: int| 0 <= j < done.len() ==> object_right(heap, table, #[trigger] done[j]),
        right_exprs(&heap.ast, table, shape, arguments, (done.len() + 1) as nat),
    ensures
        code_right(heap, table, frame, shape),
        frame.keeps_environment(),
        !(frame is Exec) && !(frame is DefineVar) && !(frame is ClassSuper),
{
    reveal(code_right);
}

/// The table is right for an entry that evaluates an expression, if it is
/// right for the expression.
pub proof fn lemma_eval_right(heap: &Heap, table: Seq<Option<usize>>, shape: Shape, expr: usize)
    requires
        right_expr(&heap.ast, table, shape, expr),
    ensures
        code_right(heap, table, Frame::Eval(expr), shape),
{
    reveal(code_right);
}

/// Going on to the next argument of a call keeps the table right.
pub proof fn lemma_collecting(
    pre: Machine,
    post: Machine,
    action: Action,
    paren: usize,
    callee: Object,
    arguments: crate::expr::Span,
    done: Seq<Object>,
    next: usize,
)
    requires
        pre.wf(),
        scoped(pre),
        went(pre, post, action),
        pre.frames.len() > 0,
        pre.frames.len() >= 2 ==> owed(pre, pre.frames.len() - 2) is None,
        collecting(pre.pop().take(), paren, callee, arguments, done, next, post),
        object_right(&pre.heap, pre.locals, callee),
        forall|j: int| 0 <= j < done.len() ==> object_right(&pre.heap, pre.locals, #[trigger] done[j]),
        right_exprs(&pre.heap.ast, pre.locals, here(pre), arguments, (done.len() + 1) as nat),
        right_expr(&pre.heap.ast, pre.locals, here(pre), next),
    ensures
        scoped(post),
{
    let n = pre.frames.len() as int;
    let lower = post.frames[n - 1];
    let upper = Frame::Eval(next);
    assert(post.frames =~= pre.frames.drop_last().push(lower).push(upper)) by {
        assert forall|i: int| 0 <= i < n - 1 implies post.frames[i] == pre.frames.drop_last()[i] by {
            assert(post.frames.subrange(0, n - 1)[i] == post.frames[i]);
        }
    }
    lemma_argument_right(
        &pre.heap,
        pre.locals,
        lower,
        here(pre),
        paren,
        callee,
        arguments,
        done,
    );
    lemma_eval_right(&pre.heap, pre.locals, here(pre), next);
    lemma_pushed_two(pre, post, action, lower, upper);
}

/// Checking the callee keeps the table right.
pub proof fn lemma_callee_checked(
    pre: Machine,
    post: Machine,
    action: Action,
    paren: usize,
    arguments: crate::expr::Span,
)
    requires
        about_to(pre, post, action, Frame::CallCheck { paren, arguments }),
        callee_checked(pre.pop(), paren, arguments, post, action),
    ensures
        scoped(post),
{
    lemma_top_right(pre);
    let n = pre.frames.len() as int;
    let callee = pre.value.unwrap();
    let ast = &pre.heap.ast;
    assert(right_exprs(ast, pre.locals, here(pre), arguments, 0)) by {
        reveal(code_right);
    }
    if callee is Callable || callee is Class {
        if arguments.len == 0 {
            lemma_invoked(pre, post, action, paren, callee, Seq::empty());
        } else {
            lemma_collecting(
                pre,
                post,
                action,
                paren,
                callee,
                arguments,
                Seq::empty(),
                ast.lists@[arguments.start as int],
            );
        }
    }
}

/// Taking an argument keeps the table right.
pub proof fn lemma_argument_given(
    pre: Machine,
    post: Machine,
    action: Action,
    paren: usize,
    callee: Object,
    arguments: crate::expr::Span,
    done: Vec<Object>,
)
    requires
        about_to(pre, post, action, Frame::Argument { paren, callee, arguments, done }),
        argument_given(pre.pop(), paren, callee, arguments, done@, post, action),
    ensures
        scoped(post),
{
    lemma_top_right(pre);
    let n = pre.frames.len() as int;
    let argument = pre.value.unwrap();
    let ast = &pre.heap.ast;
    let all = done@.push(argument);
    assert(right_exprs(ast, pre.locals, here(pre), arguments, (done@.len() + 1) as nat)
        && object_right(&pre.heap, pre.locals, callee) && forall|j: int|
        0 <= j < done@.len() ==> object_right(&pre.heap, pre.locals, #[trigger] done@[j])) by {
        reveal(code_right);
    }
    assert forall|j: int| 0 <= j < all.len() implies pre.heap.holds(#[trigger] all[j])
        && object_right(&pre.heap, pre.locals, all[j]) by {
        if j < done@.len() {
            assert(all[j] == done@[j]);
        }
    }
    if done@.len() + 1 < arguments.len {
        lemma_collecting(
            pre,
            post,
            action,
            paren,
            callee,
            arguments,
            all,
            ast.lists@[arguments.start + done@.len() + 1],
        );
    } else {
        lemma_invoked(pre, post, action, paren, callee, all);
    }
}

/// Executing a statement keeps the table right.
pub proof fn lemma_executed(pre: Machine, post: Machine, action: Action, stmt: usize)
    requires
        about_to(pre, post, action, Frame::Exec(stmt)),
        executed(pre.pop(), stmt, post, action),
    ensures
        scoped(post),
{
    match pre.heap.ast.stmts@[stmt as int] {
        Stmt::Var { name, initializer } => {
            if initializer is Some {
                lemma_executed_pushing(pre, post, action, stmt);
            } else {
                lemma_declared_nil(pre, post, action, stmt);
            }
        },
        Stmt::Block { statements } => {
            lemma_entered_block(pre, post, action, stmt);
        },
        Stmt::Function { name, params, body } => {
            lemma_declared_function(pre, post, action, stmt);
        },
        Stmt::Class { name, superclass, methods } => {
            if superclass is Some {
                lemma_executed_pushing(pre, post, action, stmt);
            } else {
                lemma_declared_class(pre, post, action, stmt);
            }
        },
        _ => {
            lemma_executed_pushing(pre, post, action, stmt);
        },
    }
}

/// Evaluating an expression keeps the table right.
pub proof fn lemma_evaluated(pre: Machine, post: Machine, action: Action, expr: usize)
    requires
        about_to(pre, post, action, Frame::Eval(expr)),
        evaluated(pre.pop(), expr, post, action),
    ensures
        scoped(post),
{
    match pre.heap.ast.exprs@[expr as int] {
        Expr::Variable { name } => {
            lemma_looked_up(pre, post, action, expr, name);
        },
        Expr::This { keyword } => {
            lemma_looked_up(pre, post, action, expr, keyword);
        },
        Expr::Super { keyword, method } => {
            lemma_super_found(pre, post, action, expr, keyword, method);
        },
        _ => {
            lemma_evaluated_pushing(pre, post, action, expr);
        },
    }
}

/// A call that meets a runtime error leaves a heap for which the table is
/// right: the heap is as it was, but for an instance that a class made
/// before its initializer refused the arguments.
pub proof fn lemma_failed_call(
    pre: Machine,
    paren: usize,
    callee: Object,
    arguments: Seq<Object>,
    post: Machine,
    action: Action,
)
    requires
        pre.heap.wf(),
        pre.leaving is None,
        heap_right(&pre.heap, pre.locals),
        invoked(pre, paren, callee, arguments, post, action),
        post.leaving is Some,
    ensures
        heap_right(&post.heap, post.locals),
        post.leaving matches Some(Exit::Error(_)),
        post.value is None,
{
    if let Object::Class(class) = callee {
        if post.heap != pre.heap {
            lemma_adds_instance(&post.heap, &pre.heap, pre.locals, class);
            lemma_heap_right_grown(&post.heap, &pre.heap, pre.locals);
        }
    }
}

/// A step that meets a runtime error keeps the table right: the heap is
/// as it was, but for an instance that a class made before its initializer
/// refused the arguments, and the machine begins to leave the stack.
pub proof fn lemma_failing(pre: Machine, post: Machine, action: Action)
    requires
        pre.wf(),
        scoped(pre),
        pre.pending is None,
        pre.leaving is None,
        pre.frames.len() > 0,
        !(pre.frames.last() is Return),
        stepped(pre, post, action),
        post.leaving is Some,
    ensures
        scoped(post),
{
    reveal(scoped);
    match pre.frames.last() {
        Frame::CallCheck { paren, arguments } => {
            let callee = pre.value->Some_0;
            if (callee is Callable || callee is Class) && arguments.len == 0 {
                lemma_failed_call(pre.pop().take(), paren, callee, Seq::empty(), post, action);
            }
        },
        Frame::Argument { paren, callee, arguments, done } => {
            let given = done@.push(pre.value->Some_0);
            if given.len() == arguments.len {
                lemma_failed_call(pre.pop().take(), paren, callee, given, post, action);
            }
        },
        _ => {},
    }
    assert(post.leaving matches Some(Exit::Error(_)));
    assert(post.value is None);
    assert(heap_right(&post.heap, post.locals));
}

/// A step keeps the table right: where the table is right for all that
/// the machine has left to do and for all the functions that it holds, it
/// is so after the step, whether the machine goes on or leaves the stack.
/// With `lemma_use_is_bound` this says that in a run that starts with a
/// table that is right, every variable that is read at a depth is found
/// there.
pub proof fn lemma_step_keeps_scoped(pre: Machine, post: Machine, action: Action)
    requires
        pre.wf(),
        scoped(pre),
        stepped(pre, post, action),
    ensures
        scoped(post),
{
    if pre.pending is Some {
    } else if pre.leaving is Some {
        lemma_unwound(pre, post, action);
    } else if pre.frames.len() > 0 && pre.frames.last() is Return {
        lemma_returned(pre, post, action);
    } else if pre.frames.len() > 0 && post.leaving is Some {
        lemma_failing(pre, post, action);
    } else if pre.frames.len() > 0 {
        assert(went(pre, post, action)) by {
            reveal(went);
        }
        let top = pre.frames.last();
        assert(about_to(pre, post, action, top));
        match top {
            Frame::Exec(stmt) => {
                lemma_executed(pre, post, action, stmt);
            },
            Frame::ExecList { span, next } => {
                lemma_listed(pre, post, action, span, next);
            },
            Frame::RestoreEnv(environment) => {
                lemma_restored(pre, post, action, environment);
            },
            Frame::Discard => {
                lemma_discarded(pre, post, action);
            },
            Frame::Print => {
                lemma_printed(pre, post, action);
            },
            Frame::DefineVar(name) => {
                lemma_defined(pre, post, action, name);
            },
            Frame::Branch { then_branch, else_branch } => {
                lemma_branched(pre, post, action, then_branch, else_branch);
            },
            Frame::LoopTest { condition, body } => {
                lemma_loop_tested(pre, post, action, condition, body);
            },
            Frame::Return => {},
            Frame::ClassSuper { name, methods, token } => {
                lemma_declared_subclass(pre, post, action, name, methods, token);
            },
            Frame::CallReturn { previous, closure, is_initializer } => {
                lemma_call_ended(pre, post, action, previous, closure, is_initializer);
            },
            Frame::Eval(expr) => {
                lemma_evaluated(pre, post, action, expr);
            },
            Frame::Unary(operator) => {
                lemma_unary_applied(pre, post, action, operator);
            },
            Frame::BinaryRight { operator, right } => {
                lemma_left_given(pre, post, action, operator, right);
            },
            Frame::BinaryApply { operator, left } => {
                lemma_binary_applied(pre, post, action, operator, left);
            },
            Frame::LogicalRhs { operator, right } => {
                lemma_logical_decided(pre, post, action, operator, right);
            },
            Frame::Assign { expr, name } => {
                lemma_assigned(pre, post, action, expr, name);
            },
            Frame::GetProp(name) => {
                lemma_property_read(pre, post, action, name);
            },
            Frame::SetCheck { name, value } => {
                lemma_store_checked(pre, post, action, name, value);
            },
            Frame::SetProp { instance, name } => {
                lemma_stored(pre, post, action, instance, name);
            },
            Frame::CallCheck { paren, arguments } => {
                lemma_callee_checked(pre, post, action, paren, arguments);
            },
            Frame::Argument { paren, callee, arguments, done } => {
                lemma_argument_given(pre, post, action, paren, callee, arguments, done);
            },
        }
    }
}

/// The host's answer to a request keeps the table right.
pub proof fn lemma_reply_keeps_scoped(pre: Machine, post: Machine)
    requires
        scoped(pre),
        (exists|number: crate::util::Number| number_replied(pre, number, post, true)) || (exists|
            text: Seq<char>,
        |
            text_replied(pre, text, post, true)),
    ensures
        scoped(post),
{
    reveal(scoped);
    assert(post.leaving == pre.leaving && post.frames == pre.frames);
    assert forall|i: int| 0 <= i < post.frames.len() implies frame_shape(post, i) == frame_shape(
        pre,
        i,
    ) by {}
}

/// When a program is started with a table that is right for it, the table
/// is right for the machine.
pub proof fn lemma_start_scoped(post: Machine, program: crate::expr::Span)
    requires
        post.wf(),
        heap_right(&post.heap, post.locals),
        post.frames == seq![Frame::ExecList { span: program, next: 0 }],
        post.value is None,
        post.leaving is None,
        post.environment == post.globals,
        right_list(&post.heap.ast, post.locals, Seq::empty(), program, 0),
    ensures
        scoped(post),
{
    reveal(scoped);
    reveal(code_right);
    lemma_top_shape(post);
    assert(post.frames.len() == 1);
    assert(post.frames[0] == (Frame::ExecList { span: program, next: 0 }));
    post.heap.lemma_environment(0);
    assert(here(post) =~= Seq::<Set<Seq<char>>>::empty());
}

} // verus!
