use crate::ast::Ast;
use crate::callable::LoxCallable;
use crate::expr::Span;
use crate::error::{RuntimeError, RuntimeErrorKind};
use crate::expr::{Constant, Expr};
use crate::frame::Arithmetic;
use crate::token::{Literal, TokenType};
use crate::frame::{Action, Exit, Frame, Request};
use crate::heap::Heap;
use crate::interpreter::Machine;
use crate::object::Object;
use crate::stmt::Stmt;
use vstd::prelude::*;

verus! {

/// The function that the declaration `name(params) body` makes in the
/// environment `closure`.
pub open spec fn function_of(
    ast: &Ast,
    name: usize,
    params: Span,
    body: Span,
    closure: usize,
    is_initializer: bool,
) -> LoxCallable {
    LoxCallable::User { name, params, body, closure, is_initializer }
}

/// The methods that the first `upto` declarations of the run `span` make in
/// the environment `closure`, by name. A method named `init` is the
/// initializer; of two methods of one name the later one stays.
pub open spec fn method_table(ast: &Ast, span: Span, closure: usize, upto: nat) -> Map<
    Seq<char>,
    LoxCallable,
>
    decreases upto,
{
    if upto == 0 {
        Map::empty()
    } else {
        let earlier = method_table(ast, span, closure, (upto - 1) as nat);
        match ast.stmts@[ast.lists@[span.start + upto - 1] as int] {
            Stmt::Function { name, params, body } => earlier.insert(
                ast.text(name),
                function_of(ast, name, params, body, closure, ast.text(name) == "init"@),
            ),
            _ => earlier,
        }
    }
}

/// What declaring a class does to the heap. The name is bound to the new
/// class in the current environment. With a superclass, an environment that
/// binds `super` to it is made inside the current one, and the methods are
/// closed over that; without, they are closed over the current one.
pub open spec fn class_declared(
    pre: &Heap,
    environment: usize,
    name: usize,
    superclass: Option<usize>,
    methods: Span,
    post: &Heap,
) -> bool {
    let text = pre.ast.text(name);
    let class = pre.classes@.len() as usize;
    let closure = if superclass is Some {
        pre.environments@.len() as usize
    } else {
        environment
    };
    &&& post.ast == pre.ast
    &&& post.instances == pre.instances
    &&& post.classes@.len() == pre.classes@.len() + 1
    &&& post.classes@.drop_last() == pre.classes@
    &&& post.classes@.last().name@ == text
    &&& post.classes@.last().superclass == superclass
    &&& post.classes@.last().methods@ == method_table(&pre.ast, methods, closure, methods.len as nat)
    &&& post.environments@.len() == pre.environments@.len() + (if superclass is Some {
        1int
    } else {
        0int
    })
    &&& forall|j: int|
        0 <= j < pre.environments@.len() && j != environment ==> #[trigger] post.environments@[j]
            == pre.environments@[j]
    &&& post.environments@[environment as int].enclosing
        == pre.environments@[environment as int].enclosing
    &&& post.environments@[environment as int].values@
        == pre.environments@[environment as int].values@.insert(text, Object::Class(class))
    &&& (superclass matches Some(parent) ==> {
        &&& post.environments@.last().enclosing == Some(environment)
        &&& post.environments@.last().values@ == Map::<Seq<char>, Object>::empty().insert(
            "super"@,
            Object::Class(parent),
        )
    })
}

/// The token that names the superclass in the expression `superclass` of
/// the declaration of the class `name`.
pub open spec fn superclass_name(ast: &Ast, name: usize, superclass: usize) -> usize {
    match ast.exprs@[superclass as int] {
        Expr::Variable { name: parent } => parent,
        _ => name,
    }
}

/// Executing the statement `stmt` from the state `pre`, which no longer
/// holds the entry for it.
pub open spec fn executed(pre: Machine, stmt: usize, post: Machine, action: Action) -> bool {
    let ast = &pre.heap.ast;
    &&& action is Continue
    &&& match ast.stmts@[stmt as int] {
        Stmt::Expression { expression } => post == pre.push(Frame::Discard).push(
            Frame::Eval(expression),
        ),
        Stmt::Print { expression } => post == pre.push(Frame::Print).push(Frame::Eval(expression)),
        Stmt::Var { name, initializer } => match initializer {
            Some(value) => post == pre.push(Frame::DefineVar(name)).push(Frame::Eval(value)),
            None => post.heap.with_binding(
                &pre.heap,
                pre.environment,
                ast.text(name),
                Object::Nil,
            ) && post == pre.on(post.heap),
        },
        Stmt::Block { statements } => {
            &&& post.heap.with_new_environment(&pre.heap, Some(pre.environment), Map::empty())
            &&& post == pre.on(post.heap).enter(pre.heap.environments@.len() as usize).push(
                Frame::RestoreEnv(pre.environment),
            ).push(Frame::ExecList { span: statements, next: 0 })
        },
        Stmt::If { condition, then_branch, else_branch } => post == pre.push(
            Frame::Branch { then_branch, else_branch },
        ).push(Frame::Eval(condition)),
        Stmt::While { condition, body } => post == pre.push(
            Frame::LoopTest { condition, body },
        ).push(Frame::Eval(condition)),
        Stmt::Function { name, params, body } => post.heap.with_binding(
            &pre.heap,
            pre.environment,
            ast.text(name),
            Object::Callable(function_of(ast, name, params, body, pre.environment, false)),
        ) && post == pre.on(post.heap),
        Stmt::Return { keyword, value } => match value {
            Some(expression) => post == pre.push(Frame::Return).push(Frame::Eval(expression)),
            None => post == pre.push(Frame::Return).give(Object::Nil),
        },
        Stmt::Class { name, superclass, methods } => match superclass {
            Some(expression) => post == pre.push(
                Frame::ClassSuper { name, methods, token: superclass_name(ast, name, expression) },
            ).push(Frame::Eval(expression)),
            None => class_declared(&pre.heap, pre.environment, name, None, methods, &post.heap)
                && post == pre.on(post.heap),
        },
    }
}

/// Going on with the statements of the run `span` from the `next`-th.
pub open spec fn listed(pre: Machine, span: Span, next: usize, post: Machine, action: Action)
    -> bool {
    &&& action is Continue
    &&& if next < span.len {
        post == pre.push(Frame::ExecList { span, next: (next + 1) as usize }).push(
            Frame::Exec(pre.heap.ast.lists@[span.start + next]),
        )
    } else {
        post == pre
    }
}

/// The text that `print` writes for a value that is no number: `nil`,
/// `true` or `false`, the text of a string, `<fn NAME>` or `<native fn>`
/// for a callable, the name of a class, and `NAME instance` for an instance
/// of the class `NAME`. (The text of a number is the host's.)
pub open spec fn text_of(heap: &Heap, value: Object) -> Seq<char> {
    match value {
        Object::Nil => "nil"@,
        Object::Boolean(b) => if b {
            "true"@
        } else {
            "false"@
        },
        Object::String(s) => s@,
        Object::Callable(LoxCallable::Native { .. }) => "<native fn>"@,
        Object::Callable(LoxCallable::User { name, .. }) => "<fn "@ + heap.ast.text(name) + ">"@,
        Object::Class(c) => heap.classes@[c as int].name@,
        Object::Instance(i) => heap.classes@[heap.instances@[i as int].class as int].name@
            + " instance"@,
        Object::Number(_) => Seq::empty(),
    }
}

/// The text of a number without a trailing `.0`.
pub open spec fn trimmed(text: Seq<char>) -> Seq<char> {
    if text.len() >= 2 && text[text.len() - 2] == '.' && text[text.len() - 1] == '0' {
        text.subrange(0, text.len() - 2)
    } else {
        text
    }
}

/// Dropping the value of an expression statement.
pub open spec fn discarded(pre: Machine, post: Machine, action: Action) -> bool {
    post == pre.take() && action is Continue
}

/// Printing the value. A number goes to the host first, for its text.
pub open spec fn printed(pre: Machine, post: Machine, action: Action) -> bool {
    match pre.value {
        Some(Object::Number(n)) => post == pre.take().push(Frame::Print).ask(
            Request::FormatNumber(n),
        ) && action == Action::Ask(Request::FormatNumber(n)),
        Some(value) => post == pre.take() && (action matches Action::Print(text) && text@
            == text_of(&pre.heap, value)),
        None => false,
    }
}

/// Binding the name of the token `name` to the value, in the current
/// environment.
pub open spec fn variable_defined(pre: Machine, name: usize, post: Machine, action: Action)
    -> bool {
    &&& action is Continue
    &&& pre.value matches Some(value)
    &&& post.heap.with_binding(&pre.heap, pre.environment, pre.heap.ast.text(name), value)
    &&& post == pre.take().on(post.heap)
}

/// Going on with the branch that the value selects.
pub open spec fn branched(
    pre: Machine,
    then_branch: usize,
    else_branch: Option<usize>,
    post: Machine,
    action: Action,
) -> bool {
    &&& action is Continue
    &&& pre.value matches Some(value)
    &&& if value.truthy() {
        post == pre.take().push(Frame::Exec(then_branch))
    } else {
        match else_branch {
            Some(otherwise) => post == pre.take().push(Frame::Exec(otherwise)),
            None => post == pre.take(),
        }
    }
}

/// Running the body of a loop and testing again if the value is truthy,
/// leaving the loop if it is falsy.
pub open spec fn loop_tested(
    pre: Machine,
    condition: usize,
    body: usize,
    post: Machine,
    action: Action,
) -> bool {
    &&& action is Continue
    &&& pre.value matches Some(value)
    &&& if value.truthy() {
        post == pre.take().push(Frame::LoopTest { condition, body }).push(
            Frame::Eval(condition),
        ).push(Frame::Exec(body))
    } else {
        post == pre.take()
    }
}

/// Going back to the environment `environment`.
pub open spec fn restored(pre: Machine, environment: usize, post: Machine, action: Action) -> bool {
    post == pre.enter(environment) && action is Continue
}

/// What `this` is bound to in the environment `closure`.
pub open spec fn this_of(heap: &Heap, closure: usize) -> Object {
    if heap.environments@[closure as int].values@.contains_key("this"@) {
        heap.bound(closure, "this"@)
    } else {
        Object::Nil
    }
}

/// What a call gives back: the instance for an initializer, whatever its
/// body returned; else the value returned.
pub open spec fn call_result(heap: &Heap, closure: usize, is_initializer: bool, returned: Object)
    -> Object {
    if is_initializer {
        this_of(heap, closure)
    } else {
        returned
    }
}

/// The body of a function has come to its end without a `return`: the call
/// gives `nil`, and the environment of the caller is current again.
pub open spec fn call_ended(
    pre: Machine,
    previous: usize,
    closure: usize,
    is_initializer: bool,
    post: Machine,
    action: Action,
) -> bool {
    post == pre.enter(previous).give(call_result(&pre.heap, closure, is_initializer, Object::Nil))
        && action is Continue
}

/// The place of the uppermost of the entries `frames[0..upto)` that a call
/// comes back to.
pub open spec fn call_boundary(frames: Seq<Frame>, upto: int) -> Option<int>
    decreases upto,
{
    if upto <= 0 {
        None
    } else if frames[upto - 1] is CallReturn {
        Some(upto - 1)
    } else {
        call_boundary(frames, upto - 1)
    }
}

/// Returning: the machine begins to leave the stack with the value, entry
/// by entry, until the innermost call ends.
pub open spec fn returned(pre: Machine, post: Machine, action: Action) -> bool {
    &&& action is Continue
    &&& pre.value matches Some(value)
    &&& post == pre.leave(Exit::Return(value))
}

/// Leaving the stack: the uppermost entry is dropped without being done.
/// An entry that stands for going back to an environment still makes that
/// environment current, so that every block and every call that is left
/// leaves the environment as it found it. A `return` ends where a call
/// comes back, which gives the value; a runtime error goes on to the
/// bottom of the stack, where it is handed to the host. A `return` outside
/// any call ends at the bottom too.
pub open spec fn unwound(pre: Machine, exit: Exit, post: Machine, action: Action) -> bool {
    if pre.frames.len() == 0 {
        post == pre.settle() && match exit {
            Exit::Error(error) => action == Action::Error(error),
            Exit::Return(_) => action is Continue,
        }
    } else {
        let rest = pre.pop();
        &&& action is Continue
        &&& match pre.frames.last() {
            Frame::RestoreEnv(environment) => post == rest.enter(environment),
            Frame::CallReturn { previous, closure, is_initializer } => match exit {
                Exit::Return(value) => post == rest.settle().enter(previous).give(
                    call_result(&pre.heap, closure, is_initializer, value),
                ),
                Exit::Error(_) => post == rest.enter(previous),
            },
            _ => post == rest,
        }
    }
}

/// Declaring a class whose superclass is the value, which must be a class.
pub open spec fn superclass_given(
    pre: Machine,
    name: usize,
    methods: Span,
    token: usize,
    post: Machine,
    action: Action,
) -> bool {
    match pre.value {
        Some(Object::Class(parent)) => {
            &&& action is Continue
            &&& class_declared(
                &pre.heap,
                pre.environment,
                name,
                Some(parent),
                methods,
                &post.heap,
            )
            &&& post == pre.take().on(post.heap)
        },
        _ => failed(
                pre,
                RuntimeErrorKind::SuperclassMustBeClass,
                token,
                post,
                action,
            ),
    }
}

/// Reading the variable named by the token `name` for the expression
/// `expr`: at the depth that the resolver found, or else among the globals.
/// A name that is not bound there is a runtime error.
pub open spec fn looked_up(pre: Machine, expr: usize, name: usize, post: Machine, action: Action)
    -> bool {
    let text = pre.heap.ast.text(name);
    match pre.depth(expr) {
        Some(distance) => match pre.heap.found_at(pre.environment, distance as nat, text) {
            Some(value) => post == pre.give(value) && action is Continue,
            None => failed(
                pre,
                RuntimeErrorKind::UndefinedVariable,
                name,
                post,
                action,
            ),
        },
        None => match pre.heap.binder(pre.globals, text) {
            Some(b) => post == pre.give(pre.heap.bound(b, text)) && action is Continue,
            None => failed(
                pre,
                RuntimeErrorKind::UndefinedVariable,
                name,
                post,
                action,
            ),
        },
    }
}

/// The machine has gone on from `pre` with a bound method as its value:
/// the method `method`, closed over a new environment that binds `this` to
/// `object`.
pub open spec fn method_bound(pre: Machine, method: LoxCallable, object: Object, post: Machine)
    -> bool {
    &&& post.heap.with_binding_environment(&pre.heap, method, object)
    &&& post == pre.on(post.heap).give(
        Object::Callable(method.with_closure(pre.heap.environments@.len() as usize)),
    )
}

/// Evaluating `super.method`: the superclass is read at the depth that the
/// resolver found, `this` one environment further in, and the method of the
/// superclass is bound to `this`.
pub open spec fn super_found(
    pre: Machine,
    expr: usize,
    keyword: usize,
    method: usize,
    post: Machine,
    action: Action,
) -> bool {
    let distance: nat = match pre.depth(expr) {
        Some(d) => d as nat,
        None => 0,
    };
    let inner: nat = if distance >= 1 {
        (distance - 1) as nat
    } else {
        0
    };
    let object = pre.heap.at(pre.environment, inner, "this"@);
    match pre.heap.at(pre.environment, distance, "super"@) {
        Object::Class(c) => match pre.heap.method(c, pre.heap.ast.text(method)) {
            Some(found) => method_bound(pre, found, object, post) && action is Continue,
            None => failed(
                pre,
                RuntimeErrorKind::UndefinedProperty,
                method,
                post,
                action,
            ),
        },
        _ => failed(
                pre,
                RuntimeErrorKind::UndefinedVariable,
                keyword,
                post,
                action,
            ),
    }
}

/// The value of a literal.
pub open spec fn constant_given(pre: Machine, value: Constant, post: Machine, action: Action)
    -> bool {
    match value {
        Constant::Nil => post == pre.give(Object::Nil) && action is Continue,
        Constant::Boolean(b) => post == pre.give(Object::Boolean(b)) && action is Continue,
        Constant::OfToken(token) => match pre.heap.ast.tokens@[token as int].literal {
            Literal::String(s) => post == pre.give(Object::String(s)) && action is Continue,
            Literal::Number(_) => post == pre.ask(Request::ParseNumber { token }) && action
                == Action::Ask(Request::ParseNumber { token }),
            Literal::Boolean(b) => post == pre.give(Object::Boolean(b)) && action is Continue,
            Literal::Nil => post == pre.give(Object::Nil) && action is Continue,
        },
    }
}

/// Evaluating the expression `expr` from the state `pre`, which no longer
/// holds the entry for it.
pub open spec fn evaluated(pre: Machine, expr: usize, post: Machine, action: Action) -> bool {
    match pre.heap.ast.exprs@[expr as int] {
        Expr::Literal { value } => constant_given(pre, value, post, action),
        Expr::Grouping { expression } => post == pre.push(Frame::Eval(expression)) && action
            is Continue,
        Expr::Unary { operator, right } => post == pre.push(Frame::Unary(operator)).push(
            Frame::Eval(right),
        ) && action is Continue,
        Expr::Binary { left, operator, right } => post == pre.push(
            Frame::BinaryRight { operator, right },
        ).push(Frame::Eval(left)) && action is Continue,
        Expr::Logical { left, operator, right } => post == pre.push(
            Frame::LogicalRhs { operator, right },
        ).push(Frame::Eval(left)) && action is Continue,
        Expr::Variable { name } => looked_up(pre, expr, name, post, action),
        Expr::This { keyword } => looked_up(pre, expr, keyword, post, action),
        Expr::Assign { name, value } => post == pre.push(Frame::Assign { expr, name }).push(
            Frame::Eval(value),
        ) && action is Continue,
        Expr::Call { callee, paren, arguments } => post == pre.push(
            Frame::CallCheck { paren, arguments },
        ).push(Frame::Eval(callee)) && action is Continue,
        Expr::Get { object, name } => post == pre.push(Frame::GetProp(name)).push(
            Frame::Eval(object),
        ) && action is Continue,
        Expr::SetProperty { object, name, value } => post == pre.push(
            Frame::SetCheck { name, value },
        ).push(Frame::Eval(object)) && action is Continue,
        Expr::Super { keyword, method } => super_found(pre, expr, keyword, method, post, action),
    }
}

/// The machine has met the runtime error `kind` at `token`: nothing is
/// under way any more, and it begins to leave the stack, entry by entry.
pub open spec fn failed(
    pre: Machine,
    kind: RuntimeErrorKind,
    token: usize,
    post: Machine,
    action: Action,
) -> bool {
    post == pre.leave(Exit::Error(RuntimeError { kind, token })) && action is Continue
}

/// Applying a unary operator: `!` gives whether the value is falsy, `-` the
/// negated number.
pub open spec fn unary_applied(pre: Machine, operator: usize, post: Machine, action: Action)
    -> bool {
    &&& pre.value matches Some(value)
    &&& if pre.heap.ast.tokens@[operator as int].token_type == TokenType::Bang {
        post == pre.give(Object::Boolean(!value.truthy())) && action is Continue
    } else {
        match value {
            Object::Number(n) => post == pre.give(Object::Number(n.negated())) && action
                is Continue,
            _ => failed(pre, RuntimeErrorKind::OperandMustBeNumber, operator, post, action),
        }
    }
}

/// The left operand is there: the right one is evaluated next.
pub open spec fn left_given(
    pre: Machine,
    operator: usize,
    right: usize,
    post: Machine,
    action: Action,
) -> bool {
    &&& action is Continue
    &&& pre.value matches Some(left)
    &&& post == pre.take().push(Frame::BinaryApply { operator, left }).push(Frame::Eval(right))
}

/// The arithmetic that an operator asks of the host.
pub open spec fn arithmetic_of(kind: TokenType) -> Option<Arithmetic> {
    match kind {
        TokenType::Minus => Some(Arithmetic::Subtract),
        TokenType::Slash => Some(Arithmetic::Divide),
        TokenType::Star => Some(Arithmetic::Multiply),
        TokenType::Plus => Some(Arithmetic::Add),
        _ => None,
    }
}

/// What a comparison of two numbers gives.
pub open spec fn compared(kind: TokenType, left: crate::util::Number, right: crate::util::Number)
    -> bool {
    match kind {
        TokenType::Greater => right.ieee_lt(left),
        TokenType::GreaterEqual => right.ieee_le(left),
        TokenType::Less => left.ieee_lt(right),
        _ => left.ieee_le(right),
    }
}

/// Applying a binary operator to `left` and the value. Arithmetic on two
/// numbers is asked of the host; `+` joins two strings; the comparisons
/// want two numbers; `==` and `!=` take any two values.
pub open spec fn binary_applied(
    pre: Machine,
    operator: usize,
    left: Object,
    post: Machine,
    action: Action,
) -> bool {
    let kind = pre.heap.ast.tokens@[operator as int].token_type;
    &&& pre.value matches Some(right)
    &&& match kind {
        TokenType::Minus | TokenType::Slash | TokenType::Star | TokenType::Plus => match (
            left,
            right,
        ) {
            (Object::Number(a), Object::Number(b)) => {
                let request = Request::Arithmetic {
                    operator: arithmetic_of(kind).unwrap(),
                    left: a,
                    right: b,
                };
                post == pre.take().ask(request) && action == Action::Ask(request)
            },
            (Object::String(a), Object::String(b)) => if kind == TokenType::Plus {
                &&& action is Continue
                &&& post.value matches Some(Object::String(joined))
                &&& joined@ == a@ + b@
                &&& post == pre.give(post.value.unwrap())
            } else {
                failed(pre, RuntimeErrorKind::OperandsMustBeNumbers, operator, post, action)
            },
            _ => if kind == TokenType::Plus {
                failed(
                    pre,
                    RuntimeErrorKind::OperandsMustBeNumbersOrStrings,
                    operator,
                    post,
                    action,
                )
            } else {
                failed(pre, RuntimeErrorKind::OperandsMustBeNumbers, operator, post, action)
            },
        },
        TokenType::Greater | TokenType::GreaterEqual | TokenType::Less | TokenType::LessEqual
        => match (left, right) {
            (Object::Number(a), Object::Number(b)) => post == pre.give(
                Object::Boolean(compared(kind, a, b)),
            ) && action is Continue,
            _ => failed(pre, RuntimeErrorKind::OperandsMustBeNumbers, operator, post, action),
        },
        TokenType::BangEqual => post == pre.give(Object::Boolean(!left.equals(right))) && action
            is Continue,
        _ => post == pre.give(Object::Boolean(left.equals(right))) && action is Continue,
    }
}

/// Whether the left operand of `and` or `or` decides the result: a truthy
/// one for `or`, a falsy one for `and`.
pub open spec fn short_circuits(kind: TokenType, left: Object) -> bool {
    if kind == TokenType::Or {
        left.truthy()
    } else {
        !left.truthy()
    }
}

/// `and` and `or`: where the left operand decides, it is the result and
/// the right operand is not evaluated; else the right operand is the
/// result.
pub open spec fn logical_decided(
    pre: Machine,
    operator: usize,
    right: usize,
    post: Machine,
    action: Action,
) -> bool {
    &&& action is Continue
    &&& pre.value matches Some(left)
    &&& if short_circuits(pre.heap.ast.tokens@[operator as int].token_type, left) {
        post == pre
    } else {
        post == pre.take().push(Frame::Eval(right))
    }
}

/// Assigning the value to the variable of the expression `expr`: at the
/// depth that the resolver found, or else among the globals, where the
/// variable must exist. The value stays the result.
pub open spec fn assigned(pre: Machine, expr: usize, name: usize, post: Machine, action: Action)
    -> bool {
    let text = pre.heap.ast.text(name);
    &&& pre.value matches Some(value)
    &&& match pre.depth(expr) {
        Some(distance) => action is Continue && match pre.heap.ancestor(
            pre.environment,
            distance as nat,
        ) {
            Some(a) => post.heap.with_binding(&pre.heap, a, text, value) && post == pre.on(
                post.heap,
            ),
            None => post == pre,
        },
        None => match pre.heap.binder(pre.globals, text) {
            Some(b) => action is Continue && post.heap.with_binding(&pre.heap, b, text, value)
                && post == pre.on(post.heap),
            None => failed(pre, RuntimeErrorKind::UndefinedVariable, name, post, action),
        },
    }
}

/// Reading the property named by the token `name` of the value, which must
/// be an instance.
pub open spec fn property_read(pre: Machine, name: usize, post: Machine, action: Action) -> bool {
    let text = pre.heap.ast.text(name);
    match pre.value {
        Some(Object::Instance(i)) => {
            let object = pre.heap.instances@[i as int];
            if object.fields@.contains_key(text) {
                post == pre.give(object.fields@[text]) && action is Continue
            } else {
                match pre.heap.method(object.class, text) {
                    Some(method) => method_bound(pre, method, Object::Instance(i), post)
                        && action is Continue,
                    None => failed(pre, RuntimeErrorKind::UndefinedProperty, name, post, action),
                }
            }
        },
        Some(_) => failed(pre, RuntimeErrorKind::OnlyInstancesHaveProperties, name, post, action),
        None => false,
    }
}

/// The object of a store is there and must be an instance: the value to
/// store is evaluated next.
pub open spec fn store_checked(
    pre: Machine,
    name: usize,
    value: usize,
    post: Machine,
    action: Action,
) -> bool {
    match pre.value {
        Some(Object::Instance(instance)) => post == pre.take().push(
            Frame::SetProp { instance, name },
        ).push(Frame::Eval(value)) && action is Continue,
        Some(_) => failed(pre, RuntimeErrorKind::OnlyInstancesHaveFields, name, post, action),
        None => false,
    }
}

/// Storing the value in a field of the instance. The value stays the
/// result.
pub open spec fn stored(pre: Machine, instance: usize, name: usize, post: Machine, action: Action)
    -> bool {
    &&& action is Continue
    &&& pre.value matches Some(value)
    &&& post.heap.with_field(&pre.heap, instance, pre.heap.ast.text(name), value)
    &&& post == pre.on(post.heap)
}

/// The bindings of the first `upto` parameters of the run `params` to the
/// arguments `arguments`.
pub open spec fn bindings(ast: &Ast, params: Span, arguments: Seq<Object>, upto: nat) -> Map<
    Seq<char>,
    Object,
>
    decreases upto,
{
    if upto == 0 {
        Map::empty()
    } else {
        bindings(ast, params, arguments, (upto - 1) as nat).insert(
            ast.text(ast.lists@[params.start + upto - 1]),
            arguments[upto - 1],
        )
    }
}

/// Entering a function of the program: a new environment inside the
/// function's closure binds the parameters to the arguments and becomes
/// current, and the body is what is to be done next; behind it the call
/// comes back to the environment of the caller.
pub open spec fn entered(
    pre: Machine,
    params: Span,
    body: Span,
    closure: usize,
    is_initializer: bool,
    arguments: Seq<Object>,
    post: Machine,
) -> bool {
    &&& post.heap.with_new_environment(
        &pre.heap,
        Some(closure),
        bindings(&pre.heap.ast, params, arguments, params.len as nat),
    )
    &&& post == pre.on(post.heap).enter(pre.heap.environments@.len() as usize).push(
        Frame::CallReturn { previous: pre.environment, closure, is_initializer },
    ).push(Frame::ExecList { span: body, next: 0 })
}

/// What calling a class with an initializer does to the heap. There is one
/// more instance, of the class and without fields, and there are two more
/// environments: the first binds `this` to the instance, inside the closure
/// of the initializer; the second binds the parameters to the arguments,
/// inside the first.
pub open spec fn initializing(
    pre: &Heap,
    class: usize,
    closure: usize,
    params: Span,
    arguments: Seq<Object>,
    post: &Heap,
) -> bool {
    let instance = pre.instances@.len() as usize;
    let bound = pre.environments@.len() as int;
    &&& post.ast == pre.ast
    &&& post.classes == pre.classes
    &&& post.instances@.len() == pre.instances@.len() + 1
    &&& post.instances@.drop_last() == pre.instances@
    &&& post.instances@.last().class == class
    &&& post.instances@.last().fields@ == Map::<Seq<char>, Object>::empty()
    &&& post.environments@.len() == pre.environments@.len() + 2
    &&& post.environments@.subrange(0, bound) == pre.environments@
    &&& post.environments@[bound].enclosing == Some(closure)
    &&& post.environments@[bound].values@ == Map::<Seq<char>, Object>::empty().insert(
        "this"@,
        Object::Instance(instance),
    )
    &&& post.environments@[bound + 1].enclosing == Some(bound as usize)
    &&& post.environments@[bound + 1].values@ == bindings(
        &pre.ast,
        params,
        arguments,
        params.len as nat,
    )
}

/// Calling `callee` with `arguments`. The number of arguments must be the
/// arity of the callable. A call of the clock is asked of the host; a call
/// of a function of the program enters it. A call of a class makes an
/// instance; if the class has an initializer, it is bound to the instance
/// and entered with the arguments, and its arity is the one that counts;
/// if not, the instance is the result at once.
pub open spec fn invoked(
    pre: Machine,
    paren: usize,
    callee: Object,
    arguments: Seq<Object>,
    post: Machine,
    action: Action,
) -> bool {
    match callee {
        Object::Callable(LoxCallable::Native { arity, function }) => if arguments.len() != arity {
            failed(
                pre,
                RuntimeErrorKind::WrongArity { expected: arity, got: arguments.len() as usize },
                paren,
                post,
                action,
            )
        } else {
            post == pre.ask(Request::Clock) && action == Action::Ask(Request::Clock)
        },
        Object::Callable(LoxCallable::User { name, params, body, closure, is_initializer }) => {
            if arguments.len() != params.len {
                failed(
                    pre,
                    RuntimeErrorKind::WrongArity {
                        expected: params.len,
                        got: arguments.len() as usize,
                    },
                    paren,
                    post,
                    action,
                )
            } else {
                entered(pre, params, body, closure, is_initializer, arguments, post) && action
                    is Continue
            }
        },
        Object::Class(class) => {
            let instance = pre.heap.instances@.len() as usize;
            match pre.heap.method(class, "init"@) {
                Some(LoxCallable::User { name, params, body, closure, is_initializer }) => {
                    if arguments.len() != params.len {
                        &&& post.heap.with_new_instance(&pre.heap, class)
                        &&& failed(
                            pre.on(post.heap),
                            RuntimeErrorKind::WrongArity {
                                expected: params.len,
                                got: arguments.len() as usize,
                            },
                            paren,
                            post,
                            action,
                        )
                    } else {
                        let bound = pre.heap.environments@.len() as usize;
                        &&& action is Continue
                        &&& initializing(&pre.heap, class, closure, params, arguments, &post.heap)
                        &&& post == pre.on(post.heap).enter((bound + 1) as usize).push(
                            Frame::CallReturn {
                                previous: pre.environment,
                                closure: bound,
                                is_initializer,
                            },
                        ).push(Frame::ExecList { span: body, next: 0 })
                    }
                },
                _ => post.heap.with_new_instance(&pre.heap, class) && post == pre.on(
                    post.heap,
                ).give(Object::Instance(instance)) && action is Continue,
            }
        },
        _ => failed(pre, RuntimeErrorKind::NotCallable, paren, post, action),
    }
}

/// The machine has gone on from `pre` to evaluate the expression `next`,
/// with an entry below it that collects the arguments of a call and has got
/// `done` so far.
pub open spec fn collecting(
    pre: Machine,
    paren: usize,
    callee: Object,
    arguments: Span,
    done: Seq<Object>,
    next: usize,
    post: Machine,
) -> bool {
    let n = pre.frames.len() as int;
    &&& post.frames.len() == n + 2
    &&& post.frames.subrange(0, n) == pre.frames
    &&& post.frames[n].is_argument(paren, callee, arguments, done)
    &&& post.frames[n + 1] == Frame::Eval(next)
    &&& post == (Machine { frames: post.frames, ..pre })
}

/// The callee is there and must be a callable or a class: its arguments
/// are evaluated next, from left to right, or it is called at once if there
/// are none.
pub open spec fn callee_checked(
    pre: Machine,
    paren: usize,
    arguments: Span,
    post: Machine,
    action: Action,
) -> bool {
    &&& pre.value matches Some(callee)
    &&& if callee is Callable || callee is Class {
        if arguments.len == 0 {
            invoked(pre.take(), paren, callee, Seq::empty(), post, action)
        } else {
            collecting(
                pre.take(),
                paren,
                callee,
                arguments,
                Seq::empty(),
                pre.heap.ast.lists@[arguments.start as int],
                post,
            ) && action is Continue
        }
    } else {
        failed(pre, RuntimeErrorKind::NotCallable, paren, post, action)
    }
}

/// The next argument is there: the one after it is evaluated, or the call
/// is made if it was the last.
pub open spec fn argument_given(
    pre: Machine,
    paren: usize,
    callee: Object,
    arguments: Span,
    done: Seq<Object>,
    post: Machine,
    action: Action,
) -> bool {
    &&& pre.value matches Some(argument)
    &&& if done.len() + 1 < arguments.len {
        collecting(
            pre.take(),
            paren,
            callee,
            arguments,
            done.push(argument),
            pre.heap.ast.lists@[arguments.start + done.len() + 1],
            post,
        ) && action is Continue
    } else {
        invoked(pre.take(), paren, callee, done.push(argument), post, action)
    }
}

/// One step of the machine. While a request is open the machine waits and
/// asks again. While it is leaving the stack, it leaves one entry. Else the
/// uppermost entry of the stack is taken off and what it stands for is
/// done; with an empty stack nothing is left to do.
pub open spec fn stepped(pre: Machine, post: Machine, action: Action) -> bool {
    match pre.pending {
        Some(request) => post == pre && action == Action::Ask(request),
        None => if pre.leaving is Some {
            unwound(pre, pre.leaving->Some_0, post, action)
        } else if pre.frames.len() == 0 {
            post == pre && action is Done
        } else {
            let rest = pre.pop();
            match pre.frames.last() {
                Frame::Exec(stmt) => executed(rest, stmt, post, action),
                Frame::ExecList { span, next } => listed(rest, span, next, post, action),
                Frame::RestoreEnv(environment) => restored(rest, environment, post, action),
                Frame::Discard => discarded(rest, post, action),
                Frame::Print => printed(rest, post, action),
                Frame::DefineVar(name) => variable_defined(rest, name, post, action),
                Frame::Branch { then_branch, else_branch } => branched(
                    rest,
                    then_branch,
                    else_branch,
                    post,
                    action,
                ),
                Frame::LoopTest { condition, body } => loop_tested(
                    rest,
                    condition,
                    body,
                    post,
                    action,
                ),
                Frame::Return => returned(rest, post, action),
                Frame::ClassSuper { name, methods, token } => superclass_given(
                    rest,
                    name,
                    methods,
                    token,
                    post,
                    action,
                ),
                Frame::CallReturn { previous, closure, is_initializer } => call_ended(
                    rest,
                    previous,
                    closure,
                    is_initializer,
                    post,
                    action,
                ),
                Frame::Eval(expr) => evaluated(rest, expr, post, action),
                Frame::Unary(operator) => unary_applied(rest, operator, post, action),
                Frame::BinaryRight { operator, right } => left_given(
                    rest,
                    operator,
                    right,
                    post,
                    action,
                ),
                Frame::BinaryApply { operator, left } => binary_applied(
                    rest,
                    operator,
                    left,
                    post,
                    action,
                ),
                Frame::LogicalRhs { operator, right } => logical_decided(
                    rest,
                    operator,
                    right,
                    post,
                    action,
                ),
                Frame::Assign { expr, name } => assigned(rest, expr, name, post, action),
                Frame::GetProp(name) => property_read(rest, name, post, action),
                Frame::SetCheck { name, value } => store_checked(rest, name, value, post, action),
                Frame::SetProp { instance, name } => stored(rest, instance, name, post, action),
                Frame::CallCheck { paren, arguments } => callee_checked(
                    rest,
                    paren,
                    arguments,
                    post,
                    action,
                ),
                Frame::Argument { paren, callee, arguments, done } => argument_given(
                    rest,
                    paren,
                    callee,
                    arguments,
                    done@,
                    post,
                    action,
                ),
            }
        },
    }
}

/// Whether a request is answered with a number.
pub open spec fn wants_number(request: Request) -> bool {
    !(request is FormatNumber)
}

/// The host's answer to a request for a number: the number is the value
/// that was asked for.
pub open spec fn number_replied(
    pre: Machine,
    number: crate::util::Number,
    post: Machine,
    accepted: bool,
) -> bool {
    match pre.pending {
        Some(request) => if wants_number(request) {
            accepted && post == (Machine {
                pending: None,
                value: Some(Object::Number(number)),
                ..pre
            })
        } else {
            !accepted && post == pre
        },
        None => !accepted && post == pre,
    }
}

/// The host's answer to a request for the text of a number: the text,
/// without a trailing `.0`, is the value that was asked for.
pub open spec fn text_replied(pre: Machine, text: Seq<char>, post: Machine, accepted: bool)
    -> bool {
    match pre.pending {
        Some(Request::FormatNumber(_)) => {
            &&& accepted
            &&& post.value matches Some(Object::String(s))
            &&& s@ == trimmed(text)
            &&& post == (Machine { pending: None, value: post.value, ..pre })
        },
        _ => !accepted && post == pre,
    }
}

} // verus!
