use crate::ast::{span_below, Ast};
use crate::expr::{Expr, Span};
use crate::stmt::Stmt;
use vstd::prelude::*;

verus! {

/// What kind of function body is being resolved.
#[derive(PartialEq, Eq, Structural, Clone, Copy, Debug)]
pub enum FunctionType {
    Outside,
    Function,
    Initializer,
    Method,
}

/// What kind of class body is being resolved.
#[derive(PartialEq, Eq, Structural, Clone, Copy, Debug)]
pub enum ClassType {
    Outside,
    Class,
    Subclass,
}

/// What the resolver can find wrong with a program.
#[derive(PartialEq, Eq, Structural, Clone, Copy, Debug)]
pub enum StaticError {
    AlreadyDeclared,
    ReadInOwnInitializer,
    ReturnAtTopLevel,
    ReturnValueFromInitializer,
    ThisOutsideClass,
    SuperOutsideClass,
    SuperWithoutSuperclass,
    InheritFromSelf,
}

/// A static error and the token it was found at.
#[derive(Clone, Copy, Debug, PartialEq, Eq)]
pub struct ResolveDiagnostic {
    pub token: usize,
    pub kind: StaticError,
}

/// The scope of a variable use: the binding that the expression `expr`
/// refers to lies `depth` scopes outside the innermost one.
#[derive(Clone, Copy, Debug, PartialEq, Eq)]
pub struct Resolution {
    pub expr: usize,
    pub depth: usize,
}

/// A lexical scope: the names declared in it, each with whether its
/// initializer is done.
pub type Scope = Map<Seq<char>, bool>;

/// What resolving has got to: the stack of open scopes, innermost last; the
/// kinds of the function and class being resolved; and what was recorded so
/// far.
pub struct RState {
    pub scopes: Seq<Scope>,
    pub current_function: FunctionType,
    pub current_class: ClassType,
    pub resolutions: Seq<Resolution>,
    pub errors: Seq<ResolveDiagnostic>,
}

/// The index of the innermost of the scopes `scopes[0..upto)` that declares
/// `name`.
pub open spec fn innermost(scopes: Seq<Scope>, name: Seq<char>, upto: int) -> Option<int>
    decreases upto,
{
    if upto <= 0 {
        None
    } else if scopes[upto - 1].contains_key(name) {
        Some(upto - 1)
    } else {
        innermost(scopes, name, upto - 1)
    }
}

impl RState {
    /// With one more scope, which declares nothing.
    pub open spec fn begin_scope(self) -> RState {
        RState { scopes: self.scopes.push(Map::empty()), ..self }
    }

    /// Without the innermost scope.
    pub open spec fn end_scope(self) -> RState {
        if self.scopes.len() > 0 {
            RState { scopes: self.scopes.drop_last(), ..self }
        } else {
            self
        }
    }

    /// With `name` bound in the innermost scope, if a scope is open.
    pub open spec fn bind(self, name: Seq<char>, ready: bool) -> RState {
        if self.scopes.len() > 0 {
            RState {
                scopes: self.scopes.update(
                    self.scopes.len() - 1,
                    self.scopes.last().insert(name, ready),
                ),
                ..self
            }
        } else {
            self
        }
    }

    /// With one more error, found at `token`.
    pub open spec fn report(self, token: usize, kind: StaticError) -> RState {
        RState { errors: self.errors.push(ResolveDiagnostic { token, kind }), ..self }
    }

    /// A name is declared where its declaration starts: it is in scope, and
    /// not yet ready to be read. Declaring it twice in one scope is an error;
    /// at top level nothing is kept.
    pub open spec fn declare(self, ast: &Ast, token: usize) -> RState {
        let name = ast.text(token);
        if self.scopes.len() == 0 {
            self
        } else if self.scopes.last().contains_key(name) {
            self.report(token, StaticError::AlreadyDeclared).bind(name, false)
        } else {
            self.bind(name, false)
        }
    }

    /// A name is defined once its initializer is done.
    pub open spec fn define(self, ast: &Ast, token: usize) -> RState {
        self.bind(ast.text(token), true)
    }

    /// Records how far out the binding of `name` lies for the expression
    /// `expr`: the number of scopes between the innermost scope and the
    /// innermost one that declares the name. A name that no open scope
    /// declares is global, and nothing is recorded.
    pub open spec fn resolve_local(self, expr: usize, name: Seq<char>) -> RState {
        match innermost(self.scopes, name, self.scopes.len() as int) {
            Some(index) => RState {
                resolutions: self.resolutions.push(
                    Resolution { expr, depth: (self.scopes.len() - 1 - index) as usize },
                ),
                ..self
            },
            None => self,
        }
    }

    /// Every error found so far is reported at a token of the tree, and
    /// every depth is recorded for an expression of the tree.
    pub open spec fn within(self, ast: &Ast) -> bool {
        &&& forall|i: int|
            0 <= i < self.errors.len() ==> (#[trigger] self.errors[i]).token < ast.tokens@.len()
        &&& forall|i: int|
            0 <= i < self.resolutions.len() ==> (#[trigger] self.resolutions[i]).expr
                < ast.exprs@.len()
    }

    /// Inside a function of kind `kind`.
    pub open spec fn in_function(self, kind: FunctionType) -> RState {
        RState { current_function: kind, ..self }
    }

    /// Inside a class of kind `kind`.
    pub open spec fn in_class(self, kind: ClassType) -> RState {
        RState { current_class: kind, ..self }
    }
}

/// What `innermost` finds is a scope that declares the name, and no scope
/// further in does.
pub proof fn lemma_innermost(scopes: Seq<Scope>, name: Seq<char>, upto: int)
    requires
        0 <= upto <= scopes.len(),
    ensures
        match innermost(scopes, name, upto) {
            Some(index) => 0 <= index < upto && scopes[index].contains_key(name) && forall|j: int|
                index < j < upto ==> !(#[trigger] scopes[j]).contains_key(name),
            None => forall|j: int| 0 <= j < upto ==> !(#[trigger] scopes[j]).contains_key(name),
        },
    decreases upto,
{
    if upto > 0 && !scopes[upto - 1].contains_key(name) {
        lemma_innermost(scopes, name, upto - 1);
    }
}

/// What the resolver records for a use of `name` is the depth of a scope
/// that declares the name: the scope that many scopes out from the
/// innermost one declares it, and no scope further in does. Where no open
/// scope declares the name, nothing is recorded.
pub proof fn lemma_recorded_depth(s: RState, expr: usize, name: Seq<char>)
    requires
        s.scopes.len() <= usize::MAX,
    ensures
        ({
            let after = s.resolve_local(expr, name);
            let count = s.scopes.len() as int;
            if exists|j: int| 0 <= j < count && (#[trigger] s.scopes[j]).contains_key(name) {
                &&& after.resolutions.len() == s.resolutions.len() + 1
                &&& after.resolutions.last().expr == expr
                &&& ({
                    let depth = after.resolutions.last().depth as int;
                    &&& 0 <= depth < count
                    &&& s.scopes[count - 1 - depth].contains_key(name)
                    &&& forall|d: int|
                        0 <= d < depth ==> !(#[trigger] s.scopes[count - 1 - d]).contains_key(name)
                })
            } else {
                after == s
            }
        }),
{
    lemma_innermost(s.scopes, name, s.scopes.len() as int);
    let count = s.scopes.len() as int;
    match innermost(s.scopes, name, count) {
        Some(index) => {
            let depth = count - 1 - index;
            assert forall|d: int| 0 <= d < depth implies !(#[trigger] s.scopes[count - 1
                - d]).contains_key(name) by {
                let j = count - 1 - d;
                assert(index < j < count);
            }
        },
        None => {},
    }
}

/// Resolving the expression `id`.
pub open spec fn spec_resolve_expr(ast: &Ast, s: RState, id: usize) -> RState
    decreases 0int, id, 1int, 0int,
    when ast.wf() && id < ast.exprs@.len()
{
    proof {
        ast.lemma_expr_fits(id as int);
    }
    match ast.exprs@[id as int] {
        Expr::Variable { name } => {
            let text = ast.text(name);
            let checked = if s.scopes.len() > 0 && s.scopes.last().contains_key(text)
                && !s.scopes.last()[text] {
                s.report(name, StaticError::ReadInOwnInitializer)
            } else {
                s
            };
            checked.resolve_local(id, text)
        },
        Expr::Assign { name, value } => {
            let text = ast.text(name);
            let valued = spec_resolve_expr(ast, s, value);
            let checked = if valued.scopes.len() > 0 && valued.scopes.last().contains_key(text)
                && !valued.scopes.last()[text] {
                valued.report(name, StaticError::ReadInOwnInitializer)
            } else {
                valued
            };
            checked.resolve_local(id, text)
        },
        Expr::Binary { left, operator, right } => spec_resolve_expr(
            ast,
            spec_resolve_expr(ast, s, left),
            right,
        ),
        Expr::Logical { left, operator, right } => spec_resolve_expr(
            ast,
            spec_resolve_expr(ast, s, left),
            right,
        ),
        Expr::Call { callee, paren, arguments } => spec_resolve_exprs(
            ast,
            spec_resolve_expr(ast, s, callee),
            arguments,
            0,
            id,
        ),
        Expr::Get { object, name } => spec_resolve_expr(ast, s, object),
        Expr::SetProperty { object, name, value } => spec_resolve_expr(
            ast,
            spec_resolve_expr(ast, s, value),
            object,
        ),
        Expr::Super { keyword, method } => {
            let checked = if s.current_class == ClassType::Outside {
                s.report(keyword, StaticError::SuperOutsideClass)
            } else if s.current_class != ClassType::Subclass {
                s.report(keyword, StaticError::SuperWithoutSuperclass)
            } else {
                s
            };
            checked.resolve_local(id, ast.text(keyword))
        },
        Expr::This { keyword } => if s.current_class == ClassType::Outside {
            s.report(keyword, StaticError::ThisOutsideClass)
        } else {
            s.resolve_local(id, ast.text(keyword))
        },
        Expr::Grouping { expression } => spec_resolve_expr(ast, s, expression),
        Expr::Literal { value } => s,
        Expr::Unary { operator, right } => spec_resolve_expr(ast, s, right),
    }
}

/// Resolving the expressions of the run `span` from its `i`-th on, in order.
pub open spec fn spec_resolve_exprs(ast: &Ast, s: RState, span: Span, i: nat, bound: usize)
    -> RState
    decreases 0int, bound, 0int, span.len - i,
    when span_below(ast.lists@, span, bound as int)
{
    if i < span.len {
        spec_resolve_exprs(
            ast,
            spec_resolve_expr(ast, s, ast.lists@[span.start + i]),
            span,
            i + 1,
            bound,
        )
    } else {
        s
    }
}

/// Declaring and defining the parameters of the run `span` from its `i`-th
/// on.
pub open spec fn spec_resolve_params(ast: &Ast, s: RState, span: Span, i: nat) -> RState
    decreases span.len - i,
{
    if i < span.len {
        let token = ast.lists@[span.start + i];
        spec_resolve_params(ast, s.declare(ast, token).define(ast, token), span, i + 1)
    } else {
        s
    }
}

/// The kind of a method by its name: `init` is the initializer.
pub open spec fn method_kind(name: Seq<char>) -> FunctionType {
    if name == "init"@ {
        FunctionType::Initializer
    } else {
        FunctionType::Method
    }
}

/// Resolving a function: its parameters and its body in a scope of their
/// own, as a function of kind `kind`.
pub open spec fn spec_resolve_function(
    ast: &Ast,
    s: RState,
    params: Span,
    body: Span,
    kind: FunctionType,
    bound: usize,
) -> RState
    decreases 1int, bound, 0int, body.len + 1,
    when span_below(ast.lists@, body, bound as int)
{
    let inside = spec_resolve_params(ast, s.in_function(kind).begin_scope(), params, 0);
    spec_resolve_stmts(ast, inside, body, 0, bound).end_scope().in_function(s.current_function)
}

/// Resolving the methods of the run `span` from its `i`-th on.
pub open spec fn spec_resolve_methods(ast: &Ast, s: RState, span: Span, i: nat, bound: usize)
    -> RState
    decreases 1int, bound, 0int, span.len - i,
    when ast.wf() && span_below(ast.lists@, span, bound as int) && bound <= ast.stmts@.len()
{
    if i < span.len {
        let method = ast.lists@[span.start + i];
        proof {
            ast.lemma_stmt_fits(method as int);
        }
        let resolved = match ast.stmts@[method as int] {
            Stmt::Function { name, params, body } => spec_resolve_function(
                ast,
                s,
                params,
                body,
                method_kind(ast.text(name)),
                method,
            ),
            _ => s,
        };
        spec_resolve_methods(ast, resolved, span, i + 1, bound)
    } else {
        s
    }
}

/// Whether the class named by the token `name` names itself as superclass.
pub open spec fn inherits_from_itself(ast: &Ast, name: usize, superclass: usize) -> bool {
    superclass < ast.exprs@.len() && match ast.exprs@[superclass as int] {
        Expr::Variable { name: parent } => ast.text(name) == ast.text(parent),
        _ => false,
    }
}

/// The token of the superclass expression, where an error on it is reported.
pub open spec fn superclass_token(ast: &Ast, superclass: usize) -> usize {
    match ast.exprs@[superclass as int] {
        Expr::Variable { name } => name,
        _ => 0,
    }
}

/// Resolving a class declaration: its name, its superclass, and its methods
/// in a scope that holds `this`, inside one that holds `super` if the class
/// has a superclass.
pub open spec fn spec_resolve_class(
    ast: &Ast,
    s: RState,
    name: usize,
    superclass: Option<usize>,
    methods: Span,
    bound: usize,
) -> RState
    decreases 1int, bound, 0int, methods.len + 1,
    when ast.wf() && span_below(ast.lists@, methods, bound as int) && bound <= ast.stmts@.len()
{
    let named = s.in_class(ClassType::Class).declare(ast, name).define(ast, name);
    let opened = match superclass {
        Some(parent) => {
            let checked = if inherits_from_itself(ast, name, parent) {
                named.report(superclass_token(ast, parent), StaticError::InheritFromSelf)
            } else {
                named
            };
            spec_resolve_expr(ast, checked.in_class(ClassType::Subclass), parent).begin_scope()
                .bind("super"@, true)
        },
        None => named,
    };
    let done = spec_resolve_methods(
        ast,
        opened.begin_scope().bind("this"@, true),
        methods,
        0,
        bound,
    ).end_scope();
    let closed = if superclass is Some {
        done.end_scope()
    } else {
        done
    };
    closed.in_class(s.current_class)
}

/// Resolving the statement `id`.
pub open spec fn spec_resolve_stmt(ast: &Ast, s: RState, id: usize) -> RState
    decreases 1int, id, 1int, 0int,
    when ast.wf() && id < ast.stmts@.len()
{
    proof {
        ast.lemma_stmt_fits(id as int);
    }
    match ast.stmts@[id as int] {
        Stmt::Block { statements } => spec_resolve_stmts(
            ast,
            s.begin_scope(),
            statements,
            0,
            id,
        ).end_scope(),
        Stmt::Class { name, superclass, methods } => spec_resolve_class(
            ast,
            s,
            name,
            superclass,
            methods,
            id,
        ),
        Stmt::Var { name, initializer } => {
            let declared = s.declare(ast, name);
            let initialized = match initializer {
                Some(value) => spec_resolve_expr(ast, declared, value),
                None => declared,
            };
            initialized.define(ast, name)
        },
        Stmt::Function { name, params, body } => spec_resolve_function(
            ast,
            s.declare(ast, name).define(ast, name),
            params,
            body,
            FunctionType::Function,
            id,
        ),
        Stmt::Expression { expression } => spec_resolve_expr(ast, s, expression),
        Stmt::If { condition, then_branch, else_branch } => {
            let then = spec_resolve_stmt(ast, spec_resolve_expr(ast, s, condition), then_branch);
            match else_branch {
                Some(otherwise) => spec_resolve_stmt(ast, then, otherwise),
                None => then,
            }
        },
        Stmt::Print { expression } => spec_resolve_expr(ast, s, expression),
        Stmt::Return { keyword, value } => {
            let checked = if s.current_function == FunctionType::Outside {
                s.report(keyword, StaticError::ReturnAtTopLevel)
            } else {
                s
            };
            match value {
                Some(expression) => if checked.current_function == FunctionType::Initializer {
                    checked.report(keyword, StaticError::ReturnValueFromInitializer)
                } else {
                    spec_resolve_expr(ast, checked, expression)
                },
                None => checked,
            }
        },
        Stmt::While { condition, body } => spec_resolve_stmt(
            ast,
            spec_resolve_expr(ast, s, condition),
            body,
        ),
    }
}

/// Resolving the statements of the run `span` from its `i`-th on, in order.
pub open spec fn spec_resolve_stmts(ast: &Ast, s: RState, span: Span, i: nat, bound: usize)
    -> RState
    decreases 1int, bound, 0int, span.len - i,
    when span_below(ast.lists@, span, bound as int)
{
    if i < span.len {
        spec_resolve_stmts(
            ast,
            spec_resolve_stmt(ast, s, ast.lists@[span.start + i]),
            span,
            i + 1,
            bound,
        )
    } else {
        s
    }
}

/// Resolving the statements `statements` from the `i`-th on, in order.
pub open spec fn spec_resolve_program(ast: &Ast, s: RState, statements: Seq<usize>, i: nat)
    -> RState
    decreases statements.len() - i,
{
    if i < statements.len() {
        spec_resolve_program(ast, spec_resolve_stmt(ast, s, statements[i as int]), statements, i + 1)
    } else {
        s
    }
}

} // verus!
