use crate::ast::{span_below, Ast};
use crate::dict::Dict;
use crate::expr::{Expr, Span};
use crate::scopes::{
    innermost, spec_resolve_class, spec_resolve_expr, spec_resolve_exprs, spec_resolve_function,
    spec_resolve_methods, spec_resolve_params, spec_resolve_program, spec_resolve_stmt,
    spec_resolve_stmts, ClassType, FunctionType, RState, Resolution, ResolveDiagnostic, Scope,
    StaticError,
};
use crate::stmt::Stmt;
use vstd::prelude::*;
use vstd::string::*;

verus! {

/// The static pass between parsing and running: it walks the syntax tree
/// once, keeps the stack of lexical scopes, records for each use of a local
/// variable how many scopes out its binding lies, and reports what is wrong
/// with the program as it stands.
pub struct Resolver {
    pub scopes: Vec<Dict<bool>>,
    pub current_function: FunctionType,
    pub current_class: ClassType,
    pub resolutions: Vec<Resolution>,
    pub errors: Vec<ResolveDiagnostic>,
}

impl Resolver {
    /// Every open scope is a well-formed map.
    pub open spec fn wf(&self) -> bool {
        forall|i: int| 0 <= i < self.scopes@.len() ==> (#[trigger] self.scopes@[i]).wf()
    }

    /// The open scopes as maps, innermost last.
    pub open spec fn scopes_view(&self) -> Seq<Scope> {
        Seq::new(self.scopes@.len(), |i: int| self.scopes@[i]@)
    }

    /// What resolving has got to.
    pub open spec fn state(&self) -> RState {
        RState {
            scopes: self.scopes_view(),
            current_function: self.current_function,
            current_class: self.current_class,
            resolutions: self.resolutions@,
            errors: self.errors@,
        }
    }

    /// The resolver is well formed and has got to `state`.
    pub open spec fn at(&self, state: RState) -> bool {
        self.wf() && self.state() == state
    }

    /// The resolver is well formed, reports its errors at tokens of `ast`,
    /// and has got to `state`.
    pub open spec fn arrived(&self, ast: &Ast, state: RState) -> bool {
        self.at(state) && state.within(ast)
    }

    /// The resolver is well formed and reports its errors at tokens of
    /// `ast`.
    pub open spec fn ready(&self, ast: &Ast) -> bool {
        self.wf() && self.state().within(ast)
    }

    /// A resolver at top level, with nothing recorded.
    pub fn new() -> (r: Self)
        ensures
            r.wf(),
            r.state().scopes.len() == 0,
            r.state().current_function == FunctionType::Outside,
            r.state().current_class == ClassType::Outside,
            r.state().resolutions.len() == 0,
            r.state().errors.len() == 0,
    {
        Resolver {
            scopes: Vec::new(),
            current_function: FunctionType::Outside,
            current_class: ClassType::Outside,
            resolutions: Vec::new(),
            errors: Vec::new(),
        }
    }

    fn begin_scope(&mut self)
        requires
            old(self).wf(),
        ensures
            final(self).at(old(self).state().begin_scope()),
    {
        self.scopes.push(Dict::new());
        assert(self.scopes_view() =~= old(self).scopes_view().push(Map::empty()));
    }

    fn end_scope(&mut self)
        requires
            old(self).wf(),
        ensures
            final(self).at(old(self).state().end_scope()),
    {
        self.scopes.pop();
        proof {
            if old(self).scopes@.len() > 0 {
                assert(self.scopes_view() =~= old(self).scopes_view().drop_last());
            } else {
                assert(self.scopes_view() =~= old(self).scopes_view());
            }
        }
    }

    /// Binds `name` in the innermost scope, if a scope is open.
    fn bind(&mut self, name: String, ready: bool)
        requires
            old(self).wf(),
        ensures
            final(self).at(old(self).state().bind(name@, ready)),
    {
        match self.scopes.pop() {
            Some(scope) => {
                let mut scope = scope;
                scope.insert(name, ready);
                self.scopes.push(scope);
                assert(self.scopes_view() =~= old(self).scopes_view().update(
                    old(self).scopes@.len() - 1,
                    old(self).scopes_view().last().insert(name@, ready),
                ));
            },
            None => {
                assert(self.scopes_view() =~= old(self).scopes_view());
            },
        }
    }

    fn report(&mut self, token: usize, kind: StaticError)
        requires
            old(self).wf(),
        ensures
            final(self).at(old(self).state().report(token, kind)),
    {
        self.errors.push(ResolveDiagnostic { token, kind });
    }

    /// What the innermost scope says of `name`: `Some(ready)` if it declares
    /// the name, `None` if it does not or no scope is open.
    fn innermost_entry(&self, name: &String) -> (r: Option<bool>)
        requires
            self.wf(),
        ensures
            r == if self.state().scopes.len() > 0 && self.state().scopes.last().contains_key(
                name@,
            ) {
                Some(self.state().scopes.last()[name@])
            } else {
                None
            },
    {
        let count: usize = self.scopes.len();
        if count == 0 {
            return None;
        }
        match self.scopes[count - 1].get(name) {
            Some(ready) => Some(*ready),
            None => None,
        }
    }

    /// Puts the name of the token `token` into the innermost scope, as not
    /// yet ready.
    fn declare(&mut self, ast: &Ast, token: usize)
        requires
            old(self).ready(ast),
            token < ast.tokens@.len(),
        ensures
            final(self).arrived(ast, old(self).state().declare(ast, token)),
    {
        if self.scopes.len() == 0 {
            return ;
        }
        let name: String = ast.tokens[token].lexeme.clone();
        if self.innermost_entry(&name).is_some() {
            self.report(token, StaticError::AlreadyDeclared);
        }
        self.bind(name, false);
    }

    /// Marks the name of the token `token` as ready.
    fn define(&mut self, ast: &Ast, token: usize)
        requires
            old(self).ready(ast),
            token < ast.tokens@.len(),
        ensures
            final(self).arrived(ast, old(self).state().define(ast, token)),
    {
        let name: String = ast.tokens[token].lexeme.clone();
        self.bind(name, true);
    }

    /// Records the depth of the binding of `name` for the expression `expr`,
    /// if an open scope declares the name.
    fn resolve_local(&mut self, expr: usize, name: &String)
        requires
            old(self).wf(),
        ensures
            final(self).at(old(self).state().resolve_local(expr, name@)),
    {
        let count: usize = self.scopes.len();
        let ghost scopes = self.scopes_view();
        let mut i: usize = count;
        while i > 0
            invariant
                self.wf(),
                *self == *old(self),
                scopes == self.scopes_view(),
                count == self.scopes@.len(),
                i <= count,
                innermost(scopes, name@, i as int) == innermost(scopes, name@, count as int),
            decreases i,
        {
            if self.scopes[i - 1].contains_key(name) {
                self.resolutions.push(Resolution { expr, depth: count - i });
                assert(self.scopes_view() =~= scopes);
                return ;
            }
            i -= 1;
        }
    }
}

impl Resolver {
    /// Resolves the expression `id`.
    fn resolve_expr(&mut self, ast: &Ast, id: usize)
        requires
            old(self).ready(ast),
            ast.wf(),
            id < ast.exprs@.len(),
        ensures
            final(self).arrived(ast, spec_resolve_expr(ast, old(self).state(), id)),
        decreases 0int, id, 1int, 0int,
    {
        proof {
            ast.lemma_expr_fits(id as int);
        }
        let node: Expr = ast.exprs[id];
        match node {
            Expr::Variable { name } => {
                let text: String = ast.tokens[name].lexeme.clone();
                match self.innermost_entry(&text) {
                    Some(false) => {
                        self.report(name, StaticError::ReadInOwnInitializer);
                    },
                    _ => {},
                }
                self.resolve_local(id, &text);
            },
            Expr::Assign { name, value } => {
                self.resolve_expr(ast, value);
                let text: String = ast.tokens[name].lexeme.clone();
                match self.innermost_entry(&text) {
                    Some(false) => {
                        self.report(name, StaticError::ReadInOwnInitializer);
                    },
                    _ => {},
                }
                self.resolve_local(id, &text);
            },
            Expr::Binary { left, operator, right } => {
                self.resolve_expr(ast, left);
                self.resolve_expr(ast, right);
            },
            Expr::Logical { left, operator, right } => {
                self.resolve_expr(ast, left);
                self.resolve_expr(ast, right);
            },
            Expr::Call { callee, paren, arguments } => {
                self.resolve_expr(ast, callee);
                self.resolve_exprs(ast, arguments, id);
            },
            Expr::Get { object, name } => {
                self.resolve_expr(ast, object);
            },
            Expr::SetProperty { object, name, value } => {
                self.resolve_expr(ast, value);
                self.resolve_expr(ast, object);
            },
            Expr::Super { keyword, method } => {
                match self.current_class {
                    ClassType::Outside => {
                        self.report(keyword, StaticError::SuperOutsideClass);
                    },
                    ClassType::Class => {
                        self.report(keyword, StaticError::SuperWithoutSuperclass);
                    },
                    ClassType::Subclass => {},
                }
                self.resolve_local(id, &ast.tokens[keyword].lexeme);
            },
            Expr::This { keyword } => {
                match self.current_class {
                    ClassType::Outside => {
                        self.report(keyword, StaticError::ThisOutsideClass);
                    },
                    _ => {
                        self.resolve_local(id, &ast.tokens[keyword].lexeme);
                    },
                }
            },
            Expr::Grouping { expression } => {
                self.resolve_expr(ast, expression);
            },
            Expr::Literal { value } => {},
            Expr::Unary { operator, right } => {
                self.resolve_expr(ast, right);
            },
        }
    }

    /// Resolves the expressions of the run `span`, in order.
    fn resolve_exprs(&mut self, ast: &Ast, span: Span, bound: usize)
        requires
            old(self).ready(ast),
            ast.wf(),
            span_below(ast.lists@, span, bound as int),
            bound <= ast.exprs@.len(),
        ensures
            final(self).arrived(ast, spec_resolve_exprs(ast, old(self).state(), span, 0, bound)),
        decreases 0int, bound, 0int, span.len,
    {
        let mut i: usize = 0;
        while i < span.len
            invariant
                self.ready(ast),
                ast.wf(),
                span_below(ast.lists@, span, bound as int),
                bound <= ast.exprs@.len(),
                i <= span.len,
                spec_resolve_exprs(ast, self.state(), span, i as nat, bound) == spec_resolve_exprs(
                    ast,
                    old(self).state(),
                    span,
                    0,
                    bound,
                ),
            decreases span.len - i,
        {
            let expr: usize = ast.list_entry(span, i);
            self.resolve_expr(ast, expr);
            i += 1;
        }
    }

    /// Resolves a function: its parameters and its body in a scope of their
    /// own.
    fn resolve_function(
        &mut self,
        ast: &Ast,
        params: Span,
        body: Span,
        func_type: FunctionType,
        bound: usize,
    )
        requires
            old(self).ready(ast),
            ast.wf(),
            span_below(ast.lists@, params, ast.tokens@.len() as int),
            span_below(ast.lists@, body, bound as int),
            bound <= ast.stmts@.len(),
        ensures
            final(self).arrived(ast, 
                spec_resolve_function(ast, old(self).state(), params, body, func_type, bound),
            ),
        decreases 1int, bound, 0int, body.len + 1,
    {
        let enclosing_func: FunctionType = self.current_function;
        self.current_function = func_type;
        self.begin_scope();
        let ghost inside = self.state();
        let mut i: usize = 0;
        while i < params.len
            invariant
                self.ready(ast),
                span_below(ast.lists@, params, ast.tokens@.len() as int),
                i <= params.len,
                spec_resolve_params(ast, self.state(), params, i as nat) == spec_resolve_params(
                    ast,
                    inside,
                    params,
                    0,
                ),
            decreases params.len - i,
        {
            let param: usize = ast.list_entry(params, i);
            self.declare(ast, param);
            self.define(ast, param);
            i += 1;
        }
        self.resolve_stmts(ast, body, bound);
        self.end_scope();
        self.current_function = enclosing_func;
    }

    /// Resolves the methods of the run `span`, in order.
    fn resolve_methods(&mut self, ast: &Ast, span: Span, bound: usize)
        requires
            old(self).ready(ast),
            ast.wf(),
            span_below(ast.lists@, span, bound as int),
            bound <= ast.stmts@.len(),
        ensures
            final(self).arrived(ast, spec_resolve_methods(ast, old(self).state(), span, 0, bound)),
        decreases 1int, bound, 0int, span.len,
    {
        let mut i: usize = 0;
        while i < span.len
            invariant
                self.ready(ast),
                ast.wf(),
                span_below(ast.lists@, span, bound as int),
                bound <= ast.stmts@.len(),
                i <= span.len,
                spec_resolve_methods(ast, self.state(), span, i as nat, bound)
                    == spec_resolve_methods(ast, old(self).state(), span, 0, bound),
            decreases span.len - i,
        {
            let method: usize = ast.list_entry(span, i);
            proof {
                ast.lemma_stmt_fits(method as int);
            }
            match ast.stmts[method] {
                Stmt::Function { name, params, body } => {
                    let declaration: FunctionType = if ast.tokens[name].lexeme
                        == String::from_str("init") {
                        FunctionType::Initializer
                    } else {
                        FunctionType::Method
                    };
                    self.resolve_function(ast, params, body, declaration, method);
                },
                _ => {},
            }
            i += 1;
        }
    }

    /// Resolves a class declaration.
    fn resolve_class(
        &mut self,
        ast: &Ast,
        name: usize,
        superclass: Option<usize>,
        methods: Span,
        bound: usize,
    )
        requires
            old(self).ready(ast),
            ast.wf(),
            name < ast.tokens@.len(),
            crate::ast::option_below(superclass, ast.exprs@.len() as int),
            span_below(ast.lists@, methods, bound as int),
            bound <= ast.stmts@.len(),
        ensures
            final(self).arrived(ast, 
                spec_resolve_class(ast, old(self).state(), name, superclass, methods, bound),
            ),
        decreases 1int, bound, 0int, methods.len + 1,
    {
        let enclosing_class: ClassType = self.current_class;
        self.current_class = ClassType::Class;
        self.declare(ast, name);
        self.define(ast, name);
        match superclass {
            Some(parent) => {
                proof {
                    ast.lemma_expr_fits(parent as int);
                }
                match ast.exprs[parent] {
                    Expr::Variable { name: parent_name } => {
                        if ast.tokens[name].lexeme == ast.tokens[parent_name].lexeme {
                            self.report(parent_name, StaticError::InheritFromSelf);
                        }
                    },
                    _ => {},
                }
                self.current_class = ClassType::Subclass;
                self.resolve_expr(ast, parent);
                self.begin_scope();
                self.bind(String::from_str("super"), true);
            },
            None => {},
        }
        self.begin_scope();
        self.bind(String::from_str("this"), true);
        self.resolve_methods(ast, methods, bound);
        self.end_scope();
        if superclass.is_some() {
            self.end_scope();
        }
        self.current_class = enclosing_class;
    }

    /// Resolves the statement `id`.
    fn resolve_stmt(&mut self, ast: &Ast, id: usize)
        requires
            old(self).ready(ast),
            ast.wf(),
            id < ast.stmts@.len(),
        ensures
            final(self).arrived(ast, spec_resolve_stmt(ast, old(self).state(), id)),
        decreases 1int, id, 1int, 0int,
    {
        proof {
            ast.lemma_stmt_fits(id as int);
        }
        let node: Stmt = ast.stmts[id];
        match node {
            Stmt::Block { statements } => {
                self.begin_scope();
                self.resolve_stmts(ast, statements, id);
                self.end_scope();
            },
            Stmt::Class { name, superclass, methods } => {
                self.resolve_class(ast, name, superclass, methods, id);
            },
            Stmt::Var { name, initializer } => {
                self.declare(ast, name);
                match initializer {
                    Some(value) => {
                        self.resolve_expr(ast, value);
                    },
                    None => {},
                }
                self.define(ast, name);
            },
            Stmt::Function { name, params, body } => {
                self.declare(ast, name);
                self.define(ast, name);
                self.resolve_function(ast, params, body, FunctionType::Function, id);
            },
            Stmt::Expression { expression } => {
                self.resolve_expr(ast, expression);
            },
            Stmt::If { condition, then_branch, else_branch } => {
                self.resolve_expr(ast, condition);
                self.resolve_stmt(ast, then_branch);
                match else_branch {
                    Some(otherwise) => {
                        self.resolve_stmt(ast, otherwise);
                    },
                    None => {},
                }
            },
            Stmt::Print { expression } => {
                self.resolve_expr(ast, expression);
            },
            Stmt::Return { keyword, value } => {
                match self.current_function {
                    FunctionType::Outside => {
                        self.report(keyword, StaticError::ReturnAtTopLevel);
                    },
                    _ => {},
                }
                match value {
                    Some(expression) => {
                        match self.current_function {
                            FunctionType::Initializer => {
                                self.report(keyword, StaticError::ReturnValueFromInitializer);
                            },
                            _ => {
                                self.resolve_expr(ast, expression);
                            },
                        }
                    },
                    None => {},
                }
            },
            Stmt::While { condition, body } => {
                self.resolve_expr(ast, condition);
                self.resolve_stmt(ast, body);
            },
        }
    }

    /// Resolves the statements of the run `span`, in order.
    fn resolve_stmts(&mut self, ast: &Ast, span: Span, bound: usize)
        requires
            old(self).ready(ast),
            ast.wf(),
            span_below(ast.lists@, span, bound as int),
            bound <= ast.stmts@.len(),
        ensures
            final(self).arrived(ast, spec_resolve_stmts(ast, old(self).state(), span, 0, bound)),
        decreases 1int, bound, 0int, span.len,
    {
        let mut i: usize = 0;
        while i < span.len
            invariant
                self.ready(ast),
                ast.wf(),
                span_below(ast.lists@, span, bound as int),
                bound <= ast.stmts@.len(),
                i <= span.len,
                spec_resolve_stmts(ast, self.state(), span, i as nat, bound) == spec_resolve_stmts(
                    ast,
                    old(self).state(),
                    span,
                    0,
                    bound,
                ),
            decreases span.len - i,
        {
            let stmt: usize = ast.list_entry(span, i);
            self.resolve_stmt(ast, stmt);
            i += 1;
        }
    }

    /// Resolves the statements `statements` of the tree `ast`, in order:
    /// every use of a local variable is recorded with the depth of its
    /// binding, and every static error is reported.
    pub fn resolve_stmt_list(&mut self, ast: &Ast, statements: &Vec<usize>)
        requires
            old(self).ready(ast),
            ast.wf(),
            forall|i: int|
                0 <= i < statements@.len() ==> #[trigger] statements@[i] < ast.stmts@.len(),
        ensures
            final(self).arrived(ast, spec_resolve_program(ast, old(self).state(), statements@, 0)),
    {
        let mut i: usize = 0;
        while i < statements.len()
            invariant
                self.ready(ast),
                ast.wf(),
                forall|i: int|
                    0 <= i < statements@.len() ==> #[trigger] statements@[i] < ast.stmts@.len(),
                i <= statements@.len(),
                spec_resolve_program(ast, self.state(), statements@, i as nat)
                    == spec_resolve_program(ast, old(self).state(), statements@, 0),
            decreases statements@.len() - i,
        {
            self.resolve_stmt(ast, statements[i]);
            i += 1;
        }
    }

    /// Whether resolving has found a static error.
    pub fn had_error(&self) -> (r: bool)
        ensures
            r == (self.errors@.len() > 0),
    {
        self.errors.len() > 0
    }
}

} // verus!
