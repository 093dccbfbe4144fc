use crate::ast::span_below;
use crate::callable::{LoxCallable, NativeFunction};
use crate::class::{LoxClass, LoxInstance};
use crate::dict::Dict;
use crate::environment::{assign_at, find_at, get_at, Environment};
use crate::error::{RuntimeError, RuntimeErrorKind};
use crate::expr::{Constant, Expr, Span};
use crate::frame::{
    all_fit, awaits_value, chained, lemma_grown_frames, Action, Arithmetic, Exit, Frame, Request,
};
use crate::heap::Heap;
use crate::object::{is_equal, is_truthy, Object};
use crate::semantics::{
    argument_given, assigned, binary_applied, bindings, branched, call_ended, call_result,
    callee_checked, class_declared, constant_given, entered, evaluated, executed, invoked,
    left_given, listed, logical_decided, looked_up, loop_tested, method_bound, method_table,
    number_replied, printed, property_read, returned, stepped, store_checked, stored, super_found,
    superclass_given, text_of, text_replied, trimmed, unary_applied, unwound, variable_defined,
};
use crate::stmt::Stmt;
use crate::token::{Literal, TokenType};
use crate::util::Number;
use vstd::prelude::*;
use vstd::string::*;

verus! {

/// The tree-walking evaluator, as a machine that is run step by step. It
/// holds the heap, the global and the current environment, the depths that
/// the resolver found, the stack of what is left to do, the value that is
/// under way, the request that it waits on, and what it is leaving the
/// stack for, if it is.
pub struct Interpreter {
    pub heap: Heap,
    pub globals: usize,
    pub environment: usize,
    pub locals: Vec<Option<usize>>,
    pub frames: Vec<Frame>,
    pub value: Option<Object>,
    pub pending: Option<Request>,
    pub leaving: Option<Exit>,
}

/// The state of the interpreter.
pub struct Machine {
    pub heap: Heap,
    pub globals: usize,
    pub environment: usize,
    pub locals: Seq<Option<usize>>,
    pub frames: Seq<Frame>,
    pub value: Option<Object>,
    pub pending: Option<Request>,
    pub leaving: Option<Exit>,
}

impl Machine {
    /// The request names a token that exists.
    pub open spec fn request_fits(self, request: Request) -> bool {
        match request {
            Request::ParseNumber { token } => token < self.heap.ast.tokens@.len(),
            _ => true,
        }
    }

    /// The heap is well formed and all that the machine holds names only
    /// what exists in it; each entry of the stack gives a value exactly if
    /// the one below takes one.
    pub open spec fn sound(self) -> bool {
        &&& self.heap.wf()
        &&& self.heap.rooted()
        &&& self.globals == 0
        &&& self.globals < self.heap.environments@.len()
        &&& self.environment < self.heap.environments@.len()
        &&& all_fit(self.frames, &self.heap)
        &&& chained(self.frames)
        &&& (self.value matches Some(v) ==> self.heap.holds(v))
        &&& (self.pending matches Some(r) ==> self.request_fits(r))
    }

    /// What the machine is leaving for names only what exists.
    pub open spec fn exit_fits(self, exit: Exit) -> bool {
        match exit {
            Exit::Error(error) => error.token < self.heap.ast.tokens@.len(),
            Exit::Return(value) => self.heap.holds(value),
        }
    }

    /// The machine is sound. While it goes on, a value is under way or
    /// asked for exactly if the uppermost entry takes one; while it is
    /// leaving, nothing is under way.
    pub open spec fn wf(self) -> bool {
        &&& self.sound()
        &&& match self.leaving {
            None => awaits_value(self.frames) == (self.value is Some || self.pending is Some)
                && !(self.value is Some && self.pending is Some),
            Some(exit) => self.value is None && self.pending is None && self.exit_fits(exit),
        }
    }

    /// The depth that the resolver found for the expression, if any.
    pub open spec fn depth(self, expr: usize) -> Option<usize> {
        if expr < self.locals.len() {
            self.locals[expr as int]
        } else {
            None
        }
    }

    /// With one more entry on the stack.
    pub open spec fn push(self, frame: Frame) -> Machine {
        Machine { frames: self.frames.push(frame), ..self }
    }

    /// Without the uppermost entry of the stack.
    pub open spec fn pop(self) -> Machine {
        Machine { frames: self.frames.drop_last(), ..self }
    }

    /// With `value` as the value under way.
    pub open spec fn give(self, value: Object) -> Machine {
        Machine { value: Some(value), ..self }
    }

    /// With no value under way.
    pub open spec fn take(self) -> Machine {
        Machine { value: None, ..self }
    }

    /// Waiting for the answer to `request`.
    pub open spec fn ask(self, request: Request) -> Machine {
        Machine { pending: Some(request), ..self }
    }

    /// With `environment` as the current environment.
    pub open spec fn enter(self, environment: usize) -> Machine {
        Machine { environment, ..self }
    }

    /// With `heap` in place of the heap.
    pub open spec fn on(self, heap: Heap) -> Machine {
        Machine { heap, ..self }
    }

    /// With all that was under way dropped: nothing to do, no value, and
    /// the global environment as the current one. A program starts from
    /// here.
    pub open spec fn abort(self) -> Machine {
        Machine {
            frames: Seq::empty(),
            value: None,
            pending: None,
            leaving: None,
            environment: self.globals,
            ..self
        }
    }

    /// Leaving the stack for `exit`, with nothing under way.
    pub open spec fn leave(self, exit: Exit) -> Machine {
        Machine { value: None, pending: None, leaving: Some(exit), ..self }
    }

    /// No longer leaving, with nothing under way.
    pub open spec fn settle(self) -> Machine {
        Machine { value: None, pending: None, leaving: None, ..self }
    }
}

impl View for Interpreter {
    type V = Machine;

    /// The state of the interpreter.
    open spec fn view(&self) -> Machine {
        Machine {
            heap: self.heap,
            globals: self.globals,
            environment: self.environment,
            locals: self.locals@,
            frames: self.frames@,
            value: self.value,
            pending: self.pending,
            leaving: self.leaving,
        }
    }
}

impl Interpreter {
    /// An interpreter over an empty tree, with nothing to do. Its global
    /// environment binds `clock` to the host's clock, which takes no
    /// arguments.
    pub fn new() -> (r: Self)
        ensures
            r@.wf(),
            r@.frames.len() == 0,
            r@.value is None,
            r@.pending is None,
            r@.leaving is None,
            r@.locals.len() == 0,
            r@.environment == r@.globals,
            r@.globals == 0,
            r@.heap.environments@.len() == 1,
            r@.heap.environments@[0].enclosing is None,
            r@.heap.environments@[0].values@ == Map::<Seq<char>, Object>::empty().insert(
                "clock"@,
                Object::Callable(LoxCallable::Native { arity: 0, function: NativeFunction::Clock }),
            ),
            r@.heap.classes@.len() == 0,
            r@.heap.instances@.len() == 0,
            r@.heap.ast.tokens@.len() == 0,
            r@.heap.ast.exprs@.len() == 0,
            r@.heap.ast.stmts@.len() == 0,
    {
        let mut heap = Heap::new();
        let globals: usize = Environment::new(&mut heap, None);
        let clock = Object::Callable(
            LoxCallable::Native { arity: 0, function: NativeFunction::Clock },
        );
        Environment::define(&mut heap, globals, String::from_str("clock"), clock);
        Interpreter {
            heap,
            globals,
            environment: globals,
            locals: Vec::new(),
            frames: Vec::new(),
            value: None,
            pending: None,
            leaving: None,
        }
    }

    /// Records that the binding which the expression `expr` refers to lies
    /// `depth` environments out from the one current when it is evaluated.
    pub fn resolve(&mut self, expr: usize, depth: usize)
        requires
            expr < old(self).heap.ast.exprs@.len(),
        ensures
            final(self)@.depth(expr) == Some(depth),
            forall|e: usize| e != expr ==> final(self)@.depth(e) == old(self)@.depth(e),
            final(self)@ == (Machine { locals: final(self)@.locals, ..old(self)@ }),
    {
        while self.locals.len() <= expr
            invariant
                self@ == (Machine { locals: self@.locals, ..old(self)@ }),
                forall|e: usize| self@.depth(e) == old(self)@.depth(e),
            decreases expr + 1 - self.locals.len(),
        {
            self.locals.push(None);
        }
        self.locals[expr] = Some(depth);
    }

    /// The depth that was recorded for the expression `expr`, if any.
    fn depth_of(&self, expr: usize) -> (r: Option<usize>)
        ensures
            r == self@.depth(expr),
    {
        if expr < self.locals.len() {
            self.locals[expr]
        } else {
            None
        }
    }

    /// Puts an entry on the stack.
    fn push(&mut self, frame: Frame)
        requires
            old(self)@.sound(),
            frame.fits(&old(self).heap),
            frame.produces() == awaits_value(old(self)@.frames),
        ensures
            final(self)@ == old(self)@.push(frame),
            final(self)@.sound(),
    {
        self.frames.push(frame);
    }

    /// Takes the uppermost entry off the stack.
    fn pop(&mut self) -> (frame: Frame)
        requires
            old(self)@.sound(),
            old(self)@.frames.len() > 0,
        ensures
            final(self)@ == old(self)@.pop(),
            final(self)@.sound(),
            frame == old(self)@.frames.last(),
            frame.fits(&final(self).heap),
            frame.produces() == awaits_value(final(self)@.frames),
    {
        let frame = self.frames.pop().unwrap();
        proof {
            let n = old(self)@.frames.len() as int;
            assert(old(self)@.frames[n - 1].fits(&self.heap));
            assert forall|i: int| 0 <= i < self@.frames.len() implies (
            #[trigger] self@.frames[i]).fits(&self.heap) by {
                assert(old(self)@.frames[i].fits(&self.heap));
            }
            assert forall|i: int| 0 <= i < self@.frames.len() implies (
            #[trigger] self@.frames[i]).produces() == (if i == 0 {
                false
            } else {
                self@.frames[i - 1].consumes()
            }) by {
                assert(old(self)@.frames[i].produces() == (if i == 0 {
                    false
                } else {
                    old(self)@.frames[i - 1].consumes()
                }));
            }
        }
        frame
    }

    /// Takes the value that is under way.
    fn take(&mut self) -> (value: Object)
        requires
            old(self)@.sound(),
            old(self)@.value is Some,
        ensures
            final(self)@ == old(self)@.take(),
            final(self)@.sound(),
            Some(value) == old(self)@.value,
            final(self).heap.holds(value),
    {
        self.value.take().unwrap()
    }

    /// Puts a value under way.
    fn give(&mut self, value: Object)
        requires
            old(self)@.sound(),
            old(self).heap.holds(value),
        ensures
            final(self)@ == old(self)@.give(value),
            final(self)@.sound(),
    {
        self.value = Some(value);
    }

    /// Begins to leave the stack for a runtime error.
    fn fail(&mut self, error: RuntimeError) -> (action: Action)
        requires
            old(self)@.sound(),
            error.token < old(self).heap.ast.tokens@.len(),
        ensures
            final(self)@ == old(self)@.leave(Exit::Error(error)),
            final(self)@.wf(),
            action is Continue,
    {
        self.value = None;
        self.pending = None;
        self.leaving = Some(Exit::Error(error));
        Action::Continue
    }
}

impl Machine {
    /// A sound machine stays sound on a heap that has grown.
    pub proof fn lemma_sound_on(self, heap: Heap)
        requires
            self.sound(),
            heap.wf(),
            heap.rooted(),
            heap.grown_from(&self.heap),
        ensures
            self.on(heap).sound(),
    {
        lemma_grown_frames(&heap, &self.heap, self.frames);
        if let Some(v) = self.value {
            heap.lemma_grown_holds(&self.heap, v);
        }
    }

    /// A well-formed machine stays well formed on a heap that has grown.
    pub proof fn lemma_wf_on(self, heap: Heap)
        requires
            self.wf(),
            heap.wf(),
            heap.rooted(),
            heap.grown_from(&self.heap),
        ensures
            self.on(heap).wf(),
    {
        self.lemma_sound_on(heap);
        match self.leaving {
            Some(Exit::Return(v)) => {
                heap.lemma_grown_holds(&self.heap, v);
            },
            _ => {},
        }
    }

    /// Nothing is under way: no value and no request.
    pub open spec fn idle(self) -> bool {
        self.value is None && self.pending is None
    }
}

impl Interpreter {
    /// Binds `name` to `value` in the environment `env`.
    fn define(&mut self, env: usize, name: String, value: Object)
        requires
            old(self)@.sound(),
            env < old(self).heap.environments@.len(),
            old(self).heap.holds(value),
        ensures
            final(self)@.sound(),
            final(self).heap.with_binding(&old(self).heap, env, name@, value),
            final(self)@ == old(self)@.on(final(self).heap),
    {
        Environment::define(&mut self.heap, env, name, value);
        proof {
            old(self)@.lemma_sound_on(self.heap);
        }
    }

    /// Makes an environment inside `enclosing`.
    fn new_environment(&mut self, enclosing: usize) -> (id: usize)
        requires
            old(self)@.sound(),
            enclosing < old(self).heap.environments@.len(),
        ensures
            final(self)@.sound(),
            final(self).heap.with_new_environment(&old(self).heap, Some(enclosing), Map::empty()),
            final(self)@ == old(self)@.on(final(self).heap),
            id == old(self).heap.environments@.len(),
    {
        let id: usize = Environment::new(&mut self.heap, Some(enclosing));
        proof {
            old(self)@.lemma_sound_on(self.heap);
        }
        id
    }

    /// Goes on with the statements of the run `span` from the `next`-th.
    fn execute_list(&mut self, span: Span, next: usize) -> (action: Action)
        requires
            old(self)@.leaving is None,
            old(self)@.sound(),
            old(self)@.idle(),
            !awaits_value(old(self)@.frames),
            (Frame::ExecList { span, next }).fits(&old(self).heap),
        ensures
            final(self)@.wf(),
            listed(old(self)@, span, next, final(self)@, action),
    {
        if next < span.len {
            let stmt: usize = self.heap.ast.list_entry(span, next);
            self.push(Frame::ExecList { span, next: next + 1 });
            self.push(Frame::Exec(stmt));
        }
        Action::Continue
    }

    /// Executes a block: the statements of the run `statements` in the
    /// environment `environment`. Below them stands the entry that goes
    /// back to the environment that is current now, so that it is current
    /// again when the block has been left, whether the statements were
    /// done, a runtime error was met, or a `return` was executed
    /// (`laws::lemma_block_keeps_environment`).
    pub fn execute_block(&mut self, statements: Span, environment: usize) -> (action: Action)
        requires
            old(self)@.leaving is None,
            old(self)@.sound(),
            old(self)@.idle(),
            !awaits_value(old(self)@.frames),
            span_below(
                old(self).heap.ast.lists@,
                statements,
                old(self).heap.ast.stmts@.len() as int,
            ),
            environment < old(self).heap.environments@.len(),
        ensures
            final(self)@.wf(),
            final(self)@ == old(self)@.enter(environment).push(
                Frame::RestoreEnv(old(self)@.environment),
            ).push(Frame::ExecList { span: statements, next: 0 }),
            action is Continue,
    {
        let previous: usize = self.environment;
        self.environment = environment;
        self.push(Frame::RestoreEnv(previous));
        self.push(Frame::ExecList { span: statements, next: 0 });
        Action::Continue
    }
}

impl Interpreter {
    /// Makes the methods that the declarations of the run `methods` stand
    /// for, closed over the environment `closure`.
    fn make_methods(&self, methods: Span, closure: usize) -> (table: Dict<LoxCallable>)
        requires
            self@.sound(),
            span_below(
                self.heap.ast.lists@,
                methods,
                self.heap.ast.stmts@.len() as int,
            ),
            closure < self.heap.environments@.len(),
        ensures
            table.wf(),
            table@ == method_table(&self.heap.ast, methods, closure, methods.len as nat),
            forall|k: Seq<char>|
                table@.contains_key(k) ==> self.heap.holds_callable(#[trigger] table@[k])
                    && table@[k] is User,
    {
        let mut table: Dict<LoxCallable> = Dict::new();
        let mut i: usize = 0;
        proof {
            self.heap.lemma_ast();
        }
        while i < methods.len
            invariant
                self@.sound(),
                self.heap.ast.wf(),
                span_below(
                    self.heap.ast.lists@,
                    methods,
                    self.heap.ast.stmts@.len() as int,
                ),
                closure < self.heap.environments@.len(),
                i <= methods.len,
                table.wf(),
                table@ == method_table(&self.heap.ast, methods, closure, i as nat),
                forall|k: Seq<char>|
                    table@.contains_key(k) ==> self.heap.holds_callable(#[trigger] table@[k])
                        && table@[k] is User,
            decreases methods.len - i,
        {
            let method: usize = self.heap.ast.list_entry(methods, i);
            proof {
                self.heap.ast.lemma_stmt_fits(method as int);
            }
            match self.heap.ast.stmts[method] {
                Stmt::Function { name, params, body } => {
                    let text: String = self.heap.ast.tokens[name].lexeme.clone();
                    let is_initializer: bool = text == String::from_str("init");
                    let function = LoxCallable::User {
                        name,
                        params,
                        body,
                        closure,
                        is_initializer,
                    };
                    table.insert(text, function);
                },
                _ => {},
            }
            i += 1;
        }
        table
    }

    /// Declares a class in the current environment.
    fn declare_class(&mut self, name: usize, superclass: Option<usize>, methods: Span)
        requires
            old(self)@.sound(),
            name < old(self).heap.ast.tokens@.len(),
            superclass matches Some(parent) ==> parent < old(self).heap.classes@.len(),
            span_below(
                old(self).heap.ast.lists@,
                methods,
                old(self).heap.ast.stmts@.len() as int,
            ),
        ensures
            final(self)@.sound(),
            class_declared(
                &old(self).heap,
                old(self).environment,
                name,
                superclass,
                methods,
                &final(self).heap,
            ),
            final(self)@ == old(self)@.on(final(self).heap),
    {
        let environment: usize = self.environment;
        let text: String = self.heap.ast.tokens[name].lexeme.clone();
        let closure: usize = match superclass {
            Some(parent) => {
                let inner: usize = self.new_environment(environment);
                self.define(inner, String::from_str("super"), Object::Class(parent));
                inner
            },
            None => environment,
        };
        let ghost opened = self.heap;
        let table: Dict<LoxCallable> = self.make_methods(methods, closure);
        let class: usize = LoxClass::new(&mut self.heap, text.clone(), superclass, table);
        proof {
            Machine { heap: opened, ..old(self)@ }.lemma_sound_on(self.heap);
        }
        self.define(environment, text, Object::Class(class));
        proof {
            assert(self.heap.classes@.drop_last() =~= old(self).heap.classes@);
        }
    }

    /// Executes the statement `stmt`: does what is done at once, and puts
    /// on the stack what is left to do.
    pub fn execute(&mut self, stmt: usize) -> (action: Action)
        requires
            old(self)@.leaving is None,
            old(self)@.sound(),
            old(self)@.idle(),
            !awaits_value(old(self)@.frames),
            stmt < old(self).heap.ast.stmts@.len(),
        ensures
            final(self)@.wf(),
            executed(old(self)@, stmt, final(self)@, action),
    {
        proof {
            self.heap.lemma_ast();
            self.heap.ast.lemma_stmt_fits(stmt as int);
        }
        let node: Stmt = self.heap.ast.stmts[stmt];
        match node {
            Stmt::Expression { expression } => {
                self.push(Frame::Discard);
                self.push(Frame::Eval(expression));
            },
            Stmt::Print { expression } => {
                self.push(Frame::Print);
                self.push(Frame::Eval(expression));
            },
            Stmt::Var { name, initializer } => {
                match initializer {
                    Some(value) => {
                        self.push(Frame::DefineVar(name));
                        self.push(Frame::Eval(value));
                    },
                    None => {
                        let text: String = self.heap.ast.tokens[name].lexeme.clone();
                        self.define(self.environment, text, Object::Nil);
                    },
                }
            },
            Stmt::Block { statements } => {
                let inner: usize = self.new_environment(self.environment);
                self.execute_block(statements, inner);
            },
            Stmt::If { condition, then_branch, else_branch } => {
                self.push(Frame::Branch { then_branch, else_branch });
                self.push(Frame::Eval(condition));
            },
            Stmt::While { condition, body } => {
                self.push(Frame::LoopTest { condition, body });
                self.push(Frame::Eval(condition));
            },
            Stmt::Function { name, params, body } => {
                let function = LoxCallable::User {
                    name,
                    params,
                    body,
                    closure: self.environment,
                    is_initializer: false,
                };
                let text: String = self.heap.ast.tokens[name].lexeme.clone();
                self.define(self.environment, text, Object::Callable(function));
            },
            Stmt::Return { keyword, value } => {
                self.push(Frame::Return);
                match value {
                    Some(expression) => {
                        self.push(Frame::Eval(expression));
                    },
                    None => {
                        self.give(Object::Nil);
                    },
                }
            },
            Stmt::Class { name, superclass, methods } => {
                match superclass {
                    Some(expression) => {
                        proof {
                            self.heap.ast.lemma_expr_fits(expression as int);
                        }
                        let token: usize = match self.heap.ast.exprs[expression] {
                            Expr::Variable { name: parent } => parent,
                            _ => name,
                        };
                        self.push(Frame::ClassSuper { name, methods, token });
                        self.push(Frame::Eval(expression));
                    },
                    None => {
                        self.declare_class(name, None, methods);
                    },
                }
            },
        }
        Action::Continue
    }
}

/// The text that `print` writes for a value; `None` for a number, whose
/// text is the host's.
pub fn stringify(heap: &Heap, obj: &Object) -> (r: Option<String>)
    requires
        heap.wf(),
        heap.holds(*obj),
    ensures
        match r {
            Some(text) => !(*obj is Number) && text@ == text_of(heap, *obj),
            None => *obj is Number,
        },
{
    match obj {
        Object::Nil => Some(String::from_str("nil")),
        Object::Number(val) => None,
        Object::Boolean(val) => if *val {
            Some(String::from_str("true"))
        } else {
            Some(String::from_str("false"))
        },
        Object::String(val) => Some(val.clone()),
        Object::Callable(LoxCallable::Native { arity, function }) => Some(
            String::from_str("<native fn>"),
        ),
        Object::Callable(LoxCallable::User { name, params, body, closure, is_initializer }) => {
            let text = String::from_str("<fn ").concat(heap.ast.tokens[*name].lexeme.as_str())
                .concat(">");
            Some(text)
        },
        Object::Class(class) => Some(heap.classes[*class].name.clone()),
        Object::Instance(instance) => {
            proof {
                heap.lemma_instance(*instance as int);
            }
            let class: usize = heap.instances[*instance].class;
            Some(heap.classes[class].name.clone().concat(" instance"))
        },
    }
}

/// The text of a number as it is printed: without a trailing `.0`.
pub fn number_text(text: String) -> (r: String)
    ensures
        r@ == trimmed(text@),
{
    let n: usize = text.as_str().unicode_len();
    if n >= 2 && text.as_str().get_char(n - 2) == '.' && text.as_str().get_char(n - 1) == '0' {
        String::from_str(text.as_str().substring_char(0, n - 2))
    } else {
        text
    }
}

impl Interpreter {
    /// Prints the value, or asks the host for the text of a number.
    fn print(&mut self) -> (action: Action)
        requires
            old(self)@.leaving is None,
            old(self)@.sound(),
            old(self)@.value is Some,
            old(self)@.pending is None,
            !awaits_value(old(self)@.frames),
        ensures
            final(self)@.wf(),
            printed(old(self)@, final(self)@, action),
    {
        let value: Object = self.take();
        match value {
            Object::Number(n) => {
                self.push(Frame::Print);
                self.pending = Some(Request::FormatNumber(n));
                Action::Ask(Request::FormatNumber(n))
            },
            _ => {
                let text: String = stringify(&self.heap, &value).unwrap();
                Action::Print(text)
            },
        }
    }

    /// Binds the name of the token `name` to the value.
    fn define_variable(&mut self, name: usize) -> (action: Action)
        requires
            old(self)@.leaving is None,
            old(self)@.sound(),
            old(self)@.value is Some,
            old(self)@.pending is None,
            !awaits_value(old(self)@.frames),
            name < old(self).heap.ast.tokens@.len(),
        ensures
            final(self)@.wf(),
            variable_defined(old(self)@, name, final(self)@, action),
    {
        let value: Object = self.take();
        let text: String = self.heap.ast.tokens[name].lexeme.clone();
        self.define(self.environment, text, value);
        Action::Continue
    }

    /// Goes on with the branch that the value selects.
    fn branch(&mut self, then_branch: usize, else_branch: Option<usize>) -> (action: Action)
        requires
            old(self)@.leaving is None,
            old(self)@.sound(),
            old(self)@.value is Some,
            old(self)@.pending is None,
            !awaits_value(old(self)@.frames),
            (Frame::Branch { then_branch, else_branch }).fits(&old(self).heap),
        ensures
            final(self)@.wf(),
            branched(old(self)@, then_branch, else_branch, final(self)@, action),
    {
        let value: Object = self.take();
        if is_truthy(&value) {
            self.push(Frame::Exec(then_branch));
        } else {
            match else_branch {
                Some(otherwise) => {
                    self.push(Frame::Exec(otherwise));
                },
                None => {},
            }
        }
        Action::Continue
    }

    /// Runs the body of a loop and tests again, or leaves the loop.
    fn loop_test(&mut self, condition: usize, body: usize) -> (action: Action)
        requires
            old(self)@.leaving is None,
            old(self)@.sound(),
            old(self)@.value is Some,
            old(self)@.pending is None,
            !awaits_value(old(self)@.frames),
            (Frame::LoopTest { condition, body }).fits(&old(self).heap),
        ensures
            final(self)@.wf(),
            loop_tested(old(self)@, condition, body, final(self)@, action),
    {
        let value: Object = self.take();
        if is_truthy(&value) {
            self.push(Frame::LoopTest { condition, body });
            self.push(Frame::Eval(condition));
            self.push(Frame::Exec(body));
        }
        Action::Continue
    }

    /// What a call of the function closed over `closure` gives back.
    fn result_of_call(&self, closure: usize, is_initializer: bool, returned: Object) -> (r: Object)
        requires
            self@.sound(),
            closure < self.heap.environments@.len(),
            self.heap.holds(returned),
        ensures
            r == call_result(&self.heap, closure, is_initializer, returned),
            self.heap.holds(r),
    {
        if is_initializer {
            match get_at(&self.heap, closure, 0, &String::from_str("this")) {
                Ok(this) => this,
                Err(_) => Object::Nil,
            }
        } else {
            returned
        }
    }

    /// Ends a call whose body has come to its end.
    fn end_call(&mut self, previous: usize, closure: usize, is_initializer: bool) -> (action:
        Action)
        requires
            old(self)@.leaving is None,
            old(self)@.sound(),
            old(self)@.idle(),
            awaits_value(old(self)@.frames),
            previous < old(self).heap.environments@.len(),
            closure < old(self).heap.environments@.len(),
        ensures
            final(self)@.wf(),
            call_ended(old(self)@, previous, closure, is_initializer, final(self)@, action),
    {
        let result: Object = self.result_of_call(closure, is_initializer, Object::Nil);
        self.environment = previous;
        self.give(result);
        Action::Continue
    }

    /// Begins to leave the innermost call with the value.
    fn unwind(&mut self) -> (action: Action)
        requires
            old(self)@.leaving is None,
            old(self)@.sound(),
            old(self)@.value is Some,
            old(self)@.pending is None,
        ensures
            final(self)@.wf(),
            returned(old(self)@, final(self)@, action),
    {
        let value: Object = self.take();
        self.leaving = Some(Exit::Return(value));
        Action::Continue
    }

    /// Leaves one entry of the stack, or ends the leaving at the bottom.
    fn unwind_step(&mut self) -> (action: Action)
        requires
            old(self)@.wf(),
            old(self)@.leaving is Some,
        ensures
            final(self)@.wf(),
            unwound(old(self)@, old(self)@.leaving->Some_0, final(self)@, action),
    {
        if self.frames.len() == 0 {
            let action: Action = match &self.leaving {
                Some(Exit::Error(error)) => Action::Error(*error),
                _ => Action::Continue,
            };
            self.leaving = None;
            return action;
        }
        let frame: Frame = self.pop();
        match frame {
            Frame::RestoreEnv(environment) => {
                self.environment = environment;
            },
            Frame::CallReturn { previous, closure, is_initializer } => {
                self.environment = previous;
                let returned: Option<Object> = match &self.leaving {
                    Some(Exit::Return(value)) => Some(value.clone()),
                    _ => None,
                };
                match returned {
                    Some(value) => {
                        self.leaving = None;
                        let result: Object = self.result_of_call(closure, is_initializer, value);
                        self.give(result);
                    },
                    None => {},
                }
            },
            _ => {},
        }
        Action::Continue
    }

    /// Declares the class `name` with the value as its superclass.
    fn declare_subclass(&mut self, name: usize, methods: Span, token: usize) -> (action: Action)
        requires
            old(self)@.leaving is None,
            old(self)@.sound(),
            old(self)@.value is Some,
            old(self)@.pending is None,
            !awaits_value(old(self)@.frames),
            (Frame::ClassSuper { name, methods, token }).fits(&old(self).heap),
        ensures
            final(self)@.wf(),
            superclass_given(old(self)@, name, methods, token, final(self)@, action),
    {
        let value: Object = self.take();
        match value {
            Object::Class(parent) => {
                self.declare_class(name, Some(parent), methods);
                Action::Continue
            },
            _ => self.fail(
                RuntimeError { kind: RuntimeErrorKind::SuperclassMustBeClass, token },
            ),
        }
    }
}

impl Interpreter {
    /// Reads the variable named by the token `name` for the expression
    /// `expr`.
    fn look_up_variable(&mut self, name: usize, expr: usize) -> (action: Action)
        requires
            old(self)@.leaving is None,
            old(self)@.sound(),
            old(self)@.idle(),
            awaits_value(old(self)@.frames),
            name < old(self).heap.ast.tokens@.len(),
        ensures
            final(self)@.wf(),
            looked_up(old(self)@, expr, name, final(self)@, action),
    {
        match self.depth_of(expr) {
            Some(distance) => {
                let found = find_at(
                    &self.heap,
                    self.environment,
                    distance,
                    &self.heap.ast.tokens[name].lexeme,
                );
                match found {
                    Some(value) => {
                        self.give(value);
                        Action::Continue
                    },
                    None => self.fail(
                        RuntimeError { kind: RuntimeErrorKind::UndefinedVariable, token: name },
                    ),
                }
            },
            None => match Environment::get(&self.heap, self.globals, name) {
                Ok(value) => {
                    self.give(value);
                    Action::Continue
                },
                Err(error) => self.fail(error),
            },
        }
    }

    /// Gives the method `method` bound to `object` as the value.
    fn give_bound(&mut self, method: LoxCallable, object: Object)
        requires
            old(self)@.sound(),
            method is User,
            old(self).heap.holds_callable(method),
            old(self).heap.holds(object),
        ensures
            final(self)@.sound(),
            method_bound(old(self)@, method, object, final(self)@),
    {
        let bound: LoxCallable = method.bind(&mut self.heap, object);
        proof {
            old(self)@.lemma_sound_on(self.heap);
        }
        self.value = Some(Object::Callable(bound));
    }

    /// Evaluates `super.method`.
    fn evaluate_super(&mut self, expr: usize, keyword: usize, method: usize) -> (action: Action)
        requires
            old(self)@.leaving is None,
            old(self)@.sound(),
            old(self)@.idle(),
            awaits_value(old(self)@.frames),
            keyword < old(self).heap.ast.tokens@.len(),
            method < old(self).heap.ast.tokens@.len(),
        ensures
            final(self)@.wf(),
            super_found(old(self)@, expr, keyword, method, final(self)@, action),
    {
        let distance: usize = match self.depth_of(expr) {
            Some(d) => d,
            None => 0,
        };
        let inner: usize = if distance >= 1 {
            distance - 1
        } else {
            0
        };
        let object: Object = match get_at(
            &self.heap,
            self.environment,
            inner,
            &String::from_str("this"),
        ) {
            Ok(value) => value,
            Err(_) => Object::Nil,
        };
        let superclass: Object = match get_at(
            &self.heap,
            self.environment,
            distance,
            &String::from_str("super"),
        ) {
            Ok(value) => value,
            Err(_) => Object::Nil,
        };
        match superclass {
            Object::Class(class) => {
                match LoxClass::find_method(
                    &self.heap,
                    class,
                    &self.heap.ast.tokens[method].lexeme,
                ) {
                    Some(found) => {
                        self.give_bound(found, object);
                        Action::Continue
                    },
                    None => self.fail(
                        RuntimeError { kind: RuntimeErrorKind::UndefinedProperty, token: method },
                    ),
                }
            },
            _ => self.fail(
                RuntimeError { kind: RuntimeErrorKind::UndefinedVariable, token: keyword },
            ),
        }
    }

    /// Gives the value of a literal, or asks the host for that of a number.
    fn give_constant(&mut self, value: Constant) -> (action: Action)
        requires
            old(self)@.leaving is None,
            old(self)@.sound(),
            old(self)@.idle(),
            awaits_value(old(self)@.frames),
            value matches Constant::OfToken(token) ==> token < old(self).heap.ast.tokens@.len(),
        ensures
            final(self)@.wf(),
            constant_given(old(self)@, value, final(self)@, action),
    {
        match value {
            Constant::Nil => {
                self.give(Object::Nil);
                Action::Continue
            },
            Constant::Boolean(b) => {
                self.give(Object::Boolean(b));
                Action::Continue
            },
            Constant::OfToken(token) => {
                let constant: Option<Object> = match &self.heap.ast.tokens[token].literal {
                    Literal::String(s) => Some(Object::String(s.clone())),
                    Literal::Number(_) => None,
                    Literal::Boolean(b) => Some(Object::Boolean(*b)),
                    Literal::Nil => Some(Object::Nil),
                };
                match constant {
                    Some(object) => {
                        self.give(object);
                        Action::Continue
                    },
                    None => {
                        self.pending = Some(Request::ParseNumber { token });
                        Action::Ask(Request::ParseNumber { token })
                    },
                }
            },
        }
    }

    /// Evaluates the expression `expr`: gives its value if that is known at
    /// once, and else puts on the stack what is left to do.
    pub fn evaluate(&mut self, expr: usize) -> (action: Action)
        requires
            old(self)@.leaving is None,
            old(self)@.sound(),
            old(self)@.idle(),
            awaits_value(old(self)@.frames),
            expr < old(self).heap.ast.exprs@.len(),
        ensures
            final(self)@.wf(),
            evaluated(old(self)@, expr, final(self)@, action),
    {
        proof {
            self.heap.lemma_ast();
            self.heap.ast.lemma_expr_fits(expr as int);
        }
        let node: Expr = self.heap.ast.exprs[expr];
        match node {
            Expr::Literal { value } => self.give_constant(value),
            Expr::Grouping { expression } => {
                self.push(Frame::Eval(expression));
                Action::Continue
            },
            Expr::Unary { operator, right } => {
                self.push(Frame::Unary(operator));
                self.push(Frame::Eval(right));
                Action::Continue
            },
            Expr::Binary { left, operator, right } => {
                self.push(Frame::BinaryRight { operator, right });
                self.push(Frame::Eval(left));
                Action::Continue
            },
            Expr::Logical { left, operator, right } => {
                self.push(Frame::LogicalRhs { operator, right });
                self.push(Frame::Eval(left));
                Action::Continue
            },
            Expr::Variable { name } => self.look_up_variable(name, expr),
            Expr::This { keyword } => self.look_up_variable(keyword, expr),
            Expr::Assign { name, value } => {
                self.push(Frame::Assign { expr, name });
                self.push(Frame::Eval(value));
                Action::Continue
            },
            Expr::Call { callee, paren, arguments } => {
                proof {
                    assert(span_below(
                        self.heap.ast.lists@,
                        arguments,
                        self.heap.ast.exprs@.len() as int,
                    ));
                }
                self.push(Frame::CallCheck { paren, arguments });
                self.push(Frame::Eval(callee));
                Action::Continue
            },
            Expr::Get { object, name } => {
                self.push(Frame::GetProp(name));
                self.push(Frame::Eval(object));
                Action::Continue
            },
            Expr::SetProperty { object, name, value } => {
                self.push(Frame::SetCheck { name, value });
                self.push(Frame::Eval(object));
                Action::Continue
            },
            Expr::Super { keyword, method } => self.evaluate_super(expr, keyword, method),
        }
    }

    /// Applies the unary operator of the token `operator` to the value.
    fn apply_unary(&mut self, operator: usize) -> (action: Action)
        requires
            old(self)@.leaving is None,
            old(self)@.sound(),
            old(self)@.value is Some,
            old(self)@.pending is None,
            awaits_value(old(self)@.frames),
            operator < old(self).heap.ast.tokens@.len(),
        ensures
            final(self)@.wf(),
            unary_applied(old(self)@, operator, final(self)@, action),
    {
        let value: Object = self.take();
        if self.heap.ast.tokens[operator].token_type == TokenType::Bang {
            self.give(Object::Boolean(!is_truthy(&value)));
            return Action::Continue;
        }
        match value {
            Object::Number(n) => {
                self.give(Object::Number(n.neg()));
                Action::Continue
            },
            _ => self.fail(
                RuntimeError { kind: RuntimeErrorKind::OperandMustBeNumber, token: operator },
            ),
        }
    }

    /// Keeps the left operand and goes on to the right one.
    fn keep_left(&mut self, operator: usize, right: usize) -> (action: Action)
        requires
            old(self)@.leaving is None,
            old(self)@.sound(),
            old(self)@.value is Some,
            old(self)@.pending is None,
            awaits_value(old(self)@.frames),
            operator < old(self).heap.ast.tokens@.len(),
            right < old(self).heap.ast.exprs@.len(),
        ensures
            final(self)@.wf(),
            left_given(old(self)@, operator, right, final(self)@, action),
    {
        let left: Object = self.take();
        self.push(Frame::BinaryApply { operator, left });
        self.push(Frame::Eval(right));
        Action::Continue
    }

    /// Asks the host for the result of an arithmetic operation.
    fn ask_arithmetic(&mut self, operator: Arithmetic, left: Number, right: Number) -> (action:
        Action)
        requires
            old(self)@.leaving is None,
            old(self)@.sound(),
            old(self)@.idle(),
            awaits_value(old(self)@.frames),
        ensures
            final(self)@.wf(),
            final(self)@ == old(self)@.ask(Request::Arithmetic { operator, left, right }),
            action == Action::Ask(Request::Arithmetic { operator, left, right }),
    {
        let request = Request::Arithmetic { operator, left, right };
        self.pending = Some(request);
        Action::Ask(request)
    }

    /// Applies the binary operator of the token `operator` to `left` and
    /// the value.
    fn apply_binary(&mut self, operator: usize, left: Object) -> (action: Action)
        requires
            old(self)@.leaving is None,
            old(self)@.sound(),
            old(self)@.value is Some,
            old(self)@.pending is None,
            awaits_value(old(self)@.frames),
            operator < old(self).heap.ast.tokens@.len(),
            old(self).heap.holds(left),
        ensures
            final(self)@.wf(),
            binary_applied(old(self)@, operator, left, final(self)@, action),
    {
        let right: Object = self.take();
        let kind: TokenType = self.heap.ast.tokens[operator].token_type;
        let numbers = RuntimeError { kind: RuntimeErrorKind::OperandsMustBeNumbers, token: operator };
        match kind {
            TokenType::Minus | TokenType::Slash | TokenType::Star | TokenType::Plus => {
                let arithmetic: Arithmetic = match kind {
                    TokenType::Minus => Arithmetic::Subtract,
                    TokenType::Slash => Arithmetic::Divide,
                    TokenType::Star => Arithmetic::Multiply,
                    _ => Arithmetic::Add,
                };
                match (left, right) {
                    (Object::Number(a), Object::Number(b)) => self.ask_arithmetic(arithmetic, a, b),
                    (Object::String(a), Object::String(b)) => {
                        if kind == TokenType::Plus {
                            self.give(Object::String(a.concat(b.as_str())));
                            Action::Continue
                        } else {
                            self.fail(numbers)
                        }
                    },
                    _ => {
                        if kind == TokenType::Plus {
                            self.fail(
                                RuntimeError {
                                    kind: RuntimeErrorKind::OperandsMustBeNumbersOrStrings,
                                    token: operator,
                                },
                            )
                        } else {
                            self.fail(numbers)
                        }
                    },
                }
            },
            TokenType::Greater | TokenType::GreaterEqual | TokenType::Less | TokenType::LessEqual
            => {
                match (left, right) {
                    (Object::Number(a), Object::Number(b)) => {
                        let result: bool = match kind {
                            TokenType::Greater => b.lt(&a),
                            TokenType::GreaterEqual => b.le(&a),
                            TokenType::Less => a.lt(&b),
                            _ => a.le(&b),
                        };
                        self.give(Object::Boolean(result));
                        Action::Continue
                    },
                    _ => self.fail(numbers),
                }
            },
            TokenType::BangEqual => {
                self.give(Object::Boolean(!is_equal(&left, &right)));
                Action::Continue
            },
            _ => {
                self.give(Object::Boolean(is_equal(&left, &right)));
                Action::Continue
            },
        }
    }

    /// Decides `and` or `or` on its left operand, or goes on to the right
    /// one.
    fn decide_logical(&mut self, operator: usize, right: usize) -> (action: Action)
        requires
            old(self)@.leaving is None,
            old(self)@.sound(),
            old(self)@.value is Some,
            old(self)@.pending is None,
            awaits_value(old(self)@.frames),
            operator < old(self).heap.ast.tokens@.len(),
            right < old(self).heap.ast.exprs@.len(),
        ensures
            final(self)@.wf(),
            logical_decided(old(self)@, operator, right, final(self)@, action),
    {
        let left: Object = self.take();
        let truthy: bool = is_truthy(&left);
        let decided: bool = if self.heap.ast.tokens[operator].token_type == TokenType::Or {
            truthy
        } else {
            !truthy
        };
        if decided {
            self.give(left);
        } else {
            self.push(Frame::Eval(right));
        }
        Action::Continue
    }

    /// Assigns the value to the variable of the expression `expr`.
    fn assign(&mut self, expr: usize, name: usize) -> (action: Action)
        requires
            old(self)@.leaving is None,
            old(self)@.sound(),
            old(self)@.value is Some,
            old(self)@.pending is None,
            awaits_value(old(self)@.frames),
            name < old(self).heap.ast.tokens@.len(),
        ensures
            final(self)@.wf(),
            assigned(old(self)@, expr, name, final(self)@, action),
    {
        let value: Object = self.take();
        let copy: Object = value.clone();
        let ghost taken = self@;
        match self.depth_of(expr) {
            Some(distance) => {
                let _ = assign_at(&mut self.heap, self.environment, distance, name, copy);
                proof {
                    taken.lemma_sound_on(self.heap);
                }
                self.give(value);
                Action::Continue
            },
            None => {
                let result = Environment::assign(&mut self.heap, self.globals, name, copy);
                proof {
                    taken.lemma_sound_on(self.heap);
                }
                match result {
                    Ok(_) => {
                        self.give(value);
                        Action::Continue
                    },
                    Err(error) => self.fail(error),
                }
            },
        }
    }

    /// Reads the property named by the token `name` of the value.
    fn read_property(&mut self, name: usize) -> (action: Action)
        requires
            old(self)@.leaving is None,
            old(self)@.sound(),
            old(self)@.value is Some,
            old(self)@.pending is None,
            awaits_value(old(self)@.frames),
            name < old(self).heap.ast.tokens@.len(),
        ensures
            final(self)@.wf(),
            property_read(old(self)@, name, final(self)@, action),
    {
        let value: Object = self.take();
        let ghost taken = self@;
        match value {
            Object::Instance(instance) => {
                let found = LoxInstance::get(&mut self.heap, instance, name);
                proof {
                    taken.lemma_sound_on(self.heap);
                }
                match found {
                    Ok(property) => {
                        self.give(property);
                        Action::Continue
                    },
                    Err(error) => self.fail(error),
                }
            },
            _ => self.fail(
                RuntimeError { kind: RuntimeErrorKind::OnlyInstancesHaveProperties, token: name },
            ),
        }
    }

    /// Checks that the value can have fields, and goes on to what is to be
    /// stored.
    fn check_store(&mut self, name: usize, value: usize) -> (action: Action)
        requires
            old(self)@.leaving is None,
            old(self)@.sound(),
            old(self)@.value is Some,
            old(self)@.pending is None,
            awaits_value(old(self)@.frames),
            name < old(self).heap.ast.tokens@.len(),
            value < old(self).heap.ast.exprs@.len(),
        ensures
            final(self)@.wf(),
            store_checked(old(self)@, name, value, final(self)@, action),
    {
        let object: Object = self.take();
        match object {
            Object::Instance(instance) => {
                self.push(Frame::SetProp { instance, name });
                self.push(Frame::Eval(value));
                Action::Continue
            },
            _ => self.fail(
                RuntimeError { kind: RuntimeErrorKind::OnlyInstancesHaveFields, token: name },
            ),
        }
    }

    /// Stores the value in the field named by the token `name`.
    fn store(&mut self, instance: usize, name: usize) -> (action: Action)
        requires
            old(self)@.leaving is None,
            old(self)@.sound(),
            old(self)@.value is Some,
            old(self)@.pending is None,
            awaits_value(old(self)@.frames),
            instance < old(self).heap.instances@.len(),
            name < old(self).heap.ast.tokens@.len(),
        ensures
            final(self)@.wf(),
            stored(old(self)@, instance, name, final(self)@, action),
    {
        let value: Object = self.take();
        let copy: Object = value.clone();
        let ghost taken = self@;
        LoxInstance::set(&mut self.heap, instance, name, copy);
        proof {
            taken.lemma_sound_on(self.heap);
        }
        self.give(value);
        Action::Continue
    }
}

impl Interpreter {
    /// Enters a function of the program with the arguments `arguments`.
    fn enter(
        &mut self,
        params: Span,
        body: Span,
        closure: usize,
        is_initializer: bool,
        arguments: &Vec<Object>,
    )
        requires
            old(self)@.leaving is None,
            old(self)@.sound(),
            old(self)@.idle(),
            awaits_value(old(self)@.frames),
            span_below(
                old(self).heap.ast.lists@,
                params,
                old(self).heap.ast.tokens@.len() as int,
            ),
            span_below(
                old(self).heap.ast.lists@,
                body,
                old(self).heap.ast.stmts@.len() as int,
            ),
            closure < old(self).heap.environments@.len(),
            arguments@.len() == params.len,
            forall|i: int| 0 <= i < arguments@.len() ==> old(self).heap.holds(
                #[trigger] arguments@[i],
            ),
        ensures
            final(self)@.wf(),
            entered(old(self)@, params, body, closure, is_initializer, arguments@, final(self)@),
    {
        let previous: usize = self.environment;
        let inner: usize = self.new_environment(closure);
        let mut i: usize = 0;
        while i < params.len
            invariant
                self@.sound(),
                i <= params.len,
                arguments@.len() == params.len,
                inner == old(self).heap.environments@.len(),
                span_below(
                    self.heap.ast.lists@,
                    params,
                    self.heap.ast.tokens@.len() as int,
                ),
                forall|j: int| 0 <= j < arguments@.len() ==> self.heap.holds(
                    #[trigger] arguments@[j],
                ),
                self.heap.with_new_environment(
                    &old(self).heap,
                    Some(closure),
                    bindings(&old(self).heap.ast, params, arguments@, i as nat),
                ),
                self@ == old(self)@.on(self.heap),
            decreases params.len - i,
        {
            let name: usize = self.heap.ast.list_entry(params, i);
            let text: String = self.heap.ast.tokens[name].lexeme.clone();
            let ghost before = self.heap;
            self.define(inner, text, arguments[i].clone());
            proof {
                assert(self.heap.environments@.drop_last() =~= before.environments@.drop_last());
                assert forall|j: int| 0 <= j < arguments@.len() implies self.heap.holds(
                    #[trigger] arguments@[j],
                ) by {
                    self.heap.lemma_grown_holds(&before, arguments@[j]);
                }
            }
            i += 1;
        }
        self.environment = inner;
        self.push(Frame::CallReturn { previous, closure, is_initializer });
        self.push(Frame::ExecList { span: body, next: 0 });
    }

    /// Calls the class `class`: makes an instance, and enters the
    /// initializer if the class has one.
    fn instantiate(&mut self, paren: usize, class: usize, arguments: Vec<Object>) -> (action:
        Action)
        requires
            old(self)@.leaving is None,
            old(self)@.sound(),
            old(self)@.idle(),
            awaits_value(old(self)@.frames),
            paren < old(self).heap.ast.tokens@.len(),
            class < old(self).heap.classes@.len(),
            forall|i: int| 0 <= i < arguments@.len() ==> old(self).heap.holds(
                #[trigger] arguments@[i],
            ),
        ensures
            final(self)@.wf(),
            invoked(old(self)@, paren, Object::Class(class), arguments@, final(self)@, action),
    {
        let instance: usize = LoxInstance::new(&mut self.heap, class);
        proof {
            old(self)@.lemma_sound_on(self.heap);
        }
        let ghost made = self.heap;
        let found = LoxClass::find_method(&self.heap, class, &String::from_str("init"));
        proof {
            assert(made.classes == old(self).heap.classes);
            lemma_same_method(&made, &old(self).heap, class, "init"@);
        }
        match found {
            Some(LoxCallable::User { name, params, body, closure, is_initializer }) => {
                if arguments.len() != params.len {
                    return self.fail(
                        RuntimeError {
                            kind: RuntimeErrorKind::WrongArity {
                                expected: params.len,
                                got: arguments.len(),
                            },
                            token: paren,
                        },
                    );
                }
                let initializer = LoxCallable::User { name, params, body, closure, is_initializer };
                let ghost before = self@;
                let bound: LoxCallable = initializer.bind(
                    &mut self.heap,
                    Object::Instance(instance),
                );
                let ghost with_this = self.heap;
                proof {
                    before.lemma_sound_on(self.heap);
                    self.heap.lemma_grown_callable(&made, initializer);
                    assert forall|i: int| 0 <= i < arguments@.len() implies self.heap.holds(
                        #[trigger] arguments@[i],
                    ) by {
                        made.lemma_grown_holds(&old(self).heap, arguments@[i]);
                        self.heap.lemma_grown_holds(&made, arguments@[i]);
                    }
                }
                let this: usize = match bound {
                    LoxCallable::User { closure: inner, .. } => inner,
                    LoxCallable::Native { .. } => closure,
                };
                self.enter(params, body, this, is_initializer, &arguments);
                proof {
                    assert(self.heap.environments.len() == self.heap.environments@.len());
                    assert(self.heap.instances.len() == self.heap.instances@.len());
                    lemma_instantiated(
                        old(self)@,
                        made,
                        with_this,
                        self@,
                        paren,
                        class,
                        arguments@,
                        initializer,
                    );
                }
                Action::Continue
            },
            _ => {
                self.give(Object::Instance(instance));
                Action::Continue
            },
        }
    }

    /// Calls `callee` with the arguments `arguments`.
    fn invoke(&mut self, paren: usize, callee: Object, arguments: Vec<Object>) -> (action: Action)
        requires
            old(self)@.leaving is None,
            old(self)@.sound(),
            old(self)@.idle(),
            awaits_value(old(self)@.frames),
            paren < old(self).heap.ast.tokens@.len(),
            old(self).heap.holds(callee),
            forall|i: int| 0 <= i < arguments@.len() ==> old(self).heap.holds(
                #[trigger] arguments@[i],
            ),
        ensures
            final(self)@.wf(),
            invoked(old(self)@, paren, callee, arguments@, final(self)@, action),
    {
        match callee {
            Object::Callable(LoxCallable::Native { arity, function }) => {
                if arguments.len() != arity {
                    return self.fail(
                        RuntimeError {
                            kind: RuntimeErrorKind::WrongArity {
                                expected: arity,
                                got: arguments.len(),
                            },
                            token: paren,
                        },
                    );
                }
                self.pending = Some(Request::Clock);
                Action::Ask(Request::Clock)
            },
            Object::Callable(LoxCallable::User { name, params, body, closure, is_initializer }) => {
                if arguments.len() != params.len {
                    return self.fail(
                        RuntimeError {
                            kind: RuntimeErrorKind::WrongArity {
                                expected: params.len,
                                got: arguments.len(),
                            },
                            token: paren,
                        },
                    );
                }
                self.enter(params, body, closure, is_initializer, &arguments);
                Action::Continue
            },
            Object::Class(class) => self.instantiate(paren, class, arguments),
            _ => self.fail(RuntimeError { kind: RuntimeErrorKind::NotCallable, token: paren }),
        }
    }

    /// Checks that the value can be called, and goes on to its arguments.
    fn check_callee(&mut self, paren: usize, arguments: Span) -> (action: Action)
        requires
            old(self)@.leaving is None,
            old(self)@.sound(),
            old(self)@.value is Some,
            old(self)@.pending is None,
            awaits_value(old(self)@.frames),
            (Frame::CallCheck { paren, arguments }).fits(&old(self).heap),
        ensures
            final(self)@.wf(),
            callee_checked(old(self)@, paren, arguments, final(self)@, action),
    {
        let callee: Object = self.take();
        let callable: bool = match &callee {
            Object::Callable(_) => true,
            Object::Class(_) => true,
            _ => false,
        };
        if !callable {
            return self.fail(RuntimeError { kind: RuntimeErrorKind::NotCallable, token: paren });
        }
        if arguments.len == 0 {
            return self.invoke(paren, callee, Vec::new());
        }
        let first: usize = self.heap.ast.list_entry(arguments, 0);
        let ghost taken = self@;
        self.push(Frame::Argument { paren, callee, arguments, done: Vec::new() });
        self.push(Frame::Eval(first));
        proof {
            assert(self@.frames.subrange(0, taken.frames.len() as int) =~= taken.frames);
        }
        Action::Continue
    }

    /// Takes the value as the next argument of a call.
    fn take_argument(&mut self, paren: usize, callee: Object, arguments: Span, done: Vec<Object>)
        -> (action: Action)
        requires
            old(self)@.leaving is None,
            old(self)@.sound(),
            old(self)@.value is Some,
            old(self)@.pending is None,
            awaits_value(old(self)@.frames),
            (Frame::Argument { paren, callee, arguments, done }).fits(&old(self).heap),
        ensures
            final(self)@.wf(),
            argument_given(old(self)@, paren, callee, arguments, done@, final(self)@, action),
    {
        let argument: Object = self.take();
        let mut done = done;
        done.push(argument);
        if done.len() < arguments.len {
            let next: usize = self.heap.ast.list_entry(arguments, done.len());
            let ghost taken = self@;
            self.push(Frame::Argument { paren, callee, arguments, done });
            self.push(Frame::Eval(next));
            proof {
                assert(self@.frames.subrange(0, taken.frames.len() as int) =~= taken.frames);
            }
            Action::Continue
        } else {
            self.invoke(paren, callee, done)
        }
    }
}

/// Making an instance, binding the initializer to it and entering the
/// bound initializer is what calling a class with an initializer does.
pub proof fn lemma_instantiated(
    pre: Machine,
    made: Heap,
    with_this: Heap,
    post: Machine,
    paren: usize,
    class: usize,
    arguments: Seq<Object>,
    initializer: LoxCallable,
)
    requires
        post.heap.environments@.len() <= usize::MAX,
        post.heap.instances@.len() <= usize::MAX,
        made.with_new_instance(&pre.heap, class),
        pre.heap.method(class, "init"@) == Some(initializer),
        initializer matches LoxCallable::User { params, body, is_initializer, .. }
            && arguments.len() == params.len && entered(
            pre.on(with_this),
            params,
            body,
            made.environments@.len() as usize,
            is_initializer,
            arguments,
            post,
        ),
        with_this.with_binding_environment(
            &made,
            initializer,
            Object::Instance(pre.heap.instances@.len() as usize),
        ),
    ensures
        invoked(pre, paren, Object::Class(class), arguments, post, Action::Continue),
{
    let n = pre.heap.environments@.len() as int;
    assert(post.heap.environments@.drop_last() == with_this.environments@);
    assert(with_this.environments@.drop_last() == made.environments@);
    assert(post.heap.environments@.subrange(0, n) =~= pre.heap.environments@);
    assert(post.heap.environments@[n] == with_this.environments@[n]);
    assert(post.heap.instances@.drop_last() =~= pre.heap.instances@);
}

/// The method of a class depends on the classes alone.
pub proof fn lemma_same_method(a: &Heap, b: &Heap, class: usize, name: Seq<char>)
    requires
        a.classes == b.classes,
    ensures
        a.method(class, name) == b.method(class, name),
    decreases class,
{
    if class < a.classes@.len() && !a.classes@[class as int].methods@.contains_key(name) {
        if let Some(parent) = a.classes@[class as int].superclass {
            if parent < class {
                lemma_same_method(a, b, parent, name);
            }
        }
    }
}

impl Interpreter {
    /// Does one step: what the uppermost entry of the stack stands for, or,
    /// while the machine leaves the stack for a runtime error or a
    /// `return`, the leaving of one entry. The host does what the action
    /// says and steps again: after `Ask` it answers the request first;
    /// after `Done` or `Error` nothing is left to do. A runtime error is
    /// handed out when every block and call that it ends has been left.
    pub fn step(&mut self) -> (action: Action)
        requires
            old(self)@.wf(),
        ensures
            final(self)@.wf(),
            stepped(old(self)@, final(self)@, action),
            action matches Action::Error(error) ==> error.token
                < final(self).heap.ast.tokens@.len(),
    {
        match self.pending {
            Some(request) => {
                return Action::Ask(request);
            },
            None => {},
        }
        if self.leaving.is_some() {
            return self.unwind_step();
        }
        if self.frames.len() == 0 {
            return Action::Done;
        }
        let frame: Frame = self.pop();
        let action: Action = match frame {
            Frame::Exec(stmt) => self.execute(stmt),
            Frame::ExecList { span, next } => self.execute_list(span, next),
            Frame::RestoreEnv(environment) => {
                self.environment = environment;
                Action::Continue
            },
            Frame::Discard => {
                self.take();
                Action::Continue
            },
            Frame::Print => self.print(),
            Frame::DefineVar(name) => self.define_variable(name),
            Frame::Branch { then_branch, else_branch } => self.branch(then_branch, else_branch),
            Frame::LoopTest { condition, body } => self.loop_test(condition, body),
            Frame::Return => self.unwind(),
            Frame::ClassSuper { name, methods, token } => self.declare_subclass(
                name,
                methods,
                token,
            ),
            Frame::CallReturn { previous, closure, is_initializer } => self.end_call(
                previous,
                closure,
                is_initializer,
            ),
            Frame::Eval(expr) => self.evaluate(expr),
            Frame::Unary(operator) => self.apply_unary(operator),
            Frame::BinaryRight { operator, right } => self.keep_left(operator, right),
            Frame::BinaryApply { operator, left } => self.apply_binary(operator, left),
            Frame::LogicalRhs { operator, right } => self.decide_logical(operator, right),
            Frame::Assign { expr, name } => self.assign(expr, name),
            Frame::GetProp(name) => self.read_property(name),
            Frame::SetCheck { name, value } => self.check_store(name, value),
            Frame::SetProp { instance, name } => self.store(instance, name),
            Frame::CallCheck { paren, arguments } => self.check_callee(paren, arguments),
            Frame::Argument { paren, callee, arguments, done } => self.take_argument(
                paren,
                callee,
                arguments,
                done,
            ),
        };
        action
    }

    /// Takes the host's answer to a request for a number. An answer that
    /// was not asked for is refused and changes nothing.
    pub fn reply_number(&mut self, number: Number) -> (accepted: bool)
        requires
            old(self)@.wf(),
        ensures
            final(self)@.wf(),
            number_replied(old(self)@, number, final(self)@, accepted),
    {
        match self.pending {
            Some(Request::FormatNumber(_)) => false,
            Some(_) => {
                self.pending = None;
                self.value = Some(Object::Number(number));
                true
            },
            None => false,
        }
    }

    /// Takes the host's answer to a request for the text of a number. An
    /// answer that was not asked for is refused and changes nothing.
    pub fn reply_text(&mut self, text: String) -> (accepted: bool)
        requires
            old(self)@.wf(),
        ensures
            final(self)@.wf(),
            text_replied(old(self)@, text@, final(self)@, accepted),
    {
        match self.pending {
            Some(Request::FormatNumber(_)) => {
                self.pending = None;
                self.value = Some(Object::String(number_text(text)));
                true
            },
            _ => false,
        }
    }

    /// Starts a program: whatever was left to do is dropped, the global
    /// environment is current, and the statements of the run `program` are
    /// what is to be done, in order.
    pub fn start(&mut self, program: Span)
        requires
            old(self)@.wf(),
            span_below(
                old(self).heap.ast.lists@,
                program,
                old(self).heap.ast.stmts@.len() as int,
            ),
        ensures
            final(self)@.wf(),
            final(self)@ == old(self)@.abort().push(Frame::ExecList { span: program, next: 0 }),
    {
        self.frames.clear();
        self.value = None;
        self.pending = None;
        self.leaving = None;
        self.environment = self.globals;
        self.push(Frame::ExecList { span: program, next: 0 });
    }

    /// Starts a program of the statements `statements`, which are appended
    /// to the list table of the tree.
    pub fn interpret(&mut self, statements: Vec<usize>)
        requires
            old(self)@.wf(),
            forall|i: int|
                0 <= i < statements@.len() ==> #[trigger] statements@[i] < old(
                    self,
                ).heap.ast.stmts@.len(),
        ensures
            final(self)@.wf(),
            final(self).heap.grown_from(&old(self).heap),
            final(self).heap.ast.lists@ == old(self).heap.ast.lists@ + statements@,
            final(self).heap.ast.tokens == old(self).heap.ast.tokens,
            final(self).heap.ast.exprs == old(self).heap.ast.exprs,
            final(self).heap.ast.stmts == old(self).heap.ast.stmts,
            final(self).heap.environments == old(self).heap.environments,
            final(self).heap.classes == old(self).heap.classes,
            final(self).heap.instances == old(self).heap.instances,
            final(self)@ == old(self)@.on(final(self).heap).abort().push(
                Frame::ExecList {
                    span: Span {
                        start: old(self).heap.ast.lists@.len() as usize,
                        len: statements@.len() as usize,
                    },
                    next: 0,
                },
            ),
    {
        let mut statements = statements;
        let span: Span = self.heap.add_program(&mut statements);
        proof {
            old(self)@.lemma_sound_on(self.heap);
        }
        self.start(span);
    }
}

impl LoxCallable {
    /// Calls the callable with `arguments` on the interpreter `interpreter`,
    /// which awaits the result; `paren` is the token at which a wrong number
    /// of arguments is reported.
    pub fn call(&self, interpreter: &mut Interpreter, paren: usize, arguments: Vec<Object>) -> (action:
        Action)
        requires
            old(interpreter)@.sound(),
            old(interpreter)@.idle(),
            old(interpreter)@.leaving is None,
            awaits_value(old(interpreter)@.frames),
            paren < old(interpreter).heap.ast.tokens@.len(),
            old(interpreter).heap.holds_callable(*self),
            forall|i: int| 0 <= i < arguments@.len() ==> old(interpreter).heap.holds(
                #[trigger] arguments@[i],
            ),
        ensures
            final(interpreter)@.wf(),
            invoked(
                old(interpreter)@,
                paren,
                Object::Callable(*self),
                arguments@,
                final(interpreter)@,
                action,
            ),
    {
        interpreter.invoke(paren, Object::Callable(*self), arguments)
    }
}

} // verus!
