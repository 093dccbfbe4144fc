use crate::ast::span_below;
use crate::expr::Span;
use vstd::prelude::*;

verus! {

/// The functions that the host provides.
#[derive(PartialEq, Eq, Structural, Clone, Copy, Debug)]
pub enum NativeFunction {
    /// The time in seconds since the epoch, as a number.
    Clock,
}

/// Something that can be called with arguments: a function of the host, or
/// a function of the program together with the environment it was declared
/// in. A user function names its declaration by the token of its name and
/// the runs of its parameters and of its body in the syntax tree.
#[derive(Clone, Copy, Debug)]
pub enum LoxCallable {
    Native { arity: usize, function: NativeFunction },
    User { name: usize, params: Span, body: Span, closure: usize, is_initializer: bool },
}

impl LoxCallable {
    /// The callable names only tokens, statements and an environment that
    /// exist.
    pub open spec fn fits(
        self,
        tokens: int,
        stmts: int,
        lists: Seq<usize>,
        environments: int,
    ) -> bool {
        match self {
            LoxCallable::Native { .. } => true,
            LoxCallable::User { name, params, body, closure, is_initializer } => {
                &&& name < tokens
                &&& span_below(lists, params, tokens)
                &&& span_below(lists, body, stmts)
                &&& closure < environments
            },
        }
    }

    /// The number of arguments that a call must pass.
    pub open spec fn spec_arity(self) -> usize {
        match self {
            LoxCallable::Native { arity, .. } => arity,
            LoxCallable::User { params, .. } => params.len,
        }
    }

    /// The callable with another closure.
    pub open spec fn with_closure(self, environment: usize) -> LoxCallable {
        match self {
            LoxCallable::Native { .. } => self,
            LoxCallable::User { name, params, body, closure, is_initializer } => LoxCallable::User {
                name,
                params,
                body,
                closure: environment,
                is_initializer,
            },
        }
    }

    /// The number of arguments that a call must pass.
    pub fn arity(&self) -> (r: usize)
        ensures
            r == self.spec_arity(),
    {
        match self {
            LoxCallable::Native { arity, .. } => *arity,
            LoxCallable::User { params, .. } => params.len,
        }
    }
}

} // verus!
