use crate::expr::Span;
use vstd::prelude::*;

verus! {

/// A statement node. Expressions, statements and tokens are named by their
/// index in the syntax tree's tables.
#[allow(inconsistent_fields)]
#[derive(Clone, Copy, Debug, PartialEq, Eq)]
pub enum Stmt {
    Block { statements: Span },
    Class { name: usize, superclass: Option<usize>, methods: Span },
    Expression { expression: usize },
    Function { name: usize, params: Span, body: Span },
    If { condition: usize, then_branch: usize, else_branch: Option<usize> },
    Print { expression: usize },
    Return { keyword: usize, value: Option<usize> },
    Var { name: usize, initializer: Option<usize> },
    While { condition: usize, body: usize },
}

} // verus!
