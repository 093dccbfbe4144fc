use vstd::prelude::*;

verus! {

/// A run of entries in the syntax tree's list table: the arguments of a call,
/// the statements of a block, the parameters of a function.
#[derive(Clone, Copy, Debug, PartialEq, Eq)]
pub struct Span {
    pub start: usize,
    pub len: usize,
}

/// The value of a literal expression: written out for the three keywords,
/// or the payload of a string or number token.
#[allow(inconsistent_fields)]
#[derive(Clone, Copy, Debug, PartialEq, Eq)]
pub enum Constant {
    Nil,
    Boolean(bool),
    OfToken(usize),
}

/// An expression node. Sub-expressions and tokens are named by their index
/// in the syntax tree's tables, so a node's index is its identity.
#[allow(inconsistent_fields)]
#[derive(Clone, Copy, Debug, PartialEq, Eq)]
pub enum Expr {
    Assign { name: usize, value: usize },
    Binary { left: usize, operator: usize, right: usize },
    Call { callee: usize, paren: usize, arguments: Span },
    Get { object: usize, name: usize },
    Grouping { expression: usize },
    Literal { value: Constant },
    Logical { left: usize, operator: usize, right: usize },
    SetProperty { object: usize, name: usize, value: usize },
    Super { keyword: usize, method: usize },
    This { keyword: usize },
    Unary { operator: usize, right: usize },
    Variable { name: usize },
}

} // verus!
