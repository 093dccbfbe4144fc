use crate::callable::LoxCallable;
use crate::util::Number;
use vstd::prelude::*;
use vstd::string::*;

verus! {

/// A value of the language. Classes and instances are named by their index
/// in the heap, which is their identity.
#[derive(Debug)]
pub enum Object {
    String(String),
    Number(Number),
    Boolean(bool),
    Callable(LoxCallable),
    Class(usize),
    Instance(usize),
    Nil,
}

impl Clone for Object {
    fn clone(&self) -> (r: Self)
        ensures
            r == *self,
    {
        match self {
            Object::String(s) => Object::String(s.clone()),
            Object::Number(n) => Object::Number(*n),
            Object::Boolean(b) => Object::Boolean(*b),
            Object::Callable(c) => Object::Callable(*c),
            Object::Class(c) => Object::Class(*c),
            Object::Instance(i) => Object::Instance(*i),
            Object::Nil => Object::Nil,
        }
    }
}

impl Object {
    /// `nil` and `false` are falsy.
    pub open spec fn falsy(self) -> bool {
        self == Object::Nil || self == Object::Boolean(false)
    }

    /// Everything but `nil` and `false` is truthy.
    pub open spec fn truthy(self) -> bool {
        match self {
            Object::Nil => false,
            Object::Boolean(b) => b,
            _ => true,
        }
    }

    /// Equality of values: `nil` equals `nil`; values of one kind are equal
    /// if what they hold is, numbers as IEEE-754 has it, strings by their
    /// text, callables, classes and instances by identity; values of
    /// different kinds are never equal.
    pub open spec fn equals(self, other: Object) -> bool {
        match (self, other) {
            (Object::Nil, Object::Nil) => true,
            (Object::Number(a), Object::Number(b)) => a.ieee_eq(b),
            (Object::String(a), Object::String(b)) => a@ == b@,
            (Object::Boolean(a), Object::Boolean(b)) => a == b,
            (Object::Callable(a), Object::Callable(b)) => a == b,
            (Object::Class(a), Object::Class(b)) => a == b,
            (Object::Instance(a), Object::Instance(b)) => a == b,
            _ => false,
        }
    }

    /// The value is a number that is not a number.
    pub open spec fn is_nan(self) -> bool {
        self matches Object::Number(n) && n.is_nan()
    }
}

/// Whether a value counts as true: all but `nil` and `false` do.
pub fn is_truthy(a: &Object) -> (r: bool)
    ensures
        r == a.truthy(),
{
    match a {
        Object::Nil => false,
        Object::Boolean(val) => *val,
        _ => true,
    }
}

fn span_eq(a: &crate::expr::Span, b: &crate::expr::Span) -> (r: bool)
    ensures
        r == (*a == *b),
{
    a.start == b.start && a.len == b.len
}

fn callable_eq(a: &LoxCallable, b: &LoxCallable) -> (r: bool)
    ensures
        r == (*a == *b),
{
    match (a, b) {
        (
            LoxCallable::Native { arity: arity_a, function: function_a },
            LoxCallable::Native { arity: arity_b, function: function_b },
        ) => *arity_a == *arity_b && *function_a == *function_b,
        (
            LoxCallable::User {
                name: name_a,
                params: params_a,
                body: body_a,
                closure: closure_a,
                is_initializer: init_a,
            },
            LoxCallable::User {
                name: name_b,
                params: params_b,
                body: body_b,
                closure: closure_b,
                is_initializer: init_b,
            },
        ) => *name_a == *name_b && span_eq(params_a, params_b) && span_eq(body_a, body_b)
            && *closure_a == *closure_b && *init_a == *init_b,
        _ => false,
    }
}

/// Whether two values are equal.
pub fn is_equal(a: &Object, b: &Object) -> (r: bool)
    ensures
        r == a.equals(*b),
{
    match (a, b) {
        (Object::Nil, Object::Nil) => true,
        (Object::Number(val1), Object::Number(val2)) => val1.eq(val2),
        (Object::String(val1), Object::String(val2)) => *val1 == *val2,
        (Object::Boolean(val1), Object::Boolean(val2)) => *val1 == *val2,
        (Object::Callable(val1), Object::Callable(val2)) => callable_eq(val1, val2),
        (Object::Class(val1), Object::Class(val2)) => *val1 == *val2,
        (Object::Instance(val1), Object::Instance(val2)) => *val1 == *val2,
        _ => false,
    }
}

/// Truthiness is total: every value is truthy or falsy, and none is both.
pub proof fn lemma_truthiness_total(a: Object)
    ensures
        a.truthy() != a.falsy(),
{
}

/// Equality holds of every value with itself, but for a number that is not
/// a number.
pub proof fn lemma_equality_reflexive(a: Object)
    ensures
        a.equals(a) <==> !a.is_nan(),
{
}

/// Equality is symmetric.
pub proof fn lemma_equality_symmetric(a: Object, b: Object)
    ensures
        a.equals(b) == b.equals(a),
{
}

} // verus!
