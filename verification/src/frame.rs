use crate::ast::{option_below, span_below};
use crate::error::RuntimeError;
use crate::expr::Span;
use crate::heap::Heap;
use crate::object::Object;
use crate::util::Number;
use vstd::prelude::*;

verus! {

/// The arithmetic that the host does on numbers.
#[derive(PartialEq, Eq, Structural, Clone, Copy, Debug)]
pub enum Arithmetic {
    Add,
    Subtract,
    Multiply,
    Divide,
}

/// What the interpreter asks of its host. Each request is answered with one
/// value: a number, or for `FormatNumber` a text.
#[derive(Clone, Copy, Debug)]
pub enum Request {
    /// The result of `left operator right` in binary64 arithmetic.
    Arithmetic { operator: Arithmetic, left: Number, right: Number },
    /// The number that the digits of the number token `token` denote.
    ParseNumber { token: usize },
    /// The decimal text of a number.
    FormatNumber(Number),
    /// The time in seconds since the epoch.
    Clock,
}

/// What the machine is leaving the stack for: a runtime error, which ends
/// the program, or a `return`, which ends the innermost call with a value.
#[derive(Debug)]
pub enum Exit {
    Error(RuntimeError),
    Return(Object),
}

/// What a step of the interpreter hands to its host.
#[derive(Debug)]
pub enum Action {
    /// The step is done and there is more to do.
    Continue,
    /// Nothing is left to do.
    Done,
    /// A line for standard output.
    Print(String),
    /// A request; the interpreter waits for the reply.
    Ask(Request),
    /// A runtime error, which has ended the program: the stack has been
    /// left entry by entry, and nothing is left to do.
    Error(RuntimeError),
}

/// What is left to do, one entry for each construct that has begun and not
/// ended. Between two entries at most one value is under way: the one that
/// the upper entry gives and the lower one takes.
#[derive(Debug)]
pub enum Frame {
    /// Execute the statement.
    Exec(usize),
    /// Execute the statements of the run from the `next`-th on.
    ExecList { span: Span, next: usize },
    /// Go back to the environment.
    RestoreEnv(usize),
    /// Drop the value of an expression statement.
    Discard,
    /// Print the value.
    Print,
    /// Bind the name of the token to the value.
    DefineVar(usize),
    /// Go on with the branch that the value selects.
    Branch { then_branch: usize, else_branch: Option<usize> },
    /// Run the body and test again if the value is truthy.
    LoopTest { condition: usize, body: usize },
    /// Leave the function with the value.
    Return,
    /// Declare the class `name` with the value as superclass; `token` is
    /// where the superclass is named.
    ClassSuper { name: usize, methods: Span, token: usize },
    /// Where a call of a function of the program comes back to.
    CallReturn { previous: usize, closure: usize, is_initializer: bool },
    /// Evaluate the expression.
    Eval(usize),
    /// Apply the unary operator of the token to the value.
    Unary(usize),
    /// The value is the left operand: evaluate the right one.
    BinaryRight { operator: usize, right: usize },
    /// The value is the right operand: apply the operator.
    BinaryApply { operator: usize, left: Object },
    /// The value is the left operand of `and` or `or`.
    LogicalRhs { operator: usize, right: usize },
    /// Assign the value to the variable of the expression.
    Assign { expr: usize, name: usize },
    /// The value is the object: read the property.
    GetProp(usize),
    /// The value is the object: evaluate what to store.
    SetCheck { name: usize, value: usize },
    /// Store the value in the field of the instance.
    SetProp { instance: usize, name: usize },
    /// The value is the callee: evaluate the arguments.
    CallCheck { paren: usize, arguments: Span },
    /// The value is the next argument of the call.
    Argument { paren: usize, callee: Object, arguments: Span, done: Vec<Object> },
}

impl Frame {
    /// The entry takes a value.
    pub open spec fn consumes(self) -> bool {
        match self {
            Frame::Exec(_) => false,
            Frame::ExecList { .. } => false,
            Frame::RestoreEnv(_) => false,
            Frame::CallReturn { .. } => false,
            Frame::Eval(_) => false,
            _ => true,
        }
    }

    /// The entry gives a value to the one below it.
    pub open spec fn produces(self) -> bool {
        match self {
            Frame::Exec(_) => false,
            Frame::ExecList { .. } => false,
            Frame::RestoreEnv(_) => false,
            Frame::Discard => false,
            Frame::Print => false,
            Frame::DefineVar(_) => false,
            Frame::Branch { .. } => false,
            Frame::LoopTest { .. } => false,
            Frame::Return => false,
            Frame::ClassSuper { .. } => false,
            _ => true,
        }
    }

    /// The entry is the one that collects the arguments of a call, and has
    /// got the arguments `done` so far.
    pub open spec fn is_argument(
        self,
        paren: usize,
        callee: Object,
        arguments: Span,
        done: Seq<Object>,
    ) -> bool {
        self matches Frame::Argument { paren: p, callee: c, arguments: a, done: d } && p == paren
            && c == callee && a == arguments && d@ == done
    }

    /// The entry names only what exists in `heap`.
    pub open spec fn fits(self, heap: &Heap) -> bool {
        let tokens = heap.ast.tokens@.len() as int;
        let exprs = heap.ast.exprs@.len() as int;
        let stmts = heap.ast.stmts@.len() as int;
        let environments = heap.environments@.len() as int;
        match self {
            Frame::Exec(s) => s < stmts,
            Frame::ExecList { span, next } => span_below(heap.ast.lists@, span, stmts) && next
                <= span.len,
            Frame::RestoreEnv(e) => e < environments,
            Frame::Discard => true,
            Frame::Print => true,
            Frame::DefineVar(name) => name < tokens,
            Frame::Branch { then_branch, else_branch } => then_branch < stmts && option_below(
                else_branch,
                stmts,
            ),
            Frame::LoopTest { condition, body } => condition < exprs && body < stmts,
            Frame::Return => true,
            Frame::ClassSuper { name, methods, token } => name < tokens && token < tokens
                && span_below(heap.ast.lists@, methods, stmts),
            Frame::CallReturn { previous, closure, is_initializer } => previous < environments
                && closure < environments,
            Frame::Eval(e) => e < exprs,
            Frame::Unary(operator) => operator < tokens,
            Frame::BinaryRight { operator, right } => operator < tokens && right < exprs,
            Frame::BinaryApply { operator, left } => operator < tokens && heap.holds(left),
            Frame::LogicalRhs { operator, right } => operator < tokens && right < exprs,
            Frame::Assign { expr, name } => expr < exprs && name < tokens,
            Frame::GetProp(name) => name < tokens,
            Frame::SetCheck { name, value } => name < tokens && value < exprs,
            Frame::SetProp { instance, name } => instance < heap.instances@.len() && name < tokens,
            Frame::CallCheck { paren, arguments } => paren < tokens && span_below(
                heap.ast.lists@,
                arguments,
                exprs,
            ),
            Frame::Argument { paren, callee, arguments, done } => {
                &&& paren < tokens
                &&& span_below(heap.ast.lists@, arguments, exprs)
                &&& heap.holds(callee)
                &&& (callee is Callable || callee is Class)
                &&& done@.len() < arguments.len
                &&& forall|i: int| 0 <= i < done@.len() ==> heap.holds(#[trigger] done@[i])
            },
        }
    }
}

/// Each entry gives a value exactly if the one below it takes one, and the
/// lowest gives none.
pub open spec fn chained(frames: Seq<Frame>) -> bool {
    forall|i: int|
        0 <= i < frames.len() ==> (#[trigger] frames[i]).produces() == (if i == 0 {
            false
        } else {
            frames[i - 1].consumes()
        })
}

/// Every entry names only what exists in `heap`.
pub open spec fn all_fit(frames: Seq<Frame>, heap: &Heap) -> bool {
    forall|i: int| 0 <= i < frames.len() ==> (#[trigger] frames[i]).fits(heap)
}

/// Whether the uppermost entry takes a value.
pub open spec fn awaits_value(frames: Seq<Frame>) -> bool {
    frames.len() > 0 && frames.last().consumes()
}

/// Growth of the heap keeps an entry valid.
pub proof fn lemma_grown_frame(later: &Heap, earlier: &Heap, frame: Frame)
    requires
        later.grown_from(earlier),
        frame.fits(earlier),
    ensures
        frame.fits(later),
{
    match frame {
        Frame::ExecList { span, next } => {
            assert forall|i: int| span.start <= i < span.start + span.len implies (
            #[trigger] later.ast.lists@[i]) < later.ast.stmts@.len() by {
                assert(later.ast.lists@[i] == earlier.ast.lists@[i]);
            }
        },
        Frame::ClassSuper { name, methods, token } => {
            assert forall|i: int| methods.start <= i < methods.start + methods.len implies (
            #[trigger] later.ast.lists@[i]) < later.ast.stmts@.len() by {
                assert(later.ast.lists@[i] == earlier.ast.lists@[i]);
            }
        },
        Frame::BinaryApply { operator, left } => {
            later.lemma_grown_holds(earlier, left);
        },
        Frame::CallCheck { paren, arguments } => {
            assert forall|i: int|
                arguments.start <= i < arguments.start + arguments.len implies (
            #[trigger] later.ast.lists@[i]) < later.ast.exprs@.len() by {
                assert(later.ast.lists@[i] == earlier.ast.lists@[i]);
            }
        },
        Frame::Argument { paren, callee, arguments, done } => {
            assert forall|i: int|
                arguments.start <= i < arguments.start + arguments.len implies (
            #[trigger] later.ast.lists@[i]) < later.ast.exprs@.len() by {
                assert(later.ast.lists@[i] == earlier.ast.lists@[i]);
            }
            later.lemma_grown_holds(earlier, callee);
            assert forall|i: int| 0 <= i < done@.len() implies later.holds(
                #[trigger] done@[i],
            ) by {
                later.lemma_grown_holds(earlier, done@[i]);
            }
        },
        _ => {},
    }
}

/// Growth of the heap keeps all entries valid.
pub proof fn lemma_grown_frames(later: &Heap, earlier: &Heap, frames: Seq<Frame>)
    requires
        later.grown_from(earlier),
        all_fit(frames, earlier),
    ensures
        all_fit(frames, later),
{
    assert forall|i: int| 0 <= i < frames.len() implies (#[trigger] frames[i]).fits(later) by {
        lemma_grown_frame(later, earlier, frames[i]);
    }
}

} // verus!
