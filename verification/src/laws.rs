use crate::error::{RuntimeError, RuntimeErrorKind};
use crate::expr::Expr;
use crate::frame::{Action, Exit, Frame};
use crate::interpreter::Machine;
use crate::object::Object;
use crate::semantics::{
    call_boundary, evaluated, executed, invoked, number_replied, short_circuits, stepped,
    text_replied,
};
use crate::stmt::Stmt;
use crate::token::TokenType;
use crate::util::Number;
use vstd::prelude::*;

verus! {

/// `a or b` is `a` where `a` is truthy, and `a and b` is `a` where `a` is
/// falsy: the step that decides on the left operand leaves it as the value
/// and puts nothing on the stack, so that `b` is never evaluated; nothing
/// else changes.
pub proof fn lemma_short_circuit(
    pre: Machine,
    post: Machine,
    action: Action,
    operator: usize,
    right: usize,
    left: Object,
)
    requires
        pre.pending is None,
        pre.leaving is None,
        pre.frames.len() > 0,
        pre.frames.last() == (Frame::LogicalRhs { operator, right }),
        pre.value == Some(left),
        stepped(pre, post, action),
        ({
            let kind = pre.heap.ast.tokens@[operator as int].token_type;
            (kind == TokenType::Or && left.truthy()) || (kind != TokenType::Or && left.falsy())
        }),
    ensures
        action is Continue,
        post == pre.pop(),
        post.value == Some(left),
{
}

/// Where the left operand of `and` or `or` does not decide, the right
/// operand is what is evaluated next, and its value is the result.
pub proof fn lemma_no_short_circuit(
    pre: Machine,
    post: Machine,
    action: Action,
    operator: usize,
    right: usize,
    left: Object,
)
    requires
        pre.pending is None,
        pre.leaving is None,
        pre.frames.len() > 0,
        pre.frames.last() == (Frame::LogicalRhs { operator, right }),
        pre.value == Some(left),
        stepped(pre, post, action),
        !short_circuits(pre.heap.ast.tokens@[operator as int].token_type, left),
    ensures
        action is Continue,
        post == pre.pop().take().push(Frame::Eval(right)),
{
}

/// The environment that will be current when the entries `frames` are
/// done, if `environment` is current now: each entry for a block or a call
/// goes back to the environment that was current when the block or the call
/// began.
pub open spec fn environment_after(frames: Seq<Frame>, environment: usize) -> usize
    decreases frames.len(),
{
    if frames.len() == 0 {
        environment
    } else {
        environment_after(
            frames.drop_last(),
            match frames.last() {
                Frame::RestoreEnv(earlier) => earlier,
                Frame::CallReturn { previous, .. } => previous,
                _ => environment,
            },
        )
    }
}

/// The entries of `frames` from the `base`-th on.
pub open spec fn above(frames: Seq<Frame>, base: int) -> Seq<Frame> {
    frames.subrange(base, frames.len() as int)
}

/// A step has left the lowest `base` entries of the stack in place.
pub open spec fn kept_below(pre: Machine, post: Machine, base: int) -> bool {
    &&& 0 <= base <= pre.frames.len()
    &&& base <= post.frames.len()
    &&& post.frames.subrange(0, base) == pre.frames.subrange(0, base)
}

impl Frame {
    /// The entry leaves the current environment as it is when it is done.
    pub open spec fn keeps_environment(self) -> bool {
        !(self is RestoreEnv) && !(self is CallReturn)
    }
}

/// Entries that leave the environment as it is do not count.
pub proof fn lemma_after_neutral(frames: Seq<Frame>, suffix: Seq<Frame>, environment: usize)
    requires
        forall|i: int| 0 <= i < suffix.len() ==> (#[trigger] suffix[i]).keeps_environment(),
    ensures
        environment_after(frames + suffix, environment) == environment_after(frames, environment),
    decreases suffix.len(),
{
    if suffix.len() == 0 {
        assert(frames + suffix =~= frames);
    } else {
        let all = frames + suffix;
        assert(all.drop_last() =~= frames + suffix.drop_last());
        assert(all.last() == suffix.last());
        lemma_after_neutral(frames, suffix.drop_last(), environment);
    }
}

/// Behind an entry that a call comes back to, the environment is the one
/// of the caller, whatever it was above.
pub proof fn lemma_after_call(frames: Seq<Frame>, at: int, environment: usize)
    requires
        0 <= at < frames.len(),
        frames[at] is CallReturn,
    ensures
        environment_after(frames, environment) == environment_after(
            frames.subrange(0, at),
            frames[at]->previous,
        ),
    decreases frames.len(),
{
    if at == frames.len() - 1 {
        assert(frames.drop_last() =~= frames.subrange(0, at));
    } else {
        let below = match frames.last() {
            Frame::RestoreEnv(earlier) => earlier,
            Frame::CallReturn { previous, .. } => previous,
            _ => environment,
        };
        lemma_after_call(frames.drop_last(), at, below);
        assert(frames.drop_last().subrange(0, at) =~= frames.subrange(0, at));
    }
}

/// What `call_boundary` finds is an entry that a call comes back to.
pub proof fn lemma_call_boundary(frames: Seq<Frame>, upto: int)
    requires
        0 <= upto <= frames.len(),
    ensures
        call_boundary(frames, upto) matches Some(at) ==> 0 <= at < upto && frames[at]
            is CallReturn,
    decreases upto,
{
    if upto > 0 && !(frames[upto - 1] is CallReturn) {
        lemma_call_boundary(frames, upto - 1);
    }
}

/// What a step of a machine that goes on does to the stack and the
/// environment, unless it ends a block or a call: it puts entries in place of
/// the uppermost one, and either it leaves the environment as it is and
/// the new entries do too, or it enters an environment and the lower of two
/// new entries goes back to the one that was current.
pub open spec fn grows_in_place(pre: Machine, post: Machine) -> bool {
    let n = pre.frames.len() as int;
    let suffix = post.frames.subrange(n - 1, post.frames.len() as int);
    &&& post.frames.len() >= n - 1
    &&& post.frames.subrange(0, n - 1) == pre.frames.drop_last()
    &&& if post.environment == pre.environment {
        forall|i: int| 0 <= i < suffix.len() ==> (#[trigger] suffix[i]).keeps_environment()
    } else {
        &&& suffix.len() == 2
        &&& suffix[1].keeps_environment()
        &&& (suffix[0] matches Frame::RestoreEnv(earlier) && earlier == pre.environment)
            || (suffix[0] matches Frame::CallReturn { previous, .. } && previous
            == pre.environment)
    }
}

/// A stack that holds what `pre` held below its uppermost entry, and above
/// that at most three entries that fit one of the two ways, has grown in
/// place.
pub proof fn lemma_shape(pre: Machine, post: Machine)
    requires
        pre.frames.len() > 0,
        ({
            let n = pre.frames.len() as int;
            let rest = pre.frames.drop_last();
            let same = post.environment == pre.environment;
            ||| (same && post.frames == rest)
            ||| (same && post.frames.len() == n && post.frames.drop_last() == rest
                && post.frames[n - 1].keeps_environment())
            ||| (same && post.frames.len() == n + 1 && post.frames.drop_last().drop_last() == rest
                && post.frames[n - 1].keeps_environment() && post.frames[n].keeps_environment())
            ||| (same && post.frames.len() == n + 2 && post.frames.drop_last().drop_last()
                .drop_last() == rest && post.frames[n - 1].keeps_environment()
                && post.frames[n].keeps_environment() && post.frames[n + 1].keeps_environment())
            ||| (!same && post.frames.len() == n + 1 && post.frames.drop_last().drop_last()
                == rest && post.frames[n].keeps_environment() && ((post.frames[n
                - 1] matches Frame::RestoreEnv(
                earlier,
            ) && earlier == pre.environment) || (post.frames[n - 1] matches Frame::CallReturn {
                previous,
                ..
            } && previous == pre.environment)))
        }),
    ensures
        grows_in_place(pre, post),
{
    let n = pre.frames.len() as int;
    let rest = pre.frames.drop_last();
    let suffix = post.frames.subrange(n - 1, post.frames.len() as int);
    assert(post.frames.subrange(0, n - 1) =~= rest) by {
        if post.frames.len() == n {
            assert(post.frames.drop_last() =~= post.frames.subrange(0, n - 1));
        } else if post.frames.len() == n + 1 {
            assert(post.frames.drop_last().drop_last() =~= post.frames.subrange(0, n - 1));
        } else if post.frames.len() == n + 2 {
            assert(post.frames.drop_last().drop_last().drop_last() =~= post.frames.subrange(
                0,
                n - 1,
            ));
        }
    }
    assert forall|i: int| 0 <= i < suffix.len() implies suffix[i] == post.frames[n - 1 + i] by {}
    if suffix.len() > 0 {
        assert(suffix[0] == post.frames[n - 1]);
    }
    if suffix.len() > 1 {
        assert(suffix[1] == post.frames[n]);
    }
    if suffix.len() > 2 {
        assert(suffix[2] == post.frames[n + 1]);
    }
}

/// Executing a statement grows the stack in place.
pub proof fn lemma_executed_in_place(pre: Machine, post: Machine, action: Action, stmt: usize)
    requires
        pre.wf(),
        pre.frames.len() > 0,
        pre.frames.last() == Frame::Exec(stmt),
        executed(pre.pop(), stmt, post, action),
    ensures
        grows_in_place(pre, post),
{
    let rest = pre.pop();
    match pre.heap.ast.stmts@[stmt as int] {
        Stmt::Block { statements } => {
            assert(post.frames.drop_last().drop_last() =~= rest.frames);
            assert(post.heap.environments.len() == post.heap.environments@.len());
            lemma_shape(pre, post);
        },
        Stmt::Var { name, initializer } => {
            if initializer is Some {
                assert(post.frames.drop_last().drop_last() =~= rest.frames);
            }
            lemma_shape(pre, post);
        },
        Stmt::Return { keyword, value } => {
            if value is Some {
                assert(post.frames.drop_last().drop_last() =~= rest.frames);
            } else {
                assert(post.frames.drop_last() =~= rest.frames);
            }
            lemma_shape(pre, post);
        },
        Stmt::Class { name, superclass, methods } => {
            if superclass is Some {
                assert(post.frames.drop_last().drop_last() =~= rest.frames);
            }
            lemma_shape(pre, post);
        },
        Stmt::Function { name, params, body } => {
            lemma_shape(pre, post);
        },
        _ => {
            assert(post.frames.drop_last().drop_last() =~= rest.frames);
            lemma_shape(pre, post);
        },
    }
}

/// Evaluating an expression grows the stack in place.
pub proof fn lemma_evaluated_in_place(pre: Machine, post: Machine, action: Action, expr: usize)
    requires
        pre.wf(),
        pre.frames.len() > 0,
        pre.frames.last() == Frame::Eval(expr),
        evaluated(pre.pop(), expr, post, action),
    ensures
        grows_in_place(pre, post),
{
    let rest = pre.pop();
    match pre.heap.ast.exprs@[expr as int] {
        Expr::Literal { value } => {
            lemma_shape(pre, post);
        },
        Expr::Variable { name } => {
            lemma_shape(pre, post);
        },
        Expr::This { keyword } => {
            lemma_shape(pre, post);
        },
        Expr::Super { keyword, method } => {
            lemma_shape(pre, post);
        },
        Expr::Grouping { expression } => {
            assert(post.frames.drop_last() =~= rest.frames);
            lemma_shape(pre, post);
        },
        _ => {
            assert(post.frames.drop_last().drop_last() =~= rest.frames);
            lemma_shape(pre, post);
        },
    }
}

/// Calling something grows the stack in place.
pub proof fn lemma_invoked_in_place(
    pre: Machine,
    from: Machine,
    post: Machine,
    action: Action,
    paren: usize,
    callee: Object,
    arguments: Seq<Object>,
)
    requires
        pre.wf(),
        pre.frames.len() > 0,
        from == pre.pop().take(),
        invoked(from, paren, callee, arguments, post, action),
    ensures
        grows_in_place(pre, post),
{
    if post.frames.len() == from.frames.len() + 2 {
        assert(post.frames.drop_last().drop_last() =~= from.frames);
    }
    assert(post.heap.environments.len() == post.heap.environments@.len());
    lemma_shape(pre, post);
}

/// Going on to the next argument of a call grows the stack in place.
pub proof fn lemma_collecting_in_place(pre: Machine, post: Machine)
    requires
        pre.frames.len() > 0,
        post.environment == pre.environment,
        post.frames.len() == pre.frames.len() + 1,
        post.frames.subrange(0, pre.frames.len() - 1) == pre.frames.drop_last(),
        post.frames[pre.frames.len() - 1] is Argument,
        post.frames[pre.frames.len() as int] is Eval,
    ensures
        grows_in_place(pre, post),
{
    let n = pre.frames.len() as int;
    assert(post.frames.drop_last().drop_last() =~= post.frames.subrange(0, n - 1));
    lemma_shape(pre, post);
}

/// Every step of a machine that goes on, but for the end of a block or a
/// call, grows the stack in place. A step that meets a runtime error or a
/// `return` does so too: it takes the uppermost entry off and puts nothing
/// in its place.
pub proof fn lemma_step_in_place(pre: Machine, post: Machine, action: Action)
    requires
        pre.wf(),
        pre.pending is None,
        pre.leaving is None,
        pre.frames.len() > 0,
        stepped(pre, post, action),
        pre.frames.last().keeps_environment(),
    ensures
        grows_in_place(pre, post),
{
    let n = pre.frames.len() as int;
    let rest = pre.pop();
    let none = Seq::<Frame>::empty();
    assert(rest.frames + none =~= rest.frames);
    match pre.frames.last() {
        Frame::Exec(stmt) => {
            lemma_executed_in_place(pre, post, action, stmt);
        },
        Frame::ExecList { span, next } => {
            if post.frames.len() == n {
                assert(post.frames.drop_last() =~= rest.frames);
            }
            if post.frames.len() == n + 1 {
                assert(post.frames.drop_last().drop_last() =~= rest.frames);
            }
            if post.frames.len() == n + 2 {
                assert(post.frames.drop_last().drop_last().drop_last() =~= rest.frames);
            }
            lemma_shape(pre, post);
        },
        Frame::Discard => {
            if post.frames.len() == n {
                assert(post.frames.drop_last() =~= rest.frames);
            }
            if post.frames.len() == n + 1 {
                assert(post.frames.drop_last().drop_last() =~= rest.frames);
            }
            if post.frames.len() == n + 2 {
                assert(post.frames.drop_last().drop_last().drop_last() =~= rest.frames);
            }
            lemma_shape(pre, post);
        },
        Frame::Print => {
            if post.frames.len() == n {
                assert(post.frames.drop_last() =~= rest.frames);
            }
            if post.frames.len() == n + 1 {
                assert(post.frames.drop_last().drop_last() =~= rest.frames);
            }
            if post.frames.len() == n + 2 {
                assert(post.frames.drop_last().drop_last().drop_last() =~= rest.frames);
            }
            lemma_shape(pre, post);
        },
        Frame::DefineVar(name) => {
            if post.frames.len() == n {
                assert(post.frames.drop_last() =~= rest.frames);
            }
            if post.frames.len() == n + 1 {
                assert(post.frames.drop_last().drop_last() =~= rest.frames);
            }
            if post.frames.len() == n + 2 {
                assert(post.frames.drop_last().drop_last().drop_last() =~= rest.frames);
            }
            lemma_shape(pre, post);
        },
        Frame::Branch { then_branch, else_branch } => {
            if post.frames.len() == n {
                assert(post.frames.drop_last() =~= rest.frames);
            }
            if post.frames.len() == n + 1 {
                assert(post.frames.drop_last().drop_last() =~= rest.frames);
            }
            if post.frames.len() == n + 2 {
                assert(post.frames.drop_last().drop_last().drop_last() =~= rest.frames);
            }
            lemma_shape(pre, post);
        },
        Frame::LoopTest { condition, body } => {
            if post.frames.len() == n {
                assert(post.frames.drop_last() =~= rest.frames);
            }
            if post.frames.len() == n + 1 {
                assert(post.frames.drop_last().drop_last() =~= rest.frames);
            }
            if post.frames.len() == n + 2 {
                assert(post.frames.drop_last().drop_last().drop_last() =~= rest.frames);
            }
            lemma_shape(pre, post);
        },
        Frame::ClassSuper { name, methods, token } => {
            if post.frames.len() == n {
                assert(post.frames.drop_last() =~= rest.frames);
            }
            if post.frames.len() == n + 1 {
                assert(post.frames.drop_last().drop_last() =~= rest.frames);
            }
            if post.frames.len() == n + 2 {
                assert(post.frames.drop_last().drop_last().drop_last() =~= rest.frames);
            }
            lemma_shape(pre, post);
        },
        Frame::Eval(expr) => {
            lemma_evaluated_in_place(pre, post, action, expr);
        },
        Frame::Unary(operator) => {
            if post.frames.len() == n {
                assert(post.frames.drop_last() =~= rest.frames);
            }
            if post.frames.len() == n + 1 {
                assert(post.frames.drop_last().drop_last() =~= rest.frames);
            }
            if post.frames.len() == n + 2 {
                assert(post.frames.drop_last().drop_last().drop_last() =~= rest.frames);
            }
            lemma_shape(pre, post);
        },
        Frame::BinaryRight { operator, right } => {
            if post.frames.len() == n {
                assert(post.frames.drop_last() =~= rest.frames);
            }
            if post.frames.len() == n + 1 {
                assert(post.frames.drop_last().drop_last() =~= rest.frames);
            }
            if post.frames.len() == n + 2 {
                assert(post.frames.drop_last().drop_last().drop_last() =~= rest.frames);
            }
            lemma_shape(pre, post);
        },
        Frame::BinaryApply { operator, left } => {
            if post.frames.len() == n {
                assert(post.frames.drop_last() =~= rest.frames);
            }
            if post.frames.len() == n + 1 {
                assert(post.frames.drop_last().drop_last() =~= rest.frames);
            }
            if post.frames.len() == n + 2 {
                assert(post.frames.drop_last().drop_last().drop_last() =~= rest.frames);
            }
            lemma_shape(pre, post);
        },
        Frame::LogicalRhs { operator, right } => {
            if post.frames.len() == n {
                assert(post.frames.drop_last() =~= rest.frames);
            }
            if post.frames.len() == n + 1 {
                assert(post.frames.drop_last().drop_last() =~= rest.frames);
            }
            if post.frames.len() == n + 2 {
                assert(post.frames.drop_last().drop_last().drop_last() =~= rest.frames);
            }
            lemma_shape(pre, post);
        },
        Frame::Assign { expr, name } => {
            if post.frames.len() == n {
                assert(post.frames.drop_last() =~= rest.frames);
            }
            if post.frames.len() == n + 1 {
                assert(post.frames.drop_last().drop_last() =~= rest.frames);
            }
            if post.frames.len() == n + 2 {
                assert(post.frames.drop_last().drop_last().drop_last() =~= rest.frames);
            }
            lemma_shape(pre, post);
        },
        Frame::GetProp(name) => {
            if post.frames.len() == n {
                assert(post.frames.drop_last() =~= rest.frames);
            }
            if post.frames.len() == n + 1 {
                assert(post.frames.drop_last().drop_last() =~= rest.frames);
            }
            if post.frames.len() == n + 2 {
                assert(post.frames.drop_last().drop_last().drop_last() =~= rest.frames);
            }
            lemma_shape(pre, post);
        },
        Frame::SetCheck { name, value } => {
            if post.frames.len() == n {
                assert(post.frames.drop_last() =~= rest.frames);
            }
            if post.frames.len() == n + 1 {
                assert(post.frames.drop_last().drop_last() =~= rest.frames);
            }
            if post.frames.len() == n + 2 {
                assert(post.frames.drop_last().drop_last().drop_last() =~= rest.frames);
            }
            lemma_shape(pre, post);
        },
        Frame::SetProp { instance, name } => {
            if post.frames.len() == n {
                assert(post.frames.drop_last() =~= rest.frames);
            }
            if post.frames.len() == n + 1 {
                assert(post.frames.drop_last().drop_last() =~= rest.frames);
            }
            if post.frames.len() == n + 2 {
                assert(post.frames.drop_last().drop_last().drop_last() =~= rest.frames);
            }
            lemma_shape(pre, post);
        },
        Frame::Return => {
            lemma_shape(pre, post);
        },
        Frame::CallCheck { paren, arguments } => {
            let callee = pre.value.unwrap();
            if !(callee is Callable || callee is Class) {
                lemma_shape(pre, post);
            } else if arguments.len == 0 {
                lemma_invoked_in_place(
                    pre,
                    rest.take(),
                    post,
                    action,
                    paren,
                    callee,
                    Seq::empty(),
                );
            } else {
                lemma_collecting_in_place(pre, post);
            }
        },
        Frame::Argument { paren, callee, arguments, done } => {
            let argument = pre.value.unwrap();
            if done@.len() + 1 < arguments.len {
                lemma_collecting_in_place(pre, post);
            } else {
                lemma_invoked_in_place(
                    pre,
                    rest.take(),
                    post,
                    action,
                    paren,
                    callee,
                    done@.push(argument),
                );
            }
        },
        _ => {},
    }
}

/// A step that leaves the lowest `base` entries of the stack in place does
/// not change which environment will be current when the entries above
/// them are done or left: a block or a call that is left for a runtime
/// error or a `return` goes back to its environment as one that ends. So
/// when the stack is back at what lay below the entry of a statement, the
/// current environment is the one in which the statement began.
pub proof fn lemma_step_keeps_environment(pre: Machine, post: Machine, action: Action, base: int)
    requires
        pre.wf(),
        stepped(pre, post, action),
        0 <= base < pre.frames.len(),
        kept_below(pre, post, base),
    ensures
        environment_after(above(post.frames, base), post.environment) == environment_after(
            above(pre.frames, base),
            pre.environment,
        ),
{
    if pre.pending is Some {
        return ;
    }
    let n = pre.frames.len() as int;
    let rest = pre.frames.drop_last();
    let top = pre.frames.last();
    let lower = above(rest, base);
    assert(above(pre.frames, base).drop_last() =~= lower);
    assert(above(pre.frames, base).last() == top);
    let before = environment_after(above(pre.frames, base), pre.environment);
    if pre.leaving is Some || top is RestoreEnv || top is CallReturn {
        assert(post.frames == rest);
        assert(above(post.frames, base) == lower);
    } else {
        assert(before == environment_after(lower, pre.environment));
        lemma_step_in_place(pre, post, action);
        let suffix = post.frames.subrange(n - 1, post.frames.len() as int);
        assert(post.frames =~= rest + suffix);
        let upper = above(post.frames, base);
        assert(upper =~= lower + suffix);
        if post.environment == pre.environment {
            lemma_after_neutral(lower, suffix, pre.environment);
        } else {
            assert(upper.last() == suffix[1]);
            assert(upper.drop_last() =~= lower.push(suffix[0]));
            assert(lower.push(suffix[0]).drop_last() =~= lower);
            assert(lower.push(suffix[0]).last() == suffix[0]);
            assert(environment_after(upper, post.environment) == environment_after(
                lower.push(suffix[0]),
                post.environment,
            ));
        }
    }
}

/// One move of a run: a step, or an answer of the host that the machine
/// accepts.
#[verifier::opaque]
pub open spec fn moved(pre: Machine, post: Machine) -> bool {
    ||| exists|action: Action| stepped(pre, post, action)
    ||| exists|number: Number| number_replied(pre, number, post, true)
    ||| exists|text: Seq<char>| text_replied(pre, text, post, true)
}

/// A run: each state but the first comes from the one before it by a move,
/// and every state is well formed.
pub open spec fn is_run(trace: Seq<Machine>) -> bool {
    &&& trace.len() > 0
    &&& forall|i: int| 0 <= i < trace.len() ==> (#[trigger] trace[i]).wf()
    &&& forall|i: int| 0 <= i < trace.len() - 1 ==> moved(#[trigger] trace[i], trace[i + 1])
}

/// The run is about the entries above the lowest `base` of the stack: it
/// leaves the lowest `base` in place, and has more than those before its
/// last state.
pub open spec fn stays_above(trace: Seq<Machine>, base: int) -> bool {
    &&& 0 <= base
    &&& forall|i: int|
        0 <= i < trace.len() ==> kept_below(trace[0], #[trigger] trace[i], base)
    &&& forall|i: int| 0 <= i < trace.len() - 1 ==> (#[trigger] trace[i]).frames.len() > base
}

/// A move that leaves the lowest `base` entries of the stack in place does
/// not change which environment will be current when the entries above them
/// are done or left.
pub proof fn lemma_move_keeps_environment(pre: Machine, post: Machine, base: int)
    requires
        pre.wf(),
        moved(pre, post),
        0 <= base < pre.frames.len(),
        kept_below(pre, post, base),
    ensures
        environment_after(above(post.frames, base), post.environment) == environment_after(
            above(pre.frames, base),
            pre.environment,
        ),
{
    reveal(moved);
    if exists|action: Action| stepped(pre, post, action) {
        let action = choose|action: Action| stepped(pre, post, action);
        lemma_step_keeps_environment(pre, post, action, base);
    }
}

/// A run without its last state is a run, about the same entries.
pub proof fn lemma_run_shorter(trace: Seq<Machine>, base: int)
    requires
        is_run(trace),
        stays_above(trace, base),
        trace.len() > 1,
    ensures
        is_run(trace.drop_last()),
        stays_above(trace.drop_last(), base),
{
    let shorter = trace.drop_last();
    assert forall|i: int| 0 <= i < shorter.len() implies (#[trigger] shorter[i]).wf() by {
        assert(trace[i].wf());
    }
    assert forall|i: int| 0 <= i < shorter.len() - 1 implies moved(
        #[trigger] shorter[i],
        shorter[i + 1],
    ) by {
        assert(moved(trace[i], trace[i + 1]));
    }
    assert forall|i: int| 0 <= i < shorter.len() implies kept_below(
        shorter[0],
        #[trigger] shorter[i],
        base,
    ) by {
        assert(kept_below(trace[0], trace[i], base));
    }
    assert forall|i: int| 0 <= i < shorter.len() - 1 implies (#[trigger] shorter[i]).frames.len()
        > base by {
        assert(trace[i].frames.len() > base);
    }
}

/// In a run, whether it goes on or leaves the stack for a runtime error or
/// a `return`, the environment that will be current when the entries above
/// `base` are done or left is the same in every state.
pub proof fn lemma_run_keeps_environment(trace: Seq<Machine>, base: int)
    requires
        is_run(trace),
        stays_above(trace, base),
    ensures
        environment_after(above(trace.last().frames, base), trace.last().environment)
            == environment_after(above(trace[0].frames, base), trace[0].environment),
    decreases trace.len(),
{
    if trace.len() > 1 {
        let shorter = trace.drop_last();
        lemma_run_shorter(trace, base);
        lemma_run_keeps_environment(shorter, base);
        let pre = trace[trace.len() - 2];
        let post = trace.last();
        assert(pre == shorter.last());
        assert(shorter[0] == trace[0]);
        assert(pre.wf());
        assert(moved(pre, post));
        assert(pre.frames.len() > base);
        assert(kept_below(trace[0], pre, base));
        assert(kept_below(trace[0], post, base));
        assert(kept_below(pre, post, base));
        lemma_move_keeps_environment(pre, post, base);
    }
}

/// A statement leaves the environment as it found it, however it ends:
/// normally, by a runtime error, or by a `return`. In a run that starts
/// with the statement uppermost on the stack and ends when the stack is
/// back at what lay below it, the environment of the last state is that of
/// the first.
pub proof fn lemma_statement_keeps_environment(trace: Seq<Machine>, stmt: usize)
    requires
        is_run(trace),
        trace[0].frames.len() > 0,
        trace[0].frames.last() == Frame::Exec(stmt),
        stays_above(trace, trace[0].frames.len() - 1),
        trace.last().frames == trace[0].frames.drop_last(),
    ensures
        trace.last().environment == trace[0].environment,
{
    let base = trace[0].frames.len() - 1;
    lemma_run_keeps_environment(trace, base);
    assert(above(trace.last().frames, base) =~= Seq::<Frame>::empty());
    let first = above(trace[0].frames, base);
    assert(first.drop_last() =~= Seq::<Frame>::empty());
    assert(first.last() == Frame::Exec(stmt));
    assert(environment_after(first, trace[0].environment) == environment_after(
        first.drop_last(),
        trace[0].environment,
    ));
}

/// A block leaves the environment as it found it, however it ends. In a
/// run that starts where the statements of the block are uppermost on the
/// stack, above the entry that goes back to the environment `previous`,
/// and ends when the stack is back at what lay below the two, the
/// environment of the last state is `previous`.
pub proof fn lemma_block_keeps_environment(trace: Seq<Machine>, previous: usize)
    requires
        is_run(trace),
        trace[0].frames.len() >= 2,
        trace[0].frames.last() is ExecList,
        trace[0].frames[trace[0].frames.len() - 2] == Frame::RestoreEnv(previous),
        stays_above(trace, trace[0].frames.len() - 2),
        trace.last().frames == trace[0].frames.drop_last().drop_last(),
    ensures
        trace.last().environment == previous,
{
    let base = trace[0].frames.len() - 2;
    lemma_run_keeps_environment(trace, base);
    assert(above(trace.last().frames, base) =~= Seq::<Frame>::empty());
    let first = above(trace[0].frames, base);
    assert(first.last() == trace[0].frames.last());
    assert(first.drop_last().last() == Frame::RestoreEnv(previous));
    assert(first.drop_last().drop_last() =~= Seq::<Frame>::empty());
    reveal_with_fuel(environment_after, 3);
}

/// A program leaves the global environment current, however it ends: in a
/// run that starts with the list of the program's statements as all that
/// is to do, in the global environment, and ends with nothing to do, the
/// global environment is current.
pub proof fn lemma_program_keeps_environment(trace: Seq<Machine>)
    requires
        is_run(trace),
        trace[0].frames.len() == 1,
        trace[0].frames[0] is ExecList,
        trace[0].environment == trace[0].globals,
        forall|i: int| 0 <= i < trace.len() - 1 ==> (#[trigger] trace[i]).frames.len() > 0,
        trace.last().frames.len() == 0,
    ensures
        trace.last().environment == trace[0].globals,
{
    assert forall|i: int| 0 <= i < trace.len() implies kept_below(
        trace[0],
        #[trigger] trace[i],
        0,
    ) by {
        assert(trace[i].frames.subrange(0, 0) =~= trace[0].frames.subrange(0, 0));
    }
    lemma_run_keeps_environment(trace, 0);
    assert(above(trace.last().frames, 0) =~= Seq::<Frame>::empty());
    let first = above(trace[0].frames, 0);
    assert(first =~= trace[0].frames);
    assert(first.drop_last() =~= Seq::<Frame>::empty());
    reveal_with_fuel(environment_after, 2);
}

/// A runtime error is reported at a token of the tree.
pub proof fn lemma_error_token(pre: Machine, post: Machine, action: Action)
    requires
        pre.wf(),
        stepped(pre, post, action),
    ensures
        action matches Action::Error(error) ==> error.token < pre.heap.ast.tokens@.len(),
{
}

/// A runtime error is handed to the host when the stack has been left to
/// its bottom: nothing is left to do, nothing is under way, and the
/// environment is the one that was current below all that was left.
pub proof fn lemma_error_ends(pre: Machine, post: Machine, action: Action)
    requires
        stepped(pre, post, action),
        action is Error,
    ensures
        pre.frames.len() == 0,
        pre.leaving == Some(Exit::Error(action->Error_0)),
        post == pre.settle(),
        post.environment == pre.environment,
{
}

/// Reading a variable for which the table holds a depth goes exactly that
/// many links out from the current environment and nowhere else: the step
/// gives the value that the environment there binds to the name, or, where
/// that environment does not bind the name, begins to leave the stack for
/// the runtime error that the variable is undefined.
pub proof fn lemma_lookup_at_depth(
    pre: Machine,
    post: Machine,
    action: Action,
    expr: usize,
    name: usize,
    depth: usize,
)
    requires
        stepped(pre, post, action),
        pre.pending is None,
        pre.leaving is None,
        pre.frames.len() > 0,
        pre.frames.last() == Frame::Eval(expr),
        pre.heap.ast.exprs@[expr as int] == (Expr::Variable { name }),
        pre.depth(expr) == Some(depth),
    ensures
        match pre.heap.ancestor(pre.environment, depth as nat) {
            Some(found) => if pre.heap.environments@[found as int].values@.contains_key(
                pre.heap.ast.text(name),
            ) {
                post == pre.pop().give(
                    pre.heap.environments@[found as int].values@[pre.heap.ast.text(name)],
                ) && action is Continue
            } else {
                post == pre.pop().leave(
                    Exit::Error(
                        RuntimeError { kind: RuntimeErrorKind::UndefinedVariable, token: name },
                    ),
                ) && action is Continue
            },
            None => post == pre.pop().leave(
                Exit::Error(
                    RuntimeError { kind: RuntimeErrorKind::UndefinedVariable, token: name },
                ),
            ) && action is Continue,
        },
{
}

/// A variable of the top level reads back as the value that it was defined
/// with. The step that defines a variable in the global environment binds
/// its name to the value under way; and in a state with the heap that this
/// step leaves, the step that evaluates a use of the name for which the
/// table holds no depth gives that value. So what `var x = E; print x;`
/// prints is the text of the value of `E`, as `print E;` prints it.
pub proof fn lemma_defined_reads_back(
    defining: Machine,
    defined: Machine,
    reading: Machine,
    read: Machine,
    first: Action,
    second: Action,
    name: usize,
    expr: usize,
    used: usize,
)
    requires
        defining.wf(),
        defining.pending is None,
        defining.leaving is None,
        defining.frames.len() > 0,
        defining.frames.last() == Frame::DefineVar(name),
        defining.environment == defining.globals,
        stepped(defining, defined, first),
        reading.heap == defined.heap,
        reading.globals == defined.globals,
        reading.pending is None,
        reading.leaving is None,
        reading.frames.len() > 0,
        reading.frames.last() == Frame::Eval(expr),
        reading.heap.ast.exprs@[expr as int] == (Expr::Variable { name: used }),
        reading.heap.ast.text(used) == defining.heap.ast.text(name),
        reading.depth(expr) is None,
        stepped(reading, read, second),
    ensures
        defining.value matches Some(value) && read == reading.pop().give(value),
        second is Continue,
{
    let text = defining.heap.ast.text(name);
    let globals = defining.globals;
    assert(defining.frames.last().consumes());
    assert(defining.value is Some);
    assert(defined.heap.environments@[globals as int].values@.contains_key(text));
    assert(reading.heap.binder(globals, text) == Some(globals));
}

} // verus!
