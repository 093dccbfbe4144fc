use crate::ast::Ast;
use crate::binding::{depth_in, shape_of, Shape};
use crate::callable::{LoxCallable, NativeFunction};
use crate::expr::Expr;
use crate::frame::{Action, Exit, Frame};
use crate::grammar::{spec_program, PState};
use crate::heap::Heap;
use crate::interpreter::Machine;
use crate::lexical::{
    callable_right, code_right, frame_env, frame_shape, heap_right, lemma_boundary_within,
    lemma_reply_keeps_scoped,
    lemma_assignment_is_bound, lemma_start_scoped, lemma_step_keeps_scoped, lemma_use_is_bound,
    object_right, owed, scoped,
};
use crate::lox::{
    depth_after, loaded, parsed, parser_start, program_span, resolver_start, scanned, Lox,
};
use crate::object::Object;
use crate::once::{expr_neat, grown, neat, roomy, stmt_neat};
use crate::once_expr::lemma_emit_list;
use crate::once_parse::lemma_program_fresh;
use crate::once_stmt::lemma_list_grown;
use crate::resolved::{agrees, apart, lemma_program_right, var_named};
use crate::scanner::{lex_at, lexemes_from, word_kind, Lexeme, Piece};
use crate::scopes::{spec_resolve_program, Resolution};
use crate::semantics::{number_replied, stepped, text_replied};
use crate::stable::{
    carried, lemma_extends, lemma_right_expr_carried, lemma_right_exprs_carried,
    lemma_right_function_carried, lemma_right_list_carried, lemma_right_methods_carried,
    lemma_right_stmt_carried,
};
use crate::stmt::Stmt;
use crate::token::{Token, TokenType};
use crate::uses::{
    between, lemma_program_grows, lemma_uses_program_below, seen_program, single, tidy, tidy_stmt,
    uses_program,
};
use crate::util::Number;
use vstd::prelude::*;

verus! {

// What holds throughout a session: the table of depths is right for the
// machine in every state that loading programs, stepping and answering
// requests lead to from a new interpreter. With the lookup lemmas of
// `lexical` this says that whenever a use of a name for which the resolver
// recorded a depth is evaluated, the chain of environments is longer than
// the depth and the environment that many links out binds the name.

/// The heap `later` is `earlier` with a tree that has grown.
pub open spec fn regrown(later: &Heap, earlier: &Heap) -> bool {
    &&& later.environments@ == earlier.environments@
    &&& later.classes@ == earlier.classes@
    &&& later.instances@ == earlier.instances@
    &&& later.ast.extends(&earlier.ast)
}

/// The shape of a chain of environments is that of the environments alone.
pub proof fn lemma_shape_same(later: &Heap, earlier: &Heap, env: usize)
    requires
        later.environments@ == earlier.environments@,
    ensures
        shape_of(later, env) == shape_of(earlier, env),
    decreases env,
{
    if env < earlier.environments@.len() {
        if let Some(parent) = earlier.environments@[env as int].enclosing {
            if parent < env {
                lemma_shape_same(later, earlier, parent);
            }
        }
    }
}

/// Whether the table is right for a callable does not change when the
/// tree grows and depths are recorded for new expressions.
pub proof fn lemma_callable_carried(
    later: &Heap,
    table: Seq<Option<usize>>,
    earlier: &Heap,
    before: Seq<Option<usize>>,
    callable: LoxCallable,
    method: bool,
)
    requires
        regrown(later, earlier),
        carried(&later.ast, table, &earlier.ast, before),
        earlier.holds_callable(callable),
    ensures
        callable_right(later, table, callable, method) == callable_right(
            earlier,
            before,
            callable,
            method,
        ),
{
    if let LoxCallable::User { name, params, body, closure, is_initializer } = callable {
        assert(earlier.ast.stmts.len() == earlier.ast.stmts@.len());
        lemma_shape_same(later, earlier, closure);
        let shape = if method {
            shape_of(earlier, closure).push(set!["this"@])
        } else {
            shape_of(earlier, closure)
        };
        lemma_right_function_carried(
            &later.ast,
            table,
            &earlier.ast,
            before,
            shape,
            params,
            body,
            earlier.ast.stmts.len(),
        );
    }
}

/// Whether the table is right for a value does not change when the tree
/// grows and depths are recorded for new expressions.
pub proof fn lemma_object_carried(
    later: &Heap,
    table: Seq<Option<usize>>,
    earlier: &Heap,
    before: Seq<Option<usize>>,
    value: Object,
)
    requires
        regrown(later, earlier),
        carried(&later.ast, table, &earlier.ast, before),
        earlier.holds(value),
    ensures
        object_right(later, table, value) == object_right(earlier, before, value),
{
    if let Object::Callable(callable) = value {
        lemma_callable_carried(later, table, earlier, before, callable, false);
    }
}

/// A table that is right for a heap stays so when the tree grows and
/// depths are recorded for new expressions.
pub proof fn lemma_heap_carried(
    later: &Heap,
    table: Seq<Option<usize>>,
    earlier: &Heap,
    before: Seq<Option<usize>>,
)
    requires
        earlier.wf(),
        regrown(later, earlier),
        carried(&later.ast, table, &earlier.ast, before),
        heap_right(earlier, before),
    ensures
        heap_right(later, table),
{
    reveal(heap_right);
    assert forall|i: int, name: Seq<char>|
        0 <= i < later.environments@.len() && later.environments@[i].values@.contains_key(
            name,
        ) implies object_right(later, table, #[trigger] later.environments@[i].values@[name]) by {
        earlier.lemma_environment(i);
        lemma_object_carried(later, table, earlier, before, earlier.environments@[i].values@[name]);
    }
    assert forall|i: int, name: Seq<char>|
        0 <= i < later.instances@.len() && later.instances@[i].fields@.contains_key(
            name,
        ) implies object_right(later, table, #[trigger] later.instances@[i].fields@[name]) by {
        earlier.lemma_instance(i);
        lemma_object_carried(later, table, earlier, before, earlier.instances@[i].fields@[name]);
    }
    assert forall|i: int, name: Seq<char>|
        0 <= i < later.classes@.len() && later.classes@[i].methods@.contains_key(
            name,
        ) implies callable_right(later, table, #[trigger] later.classes@[i].methods@[name], true) by {
        earlier.lemma_class(i);
        lemma_callable_carried(
            later,
            table,
            earlier,
            before,
            earlier.classes@[i].methods@[name],
            true,
        );
    }
}

/// Whether the table is right for an entry of the stack does not change
/// when the tree grows and depths are recorded for new expressions.
pub proof fn lemma_code_carried(
    later: &Heap,
    table: Seq<Option<usize>>,
    earlier: &Heap,
    before: Seq<Option<usize>>,
    frame: Frame,
    shape: Shape,
)
    requires
        regrown(later, earlier),
        carried(&later.ast, table, &earlier.ast, before),
        frame.fits(earlier),
    ensures
        code_right(later, table, frame, shape) == code_right(earlier, before, frame, shape),
{
    reveal(code_right);
    lemma_extends(&later.ast, &earlier.ast);
    let l = &later.ast;
    let e = &earlier.ast;
    let exprs = earlier.ast.exprs.len();
    let stmts = earlier.ast.stmts.len();
    assert(exprs == earlier.ast.exprs@.len() && stmts == earlier.ast.stmts@.len());
    match frame {
        Frame::Exec(stmt) => {
            lemma_right_stmt_carried(l, table, e, before, shape, stmt);
        },
        Frame::ExecList { span, next } => {
            lemma_right_list_carried(l, table, e, before, shape, span, next as nat, stmts);
        },
        Frame::Branch { then_branch, else_branch } => {
            lemma_right_stmt_carried(l, table, e, before, shape, then_branch);
            if let Some(otherwise) = else_branch {
                lemma_right_stmt_carried(l, table, e, before, shape, otherwise);
            }
        },
        Frame::LoopTest { condition, body } => {
            lemma_right_expr_carried(l, table, e, before, shape, condition);
            lemma_right_stmt_carried(l, table, e, before, shape, body);
        },
        Frame::ClassSuper { name, methods, token } => {
            lemma_right_methods_carried(
                l,
                table,
                e,
                before,
                crate::binding::method_shape(crate::binding::declare(shape, e.text(name)), true),
                methods,
                0,
                stmts,
            );
        },
        Frame::Eval(expr) => {
            lemma_right_expr_carried(l, table, e, before, shape, expr);
        },
        Frame::BinaryRight { operator, right } => {
            lemma_right_expr_carried(l, table, e, before, shape, right);
        },
        Frame::LogicalRhs { operator, right } => {
            lemma_right_expr_carried(l, table, e, before, shape, right);
        },
        Frame::Assign { expr, name } => {},
        Frame::SetCheck { name, value } => {
            lemma_right_expr_carried(l, table, e, before, shape, value);
        },
        Frame::CallCheck { paren, arguments } => {
            lemma_right_exprs_carried(l, table, e, before, shape, arguments, 0, exprs);
        },
        Frame::Argument { paren, callee, arguments, done } => {
            lemma_right_exprs_carried(
                l,
                table,
                e,
                before,
                shape,
                arguments,
                (done@.len() + 1) as nat,
                exprs,
            );
            lemma_object_carried(later, table, earlier, before, callee);
            assert forall|j: int| 0 <= j < done@.len() implies object_right(
                later,
                table,
                #[trigger] done@[j],
            ) == object_right(earlier, before, done@[j]) by {
                lemma_object_carried(later, table, earlier, before, done@[j]);
            }
        },
        Frame::BinaryApply { operator, left } => {
            lemma_object_carried(later, table, earlier, before, left);
        },
        _ => {},
    }
}

/// Whether the table is right for an entry of the stack of a machine does
/// not change when the tree grows and depths are recorded for new
/// expressions.
pub proof fn lemma_entry_carried(pre: Machine, post: Machine, i: int)
    requires
        pre.wf(),
        post == (Machine { heap: post.heap, locals: post.locals, ..pre }),
        regrown(&post.heap, &pre.heap),
        carried(&post.heap.ast, post.locals, &pre.heap.ast, pre.locals),
        0 <= i < pre.frames.len(),
    ensures
        code_right(&post.heap, post.locals, post.frames[i], frame_shape(post, i)) == code_right(
            &pre.heap,
            pre.locals,
            pre.frames[i],
            frame_shape(pre, i),
        ),
{
    lemma_extends(&post.heap.ast, &pre.heap.ast);
    assert(pre.frames[i].fits(&pre.heap));
    assert(frame_env(post, i) == frame_env(pre, i));
    lemma_shape_same(&post.heap, &pre.heap, frame_env(pre, i));
    if i + 1 < pre.frames.len() {
        assert(pre.frames[i + 1].fits(&pre.heap));
        if let Frame::Exec(stmt) = pre.frames[i + 1] {
            lemma_right_stmt_carried(
                &post.heap.ast,
                post.locals,
                &pre.heap.ast,
                pre.locals,
                Seq::empty(),
                stmt,
            );
        }
    }
    assert(owed(post, i) == owed(pre, i));
    assert(frame_shape(post, i) == frame_shape(pre, i));
    lemma_code_carried(
        &post.heap,
        post.locals,
        &pre.heap,
        pre.locals,
        pre.frames[i],
        frame_shape(pre, i),
    );
}

/// A table that is right for a machine stays so when the tree grows and
/// depths are recorded for new expressions.
pub proof fn lemma_machine_carried(pre: Machine, post: Machine)
    requires
        pre.wf(),
        scoped(pre),
        post == (Machine { heap: post.heap, locals: post.locals, ..pre }),
        regrown(&post.heap, &pre.heap),
        carried(&post.heap.ast, post.locals, &pre.heap.ast, pre.locals),
    ensures
        scoped(post),
{
    reveal(scoped);
    lemma_heap_carried(&post.heap, post.locals, &pre.heap, pre.locals);
    if let Some(value) = pre.value {
        lemma_object_carried(&post.heap, post.locals, &pre.heap, pre.locals, value);
    }
    if let Some(Exit::Return(value)) = pre.leaving {
        lemma_object_carried(&post.heap, post.locals, &pre.heap, pre.locals, value);
        lemma_boundary_within(pre.frames);
    }
    assert forall|i: int| 0 <= i < post.frames.len() implies code_right(
        &post.heap,
        post.locals,
        #[trigger] post.frames[i],
        frame_shape(post, i),
    ) == code_right(&pre.heap, pre.locals, pre.frames[i], frame_shape(pre, i)) by {
        lemma_entry_carried(pre, post, i);
    }
}

/// The table holds no depth for an expression that the tree does not
/// hold.
pub open spec fn table_within(m: Machine) -> bool {
    forall|e: usize| e >= m.heap.ast.exprs@.len() ==> m.depth(e) is None
}

/// Where no depth is recorded for an expression, its depth is what it was.
pub proof fn lemma_depth_kept(
    base: Option<usize>,
    resolutions: Seq<Resolution>,
    upto: int,
    expr: usize,
)
    requires
        upto <= resolutions.len(),
        forall|k: int| 0 <= k < upto ==> (#[trigger] resolutions[k]).expr != expr,
    ensures
        depth_after(base, resolutions, upto, expr) == base,
    decreases upto,
{
    if upto > 0 {
        lemma_depth_kept(base, resolutions, upto - 1, expr);
    }
}

/// Where one depth is recorded for an expression, it is its depth.
pub proof fn lemma_depth_recorded(
    base: Option<usize>,
    resolutions: Seq<Resolution>,
    upto: int,
    k: int,
)
    requires
        0 <= k < upto <= resolutions.len(),
        forall|l: int| k < l < upto ==> (#[trigger] resolutions[l]).expr != resolutions[k].expr,
    ensures
        depth_after(base, resolutions, upto, resolutions[k].expr) == Some(resolutions[k].depth),
    decreases upto,
{
    if upto - 1 > k {
        lemma_depth_recorded(base, resolutions, upto - 1, k);
    }
}

/// What the parser makes of a program, as far as the depths of its names
/// go: the tree has grown and is as the grammar has it, and the uses of
/// names in the program are new expressions, none of which occurs twice.
pub open spec fn well_parsed(earlier: &Ast, ast: &Ast, statements: Seq<usize>) -> bool {
    &&& tidy(ast)
    &&& apart(ast)
    &&& single(uses_program(ast, statements, 0))
    &&& between(
        uses_program(ast, statements, 0),
        earlier.exprs@.len() as int,
        ast.exprs@.len() as int,
    )
}

/// Loading a program keeps the table right: where the table was right for
/// the machine and the program is loaded, with or without errors, the
/// table is right for the machine as the loading leaves it.
pub proof fn lemma_loaded_scoped(pre: Lox, source: Seq<char>, post: Lox, lines: Seq<String>)
    requires
        pre.interpreter@.wf(),
        post.interpreter@.wf(),
        scoped(pre.interpreter@),
        table_within(pre.interpreter@),
        loaded(pre, source, post, lines),
        post.interpreter.heap.ast.extends(&pre.interpreter.heap.ast),
        2 * post.interpreter.heap.ast.stmts@.len() <= usize::MAX,
        !post.had_error ==> well_parsed(
            &pre.interpreter.heap.ast,
            &post.interpreter.heap.ast,
            spec_program(
                post.interpreter.heap.ast.kinds(),
                parser_start(&pre.interpreter.heap.ast),
                Seq::empty(),
            ).result.unwrap(),
        ),
    ensures
        scoped(post.interpreter@),
        table_within(post.interpreter@),
{
    let before = pre.interpreter@;
    let after = post.interpreter@;
    let earlier = &pre.interpreter.heap.ast;
    let ast = &post.interpreter.heap.ast;
    lemma_extends(ast, earlier);
    pre.interpreter.heap.lemma_ast();
    post.interpreter.heap.lemma_ast();
    assert(post.interpreter.heap.ast.lists.len() == ast.lists@.len());
    if post.had_error {
        assert(after == before.on(post.interpreter.heap));
        lemma_machine_carried(before, after);
        assert forall|e: usize| e >= ast.exprs@.len() implies after.depth(e) is None by {
            assert(before.depth(e) is None);
        }
    } else {
        let outcome = spec_program(ast.kinds(), parser_start(earlier), Seq::empty());
        let statements = outcome.result.unwrap();
        let start = resolver_start();
        let resolved = spec_resolve_program(ast, start, statements, 0);
        let records = resolved.resolutions;
        let uses = uses_program(ast, statements, 0);
        let program = program_span(ast, statements);
        let table = after.locals;
        assert(after.frames[0] == (Frame::ExecList { span: program, next: 0 }));
        assert(after.frames[0].fits(&after.heap));
        assert(ast.lists@ == outcome.state.lists + statements);
        assert(ast.lists@.len() == outcome.state.lists.len() + statements.len());
        assert(program.len == statements.len());
        assert(program.start == outcome.state.lists.len());
        assert forall|j: int| 0 <= j < statements.len() implies ast.lists@[program.start + j]
            == statements[j] && statements[j] < ast.stmts@.len() by {
            assert(ast.lists@[program.start + j] == (outcome.state.lists + statements)[
                outcome.state.lists.len() + j]);
        }
        lemma_program_grows(ast, start, statements, 0);
        assert forall|e: usize| depth_in(table, e) == after.depth(e) by {}
        // the depths of the tree before are as they were
        assert forall|e: usize| e < earlier.exprs@.len() implies depth_in(table, e) == depth_in(
            before.locals,
            e,
        ) by {
            assert forall|k: int| 0 <= k < records.len() implies (#[trigger] records[k]).expr
                != e by {
                assert(uses.contains(records[k].expr));
            }
            lemma_depth_kept(before.depth(e), records, records.len() as int, e);
        }
        let mid = Machine { heap: after.heap, locals: after.locals, ..before };
        lemma_machine_carried(before, mid);
        assert(heap_right(&after.heap, after.locals)) by {
            reveal(scoped);
        }
        // the table agrees with what the resolver recorded
        assert(agrees(table, start, resolved, uses)) by {
            assert forall|k: int| 0 <= k < records.len() implies depth_in(
                table,
                (#[trigger] records[k]).expr,
            ) == Some(records[k].depth) by {
                lemma_depth_recorded(
                    before.depth(records[k].expr),
                    records,
                    records.len() as int,
                    k,
                );
            }
            assert forall|e: usize| #[trigger]
                uses.contains(e) && depth_in(table, e) is Some implies exists|k: int|
                0 <= k < records.len() && (#[trigger] records[k]).expr == e by {
                if forall|k: int| 0 <= k < records.len() ==> (#[trigger] records[k]).expr != e {
                    lemma_depth_kept(before.depth(e), records, records.len() as int, e);
                }
            }
        }
        assert(resolved.errors.len() == 0);
        assert(resolved.errors =~= start.errors);
        lemma_program_right(ast, start, statements, 0, program, table);
        lemma_start_scoped(after, program);
        // no depth is recorded beyond the tree
        lemma_uses_program_below(ast, statements, 0);
        assert forall|e: usize| e >= ast.exprs@.len() implies after.depth(e) is None by {
            assert forall|k: int| 0 <= k < records.len() implies (#[trigger] records[k]).expr
                != e by {
                assert(uses.contains(records[k].expr));
            }
            lemma_depth_kept(before.depth(e), records, records.len() as int, e);
        }
    }
}

/// A word is what the keyword table says: an identifier, a `this` or a
/// `super` is of the kind of its text.
pub open spec fn worded(tokens: Seq<Token>) -> bool {
    forall|i: int|
        0 <= i < tokens.len() && ((#[trigger] tokens[i]).token_type == TokenType::Identifier
            || tokens[i].token_type == TokenType::This || tokens[i].token_type
            == TokenType::Super) ==> tokens[i].token_type == word_kind(tokens[i].lexeme@)
}

/// The scanner gives an identifier, a `this` or a `super` the kind of its
/// text.
pub proof fn lemma_word_kinds(src: Seq<char>, pos: int)
    ensures
        forall|i: int|
            0 <= i < lexemes_from(src, pos).len() ==> {
                let l = #[trigger] lexemes_from(src, pos)[i];
                l.kind == TokenType::Identifier || l.kind == TokenType::This || l.kind
                    == TokenType::Super ==> l.kind == word_kind(src.subrange(l.start, l.end))
            },
    decreases src.len() - pos,
{
    if 0 <= pos < src.len() {
        let lexed = lex_at(src, pos);
        if !(lexed.end <= pos || lexed.end > src.len()) {
            lemma_word_kinds(src, lexed.end);
            let rest = lexemes_from(src, lexed.end);
            match lexed.piece {
                Piece::Token(kind) => {
                    let first = Lexeme { kind, start: pos, end: lexed.end };
                    assert forall|i: int| 0 <= i < lexemes_from(src, pos).len() implies {
                        let l = #[trigger] lexemes_from(src, pos)[i];
                        l.kind == TokenType::Identifier || l.kind == TokenType::This || l.kind
                            == TokenType::Super ==> l.kind == word_kind(
                            src.subrange(l.start, l.end),
                        )
                    } by {
                        if i > 0 {
                            assert(lexemes_from(src, pos)[i] == rest[i - 1]);
                        } else {
                            assert(lexemes_from(src, pos)[i] == first);
                        }
                    }
                },
                _ => {},
            }
        }
    }
}

/// The tokens of a source are worded.
pub proof fn lemma_scanned_worded(source: Seq<char>, tokens: Seq<Token>)
    requires
        scanned(source, tokens),
    ensures
        worded(tokens),
{
    lemma_word_kinds(source, 0);
    let lexemes = lexemes_from(source, 0);
    assert forall|i: int|
        0 <= i < tokens.len() && ((#[trigger] tokens[i]).token_type == TokenType::Identifier
            || tokens[i].token_type == TokenType::This || tokens[i].token_type
            == TokenType::Super) implies tokens[i].token_type == word_kind(tokens[i].lexeme@) by {
        if i < lexemes.len() {
            assert(tokens.subrange(0, lexemes.len() as int)[i] == tokens[i]);
            let l = lexemes[i];
            assert(tokens[i].lexeme@ == source.subrange(l.start, l.end));
        }
    }
}

/// The tables of a tree, as the parser keeps them.
pub open spec fn tables(ast: &Ast) -> PState {
    PState {
        current: 0,
        exprs: ast.exprs@,
        stmts: ast.stmts@,
        lists: ast.lists@,
        errors: Seq::empty(),
    }
}

/// The tree is as the parser makes it from tokens as the scanner makes
/// them.
pub open spec fn grammatical(ast: &Ast) -> bool {
    neat(ast.kinds(), tables(ast)) && worded(ast.tokens@)
}

/// In a tree as the parser makes it, the branches of an `if` and the body
/// of a loop declare nothing, the superclass of a class is a variable, and
/// no variable has the name of a `this` or a `super`.
pub proof fn lemma_grammatical(ast: &Ast)
    requires
        grammatical(ast),
    ensures
        tidy(ast),
        apart(ast),
{
    let k = ast.kinds();
    let t = tables(ast);
    assert forall|id: usize| id < ast.stmts@.len() implies tidy_stmt(ast, id) by {
        assert(stmt_neat(k, t.stmts[id as int], id as int, t.exprs, t.stmts, t.lists.len() as int));
    }
    assert forall|e: int| 0 <= e < ast.exprs@.len() implies match #[trigger] ast.exprs@[e] {
        Expr::This { keyword } => !var_named(ast, ast.text(keyword)),
        Expr::Super { keyword, method } => !var_named(ast, ast.text(keyword)),
        _ => true,
    } by {
        assert(expr_neat(k, t.exprs[e], e, t.lists.len() as int));
        let keyword = match ast.exprs@[e] {
            Expr::This { keyword } => keyword,
            Expr::Super { keyword, method } => keyword,
            _ => 0,
        };
        if ast.exprs@[e] is This || ast.exprs@[e] is Super {
            assert(k[keyword as int] == ast.tokens@[keyword as int].token_type);
            if var_named(ast, ast.text(keyword)) {
                let v = choose|v: int|
                    0 <= v < ast.stmts@.len() && (#[trigger] ast.stmts@[v] matches Stmt::Var {
                        name,
                        ..
                    } && ast.text(name) == ast.text(keyword));
                assert(stmt_neat(k, t.stmts[v], v, t.exprs, t.stmts, t.lists.len() as int));
                if let Stmt::Var { name, initializer } = ast.stmts@[v] {
                    assert(k[name as int] == ast.tokens@[name as int].token_type);
                    assert(ast.tokens@[name as int].token_type == word_kind(ast.text(name)));
                    assert(ast.tokens@[keyword as int].token_type == word_kind(
                        ast.text(keyword),
                    ));
                }
            }
        }
    }
}

/// A tree as the parser makes it stays so when tokens are appended and
/// parsed as a program; it has grown, and the uses of names in the program
/// are new expressions, none of which occurs twice.
pub proof fn lemma_parsed_well(
    earlier: &Ast,
    source: Seq<char>,
    tokens: Seq<Token>,
    ast: &Ast,
    statements: Seq<usize>,
)
    requires
        grammatical(earlier),
        scanned(source, tokens),
        parsed(
            earlier,
            tokens,
            ast,
            statements,
            spec_program(ast.kinds(), parser_start(earlier), Seq::empty()).state.errors,
        ),
    ensures
        grammatical(ast),
        ast.extends(earlier),
        well_parsed(earlier, ast, statements),
{
    let k = ast.kinds();
    let start = parser_start(earlier);
    let none = Seq::<usize>::empty();
    let out = spec_program(k, start, none);
    let low = earlier.exprs@.len() as int;
    // the tokens and their kinds
    lemma_scanned_worded(source, tokens);
    assert(ast.tokens@ == earlier.tokens@ + tokens);
    assert(worded(ast.tokens@)) by {
        assert forall|i: int|
            0 <= i < ast.tokens@.len() && ((#[trigger] ast.tokens@[i]).token_type
                == TokenType::Identifier || ast.tokens@[i].token_type == TokenType::This
                || ast.tokens@[i].token_type == TokenType::Super) implies ast.tokens@[i].token_type
            == word_kind(ast.tokens@[i].lexeme@) by {
            if i < earlier.tokens@.len() {
                assert(ast.tokens@[i] == earlier.tokens@[i]);
            } else {
                assert(ast.tokens@[i] == tokens[i - earlier.tokens@.len()]);
            }
        }
    }
    // the tables before are as the grammar has them, over the kinds of all tokens
    assert(neat(k, start)) by {
        let old = earlier.kinds();
        let t = tables(earlier);
        assert forall|i: int| 0 <= i < old.len() implies k[i] == old[i] by {
            assert(ast.tokens@[i] == earlier.tokens@[i]);
        }
        assert forall|i: int| 0 <= i < start.exprs.len() implies expr_neat(
            k,
            #[trigger] start.exprs[i],
            i,
            start.lists.len() as int,
        ) by {
            assert(expr_neat(old, t.exprs[i], i, t.lists.len() as int));
        }
        assert forall|i: int| 0 <= i < start.stmts.len() implies stmt_neat(
            k,
            #[trigger] start.stmts[i],
            i,
            start.exprs,
            start.stmts,
            start.lists.len() as int,
        ) by {
            assert(stmt_neat(old, t.stmts[i], i, t.exprs, t.stmts, t.lists.len() as int));
        }
    }
    assert(seen_program(start.exprs, start.stmts, start.lists, none, 0) =~= Seq::<usize>::empty());
    lemma_program_fresh(k, start, none, low);
    // the tables are no longer than an index can say
    assert(ast.tokens.len() == ast.tokens@.len());
    assert(ast.exprs.len() == ast.exprs@.len());
    assert(ast.stmts.len() == ast.stmts@.len());
    assert(ast.lists.len() == ast.lists@.len());
    assert(ast.lists@.len() == out.state.lists.len() + statements.len());
    assert(roomy(k, out.state));
    // the list of the program is appended behind the lists of the parser
    let last = out.state.emit_list(statements);
    lemma_emit_list(k, out.state, statements);
    assert(neat(k, tables(ast))) by {
        assert(last.exprs == tables(ast).exprs);
        assert(last.stmts == tables(ast).stmts);
        assert(last.lists == tables(ast).lists);
    }
    lemma_list_grown(k, out.state, last, statements, 0);
    assert(uses_program(ast, statements, 0) == seen_program(
        last.exprs,
        last.stmts,
        last.lists,
        statements,
        0,
    ));
    lemma_grammatical(ast);
    // the tree has grown
    assert(earlier.tokens@.is_prefix_of(ast.tokens@));
    assert(earlier.exprs@.is_prefix_of(ast.exprs@)) by {
        assert(earlier.exprs@ =~= ast.exprs@.subrange(0, earlier.exprs@.len() as int));
    }
    assert(earlier.stmts@.is_prefix_of(ast.stmts@)) by {
        assert(earlier.stmts@ =~= ast.stmts@.subrange(0, earlier.stmts@.len() as int));
    }
    assert(earlier.lists@.is_prefix_of(ast.lists@)) by {
        assert(earlier.lists@ =~= ast.lists@.subrange(0, earlier.lists@.len() as int));
    }
}

/// A step leaves the tree and the table.
pub proof fn lemma_step_keeps_tree(pre: Machine, post: Machine, action: Action)
    requires
        stepped(pre, post, action),
    ensures
        post.heap.ast == pre.heap.ast,
        post.locals == pre.locals,
{
}

/// What holds of the interpreter throughout a session: the machine is well
/// formed; the tree is as the parser makes it; the table holds depths for
/// expressions of the tree only; and the table is right for all that the
/// machine has left to do and for all the functions that it holds.
pub open spec fn sessioned(m: Machine) -> bool {
    &&& m.wf()
    &&& grammatical(&m.heap.ast)
    &&& table_within(m)
    &&& scoped(m)
}

/// A new interpreter is in a session.
pub proof fn lemma_new_session(m: Machine)
    requires
        m.wf(),
        as_new(m),
    ensures
        sessioned(m),
{
    reveal(scoped);
    reveal(heap_right);
}

/// A step keeps the session.
pub proof fn lemma_step_session(pre: Machine, post: Machine, action: Action)
    requires
        sessioned(pre),
        post.wf(),
        stepped(pre, post, action),
    ensures
        sessioned(post),
{
    lemma_step_keeps_tree(pre, post, action);
    lemma_step_keeps_scoped(pre, post, action);
    lemma_same_tree(pre, post);
}

/// With the same tree and the same table, the tree is as the parser makes
/// it and the table holds depths for its expressions only.
pub proof fn lemma_same_tree(pre: Machine, post: Machine)
    requires
        grammatical(&pre.heap.ast),
        table_within(pre),
        post.heap.ast == pre.heap.ast,
        post.locals == pre.locals,
    ensures
        grammatical(&post.heap.ast),
        table_within(post),
{
    assert(post.heap.ast.kinds() == pre.heap.ast.kinds());
    assert(tables(&post.heap.ast) == tables(&pre.heap.ast));
    assert forall|e: usize| e >= post.heap.ast.exprs@.len() implies post.depth(e) is None by {
        assert(pre.depth(e) is None);
    }
}

/// The host's answer to a request keeps the session.
pub proof fn lemma_reply_session(pre: Machine, post: Machine)
    requires
        sessioned(pre),
        post.wf(),
        (exists|number: Number| number_replied(pre, number, post, true)) || (exists|
            text: Seq<char>,
        |
            text_replied(pre, text, post, true)),
    ensures
        sessioned(post),
{
    lemma_reply_keeps_scoped(pre, post);
    if exists|number: Number| number_replied(pre, number, post, true) {
        let number = choose|number: Number| number_replied(pre, number, post, true);
        assert(number_replied(pre, number, post, true));
        lemma_same_tree(pre, post);
    } else {
        let text = choose|text: Seq<char>| text_replied(pre, text, post, true);
        assert(text_replied(pre, text, post, true));
        lemma_same_tree(pre, post);
    }
}

/// Loading a program keeps the session, whether the program has errors or
/// is started, if the tree is not larger than half of what an index can
/// say. So in every state of a session the table is right: by
/// `lemma_use_is_bound`, whenever a use of a name for which the resolver
/// recorded a depth is evaluated, the chain of environments is longer than
/// the depth, and the environment that many links out binds the name.
pub proof fn lemma_loaded_session(pre: Lox, source: Seq<char>, post: Lox, lines: Seq<String>)
    requires
        sessioned(pre.interpreter@),
        post.interpreter@.wf(),
        loaded(pre, source, post, lines),
        2 * post.interpreter.heap.ast.stmts@.len() <= usize::MAX,
    ensures
        sessioned(post.interpreter@),
{
    let earlier = &pre.interpreter.heap.ast;
    let ast = &post.interpreter.heap.ast;
    let tokens = ast.tokens@.subrange(earlier.tokens@.len() as int, ast.tokens@.len() as int);
    let outcome = spec_program(ast.kinds(), parser_start(earlier), Seq::empty());
    let statements = outcome.result.unwrap();
    lemma_parsed_well(earlier, source, tokens, ast, statements);
    lemma_loaded_scoped(pre, source, post, lines);
}

/// The interpreter is as new: nothing to do, nothing recorded, an empty
/// tree, and a global environment that binds the clock and nothing else.
pub open spec fn as_new(m: Machine) -> bool {
    &&& m.frames.len() == 0
    &&& m.value is None
    &&& m.leaving is None
    &&& m.locals.len() == 0
    &&& m.heap.environments@.len() == 1
    &&& m.heap.environments@[0].values@ == Map::<Seq<char>, Object>::empty().insert(
        "clock"@,
        Object::Callable(LoxCallable::Native { arity: 0, function: NativeFunction::Clock }),
    )
    &&& m.heap.classes@.len() == 0
    &&& m.heap.instances@.len() == 0
    &&& m.heap.ast.tokens@.len() == 0
    &&& m.heap.ast.exprs@.len() == 0
    &&& m.heap.ast.stmts@.len() == 0
}

/// One move of a session: a step, an answer of the host that the machine
/// accepts, or the loading of a program.
#[verifier::opaque]
pub open spec fn session_move(pre: Machine, post: Machine) -> bool {
    ||| exists|action: Action| stepped(pre, post, action)
    ||| exists|number: Number| number_replied(pre, number, post, true)
    ||| exists|text: Seq<char>| text_replied(pre, text, post, true)
    ||| exists|before: Lox, source: Seq<char>, after: Lox, lines: Seq<String>|
        before.interpreter@ == pre && after.interpreter@ == post && #[trigger] loaded(
            before,
            source,
            after,
            lines,
        )
}

/// A session: it begins with a new interpreter, each state but the first
/// comes from the one before it by a move, every state is well formed, and
/// the tree never gets larger than half of what an index can say.
pub open spec fn is_session(trace: Seq<Machine>) -> bool {
    &&& trace.len() > 0
    &&& as_new(trace[0])
    &&& forall|i: int|
        0 <= i < trace.len() ==> (#[trigger] trace[i]).wf() && 2 * trace[i].heap.ast.stmts@.len()
            <= usize::MAX
    &&& forall|i: int| 0 <= i < trace.len() - 1 ==> session_move(#[trigger] trace[i], trace[i + 1])
}

/// In every state of a session the table is right.
pub proof fn lemma_session(trace: Seq<Machine>, i: int)
    requires
        is_session(trace),
        0 <= i < trace.len(),
    ensures
        sessioned(trace[i]),
    decreases i,
{
    if i == 0 {
        lemma_new_session(trace[0]);
    } else {
        lemma_session(trace, i - 1);
        let pre = trace[i - 1];
        let post = trace[i];
        assert(session_move(pre, post));
        reveal(session_move);
        if exists|action: Action| stepped(pre, post, action) {
            let action = choose|action: Action| stepped(pre, post, action);
            lemma_step_session(pre, post, action);
        } else if (exists|number: Number| number_replied(pre, number, post, true)) || (exists|
            text: Seq<char>,
        |
            text_replied(pre, text, post, true)) {
            lemma_reply_session(pre, post);
        } else {
            let (before, source, after, lines) = choose|
                before: Lox,
                source: Seq<char>,
                after: Lox,
                lines: Seq<String>,
            |
                before.interpreter@ == pre && after.interpreter@ == post && #[trigger] loaded(
                    before,
                    source,
                    after,
                    lines,
                );
            lemma_loaded_session(before, source, after, lines);
        }
    }
}

/// Every depth that the resolver records is right when it is used: in
/// every state of a session in which the machine goes on, a variable, a
/// `this` or a `super` is about to be evaluated and the table holds a depth
/// for it, the chain of
/// environments from the current one is longer than the depth, and the
/// environment that many links out binds the name.
pub proof fn lemma_recorded_depths_are_right(
    trace: Seq<Machine>,
    i: int,
    expr: usize,
    name: usize,
    depth: usize,
)
    requires
        is_session(trace),
        0 <= i < trace.len(),
        trace[i].leaving is None,
        trace[i].frames.len() > 0,
        trace[i].frames.last() == Frame::Eval(expr),
        trace[i].heap.ast.exprs@[expr as int] == (Expr::Variable { name })
            || trace[i].heap.ast.exprs@[expr as int] == (Expr::This { keyword: name }) || (
        trace[i].heap.ast.exprs@[expr as int] matches Expr::Super { keyword, .. } && keyword
            == name),
        trace[i].depth(expr) == Some(depth),
    ensures
        trace[i].heap.ancestor(trace[i].environment, depth as nat) matches Some(found)
            && trace[i].heap.environments@[found as int].values@.contains_key(
            trace[i].heap.ast.text(name),
        ),
{
    lemma_session(trace, i);
    lemma_use_is_bound(trace[i], expr, name, depth);
}

/// The depth that the resolver records for an assignment is right when the
/// value is assigned: in every state of a session in which the value of an
/// assignment is about to be stored and the table holds a depth for the
/// assignment, the chain of environments from the current one is longer
/// than the depth, and the environment that many links out binds the name.
pub proof fn lemma_recorded_depths_are_right_to_assign(
    trace: Seq<Machine>,
    i: int,
    expr: usize,
    name: usize,
    depth: usize,
)
    requires
        is_session(trace),
        0 <= i < trace.len(),
        trace[i].leaving is None,
        trace[i].frames.len() > 0,
        trace[i].frames.last() == (Frame::Assign { expr, name }),
        trace[i].depth(expr) == Some(depth),
    ensures
        trace[i].heap.ancestor(trace[i].environment, depth as nat) matches Some(found)
            && trace[i].heap.environments@[found as int].values@.contains_key(
            trace[i].heap.ast.text(name),
        ),
{
    lemma_session(trace, i);
    lemma_assignment_is_bound(trace[i], expr, name, depth);
}

} // verus!
