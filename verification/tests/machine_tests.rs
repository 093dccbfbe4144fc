use lox::callable::{LoxCallable, NativeFunction};
use lox::error::{RuntimeError, RuntimeErrorKind};
use lox::frame::{Action, Arithmetic, Exit, Frame, Request};
use lox::interpreter::Interpreter;
use lox::lox::Lox;
use lox::object::Object;
use lox::parser::Parser;
use lox::resolver::Resolver;
use lox::scanner::Scanner;
use lox::util::Number;

fn number(value: f64) -> Number {
    Number::from_bits(value.to_bits())
}

fn load(source: &str) -> Lox {
    let mut lox = Lox::new();
    let lines = lox.run(source.to_string());
    assert_eq!(lines, Vec::<String>::new());
    assert!(!lox.had_error);
    lox
}

/// Steps until the machine hands something other than `Continue` to its
/// host.
fn next(lox: &mut Lox) -> Action {
    for _ in 0..100_000 {
        match lox.interpreter.step() {
            Action::Continue => {}
            other => return other,
        }
    }
    panic!("no action");
}

fn asked(action: Action) -> Request {
    match action {
        Action::Ask(request) => request,
        other => panic!("{:?}", other),
    }
}

#[test]
fn a_new_interpreter_has_nothing_to_do() {
    let mut interpreter = Interpreter::new();
    assert!(matches!(interpreter.step(), Action::Done));
    assert!(matches!(interpreter.step(), Action::Done));
    assert_eq!(interpreter.globals, 0);
    assert_eq!(interpreter.environment, 0);
    assert_eq!(interpreter.heap.environments.len(), 1);
    assert!(matches!(
        interpreter.heap.environments[0].values.get(&"clock".to_string()),
        Some(Object::Callable(LoxCallable::Native { arity: 0, function: NativeFunction::Clock }))
    ));
    assert!(!interpreter.reply_number(number(1.0)));
    assert!(!interpreter.reply_text("1".to_string()));
    assert!(interpreter.value.is_none());
}

#[test]
fn arithmetic_is_asked_of_the_host() {
    let mut lox = load("print 6 / 4;");
    match asked(next(&mut lox)) {
        Request::ParseNumber { token } => {
            assert_eq!(lox.interpreter.heap.ast.tokens[token].lexeme, "6");
            assert!(lox.interpreter.reply_number(number(6.0)));
        }
        other => panic!("{:?}", other),
    }
    match asked(next(&mut lox)) {
        Request::ParseNumber { token } => {
            assert_eq!(lox.interpreter.heap.ast.tokens[token].lexeme, "4");
            assert!(lox.interpreter.reply_number(number(4.0)));
        }
        other => panic!("{:?}", other),
    }
    match asked(next(&mut lox)) {
        Request::Arithmetic { operator, left, right } => {
            assert_eq!(operator, Arithmetic::Divide);
            assert_eq!(left.to_bits(), 6.0f64.to_bits());
            assert_eq!(right.to_bits(), 4.0f64.to_bits());
            assert!(lox.interpreter.reply_number(number(1.5)));
        }
        other => panic!("{:?}", other),
    }
    match asked(next(&mut lox)) {
        Request::FormatNumber(n) => {
            assert_eq!(n.to_bits(), 1.5f64.to_bits());
            assert!(lox.interpreter.reply_text("1.5".to_string()));
        }
        other => panic!("{:?}", other),
    }
    match next(&mut lox) {
        Action::Print(text) => assert_eq!(text, "1.5"),
        other => panic!("{:?}", other),
    }
    assert!(matches!(next(&mut lox), Action::Done));
}

#[test]
fn each_operator_asks_for_its_arithmetic() {
    for (source, expected) in [
        ("1 + 2;", Arithmetic::Add),
        ("1 - 2;", Arithmetic::Subtract),
        ("1 * 2;", Arithmetic::Multiply),
        ("1 / 2;", Arithmetic::Divide),
    ] {
        let mut lox = load(source);
        asked(next(&mut lox));
        assert!(lox.interpreter.reply_number(number(1.0)));
        asked(next(&mut lox));
        assert!(lox.interpreter.reply_number(number(2.0)));
        match asked(next(&mut lox)) {
            Request::Arithmetic { operator, .. } => assert_eq!(operator, expected),
            other => panic!("{:?}", other),
        }
    }
}

#[test]
fn the_machine_waits_for_the_answer() {
    let mut lox = load("print clock();");
    assert!(matches!(asked(next(&mut lox)), Request::Clock));
    assert!(matches!(lox.interpreter.step(), Action::Ask(Request::Clock)));
    assert!(matches!(lox.interpreter.step(), Action::Ask(Request::Clock)));
    assert!(!lox.interpreter.reply_text("no".to_string()));
    assert!(matches!(lox.interpreter.step(), Action::Ask(Request::Clock)));
    assert!(lox.interpreter.reply_number(number(2.0)));
    assert!(!lox.interpreter.reply_number(number(3.0)));
    match asked(next(&mut lox)) {
        Request::FormatNumber(n) => assert_eq!(n.to_bits(), 2.0f64.to_bits()),
        other => panic!("{:?}", other),
    }
    assert!(!lox.interpreter.reply_number(number(3.0)));
    assert!(lox.interpreter.reply_text("2.0".to_string()));
    match next(&mut lox) {
        Action::Print(text) => assert_eq!(text, "2"),
        other => panic!("{:?}", other),
    }
}

#[test]
fn what_the_host_answers_is_the_value() {
    let mut lox = load("var a = 1 + 1; print a == 5;");
    asked(next(&mut lox));
    assert!(lox.interpreter.reply_number(number(1.0)));
    asked(next(&mut lox));
    assert!(lox.interpreter.reply_number(number(1.0)));
    asked(next(&mut lox));
    assert!(lox.interpreter.reply_number(number(4.0)));
    asked(next(&mut lox));
    assert!(lox.interpreter.reply_number(number(5.0)));
    match next(&mut lox) {
        Action::Print(text) => assert_eq!(text, "false"),
        other => panic!("{:?}", other),
    }
}

#[test]
fn an_error_ends_the_program_and_resets_the_machine() {
    let mut lox = load("{ var a = nil; { print -a; } } print \"later\";");
    match next(&mut lox) {
        Action::Error(error) => {
            assert_eq!(error.kind, RuntimeErrorKind::OperandMustBeNumber);
            assert_eq!(lox.interpreter.heap.ast.tokens[error.token].lexeme, "-");
        }
        other => panic!("{:?}", other),
    }
    assert_eq!(lox.interpreter.frames.len(), 0);
    assert!(lox.interpreter.value.is_none());
    assert!(lox.interpreter.pending.is_none());
    assert_eq!(lox.interpreter.environment, lox.interpreter.globals);
    assert!(matches!(next(&mut lox), Action::Done));
}

#[test]
fn a_block_goes_back_to_its_environment() {
    let mut lox = load("{ var a = \"x\"; { var b = a; } print a; }");
    let mut deepest = 0;
    loop {
        match lox.interpreter.step() {
            Action::Continue => {
                if lox.interpreter.environment > deepest {
                    deepest = lox.interpreter.environment;
                }
            }
            Action::Print(text) => {
                assert_eq!(text, "x");
                assert_eq!(lox.interpreter.environment, 1);
            }
            Action::Done => break,
            other => panic!("{:?}", other),
        }
    }
    assert_eq!(deepest, 2);
    assert_eq!(lox.interpreter.environment, 0);
    assert_eq!(lox.interpreter.heap.environments.len(), 3);
    assert_eq!(lox.interpreter.heap.environments[2].enclosing, Some(1));
    assert_eq!(lox.interpreter.heap.environments[1].enclosing, Some(0));
}

#[test]
fn a_call_goes_back_to_the_environment_of_the_caller() {
    let mut lox = load("fn f(a) { { return a; } } { var x = f(\"v\"); print x; }");
    loop {
        match lox.interpreter.step() {
            Action::Continue => {}
            Action::Print(text) => {
                assert_eq!(text, "v");
                // the block of the caller
                assert_eq!(lox.interpreter.environment, 1);
            }
            Action::Done => break,
            other => panic!("{:?}", other),
        }
    }
    assert_eq!(lox.interpreter.environment, 0);
    // the block, the call, and the block in the function
    assert_eq!(lox.interpreter.heap.environments.len(), 4);
    assert_eq!(lox.interpreter.heap.environments[2].enclosing, Some(0));
}

#[test]
fn the_right_operand_is_not_put_on_the_stack_when_the_left_decides() {
    let mut lox = load("var t = true; var r = t or undefined_name; print r;");
    match next(&mut lox) {
        Action::Print(text) => assert_eq!(text, "true"),
        other => panic!("{:?}", other),
    }
    let mut lox = load("var r = nil and undefined_name; print r;");
    match next(&mut lox) {
        Action::Print(text) => assert_eq!(text, "nil"),
        other => panic!("{:?}", other),
    }
    let mut lox = load("var r = nil or undefined_name;");
    assert!(matches!(
        next(&mut lox),
        Action::Error(RuntimeError { kind: RuntimeErrorKind::UndefinedVariable, .. })
    ));
}

#[test]
fn a_callable_can_be_called_from_outside() {
    let mut lox = load("fn show(a, b) { print a; print b; return b; }");
    assert!(matches!(next(&mut lox), Action::Done));
    let show = match lox.interpreter.heap.environments[0].values.get(&"show".to_string()) {
        Some(Object::Callable(callable)) => *callable,
        other => panic!("{:?}", other),
    };
    assert_eq!(show.arity(), 2);
    let paren = lox.interpreter.heap.ast.tokens.iter().position(|t| t.lexeme == ")").unwrap();

    // the result of the call is dropped like that of an expression statement
    lox.interpreter.frames.push(Frame::Discard);
    let arguments = vec![Object::String("one".to_string()), Object::Boolean(true)];
    assert!(matches!(show.call(&mut lox.interpreter, paren, arguments), Action::Continue));
    assert_eq!(lox.interpreter.environment, 1);
    let mut printed = vec![];
    loop {
        match lox.interpreter.step() {
            Action::Continue => {}
            Action::Print(text) => printed.push(text),
            Action::Done => break,
            other => panic!("{:?}", other),
        }
    }
    assert_eq!(printed, vec!["one".to_string(), "true".to_string()]);
    assert_eq!(lox.interpreter.environment, 0);

    lox.interpreter.frames.push(Frame::Discard);
    // the call is refused: the machine leaves what was put on the stack,
    // and hands the error out at the bottom
    assert!(matches!(show.call(&mut lox.interpreter, paren, vec![Object::Nil]), Action::Continue));
    assert!(matches!(lox.interpreter.leaving, Some(Exit::Error(_))));
    assert_eq!(lox.interpreter.frames.len(), 1);
    match next(&mut lox) {
        Action::Error(error) => {
            assert_eq!(error.kind, RuntimeErrorKind::WrongArity { expected: 2, got: 1 });
            assert_eq!(error.token, paren);
        }
        other => panic!("{:?}", other),
    }
    assert_eq!(lox.interpreter.frames.len(), 0);
    assert_eq!(lox.interpreter.environment, 0);
}

#[test]
fn a_program_can_be_started_in_parts() {
    let mut scanner = Scanner::new("var a = \"s\"; { var b = a; print b; }".to_string());
    scanner.scan_tokens();
    let mut parser = Parser::new(scanner.tokens);
    let statements = parser.parse();
    assert!(!parser.had_error());
    let mut resolver = Resolver::new();
    resolver.resolve_stmt_list(&parser.ast, &statements);
    assert!(!resolver.had_error());
    assert_eq!(resolver.resolutions.len(), 1);

    let mut interpreter = Interpreter::new();
    interpreter.heap.replace_ast(parser.ast);
    for resolution in resolver.resolutions.iter() {
        interpreter.resolve(resolution.expr, resolution.depth);
    }
    assert_eq!(interpreter.locals[resolver.resolutions[0].expr], Some(0));
    interpreter.interpret(statements);
    assert_eq!(interpreter.frames.len(), 1);
    let mut printed = vec![];
    loop {
        match interpreter.step() {
            Action::Continue => {}
            Action::Print(text) => printed.push(text),
            Action::Done => break,
            other => panic!("{:?}", other),
        }
    }
    assert_eq!(printed, vec!["s".to_string()]);
}

#[test]
fn starting_a_program_drops_what_was_left() {
    let mut lox = load("print 1 + 1; print \"never\";");
    asked(next(&mut lox));
    assert!(lox.interpreter.pending.is_some());
    let lines = lox.run("print \"fresh\";".to_string());
    assert!(lines.is_empty());
    assert!(lox.interpreter.pending.is_none());
    assert_eq!(lox.interpreter.frames.len(), 1);
    match next(&mut lox) {
        Action::Print(text) => assert_eq!(text, "fresh"),
        other => panic!("{:?}", other),
    }
    assert!(matches!(next(&mut lox), Action::Done));
}

#[test]
fn a_source_with_errors_leaves_the_machine_as_it_was() {
    let mut lox = load("print \"a\"; print \"b\";");
    match next(&mut lox) {
        Action::Print(text) => assert_eq!(text, "a"),
        other => panic!("{:?}", other),
    }
    let frames = lox.interpreter.frames.len();
    let lines = lox.run("print ;".to_string());
    assert_eq!(lines, vec!["[line 1] Error at ';': Expect expression.".to_string()]);
    assert!(lox.had_error);
    assert_eq!(lox.interpreter.frames.len(), frames);
    match next(&mut lox) {
        Action::Print(text) => assert_eq!(text, "b"),
        other => panic!("{:?}", other),
    }
    // while an error is flagged nothing is started
    let lines = lox.run("print \"c\";".to_string());
    assert!(lines.is_empty());
    assert!(matches!(next(&mut lox), Action::Done));
    lox.had_error = false;
    lox.run("print \"d\";".to_string());
    match next(&mut lox) {
        Action::Print(text) => assert_eq!(text, "d"),
        other => panic!("{:?}", other),
    }
}

#[test]
fn a_depth_that_leads_nowhere_is_an_undefined_variable() {
    let mut lox = load("var a = \"g\"; print a;");
    let use_of_a = lox
        .interpreter
        .heap
        .ast
        .exprs
        .iter()
        .position(|e| matches!(e, lox::expr::Expr::Variable { .. }))
        .unwrap();
    lox.interpreter.resolve(use_of_a, 3);
    match next(&mut lox) {
        Action::Error(error) => {
            assert_eq!(error.kind, RuntimeErrorKind::UndefinedVariable);
            assert_eq!(lox.interpreter.heap.ast.tokens[error.token].lexeme, "a");
        }
        other => panic!("{:?}", other),
    }
    let mut lox = load("var a = \"g\"; print a;");
    lox.interpreter.resolve(use_of_a, 0);
    match next(&mut lox) {
        Action::Print(text) => assert_eq!(text, "g"),
        other => panic!("{:?}", other),
    }
}

#[test]
fn assigning_in_an_initializer_to_the_variable_declared_is_refused() {
    let mut lox = Lox::new();
    let lines = lox.run("{ var a = (a = \"early\"); print a; }".to_string());
    assert_eq!(
        lines,
        vec!["[line 1] Error at 'a': Can't read local variable in its own initializer.".to_string()]
    );
    assert!(lox.had_error);
    assert!(matches!(lox.interpreter.step(), Action::Done));

    // among the globals nothing is declared before it is defined
    let mut lox = load("var b = \"late\"; var a = (b = \"early\"); print a; print b;");
    match next(&mut lox) {
        Action::Print(text) => assert_eq!(text, "early"),
        other => panic!("{:?}", other),
    }
    match next(&mut lox) {
        Action::Print(text) => assert_eq!(text, "early"),
        other => panic!("{:?}", other),
    }
    assert!(matches!(next(&mut lox), Action::Done));
}

/// Steps the program to its end and checks, for every statement that is
/// executed, that the environment in which it began is current again when
/// the stack is back at what lay below the statement, and that the stack
/// never gets shorter by more than one entry in a step. Gives the last
/// action and how many statements were checked.
fn watch_statements(lox: &mut Lox) -> (Action, usize) {
    let mut open: Vec<(usize, usize)> = Vec::new();
    let mut checked = 0;
    for _ in 0..100_000 {
        let machine = &lox.interpreter;
        if machine.pending.is_none() && machine.leaving.is_none() {
            if let Some(Frame::Exec(_)) = machine.frames.last() {
                open.push((machine.frames.len() - 1, machine.environment));
            }
        }
        let before = lox.interpreter.frames.len();
        let action = lox.interpreter.step();
        let after = lox.interpreter.frames.len();
        assert!(after + 1 >= before, "the stack went from {} to {}", before, after);
        while let Some(&(below, environment)) = open.last() {
            if after > below {
                break;
            }
            assert_eq!(after, below);
            assert_eq!(lox.interpreter.environment, environment);
            open.pop();
            checked += 1;
        }
        match action {
            Action::Continue => {}
            Action::Print(_) => {}
            other => {
                assert!(open.is_empty());
                return (other, checked);
            }
        }
    }
    panic!("the program does not end");
}

#[test]
fn a_runtime_error_leaves_the_stack_entry_by_entry() {
    let mut lox = load("{ print -nil; }");
    // up to the step that meets the error
    for _ in 0..100 {
        if lox.interpreter.leaving.is_some() {
            break;
        }
        assert!(matches!(lox.interpreter.step(), Action::Continue));
    }
    match &lox.interpreter.leaving {
        Some(Exit::Error(error)) => assert_eq!(error.kind, RuntimeErrorKind::OperandMustBeNumber),
        other => panic!("{:?}", other),
    }
    // the block is not left yet: its environment is current
    let block = lox.interpreter.environment;
    assert_ne!(block, lox.interpreter.globals);
    assert_eq!(lox.interpreter.heap.environments[block].enclosing, Some(lox.interpreter.globals));
    assert!(lox.interpreter.frames.len() >= 2);
    assert!(lox.interpreter.value.is_none());
    // each step leaves one entry, and the block goes back to the global
    // environment before the error is handed out
    let mut left = lox.interpreter.frames.len();
    loop {
        match lox.interpreter.step() {
            Action::Continue => {
                left -= 1;
                assert_eq!(lox.interpreter.frames.len(), left);
                if left == 0 {
                    assert_eq!(lox.interpreter.environment, lox.interpreter.globals);
                }
            }
            Action::Error(error) => {
                assert_eq!(error.kind, RuntimeErrorKind::OperandMustBeNumber);
                break;
            }
            other => panic!("{:?}", other),
        }
    }
    assert_eq!(left, 0);
    assert!(lox.interpreter.leaving.is_none());
    assert_eq!(lox.interpreter.environment, lox.interpreter.globals);
    assert!(matches!(lox.interpreter.step(), Action::Done));
}

#[test]
fn a_statement_that_fails_leaves_the_environment_as_it_found_it() {
    let mut lox = load("{ var a = nil; { var b = \"b\"; { print -a; } print b; } } print \"later\";");
    let (action, checked) = watch_statements(&mut lox);
    match action {
        Action::Error(error) => assert_eq!(error.kind, RuntimeErrorKind::OperandMustBeNumber),
        other => panic!("{:?}", other),
    }
    // the three blocks, the two declarations and the `print` that failed
    assert_eq!(checked, 6);
    assert_eq!(lox.interpreter.environment, lox.interpreter.globals);
}

#[test]
fn a_statement_that_fails_inside_a_call_leaves_the_environment_as_it_found_it() {
    let mut lox = load(
        "fn f(x) { { return -x; } } { var a = \"a\"; { f(nil); } print a; } print \"later\";",
    );
    let (action, checked) = watch_statements(&mut lox);
    match action {
        Action::Error(error) => {
            assert_eq!(error.kind, RuntimeErrorKind::OperandMustBeNumber);
            assert_eq!(lox.interpreter.heap.ast.tokens[error.token].lexeme, "-");
        }
        other => panic!("{:?}", other),
    }
    // the declaration of `f`; the outer block, `var a`, the inner block and
    // the call; the block in `f` and its `return`
    assert_eq!(checked, 7);
    assert_eq!(lox.interpreter.environment, lox.interpreter.globals);
}

#[test]
fn a_return_leaves_every_block_through_its_environment() {
    let mut lox = load(
        "fn f() { var x = \"x\"; { var y = \"y\"; { while (true) { return x; } } } }
         { var r = f(); print r; }",
    );
    let mut printed = Vec::new();
    let mut open: Vec<(usize, usize)> = Vec::new();
    let mut checked = 0;
    let mut returning = 0;
    loop {
        let machine = &lox.interpreter;
        if machine.leaving.is_none() {
            if let Some(Frame::Exec(_)) = machine.frames.last() {
                open.push((machine.frames.len() - 1, machine.environment));
            }
        } else {
            assert!(matches!(machine.leaving, Some(Exit::Return(Object::String(_)))));
            returning += 1;
        }
        let before = lox.interpreter.frames.len();
        let action = lox.interpreter.step();
        let after = lox.interpreter.frames.len();
        assert!(after + 1 >= before);
        while let Some(&(below, environment)) = open.last() {
            if after > below {
                break;
            }
            assert_eq!(after, below);
            assert_eq!(lox.interpreter.environment, environment);
            open.pop();
            checked += 1;
        }
        match action {
            Action::Continue => {}
            Action::Print(text) => printed.push(text),
            Action::Done => break,
            other => panic!("{:?}", other),
        }
    }
    assert_eq!(printed, vec!["x"]);
    assert!(open.is_empty());
    // in `f`: two declarations, two blocks, the loop, its block and the
    // `return`; outside: the declaration of `f`, the block, `var r`, `print`
    assert_eq!(checked, 11);
    assert!(returning >= 6, "{}", returning);
    assert_eq!(lox.interpreter.environment, lox.interpreter.globals);
}
