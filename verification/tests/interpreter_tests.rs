use lox::error::describe;
use lox::frame::{Action, Arithmetic, Request};
use lox::lox::Lox;
use lox::util::Number;

struct Outcome {
    out: Vec<String>,
    errors: Vec<String>,
    code: i32,
}

fn answer(lox: &mut Lox, request: Request) {
    match request {
        Request::Arithmetic { operator, left, right } => {
            let a = f64::from_bits(left.to_bits());
            let b = f64::from_bits(right.to_bits());
            let r = match operator {
                Arithmetic::Add => a + b,
                Arithmetic::Subtract => a - b,
                Arithmetic::Multiply => a * b,
                Arithmetic::Divide => a / b,
            };
            assert!(lox.interpreter.reply_number(Number::from_bits(r.to_bits())));
        }
        Request::ParseNumber { token } => {
            let text = lox.interpreter.heap.ast.tokens[token].lexeme.clone();
            let value: f64 = text.parse().unwrap();
            assert!(lox.interpreter.reply_number(Number::from_bits(value.to_bits())));
        }
        Request::FormatNumber(n) => {
            let text = format!("{}", f64::from_bits(n.to_bits()));
            assert!(lox.interpreter.reply_text(text));
        }
        Request::Clock => {
            assert!(lox.interpreter.reply_number(Number::from_bits(1234.5f64.to_bits())));
        }
    }
}

fn feed(lox: &mut Lox, source: &str) -> Outcome {
    let mut outcome = Outcome { out: vec![], errors: vec![], code: 0 };
    lox.had_error = false;
    lox.had_runtime_error = false;
    outcome.errors = lox.run(source.to_string());
    if lox.had_error {
        outcome.code = 65;
        return outcome;
    }
    let mut steps = 0u64;
    loop {
        steps += 1;
        assert!(steps < 10_000_000, "the program does not end");
        match lox.interpreter.step() {
            Action::Continue => {}
            Action::Done => break,
            Action::Print(text) => outcome.out.push(text),
            Action::Ask(request) => answer(lox, request),
            Action::Error(error) => {
                let described = describe(&lox.interpreter.heap.ast, error);
                let line = lox.runtime_error(described);
                outcome.errors.push(line);
                outcome.code = 70;
                break;
            }
        }
    }
    outcome
}

fn run(source: &str) -> Outcome {
    let mut lox = Lox::new();
    feed(&mut lox, source)
}

fn prints(source: &str, expected: &[&str]) {
    let outcome = run(source);
    assert_eq!(outcome.errors, Vec::<String>::new(), "errors of {}", source);
    let expected: Vec<String> = expected.iter().map(|s| s.to_string()).collect();
    assert_eq!(outcome.out, expected, "output of {}", source);
    assert_eq!(outcome.code, 0);
}

fn fails(source: &str, code: i32, expected: &[&str]) -> Outcome {
    let outcome = run(source);
    let expected: Vec<String> = expected.iter().map(|s| s.to_string()).collect();
    assert_eq!(outcome.errors, expected, "errors of {}", source);
    assert_eq!(outcome.code, code);
    outcome
}

#[test]
fn arithmetic_precedence() {
    prints("print 1 + 2 * 3;", &["7"]);
    prints("print (1 + 2) * 3;", &["9"]);
    prints("print 10 - 4 - 3;", &["3"]);
    prints("print 8 / 2 / 2;", &["2"]);
    prints("print -2 * 3;", &["-6"]);
    prints("print 1.5 + 1.25;", &["2.75"]);
    prints("print 7 / 2;", &["3.5"]);
}

#[test]
fn block_shadows_and_restores() {
    prints("var a = 1; { var a = 2; print a; } print a;", &["2", "1"]);
}

#[test]
fn closure_counter() {
    prints(
        "fn makeCounter(){ var i = 0; fn count(){ i = i + 1; print i; } return count; } var c = makeCounter(); c(); c();",
        &["1", "2"],
    );
}

#[test]
fn class_method_call() {
    prints("class Bacon { eat() { print \"Crunch!\"; } } Bacon().eat();", &["Crunch!"]);
}

#[test]
fn super_method_call() {
    prints(
        "class A { method(){ print \"A\"; } } class B < A { method(){ super.method(); print \"B\"; } } B().method();",
        &["A", "B"],
    );
}

#[test]
fn string_plus_number_is_a_runtime_error() {
    let outcome = fails(
        "print \"hi\" + 1;",
        70,
        &["Operands must be two numbers or two strings.\n[line 1]"],
    );
    assert_eq!(outcome.out, Vec::<String>::new());
}

#[test]
fn function_prints_with_its_name() {
    prints("fn f(){} print f;", &["<fn f>"]);
    prints("print clock;", &["<native fn>"]);
}

#[test]
fn var_then_print_is_print() {
    for e in ["1 + 2", "\"a\" + \"b\"", "nil", "true", "!nil", "3 < 4", "-(2 * 8) / 4", "\"\""] {
        let direct = run(&format!("print {};", e));
        let through = run(&format!("var x = {}; print x;", e));
        assert_eq!(direct.out, through.out);
        assert_eq!(direct.out.len(), 1);
    }
}

#[test]
fn too_many_arguments_is_one_error() {
    let mut source = String::from("fn f(){} f(");
    for i in 0..256 {
        if i > 0 {
            source.push_str(", ");
        }
        source.push_str("0");
    }
    source.push_str(");");
    let outcome = run(&source);
    assert_eq!(outcome.code, 65);
    assert_eq!(
        outcome.errors,
        vec!["[line 1] Error at '0': Can't have more than 255 arguments.".to_string()]
    );
}

#[test]
fn at_the_cap_there_is_no_error() {
    let mut params = String::new();
    let mut args = String::new();
    for i in 0..255 {
        if i > 0 {
            params.push_str(", ");
            args.push_str(", ");
        }
        params.push_str(&format!("v{}", i));
        args.push_str("1");
    }
    let source = format!("fn f({}) {{ print v254; }} f({});", params, args);
    prints(&source, &["1"]);
}

#[test]
fn too_many_parameters_is_one_error() {
    let mut params = String::new();
    for i in 0..256 {
        if i > 0 {
            params.push_str(", ");
        }
        params.push_str(&format!("v{}", i));
    }
    let source = format!("fn f({}) {{}}", params);
    let outcome = run(&source);
    assert_eq!(outcome.code, 65);
    assert_eq!(
        outcome.errors,
        vec!["[line 1] Error at 'v255': Can't have more than 255 parameters.".to_string()]
    );
}

#[test]
fn initializer_returns_the_instance() {
    prints(
        "class P { init(x) { this.x = x; return; } } var p = P(3); print p.x; print p;",
        &["3", "P instance"],
    );
    prints(
        "class P { init() { this.x = 1; } } var p = P(); print p.init().x;",
        &["1"],
    );
    prints("class P { init() { return; } } print P().init();", &["P instance"]);
}

#[test]
fn logical_operators_short_circuit() {
    prints("print 1 or 2;", &["1"]);
    prints("print nil or 2;", &["2"]);
    prints("print false or false;", &["false"]);
    prints("print nil and 2;", &["nil"]);
    prints("print 1 and 2;", &["2"]);
    prints("print false and 1;", &["false"]);
    prints(
        "var a = 0; fn touch() { a = a + 1; return true; } print true or touch(); print a; print false and touch(); print a; print false or touch(); print a;",
        &["true", "0", "false", "0", "true", "1"],
    );
}

#[test]
fn truthiness() {
    prints("if (0) print \"yes\"; else print \"no\";", &["yes"]);
    prints("if (\"\") print \"yes\"; else print \"no\";", &["yes"]);
    prints("if (nil) print \"yes\"; else print \"no\";", &["no"]);
    prints("if (false) print \"yes\"; else print \"no\";", &["no"]);
    prints("print !0; print !nil; print !\"\"; print !false; print !true;", &[
        "false", "true", "false", "true", "false",
    ]);
}

#[test]
fn equality() {
    prints("print nil == nil;", &["true"]);
    prints("print nil == false;", &["false"]);
    prints("print 1 == 1; print 1 == 2; print 1 != 2;", &["true", "false", "true"]);
    prints("print \"a\" == \"a\"; print \"a\" == \"b\";", &["true", "false"]);
    prints("print \"1\" == 1;", &["false"]);
    prints("print 0/0 == 0/0;", &["false"]);
    prints("var n = 0/0; print n == n; print n != n;", &["false", "true"]);
    prints("print 0 == -0;", &["true"]);
    prints("fn f(){} var g = f; print f == g; fn h(){} print f == h;", &["true", "false"]);
    prints("class A {} var a = A(); var b = A(); print a == a; print a == b; print A == A;", &[
        "true", "false", "true",
    ]);
}

#[test]
fn comparisons() {
    prints("print 1 < 2; print 2 < 1; print 1 <= 1; print 1 > 2; print 2 >= 2; print 2 > 1;", &[
        "true", "false", "true", "false", "true", "true",
    ]);
    prints("print -1 < 1; print -2 < -1; print -1 < -2; print -0 < 0; print 0 <= -0;", &[
        "true", "true", "false", "false", "true",
    ]);
    prints("var n = 0/0; print n < 1; print n >= 1; print 1 <= n;", &["false", "false", "false"]);
    prints("print 1/0 > 1000000; print -1/0 < -1000000;", &["true", "true"]);
    fails("print 1 < \"a\";", 70, &["Operands must be numbers.\n[line 1]"]);
}

#[test]
fn while_and_for_loops() {
    prints("var i = 0; while (i < 3) { print i; i = i + 1; }", &["0", "1", "2"]);
    prints("for (var i = 0; i < 3; i = i + 1) print i;", &["0", "1", "2"]);
    prints("var i = 0; for (; i < 2;) { print i; i = i + 1; }", &["0", "1"]);
    prints(
        "fn f() { for (;;) { return \"done\"; } } print f();",
        &["done"],
    );
    prints(
        "var a = 0; var b = 1; for (var i = 0; i < 10; i = i + 1) { var t = a + b; a = b; b = t; } print a;",
        &["55"],
    );
}

#[test]
fn functions_and_recursion() {
    prints("fn fib(n) { if (n < 2) return n; return fib(n - 1) + fib(n - 2); } print fib(15);", &[
        "610",
    ]);
    prints("fn f() {} print f();", &["nil"]);
    prints("fn f(a, b) { return a + b; } print f(1, 2); print f(\"x\", \"y\");", &["3", "xy"]);
    prints("fn outer() { var x = \"o\"; fn inner() { return x; } return inner; } print outer()();", &[
        "o",
    ]);
}

#[test]
fn static_scope_is_kept() {
    prints(
        "var a = \"global\"; { fn show() { print a; } show(); var a = \"block\"; show(); }",
        &["global", "global"],
    );
}

#[test]
fn return_unwinds_blocks_and_loops() {
    prints(
        "var a = \"outer\"; fn f() { var a = \"f\"; { var a = \"inner\"; while (true) { { return a; } } } } print f(); print a;",
        &["inner", "outer"],
    );
}

#[test]
fn runtime_errors() {
    fails("print x;", 70, &["Undefined variable 'x'.\n[line 1]"]);
    fails("x = 1;", 70, &["Undefined variable 'x'.\n[line 1]"]);
    fails("\n\nprint -\"a\";", 70, &["Operand must be a number.\n[line 3]"]);
    fails("print 1 - \"a\";", 70, &["Operands must be numbers.\n[line 1]"]);
    fails("print \"a\" * 2;", 70, &["Operands must be numbers.\n[line 1]"]);
    fails("print nil + nil;", 70, &["Operands must be two numbers or two strings.\n[line 1]"]);
    fails("\"no\"();", 70, &["Callee must be a callable or a class\n[line 1]"]);
    fails("fn f(a) {} f();", 70, &["Expected 1 arguments but got 0.\n[line 1]"]);
    fails("fn f() {} f(1, 2);", 70, &["Expected 0 arguments but got 2.\n[line 1]"]);
    fails("clock(1);", 70, &["Expected 0 arguments but got 1.\n[line 1]"]);
    fails("class A { init(a, b) {} } A(1);", 70, &["Expected 2 arguments but got 1.\n[line 1]"]);
    fails("var a = 1; print a.b;", 70, &["Only instances have properties.\n[line 1]"]);
    fails("var a = 1; a.b = 2;", 70, &["Only instances have fields.\n[line 1]"]);
    fails("class A {} print A().b;", 70, &["Undefined property 'b'.\n[line 1]"]);
    fails("var A = 1; class B < A {}", 70, &["Superclass must be a class.\n[line 1]"]);
    fails(
        "class A {} class B < A { m() { super.n(); } } B().m();",
        70,
        &["Undefined property 'n'.\n[line 1]"],
    );
}

#[test]
fn a_runtime_error_ends_the_program() {
    let outcome = run("print 1; print x; print 2;");
    assert_eq!(outcome.out, vec!["1".to_string()]);
    assert_eq!(outcome.code, 70);
}

#[test]
fn classes() {
    prints("class A {} print A; print A();", &["A", "A instance"]);
    prints("class A {} var a = A(); a.x = 1; a.x = a.x + 1; print a.x;", &["2"]);
    prints(
        "class A { get() { return this.v; } } var a = A(); a.v = \"v\"; var m = a.get; print m();",
        &["v"],
    );
    prints(
        "class A { m() { return \"A\"; } } class B < A {} class C < B {} print C().m();",
        &["A"],
    );
    prints(
        "class A { m() { return \"A\"; } } class B < A { m() { return \"B\"; } } print B().m();",
        &["B"],
    );
    prints(
        "class A { init(n) { this.n = n; } } class B < A { init(n) { super.init(n + 1); } } print B(1).n;",
        &["2"],
    );
    prints("class A { m() {} } print A().m;", &["<fn m>"]);
    prints("class A {} var a = A(); a.f = clock; print a.f;", &["<native fn>"]);
    prints("class A { m() { return this; } } var a = A(); print a.m() == a;", &["true"]);
    prints("class A {} print A().x = 3;", &["3"]);
    prints(
        "class A { m() { return 1; } m() { return 2; } } print A().m();",
        &["2"],
    );
}

#[test]
fn a_field_shadows_a_method() {
    prints("class A { m() { return 1; } } var a = A(); a.m = 2; print a.m;", &["2"]);
}

#[test]
fn assignment_is_an_expression() {
    prints("var a; var b; a = b = 3; print a; print b;", &["3", "3"]);
    prints("var a = 1; print a = 2;", &["2"]);
}

#[test]
fn strings() {
    prints("print \"a\" + \"b\" + \"c\";", &["abc"]);
    prints("print \"\";", &[""]);
    prints("print \"two\nlines\";", &["two\nlines"]);
}

#[test]
fn numbers_print_without_a_trailing_zero() {
    prints("print 3; print 3.0; print 2.50; print 100; print 0.1 + 0.2;", &[
        "3", "3", "2.5", "100", "0.30000000000000004",
    ]);
    prints("print 1/0; print -1/0; print 0/0;", &["inf", "-inf", "NaN"]);
}

#[test]
fn the_clock_is_the_hosts() {
    prints("print clock();", &["1234.5"]);
    prints("print clock() - clock();", &["0"]);
}

#[test]
fn comments_and_blanks_are_skipped() {
    prints("// nothing\nprint 1; // one\n/* two\n lines */ print 2;", &["1", "2"]);
    prints("/* at the start */ print 3;", &["3"]);
    prints("print 4 /* inside */ + 1;", &["5"]);
    prints("print 6 / 2; // a slash is a slash", &["3"]);
}

#[test]
fn syntax_errors() {
    fails("print 1", 65, &["[line 1] Error at end: Expect ';' after expression."]);
    fails("print ;", 65, &["[line 1] Error at ';': Expect expression."]);
    fails("var 1 = 2;", 65, &["[line 1] Error at '1': Expect variable name."]);
    fails("1 = 2;", 65, &["[line 1] Error at '=': Invalid assignment target."]);
    fails("(1 + 2;", 65, &["[line 1] Error at ';': Expect ')' after expression."]);
    fails("{ print 1;", 65, &["[line 1] Error at end: Expect '}' after block."]);
    fails("fn () {}", 65, &["[line 1] Error at '(': Expect function name."]);
    fails("class A { 1 }", 65, &["[line 1] Error at '1': Expect method name."]);
    fails("class {}", 65, &["[line 1] Error at '{': Expect class name."]);
    fails("class A < {}", 65, &["[line 1] Error at '{': Expect superclass name."]);
    fails("print a.;", 65, &["[line 1] Error at ';': Expect property name after '.'."]);
    fails("print super;", 65, &["[line 1] Error at ';': Expect '.' after 'super'."]);
    fails("for (;;", 65, &["[line 1] Error at end: Expect expression."]);
    fails("if 1 print 2;", 65, &["[line 1] Error at '1': Expect '(' after 'if' ."]);
    fails("while (1 print 2;", 65, &["[line 1] Error at 'print': Expect ')' after condition."]);
    fails("return 1", 65, &["[line 1] Error at end: Expect ';' after return value."]);
}

#[test]
fn the_parser_recovers_at_statement_boundaries() {
    fails(
        "print 1 +; print 2 *;\nvar = 3;\nprint 4;",
        65,
        &[
            "[line 1] Error at ';': Expect expression.",
            "[line 1] Error at ';': Expect expression.",
            "[line 2] Error at '=': Expect variable name.",
        ],
    );
    let outcome = run("print 1; print +; print 2;");
    assert_eq!(outcome.out, Vec::<String>::new());
    assert_eq!(outcome.code, 65);
}

#[test]
fn static_errors() {
    fails(
        "{ var a = 1; var a = 2; }",
        65,
        &["[line 1] Error at 'a': Already a variable with this name in this scope."],
    );
    fails(
        "var a = 1; { var a = a; }",
        65,
        &["[line 1] Error at 'a': Can't read local variable in its own initializer."],
    );
    fails(
        "{ var a = (a = 1); }",
        65,
        &["[line 1] Error at 'a': Can't read local variable in its own initializer."],
    );
    fails("return 1;", 65, &["[line 1] Error at 'return': Can't return from top-level code."]);
    fails(
        "class A { init() { return 1; } }",
        65,
        &["[line 1] Error at 'return': Can't return a value from an initializer."],
    );
    fails("print this;", 65, &["[line 1] Error at 'this': Can't use 'this' outside of a class."]);
    fails(
        "fn f() { this.x = 1; }",
        65,
        &["[line 1] Error at 'this': Can't use 'this' outside of a class."],
    );
    fails(
        "super.m();",
        65,
        &["[line 1] Error at 'super': Can't use 'super' outside of a class."],
    );
    fails(
        "class A { m() { super.m(); } }",
        65,
        &["[line 1] Error at 'super': Can't use 'super' in a class with no superclass."],
    );
    fails("class A < A {}", 65, &["[line 1] Error at 'A': A class cannot inherit from itself."]);
    fails(
        "fn f(a, a) {}",
        65,
        &["[line 1] Error at 'a': Already a variable with this name in this scope."],
    );
}

#[test]
fn globals_may_be_redeclared() {
    prints("var a = 1; var a = 2; print a;", &["2"]);
}

#[test]
fn scanning_errors() {
    fails("print 1; @", 65, &["[line 1] Error : Unexpected character."]);
    fails("print \"open;\n", 65, &[
        "[line 2] Error : Unterminated",
        "[line 2] Error at end: Expect expression.",
    ]);
    fails("print 1; /* open\n\n", 65, &["[line 3] Error : Block comment never closed."]);
}

#[test]
fn a_session_keeps_its_globals() {
    let mut lox = Lox::new();
    let first = feed(&mut lox, "var a = 1; fn inc() { a = a + 1; return a; }");
    assert_eq!(first.code, 0);
    let second = feed(&mut lox, "print inc(); print inc();");
    assert_eq!(second.out, vec!["2".to_string(), "3".to_string()]);
    let third = feed(&mut lox, "print b;");
    assert_eq!(third.code, 70);
    assert_eq!(third.errors, vec!["Undefined variable 'b'.\n[line 1]".to_string()]);
    let fourth = feed(&mut lox, "print a +;");
    assert_eq!(fourth.code, 65);
    let fifth = feed(&mut lox, "class C { m() { return a; } } print C().m();");
    assert_eq!(fifth.out, vec!["3".to_string()]);
}

#[test]
fn the_environment_is_the_global_one_after_a_program() {
    let mut lox = Lox::new();
    feed(&mut lox, "{ var a = 1; { var b = 2; print a + b; } }");
    assert_eq!(lox.interpreter.environment, lox.interpreter.globals);
    feed(&mut lox, "fn f() { { var x = 1; print y; } } f();");
    assert_eq!(lox.interpreter.environment, lox.interpreter.globals);
    assert_eq!(lox.interpreter.frames.len(), 0);
}

#[test]
fn deep_recursion_needs_no_deep_host_stack() {
    prints(
        "fn down(n) { if (n == 0) return \"bottom\"; return down(n - 1); } print down(20000);",
        &["bottom"],
    );
}

#[test]
fn closures_in_a_loop_see_the_loop_variable() {
    prints(
        "for (var i = 0; i < 3; i = i + 1) { fn show() { print i; } show(); }",
        &["0", "1", "2"],
    );
}

#[test]
fn each_call_has_its_own_environment() {
    prints(
        "fn make(n) { fn get() { return n; } return get; } var a = make(1); var b = make(2); print a(); print b(); print a();",
        &["1", "2", "1"],
    );
}

#[test]
fn parameters_shadow_outer_names() {
    prints("var a = \"outer\"; fn f(a) { print a; a = \"changed\"; print a; } f(\"inner\"); print a;", &[
        "inner", "changed", "outer",
    ]);
}

#[test]
fn methods_can_call_each_other_and_keep_state() {
    prints(
        "class Counter { init() { this.n = 0; } inc() { this.n = this.n + 1; return this; } get() { return this.n; } } print Counter().inc().inc().inc().get();",
        &["3"],
    );
}

#[test]
fn inherited_initializers_and_super_chains() {
    prints(
        "class A { init() { this.who = \"A\"; } say() { return this.who; } } class B < A { say() { return \"B:\" + super.say(); } } class C < B { say() { return \"C:\" + super.say(); } } print C().say();",
        &["C:B:A"],
    );
    prints("class A { init(x) { this.x = x; } } class B < A {} print B(7).x;", &["7"]);
    fails("class A { init(x) {} } class B < A {} B();", 70, &["Expected 1 arguments but got 0.\n[line 1]"]);
}

#[test]
fn a_class_without_initializer_takes_any_arguments() {
    prints("class A {} print A(1, 2, 3);", &["A instance"]);
}

#[test]
fn a_method_taken_from_an_instance_remembers_it() {
    prints(
        "class A { init(n) { this.n = n; } get() { return this.n; } } var g = A(1).get; var h = A(2).get; print g() + h();",
        &["3"],
    );
}

#[test]
fn a_class_can_refer_to_itself_in_its_methods() {
    prints(
        "{ class Node { init(next) { this.next = next; } grow() { return Node(this); } } var n = Node(nil).grow().grow(); print n.next.next.next; }",
        &["nil"],
    );
}

#[test]
fn long_loops_run_to_their_end() {
    prints("var n = 0; while (n < 20000) { n = n + 1; } print n;", &["20000"]);
}

#[test]
fn values_are_printed_as_the_language_writes_them() {
    prints("print nil; print true; print false; print \"s\"; print 1.5; print -0.25;", &[
        "nil", "true", "false", "s", "1.5", "-0.25",
    ]);
    prints("class A { m() {} } fn f() {} print f; print A; print A(); print A().m; print clock;", &[
        "<fn f>",
        "A",
        "A instance",
        "<fn m>",
        "<native fn>",
    ]);
}

#[test]
fn several_lines_are_counted_in_errors() {
    fails("var a = 1;\nvar b = 2;\nprint a +\n  c;", 70, &["Undefined variable 'c'.\n[line 4]"]);
    fails("print 1;\n\nprint (2;\n", 65, &["[line 3] Error at ';': Expect ')' after expression."]);
    fails("{\n  var a;\n  var a;\n}", 65, &[
        "[line 3] Error at 'a': Already a variable with this name in this scope.",
    ]);
}
