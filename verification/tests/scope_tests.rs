use lox::expr::Expr;
use lox::frame::{Action, Arithmetic, Frame, Request};
use lox::lox::Lox;
use lox::util::Number;

fn reply(lox: &mut Lox, request: Request) {
    match request {
        Request::Arithmetic { operator, left, right } => {
            let a = f64::from_bits(left.to_bits());
            let b = f64::from_bits(right.to_bits());
            let r = match operator {
                Arithmetic::Add => a + b,
                Arithmetic::Subtract => a - b,
                Arithmetic::Multiply => a * b,
                Arithmetic::Divide => a / b,
            };
            assert!(lox.interpreter.reply_number(Number::from_bits(r.to_bits())));
        }
        Request::ParseNumber { token } => {
            let text = lox.interpreter.heap.ast.tokens[token].lexeme.clone();
            let value: f64 = text.parse().unwrap();
            assert!(lox.interpreter.reply_number(Number::from_bits(value.to_bits())));
        }
        Request::FormatNumber(n) => {
            let text = format!("{}", f64::from_bits(n.to_bits()));
            assert!(lox.interpreter.reply_text(text));
        }
        Request::Clock => {
            assert!(lox.interpreter.reply_number(Number::from_bits(0f64.to_bits())));
        }
    }
}

/// The name that the uppermost entry of the stack is about to look up,
/// with the depth that the resolver recorded for it.
fn lookup_under_way(lox: &Lox) -> Option<(String, usize)> {
    let machine = &lox.interpreter;
    if machine.pending.is_some() {
        return None;
    }
    let (expr, name) = match machine.frames.last()? {
        Frame::Eval(expr) => match machine.heap.ast.exprs[*expr] {
            Expr::Variable { name } => (*expr, name),
            Expr::This { keyword } => (*expr, keyword),
            Expr::Super { keyword, .. } => (*expr, keyword),
            _ => return None,
        },
        Frame::Assign { expr, name } => (*expr, *name),
        _ => return None,
    };
    let depth = (*machine.locals.get(expr)?)?;
    Some((machine.heap.ast.tokens[name].lexeme.clone(), depth))
}

/// Runs the sources one after the other in one session, and checks before
/// every step that a name which is about to be looked up at a depth is
/// bound that many environments out. Gives what was printed and how many
/// such lookups there were.
fn watch(sources: &[&str]) -> (Vec<String>, usize) {
    let mut lox = Lox::new();
    let mut out = Vec::new();
    let mut lookups = 0;
    for source in sources {
        let lines = lox.run(source.to_string());
        assert_eq!(lines, Vec::<String>::new(), "{}", source);
        for _ in 0..1_000_000 {
            if let Some((name, depth)) = lookup_under_way(&lox) {
                let heap = &lox.interpreter.heap;
                let mut environment = lox.interpreter.environment;
                for _ in 0..depth {
                    environment = heap.environments[environment]
                        .enclosing
                        .expect("the chain of environments is shorter than the depth");
                }
                // the global environment lies further out still
                assert!(heap.environments[environment].enclosing.is_some(), "{}", name);
                assert!(
                    heap.environments[environment].values.keys.contains(&name),
                    "{} is not bound {} environments out",
                    name,
                    depth
                );
                lookups += 1;
            }
            match lox.interpreter.step() {
                Action::Continue => {}
                Action::Done => break,
                Action::Print(text) => out.push(text),
                Action::Ask(request) => reply(&mut lox, request),
                Action::Error(error) => panic!("{:?}", error),
            }
        }
    }
    (out, lookups)
}

#[test]
fn a_closure_sees_the_variable_that_was_in_scope_where_it_was_declared() {
    let (out, lookups) = watch(&["var a = \"global\";
        {
            fn show() { print a; }
            show();
            var a = \"block\";
            show();
            print a;
        }"]);
    assert_eq!(out, vec!["global", "global", "block"]);
    // `show` twice and the `a` of the block; the `a` inside `show` is global
    assert_eq!(lookups, 3);
}

#[test]
fn every_local_lookup_finds_its_binding_at_the_recorded_depth() {
    let (out, lookups) = watch(&["{
            var a = \"a\";
            {
                var b = \"b\";
                fn f(c) {
                    var d = \"d\";
                    { print a; print b; print c; print d; }
                    a = c;
                    return d;
                }
                print f(\"c\");
                print a;
            }
        }"]);
    assert_eq!(out, vec!["a", "b", "c", "d", "d", "c"]);
    // four reads in the inner block, `c` and the assignment to `a`, `d`,
    // `f`, and the `a` that is printed last
    assert_eq!(lookups, 9);
}

#[test]
fn this_and_super_are_found_at_the_recorded_depth() {
    let (out, lookups) = watch(&["class A {
            init(name) { this.name = name; }
            hello() { print \"A \" + this.name; }
        }
        class B < A {
            hello() { super.hello(); print \"B \" + this.name; }
        }
        {
            var b = B(\"b\");
            b.hello();
            var h = b.hello;
            h();
        }"]);
    assert_eq!(out, vec!["A b", "B b", "A b", "B b"]);
    // `this` and `name` in `init`; `b`; `super`, `this` and `this` in the two
    // methods; `b`; `h`; and the methods once more
    assert_eq!(lookups, 11);
}

#[test]
fn loops_and_recursion_find_their_bindings_at_the_recorded_depth() {
    let (out, lookups) = watch(&["{
            fn fib(n) { if (n < 2) return n; return fib(n - 1) + fib(n - 2); }
            for (var i = 0; i < 5; i = i + 1) { print fib(i); }
        }"]);
    assert_eq!(out, vec!["0", "1", "1", "2", "3"]);
    assert!(lookups > 50, "{}", lookups);
}

#[test]
fn what_an_earlier_program_declared_is_found_by_a_later_one() {
    let (out, lookups) = watch(&[
        "fn counter() { var n = 0; fn next() { n = n + 1; return n; } return next; }",
        "var c = counter();",
        "{ var twice = c() + c(); print twice; }",
        "print c();",
    ]);
    assert_eq!(out, vec!["3", "3"]);
    assert!(lookups >= 7, "{}", lookups);
}
