use lox::ast::Ast;
use lox::expr::Expr;
use lox::parser::Parser;
use lox::resolver::Resolver;
use lox::scanner::Scanner;
use lox::scopes::{ClassType, FunctionType, StaticError};

struct Resolved {
    ast: Ast,
    depths: Vec<(String, usize)>,
    errors: Vec<(StaticError, String)>,
}

fn resolve(source: &str) -> Resolved {
    let mut scanner = Scanner::new(source.to_string());
    scanner.scan_tokens();
    let mut parser = Parser::new(scanner.tokens);
    let statements = parser.parse();
    assert!(!parser.had_error(), "{:?}", parser.errors);
    let ast = parser.ast;
    let mut resolver = Resolver::new();
    resolver.resolve_stmt_list(&ast, &statements);
    assert_eq!(resolver.scopes.len(), 0);
    assert_eq!(resolver.current_function, FunctionType::Outside);
    assert_eq!(resolver.current_class, ClassType::Outside);
    assert_eq!(resolver.had_error(), !resolver.errors.is_empty());
    let depths = resolver
        .resolutions
        .iter()
        .map(|r| {
            let name = match ast.exprs[r.expr] {
                Expr::Variable { name } => name,
                Expr::Assign { name, .. } => name,
                Expr::This { keyword } => keyword,
                Expr::Super { keyword, .. } => keyword,
                other => panic!("{:?}", other),
            };
            (ast.tokens[name].lexeme.clone(), r.depth)
        })
        .collect();
    let errors =
        resolver.errors.iter().map(|e| (e.kind, ast.tokens[e.token].lexeme.clone())).collect();
    Resolved { ast, depths, errors }
}

fn depths(source: &str) -> Vec<(String, usize)> {
    let resolved = resolve(source);
    assert!(resolved.errors.is_empty(), "{:?}", resolved.errors);
    resolved.depths
}

fn pairs(expected: &[(&str, usize)]) -> Vec<(String, usize)> {
    expected.iter().map(|(n, d)| (n.to_string(), *d)).collect()
}

fn errors(source: &str) -> Vec<(StaticError, String)> {
    resolve(source).errors
}

#[test]
fn globals_are_not_recorded() {
    assert_eq!(depths("var a = 1; print a; a = 2; fn f() {} f();"), pairs(&[]));
    assert_eq!(depths("print b;"), pairs(&[]));
    assert_eq!(depths("{ print a; } fn f() { return g; }"), pairs(&[]));
}

#[test]
fn locals_are_recorded_with_their_depth() {
    assert_eq!(depths("{ var a; print a; }"), pairs(&[("a", 0)]));
    assert_eq!(depths("{ var a; { print a; } }"), pairs(&[("a", 1)]));
    assert_eq!(depths("{ var a; { { a = 1; } } }"), pairs(&[("a", 2)]));
    assert_eq!(
        depths("{ var a; { var b; print a; print b; { var a; print a; print b; } } }"),
        pairs(&[("a", 1), ("b", 0), ("a", 0), ("b", 1)])
    );
}

#[test]
fn the_innermost_declaration_counts() {
    assert_eq!(depths("{ var a; { var a; { print a; } } }"), pairs(&[("a", 1)]));
}

#[test]
fn an_assignment_resolves_its_value_first() {
    assert_eq!(depths("{ var a; var b; a = b; }"), pairs(&[("b", 0), ("a", 0)]));
}

#[test]
fn functions_open_a_scope_for_their_parameters() {
    assert_eq!(depths("fn f(a) { print a; }"), pairs(&[("a", 0)]));
    assert_eq!(depths("fn f(a) { { print a; } }"), pairs(&[("a", 1)]));
    assert_eq!(depths("{ fn f(a) { f(a); } }"), pairs(&[("f", 1), ("a", 0)]));
    assert_eq!(
        depths("fn outer() { var x; fn inner() { return x; } }"),
        pairs(&[("x", 1)])
    );
}

#[test]
fn a_closure_sees_the_declaration_of_its_place() {
    assert_eq!(
        depths("var a; { fn show() { print a; } var a; print a; }"),
        pairs(&[("a", 0)])
    );
}

#[test]
fn this_and_super_are_bound_around_the_methods() {
    assert_eq!(depths("class A { m() { return this; } }"), pairs(&[("this", 1)]));
    assert_eq!(depths("class A { m() { { this; } } }"), pairs(&[("this", 2)]));
    assert_eq!(
        depths("class A {} class B < A { m() { super.m(); this; } }"),
        pairs(&[("super", 2), ("this", 1)])
    );
    assert_eq!(
        depths("{ class A {} class B < A { m() { super.m; } } }"),
        pairs(&[("A", 0), ("super", 2)])
    );
    assert_eq!(
        depths("class A { m() { fn f() { return this; } } }"),
        pairs(&[("this", 2)])
    );
}

#[test]
fn declaring_twice_in_a_scope_is_an_error() {
    assert_eq!(errors("{ var a; var a; }"), vec![(StaticError::AlreadyDeclared, "a".to_string())]);
    assert_eq!(errors("fn f(a) { var a; }"), vec![(StaticError::AlreadyDeclared, "a".to_string())]);
    assert_eq!(errors("{ var a; fn a() {} }"), vec![(StaticError::AlreadyDeclared, "a".to_string())]);
    assert_eq!(errors("{ var a; class a {} }"), vec![(StaticError::AlreadyDeclared, "a".to_string())]);
    assert_eq!(errors("var a; var a;"), vec![]);
    assert_eq!(errors("{ var a; { var a; } }"), vec![]);
}

#[test]
fn reading_a_variable_in_its_own_initializer_is_an_error() {
    assert_eq!(
        errors("{ var a = a; }"),
        vec![(StaticError::ReadInOwnInitializer, "a".to_string())]
    );
    assert_eq!(
        errors("{ var a = 1; { var a = a + 1; } }"),
        vec![(StaticError::ReadInOwnInitializer, "a".to_string())]
    );
    assert_eq!(errors("var a = a;"), vec![]);
    assert_eq!(errors("{ var a; { var b = a; } }"), vec![]);
}

#[test]
fn assigning_to_a_variable_in_its_own_initializer_is_an_error() {
    assert_eq!(
        errors("{ var a = (a = 1); }"),
        vec![(StaticError::ReadInOwnInitializer, "a".to_string())]
    );
    assert_eq!(
        errors("{ var a = 1; { var a = a = 2; } }"),
        vec![(StaticError::ReadInOwnInitializer, "a".to_string())]
    );
    // The value is resolved before the target: both are reported, in that order.
    assert_eq!(
        errors("{ var a = a = a; }"),
        vec![
            (StaticError::ReadInOwnInitializer, "a".to_string()),
            (StaticError::ReadInOwnInitializer, "a".to_string())
        ]
    );
    assert_eq!(errors("var a = (a = 1);"), vec![]);
    assert_eq!(errors("{ var a; a = 1; }"), vec![]);
    assert_eq!(errors("{ var a; { var b = (a = 1); } }"), vec![]);
}

#[test]
fn return_outside_a_function_is_an_error() {
    assert_eq!(errors("return;"), vec![(StaticError::ReturnAtTopLevel, "return".to_string())]);
    assert_eq!(errors("{ return 1; }"), vec![(StaticError::ReturnAtTopLevel, "return".to_string())]);
    assert_eq!(errors("fn f() { return 1; }"), vec![]);
    assert_eq!(
        errors("fn f() {} return;"),
        vec![(StaticError::ReturnAtTopLevel, "return".to_string())]
    );
}

#[test]
fn an_initializer_returns_no_value() {
    assert_eq!(
        errors("class A { init() { return 1; } }"),
        vec![(StaticError::ReturnValueFromInitializer, "return".to_string())]
    );
    assert_eq!(errors("class A { init() { return; } }"), vec![]);
    assert_eq!(errors("class A { m() { return 1; } }"), vec![]);
    assert_eq!(errors("class A { init() { fn f() { return 1; } } }"), vec![]);
    assert_eq!(errors("class init { m() { return 1; } }"), vec![]);
}

#[test]
fn this_and_super_need_a_class() {
    assert_eq!(errors("this;"), vec![(StaticError::ThisOutsideClass, "this".to_string())]);
    assert_eq!(errors("fn f() { this; }"), vec![(StaticError::ThisOutsideClass, "this".to_string())]);
    assert_eq!(errors("super.m;"), vec![(StaticError::SuperOutsideClass, "super".to_string())]);
    assert_eq!(
        errors("class A { m() { super.m; } }"),
        vec![(StaticError::SuperWithoutSuperclass, "super".to_string())]
    );
    assert_eq!(
        errors("class A {} class B < A {} fn f() { super.m; }"),
        vec![(StaticError::SuperOutsideClass, "super".to_string())]
    );
    assert_eq!(
        errors("class A {} class B < A { m() { class C { n() { super.n; } } } }"),
        vec![(StaticError::SuperWithoutSuperclass, "super".to_string())]
    );
}

#[test]
fn a_class_cannot_inherit_from_itself() {
    assert_eq!(errors("class A < A {}"), vec![(StaticError::InheritFromSelf, "A".to_string())]);
    assert_eq!(errors("class A < B {}"), vec![]);
}

#[test]
fn errors_come_in_the_order_of_the_source() {
    let resolved = resolve("return; { var a; var a; } this;");
    let kinds: Vec<StaticError> = resolved.errors.iter().map(|e| e.0).collect();
    assert_eq!(
        kinds,
        vec![StaticError::ReturnAtTopLevel, StaticError::AlreadyDeclared, StaticError::ThisOutsideClass]
    );
    assert!(resolved.ast.tokens.len() > 0);
}
