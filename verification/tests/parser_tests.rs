use lox::ast::{parenthesize, print, Ast};
use lox::expr::{Constant, Expr, Span};
use lox::grammar::{FunctionKind, ParseDiagnostic, SyntaxError};
use lox::parser::Parser;
use lox::scanner::Scanner;
use lox::stmt::Stmt;
use lox::token::{Literal, Token, TokenType};

fn parse(source: &str) -> (Ast, Vec<usize>, Vec<ParseDiagnostic>) {
    let mut scanner = Scanner::new(source.to_string());
    scanner.scan_tokens();
    let mut parser = Parser::new(scanner.tokens);
    let statements = parser.parse();
    (parser.ast, statements, parser.errors)
}

fn list(ast: &Ast, span: Span) -> Vec<usize> {
    ast.lists[span.start..span.start + span.len].to_vec()
}

fn expression(ast: &Ast, statement: usize) -> usize {
    match ast.stmts[statement] {
        Stmt::Expression { expression } => expression,
        Stmt::Print { expression } => expression,
        other => panic!("no expression statement: {:?}", other),
    }
}

fn prefix(source: &str) -> String {
    let (ast, statements, errors) = parse(source);
    assert!(errors.is_empty(), "{:?}", errors);
    assert_eq!(statements.len(), 1);
    print(&ast, expression(&ast, statements[0]))
}

fn lexeme(ast: &Ast, token: usize) -> &str {
    &ast.tokens[token].lexeme
}

fn errors_of(source: &str) -> Vec<(SyntaxError, String)> {
    let (ast, _, errors) = parse(source);
    errors.iter().map(|e| (e.kind, ast.tokens[e.token].lexeme.clone())).collect()
}

#[test]
fn precedence_and_associativity() {
    assert_eq!(prefix("1 + 2 * 3;"), "(+ 1 (* 2 3))");
    assert_eq!(prefix("1 * 2 + 3;"), "(+ (* 1 2) 3)");
    assert_eq!(prefix("1 - 2 - 3;"), "(- (- 1 2) 3)");
    assert_eq!(prefix("8 / 4 / 2;"), "(/ (/ 8 4) 2)");
    assert_eq!(prefix("1 < 2 == 3 >= 4;"), "(== (< 1 2) (>= 3 4))");
    assert_eq!(prefix("1 + 2 < 3 * 4;"), "(< (+ 1 2) (* 3 4))");
    assert_eq!(prefix("-1 * -2;"), "(* (- 1) (- 2))");
    assert_eq!(prefix("!!true;"), "(! (! true))");
    assert_eq!(prefix("--1;"), "(- (- 1))");
    assert_eq!(prefix("(1 + 2) * 3;"), "(* (group (+ 1 2)) 3)");
    assert_eq!(prefix("1 != 2;"), "(!= 1 2)");
    assert_eq!(prefix("1 <= 2;"), "(<= 1 2)");
    assert_eq!(prefix("1 > 2;"), "(> 1 2)");
}

#[test]
fn literals_in_prefix_notation() {
    assert_eq!(prefix("nil;"), "nil");
    assert_eq!(prefix("true;"), "true");
    assert_eq!(prefix("false;"), "false");
    assert_eq!(prefix("\"text\";"), "text");
    assert_eq!(prefix("12.50;"), "12.50");
    assert_eq!(prefix("a;"), "");
    assert_eq!(parenthesize("+", &vec!["1".to_string(), "2".to_string()]), "(+ 1 2)");
    assert_eq!(parenthesize("group", &vec![]), "(group)");
}

#[test]
fn logical_operators_are_their_own_nodes() {
    let (ast, statements, _) = parse("a or b and c;");
    match ast.exprs[expression(&ast, statements[0])] {
        Expr::Logical { left, operator, right } => {
            assert_eq!(lexeme(&ast, operator), "or");
            assert!(matches!(ast.exprs[left], Expr::Variable { .. }));
            match ast.exprs[right] {
                Expr::Logical { operator, .. } => assert_eq!(lexeme(&ast, operator), "and"),
                other => panic!("{:?}", other),
            }
        }
        other => panic!("{:?}", other),
    }
    let (ast, statements, _) = parse("a or b or c;");
    match ast.exprs[expression(&ast, statements[0])] {
        Expr::Logical { left, right, .. } => {
            assert!(matches!(ast.exprs[left], Expr::Logical { .. }));
            assert!(matches!(ast.exprs[right], Expr::Variable { .. }));
        }
        other => panic!("{:?}", other),
    }
}

#[test]
fn assignment_leans_to_the_right() {
    let (ast, statements, errors) = parse("a = b = 1;");
    assert!(errors.is_empty());
    match ast.exprs[expression(&ast, statements[0])] {
        Expr::Assign { name, value } => {
            assert_eq!(lexeme(&ast, name), "a");
            match ast.exprs[value] {
                Expr::Assign { name, value } => {
                    assert_eq!(lexeme(&ast, name), "b");
                    assert!(matches!(ast.exprs[value], Expr::Literal { .. }));
                }
                other => panic!("{:?}", other),
            }
        }
        other => panic!("{:?}", other),
    }
}

#[test]
fn assignment_to_a_property_is_a_store() {
    let (ast, statements, errors) = parse("a.b.c = 1;");
    assert!(errors.is_empty());
    match ast.exprs[expression(&ast, statements[0])] {
        Expr::SetProperty { object, name, value } => {
            assert_eq!(lexeme(&ast, name), "c");
            assert!(matches!(ast.exprs[value], Expr::Literal { .. }));
            match ast.exprs[object] {
                Expr::Get { object, name } => {
                    assert_eq!(lexeme(&ast, name), "b");
                    assert!(matches!(ast.exprs[object], Expr::Variable { .. }));
                }
                other => panic!("{:?}", other),
            }
        }
        other => panic!("{:?}", other),
    }
}

#[test]
fn an_invalid_assignment_target_is_reported_at_the_equals_sign() {
    let (ast, statements, errors) = parse("1 + a = 2; print 3;");
    assert_eq!(errors.len(), 1);
    assert_eq!(errors[0].kind, SyntaxError::InvalidAssignmentTarget);
    assert_eq!(ast.tokens[errors[0].token].token_type, TokenType::Equal);
    assert_eq!(statements.len(), 1);
    assert!(matches!(ast.stmts[statements[0]], Stmt::Print { .. }));
    assert_eq!(errors_of("(a) = 1;"), vec![(SyntaxError::InvalidAssignmentTarget, "=".to_string())]);
    assert_eq!(errors_of("a() = 1;"), vec![(SyntaxError::InvalidAssignmentTarget, "=".to_string())]);
}

#[test]
fn calls_and_property_accesses_chain() {
    let (ast, statements, errors) = parse("a.b(1, 2)(3).c;");
    assert!(errors.is_empty());
    match ast.exprs[expression(&ast, statements[0])] {
        Expr::Get { object, name } => {
            assert_eq!(lexeme(&ast, name), "c");
            match ast.exprs[object] {
                Expr::Call { callee, paren, arguments } => {
                    assert_eq!(lexeme(&ast, paren), ")");
                    assert_eq!(arguments.len, 1);
                    match ast.exprs[callee] {
                        Expr::Call { callee, arguments, .. } => {
                            let args = list(&ast, arguments);
                            assert_eq!(args.len(), 2);
                            assert_eq!(print(&ast, args[0]), "1");
                            assert_eq!(print(&ast, args[1]), "2");
                            assert!(matches!(ast.exprs[callee], Expr::Get { .. }));
                        }
                        other => panic!("{:?}", other),
                    }
                }
                other => panic!("{:?}", other),
            }
        }
        other => panic!("{:?}", other),
    }
    let (ast, statements, _) = parse("f();");
    match ast.exprs[expression(&ast, statements[0])] {
        Expr::Call { arguments, .. } => assert_eq!(arguments.len, 0),
        other => panic!("{:?}", other),
    }
}

#[test]
fn this_and_super() {
    let (ast, statements, errors) = parse("this; super.m;");
    assert!(errors.is_empty());
    match ast.exprs[expression(&ast, statements[0])] {
        Expr::This { keyword } => assert_eq!(lexeme(&ast, keyword), "this"),
        other => panic!("{:?}", other),
    }
    match ast.exprs[expression(&ast, statements[1])] {
        Expr::Super { keyword, method } => {
            assert_eq!(lexeme(&ast, keyword), "super");
            assert_eq!(lexeme(&ast, method), "m");
        }
        other => panic!("{:?}", other),
    }
}

#[test]
fn literal_nodes() {
    let (ast, statements, _) = parse("1; \"s\"; true; false; nil;");
    let values: Vec<Expr> = statements.iter().map(|s| ast.exprs[expression(&ast, *s)]).collect();
    assert_eq!(values[0], Expr::Literal { value: Constant::OfToken(0) });
    assert_eq!(values[1], Expr::Literal { value: Constant::OfToken(2) });
    assert_eq!(values[2], Expr::Literal { value: Constant::Boolean(true) });
    assert_eq!(values[3], Expr::Literal { value: Constant::Boolean(false) });
    assert_eq!(values[4], Expr::Literal { value: Constant::Nil });
    assert_eq!(ast.tokens[2].literal, Literal::String("s".to_string()));
}

#[test]
fn declarations() {
    let (ast, statements, errors) = parse("var a; var b = 1; fn f(x, y) { return x; } class C < D { m() {} init(z) {} }");
    assert!(errors.is_empty());
    assert_eq!(statements.len(), 4);
    match ast.stmts[statements[0]] {
        Stmt::Var { name, initializer } => {
            assert_eq!(lexeme(&ast, name), "a");
            assert_eq!(initializer, None);
        }
        other => panic!("{:?}", other),
    }
    match ast.stmts[statements[1]] {
        Stmt::Var { name, initializer } => {
            assert_eq!(lexeme(&ast, name), "b");
            assert_eq!(print(&ast, initializer.unwrap()), "1");
        }
        other => panic!("{:?}", other),
    }
    match ast.stmts[statements[2]] {
        Stmt::Function { name, params, body } => {
            assert_eq!(lexeme(&ast, name), "f");
            let names: Vec<&str> = list(&ast, params).iter().map(|p| lexeme(&ast, *p)).collect();
            assert_eq!(names, vec!["x", "y"]);
            let body = list(&ast, body);
            assert_eq!(body.len(), 1);
            match ast.stmts[body[0]] {
                Stmt::Return { keyword, value } => {
                    assert_eq!(lexeme(&ast, keyword), "return");
                    assert!(matches!(ast.exprs[value.unwrap()], Expr::Variable { .. }));
                }
                other => panic!("{:?}", other),
            }
        }
        other => panic!("{:?}", other),
    }
    match ast.stmts[statements[3]] {
        Stmt::Class { name, superclass, methods } => {
            assert_eq!(lexeme(&ast, name), "C");
            match ast.exprs[superclass.unwrap()] {
                Expr::Variable { name } => assert_eq!(lexeme(&ast, name), "D"),
                other => panic!("{:?}", other),
            }
            let methods = list(&ast, methods);
            assert_eq!(methods.len(), 2);
            for (method, expected) in methods.iter().zip(["m", "init"]) {
                match ast.stmts[*method] {
                    Stmt::Function { name, .. } => assert_eq!(lexeme(&ast, name), expected),
                    other => panic!("{:?}", other),
                }
            }
        }
        other => panic!("{:?}", other),
    }
}

#[test]
fn statements() {
    let (ast, statements, errors) = parse("{ 1; { } } if (a) b; else c; if (a) if (b) c; else d; while (a) b; return; print 1;");
    assert!(errors.is_empty());
    assert_eq!(statements.len(), 6);
    match ast.stmts[statements[0]] {
        Stmt::Block { statements } => {
            let inner = list(&ast, statements);
            assert_eq!(inner.len(), 2);
            assert!(matches!(ast.stmts[inner[0]], Stmt::Expression { .. }));
            match ast.stmts[inner[1]] {
                Stmt::Block { statements } => assert_eq!(statements.len, 0),
                other => panic!("{:?}", other),
            }
        }
        other => panic!("{:?}", other),
    }
    match ast.stmts[statements[1]] {
        Stmt::If { else_branch, .. } => assert!(else_branch.is_some()),
        other => panic!("{:?}", other),
    }
    match ast.stmts[statements[2]] {
        Stmt::If { then_branch, else_branch, .. } => {
            assert_eq!(else_branch, None);
            match ast.stmts[then_branch] {
                Stmt::If { else_branch, .. } => assert!(else_branch.is_some()),
                other => panic!("{:?}", other),
            }
        }
        other => panic!("{:?}", other),
    }
    assert!(matches!(ast.stmts[statements[3]], Stmt::While { .. }));
    assert!(matches!(ast.stmts[statements[4]], Stmt::Return { value: None, .. }));
    assert!(matches!(ast.stmts[statements[5]], Stmt::Print { .. }));
}

#[test]
fn a_for_loop_is_a_while_loop() {
    let (ast, statements, errors) = parse("for (var i = 0; i < 3; i = i + 1) print i;");
    assert!(errors.is_empty());
    assert_eq!(statements.len(), 1);
    let outer = match ast.stmts[statements[0]] {
        Stmt::Block { statements } => list(&ast, statements),
        other => panic!("{:?}", other),
    };
    assert_eq!(outer.len(), 2);
    assert!(matches!(ast.stmts[outer[0]], Stmt::Var { .. }));
    let (condition, body) = match ast.stmts[outer[1]] {
        Stmt::While { condition, body } => (condition, body),
        other => panic!("{:?}", other),
    };
    assert_eq!(print(&ast, condition), "(<  3)");
    let inner = match ast.stmts[body] {
        Stmt::Block { statements } => list(&ast, statements),
        other => panic!("{:?}", other),
    };
    assert_eq!(inner.len(), 2);
    assert!(matches!(ast.stmts[inner[0]], Stmt::Print { .. }));
    match ast.stmts[inner[1]] {
        Stmt::Expression { expression } => {
            assert!(matches!(ast.exprs[expression], Expr::Assign { .. }))
        }
        other => panic!("{:?}", other),
    }
}

#[test]
fn a_for_loop_without_clauses_loops_on_true() {
    let (ast, statements, errors) = parse("for (;;) print 1;");
    assert!(errors.is_empty());
    match ast.stmts[statements[0]] {
        Stmt::While { condition, body } => {
            assert_eq!(ast.exprs[condition], Expr::Literal { value: Constant::Boolean(true) });
            assert!(matches!(ast.stmts[body], Stmt::Print { .. }));
        }
        other => panic!("{:?}", other),
    }
    let (ast, statements, _) = parse("for (a = 1;;) print 1;");
    match ast.stmts[statements[0]] {
        Stmt::Block { statements } => {
            let both = list(&ast, statements);
            assert!(matches!(ast.stmts[both[0]], Stmt::Expression { .. }));
            assert!(matches!(ast.stmts[both[1]], Stmt::While { .. }));
        }
        other => panic!("{:?}", other),
    }
    let (ast, statements, _) = parse("for (;a;b) {}");
    match ast.stmts[statements[0]] {
        Stmt::While { body, .. } => match ast.stmts[body] {
            Stmt::Block { statements } => assert_eq!(statements.len, 2),
            other => panic!("{:?}", other),
        },
        other => panic!("{:?}", other),
    }
}

#[test]
fn a_node_refers_only_to_earlier_nodes() {
    let (ast, _, errors) = parse(
        "class A < B { m(a) { for (var i = 0; i < a; i = i + 1) { print this.f(i, super.m)(i).g = -i or !i; } } }",
    );
    assert!(errors.is_empty());
    for (id, e) in ast.exprs.iter().enumerate() {
        let children: Vec<usize> = match *e {
            Expr::Assign { value, .. } => vec![value],
            Expr::Binary { left, right, .. } => vec![left, right],
            Expr::Logical { left, right, .. } => vec![left, right],
            Expr::Call { callee, arguments, .. } => {
                let mut all = list(&ast, arguments);
                all.push(callee);
                all
            }
            Expr::Get { object, .. } => vec![object],
            Expr::Grouping { expression } => vec![expression],
            Expr::SetProperty { object, value, .. } => vec![object, value],
            Expr::Unary { right, .. } => vec![right],
            _ => vec![],
        };
        for child in children {
            assert!(child < id);
        }
    }
}

#[test]
fn syntax_errors_and_where_they_are() {
    let cases: Vec<(&str, SyntaxError, &str)> = vec![
        ("class 1 {}", SyntaxError::ExpectClassName, "1"),
        ("class A < 1 {}", SyntaxError::ExpectSuperclassName, "1"),
        ("class A 1", SyntaxError::ExpectBraceBeforeClassBody, "1"),
        ("class A { m() {} ", SyntaxError::ExpectBraceAfterClassBody, ""),
        ("fn 1() {}", SyntaxError::ExpectName(FunctionKind::Function), "1"),
        ("class A { 1() {} }", SyntaxError::ExpectName(FunctionKind::Method), "1"),
        ("fn f {}", SyntaxError::ExpectParenAfterName(FunctionKind::Function), "{"),
        ("class A { m {} }", SyntaxError::ExpectParenAfterName(FunctionKind::Method), "{"),
        ("fn f() 1", SyntaxError::ExpectBraceBeforeBody(FunctionKind::Function), "1"),
        ("class A { m() 1 }", SyntaxError::ExpectBraceBeforeBody(FunctionKind::Method), "1"),
        ("fn f(1) {}", SyntaxError::ExpectParameterName, "1"),
        ("fn f(a b) {}", SyntaxError::ExpectParenAfterParameters, "b"),
        ("fn f(a,) {}", SyntaxError::ExpectParameterName, ")"),
        ("var 1;", SyntaxError::ExpectVariableName, "1"),
        ("var a = 1 2;", SyntaxError::ExpectSemicolonAfterVariable, "2"),
        ("var a 2;", SyntaxError::ExpectSemicolonAfterVariable, "2"),
        ("1 2;", SyntaxError::ExpectSemicolonAfterExpression, "2"),
        ("print 1 2;", SyntaxError::ExpectSemicolonAfterExpression, "2"),
        ("return 1 2;", SyntaxError::ExpectSemicolonAfterReturn, "2"),
        ("for 1", SyntaxError::ExpectParenAfterFor, "1"),
        ("for (;1 2", SyntaxError::ExpectSemicolonAfterLoopCondition, "2"),
        ("for (;;1 2", SyntaxError::ExpectParenAfterForClauses, "2"),
        ("if 1", SyntaxError::ExpectParenAfterIf, "1"),
        ("if (1 2", SyntaxError::ExpectParenAfterIfCondition, "2"),
        ("while 1", SyntaxError::ExpectParenAfterWhile, "1"),
        ("while (1 2", SyntaxError::ExpectParenAfterCondition, "2"),
        ("{ 1;", SyntaxError::ExpectBraceAfterBlock, ""),
        ("f(1 2);", SyntaxError::ExpectParenAfterArguments, "2"),
        ("f(1,);", SyntaxError::ExpectExpression, ")"),
        ("a.1;", SyntaxError::ExpectPropertyName, "1"),
        ("super 1;", SyntaxError::ExpectDotAfterSuper, "1"),
        ("super.1;", SyntaxError::ExpectSuperclassMethodName, "1"),
        ("(1 2", SyntaxError::ExpectParenAfterExpression, "2"),
        ("+", SyntaxError::ExpectExpression, "+"),
        ("", SyntaxError::ExpectExpression, "none"),
    ];
    for (source, kind, at) in cases {
        let found = errors_of(source);
        if at == "none" {
            assert!(found.is_empty(), "{}", source);
        } else {
            assert_eq!(found.first(), Some(&(kind, at.to_string())), "{}", source);
        }
    }
}

#[test]
fn recovery_skips_to_the_next_statement() {
    let (ast, statements, errors) = parse("print +1 2 3; print 4; var 5 fn f() {} + class A {} 6 7 if (a) b; ; print 8;");
    let kinds: Vec<SyntaxError> = errors.iter().map(|e| e.kind).collect();
    assert_eq!(
        kinds,
        vec![
            SyntaxError::ExpectExpression,
            SyntaxError::ExpectVariableName,
            SyntaxError::ExpectExpression,
            SyntaxError::ExpectSemicolonAfterExpression,
            SyntaxError::ExpectExpression
        ]
    );
    assert_eq!(statements.len(), 5);
    assert!(matches!(ast.stmts[statements[0]], Stmt::Print { .. }));
    assert!(matches!(ast.stmts[statements[1]], Stmt::Function { .. }));
    assert!(matches!(ast.stmts[statements[2]], Stmt::Class { .. }));
    assert!(matches!(ast.stmts[statements[3]], Stmt::If { .. }));
    assert!(matches!(ast.stmts[statements[4]], Stmt::Print { .. }));
}

#[test]
fn an_error_in_a_block_leaves_the_rest_of_the_block() {
    let (ast, statements, errors) = parse("{ print 1; print +; print 2; }");
    assert_eq!(errors.len(), 1);
    assert_eq!(statements.len(), 1);
    match ast.stmts[statements[0]] {
        Stmt::Block { statements } => assert_eq!(statements.len, 2),
        other => panic!("{:?}", other),
    }
}

#[test]
fn the_cap_on_arguments() {
    let call = |n: usize| format!("f({});", vec!["1"; n].join(", "));
    assert_eq!(errors_of(&call(255)).len(), 0);
    assert_eq!(errors_of(&call(256)), vec![(SyntaxError::TooManyArguments, "1".to_string())]);
    assert_eq!(errors_of(&call(258)).len(), 3);
    let (ast, statements, errors) = parse(&call(256));
    assert_eq!(ast.tokens[errors[0].token].token_type, TokenType::Number);
    assert_eq!(errors[0].token, 2 + 2 * 255);
    assert_eq!(statements.len(), 1);
    match ast.exprs[expression(&ast, statements[0])] {
        Expr::Call { arguments, .. } => assert_eq!(arguments.len, 256),
        other => panic!("{:?}", other),
    }
}

#[test]
fn a_parser_can_go_on_with_a_tree() {
    let (ast, first, _) = parse("var a = 1;");
    let tokens_before = ast.tokens.len();
    let nodes_before = ast.stmts.len();
    let mut scanner = Scanner::new("print a;".to_string());
    scanner.scan_tokens();
    let mut parser = Parser::resume(ast, scanner.tokens);
    assert_eq!(parser.current, tokens_before);
    let second = parser.parse();
    assert!(!parser.had_error());
    assert_eq!(first, vec![0]);
    assert_eq!(second, vec![nodes_before]);
    assert_eq!(parser.ast.tokens.len(), tokens_before + 4);
    assert!(matches!(parser.ast.stmts[0], Stmt::Var { .. }));
    assert!(matches!(parser.ast.stmts[second[0]], Stmt::Print { .. }));
}

#[test]
fn parsing_stops_at_the_end_of_file_token() {
    let tokens = vec![
        Token::new(TokenType::Nil, "nil".to_string(), Literal::Nil, 1),
        Token::new(TokenType::Semicolon, ";".to_string(), Literal::Nil, 1),
        Token::new(TokenType::Eof, "".to_string(), Literal::Nil, 1),
        Token::new(TokenType::Print, "print".to_string(), Literal::Nil, 2),
        Token::new(TokenType::Eof, "".to_string(), Literal::Nil, 2),
    ];
    let mut parser = Parser::new(tokens);
    let statements = parser.parse();
    assert_eq!(statements.len(), 1);
    assert!(!parser.had_error());
    assert_eq!(parser.current, 2);
}
