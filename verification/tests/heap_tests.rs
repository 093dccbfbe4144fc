use lox::callable::{LoxCallable, NativeFunction};
use lox::class::{LoxClass, LoxInstance};
use lox::dict::Dict;
use lox::environment::{assign_at, find_at, get_at, Environment};
use lox::error::{RuntimeError, RuntimeErrorKind};
use lox::expr::Span;
use lox::heap::Heap;
use lox::object::{is_equal, is_truthy, Object};
use lox::parser::Parser;
use lox::scanner::Scanner;
use lox::util::Number;

/// A heap over the tokens of `source`; the token of a word is found by
/// `token`.
fn heap_with(source: &str) -> Heap {
    let mut scanner = Scanner::new(source.to_string());
    scanner.scan_tokens();
    let parser = Parser::new(scanner.tokens);
    let mut heap = Heap::new();
    heap.replace_ast(parser.ast);
    heap
}

fn token(heap: &Heap, word: &str) -> usize {
    heap.ast.tokens.iter().position(|t| t.lexeme == word).unwrap()
}

fn number(value: f64) -> Object {
    Object::Number(Number::from_bits(value.to_bits()))
}

fn bits(object: &Object) -> u64 {
    match object {
        Object::Number(n) => n.to_bits(),
        other => panic!("{:?}", other),
    }
}

#[test]
fn define_and_get_in_one_environment() {
    let mut heap = heap_with("a b");
    let env = Environment::new(&mut heap, None);
    assert_eq!(env, 0);
    Environment::define(&mut heap, env, "a".to_string(), number(1.0));
    let a = token(&heap, "a");
    let b = token(&heap, "b");
    let found = Environment::get(&heap, env, a).unwrap();
    assert_eq!(bits(&found), 1.0f64.to_bits());
    assert_eq!(
        Environment::get(&heap, env, b).unwrap_err(),
        RuntimeError { kind: RuntimeErrorKind::UndefinedVariable, token: b }
    );
    Environment::define(&mut heap, env, "a".to_string(), Object::Boolean(true));
    assert!(matches!(Environment::get(&heap, env, a), Ok(Object::Boolean(true))));
}

#[test]
fn get_and_assign_walk_outwards() {
    let mut heap = heap_with("a b c");
    let outer = Environment::new(&mut heap, None);
    let middle = Environment::new(&mut heap, Some(outer));
    let inner = Environment::new(&mut heap, Some(middle));
    assert_eq!((outer, middle, inner), (0, 1, 2));
    assert_eq!(heap.environments[inner].enclosing, Some(middle));
    let (a, b, c) = (token(&heap, "a"), token(&heap, "b"), token(&heap, "c"));
    Environment::define(&mut heap, outer, "a".to_string(), number(1.0));
    Environment::define(&mut heap, middle, "b".to_string(), number(2.0));
    Environment::define(&mut heap, inner, "a".to_string(), number(3.0));

    assert_eq!(bits(&Environment::get(&heap, inner, a).unwrap()), 3.0f64.to_bits());
    assert_eq!(bits(&Environment::get(&heap, middle, a).unwrap()), 1.0f64.to_bits());
    assert_eq!(bits(&Environment::get(&heap, inner, b).unwrap()), 2.0f64.to_bits());
    assert!(Environment::get(&heap, outer, b).is_err());

    assert!(Environment::assign(&mut heap, inner, b, number(4.0)).is_ok());
    assert_eq!(bits(&Environment::get(&heap, middle, b).unwrap()), 4.0f64.to_bits());
    assert!(!heap.environments[inner].values.contains_key(&"b".to_string()));
    assert!(Environment::assign(&mut heap, inner, a, number(5.0)).is_ok());
    assert_eq!(bits(&Environment::get(&heap, outer, a).unwrap()), 1.0f64.to_bits());
    assert_eq!(bits(&Environment::get(&heap, inner, a).unwrap()), 5.0f64.to_bits());
    assert_eq!(
        Environment::assign(&mut heap, inner, c, Object::Nil).unwrap_err(),
        RuntimeError { kind: RuntimeErrorKind::UndefinedVariable, token: c }
    );
    assert!(Environment::get(&heap, inner, c).is_err());
}

#[test]
fn get_at_and_assign_at_go_by_distance() {
    let mut heap = heap_with("a b");
    let outer = Environment::new(&mut heap, None);
    let middle = Environment::new(&mut heap, Some(outer));
    let inner = Environment::new(&mut heap, Some(middle));
    let a = token(&heap, "a");
    Environment::define(&mut heap, outer, "a".to_string(), number(1.0));
    Environment::define(&mut heap, inner, "a".to_string(), number(3.0));
    let name = "a".to_string();
    assert_eq!(bits(&get_at(&heap, inner, 0, &name).unwrap()), 3.0f64.to_bits());
    assert!(matches!(get_at(&heap, inner, 1, &name), Ok(Object::Nil)));
    assert_eq!(bits(&get_at(&heap, inner, 2, &name).unwrap()), 1.0f64.to_bits());
    assert!(matches!(get_at(&heap, inner, 3, &name), Ok(Object::Nil)));
    assert_eq!(bits(&get_at(&heap, middle, 1, &name).unwrap()), 1.0f64.to_bits());

    assert_eq!(bits(&find_at(&heap, inner, 0, &name).unwrap()), 3.0f64.to_bits());
    assert!(find_at(&heap, inner, 1, &name).is_none());
    assert_eq!(bits(&find_at(&heap, inner, 2, &name).unwrap()), 1.0f64.to_bits());
    assert!(find_at(&heap, inner, 3, &name).is_none());
    assert!(find_at(&heap, outer, 0, &"b".to_string()).is_none());

    assert!(assign_at(&mut heap, inner, 1, a, number(2.0)).is_ok());
    assert_eq!(bits(&get_at(&heap, inner, 1, &name).unwrap()), 2.0f64.to_bits());
    assert_eq!(bits(&get_at(&heap, inner, 0, &name).unwrap()), 3.0f64.to_bits());
    assert_eq!(bits(&get_at(&heap, inner, 2, &name).unwrap()), 1.0f64.to_bits());
    assert!(assign_at(&mut heap, inner, 7, a, number(9.0)).is_ok());
    assert_eq!(heap.environments.len(), 3);
    assert_eq!(bits(&get_at(&heap, inner, 2, &name).unwrap()), 1.0f64.to_bits());
}

fn method(name: usize, closure: usize, is_initializer: bool) -> LoxCallable {
    LoxCallable::User {
        name,
        params: Span { start: 0, len: 0 },
        body: Span { start: 0, len: 0 },
        closure,
        is_initializer,
    }
}

#[test]
fn arity() {
    assert_eq!(LoxCallable::Native { arity: 0, function: NativeFunction::Clock }.arity(), 0);
    assert_eq!(LoxCallable::Native { arity: 3, function: NativeFunction::Clock }.arity(), 3);
    let user = LoxCallable::User {
        name: 0,
        params: Span { start: 4, len: 2 },
        body: Span { start: 0, len: 0 },
        closure: 0,
        is_initializer: false,
    };
    assert_eq!(user.arity(), 2);
}

#[test]
fn find_method_walks_the_superclasses() {
    let mut heap = heap_with("m n o");
    let env = Environment::new(&mut heap, None);
    let (m, n) = (token(&heap, "m"), token(&heap, "n"));
    let mut base_methods: Dict<LoxCallable> = Dict::new();
    base_methods.insert("m".to_string(), method(m, env, false));
    base_methods.insert("n".to_string(), method(n, env, false));
    let base = LoxClass::new(&mut heap, "Base".to_string(), None, base_methods);
    let mut derived_methods: Dict<LoxCallable> = Dict::new();
    derived_methods.insert("m".to_string(), method(m, env, true));
    let derived = LoxClass::new(&mut heap, "Derived".to_string(), Some(base), derived_methods);
    let leaf = LoxClass::new(&mut heap, "Leaf".to_string(), Some(derived), Dict::new());
    assert_eq!((base, derived, leaf), (0, 1, 2));
    assert_eq!(heap.classes[leaf].name, "Leaf");

    let find = |class: usize, name: &str| LoxClass::find_method(&heap, class, &name.to_string());
    assert!(matches!(find(base, "m"), Some(LoxCallable::User { is_initializer: false, .. })));
    assert!(matches!(find(derived, "m"), Some(LoxCallable::User { is_initializer: true, .. })));
    assert!(matches!(find(leaf, "m"), Some(LoxCallable::User { is_initializer: true, .. })));
    assert!(matches!(find(leaf, "n"), Some(LoxCallable::User { name, .. }) if name == n));
    assert!(find(leaf, "o").is_none());
    assert!(find(base, "o").is_none());
}

#[test]
fn bind_makes_an_environment_with_this() {
    let mut heap = heap_with("m");
    let env = Environment::new(&mut heap, None);
    let m = token(&heap, "m");
    let class = LoxClass::new(&mut heap, "C".to_string(), None, Dict::new());
    let instance = LoxInstance::new(&mut heap, class);
    let bound = method(m, env, true).bind(&mut heap, Object::Instance(instance));
    assert_eq!(heap.environments.len(), 2);
    match bound {
        LoxCallable::User { name, closure, is_initializer, .. } => {
            assert_eq!(name, m);
            assert_eq!(closure, 1);
            assert!(is_initializer);
        }
        other => panic!("{:?}", other),
    }
    assert_eq!(heap.environments[1].enclosing, Some(env));
    assert!(matches!(
        heap.environments[1].values.get(&"this".to_string()),
        Some(Object::Instance(i)) if *i == instance
    ));
    assert_eq!(heap.environments[1].values.keys.len(), 1);
}

#[test]
fn an_instance_has_fields_and_the_methods_of_its_class() {
    let mut heap = heap_with("f m x");
    let env = Environment::new(&mut heap, None);
    let (f, m, x) = (token(&heap, "f"), token(&heap, "m"), token(&heap, "x"));
    let mut methods: Dict<LoxCallable> = Dict::new();
    methods.insert("m".to_string(), method(m, env, false));
    let class = LoxClass::new(&mut heap, "C".to_string(), None, methods);
    let one = LoxInstance::new(&mut heap, class);
    let two = LoxInstance::new(&mut heap, class);
    assert_eq!((one, two), (0, 1));
    assert_eq!(heap.instances[one].class, class);

    LoxInstance::set(&mut heap, one, f, number(1.0));
    assert_eq!(bits(&LoxInstance::get(&mut heap, one, f).unwrap()), 1.0f64.to_bits());
    LoxInstance::set(&mut heap, one, f, number(2.0));
    assert_eq!(bits(&LoxInstance::get(&mut heap, one, f).unwrap()), 2.0f64.to_bits());
    assert_eq!(
        LoxInstance::get(&mut heap, two, f).unwrap_err(),
        RuntimeError { kind: RuntimeErrorKind::UndefinedProperty, token: f }
    );
    assert_eq!(heap.environments.len(), 1);

    let bound = LoxInstance::get(&mut heap, two, m).unwrap();
    assert_eq!(heap.environments.len(), 2);
    match bound {
        Object::Callable(LoxCallable::User { closure, .. }) => {
            assert_eq!(closure, 1);
            assert!(matches!(
                heap.environments[closure].values.get(&"this".to_string()),
                Some(Object::Instance(i)) if *i == two
            ));
        }
        other => panic!("{:?}", other),
    }
    assert!(LoxInstance::get(&mut heap, one, x).is_err());

    LoxInstance::set(&mut heap, two, m, Object::Nil);
    assert!(matches!(LoxInstance::get(&mut heap, two, m), Ok(Object::Nil)));
    assert_eq!(heap.environments.len(), 2);
}

#[test]
fn truthiness_of_values() {
    assert!(!is_truthy(&Object::Nil));
    assert!(!is_truthy(&Object::Boolean(false)));
    assert!(is_truthy(&Object::Boolean(true)));
    assert!(is_truthy(&number(0.0)));
    assert!(is_truthy(&number(f64::NAN)));
    assert!(is_truthy(&Object::String(String::new())));
    assert!(is_truthy(&Object::Class(0)));
    assert!(is_truthy(&Object::Instance(0)));
    assert!(is_truthy(&Object::Callable(LoxCallable::Native {
        arity: 0,
        function: NativeFunction::Clock
    })));
}

#[test]
fn equality_of_values() {
    let values = || {
        vec![
            Object::Nil,
            Object::Boolean(true),
            Object::Boolean(false),
            number(0.0),
            number(1.0),
            Object::String("".to_string()),
            Object::String("a".to_string()),
            Object::Class(0),
            Object::Class(1),
            Object::Instance(0),
            Object::Instance(1),
            Object::Callable(LoxCallable::Native { arity: 0, function: NativeFunction::Clock }),
            Object::Callable(method(0, 0, false)),
            Object::Callable(method(0, 1, false)),
        ]
    };
    let (left, right) = (values(), values());
    for (i, a) in left.iter().enumerate() {
        for (j, b) in right.iter().enumerate() {
            assert_eq!(is_equal(a, b), i == j, "{:?} == {:?}", a, b);
            assert_eq!(is_equal(a, b), is_equal(b, a));
        }
    }
    assert!(is_equal(&number(0.0), &number(-0.0)));
    assert!(!is_equal(&number(f64::NAN), &number(f64::NAN)));
    assert!(is_equal(&Object::String("ab".to_string()), &Object::String("ab".to_string())));
    let copy = Object::String("c".to_string()).clone();
    assert!(is_equal(&copy, &Object::String("c".to_string())));
}
