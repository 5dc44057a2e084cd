use rnix::ctx::Context;
use rnix::error::ErrorKind;
use rnix::eval::Eval;
use rnix::expr::{AttrName, Binding, Expr, Formal, LambdaParam, Span, StrPart};
use rnix::thunk::Thunk;
use rnix::value::Value;

fn sp() -> Span {
    Span { file: 0, lo: 0, hi: 0 }
}

fn run(ev: &mut Eval, e: usize) -> Result<Value, rnix::error::Error> {
    let t = ev.add_thunk(Thunk::thunk(e, Context::new()));
    ev.force(t, 10_000)
}

fn expect_int(ev: &mut Eval, e: usize, want: i64) {
    match run(ev, e) {
        Ok(Value::Int(n)) => assert_eq!(n, want),
        other => panic!("expected the integer {}, got {:?}", want, other),
    }
}

fn var(ev: &mut Eval, name: &str) -> usize {
    ev.exprs.add(Expr::Var(name.to_string()), sp())
}

fn lit(ev: &mut Eval, n: i64) -> usize {
    ev.exprs.add(Expr::Int(n), sp())
}

fn plain_bind(name: &str, rhs: usize) -> Binding {
    Binding::Plain { path: vec![AttrName::Plain(name.to_string())], rhs }
}

fn add(ev: &mut Eval, lhs: usize, rhs: usize) -> usize {
    ev.exprs.add(Expr::Binary { op: rnix::expr::BinaryOp::Add, lhs, rhs }, sp())
}

fn throw_call(ev: &mut Eval, msg: &str) -> usize {
    let f = var(ev, "throw");
    let lit = ev.exprs.add(
        Expr::Str(vec![StrPart::Lit(msg.to_string())]),
        sp(),
    );
    ev.exprs.add(Expr::Apply { func: f, arg: lit }, sp())
}

#[test]
fn let_bindings_add_up() {
    // let x = 1; y = x + 2; in y
    let mut ev = Eval::new();
    let one = lit(&mut ev, 1);
    let x = var(&mut ev, "x");
    let two = lit(&mut ev, 2);
    let sum = add(&mut ev, x, two);
    let y = var(&mut ev, "y");
    let letexpr = ev.exprs.add(
        Expr::Let { binds: vec![plain_bind("x", one), plain_bind("y", sum)], body: y },
        sp(),
    );
    expect_int(&mut ev, letexpr, 3);
}

#[test]
fn recursive_set_sees_siblings() {
    // rec { a = 1; b = a + 1; c = b + a; }
    let mut ev = Eval::new();
    let one = lit(&mut ev, 1);
    let a1 = var(&mut ev, "a");
    let one2 = lit(&mut ev, 1);
    let b_rhs = add(&mut ev, a1, one2);
    let b1 = var(&mut ev, "b");
    let a2 = var(&mut ev, "a");
    let c_rhs = add(&mut ev, b1, a2);
    let set = ev.exprs.add(
        Expr::AttrSet {
            recursive: true,
            binds: vec![plain_bind("a", one), plain_bind("b", b_rhs), plain_bind("c", c_rhs)],
        },
        sp(),
    );
    let m = match run(&mut ev, set) {
        Ok(Value::AttrSet(m)) => m,
        other => panic!("expected a set, got {:?}", other),
    };
    for (name, want) in [("a", 1), ("b", 2), ("c", 3)] {
        let t = m.get(name).unwrap();
        match ev.force(t, 10_000) {
            Ok(Value::Int(n)) => assert_eq!(n, want, "attribute {}", name),
            other => panic!("expected the integer {}, got {:?}", want, other),
        }
    }
}

#[test]
fn inner_with_wins_among_withs() {
    // with { a = 1; }; with { a = 2; }; a
    let mut ev = Eval::new();
    let one = lit(&mut ev, 1);
    let set1 = ev.exprs.add(
        Expr::AttrSet { recursive: false, binds: vec![plain_bind("a", one)] },
        sp(),
    );
    let two = lit(&mut ev, 2);
    let set2 = ev.exprs.add(
        Expr::AttrSet { recursive: false, binds: vec![plain_bind("a", two)] },
        sp(),
    );
    let a = var(&mut ev, "a");
    let inner = ev.exprs.add(Expr::With { env: set2, body: a }, sp());
    let outer = ev.exprs.add(Expr::With { env: set1, body: inner }, sp());
    expect_int(&mut ev, outer, 2);
}

#[test]
fn lexical_binding_beats_with() {
    // let a = 1; in with { a = 2; }; a
    let mut ev = Eval::new();
    let two = lit(&mut ev, 2);
    let set = ev.exprs.add(
        Expr::AttrSet { recursive: false, binds: vec![plain_bind("a", two)] },
        sp(),
    );
    let a = var(&mut ev, "a");
    let withexpr = ev.exprs.add(Expr::With { env: set, body: a }, sp());
    let one = lit(&mut ev, 1);
    let letexpr = ev.exprs.add(
        Expr::Let { binds: vec![plain_bind("a", one)], body: withexpr },
        sp(),
    );
    expect_int(&mut ev, letexpr, 1);
}

#[test]
fn nested_paths_merge() {
    // { x.y.z = 1; x.y.w = 2; }.x.y forced, then its keys read
    let mut ev = Eval::new();
    let one = lit(&mut ev, 1);
    let two = lit(&mut ev, 2);
    let path_z = vec![
        AttrName::Plain("x".to_string()),
        AttrName::Plain("y".to_string()),
        AttrName::Plain("z".to_string()),
    ];
    let path_w = vec![
        AttrName::Plain("x".to_string()),
        AttrName::Plain("y".to_string()),
        AttrName::Plain("w".to_string()),
    ];
    let set = ev.exprs.add(
        Expr::AttrSet {
            recursive: false,
            binds: vec![
                Binding::Plain { path: path_z, rhs: one },
                Binding::Plain { path: path_w, rhs: two },
            ],
        },
        sp(),
    );
    let select = ev.exprs.add(
        Expr::Select {
            base: set,
            path: vec![AttrName::Plain("x".to_string()), AttrName::Plain("y".to_string())],
            fallback: None,
        },
        sp(),
    );
    let m = match run(&mut ev, select) {
        Ok(Value::AttrSet(m)) => m,
        other => panic!("expected a set, got {:?}", other),
    };
    match ev.force(m.get("z").unwrap(), 10_000) {
        Ok(Value::Int(n)) => assert_eq!(n, 1),
        other => panic!("expected 1, got {:?}", other),
    }
    match ev.force(m.get("w").unwrap(), 10_000) {
        Ok(Value::Int(n)) => assert_eq!(n, 2),
        other => panic!("expected 2, got {:?}", other),
    }
}

#[test]
fn application_adds_one() {
    // (x: x + 1) 41
    let mut ev = Eval::new();
    let x = var(&mut ev, "x");
    let one = lit(&mut ev, 1);
    let body = add(&mut ev, x, one);
    let lam = ev.exprs.add(
        Expr::Lambda { param: LambdaParam::Plain("x".to_string()), body },
        sp(),
    );
    let arg = lit(&mut ev, 41);
    let app = ev.exprs.add(Expr::Apply { func: lam, arg }, sp());
    expect_int(&mut ev, app, 42);
}

#[test]
fn formal_default_sees_sibling() {
    // ({ a, b ? a + 1 }: b) { a = 10; }
    let mut ev = Eval::new();
    let a = var(&mut ev, "a");
    let one = lit(&mut ev, 1);
    let dflt = add(&mut ev, a, one);
    let b = var(&mut ev, "b");
    let lam = ev.exprs.add(
        Expr::Lambda {
            param: LambdaParam::Formals {
                formals: vec![
                    Formal { name: "a".to_string(), default: None },
                    Formal { name: "b".to_string(), default: Some(dflt) },
                ],
                ellipsis: false,
                at: None,
            },
            body: b,
        },
        sp(),
    );
    let ten = lit(&mut ev, 10);
    let arg = ev.exprs.add(
        Expr::AttrSet { recursive: false, binds: vec![plain_bind("a", ten)] },
        sp(),
    );
    let app = ev.exprs.add(Expr::Apply { func: lam, arg }, sp());
    expect_int(&mut ev, app, 11);
}

#[test]
fn undeclared_argument_is_refused() {
    // ({ a }: a) { a = 1; b = 2; }
    let mut ev = Eval::new();
    let a = var(&mut ev, "a");
    let lam = ev.exprs.add(
        Expr::Lambda {
            param: LambdaParam::Formals {
                formals: vec![Formal { name: "a".to_string(), default: None }],
                ellipsis: false,
                at: None,
            },
            body: a,
        },
        sp(),
    );
    let one = lit(&mut ev, 1);
    let two = lit(&mut ev, 2);
    let arg = ev.exprs.add(
        Expr::AttrSet { recursive: false, binds: vec![plain_bind("a", one), plain_bind("b", two)] },
        sp(),
    );
    let app = ev.exprs.add(Expr::Apply { func: lam, arg }, sp());
    match run(&mut ev, app) {
        Err(e) => assert!(matches!(e.kind, ErrorKind::TooManyArgs)),
        other => panic!("expected a too-many-arguments error, got {:?}", other),
    }
}

#[test]
fn unused_let_binding_never_runs() {
    // let x = throw "bang"; in 1
    let mut ev = Eval::new();
    ev.install_builtins();
    let boom = throw_call(&mut ev, "bang");
    let one = lit(&mut ev, 1);
    let letexpr = ev.exprs.add(
        Expr::Let { binds: vec![plain_bind("x", boom)], body: one },
        sp(),
    );
    expect_int(&mut ev, letexpr, 1);
}

#[test]
fn unused_argument_never_runs() {
    // (x: 1) (throw "bang")
    let mut ev = Eval::new();
    ev.install_builtins();
    let one = lit(&mut ev, 1);
    let lam = ev.exprs.add(
        Expr::Lambda { param: LambdaParam::Plain("x".to_string()), body: one },
        sp(),
    );
    let boom = throw_call(&mut ev, "bang");
    let app = ev.exprs.add(Expr::Apply { func: lam, arg: boom }, sp());
    expect_int(&mut ev, app, 1);
}

#[test]
fn list_elements_stay_lazy() {
    // [ (throw "a") 2 ] has two elements; forcing the second yields 2
    let mut ev = Eval::new();
    ev.install_builtins();
    let boom = throw_call(&mut ev, "a");
    let two = lit(&mut ev, 2);
    let list = ev.exprs.add(Expr::List(vec![boom, two]), sp());
    let items = match run(&mut ev, list) {
        Ok(Value::List(items)) => items,
        other => panic!("expected a list, got {:?}", other),
    };
    assert_eq!(items.len(), 2);
    match ev.force(items[1], 10_000) {
        Ok(Value::Int(n)) => assert_eq!(n, 2),
        other => panic!("expected 2, got {:?}", other),
    }
}

#[test]
fn self_reference_is_an_infinite_loop() {
    // let x = x; in x
    let mut ev = Eval::new();
    let x_rhs = var(&mut ev, "x");
    let x_body = var(&mut ev, "x");
    let letexpr = ev.exprs.add(
        Expr::Let { binds: vec![plain_bind("x", x_rhs)], body: x_body },
        sp(),
    );
    match run(&mut ev, letexpr) {
        Err(e) => assert!(matches!(e.kind, ErrorKind::InfiniteLoop)),
        other => panic!("expected an infinite-loop error, got {:?}", other),
    }
}

#[test]
fn forcing_twice_returns_the_same_value() {
    // The second force of a transitioned thunk returns the stored value.
    let mut ev = Eval::new();
    let one = lit(&mut ev, 1);
    let two = lit(&mut ev, 2);
    let sum = add(&mut ev, one, two);
    let t = ev.add_thunk(Thunk::thunk(sum, Context::new()));
    let first = ev.force(t, 10_000).unwrap();
    let again = ev.force(t, 10_000).unwrap();
    match (first, again) {
        (Value::Int(a), Value::Int(b)) => {
            assert_eq!(a, 3);
            assert_eq!(b, 3);
        }
        other => panic!("expected matching integers, got {:?}", other),
    }
}

#[test]
fn assert_failure_carries_its_node() {
    let mut ev = Eval::new();
    let f = ev.exprs.add(Expr::Bool(false), sp());
    let one = lit(&mut ev, 1);
    let assert_expr = ev.exprs.add(Expr::Assert { cond: f, body: one }, sp());
    match run(&mut ev, assert_expr) {
        Err(e) => {
            assert!(matches!(e.kind, ErrorKind::AssertionFailed));
            assert_eq!(e.at, Some(assert_expr));
        }
        other => panic!("expected an assertion failure, got {:?}", other),
    }
}

#[test]
fn unbound_variable_is_reported() {
    let mut ev = Eval::new();
    let ghost = var(&mut ev, "nowhere");
    match run(&mut ev, ghost) {
        Err(e) => match e.kind {
            ErrorKind::UnboundVariable(name) => assert_eq!(name, "nowhere"),
            other => panic!("expected an unbound variable, got {:?}", other),
        },
        other => panic!("expected an error, got {:?}", other),
    }
}

#[test]
fn duplicate_binding_is_refused() {
    let mut ev = Eval::new();
    let one = lit(&mut ev, 1);
    let two = lit(&mut ev, 2);
    let set = ev.exprs.add(
        Expr::AttrSet { recursive: false, binds: vec![plain_bind("a", one), plain_bind("a", two)] },
        sp(),
    );
    match run(&mut ev, set) {
        Err(e) => match e.kind {
            ErrorKind::DuplicateAttribute(name) => assert_eq!(name, "a"),
            other => panic!("expected a duplicate attribute, got {:?}", other),
        },
        other => panic!("expected an error, got {:?}", other),
    }
}

#[test]
fn select_fallback_covers_misses() {
    // { a = 1; }.b or 7
    let mut ev = Eval::new();
    let one = lit(&mut ev, 1);
    let set = ev.exprs.add(
        Expr::AttrSet { recursive: false, binds: vec![plain_bind("a", one)] },
        sp(),
    );
    let seven = lit(&mut ev, 7);
    let select = ev.exprs.add(
        Expr::Select {
            base: set,
            path: vec![AttrName::Plain("b".to_string())],
            fallback: Some(seven),
        },
        sp(),
    );
    expect_int(&mut ev, select, 7);
}

#[test]
fn missing_attribute_without_fallback_fails() {
    let mut ev = Eval::new();
    let one = lit(&mut ev, 1);
    let set = ev.exprs.add(
        Expr::AttrSet { recursive: false, binds: vec![plain_bind("a", one)] },
        sp(),
    );
    let select = ev.exprs.add(
        Expr::Select { base: set, path: vec![AttrName::Plain("b".to_string())], fallback: None },
        sp(),
    );
    match run(&mut ev, select) {
        Err(e) => match e.kind {
            ErrorKind::MissingAttribute(name) => assert_eq!(name, "b"),
            other => panic!("expected a missing attribute, got {:?}", other),
        },
        other => panic!("expected an error, got {:?}", other),
    }
}

#[test]
fn missing_formal_without_default_fails() {
    // ({ a }: a) { }
    let mut ev = Eval::new();
    let a = var(&mut ev, "a");
    let lam = ev.exprs.add(
        Expr::Lambda {
            param: LambdaParam::Formals {
                formals: vec![Formal { name: "a".to_string(), default: None }],
                ellipsis: false,
                at: None,
            },
            body: a,
        },
        sp(),
    );
    let arg = ev.exprs.add(Expr::AttrSet { recursive: false, binds: vec![] }, sp());
    let app = ev.exprs.add(Expr::Apply { func: lam, arg }, sp());
    match run(&mut ev, app) {
        Err(e) => match e.kind {
            ErrorKind::MissingArg(name) => assert_eq!(name, "a"),
            other => panic!("expected a missing argument, got {:?}", other),
        },
        other => panic!("expected an error, got {:?}", other),
    }
}

#[test]
fn applying_an_integer_fails() {
    let mut ev = Eval::new();
    let one = lit(&mut ev, 1);
    let two = lit(&mut ev, 2);
    let app = ev.exprs.add(Expr::Apply { func: one, arg: two }, sp());
    match run(&mut ev, app) {
        Err(e) => assert!(matches!(e.kind, ErrorKind::NotAFunction(_))),
        other => panic!("expected a not-a-function error, got {:?}", other),
    }
}

#[test]
fn exhausted_budget_is_reported() {
    let mut ev = Eval::new();
    let one = lit(&mut ev, 1);
    let two = lit(&mut ev, 2);
    let sum = add(&mut ev, one, two);
    let t = ev.add_thunk(Thunk::thunk(sum, Context::new()));
    match ev.force(t, 2) {
        Err(e) => assert!(matches!(e.kind, ErrorKind::RecursionLimit)),
        other => panic!("expected the budget to run out, got {:?}", other),
    }
}

#[test]
fn has_attr_answers_both_ways() {
    let mut ev = Eval::new();
    let one = lit(&mut ev, 1);
    let set = ev.exprs.add(
        Expr::AttrSet { recursive: false, binds: vec![plain_bind("a", one)] },
        sp(),
    );
    let q1 = ev.exprs.add(
        Expr::HasAttr { base: set, path: vec![AttrName::Plain("a".to_string())] },
        sp(),
    );
    match run(&mut ev, q1) {
        Ok(Value::Bool(b)) => assert!(b),
        other => panic!("expected true, got {:?}", other),
    }
    let q2 = ev.exprs.add(
        Expr::HasAttr { base: set, path: vec![AttrName::Plain("b".to_string())] },
        sp(),
    );
    match run(&mut ev, q2) {
        Ok(Value::Bool(b)) => assert!(!b),
        other => panic!("expected false, got {:?}", other),
    }
}
