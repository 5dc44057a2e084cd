use rnix::ctx::Context;
use rnix::error::ErrorKind;
use rnix::eval::Eval;
use rnix::expr::{AttrName, BinaryOp, Binding, Expr, Span, UnaryOp};
use rnix::thunk::Thunk;
use rnix::value::Value;

fn sp() -> Span {
    Span { file: 0, lo: 0, hi: 0 }
}

fn run(ev: &mut Eval, e: usize) -> Result<Value, rnix::error::Error> {
    let t = ev.add_thunk(Thunk::thunk(e, Context::new()));
    ev.force(t, 10_000)
}

fn lit(ev: &mut Eval, n: i64) -> usize {
    ev.exprs.add(Expr::Int(n), sp())
}

fn bin(ev: &mut Eval, op: BinaryOp, lhs: usize, rhs: usize) -> usize {
    ev.exprs.add(Expr::Binary { op, lhs, rhs }, sp())
}

fn plain_bind(name: &str, rhs: usize) -> Binding {
    Binding::Plain { path: vec![AttrName::Plain(name.to_string())], rhs }
}

fn expect_int(ev: &mut Eval, e: usize, want: i64) {
    match run(ev, e) {
        Ok(Value::Int(n)) => assert_eq!(n, want),
        other => panic!("expected the integer {}, got {:?}", want, other),
    }
}

fn expect_bool(ev: &mut Eval, e: usize, want: bool) {
    match run(ev, e) {
        Ok(Value::Bool(b)) => assert_eq!(b, want),
        other => panic!("expected the boolean {}, got {:?}", want, other),
    }
}

#[test]
fn arithmetic_works() {
    let mut ev = Eval::new();
    let a = lit(&mut ev, 40);
    let b = lit(&mut ev, 2);
    let sum = bin(&mut ev, BinaryOp::Add, a, b);
    expect_int(&mut ev, sum, 42);
    let a = lit(&mut ev, 40);
    let b = lit(&mut ev, 2);
    let diff = bin(&mut ev, BinaryOp::Sub, a, b);
    expect_int(&mut ev, diff, 38);
    let a = lit(&mut ev, 40);
    let b = lit(&mut ev, 2);
    let prod = bin(&mut ev, BinaryOp::Mul, a, b);
    expect_int(&mut ev, prod, 80);
    let a = lit(&mut ev, 41);
    let b = lit(&mut ev, 2);
    let quot = bin(&mut ev, BinaryOp::Div, a, b);
    expect_int(&mut ev, quot, 20);
}

#[test]
fn division_by_zero_is_an_error() {
    let mut ev = Eval::new();
    let a = lit(&mut ev, 1);
    let z = lit(&mut ev, 0);
    let quot = bin(&mut ev, BinaryOp::Div, a, z);
    match run(&mut ev, quot) {
        Err(e) => assert!(matches!(e.kind, ErrorKind::DivideByZero)),
        other => panic!("expected a division error, got {:?}", other),
    }
}

#[test]
fn negation_subtracts_from_zero() {
    let mut ev = Eval::new();
    let a = lit(&mut ev, 5);
    let neg = ev.exprs.add(Expr::Unary { op: UnaryOp::Negate, operand: a }, sp());
    expect_int(&mut ev, neg, -5);
}

#[test]
fn short_circuits_skip_the_right_side() {
    // false && (1 / 0 == 0) is false; true || anything is true.
    let mut ev = Eval::new();
    let f = ev.exprs.add(Expr::Bool(false), sp());
    let one = lit(&mut ev, 1);
    let zero = lit(&mut ev, 0);
    let bad = bin(&mut ev, BinaryOp::Div, one, zero);
    let z2 = lit(&mut ev, 0);
    let cmp = bin(&mut ev, BinaryOp::Eq, bad, z2);
    let and = bin(&mut ev, BinaryOp::And, f, cmp);
    expect_bool(&mut ev, and, false);
    let t = ev.exprs.add(Expr::Bool(true), sp());
    let one = lit(&mut ev, 1);
    let zero = lit(&mut ev, 0);
    let bad = bin(&mut ev, BinaryOp::Div, one, zero);
    let z2 = lit(&mut ev, 0);
    let cmp = bin(&mut ev, BinaryOp::Eq, bad, z2);
    let or = bin(&mut ev, BinaryOp::Or, t, cmp);
    expect_bool(&mut ev, or, true);
}

#[test]
fn orderings_agree() {
    let mut ev = Eval::new();
    let cases: [(BinaryOp, i64, i64, bool); 6] = [
        (BinaryOp::Le, 1, 2, true),
        (BinaryOp::Le, 2, 2, false),
        (BinaryOp::Leq, 2, 2, true),
        (BinaryOp::Geq, 2, 2, true),
        (BinaryOp::Ge, 3, 2, true),
        (BinaryOp::Ge, 2, 2, false),
    ];
    for (op, a, b, want) in cases {
        let l = lit(&mut ev, a);
        let r = lit(&mut ev, b);
        let e = bin(&mut ev, op, l, r);
        expect_bool(&mut ev, e, want);
    }
}

#[test]
fn string_ordering_is_lexicographic() {
    let mut ev = Eval::new();
    let a = ev.exprs.add(Expr::Str(vec![rnix::expr::StrPart::Lit("abc".to_string())]), sp());
    let b = ev.exprs.add(Expr::Str(vec![rnix::expr::StrPart::Lit("abd".to_string())]), sp());
    let e = bin(&mut ev, BinaryOp::Le, a, b);
    expect_bool(&mut ev, e, true);
}

#[test]
fn update_is_right_biased() {
    // { a = 1; b = 2; } // { b = 3; c = 4; }
    let mut ev = Eval::new();
    let one = lit(&mut ev, 1);
    let two = lit(&mut ev, 2);
    let lhs = ev.exprs.add(
        Expr::AttrSet { recursive: false, binds: vec![plain_bind("a", one), plain_bind("b", two)] },
        sp(),
    );
    let three = lit(&mut ev, 3);
    let four = lit(&mut ev, 4);
    let rhs = ev.exprs.add(
        Expr::AttrSet {
            recursive: false,
            binds: vec![plain_bind("b", three), plain_bind("c", four)],
        },
        sp(),
    );
    let merged = bin(&mut ev, BinaryOp::Update, lhs, rhs);
    let m = match run(&mut ev, merged) {
        Ok(Value::AttrSet(m)) => m,
        other => panic!("expected a set, got {:?}", other),
    };
    for (name, want) in [("a", 1), ("b", 3), ("c", 4)] {
        match ev.force(m.get(name).unwrap(), 10_000) {
            Ok(Value::Int(n)) => assert_eq!(n, want, "attribute {}", name),
            other => panic!("expected {}, got {:?}", want, other),
        }
    }
}

#[test]
fn update_groups_either_way() {
    // (a // b) // c and a // (b // c) agree in keys and values.
    let mut ev = Eval::new();
    let mk = |ev: &mut Eval, pairs: &[(&str, i64)]| {
        let binds = pairs
            .iter()
            .map(|(k, v)| {
                let rhs = ev.exprs.add(Expr::Int(*v), sp());
                plain_bind(k, rhs)
            })
            .collect();
        ev.exprs.add(Expr::AttrSet { recursive: false, binds }, sp())
    };
    let a1 = mk(&mut ev, &[("x", 1), ("y", 1)]);
    let b1 = mk(&mut ev, &[("y", 2), ("z", 2)]);
    let c1 = mk(&mut ev, &[("z", 3)]);
    let left = {
        let ab = bin(&mut ev, BinaryOp::Update, a1, b1);
        bin(&mut ev, BinaryOp::Update, ab, c1)
    };
    let a2 = mk(&mut ev, &[("x", 1), ("y", 1)]);
    let b2 = mk(&mut ev, &[("y", 2), ("z", 2)]);
    let c2 = mk(&mut ev, &[("z", 3)]);
    let right = {
        let bc = bin(&mut ev, BinaryOp::Update, b2, c2);
        bin(&mut ev, BinaryOp::Update, a2, bc)
    };
    for e in [left, right] {
        let m = match run(&mut ev, e) {
            Ok(Value::AttrSet(m)) => m,
            other => panic!("expected a set, got {:?}", other),
        };
        for (name, want) in [("x", 1), ("y", 2), ("z", 3)] {
            match ev.force(m.get(name).unwrap(), 10_000) {
                Ok(Value::Int(n)) => assert_eq!(n, want, "attribute {}", name),
                other => panic!("expected {}, got {:?}", want, other),
            }
        }
    }
}

#[test]
fn concat_joins_lists() {
    let mut ev = Eval::new();
    let one = lit(&mut ev, 1);
    let two = lit(&mut ev, 2);
    let three = lit(&mut ev, 3);
    let l1 = ev.exprs.add(Expr::List(vec![one, two]), sp());
    let l2 = ev.exprs.add(Expr::List(vec![three]), sp());
    let cat = bin(&mut ev, BinaryOp::Concat, l1, l2);
    let items = match run(&mut ev, cat) {
        Ok(Value::List(items)) => items,
        other => panic!("expected a list, got {:?}", other),
    };
    assert_eq!(items.len(), 3);
    let expected: [i64; 3] = [1, 2, 3];
    for (i, want) in expected.iter().enumerate() {
        match ev.force(items[i], 10_000) {
            Ok(Value::Int(n)) => assert_eq!(n, *want),
            other => panic!("expected {}, got {:?}", want, other),
        }
    }
}

#[test]
fn equality_is_structural_and_reflexive() {
    let mut ev = Eval::new();
    // Scalars, strings, lists and sets each equal themselves...
    let one_a = lit(&mut ev, 1);
    let one_b = lit(&mut ev, 1);
    let eq1 = bin(&mut ev, BinaryOp::Eq, one_a, one_b);
    expect_bool(&mut ev, eq1, true);

    let s1 = ev.exprs.add(Expr::Str(vec![rnix::expr::StrPart::Lit("hey".to_string())]), sp());
    let s2 = ev.exprs.add(Expr::Str(vec![rnix::expr::StrPart::Lit("hey".to_string())]), sp());
    let eq2 = bin(&mut ev, BinaryOp::Eq, s1, s2);
    expect_bool(&mut ev, eq2, true);

    let a = lit(&mut ev, 1);
    let b = lit(&mut ev, 2);
    let la = ev.exprs.add(Expr::List(vec![a, b]), sp());
    let c = lit(&mut ev, 1);
    let d = lit(&mut ev, 2);
    let lb = ev.exprs.add(Expr::List(vec![c, d]), sp());
    let eq3 = bin(&mut ev, BinaryOp::Eq, la, lb);
    expect_bool(&mut ev, eq3, true);

    let x1 = lit(&mut ev, 5);
    let set1 = ev.exprs.add(
        Expr::AttrSet { recursive: false, binds: vec![plain_bind("k", x1)] },
        sp(),
    );
    let x2 = lit(&mut ev, 5);
    let set2 = ev.exprs.add(
        Expr::AttrSet { recursive: false, binds: vec![plain_bind("k", x2)] },
        sp(),
    );
    let eq4 = bin(&mut ev, BinaryOp::Eq, set1, set2);
    expect_bool(&mut ev, eq4, true);

    // ... while a lambda equals nothing, not even itself.
    let body = lit(&mut ev, 1);
    let lam = ev.exprs.add(
        Expr::Lambda { param: rnix::expr::LambdaParam::Plain("x".to_string()), body },
        sp(),
    );
    let eq5 = bin(&mut ev, BinaryOp::Eq, lam, lam);
    expect_bool(&mut ev, eq5, false);

    // Mixed tags differ; negation flips it.
    let n1 = lit(&mut ev, 1);
    let t = ev.exprs.add(Expr::Bool(true), sp());
    let eq6 = bin(&mut ev, BinaryOp::Neq, n1, t);
    expect_bool(&mut ev, eq6, true);
}

#[test]
fn implication_matches_its_table() {
    let mut ev = Eval::new();
    let cases: [(bool, bool, bool); 4] = [
        (false, false, true),
        (false, true, true),
        (true, false, false),
        (true, true, true),
    ];
    for (a, b, want) in cases {
        let l = ev.exprs.add(Expr::Bool(a), sp());
        let r = ev.exprs.add(Expr::Bool(b), sp());
        let e = bin(&mut ev, BinaryOp::Impl, l, r);
        expect_bool(&mut ev, e, want);
    }
}

#[test]
fn boolean_operators_require_a_boolean_right_side() {
    // When the left side does not decide, the right side must be a boolean:
    // false || 1 and true && 1 are type errors, not the raw right value.
    let mut ev = Eval::new();
    let f = ev.exprs.add(Expr::Bool(false), sp());
    let one = lit(&mut ev, 1);
    let or = bin(&mut ev, BinaryOp::Or, f, one);
    match run(&mut ev, or) {
        Err(e) => assert!(matches!(e.kind, ErrorKind::TypeError { .. })),
        other => panic!("expected a type error, got {:?}", other),
    }
    let t = ev.exprs.add(Expr::Bool(true), sp());
    let one = lit(&mut ev, 1);
    let and = bin(&mut ev, BinaryOp::And, t, one);
    match run(&mut ev, and) {
        Err(e) => assert!(matches!(e.kind, ErrorKind::TypeError { .. })),
        other => panic!("expected a type error, got {:?}", other),
    }
    let f2 = ev.exprs.add(Expr::Bool(false), sp());
    let one = lit(&mut ev, 1);
    let imp = bin(&mut ev, BinaryOp::Impl, f2, one);
    expect_bool(&mut ev, imp, true);
}
