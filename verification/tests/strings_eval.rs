use rnix::ctx::Context;
use rnix::error::ErrorKind;
use rnix::eval::Eval;
use rnix::expr::{Expr, Span, StrPart};
use rnix::strings::{concat_strings_sep, prim_to_string, substring};
use rnix::thunk::Thunk;
use rnix::value::{CoerceOpts, PathSet, Value};

fn sp() -> Span {
    Span { file: 0, lo: 0, hi: 0 }
}

fn run(ev: &mut Eval, e: usize) -> Result<Value, rnix::error::Error> {
    let t = ev.add_thunk(Thunk::thunk(e, Context::new()));
    ev.force(t, 10_000)
}

fn str_value(ev: &mut Eval, s: &str) -> usize {
    ev.new_value(Value::Str { string: s.to_string(), context: PathSet::new() })
}

#[test]
fn template_interpolates_to_string() {
    // "a${toString 1}b"
    let mut ev = Eval::new();
    ev.install_builtins();
    let f = ev.exprs.add(Expr::Var("toString".to_string()), sp());
    let one = ev.exprs.add(Expr::Int(1), sp());
    let call = ev.exprs.add(Expr::Apply { func: f, arg: one }, sp());
    let tpl = ev.exprs.add(
        Expr::Str(vec![
            StrPart::Lit("a".to_string()),
            StrPart::Interp(call),
            StrPart::Lit("b".to_string()),
        ]),
        sp(),
    );
    match run(&mut ev, tpl) {
        Ok(Value::Str { string, context }) => {
            assert_eq!(string, "a1b");
            assert!(context.items().is_empty());
        }
        other => panic!("expected a string, got {:?}", other),
    }
}

#[test]
fn substring_takes_the_middle() {
    // builtins.substring 1 2 "hello"
    let mut ev = Eval::new();
    let start = ev.new_value(Value::Int(1));
    let len = ev.new_value(Value::Int(2));
    let s = str_value(&mut ev, "hello");
    match substring(&mut ev, start, len, s, 10_000) {
        Ok(Value::Str { string, .. }) => assert_eq!(string, "el"),
        other => panic!("expected a string, got {:?}", other),
    }
}

#[test]
fn substring_through_builtins_set() {
    // builtins.substring 1 2 "hello" through the scope
    let mut ev = Eval::new();
    ev.install_builtins();
    let builtins = ev.exprs.add(Expr::Var("builtins".to_string()), sp());
    let picked = ev.exprs.add(
        Expr::Select {
            base: builtins,
            path: vec![rnix::expr::AttrName::Plain("substring".to_string())],
            fallback: None,
        },
        sp(),
    );
    let one = ev.exprs.add(Expr::Int(1), sp());
    let two = ev.exprs.add(Expr::Int(2), sp());
    let hello = ev.exprs.add(Expr::Str(vec![StrPart::Lit("hello".to_string())]), sp());
    let c1 = ev.exprs.add(Expr::Apply { func: picked, arg: one }, sp());
    let c2 = ev.exprs.add(Expr::Apply { func: c1, arg: two }, sp());
    let c3 = ev.exprs.add(Expr::Apply { func: c2, arg: hello }, sp());
    match run(&mut ev, c3) {
        Ok(Value::Str { string, .. }) => assert_eq!(string, "el"),
        other => panic!("expected a string, got {:?}", other),
    }
}

#[test]
fn substring_clamps_to_the_text() {
    let mut ev = Eval::new();
    let start = ev.new_value(Value::Int(10));
    let len = ev.new_value(Value::Int(2));
    let s = str_value(&mut ev, "ab");
    match substring(&mut ev, start, len, s, 10_000) {
        Ok(Value::Str { string, .. }) => assert_eq!(string, ""),
        other => panic!("expected a string, got {:?}", other),
    }
    let start = ev.new_value(Value::Int(-1));
    let len = ev.new_value(Value::Int(2));
    let s = str_value(&mut ev, "ab");
    assert!(substring(&mut ev, start, len, s, 10_000).is_err());
}

#[test]
fn to_string_covers_the_extended_forms() {
    let mut ev = Eval::new();
    let t = ev.new_value(Value::Bool(true));
    match prim_to_string(&mut ev, t, 10_000) {
        Ok(Value::Str { string, .. }) => assert_eq!(string, "1"),
        other => panic!("expected a string, got {:?}", other),
    }
    let f = ev.new_value(Value::Bool(false));
    match prim_to_string(&mut ev, f, 10_000) {
        Ok(Value::Str { string, .. }) => assert_eq!(string, ""),
        other => panic!("expected a string, got {:?}", other),
    }
    let nl = ev.new_value(Value::Null);
    match prim_to_string(&mut ev, nl, 10_000) {
        Ok(Value::Str { string, .. }) => assert_eq!(string, ""),
        other => panic!("expected a string, got {:?}", other),
    }
    let a = ev.new_value(Value::Int(1));
    let b = ev.new_value(Value::Int(-2));
    let list = ev.new_value(Value::List(vec![a, b]));
    match prim_to_string(&mut ev, list, 10_000) {
        Ok(Value::Str { string, .. }) => assert_eq!(string, "1 -2"),
        other => panic!("expected a string, got {:?}", other),
    }
}

#[test]
fn plain_coercion_refuses_a_bool() {
    let mut ev = Eval::new();
    let t = ev.new_value(Value::Bool(true));
    let mut sctx = PathSet::new();
    let r = ev.coerce_to_string(t, &mut sctx, CoerceOpts::new().dont_copy(), 10_000);
    match r {
        Err(e) => assert!(matches!(e.kind, ErrorKind::CoerceError(_))),
        other => panic!("expected a coercion error, got {:?}", other),
    }
}

#[test]
fn coercion_accumulates_contexts() {
    let mut ev = Eval::new();
    let mut ctx1 = PathSet::new();
    ctx1.insert("/nix/store/aaa".to_string());
    let s1 = ev.new_value(Value::Str { string: "one".to_string(), context: ctx1 });
    let mut ctx2 = PathSet::new();
    ctx2.insert("/nix/store/bbb".to_string());
    let s2 = ev.new_value(Value::Str { string: "two".to_string(), context: ctx2 });
    let sep = ev.new_value(Value::Str { string: ", ".to_string(), context: PathSet::new() });
    let list = ev.new_value(Value::List(vec![s1, s2]));
    match concat_strings_sep(&mut ev, sep, list, 10_000) {
        Ok(Value::Str { string, context }) => {
            assert_eq!(string, "one, two");
            let mut paths: Vec<&String> = context.items().iter().collect();
            paths.sort();
            assert_eq!(paths.len(), 2);
            assert_eq!(paths[0], "/nix/store/aaa");
            assert_eq!(paths[1], "/nix/store/bbb");
        }
        other => panic!("expected a string, got {:?}", other),
    }
}

#[test]
fn empty_list_concatenates_to_nothing() {
    let mut ev = Eval::new();
    let sep = ev.new_value(Value::Str { string: ":".to_string(), context: PathSet::new() });
    let list = ev.new_value(Value::List(Vec::new()));
    match concat_strings_sep(&mut ev, sep, list, 10_000) {
        Ok(Value::Str { string, context }) => {
            assert_eq!(string, "");
            assert!(context.items().is_empty());
        }
        other => panic!("expected a string, got {:?}", other),
    }
}

#[test]
fn path_plus_clean_string_stays_a_path() {
    let mut ev = Eval::new();
    let p = ev.exprs.add(Expr::Path("/tank".to_string()), sp());
    let s = ev.exprs.add(Expr::Str(vec![StrPart::Lit("sub/dir".to_string())]), sp());
    let plus = ev.exprs.add(
        Expr::Binary { op: rnix::expr::BinaryOp::Add, lhs: p, rhs: s },
        sp(),
    );
    match run(&mut ev, plus) {
        Ok(Value::Path(p)) => assert_eq!(p, "/tank/sub/dir"),
        other => panic!("expected a path, got {:?}", other),
    }
}

#[test]
fn path_plus_store_string_is_refused() {
    let mut ev = Eval::new();
    let p = ev.exprs.add(Expr::Path("/tank".to_string()), sp());
    let mut sctx = PathSet::new();
    sctx.insert("/nix/store/ccc".to_string());
    let tainted = ev.new_value(Value::Str { string: "x".to_string(), context: sctx });
    let pt = ev.add_thunk(Thunk::thunk(p, Context::new()));
    match rnix::operators::concat_strings(&mut ev, pt, tainted, 10_000) {
        Err(e) => assert!(matches!(e.kind, ErrorKind::StringContextConflict)),
        other => panic!("expected a context conflict, got {:?}", other),
    }
}

#[test]
fn path_interpolation_needs_the_store() {
    // "${/tank}" asks for a store copy, which only a host can perform.
    let mut ev = Eval::new();
    let p = ev.exprs.add(Expr::Path("/tank".to_string()), sp());
    let tpl = ev.exprs.add(Expr::Str(vec![StrPart::Interp(p)]), sp());
    match run(&mut ev, tpl) {
        Err(e) => match e.kind {
            ErrorKind::StoreCopyRequired(path) => assert_eq!(path, "/tank"),
            other => panic!("expected a store-copy request, got {:?}", other),
        },
        other => panic!("expected an error, got {:?}", other),
    }
}

#[test]
fn throw_surfaces_its_message() {
    let mut ev = Eval::new();
    ev.install_builtins();
    let f = ev.exprs.add(Expr::Var("throw".to_string()), sp());
    let msg = ev.exprs.add(Expr::Str(vec![StrPart::Lit("bang".to_string())]), sp());
    let call = ev.exprs.add(Expr::Apply { func: f, arg: msg }, sp());
    match run(&mut ev, call) {
        Err(e) => match e.kind {
            ErrorKind::Throw(m) => assert_eq!(m, "bang"),
            other => panic!("expected a throw, got {:?}", other),
        },
        other => panic!("expected an error, got {:?}", other),
    }
}

#[test]
fn list_coercion_unions_element_contexts() {
    let mut ev = Eval::new();
    let mut c1 = PathSet::new();
    c1.insert("/store/a".to_string());
    let mut c2 = PathSet::new();
    c2.insert("/store/b".to_string());
    let s1 = ev.new_value(Value::Str { string: "x".to_string(), context: c1 });
    let s2 = ev.new_value(Value::Str { string: "y".to_string(), context: c2 });
    let list = ev.new_value(Value::List(vec![s1, s2]));
    let opts = CoerceOpts::new().dont_copy().extended();
    let (text, ctx) = ev.coerce_new_string(list, opts, 10_000).unwrap();
    assert_eq!(text, "x y");
    let items: Vec<String> = ctx.items().clone();
    assert!(items.contains(&"/store/a".to_string()));
    assert!(items.contains(&"/store/b".to_string()));
}

#[test]
fn coercion_covers_the_remaining_rows() {
    // Ints render in decimal with no context; a path demanding a store copy
    // is refused; a set without outPath fails even extended; a set with a
    // string outPath coerces to that string.
    let mut ev = Eval::new();
    let neg = ev.new_value(Value::Int(-42));
    let opts = CoerceOpts::new().dont_copy();
    let (text, ctx) = ev.coerce_new_string(neg, opts, 10_000).unwrap();
    assert_eq!(text, "-42");
    assert!(ctx.items().is_empty());

    let p = ev.new_value(Value::Path("/etc/hosts".to_string()));
    let copying = CoerceOpts::new();
    match ev.coerce_new_string(p, copying, 10_000) {
        Err(e) => assert!(matches!(e.kind, ErrorKind::StoreCopyRequired(_))),
        other => panic!("expected a store-copy error, got {:?}", other),
    }
    let (text, _) = ev.coerce_new_string(p, opts, 10_000).unwrap();
    assert_eq!(text, "/etc/hosts");

    let bare = ev.new_value(Value::AttrSet(rnix::attrs::AttrMap::new()));
    match ev.coerce_new_string(bare, opts.extended(), 10_000) {
        Err(e) => assert!(matches!(e.kind, ErrorKind::CoerceError(_))),
        other => panic!("expected a coerce error, got {:?}", other),
    }

    let out = str_value(&mut ev, "/store/drv");
    let mut m = rnix::attrs::AttrMap::new();
    m.insert("outPath".to_string(), out);
    let drv = ev.new_value(Value::AttrSet(m));
    let (text, _) = ev.coerce_new_string(drv, opts, 10_000).unwrap();
    assert_eq!(text, "/store/drv");
}

#[test]
fn coercion_reaches_nested_contexts() {
    // A list holding a nested list and an outPath set: every context at
    // every depth lands in the accumulated set.
    let mut ev = Eval::new();
    let mut c1 = PathSet::new();
    c1.insert("/store/deep".to_string());
    let deep = ev.new_value(Value::Str { string: "d".to_string(), context: c1 });
    let inner = ev.new_value(Value::List(vec![deep]));
    let mut c2 = PathSet::new();
    c2.insert("/store/out".to_string());
    let out = ev.new_value(Value::Str { string: "o".to_string(), context: c2 });
    let mut m = rnix::attrs::AttrMap::new();
    m.insert("outPath".to_string(), out);
    let drv = ev.new_value(Value::AttrSet(m));
    let top = ev.new_value(Value::List(vec![inner, drv]));
    let opts = CoerceOpts::new().dont_copy().extended();
    let (text, ctx) = ev.coerce_new_string(top, opts, 10_000).unwrap();
    assert_eq!(text, "d o");
    let items: Vec<String> = ctx.items().clone();
    assert!(items.contains(&"/store/deep".to_string()));
    assert!(items.contains(&"/store/out".to_string()));
}
