//! The operator semantics: boolean short-circuiting, arithmetic, structural
//! equality, ordering, set update and list concatenation. Integer arithmetic
//! wraps on overflow; the boolean connectives evaluate their right-hand side
//! only when the left decides nothing.

use crate::attrs::{attrs_bounded, ids_bounded, ThunkId};
use crate::ctx::{ctx_bounded, Context};
use crate::error::{Error, ErrorKind};
use crate::eval::Eval;
use crate::expr::{BinaryOp, Expr, ExprId, UnaryOp};
use crate::strutil::{seq_lt, str_lt};
use vstd::string::StrSliceExecFns;
use crate::thunk::{CellV, Thunk, ThunkV};
use crate::value::{CoerceOpts, PathSet, Value, ValueV};
use vstd::prelude::*;
use vstd::string::StringExecFns;

verus! {

/// Wrapped 64-bit subtraction, as the `-` operator computes it.
pub open spec fn sub_wrap(a: i64, b: i64) -> i64 {
    vstd::wrapping::i64_specs::wrapping_sub(a, b)
}

/// Wrapped 64-bit addition, as the `+` operator computes it.
pub open spec fn add_wrap(a: i64, b: i64) -> i64 {
    vstd::wrapping::i64_specs::wrapping_add(a, b)
}

/// Wrapped 64-bit multiplication, as the `*` operator computes it.
pub open spec fn mul_wrap(a: i64, b: i64) -> i64 {
    vstd::wrapping::i64_specs::wrapping_mul(a, b)
}

/// Subtraction on forced operands: defined exactly on two integers — their
/// wrapped difference — and an error on everything else.
pub fn do_sub(lhs: &Value, rhs: &Value) -> (r: Result<Value, Error>)
    ensures
        match (lhs@, rhs@) {
            (ValueV::Int(a), ValueV::Int(b)) => r matches Ok(v) && v@ == ValueV::Int(
                sub_wrap(a, b),
            ),
            _ => r is Err,
        },
{
    match (lhs, rhs) {
        (Value::Int(a), Value::Int(b)) => Ok(Value::Int(a.wrapping_sub(*b))),
        (Value::Int(_), v) => Err(
            Error::new(
                ErrorKind::TypeError {
                    expected: String::from_str("int"),
                    got: String::from_str(v.typename()),
                },
            ),
        ),
        (v, _) => Err(
            Error::new(
                ErrorKind::TypeError {
                    expected: String::from_str("int"),
                    got: String::from_str(v.typename()),
                },
            ),
        ),
    }
}

/// The `<` ordering on forced operands: integers by value, strings and
/// paths lexicographically by their text; any other pairing is an error.
pub fn less_than(lhs: &Value, rhs: &Value) -> (r: Result<bool, Error>)
    ensures
        match (lhs@, rhs@) {
            (ValueV::Int(a), ValueV::Int(b)) => r == Ok::<bool, Error>(a < b),
            (ValueV::Str { string: s1, .. }, ValueV::Str { string: s2, .. }) => r == Ok::<
                bool,
                Error,
            >(seq_lt(s1, s2)),
            (ValueV::Path(p1), ValueV::Path(p2)) => r == Ok::<bool, Error>(seq_lt(p1, p2)),
            _ => r is Err,
        },
{
    match (lhs, rhs) {
        (Value::Int(a), Value::Int(b)) => Ok(*a < *b),
        (Value::Str { string: s1, .. }, Value::Str { string: s2, .. }) => Ok(
            str_lt(s1.as_str(), s2.as_str()),
        ),
        (Value::Path(p1), Value::Path(p2)) => Ok(str_lt(p1.as_str(), p2.as_str())),
        (v1, v2) => Err(
            Error::new(
                ErrorKind::TypeError {
                    expected: String::from_str("two comparable values"),
                    got: String::from_str(v2.typename()),
                },
            ),
        ),
    }
}

/// The text a string appends to a path: a leading separator is dropped,
/// and one separator joins the pieces unless the path already ends in one.
pub open spec fn path_join(p: Seq<char>, s: Seq<char>) -> Seq<char> {
    let tail = if s.len() > 0 && s[0] == '/' {
        s.subrange(1, s.len() as int)
    } else {
        s
    };
    if p.len() > 0 && p[p.len() - 1] == '/' {
        p + tail
    } else {
        p + seq!['/'] + tail
    }
}

/// Joins a path and a relative piece of text.
pub fn join_paths(p: &String, s: &String) -> (r: String)
    ensures
        r@ == path_join(p@, s@),
{
    let slen: usize = s.as_str().unicode_len();
    let tail = if slen > 0 && s.as_str().get_char(0) == '/' {
        s.as_str().substring_char(1, slen)
    } else {
        s.as_str()
    };
    let plen: usize = p.as_str().unicode_len();
    let mut out = String::new();
    out.append(p.as_str());
    if !(plen > 0 && p.as_str().get_char(plen - 1) == '/') {
        out.append("/");
        proof {
            reveal_strlit("/");
        }
    }
    out.append(tail);
    proof {
        assert(out@ =~= path_join(p@, s@));
    }
    out
}


/// Whether the whole value graph under thunk `t` is forced within `fuel`
/// levels: the thunk holds a value, and every thunk a list element or
/// attribute references is forced in turn.
pub open spec fn deep_forced(tv: Seq<ThunkV>, t: int, fuel: nat) -> bool
    decreases fuel,
{
    if fuel == 0 {
        false
    } else {
        &&& 0 <= t < tv.len()
        &&& match tv[t] {
            ThunkV::Done(v) => match v {
                ValueV::Int(_) => true,
                ValueV::Bool(_) => true,
                ValueV::Null => true,
                ValueV::Str { .. } => true,
                ValueV::Path(_) => true,
                ValueV::List(items) => forall|i: int|
                    0 <= i < items.len() ==> deep_forced(
                        tv,
                        #[trigger] items[i] as int,
                        (fuel - 1) as nat,
                    ),
                ValueV::AttrSet(m) => forall|k: Seq<char>|
                    m.contains_key(k) ==> deep_forced(tv, #[trigger] m[k] as int, (fuel - 1) as nat),
                ValueV::Lambda { .. } => true,
                ValueV::Primop { .. } => true,
                ValueV::Ref(_) => false,
            },
            ThunkV::Cell(_) => false,
        }
    }
}

/// Whether the value graph under thunk `t` holds no lambda and no primop
/// anywhere, within `fuel` levels.
pub open spec fn fn_free(tv: Seq<ThunkV>, t: int, fuel: nat) -> bool
    decreases fuel,
{
    if fuel == 0 {
        false
    } else {
        &&& 0 <= t < tv.len()
        &&& match tv[t] {
            ThunkV::Done(v) => match v {
                ValueV::Int(_) => true,
                ValueV::Bool(_) => true,
                ValueV::Null => true,
                ValueV::Str { .. } => true,
                ValueV::Path(_) => true,
                ValueV::List(items) => forall|i: int|
                    0 <= i < items.len() ==> fn_free(
                        tv,
                        #[trigger] items[i] as int,
                        (fuel - 1) as nat,
                    ),
                ValueV::AttrSet(m) => forall|k: Seq<char>|
                    m.contains_key(k) ==> fn_free(tv, #[trigger] m[k] as int, (fuel - 1) as nat),
                ValueV::Lambda { .. } => false,
                ValueV::Primop { .. } => false,
                ValueV::Ref(_) => false,
            },
            ThunkV::Cell(_) => false,
        }
    }
}

/// Structural equality of two forced thunks, as the `==` operator decides
/// it: numbers, booleans and null by value, strings and paths by text,
/// lists by length and pointwise equality, sets through `outPath` when
/// both carry one and otherwise by key set and pointwise equality;
/// functions, unforced thunks and mixed types are never equal.
pub open spec fn spec_eq(tv: Seq<ThunkV>, t1: int, t2: int, fuel: nat) -> bool
    decreases fuel,
{
    if fuel == 0 || !(0 <= t1 < tv.len()) || !(0 <= t2 < tv.len()) {
        false
    } else {
        match (tv[t1], tv[t2]) {
            (ThunkV::Done(v1), ThunkV::Done(v2)) => match (v1, v2) {
                (ValueV::Int(a), ValueV::Int(b)) => a == b,
                (ValueV::Bool(a), ValueV::Bool(b)) => a == b,
                (ValueV::Null, ValueV::Null) => true,
                (ValueV::Str { string: s1, .. }, ValueV::Str { string: s2, .. }) => s1 == s2,
                (ValueV::Path(p1), ValueV::Path(p2)) => p1 == p2,
                (ValueV::List(l1), ValueV::List(l2)) => l1.len() == l2.len() && forall|i: int|
                    0 <= i < l1.len() ==> spec_eq(
                        tv,
                        #[trigger] l1[i] as int,
                        l2[i] as int,
                        (fuel - 1) as nat,
                    ),
                (ValueV::AttrSet(m1), ValueV::AttrSet(m2)) => {
                    if m1.contains_key("outPath"@) && m2.contains_key("outPath"@) {
                        spec_eq(
                            tv,
                            m1["outPath"@] as int,
                            m2["outPath"@] as int,
                            (fuel - 1) as nat,
                        )
                    } else {
                        m1.dom() == m2.dom() && forall|k: Seq<char>|
                            m1.contains_key(k) ==> spec_eq(
                                tv,
                                #[trigger] m1[k] as int,
                                m2[k] as int,
                                (fuel - 1) as nat,
                            )
                    }
                },
                _ => false,
            },
            _ => false,
        }
    }
}

/// Equality is reflexive on every forced value free of functions: a value
/// that contains no lambda and no primop equals itself under the `==`
/// operator's structural rules.
pub proof fn lemma_spec_eq_refl(tv: Seq<ThunkV>, t: int, fuel: nat)
    requires
        deep_forced(tv, t, fuel),
        fn_free(tv, t, fuel),
    ensures
        spec_eq(tv, t, t, fuel),
    decreases fuel,
{
    match tv[t] {
        ThunkV::Done(v) => match v {
            ValueV::List(items) => {
                assert forall|i: int| 0 <= i < items.len() implies spec_eq(
                    tv,
                    #[trigger] items[i] as int,
                    items[i] as int,
                    (fuel - 1) as nat,
                ) by {
                    assert(deep_forced(tv, items[i] as int, (fuel - 1) as nat));
                    assert(fn_free(tv, items[i] as int, (fuel - 1) as nat));
                    lemma_spec_eq_refl(tv, items[i] as int, (fuel - 1) as nat);
                }
            },
            ValueV::AttrSet(m) => {
                if m.contains_key("outPath"@) {
                    assert(deep_forced(tv, m["outPath"@] as int, (fuel - 1) as nat));
                    assert(fn_free(tv, m["outPath"@] as int, (fuel - 1) as nat));
                    lemma_spec_eq_refl(tv, m["outPath"@] as int, (fuel - 1) as nat);
                } else {
                    assert forall|k: Seq<char>| m.contains_key(k) implies spec_eq(
                        tv,
                        #[trigger] m[k] as int,
                        m[k] as int,
                        (fuel - 1) as nat,
                    ) by {
                        assert(deep_forced(tv, m[k] as int, (fuel - 1) as nat));
                        assert(fn_free(tv, m[k] as int, (fuel - 1) as nat));
                        lemma_spec_eq_refl(tv, m[k] as int, (fuel - 1) as nat);
                    }
                }
            },
            _ => {},
        },
        ThunkV::Cell(_) => {},
    }
}

/// The `//` operator on forced operands: two attribute sets merge into a
/// fresh right-biased union — keys come from both, a key bound on the
/// right wins — and anything else is an error. Neither operand's map is
/// changed and no attribute is forced.
pub fn update_sets(lhs: Value, rhs: Value) -> (r: Result<Value, Error>)
    requires
        crate::value::value_rep_wf(lhs),
        crate::value::value_rep_wf(rhs),
    ensures
        match (lhs@, rhs@) {
            (ValueV::AttrSet(a), ValueV::AttrSet(b)) => r matches Ok(v) && v@ == ValueV::AttrSet(
                a.union_prefer_right(b),
            ) && crate::value::value_rep_wf(v),
            _ => r is Err,
        },
{
    let ghost lvv = lhs@;
    let ghost rvv = rhs@;
    match (lhs, rhs) {
        (Value::AttrSet(a1), Value::AttrSet(a2)) => {
            proof {
                assert(lvv == ValueV::AttrSet(a1@));
                assert(rvv == ValueV::AttrSet(a2@));
            }
            let merged = a1.update(&a2);
            Ok(Value::AttrSet(merged))
        },
        (Value::AttrSet(_), v) => Err(
            Error::new(
                ErrorKind::TypeError {
                    expected: String::from_str("set"),
                    got: String::from_str(v.typename()),
                },
            ),
        ),
        (v, _) => Err(
            Error::new(
                ErrorKind::TypeError {
                    expected: String::from_str("set"),
                    got: String::from_str(v.typename()),
                },
            ),
        ),
    }
}

/// The `++` operator on forced operands: two lists concatenate into a
/// fresh list holding the same element thunks in order — no element is
/// forced — and anything else is an error.
pub fn concat_lists(lhs: Value, rhs: Value) -> (r: Result<Value, Error>)
    ensures
        match (lhs@, rhs@) {
            (ValueV::List(l1), ValueV::List(l2)) => r matches Ok(v) && v@ == ValueV::List(l1 + l2),
            _ => r is Err,
        },
{
    let ghost lvv = lhs@;
    let ghost rvv = rhs@;
    match (lhs, rhs) {
        (Value::List(l1), Value::List(l2)) => {
            proof {
                assert(lvv == ValueV::List(l1@));
                assert(rvv == ValueV::List(l2@));
            }
            let mut out = crate::value::clone_ids(&l1);
            let mut more = crate::value::clone_ids(&l2);
            out.append(&mut more);
            proof {
                assert(out@ == l1@ + l2@);
            }
            Ok(Value::List(out))
        },
        (Value::List(_), v) => Err(
            Error::new(
                ErrorKind::TypeError {
                    expected: String::from_str("list"),
                    got: String::from_str(v.typename()),
                },
            ),
        ),
        (v, _) => Err(
            Error::new(
                ErrorKind::TypeError {
                    expected: String::from_str("list"),
                    got: String::from_str(v.typename()),
                },
            ),
        ),
    }
}

/// Structural equality of two thunks' values, forcing as it goes: numbers,
/// booleans and null by value, strings by text (contexts ignored), paths by
/// text, lists by length and pointwise equality, sets by `outPath` identity
/// when both carry one and otherwise by key set and pointwise equality;
/// functions equal nothing, including themselves.
///
/// On a fully forced pair of graphs the call changes nothing and returns
/// exactly the structural equality [`spec_eq`]; with [`lemma_spec_eq_refl`]
/// that makes `v == v` hold for every forced, function-free value.
pub fn eval_eq(ev: &mut Eval, lhs: ThunkId, rhs: ThunkId, fuel: u64) -> (r: Result<bool, Error>)
    requires
        old(ev).wf(),
        lhs < old(ev).nthunks(),
        rhs < old(ev).nthunks(),
    ensures
        final(ev).wf(),
        Eval::evolves(*old(ev), *final(ev)),
        deep_forced(old(ev).tv(), lhs as int, fuel as nat) && deep_forced(
            old(ev).tv(),
            rhs as int,
            fuel as nat,
        ) ==> *final(ev) == *old(ev) && r == Ok::<bool, Error>(
            spec_eq(old(ev).tv(), lhs as int, rhs as int, fuel as nat),
        ),
    decreases fuel,
{
    let ghost tvold = old(ev).tv();
    let ghost hyp = deep_forced(tvold, lhs as int, fuel as nat) && deep_forced(
        tvold,
        rhs as int,
        fuel as nat,
    );
    if fuel == 0 {
        return Err(Error::new(ErrorKind::RecursionLimit));
    }
    let ghost s0 = *ev;
    let lv = match ev.force(lhs, fuel - 1) {
        Ok(v) => v,
        Err(err) => {
            return Err(err);
        },
    };
    let ghost pre = *ev;
    let rv = match ev.force(rhs, fuel - 1) {
        Ok(v) => v,
        Err(err) => {
            proof {
                Eval::lemma_evolves_trans(s0, pre, *ev);
            }
            return Err(err);
        },
    };
    proof {
        Eval::lemma_evolves_trans(s0, pre, *ev);
        if hyp {
            assert(tvold[lhs as int] == ThunkV::Done(lv@));
            assert(tvold[rhs as int] == ThunkV::Done(rv@));
            assert(*ev == *old(ev));
        }
    }
    let ghost lvv = lv@;
    let ghost rvv = rv@;
    match (lv, rv) {
        (Value::Int(a), Value::Int(b)) => Ok(a == b),
        (Value::Bool(a), Value::Bool(b)) => Ok(a == b),
        (Value::Null, Value::Null) => Ok(true),
        (Value::Str { string: s1, .. }, Value::Str { string: s2, .. }) => Ok(
            crate::strutil::str_eq(s1.as_str(), s2.as_str()),
        ),
        (Value::Path(p1), Value::Path(p2)) => Ok(
            crate::strutil::str_eq(p1.as_str(), p2.as_str()),
        ),
        (Value::List(l1), Value::List(l2)) => {
            proof {
                assert(lvv == ValueV::List(l1@));
                assert(rvv == ValueV::List(l2@));
                assert(ids_bounded(l1@, ev.nthunks()));
                assert(ids_bounded(l2@, ev.nthunks()));
            }
            if l1.len() != l2.len() {
                return Ok(false);
            }
            let n = l1.len();
            let mut i: usize = 0;
            while i < n
                invariant
                    i <= n,
                    n == l1@.len(),
                    n == l2@.len(),
                    fuel >= 1,
                    lhs < old(ev).nthunks(),
                    rhs < old(ev).nthunks(),
                    tvold == old(ev).tv(),
                    hyp == (deep_forced(tvold, lhs as int, fuel as nat) && deep_forced(
                        tvold,
                        rhs as int,
                        fuel as nat,
                    )),
                    hyp ==> *ev == *old(ev) && tvold[lhs as int] == ThunkV::Done(
                        ValueV::List(l1@),
                    ) && tvold[rhs as int] == ThunkV::Done(ValueV::List(l2@)),
                    hyp ==> forall|j: int|
                        0 <= j < i ==> spec_eq(
                            tvold,
                            #[trigger] l1@[j] as int,
                            l2@[j] as int,
                            (fuel - 1) as nat,
                        ),
                    ev.wf(),
                    Eval::evolves(*old(ev), *ev),
                    ids_bounded(l1@, ev.nthunks()),
                    ids_bounded(l2@, ev.nthunks()),
                decreases n - i,
            {
                proof {
                    if hyp {
                        assert(deep_forced(tvold, l1@[i as int] as int, (fuel - 1) as nat));
                        assert(deep_forced(tvold, l2@[i as int] as int, (fuel - 1) as nat));
                    }
                }
                let ghost pre2 = *ev;
                let same = match eval_eq(ev, l1[i], l2[i], fuel - 1) {
                    Ok(b) => b,
                    Err(err) => {
                        proof {
                            Eval::lemma_evolves_trans(*old(ev), pre2, *ev);
                        }
                        return Err(err);
                    },
                };
                proof {
                    Eval::lemma_evolves_trans(*old(ev), pre2, *ev);
                    crate::attrs::lemma_ids_bounded_mono(l1@, pre2.nthunks(), ev.nthunks());
                    crate::attrs::lemma_ids_bounded_mono(l2@, pre2.nthunks(), ev.nthunks());
                }
                if !same {
                    proof {
                        if hyp {
                            assert(!spec_eq(tvold, l1@[i as int] as int, l2@[i as int] as int, (
                            fuel - 1) as nat));
                            assert(!spec_eq(tvold, lhs as int, rhs as int, fuel as nat));
                        }
                    }
                    return Ok(false);
                }
                i = i + 1;
            }
            proof {
                if hyp {
                    assert(spec_eq(tvold, lhs as int, rhs as int, fuel as nat));
                }
            }
            Ok(true)
        },
        (Value::AttrSet(a1), Value::AttrSet(a2)) => {
            proof {
                assert(lvv == ValueV::AttrSet(a1@));
                assert(rvv == ValueV::AttrSet(a2@));
                assert(attrs_bounded(a1@, ev.nthunks()));
                assert(attrs_bounded(a2@, ev.nthunks()));
            }
            // Two derivations compare by their store paths alone.
            let o1 = a1.get("outPath");
            let o2 = a2.get("outPath");
            if let (Some(t1), Some(t2)) = (o1, o2) {
                proof {
                    assert(a1@[("outPath")@] < ev.nthunks());
                    assert(a2@[("outPath")@] < ev.nthunks());
                    if hyp {
                        assert(deep_forced(tvold, t1 as int, (fuel - 1) as nat));
                        assert(deep_forced(tvold, t2 as int, (fuel - 1) as nat));
                    }
                }
                let ghost pre2 = *ev;
                let rr = eval_eq(ev, t1, t2, fuel - 1);
                proof {
                    Eval::lemma_evolves_trans(*old(ev), pre2, *ev);
                    if hyp {
                        assert(spec_eq(tvold, lhs as int, rhs as int, fuel as nat) == spec_eq(
                            tvold,
                            t1 as int,
                            t2 as int,
                            (fuel - 1) as nat,
                        ));
                    }
                }
                return rr;
            }
            if !a1.same_keys(&a2) {
                proof {
                    if hyp {
                        assert(!spec_eq(tvold, lhs as int, rhs as int, fuel as nat));
                    }
                }
                return Ok(false);
            }
            let n = a1.len();
            let mut i: usize = 0;
            while i < n
                invariant
                    i <= n,
                    n == a1@.dom().len(),
                    fuel >= 1,
                    lhs < old(ev).nthunks(),
                    rhs < old(ev).nthunks(),
                    tvold == old(ev).tv(),
                    hyp == (deep_forced(tvold, lhs as int, fuel as nat) && deep_forced(
                        tvold,
                        rhs as int,
                        fuel as nat,
                    )),
                    hyp ==> *ev == *old(ev) && tvold[lhs as int] == ThunkV::Done(
                        ValueV::AttrSet(a1@),
                    ) && tvold[rhs as int] == ThunkV::Done(ValueV::AttrSet(a2@)),
                    !(a1@.contains_key(("outPath")@) && a2@.contains_key(("outPath")@)),
                    hyp ==> forall|j: int|
                        0 <= j < i ==> spec_eq(
                            tvold,
                            a1@[#[trigger] a1.keys_seq()[j]] as int,
                            a2@[a1.keys_seq()[j]] as int,
                            (fuel - 1) as nat,
                        ),
                    ev.wf(),
                    Eval::evolves(*old(ev), *ev),
                    a1.wf(),
                    a2.wf(),
                    a1@.dom() == a2@.dom(),
                    attrs_bounded(a1@, ev.nthunks()),
                    attrs_bounded(a2@, ev.nthunks()),
                decreases n - i,
            {
                let (key, t1) = a1.entry_at(i);
                let t2 = match a2.get(key.as_str()) {
                    Some(t2) => t2,
                    None => {
                        proof {
                            assert(a2@.dom().contains(key@));
                            assert(false);
                        }
                        return Ok(false);
                    },
                };
                proof {
                    assert(a1@[key@] < ev.nthunks());
                    assert(a2@[key@] < ev.nthunks());
                    if hyp {
                        assert(deep_forced(tvold, t1 as int, (fuel - 1) as nat));
                        assert(deep_forced(tvold, t2 as int, (fuel - 1) as nat));
                    }
                }
                let ghost pre2 = *ev;
                let same = match eval_eq(ev, t1, t2, fuel - 1) {
                    Ok(b) => b,
                    Err(err) => {
                        proof {
                            Eval::lemma_evolves_trans(*old(ev), pre2, *ev);
                        }
                        return Err(err);
                    },
                };
                proof {
                    Eval::lemma_evolves_trans(*old(ev), pre2, *ev);
                    crate::attrs::lemma_attrs_bounded_mono(a1@, pre2.nthunks(), ev.nthunks());
                    crate::attrs::lemma_attrs_bounded_mono(a2@, pre2.nthunks(), ev.nthunks());
                }
                if !same {
                    proof {
                        if hyp {
                            assert(!spec_eq(tvold, a1@[key@] as int, a2@[key@] as int, (fuel
                                - 1) as nat));
                            assert(!spec_eq(tvold, lhs as int, rhs as int, fuel as nat));
                        }
                    }
                    return Ok(false);
                }
                i = i + 1;
            }
            proof {
                if hyp {
                    a1.lemma_keys_cover();
                    assert forall|k: Seq<char>| a1@.contains_key(k) implies spec_eq(
                        tvold,
                        #[trigger] a1@[k] as int,
                        a2@[k] as int,
                        (fuel - 1) as nat,
                    ) by {
                        let j = choose|j: int|
                            0 <= j < a1.keys_seq().len() && #[trigger] a1.keys_seq()[j] == k;
                        assert(spec_eq(
                            tvold,
                            a1@[a1.keys_seq()[j]] as int,
                            a2@[a1.keys_seq()[j]] as int,
                            (fuel - 1) as nat,
                        ));
                    }
                    assert(spec_eq(tvold, lhs as int, rhs as int, fuel as nat));
                }
            }
            Ok(true)
        },
        (Value::Lambda { .. }, _) => Ok(false),
        (Value::Primop(_), _) => Ok(false),
        (_, Value::Lambda { .. }) => Ok(false),
        (_, Value::Primop(_)) => Ok(false),
        (x, y) => {
            let _ = x;
            let _ = y;
            Ok(false)
        },
    }
}

/// Addition, dispatched on the forced left operand: two integers add with
/// wrapping; a path joins the right operand's text — unless that text
/// carries store references — and everything else is string concatenation
/// with the contexts unioned. On forced operands the result is pinned:
/// wrapped sum, joined path, or the concatenated texts.
fn plus_operator(ev: &mut Eval, lhs: ThunkId, rhs: ThunkId, fuel: u64) -> (r: Result<Value, Error>)
    requires
        old(ev).wf(),
        lhs < old(ev).nthunks(),
        rhs < old(ev).nthunks(),
    ensures
        final(ev).wf(),
        Eval::evolves(*old(ev), *final(ev)),
        match r {
            Ok(v) => final(ev).value_ok(v),
            Err(_) => true,
        },
        fuel >= 1 ==> match (old(ev).tv()[lhs as int], old(ev).tv()[rhs as int]) {
            (ThunkV::Done(ValueV::Int(a)), ThunkV::Done(ValueV::Int(b))) => r matches Ok(v) && v@
                == ValueV::Int(add_wrap(a, b)),
            _ => true,
        },
        fuel >= 2 ==> match (old(ev).tv()[lhs as int], old(ev).tv()[rhs as int]) {
            (ThunkV::Done(ValueV::Path(p)), ThunkV::Done(ValueV::Path(q))) => r matches Ok(v)
                && v@ == ValueV::Path(path_join(p, q)),
            (
                ThunkV::Done(ValueV::Path(p)),
                ThunkV::Done(ValueV::Str { string: s, context: c }),
            ) => {
                if c == Set::<Seq<char>>::empty() {
                    r matches Ok(v) && v@ == ValueV::Path(path_join(p, s))
                } else {
                    r matches Err(e) && e.kind is StringContextConflict
                }
            },
            (
                ThunkV::Done(ValueV::Str { string: s1, context: c1 }),
                ThunkV::Done(ValueV::Str { string: s2, context: c2 }),
            ) => r matches Ok(v) && v@ == ValueV::Str {
                string: s1 + s2,
                context: Set::<Seq<char>>::empty().union(c1).union(c2),
            },
            _ => true,
        },
    decreases fuel,
{
    if fuel == 0 {
        return Err(Error::new(ErrorKind::RecursionLimit));
    }
    let ghost s0 = *ev;
    let lv = match ev.force(lhs, fuel - 1) {
        Ok(v) => v,
        Err(err) => {
            return Err(err);
        },
    };
    let ghost lv_view = lv@;
    match lv {
        Value::Int(a) => {
            let ghost pre = *ev;
            let rv = match ev.force(rhs, fuel - 1) {
                Ok(v) => v,
                Err(err) => {
                    proof {
                        Eval::lemma_evolves_trans(s0, pre, *ev);
                    }
                    return Err(err);
                },
            };
            proof {
                Eval::lemma_evolves_trans(s0, pre, *ev);
            }
            match rv {
                Value::Int(b) => Ok(Value::Int(a.wrapping_add(b))),
                other => Err(
                    Error::new(
                        ErrorKind::TypeError {
                            expected: String::from_str("int"),
                            got: String::from_str(other.typename()),
                        },
                    ),
                ),
            }
        },
        Value::Path(p) => {
            // A path absorbs the right operand's text; text carrying store
            // references may not be joined to a path.
            let ghost pre = *ev;
            let rv = match ev.force(rhs, fuel - 1) {
                Ok(v) => v,
                Err(err) => {
                    proof {
                        Eval::lemma_evolves_trans(s0, pre, *ev);
                    }
                    return Err(err);
                },
            };
            proof {
                Eval::lemma_evolves_trans(s0, pre, *ev);
            }
            match rv {
                Value::Str { string, context } => {
                    if context.is_empty() {
                        Ok(Value::Path(join_paths(&p, &string)))
                    } else {
                        Err(Error::new(ErrorKind::StringContextConflict))
                    }
                },
                Value::Path(p2) => Ok(Value::Path(join_paths(&p, &p2))),
                other => Err(
                    Error::new(
                        ErrorKind::TypeError {
                            expected: String::from_str("string"),
                            got: String::from_str(other.typename()),
                        },
                    ),
                ),
            }
        },
        lv => {
            // String concatenation; only a string left operand routes the
            // pieces through the store.
            let lhs_is_string = match &lv {
                Value::Str { .. } => true,
                _ => false,
            };
            let opts = if lhs_is_string {
                CoerceOpts::new()
            } else {
                CoerceOpts::new().dont_copy()
            };
            let ghost pre = *ev;
            let tl = ev.new_value(lv);
            proof {
                Eval::lemma_evolves_trans(s0, pre, *ev);
                assert(ev.tv()[tl as int] == ThunkV::Done(lv_view));
            }
            let mut sctx = PathSet::new();
            let mut out = String::new();
            let ghost pre2 = *ev;
            let s1 = match ev.coerce_to_string(tl, &mut sctx, opts, fuel - 1) {
                Ok(s) => s,
                Err(err) => {
                    proof {
                        Eval::lemma_evolves_trans(s0, pre2, *ev);
                    }
                    return Err(err);
                },
            };
            proof {
                Eval::lemma_evolves_trans(s0, pre2, *ev);
            }
            out.append(s1.as_str());
            let ghost pre3 = *ev;
            let s2 = match ev.coerce_to_string(rhs, &mut sctx, opts, fuel - 1) {
                Ok(s) => s,
                Err(err) => {
                    proof {
                        Eval::lemma_evolves_trans(s0, pre3, *ev);
                    }
                    return Err(err);
                },
            };
            proof {
                Eval::lemma_evolves_trans(s0, pre3, *ev);
            }
            out.append(s2.as_str());
            Ok(Value::Str { string: out, context: sctx })
        },
    }
}

/// String/path concatenation for `+` once numeric addition is ruled out:
/// two paths join, a path takes context-free text — text with store
/// references is the context-conflict error — and any other pair is
/// coerced to strings and concatenated with the contexts unioned.
pub fn concat_strings(ev: &mut Eval, lhs: ThunkId, rhs: ThunkId, fuel: u64) -> (r: Result<
    Value,
    Error,
>)
    requires
        old(ev).wf(),
        lhs < old(ev).nthunks(),
        rhs < old(ev).nthunks(),
    ensures
        final(ev).wf(),
        Eval::evolves(*old(ev), *final(ev)),
        match r {
            Ok(v) => final(ev).value_ok(v),
            Err(_) => true,
        },
        fuel >= 2 ==> match (old(ev).tv()[lhs as int], old(ev).tv()[rhs as int]) {
            (ThunkV::Done(ValueV::Path(p)), ThunkV::Done(ValueV::Path(q))) => r matches Ok(v)
                && v@ == ValueV::Path(path_join(p, q)),
            (
                ThunkV::Done(ValueV::Path(p)),
                ThunkV::Done(ValueV::Str { string: s, context: c }),
            ) => {
                if c == Set::<Seq<char>>::empty() {
                    r matches Ok(v) && v@ == ValueV::Path(path_join(p, s))
                } else {
                    r matches Err(e) && e.kind is StringContextConflict
                }
            },
            (
                ThunkV::Done(ValueV::Str { string: s1, context: c1 }),
                ThunkV::Done(ValueV::Str { string: s2, context: c2 }),
            ) => r matches Ok(v) && v@ == ValueV::Str {
                string: s1 + s2,
                context: Set::<Seq<char>>::empty().union(c1).union(c2),
            },
            _ => true,
        },
    decreases fuel,
{
    if fuel == 0 {
        return Err(Error::new(ErrorKind::RecursionLimit));
    }
    plus_operator(ev, lhs, rhs, fuel)
}

/// Evaluates one binary operation node; `&&`, `||` and `->` evaluate their
/// right-hand side only when the left has not already decided. On literal
/// operands the result is pinned: arithmetic wraps, division by zero is an
/// error, and the comparisons and connectives follow their tables.
pub fn eval_binary(
    ev: &mut Eval,
    op: BinaryOp,
    lhs: ExprId,
    rhs: ExprId,
    ctx: &Context,
    fuel: u64,
) -> (r: Result<Value, Error>)
    requires
        old(ev).wf(),
        lhs < old(ev).nexprs(),
        rhs < old(ev).nexprs(),
        ctx_bounded(ctx@, old(ev).nscopes()),
    ensures
        final(ev).wf(),
        Eval::evolves(*old(ev), *final(ev)),
        match r {
            Ok(v) => final(ev).value_ok(v),
            Err(_) => true,
        },
        fuel >= 5 ==> match (old(ev).exprs@[lhs as int], old(ev).exprs@[rhs as int]) {
            (Expr::Int(a), Expr::Int(b)) => match op {
                BinaryOp::Add => r matches Ok(v) && v@ == ValueV::Int(add_wrap(a, b)),
                BinaryOp::Sub => r matches Ok(v) && v@ == ValueV::Int(sub_wrap(a, b)),
                BinaryOp::Mul => r matches Ok(v) && v@ == ValueV::Int(mul_wrap(a, b)),
                BinaryOp::Div => {
                    if b == 0 {
                        r matches Err(e) && e.kind is DivideByZero
                    } else if a >= 0 && b > 0 {
                        r matches Ok(v) && v@ == ValueV::Int((a as int / b as int) as i64)
                    } else {
                        true
                    }
                },
                BinaryOp::Eq => r matches Ok(v) && v@ == ValueV::Bool(a == b),
                BinaryOp::Neq => r matches Ok(v) && v@ == ValueV::Bool(a != b),
                BinaryOp::Le => r matches Ok(v) && v@ == ValueV::Bool(a < b),
                BinaryOp::Leq => r matches Ok(v) && v@ == ValueV::Bool(a <= b),
                BinaryOp::Ge => r matches Ok(v) && v@ == ValueV::Bool(a > b),
                BinaryOp::Geq => r matches Ok(v) && v@ == ValueV::Bool(a >= b),
                _ => true,
            },
            (Expr::Bool(p), Expr::Bool(q)) => match op {
                BinaryOp::And => r matches Ok(v) && v@ == ValueV::Bool(p && q),
                BinaryOp::Or => r matches Ok(v) && v@ == ValueV::Bool(p || q),
                BinaryOp::Impl => r matches Ok(v) && v@ == ValueV::Bool(!p || q),
                _ => true,
            },
            _ => true,
        },
        (op is Or || op is And || op is Impl) && r is Ok ==> r->Ok_0@ is Bool,
        fuel >= 5 ==> match old(ev).exprs@[lhs as int] {
            Expr::Bool(p) => match op {
                BinaryOp::Or => (p ==> (r matches Ok(v) && v@ == ValueV::Bool(true))),
                BinaryOp::And => (!p ==> (r matches Ok(v) && v@ == ValueV::Bool(false))),
                BinaryOp::Impl => (!p ==> (r matches Ok(v) && v@ == ValueV::Bool(true))),
                _ => true,
            },
            _ => true,
        },
    decreases fuel,
{
    if fuel == 0 {
        return Err(Error::new(ErrorKind::RecursionLimit));
    }
    let ghost s0 = *ev;
    match op {
        BinaryOp::Or => {
            let b = match eval_bool_of(ev, lhs, ctx, fuel - 1) {
                Ok(b) => b,
                Err(err) => {
                    return Err(err);
                },
            };
            if b {
                Ok(Value::Bool(true))
            } else {
                let ghost pre = *ev;
                let b2 = match eval_bool_of(ev, rhs, ctx, fuel - 1) {
                    Ok(b2) => b2,
                    Err(err) => {
                        proof {
                            Eval::lemma_evolves_trans(s0, pre, *ev);
                        }
                        return Err(err);
                    },
                };
                proof {
                    Eval::lemma_evolves_trans(s0, pre, *ev);
                }
                Ok(Value::Bool(b2))
            }
        },
        BinaryOp::And => {
            let b = match eval_bool_of(ev, lhs, ctx, fuel - 1) {
                Ok(b) => b,
                Err(err) => {
                    return Err(err);
                },
            };
            if b {
                let ghost pre = *ev;
                let b2 = match eval_bool_of(ev, rhs, ctx, fuel - 1) {
                    Ok(b2) => b2,
                    Err(err) => {
                        proof {
                            Eval::lemma_evolves_trans(s0, pre, *ev);
                        }
                        return Err(err);
                    },
                };
                proof {
                    Eval::lemma_evolves_trans(s0, pre, *ev);
                }
                Ok(Value::Bool(b2))
            } else {
                Ok(Value::Bool(false))
            }
        },
        BinaryOp::Impl => {
            let b = match eval_bool_of(ev, lhs, ctx, fuel - 1) {
                Ok(b) => b,
                Err(err) => {
                    return Err(err);
                },
            };
            if !b {
                Ok(Value::Bool(true))
            } else {
                let ghost pre = *ev;
                let b2 = match eval_bool_of(ev, rhs, ctx, fuel - 1) {
                    Ok(b2) => b2,
                    Err(err) => {
                        proof {
                            Eval::lemma_evolves_trans(s0, pre, *ev);
                        }
                        return Err(err);
                    },
                };
                proof {
                    Eval::lemma_evolves_trans(s0, pre, *ev);
                }
                Ok(Value::Bool(b2))
            }
        },
        BinaryOp::Add => {
            let (tl, tr) = match force_pair_of(ev, lhs, rhs, ctx, fuel - 1) {
                Ok(p) => p,
                Err(err) => {
                    return Err(err);
                },
            };
            let ghost s2 = *ev;
            let rr = plus_operator(ev, tl, tr, fuel - 1);
            proof {
                Eval::lemma_evolves_trans(s0, s2, *ev);
            }
            rr
        },
        BinaryOp::Sub => {
            let (lv, rv) = match force_two(ev, lhs, rhs, ctx, fuel - 1) {
                Ok(p) => p,
                Err(err) => {
                    return Err(err);
                },
            };
            do_sub(&lv, &rv)
        },
        BinaryOp::Mul => {
            let (lv, rv) = match force_two(ev, lhs, rhs, ctx, fuel - 1) {
                Ok(p) => p,
                Err(err) => {
                    return Err(err);
                },
            };
            match (lv, rv) {
                (Value::Int(a), Value::Int(b)) => Ok(Value::Int(a.wrapping_mul(b))),
                (Value::Int(_), v) => Err(
                    Error::new(
                        ErrorKind::TypeError {
                            expected: String::from_str("int"),
                            got: String::from_str(v.typename()),
                        },
                    ),
                ),
                (v, _) => Err(
                    Error::new(
                        ErrorKind::TypeError {
                            expected: String::from_str("int"),
                            got: String::from_str(v.typename()),
                        },
                    ),
                ),
            }
        },
        BinaryOp::Div => {
            let (lv, rv) = match force_two(ev, lhs, rhs, ctx, fuel - 1) {
                Ok(p) => p,
                Err(err) => {
                    return Err(err);
                },
            };
            match (lv, rv) {
                (Value::Int(a), Value::Int(b)) => {
                    if b == 0 {
                        Err(Error::new(ErrorKind::DivideByZero))
                    } else if b == -1 {
                        // The one quotient that overflows wraps instead.
                        Ok(Value::Int(0i64.wrapping_sub(a)))
                    } else {
                        Ok(Value::Int(a / b))
                    }
                },
                (Value::Int(_), v) => Err(
                    Error::new(
                        ErrorKind::TypeError {
                            expected: String::from_str("int"),
                            got: String::from_str(v.typename()),
                        },
                    ),
                ),
                (v, _) => Err(
                    Error::new(
                        ErrorKind::TypeError {
                            expected: String::from_str("int"),
                            got: String::from_str(v.typename()),
                        },
                    ),
                ),
            }
        },
        BinaryOp::Eq => {
            let b = match eval_eq_of(ev, lhs, rhs, ctx, fuel - 1) {
                Ok(b) => b,
                Err(err) => {
                    return Err(err);
                },
            };
            Ok(Value::Bool(b))
        },
        BinaryOp::Neq => {
            let b = match eval_eq_of(ev, lhs, rhs, ctx, fuel - 1) {
                Ok(b) => b,
                Err(err) => {
                    return Err(err);
                },
            };
            Ok(Value::Bool(!b))
        },
        BinaryOp::Le => {
            let (lv, rv) = match force_two(ev, lhs, rhs, ctx, fuel - 1) {
                Ok(p) => p,
                Err(err) => {
                    return Err(err);
                },
            };
            match less_than(&lv, &rv) {
                Ok(b) => Ok(Value::Bool(b)),
                Err(err) => Err(err),
            }
        },
        BinaryOp::Leq => {
            let (lv, rv) = match force_two(ev, lhs, rhs, ctx, fuel - 1) {
                Ok(p) => p,
                Err(err) => {
                    return Err(err);
                },
            };
            match less_than(&rv, &lv) {
                Ok(b) => Ok(Value::Bool(!b)),
                Err(err) => Err(err),
            }
        },
        BinaryOp::Ge => {
            let (lv, rv) = match force_two(ev, lhs, rhs, ctx, fuel - 1) {
                Ok(p) => p,
                Err(err) => {
                    return Err(err);
                },
            };
            match less_than(&rv, &lv) {
                Ok(b) => Ok(Value::Bool(b)),
                Err(err) => Err(err),
            }
        },
        BinaryOp::Geq => {
            let (lv, rv) = match force_two(ev, lhs, rhs, ctx, fuel - 1) {
                Ok(p) => p,
                Err(err) => {
                    return Err(err);
                },
            };
            match less_than(&lv, &rv) {
                Ok(b) => Ok(Value::Bool(!b)),
                Err(err) => Err(err),
            }
        },
        BinaryOp::Update => {
            let (lv, rv) = match force_two(ev, lhs, rhs, ctx, fuel - 1) {
                Ok(p) => p,
                Err(err) => {
                    return Err(err);
                },
            };
            let ghost lvv = lv@;
            let ghost rvv = rv@;
            proof {
                if lvv is AttrSet && rvv is AttrSet {
                    assert(attrs_bounded(lvv->AttrSet_0, ev.nthunks()));
                    assert(attrs_bounded(rvv->AttrSet_0, ev.nthunks()));
                }
            }
            let out = update_sets(lv, rv);
            proof {
                if lvv is AttrSet && rvv is AttrSet {
                    let a1 = lvv->AttrSet_0;
                    let a2 = rvv->AttrSet_0;
                    assert forall|k: Seq<char>|
                        a1.union_prefer_right(a2).contains_key(k) implies #[trigger] a1
                        .union_prefer_right(a2)[k] < ev.nthunks() by {
                        if a2.contains_key(k) {
                            assert(a2[k] < ev.nthunks());
                        } else {
                            assert(a1[k] < ev.nthunks());
                        }
                    }
                }
            }
            out
        },
        BinaryOp::Concat => {
            let (lv, rv) = match force_two(ev, lhs, rhs, ctx, fuel - 1) {
                Ok(p) => p,
                Err(err) => {
                    return Err(err);
                },
            };
            let ghost lvv = lv@;
            let ghost rvv = rv@;
            proof {
                if lvv is List && rvv is List {
                    assert(ids_bounded(lvv->List_0, ev.nthunks()));
                    assert(ids_bounded(rvv->List_0, ev.nthunks()));
                }
            }
            let out = concat_lists(lv, rv);
            proof {
                if lvv is List && rvv is List {
                    let l1 = lvv->List_0;
                    let l2 = rvv->List_0;
                    assert forall|i: int| 0 <= i < (l1 + l2).len() implies #[trigger] (l1 + l2)[i]
                        < ev.nthunks() by {
                        if i < l1.len() {
                            assert((l1 + l2)[i] == l1[i]);
                        } else {
                            assert((l1 + l2)[i] == l2[i - l1.len()]);
                        }
                    }
                }
            }
            out
        },
    }
}

/// Evaluates one unary operation node: boolean negation, or numeric
/// negation computed as `0 - x`.
pub fn eval_unary(
    ev: &mut Eval,
    op: UnaryOp,
    operand: ExprId,
    ctx: &Context,
    fuel: u64,
) -> (r: Result<Value, Error>)
    requires
        old(ev).wf(),
        operand < old(ev).nexprs(),
        ctx_bounded(ctx@, old(ev).nscopes()),
    ensures
        final(ev).wf(),
        Eval::evolves(*old(ev), *final(ev)),
        match r {
            Ok(v) => final(ev).value_ok(v),
            Err(_) => true,
        },
        fuel >= 5 && op is Not ==> match old(ev).exprs@[operand as int] {
            Expr::Bool(b) => (r matches Ok(v) && v@ == ValueV::Bool(!b)),
            _ => true,
        },
        fuel >= 4 && op is Negate ==> match old(ev).exprs@[operand as int] {
            Expr::Int(a) => (r matches Ok(v) && v@ == ValueV::Int(sub_wrap(0, a))),
            _ => true,
        },
    decreases fuel,
{
    if fuel == 0 {
        return Err(Error::new(ErrorKind::RecursionLimit));
    }
    match op {
        UnaryOp::Not => {
            let b = match eval_bool_of(ev, operand, ctx, fuel - 1) {
                Ok(b) => b,
                Err(err) => {
                    return Err(err);
                },
            };
            Ok(Value::Bool(!b))
        },
        UnaryOp::Negate => {
            let v = match ev.eval_value(operand, ctx, fuel - 1) {
                Ok(v) => v,
                Err(err) => {
                    return Err(err);
                },
            };
            do_sub(&Value::Int(0), &v)
        },
    }
}

/// Allocates thunks for both operands and forces them left to right; on
/// literal integer operands the resulting thunks are pinned to hold them.
fn force_pair_of(ev: &mut Eval, lhs: ExprId, rhs: ExprId, ctx: &Context, fuel: u64) -> (r: Result<
    (ThunkId, ThunkId),
    Error,
>)
    requires
        old(ev).wf(),
        lhs < old(ev).nexprs(),
        rhs < old(ev).nexprs(),
        ctx_bounded(ctx@, old(ev).nscopes()),
    ensures
        final(ev).wf(),
        Eval::evolves(*old(ev), *final(ev)),
        match r {
            Ok(p) => p.0 < final(ev).nthunks() && p.1 < final(ev).nthunks(),
            Err(_) => true,
        },
        fuel >= 3 ==> match (old(ev).exprs@[lhs as int], old(ev).exprs@[rhs as int]) {
            (Expr::Int(a), Expr::Int(b)) => r matches Ok(p) && final(ev).tv()[p.0 as int]
                == ThunkV::Done(ValueV::Int(a)) && final(ev).tv()[p.1 as int] == ThunkV::Done(
                ValueV::Int(b),
            ),
            _ => true,
        },
    decreases fuel,
{
    if fuel == 0 {
        return Err(Error::new(ErrorKind::RecursionLimit));
    }
    let ghost s0 = *ev;
    let tl = ev.add_thunk(Thunk::thunk(lhs, ctx.duplicate()));
    let ghost s1 = *ev;
    proof {
        assert(s1.tv()[tl as int] == ThunkV::Cell(CellV::Expr(lhs, ctx@)));
    }
    let fl = match ev.force(tl, fuel - 1) {
        Ok(v) => v,
        Err(err) => {
            proof {
                Eval::lemma_evolves_trans(s0, s1, *ev);
            }
            return Err(err);
        },
    };
    let ghost s2 = *ev;
    proof {
        Eval::lemma_evolves_trans(s0, s1, s2);
    }
    let tr = ev.add_thunk(Thunk::thunk(rhs, ctx.duplicate()));
    let ghost s3 = *ev;
    proof {
        Eval::lemma_evolves_trans(s0, s2, s3);
        assert(s3.tv()[tr as int] == ThunkV::Cell(CellV::Expr(rhs, ctx@)));
        assert(s2.tv()[tl as int] is Done ==> s3.tv()[tl as int] == s2.tv()[tl as int]) by {
            if s2.tv()[tl as int] is Done {
                assert(s2.thunks@[tl as int]@ == s2.tv()[tl as int]);
                assert(s3.thunks@[tl as int]@ == s2.thunks@[tl as int]@);
            }
        }
    }
    match ev.force(tr, fuel - 1) {
        Ok(_) => {},
        Err(err) => {
            proof {
                Eval::lemma_evolves_trans(s0, s3, *ev);
            }
            return Err(err);
        },
    }
    proof {
        Eval::lemma_evolves_trans(s0, s3, *ev);
        assert(s3.tv()[tl as int] is Done ==> ev.tv()[tl as int] == s3.tv()[tl as int]) by {
            if s3.tv()[tl as int] is Done {
                assert(s3.thunks@[tl as int]@ == s3.tv()[tl as int]);
                assert(ev.thunks@[tl as int]@ == s3.thunks@[tl as int]@);
            }
        }
    }
    let _ = fl;
    Ok((tl, tr))
}

/// Allocates thunks for both operands, forces them left to right, and
/// compares them structurally; on literal operands the verdict is pinned.
fn eval_eq_of(ev: &mut Eval, lhs: ExprId, rhs: ExprId, ctx: &Context, fuel: u64) -> (r: Result<
    bool,
    Error,
>)
    requires
        old(ev).wf(),
        lhs < old(ev).nexprs(),
        rhs < old(ev).nexprs(),
        ctx_bounded(ctx@, old(ev).nscopes()),
    ensures
        final(ev).wf(),
        Eval::evolves(*old(ev), *final(ev)),
        fuel >= 4 ==> match (old(ev).exprs@[lhs as int], old(ev).exprs@[rhs as int]) {
            (Expr::Int(a), Expr::Int(b)) => r == Ok::<bool, Error>(a == b),
            _ => true,
        },
    decreases fuel,
{
    if fuel == 0 {
        return Err(Error::new(ErrorKind::RecursionLimit));
    }
    let ghost s0 = *ev;
    let tl = ev.add_thunk(Thunk::thunk(lhs, ctx.duplicate()));
    let ghost s1 = *ev;
    proof {
        assert(s1.tv()[tl as int] == ThunkV::Cell(CellV::Expr(lhs, ctx@)));
    }
    match ev.force(tl, fuel - 1) {
        Ok(_) => {},
        Err(err) => {
            proof {
                Eval::lemma_evolves_trans(s0, s1, *ev);
            }
            return Err(err);
        },
    }
    let ghost s2 = *ev;
    proof {
        Eval::lemma_evolves_trans(s0, s1, s2);
    }
    let tr = ev.add_thunk(Thunk::thunk(rhs, ctx.duplicate()));
    let ghost s3 = *ev;
    proof {
        Eval::lemma_evolves_trans(s0, s2, s3);
        assert(s3.tv()[tr as int] == ThunkV::Cell(CellV::Expr(rhs, ctx@)));
    }
    match ev.force(tr, fuel - 1) {
        Ok(_) => {},
        Err(err) => {
            proof {
                Eval::lemma_evolves_trans(s0, s3, *ev);
            }
            return Err(err);
        },
    }
    let ghost s4 = *ev;
    proof {
        Eval::lemma_evolves_trans(s0, s3, s4);
        assert(s2.tv()[tl as int] is Done ==> s4.tv()[tl as int] == s2.tv()[tl as int]) by {
            if s2.tv()[tl as int] is Done {
                assert(s2.thunks@[tl as int]@ == s2.tv()[tl as int]);
                assert(s4.thunks@[tl as int]@ == s2.thunks@[tl as int]@);
            }
        }
    }
    let rr = eval_eq(ev, tl, tr, fuel - 1);
    proof {
        Eval::lemma_evolves_trans(s0, s4, *ev);
    }
    rr
}

/// Forces one subexpression to a boolean.
fn eval_bool_of(ev: &mut Eval, e: ExprId, ctx: &Context, fuel: u64) -> (r: Result<bool, Error>)
    requires
        old(ev).wf(),
        e < old(ev).nexprs(),
        ctx_bounded(ctx@, old(ev).nscopes()),
    ensures
        final(ev).wf(),
        Eval::evolves(*old(ev), *final(ev)),
        fuel >= 4 ==> match old(ev).exprs@[e as int] {
            Expr::Bool(b) => r == Ok::<bool, Error>(b),
            _ => true,
        },
    decreases fuel,
{
    if fuel == 0 {
        return Err(Error::new(ErrorKind::RecursionLimit));
    }
    match ev.eval_value(e, ctx, fuel - 1) {
        Ok(Value::Bool(b)) => Ok(b),
        Ok(other) => Err(
            Error::at(
                ErrorKind::TypeError {
                    expected: String::from_str("bool"),
                    got: String::from_str(other.typename()),
                },
                e,
            ),
        ),
        Err(err) => Err(err),
    }
}

/// Forces both operand subexpressions, left first.
fn force_two(ev: &mut Eval, lhs: ExprId, rhs: ExprId, ctx: &Context, fuel: u64) -> (r: Result<
    (Value, Value),
    Error,
>)
    requires
        old(ev).wf(),
        lhs < old(ev).nexprs(),
        rhs < old(ev).nexprs(),
        ctx_bounded(ctx@, old(ev).nscopes()),
    ensures
        final(ev).wf(),
        Eval::evolves(*old(ev), *final(ev)),
        match r {
            Ok(p) => final(ev).value_ok(p.0) && final(ev).value_ok(p.1) && !(p.0@ is Ref) && !(
            p.1@ is Ref),
            Err(_) => true,
        },
        fuel >= 4 ==> match (old(ev).exprs@[lhs as int], old(ev).exprs@[rhs as int]) {
            (Expr::Int(a), Expr::Int(b)) => r matches Ok(p) && p.0@ == ValueV::Int(a) && p.1@
                == ValueV::Int(b),
            _ => true,
        },
    decreases fuel,
{
    if fuel == 0 {
        return Err(Error::new(ErrorKind::RecursionLimit));
    }
    let ghost s0 = *ev;
    let lv = match ev.eval_value(lhs, ctx, fuel - 1) {
        Ok(v) => v,
        Err(err) => {
            return Err(err);
        },
    };
    let ghost pre = *ev;
    let rv = match ev.eval_value(rhs, ctx, fuel - 1) {
        Ok(v) => v,
        Err(err) => {
            proof {
                Eval::lemma_evolves_trans(s0, pre, *ev);
            }
            return Err(err);
        },
    };
    proof {
        Eval::lemma_evolves_trans(s0, pre, *ev);
        crate::eval::lemma_value_bounded_mono(
            lv@,
            pre.nthunks(),
            pre.nexprs(),
            pre.nscopes(),
            ev.nthunks(),
            ev.nexprs(),
            ev.nscopes(),
        );
    }
    Ok((lv, rv))
}

/// Joins a path and a relative text given as a slice.
pub fn join_two(p: &String, s: &str) -> (r: String)
    ensures
        r@ == path_join(p@, s@),
{
    join_paths(p, &s.to_owned())
}

} // verus!
