//! The attribute-set builder: realising `let`, attribute sets and `inherit`
//! bindings without evaluating their right-hand sides.
//!
//! Bindings are first merged into a tree keyed by evaluated attribute names —
//! two bindings meeting at the same name are the duplicate-attribute error —
//! and the tree is then materialised bottom-up: leaves stay lazy thunks,
//! intermediate sets become thunks holding finished attribute maps.
//!
//! A recursive set allocates a reservation thunk first and brings it into
//! scope dynamically, so right-hand sides can reference their siblings; the
//! finished map is installed into the reservation before anything could
//! force it.

use crate::attrs::{attrs_bounded, AttrMap, ThunkId};
use crate::ctx::{ctx_bounded, Context, Scope};
use crate::error::{Error, ErrorKind};
use crate::eval::Eval;
use crate::expr::{
    attrname_wf, attrpath_v, attrpath_wf, bindings_v, bindings_wf, AttrName, Binding, ExprId,
    Ident,
};
use crate::expr::{AttrNameV, BindingV};
use crate::thunk::{CellV, Thunk, ThunkCell, ThunkV};
use crate::value::{Value, ValueV};
use vstd::prelude::*;

verus! {

/// A binding tree under construction: a leaf keeps the lazy thunk of one
/// right-hand side; an inner node collects the bindings below one name.
enum Pend {
    Leaf(ThunkId),
    Sub(Vec<(String, Pend)>),
}

/// Whether every leaf thunk of the tree lies below `nt`.
spec fn pend_bounded(p: Pend, nt: nat) -> bool
    decreases p,
{
    match p {
        Pend::Leaf(t) => t < nt,
        Pend::Sub(v) => forall|i: int|
            0 <= i < v@.len() ==> pend_bounded((#[trigger] v@[i]).1, nt),
    }
}

/// Whether every leaf thunk of a tree level lies below `nt`.
spec fn level_bounded(v: Seq<(String, Pend)>, nt: nat) -> bool {
    forall|i: int| 0 <= i < v.len() ==> pend_bounded((#[trigger] v[i]).1, nt)
}

/// Tree bounds only loosen as the arena grows.
proof fn lemma_pend_bounded_mono(p: Pend, nt1: nat, nt2: nat)
    requires
        pend_bounded(p, nt1),
        nt1 <= nt2,
    ensures
        pend_bounded(p, nt2),
    decreases p,
{
    match p {
        Pend::Leaf(_) => {},
        Pend::Sub(v) => {
            assert forall|i: int| 0 <= i < v@.len() implies pend_bounded(
                (#[trigger] v@[i]).1,
                nt2,
            ) by {
                assert(pend_bounded(v@[i].1, nt1));
                lemma_pend_bounded_mono(v@[i].1, nt1, nt2);
            }
        },
    }
}

/// Level bounds only loosen as the arena grows.
proof fn lemma_level_bounded_mono(v: Seq<(String, Pend)>, nt1: nat, nt2: nat)
    requires
        level_bounded(v, nt1),
        nt1 <= nt2,
    ensures
        level_bounded(v, nt2),
{
    assert forall|i: int| 0 <= i < v.len() implies pend_bounded((#[trigger] v[i]).1, nt2) by {
        assert(pend_bounded(v[i].1, nt1));
        lemma_pend_bounded_mono(v[i].1, nt1, nt2);
    }
}

/// The one-entry chain binding `names[idx..]` down to the leaf.
fn chain_for(names: &Vec<String>, idx: usize, leaf: ThunkId) -> (r: Pend)
    requires
        idx <= names@.len(),
    ensures
        forall|nt: nat| leaf < nt ==> pend_bounded(r, nt),
        idx == names@.len() ==> r == Pend::Leaf(leaf),
    decreases names@.len() - idx,
{
    if idx == names.len() {
        Pend::Leaf(leaf)
    } else {
        let below = chain_for(names, idx + 1, leaf);
        let mut v: Vec<(String, Pend)> = Vec::new();
        v.push((names[idx].clone(), below));
        let r = Pend::Sub(v);
        proof {
            assert forall|nt: nat| leaf < nt implies pend_bounded(r, nt) by {
                assert(pend_bounded(below, nt));
                assert forall|i: int| 0 <= i < v@.len() implies pend_bounded(
                    (#[trigger] v@[i]).1,
                    nt,
                ) by {
                    assert(v@[i].1 == below);
                }
            }
        }
        r
    }
}

/// Inserts the binding `names[idx..] = leaf` into one tree level. Two
/// bindings meeting at the same name — one of them ending there, or one of
/// them a leaf — are the duplicate-attribute error.
fn pend_insert(
    tree: Vec<(String, Pend)>,
    names: &Vec<String>,
    idx: usize,
    leaf: ThunkId,
) -> (r: Result<Vec<(String, Pend)>, Error>)
    requires
        idx < names@.len(),
    ensures
        match r {
            Ok(out) => forall|nt: nat|
                level_bounded(tree@, nt) && leaf < nt ==> level_bounded(out@, nt),
            Err(_) => true,
        },
        tree@.len() == 0 && idx + 1 == names@.len() ==> (r matches Ok(out) && out@.len() == 1
            && out@[0].0@ == names@[idx as int]@ && out@[0].1 == Pend::Leaf(leaf)),
    decreases names@.len() - idx,
{
    let total = names.len();
    let mut cur = tree;
    let ghost tree0 = cur@;
    let n = cur.len();
    let mut j: usize = 0;
    while j < n
        invariant
            j <= n,
            n == cur@.len(),
            cur@ == tree0,
            tree0 == tree@,
            total == names@.len(),
            idx < total,
            leaf == leaf,
        decreases n - j,
    {
        if crate::strutil::str_eq(cur[j].0.as_str(), names[idx].as_str()) {
            // The name is already bound at this level.
            if idx + 1 == total {
                return Err(Error::new(ErrorKind::DuplicateAttribute(names[idx].clone())));
            }
            let (nm, p) = cur.swap_remove(j);
            match p {
                Pend::Leaf(_) => {
                    return Err(Error::new(ErrorKind::DuplicateAttribute(nm)));
                },
                Pend::Sub(sub) => {
                    let ghost sub0 = sub@;
                    let sub2 = match pend_insert(sub, names, idx + 1, leaf) {
                        Ok(s) => s,
                        Err(err) => {
                            return Err(err);
                        },
                    };
                    let ghost mid = cur@;
                    cur.push((nm, Pend::Sub(sub2)));
                    proof {
                        assert forall|nt: nat|
                            level_bounded(tree@, nt) && leaf < nt implies level_bounded(
                            cur@,
                            nt,
                        ) by {
                            assert(pend_bounded(Pend::Sub(sub), nt)) by {
                                assert(tree0[j as int].1 == Pend::Sub(sub));
                            }
                            assert(level_bounded(sub0, nt)) by {
                                assert forall|k: int| 0 <= k < sub0.len() implies pend_bounded(
                                    (#[trigger] sub0[k]).1,
                                    nt,
                                ) by {
                                    assert(pend_bounded(Pend::Sub(sub), nt));
                                    assert(sub@[k] == sub0[k]);
                                }
                            }
                            assert(level_bounded(sub2@, nt));
                            assert forall|k: int| 0 <= k < cur@.len() implies pend_bounded(
                                (#[trigger] cur@[k]).1,
                                nt,
                            ) by {
                                if k < cur@.len() - 1 {
                                    // A survivor of the removal.
                                    assert(mid[k] == cur@[k]);
                                    assert(exists|k0: int|
                                        0 <= k0 < tree0.len() && tree0[k0] == #[trigger] mid[k]) by {
                                        if k == j {
                                            assert(tree0[tree0.len() - 1] == mid[k]);
                                        } else {
                                            assert(tree0[k] == mid[k]);
                                        }
                                    }
                                    let k0 = choose|k0: int|
                                        0 <= k0 < tree0.len() && tree0[k0] == mid[k];
                                    assert(pend_bounded(tree0[k0].1, nt));
                                } else {
                                    assert(cur@[k].1 == Pend::Sub(sub2));
                                    assert forall|q: int| 0 <= q < sub2@.len() implies pend_bounded(
                                        (#[trigger] sub2@[q]).1,
                                        nt,
                                    ) by {
                                        assert(level_bounded(sub2@, nt));
                                    }
                                }
                            }
                        }
                    }
                    return Ok(cur);
                },
            }
        }
        j = j + 1;
    }
    // The name is new at this level: hang the remaining path below it.
    let below = chain_for(names, idx + 1, leaf);
    let ghost mid = cur@;
    cur.push((names[idx].clone(), below));
    proof {
        assert forall|nt: nat| level_bounded(tree@, nt) && leaf < nt implies level_bounded(
            cur@,
            nt,
        ) by {
            assert forall|k: int| 0 <= k < cur@.len() implies pend_bounded(
                (#[trigger] cur@[k]).1,
                nt,
            ) by {
                if k < cur@.len() - 1 {
                    assert(cur@[k] == tree0[k]);
                    assert(pend_bounded(tree0[k].1, nt));
                } else {
                    assert(cur@[k].1 == below);
                }
            }
        }
    }
    Ok(cur)
}

/// Turns a finished tree node into the thunk that holds it: a leaf is its
/// lazy thunk already; an inner node becomes an eagerly installed attribute
/// set whose entries are materialised recursively.
fn materialize_pend(ev: &mut Eval, p: Pend) -> (r: ThunkId)
    requires
        old(ev).wf(),
        pend_bounded(p, old(ev).nthunks()),
    ensures
        final(ev).wf(),
        Eval::evolves(*old(ev), *final(ev)),
        r < final(ev).nthunks(),
        p matches Pend::Leaf(t) ==> r == t && *final(ev) == *old(ev),
    decreases p,
{
    match p {
        Pend::Leaf(t) => t,
        Pend::Sub(v) => {
            let ghost s0 = *ev;
            let ghost v0 = v@;
            let mut v = v;
            let mut m = AttrMap::new();
            proof {
                assert(v@ =~= v0.take(v@.len() as int));
                assert(p->Sub_0@ == v0);
            }
            while v.len() > 0
                invariant
                    ev.wf(),
                    s0 == *old(ev),
                    Eval::evolves(s0, *ev),
                    m.wf(),
                    attrs_bounded(m@, ev.nthunks()),
                    v@ == v0.take(v@.len() as int),
                    v@.len() <= v0.len(),
                    level_bounded(v0, s0.nthunks()),
                    p is Sub,
                    p->Sub_0@ == v0,
                decreases v@.len(),
            {
                let q = match v.pop() {
                    Some(q) => q,
                    None => {
                        proof {
                            assert(false);
                        }
                        (String::new(), Pend::Leaf(0))
                    },
                };
                let (nm, sub) = q;
                proof {
                    assert(v0[v@.len() as int].1 == sub);
                    assert(pend_bounded(sub, s0.nthunks()));
                    lemma_pend_bounded_mono(sub, s0.nthunks(), ev.nthunks());
                    assert(v@ =~= v0.take(v@.len() as int));
                    let idx = v@.len() as int;
                    assert(idx < v0.len());
                    assert(p->Sub_0@ == v0);
                    assert(decreases_to!(p => p->Sub_0));
                    assert(decreases_to!(p->Sub_0 => p->Sub_0@));
                    assert(decreases_to!(p->Sub_0@ => p->Sub_0@[idx]));
                    assert(decreases_to!(p->Sub_0@[idx] => p->Sub_0@[idx].1));
                    assert(decreases_to!(p => sub));
                }
                let ghost pre = *ev;
                let ghost m_pre = m@;
                let t = materialize_pend(ev, sub);
                proof {
                    Eval::lemma_evolves_trans(s0, pre, *ev);
                    crate::attrs::lemma_attrs_bounded_mono(m_pre, pre.nthunks(), ev.nthunks());
                }
                let ghost m_mid = m@;
                m.insert(nm, t);
                proof {
                    assert(attrs_bounded(m@, ev.nthunks())) by {
                        assert forall|k: Seq<char>| m@.contains_key(k) implies #[trigger] m@[k]
                            < ev.nthunks() by {
                            if m_mid.contains_key(k) && m@[k] == m_mid[k] {
                                assert(m_mid[k] < ev.nthunks());
                            }
                        }
                    }
                }
            }
            let ghost pre2 = *ev;
            let tid = ev.add_thunk(Thunk::complete(Value::AttrSet(m)));
            proof {
                Eval::lemma_evolves_trans(s0, pre2, *ev);
            }
            tid
        },
    }
}

/// Builds the bindings of a `let` (with `body`) or an attribute set
/// (without). Recursive bindings see themselves through a dynamic scope
/// installed before any right-hand side runs; attribute names and plain
/// `inherit` lookups are resolved in the enclosing scope.
/// Whether a binding is a plain binding of a single static name.
pub open spec fn single_plain(b: BindingV) -> bool {
    &&& b is Plain
    &&& b->Plain_path.len() == 1
    &&& b->Plain_path[0] is Plain
}

/// The bound name of a single-static-name plain binding.
pub open spec fn single_plain_name(b: BindingV) -> Seq<char> {
    b->Plain_path[0]->Plain_0
}

pub fn eval_bindings(
    ev: &mut Eval,
    recursive: bool,
    binds: Vec<Binding>,
    body: Option<ExprId>,
    ctx: Context,
    fuel: u64,
) -> (r: Result<Value, Error>)
    requires
        old(ev).wf(),
        bindings_wf(bindings_v(binds@), old(ev).nexprs()),
        match body {
            Some(b) => b < old(ev).nexprs(),
            None => true,
        },
        ctx_bounded(ctx@, old(ev).nscopes()),
    ensures
        final(ev).wf(),
        Eval::evolves(*old(ev), *final(ev)),
        match r {
            Ok(v) => final(ev).value_ok(v),
            Err(_) => true,
        },
        fuel >= 1 && !recursive && body is None && binds@.len() == 0 ==> (r matches Ok(v) && v@
            == (ValueV::AttrSet(Map::<Seq<char>, ThunkId>::empty()))),
        fuel >= 2 && !recursive && body is None && binds@.len() == 1 && single_plain(
            bindings_v(binds@)[0],
        ) ==> (r matches Ok(v) && (v@ matches ValueV::AttrSet(m) && m.dom()
            == Set::<Seq<char>>::empty().insert(single_plain_name(bindings_v(binds@)[0])))),
    decreases fuel,
{
    if fuel == 0 {
        return Err(Error::new(ErrorKind::RecursionLimit));
    }
    let ghost s0 = *ev;
    let ghost c1 = fuel >= 2 && !recursive && body is None && binds@.len() == 1 && single_plain(
        bindings_v(binds@)[0],
    );
    // A recursive set reserves its own thunk and scopes it in before any
    // right-hand side is created.
    let mut reservation: Option<ThunkId> = None;
    let ctx2 = if recursive {
        let ph = ev.add_thunk(Thunk::new(ThunkCell::Pending));
        let ghost sp = *ev;
        let sid = ev.add_scope(Scope::Dynamic(ph));
        proof {
            Eval::lemma_evolves_trans(s0, sp, *ev);
        }
        reservation = Some(ph);
        ctx.prepend(sid)
    } else {
        ctx.duplicate()
    };
    proof {
        assert(ctx_bounded(ctx2@, ev.nscopes())) by {
            assert forall|j: int| 0 <= j < ctx2@.len() implies #[trigger] ctx2@[j]
                < ev.nscopes() by {
                if recursive {
                    if j > 0 {
                        assert(ctx2@[j] == ctx@[j - 1]);
                        assert(ctx@[j - 1] < s0.nscopes());
                    }
                } else {
                    assert(ctx2@[j] == ctx@[j]);
                    assert(ctx@[j] < s0.nscopes());
                }
            }
        }
    }

    let mut tree: Vec<(String, Pend)> = Vec::new();
    let nb = binds.len();
    let mut i: usize = 0;
    while i < nb
        invariant
            i <= nb,
            nb == binds@.len(),
            fuel >= 1,
            s0 == *old(ev),
            ev.wf(),
            Eval::evolves(s0, *ev),
            bindings_wf(bindings_v(binds@), ev.nexprs()),
            ctx_bounded(ctx@, ev.nscopes()),
            ctx_bounded(ctx2@, ev.nscopes()),
            level_bounded(tree@, ev.nthunks()),
            reservation matches Some(ph) ==> ph < ev.nthunks() && s0.nthunks() <= ph && (ev.tv()[
                ph as int
            ] == ThunkV::Cell(CellV::Pending) || ev.tv()[ph as int] == ThunkV::Cell(
                CellV::Blackhole,
            )),
            reservation is Some <==> recursive,
            binds@.len() == 0 ==> tree@.len() == 0,
            c1 == (fuel >= 2 && !recursive && body is None && binds@.len() == 1 && single_plain(
                bindings_v(binds@)[0],
            )),
            c1 ==> (i == 0 ==> tree@.len() == 0) && (i == 1 ==> tree@.len() == 1 && tree@[0].0@
                == single_plain_name(bindings_v(binds@)[0]) && (tree@[0].1 is Leaf)),
        decreases nb - i,
    {
        proof {
            assert(bindings_v(binds@)[i as int] == binds@[i as int]@);
            assert(crate::expr::binding_wf(binds@[i as int]@, ev.nexprs()));
        }
        let b = &binds[i];
        match b {
            Binding::Plain { path, rhs } => {
                proof {
                    assert(binds@[i as int]@ is Plain);
                    assert(binds@[i as int]@->Plain_path == attrpath_v(path@));
                }
                let rhs = *rhs;
                // Resolve the attribute names in the enclosing scope.
                let np = path.len();
                let mut names: Vec<String> = Vec::new();
                let mut j: usize = 0;
                proof {
                    assert(attrpath_wf(attrpath_v(path@), ev.nexprs()));
                }
                while j < np
                    invariant
                        j <= np,
                        np == path@.len(),
                        np >= 1,
                        i < nb,
                        nb == binds@.len(),
                        bindings_v(binds@)[i as int] == binds@[i as int]@,
                        binds@[i as int]@ is Plain,
                        binds@[i as int]@->Plain_path == attrpath_v(path@),
                        c1 && i == 0 ==> tree@.len() == 0,
                        c1 == (fuel >= 2 && !recursive && body is None && binds@.len() == 1 && single_plain(
                            bindings_v(binds@)[0],
                        )),
                        fuel >= 1,
                        s0 == *old(ev),
                        ev.wf(),
                        Eval::evolves(s0, *ev),
                        attrpath_wf(attrpath_v(path@), ev.nexprs()),
                        ctx_bounded(ctx@, ev.nscopes()),
                        ctx_bounded(ctx2@, ev.nscopes()),
                        level_bounded(tree@, ev.nthunks()),
                        names@.len() == j,
                        c1 && i == 0 && j == 1 ==> names@[0]@ == single_plain_name(
                            bindings_v(binds@)[0],
                        ),
                        reservation matches Some(ph) ==> ph < ev.nthunks() && s0.nthunks() <= ph
                            && (ev.tv()[ph as int] == ThunkV::Cell(CellV::Pending) || ev.tv()[
                            ph as int
                        ] == ThunkV::Cell(CellV::Blackhole)),
                    decreases np - j,
                {
                    proof {
                        assert(attrpath_v(path@)[j as int] == path@[j as int]@);
                        assert(attrname_wf(path@[j as int]@, ev.nexprs()));
                    }
                    let ghost pre = *ev;
                    let nm = match ev.attr_name(&path[j], &ctx, fuel - 1) {
                        Ok(nm) => nm,
                        Err(err) => {
                            proof {
                                Eval::lemma_evolves_trans(s0, pre, *ev);
                                if c1 && i == 0 {
                                    assert(single_plain(binds@[0]@));
                                    assert(attrpath_v(path@)[0] == path@[0]@);
                                    assert(path@[0]@ is Plain);
                                    assert(false);
                                }
                            }
                            return Err(err);
                        },
                    };
                    proof {
                        Eval::lemma_evolves_trans(s0, pre, *ev);
                        lemma_level_bounded_mono(tree@, pre.nthunks(), ev.nthunks());
                        if c1 && i == 0 {
                            assert(single_plain(binds@[0]@));
                            assert(attrpath_v(path@).len() == 1);
                            assert(attrpath_v(path@)[0] == path@[0]@);
                            assert(path@[0]@ == AttrNameV::Plain(
                                single_plain_name(binds@[0]@),
                            ));
                            assert(nm@ == single_plain_name(bindings_v(binds@)[0]));
                        }
                    }
                    names.push(nm);
                    j = j + 1;
                }
                let ghost pre = *ev;
                let t = ev.add_thunk(Thunk::thunk(rhs, ctx2.duplicate()));
                proof {
                    Eval::lemma_evolves_trans(s0, pre, *ev);
                    lemma_level_bounded_mono(tree@, pre.nthunks(), ev.nthunks());
                }
                proof {
                    if c1 && i == 0 {
                        assert(single_plain(binds@[0]@));
                        assert(attrpath_v(path@).len() == 1);
                        assert(np == 1 && names@.len() == 1);
                        assert(tree@.len() == 0);
                        assert(names@[0]@ == single_plain_name(bindings_v(binds@)[0]));
                    }
                }
                let ghost tree_before = tree@;
                tree = match pend_insert(tree, &names, 0, t) {
                    Ok(tr) => tr,
                    Err(err) => {
                        return Err(err);
                    },
                };
                proof {
                    if c1 && i == 0 {
                        assert(tree_before.len() == 0 && names@.len() == 1);
                        assert(tree@[0].0@ == names@[0]@);
                    }
                }
            },
            Binding::Inherit { from, names } => {
                proof {
                    assert(binds@[i as int]@ is Inherit);
                }
                match from {
                    None => {
                        // Defer each lookup to the enclosing scope.
                        let nn = names.len();
                        let mut j: usize = 0;
                        while j < nn
                            invariant
                                j <= nn,
                                nn == names@.len(),
                                i < nb,
                                nb == binds@.len(),
                                bindings_v(binds@)[i as int] == binds@[i as int]@,
                                binds@[i as int]@ is Inherit,
                                c1 == (fuel >= 2 && !recursive && body is None && binds@.len() == 1 && single_plain(
                                    bindings_v(binds@)[0],
                                )),
                                fuel >= 1,
                                s0 == *old(ev),
                                ev.wf(),
                                Eval::evolves(s0, *ev),
                                ctx_bounded(ctx@, ev.nscopes()),
                                ctx_bounded(ctx2@, ev.nscopes()),
                                level_bounded(tree@, ev.nthunks()),
                                reservation matches Some(ph) ==> ph < ev.nthunks()
                                    && s0.nthunks() <= ph && (ev.tv()[ph as int] == ThunkV::Cell(
                                    CellV::Pending,
                                ) || ev.tv()[ph as int] == ThunkV::Cell(CellV::Blackhole)),
                            decreases nn - j,
                        {
                            let nm = names[j].clone();
                            let ghost pre = *ev;
                            let t = ev.add_thunk(
                                Thunk::new(ThunkCell::Lookup(nm, ctx.duplicate())),
                            );
                            proof {
                                Eval::lemma_evolves_trans(s0, pre, *ev);
                                lemma_level_bounded_mono(tree@, pre.nthunks(), ev.nthunks());
                            }
                            let mut one: Vec<String> = Vec::new();
                            one.push(names[j].clone());
                            tree = match pend_insert(tree, &one, 0, t) {
                                Ok(tr) => tr,
                                Err(err) => {
                                    return Err(err);
                                },
                            };
                            j = j + 1;
                        }
                    },
                    Some(fe) => {
                        let fe = *fe;
                        // Force the source lazily; each name reads out of it
                        // when first needed.
                        let ghost pre = *ev;
                        let ft = ev.add_thunk(Thunk::thunk(fe, ctx2.duplicate()));
                        proof {
                            Eval::lemma_evolves_trans(s0, pre, *ev);
                            lemma_level_bounded_mono(tree@, pre.nthunks(), ev.nthunks());
                        }
                        let nn = names.len();
                        let mut j: usize = 0;
                        while j < nn
                            invariant
                                j <= nn,
                                nn == names@.len(),
                                i < nb,
                                nb == binds@.len(),
                                bindings_v(binds@)[i as int] == binds@[i as int]@,
                                binds@[i as int]@ is Inherit,
                                c1 == (fuel >= 2 && !recursive && body is None && binds@.len() == 1 && single_plain(
                                    bindings_v(binds@)[0],
                                )),
                                fuel >= 1,
                                s0 == *old(ev),
                                ev.wf(),
                                Eval::evolves(s0, *ev),
                                ft < ev.nthunks(),
                                ctx_bounded(ctx@, ev.nscopes()),
                                ctx_bounded(ctx2@, ev.nscopes()),
                                level_bounded(tree@, ev.nthunks()),
                                reservation matches Some(ph) ==> ph < ev.nthunks()
                                    && s0.nthunks() <= ph && (ev.tv()[ph as int] == ThunkV::Cell(
                                    CellV::Pending,
                                ) || ev.tv()[ph as int] == ThunkV::Cell(CellV::Blackhole)),
                            decreases nn - j,
                        {
                            let nm = names[j].clone();
                            let ghost pre2 = *ev;
                            let t = ev.add_thunk(Thunk::new(ThunkCell::InheritFrom(ft, nm)));
                            proof {
                                Eval::lemma_evolves_trans(s0, pre2, *ev);
                                lemma_level_bounded_mono(tree@, pre2.nthunks(), ev.nthunks());
                            }
                            let mut one: Vec<String> = Vec::new();
                            one.push(names[j].clone());
                            tree = match pend_insert(tree, &one, 0, t) {
                                Ok(tr) => tr,
                                Err(err) => {
                                    return Err(err);
                                },
                            };
                            j = j + 1;
                        }
                    },
                }
            },
        }
        i = i + 1;
    }
    let ghost pre = *ev;
    let ghost tree_g = tree@;
    let m = materialize_tree_level(ev, tree);
    proof {
        Eval::lemma_evolves_trans(s0, pre, *ev);
        crate::ctx::lemma_ctx_bounded_mono(ctx2@, pre.nscopes(), ev.nscopes());
        if c1 {
            assert(tree_g.len() == 1 && tree_g[0].1 is Leaf);
            assert(m@.dom() =~= Set::<Seq<char>>::empty().insert(
                single_plain_name(bindings_v(binds@)[0]),
            ));
        }
    }
    match reservation {
        Some(ph) => {
            proof {
                assert(crate::value::value_bounded(
                    crate::value::ValueV::AttrSet(m@),
                    ev.nthunks(),
                    ev.nexprs(),
                    ev.nscopes(),
                )) by {
                    assert(attrs_bounded(m@, ev.nthunks()));
                }
            }
            let ghost pre2 = *ev;
            ev.install_value(ph, Value::AttrSet(m));
            proof {
                assert(Eval::evolves(s0, *ev)) by {
                    assert forall|k: int| 0 <= k < s0.scopes@.len() implies (
                    #[trigger] ev.scopes@[k])@ == s0.scopes@[k]@ by {
                        assert(pre2.scopes@[k]@ == s0.scopes@[k]@);
                        assert(ev.sv()[k] == pre2.sv()[k]);
                        assert(ev.scopes@[k]@ == ev.sv()[k]);
                        assert(pre2.scopes@[k]@ == pre2.sv()[k]);
                    }
                    assert forall|k: int|
                        0 <= k < s0.thunks@.len() && (#[trigger] s0.thunks@[k])@ is Done implies ev
                        .thunks@[k]@ == s0.thunks@[k]@ by {
                        assert(pre2.thunks@[k]@ == s0.thunks@[k]@);
                        assert(k < s0.nthunks() <= ph);
                        assert(ev.tv()[k] == pre2.tv()[k]);
                        assert(ev.thunks@[k]@ == pre2.thunks@[k]@);
                    }
                    assert forall|k: int|
                        0 <= k < s0.thunks@.len() && (#[trigger] s0.thunks@[k])@ == ThunkV::Cell(
                            CellV::Blackhole,
                        ) implies ev.thunks@[k]@ == s0.thunks@[k]@ by {
                        assert(pre2.thunks@[k]@ == s0.thunks@[k]@);
                        assert(k < s0.nthunks() <= ph);
                        assert(ev.tv()[k] == pre2.tv()[k]);
                        assert(ev.thunks@[k]@ == pre2.thunks@[k]@);
                    }
                    assert forall|k: int|
                        0 <= k < s0.thunks@.len() && (#[trigger] s0.thunks@[k])@ == ThunkV::Cell(
                            CellV::Pending,
                        ) implies ev.thunks@[k]@ == ThunkV::Cell(CellV::Pending) || ev.thunks@[k]@
                        == ThunkV::Cell(CellV::Blackhole) by {
                        assert(pre2.thunks@[k]@ == ThunkV::Cell(CellV::Pending)
                            || pre2.thunks@[k]@ == ThunkV::Cell(CellV::Blackhole));
                        assert(k < s0.nthunks() <= ph);
                        assert(ev.tv()[k] == pre2.tv()[k]);
                        assert(ev.thunks@[k]@ == pre2.thunks@[k]@);
                    }
                }
            }
            match body {
                Some(bd) => {
                    let ghost sq = *ev;
                    let rr = ev.step_eval(bd, ctx2, fuel - 1);
                    proof {
                        Eval::lemma_evolves_trans(s0, sq, *ev);
                    }
                    rr
                },
                None => Ok(Value::Ref(ph)),
            }
        },
        None => Ok(Value::AttrSet(m)),
    }
}

/// Materialises one finished tree level into an attribute map.
fn materialize_tree_level(ev: &mut Eval, tree: Vec<(String, Pend)>) -> (r: AttrMap)
    requires
        old(ev).wf(),
        level_bounded(tree@, old(ev).nthunks()),
    ensures
        final(ev).wf(),
        Eval::evolves(*old(ev), *final(ev)),
        r.wf(),
        attrs_bounded(r@, final(ev).nthunks()),
        tree@.len() == 0 ==> r@ == Map::<Seq<char>, ThunkId>::empty(),
        tree@.len() == 1 ==> match tree@[0].1 {
            Pend::Leaf(t) => r@ == Map::<Seq<char>, ThunkId>::empty().insert(tree@[0].0@, t),
            Pend::Sub(_) => true,
        },
    decreases tree,
{
    let ghost s0 = *ev;
    let ghost v0 = tree@;
    let mut v = tree;
    let mut m = AttrMap::new();
    proof {
        assert(v@ =~= v0.take(v@.len() as int));
    }
    while v.len() > 0
        invariant
            ev.wf(),
            s0 == *old(ev),
            Eval::evolves(s0, *ev),
            m.wf(),
            attrs_bounded(m@, ev.nthunks()),
            v@ == v0.take(v@.len() as int),
            v@.len() <= v0.len(),
            level_bounded(v0, s0.nthunks()),
            v0 == tree@,
            v0.len() == 0 ==> m@ == Map::<Seq<char>, ThunkId>::empty(),
            v0.len() == 1 ==> match v0[0].1 {
                Pend::Leaf(t) => (v@.len() == 1 ==> m@ == Map::<Seq<char>, ThunkId>::empty()) && (
                v@.len() == 0 ==> m@ == Map::<Seq<char>, ThunkId>::empty().insert(v0[0].0@, t)),
                Pend::Sub(_) => true,
            },
        decreases v@.len(),
    {
        let q = match v.pop() {
            Some(q) => q,
            None => {
                proof {
                    assert(false);
                }
                (String::new(), Pend::Leaf(0))
            },
        };
        let (nm, sub) = q;
        proof {
            assert(v0[v@.len() as int].1 == sub);
            assert(pend_bounded(sub, s0.nthunks()));
            lemma_pend_bounded_mono(sub, s0.nthunks(), ev.nthunks());
            assert(v@ =~= v0.take(v@.len() as int));
            let idx = v@.len() as int;
            assert(idx < tree@.len());
            assert(decreases_to!(tree => tree@));
            assert(decreases_to!(tree@ => tree@[idx]));
            assert(decreases_to!(tree@[idx] => tree@[idx].1));
            assert(decreases_to!(tree => sub));
        }
        let ghost pre = *ev;
        let ghost m_pre = m@;
        let t = materialize_pend(ev, sub);
        proof {
            Eval::lemma_evolves_trans(s0, pre, *ev);
            crate::attrs::lemma_attrs_bounded_mono(m_pre, pre.nthunks(), ev.nthunks());
        }
        let ghost m_mid = m@;
        let ghost nm_view = nm@;
        m.insert(nm, t);
        proof {
            assert(attrs_bounded(m@, ev.nthunks())) by {
                assert forall|k: Seq<char>| m@.contains_key(k) implies #[trigger] m@[k]
                    < ev.nthunks() by {
                    if m_mid.contains_key(k) && m@[k] == m_mid[k] {
                        assert(m_mid[k] < ev.nthunks());
                    }
                }
            }
            if v0.len() == 1 {
                match v0[0].1 {
                    Pend::Leaf(t0) => {
                        assert(v@.len() == 0);
                        assert(v0[0].0@ == nm_view && v0[0].1 == sub) by {
                            assert(v0[v@.len() as int] == v0[0]);
                        }
                        assert(t == t0);
                        assert(m@ =~= Map::<Seq<char>, ThunkId>::empty().insert(v0[0].0@, t0));
                    },
                    Pend::Sub(_) => {},
                }
            }
        }
    }
    m
}

} // verus!
