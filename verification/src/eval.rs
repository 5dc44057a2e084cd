//! The evaluator core: forcing thunks to weak head normal form.
//!
//! `force` drives everything. A thunk that has transitioned holds its value
//! for good — the contracts below state that forcing it again returns that
//! value and leaves the whole evaluator untouched, which is the memoisation
//! and determinism guarantee. A thunk still holding work is swapped to the
//! black-hole sentinel first, so re-entering it during its own evaluation
//! reports an infinite loop instead of diverging.
//!
//! Value forwarding (`Value::Ref`) is collapsed inside the force loop: a
//! transitioned thunk never holds a bare `Ref`, so following forwarding can
//! never cycle and no visited set is needed.
//!
//! Every recursive entry point takes a fuel budget and fails with a
//! recursion-limit error when it is exhausted; the language itself has no
//! termination guarantee to offer.

use crate::attrs::{attrs_bounded, ids_bounded, AttrMap, ThunkId};
use crate::ctx::{
    ctx_bounded, scope_bounded, scope_rep_wf, Context, Scope, ScopeId, ScopeV, StaticScope,
};
use crate::error::{Error, ErrorKind};
use crate::expr::{
    attrname_wf, attrpath_v, attrpath_wf, bindings_v, bindings_wf, clone_attrpath, exprids_wf,
    formals_v, formals_wf, lemma_attrpath_wf_mono, lemma_bindings_wf_mono, lemma_exprids_wf_mono,
    lemma_param_wf_mono, lemma_strparts_wf_mono, param_wf, strparts_v, strparts_wf, AttrName,
    Binding, Expr, ExprArena, ExprId, LambdaParam, ParamV, StrPart,
};
use crate::thunk::{cell_bounded, thunk_bounded, CellV, Thunk, ThunkCell, ThunkV};
use crate::value::{
    clone_ids, primop_arity, value_bounded, value_rep_wf, Primop, PrimopOp, Value, ValueV,
};
use vstd::prelude::*;
use vstd::string::StringExecFns;

verus! {

/// A value model bounded by smaller arenas is bounded by larger ones.
pub proof fn lemma_value_bounded_mono(
    v: ValueV,
    nt1: nat,
    ne1: nat,
    ns1: nat,
    nt2: nat,
    ne2: nat,
    ns2: nat,
)
    requires
        value_bounded(v, nt1, ne1, ns1),
        nt1 <= nt2,
        ne1 <= ne2,
        ns1 <= ns2,
    ensures
        value_bounded(v, nt2, ne2, ns2),
{
    match v {
        ValueV::List(items) => {
            assert(ids_bounded(items, nt1));
            crate::attrs::lemma_ids_bounded_mono(items, nt1, nt2);
        },
        ValueV::AttrSet(m) => {
            assert(attrs_bounded(m, nt1));
            crate::attrs::lemma_attrs_bounded_mono(m, nt1, nt2);
        },
        ValueV::Lambda { param, body, captures } => {
            assert(param_wf(param, ne1));
            lemma_param_wf_mono(param, ne1, ne2);
            assert(ctx_bounded(captures, ns1));
            crate::ctx::lemma_ctx_bounded_mono(captures, ns1, ns2);
        },
        ValueV::Primop { op, args } => {
            assert(ids_bounded(args, nt1));
            crate::attrs::lemma_ids_bounded_mono(args, nt1, nt2);
        },
        _ => {},
    }
}

/// A thunk model bounded by smaller arenas is bounded by larger ones.
pub proof fn lemma_thunk_bounded_mono(
    t: ThunkV,
    nt1: nat,
    ne1: nat,
    ns1: nat,
    nt2: nat,
    ne2: nat,
    ns2: nat,
)
    requires
        thunk_bounded(t, nt1, ne1, ns1),
        nt1 <= nt2,
        ne1 <= ne2,
        ns1 <= ns2,
    ensures
        thunk_bounded(t, nt2, ne2, ns2),
{
    match t {
        ThunkV::Cell(c) => {
            match c {
                CellV::Expr(e, ctx) => {
                    assert(ctx_bounded(ctx, ns1));
                    crate::ctx::lemma_ctx_bounded_mono(ctx, ns1, ns2);
                },
                CellV::Lookup(_, ctx) => {
                    assert(ctx_bounded(ctx, ns1));
                    crate::ctx::lemma_ctx_bounded_mono(ctx, ns1, ns2);
                },
                _ => {},
            }
        },
        ThunkV::Done(v) => lemma_value_bounded_mono(v, nt1, ne1, ns1, nt2, ne2, ns2),
    }
}

/// Whether a transitioned thunk avoids holding bare forwarding.
pub open spec fn done_not_ref(t: ThunkV) -> bool {
    match t {
        ThunkV::Done(v) => !(v is Ref),
        ThunkV::Cell(_) => true,
    }
}

/// The evaluator: the expression arena (immutable during evaluation), the
/// thunk arena, the scope arena (append-only, entries immutable), and the
/// top-level static scope of builtins, consulted after every other scope.
#[derive(Debug)]
pub struct Eval {
    pub exprs: ExprArena,
    pub thunks: Vec<Thunk>,
    pub scopes: Vec<Scope>,
    pub builtins: StaticScope,
}

/// Whether every scope the context names is a static (lexical) binder.
pub open spec fn all_static(sv: Seq<ScopeV>, ctx: Seq<ScopeId>) -> bool {
    forall|k: int| 0 <= k < ctx.len() ==> sv[(#[trigger] ctx[k]) as int] is Static
}

/// The thunk the first static scope (front to back, innermost first) binds
/// the name to, searching from position `k`; `None` when no scope from
/// there on binds it.
pub open spec fn static_hit(
    sv: Seq<ScopeV>,
    ctx: Seq<ScopeId>,
    name: Seq<char>,
    k: int,
) -> Option<ThunkId>
    decreases ctx.len() - k,
{
    if k < 0 || k >= ctx.len() {
        None
    } else {
        match sv[ctx[k] as int] {
            ScopeV::Static(m) => if m.contains_key(name) {
                Some(m[name])
            } else {
                static_hit(sv, ctx, name, k + 1)
            },
            _ => static_hit(sv, ctx, name, k + 1),
        }
    }
}

impl Eval {
    /// The models of all thunks, by id.
    pub open spec fn tv(&self) -> Seq<ThunkV> {
        self.thunks@.map_values(|t: Thunk| t@)
    }

    /// The models of all scopes, by id.
    pub open spec fn sv(&self) -> Seq<ScopeV> {
        self.scopes@.map_values(|s: Scope| s@)
    }

    pub open spec fn nthunks(&self) -> nat {
        self.thunks@.len()
    }

    pub open spec fn nscopes(&self) -> nat {
        self.scopes@.len()
    }

    pub open spec fn nexprs(&self) -> nat {
        self.exprs@.len()
    }

    /// The global well-formedness invariant: every arena entry keeps its
    /// representation invariant, references only allocated slots, and no
    /// transitioned thunk holds bare forwarding.
    pub open spec fn wf(&self) -> bool {
        &&& self.exprs.wf()
        &&& forall|i: int| 0 <= i < self.thunks@.len() ==> (#[trigger] self.thunks@[i]).rep_wf()
        &&& forall|i: int|
            0 <= i < self.thunks@.len() ==> thunk_bounded(
                (#[trigger] self.thunks@[i])@,
                self.nthunks(),
                self.nexprs(),
                self.nscopes(),
            )
        &&& forall|i: int|
            0 <= i < self.thunks@.len() ==> done_not_ref((#[trigger] self.thunks@[i])@)
        &&& forall|i: int| 0 <= i < self.scopes@.len() ==> scope_rep_wf(#[trigger] self.scopes@[i])
        &&& forall|i: int|
            0 <= i < self.scopes@.len() ==> scope_bounded(
                (#[trigger] self.scopes@[i])@,
                self.nthunks(),
            )
        &&& self.builtins.wf()
        &&& attrs_bounded(self.builtins@, self.nthunks())
    }

    /// A value the evaluator may hold or return in this state.
    pub open spec fn value_ok(&self, v: Value) -> bool {
        &&& value_rep_wf(v)
        &&& value_bounded(v@, self.nthunks(), self.nexprs(), self.nscopes())
    }

    /// How one evaluator state may follow another: expressions and builtins
    /// are fixed, arenas only grow, existing scopes keep their contents, a
    /// transitioned thunk keeps its value for good, and a thunk under
    /// evaluation (black-holed) stays black-holed for everyone but its owner.
    pub open spec fn evolves(pre: Eval, post: Eval) -> bool {
        &&& post.exprs@ == pre.exprs@
        &&& post.exprs.spans_seq() == pre.exprs.spans_seq()
        &&& post.builtins@ == pre.builtins@
        &&& pre.thunks@.len() <= post.thunks@.len()
        &&& pre.scopes@.len() <= post.scopes@.len()
        &&& forall|i: int|
            0 <= i < pre.scopes@.len() ==> (#[trigger] post.scopes@[i])@ == pre.scopes@[i]@
        &&& forall|i: int|
            0 <= i < pre.thunks@.len() ==> ((#[trigger] pre.thunks@[i])@ is Done
                ==> post.thunks@[i]@ == pre.thunks@[i]@)
        &&& forall|i: int|
            0 <= i < pre.thunks@.len() ==> ((#[trigger] pre.thunks@[i])@ == ThunkV::Cell(
                CellV::Blackhole,
            ) ==> post.thunks@[i]@ == pre.thunks@[i]@)
        &&& forall|i: int|
            0 <= i < pre.thunks@.len() ==> ((#[trigger] pre.thunks@[i])@ == ThunkV::Cell(
                CellV::Pending,
            ) ==> post.thunks@[i]@ == ThunkV::Cell(CellV::Pending) || post.thunks@[i]@
                == ThunkV::Cell(CellV::Blackhole))
    }

    /// Evolution is transitive.
    pub proof fn lemma_evolves_trans(a: Eval, b: Eval, c: Eval)
        requires
            Eval::evolves(a, b),
            Eval::evolves(b, c),
        ensures
            Eval::evolves(a, c),
    {
        assert forall|i: int| 0 <= i < a.scopes@.len() implies (#[trigger] c.scopes@[i])@
            == a.scopes@[i]@ by {
            assert(b.scopes@[i]@ == a.scopes@[i]@);
        }
        assert forall|i: int|
            0 <= i < a.thunks@.len() && (#[trigger] a.thunks@[i])@ is Done implies c.thunks@[i]@
            == a.thunks@[i]@ by {
            assert(b.thunks@[i]@ == a.thunks@[i]@);
        }
        assert forall|i: int|
            0 <= i < a.thunks@.len() && (#[trigger] a.thunks@[i])@ == ThunkV::Cell(
                CellV::Blackhole,
            ) implies c.thunks@[i]@ == a.thunks@[i]@ by {
            assert(b.thunks@[i]@ == a.thunks@[i]@);
        }
        assert forall|i: int|
            0 <= i < a.thunks@.len() && (#[trigger] a.thunks@[i])@ == ThunkV::Cell(
                CellV::Pending,
            ) implies c.thunks@[i]@ == ThunkV::Cell(CellV::Pending) || c.thunks@[i]@
            == ThunkV::Cell(CellV::Blackhole) by {
            if b.thunks@[i]@ == ThunkV::Cell(CellV::Pending) {
            } else {
                assert(b.thunks@[i]@ == ThunkV::Cell(CellV::Blackhole));
                assert(c.thunks@[i]@ == b.thunks@[i]@);
            }
        }
    }

    /// A fresh evaluator with no expressions, thunks or builtins.
    pub fn new() -> (r: Eval)
        ensures
            r.wf(),
            r.nthunks() == 0,
            r.nscopes() == 0,
            r.nexprs() == 0,
            r.builtins@ == Map::<Seq<char>, ThunkId>::empty(),
    {
        let r = Eval {
            exprs: ExprArena::new(),
            thunks: Vec::new(),
            scopes: Vec::new(),
            builtins: AttrMap::new(),
        };
        r
    }

    /// How many thunks the arena holds; ids below this are valid.
    pub fn thunk_count(&self) -> (r: usize)
        ensures
            r == self.nthunks(),
    {
        self.thunks.len()
    }

    /// Appends a thunk and returns its id.
    pub fn add_thunk(&mut self, t: Thunk) -> (r: ThunkId)
        requires
            old(self).wf(),
            t.rep_wf(),
            done_not_ref(t@),
            thunk_bounded(t@, old(self).nthunks(), old(self).nexprs(), old(self).nscopes()),
        ensures
            final(self).wf(),
            Eval::evolves(*old(self), *final(self)),
            r == old(self).nthunks(),
            final(self).nthunks() == old(self).nthunks() + 1,
            final(self).nscopes() == old(self).nscopes(),
            final(self).tv() == old(self).tv().push(t@),
            final(self).sv() == old(self).sv(),
    {
        let id = self.thunks.len();
        let ghost tview = t@;
        self.thunks.push(t);
        proof {
            assert(self.tv() =~= old(self).tv().push(tview));
            assert(self.sv() =~= old(self).sv());
            assert forall|i: int| 0 <= i < self.thunks@.len() implies thunk_bounded(
                (#[trigger] self.thunks@[i])@,
                self.nthunks(),
                self.nexprs(),
                self.nscopes(),
            ) by {
                if i < old(self).thunks@.len() {
                    assert(self.thunks@[i] == old(self).thunks@[i]);
                    lemma_thunk_bounded_mono(
                        self.thunks@[i]@,
                        old(self).nthunks(),
                        old(self).nexprs(),
                        old(self).nscopes(),
                        self.nthunks(),
                        self.nexprs(),
                        self.nscopes(),
                    );
                } else {
                    lemma_thunk_bounded_mono(
                        tview,
                        old(self).nthunks(),
                        old(self).nexprs(),
                        old(self).nscopes(),
                        self.nthunks(),
                        self.nexprs(),
                        self.nscopes(),
                    );
                }
            }
        }
        id
    }

    /// Appends a scope and returns its id.
    pub fn add_scope(&mut self, s: Scope) -> (r: ScopeId)
        requires
            old(self).wf(),
            scope_rep_wf(s),
            scope_bounded(s@, old(self).nthunks()),
        ensures
            final(self).wf(),
            Eval::evolves(*old(self), *final(self)),
            r == old(self).nscopes(),
            final(self).nscopes() == old(self).nscopes() + 1,
            final(self).nthunks() == old(self).nthunks(),
            final(self).sv() == old(self).sv().push(s@),
            final(self).tv() == old(self).tv(),
    {
        let id = self.scopes.len();
        let ghost sview = s@;
        self.scopes.push(s);
        proof {
            assert(self.sv() =~= old(self).sv().push(sview));
            assert(self.tv() =~= old(self).tv());
            assert forall|i: int| 0 <= i < self.thunks@.len() implies thunk_bounded(
                (#[trigger] self.thunks@[i])@,
                self.nthunks(),
                self.nexprs(),
                self.nscopes(),
            ) by {
                lemma_thunk_bounded_mono(
                    self.thunks@[i]@,
                    old(self).nthunks(),
                    old(self).nexprs(),
                    old(self).nscopes(),
                    self.nthunks(),
                    self.nexprs(),
                    self.nscopes(),
                );
            }
        }
        id
    }

    /// Injects an already evaluated value as a fresh thunk: how hosts seed
    /// builtins and arguments.
    pub fn new_value(&mut self, v: Value) -> (r: ThunkId)
        requires
            old(self).wf(),
            old(self).value_ok(v),
            !(v@ is Ref),
        ensures
            final(self).wf(),
            Eval::evolves(*old(self), *final(self)),
            r == old(self).nthunks(),
            final(self).nthunks() == old(self).nthunks() + 1,
            final(self).tv() == old(self).tv().push(ThunkV::Done(v@)),
    {
        self.add_thunk(Thunk::complete(v))
    }

    /// Registers a builtin under its name.
    pub fn add_builtin(&mut self, name: String, t: ThunkId)
        requires
            old(self).wf(),
            t < old(self).nthunks(),
        ensures
            final(self).wf(),
            final(self).builtins@ == old(self).builtins@.insert(name@, t),
            final(self).tv() == old(self).tv(),
            final(self).sv() == old(self).sv(),
            final(self).nthunks() == old(self).nthunks(),
            final(self).exprs@ == old(self).exprs@,
            final(self).exprs.spans_seq() == old(self).exprs.spans_seq(),
    {
        let ghost pre = self.builtins@;
        self.builtins.insert(name, t);
        proof {
            assert forall|k: Seq<char>| self.builtins@.contains_key(k) implies #[trigger] self
                .builtins@[k] < self.nthunks() by {
                if self.builtins@[k] != t {
                    assert(attrs_bounded(pre, self.nthunks()));
                    assert(pre[k] < self.nthunks());
                }
            }
        }
    }

    /// Registers the built-in operations: `throw` and `toString` as
    /// top-level names, and a `builtins` attribute set carrying those
    /// together with `substring` and `concatStringsSep`; each name is bound
    /// afterwards, to a thunk already holding its operation.
    pub fn install_builtins(&mut self)
        requires
            old(self).wf(),
        ensures
            final(self).wf(),
            final(self).nexprs() == old(self).nexprs(),
            final(self).builtins@.contains_key("throw"@),
            final(self).builtins@.contains_key("toString"@),
            final(self).builtins@.contains_key("builtins"@),
            final(self).tv()[final(self).builtins@["throw"@] as int] == ThunkV::Done(
                ValueV::Primop { op: PrimopOp::Throw, args: Seq::empty() },
            ),
            final(self).tv()[final(self).builtins@["toString"@] as int] == ThunkV::Done(
                ValueV::Primop { op: PrimopOp::ToString, args: Seq::empty() },
            ),
            match final(self).tv()[final(self).builtins@["builtins"@] as int] {
                ThunkV::Done(ValueV::AttrSet(m)) => {
                    &&& m.contains_key("substring"@)
                    &&& m.contains_key("concatStringsSep"@)
                    &&& final(self).tv()[m["substring"@] as int] == ThunkV::Done(
                        ValueV::Primop { op: PrimopOp::Substring, args: Seq::empty() },
                    )
                    &&& final(self).tv()[m["concatStringsSep"@] as int] == ThunkV::Done(
                        ValueV::Primop { op: PrimopOp::ConcatStringsSep, args: Seq::empty() },
                    )
                },
                _ => false,
            },
    {
        let ghost s0 = *self;
        let t_throw = self.new_value(
            Value::Primop(Primop { op: PrimopOp::Throw, args: Vec::new() }),
        );
        let ghost s1 = *self;
        let t_tostring = self.new_value(
            Value::Primop(Primop { op: PrimopOp::ToString, args: Vec::new() }),
        );
        let ghost s2 = *self;
        let t_substring = self.new_value(
            Value::Primop(Primop { op: PrimopOp::Substring, args: Vec::new() }),
        );
        let ghost s3 = *self;
        let t_concat = self.new_value(
            Value::Primop(Primop { op: PrimopOp::ConcatStringsSep, args: Vec::new() }),
        );
        proof {
            Eval::lemma_evolves_trans(s0, s1, s2);
            Eval::lemma_evolves_trans(s0, s2, s3);
            Eval::lemma_evolves_trans(s0, s3, *self);
        }
        let mut m = AttrMap::new();
        m.insert(String::from_str("throw"), t_throw);
        m.insert(String::from_str("toString"), t_tostring);
        m.insert(String::from_str("substring"), t_substring);
        m.insert(String::from_str("concatStringsSep"), t_concat);
        proof {
            assert(attrs_bounded(m@, self.nthunks())) by {
                assert forall|k: Seq<char>| m@.contains_key(k) implies #[trigger] m@[k]
                    < self.nthunks() by {
                    assert(m@[k] == t_throw || m@[k] == t_tostring || m@[k] == t_substring
                        || m@[k] == t_concat);
                }
            }
            assert(value_bounded(
                ValueV::AttrSet(m@),
                self.nthunks(),
                self.nexprs(),
                self.nscopes(),
            ));
        }
        let ghost s4 = *self;
        let ghost mm = m@;
        let t_builtins = self.new_value(Value::AttrSet(m));
        proof {
            Eval::lemma_evolves_trans(s0, s4, *self);
            assert(self.tv()[t_builtins as int] == ThunkV::Done(ValueV::AttrSet(mm)));
            assert(s4.tv()[t_substring as int] == ThunkV::Done(
                ValueV::Primop { op: PrimopOp::Substring, args: Seq::empty() },
            ));
            assert(s4.thunks@[t_substring as int]@ == s4.tv()[t_substring as int]);
            assert(self.thunks@[t_substring as int]@ == s4.thunks@[t_substring as int]@);
            assert(self.tv()[t_substring as int] == ThunkV::Done(
                ValueV::Primop { op: PrimopOp::Substring, args: Seq::empty() },
            ));
            assert(s4.tv()[t_concat as int] == ThunkV::Done(
                ValueV::Primop { op: PrimopOp::ConcatStringsSep, args: Seq::empty() },
            ));
            assert(s4.thunks@[t_concat as int]@ == s4.tv()[t_concat as int]);
            assert(self.thunks@[t_concat as int]@ == s4.thunks@[t_concat as int]@);
            reveal_strlit("throw");
            reveal_strlit("toString");
            reveal_strlit("builtins");
            reveal_strlit("substring");
            reveal_strlit("concatStringsSep");
            assert(("throw")@.len() == 5);
            assert(("toString")@.len() == 8);
            assert(("builtins")@.len() == 8);
            assert(("toString")@[0] == 't');
            assert(("builtins")@[0] == 'b');
            assert(("throw")@ != ("toString")@);
            assert(("throw")@ != ("builtins")@);
            assert(("toString")@ != ("builtins")@);
            assert(("substring")@.len() == 9);
            assert(("concatStringsSep")@.len() == 16);
            assert(("substring")@ != ("concatStringsSep")@);
            assert(mm["substring"@] == t_substring);
            assert(mm["concatStringsSep"@] == t_concat);
        }
        self.add_builtin(String::from_str("throw"), t_throw);
        self.add_builtin(String::from_str("toString"), t_tostring);
        self.add_builtin(String::from_str("builtins"), t_builtins);
        proof {
            assert(self.builtins@["throw"@] == t_throw);
            assert(self.builtins@["toString"@] == t_tostring);
            assert(self.builtins@["builtins"@] == t_builtins);
            assert(self.tv()[t_throw as int] == ThunkV::Done(
                ValueV::Primop { op: PrimopOp::Throw, args: Seq::empty() },
            ));
            assert(self.tv()[t_tostring as int] == ThunkV::Done(
                ValueV::Primop { op: PrimopOp::ToString, args: Seq::empty() },
            ));
        }
    }

    /// Takes the cell out of a thunk still holding work, leaving the
    /// black-hole sentinel in its place.
    fn take_cell(&mut self, t: ThunkId) -> (r: ThunkCell)
        requires
            old(self).wf(),
            t < old(self).nthunks(),
            old(self).tv()[t as int] is Cell,
        ensures
            final(self).wf(),
            Eval::evolves(*old(self), *final(self)),
            ThunkV::Cell(r@) == old(self).tv()[t as int],
            final(self).tv() == old(self).tv().update(t as int, ThunkV::Cell(CellV::Blackhole)),
            final(self).sv() == old(self).sv(),
            final(self).nthunks() == old(self).nthunks(),
            final(self).nscopes() == old(self).nscopes(),
            cell_bounded(r@, old(self).nthunks(), old(self).nexprs(), old(self).nscopes()),
    {
        proof {
            assert(old(self).thunks@[t as int]@ == old(self).tv()[t as int]);
        }
        let th = &mut self.thunks[t];
        let c = th.get_thunk();
        proof {
            assert(self.tv() =~= old(self).tv().update(t as int, ThunkV::Cell(CellV::Blackhole)));
            assert(self.sv() =~= old(self).sv());
            assert forall|i: int| 0 <= i < self.thunks@.len() implies thunk_bounded(
                (#[trigger] self.thunks@[i])@,
                self.nthunks(),
                self.nexprs(),
                self.nscopes(),
            ) by {
                if i != t {
                    assert(self.thunks@[i] == old(self).thunks@[i]);
                }
            }
        }
        c
    }

    /// Installs the value computed for a reserved or black-holed thunk: the
    /// one-shot transition of the memoisation protocol.
    pub(crate) fn install_value(&mut self, t: ThunkId, v: Value)
        requires
            old(self).wf(),
            t < old(self).nthunks(),
            old(self).tv()[t as int] == ThunkV::Cell(CellV::Blackhole) || old(self).tv()[t as int]
                == ThunkV::Cell(CellV::Pending),
            old(self).value_ok(v),
            !(v@ is Ref),
        ensures
            final(self).wf(),
            final(self).tv() == old(self).tv().update(t as int, ThunkV::Done(v@)),
            final(self).sv() == old(self).sv(),
            final(self).nthunks() == old(self).nthunks(),
            final(self).nscopes() == old(self).nscopes(),
            final(self).exprs@ == old(self).exprs@,
            final(self).exprs.spans_seq() == old(self).exprs.spans_seq(),
            final(self).builtins@ == old(self).builtins@,
    {
        proof {
            assert(old(self).thunks@[t as int]@ == old(self).tv()[t as int]);
        }
        let th = &mut self.thunks[t];
        th.put_value(v);
        proof {
            assert(self.tv() =~= old(self).tv().update(t as int, ThunkV::Done(v@)));
            assert(self.sv() =~= old(self).sv());
            assert forall|i: int| 0 <= i < self.thunks@.len() implies thunk_bounded(
                (#[trigger] self.thunks@[i])@,
                self.nthunks(),
                self.nexprs(),
                self.nscopes(),
            ) by {
                if i != t {
                    assert(self.thunks@[i] == old(self).thunks@[i]);
                }
            }
        }
    }

    /// Drives a thunk to weak head normal form.
    ///
    /// Determinism and memoisation: when the thunk has already transitioned
    /// (`Done` in the starting state), the call changes nothing and returns
    /// exactly the stored value, so repeated forces of the same id agree and
    /// the cell is never consulted again. The result is never a `Ref`, and
    /// it is recorded at `t` in the final state.
    pub fn force(&mut self, t: ThunkId, fuel: u64) -> (r: Result<Value, Error>)
        requires
            old(self).wf(),
            t < old(self).nthunks(),
        ensures
            final(self).wf(),
            Eval::evolves(*old(self), *final(self)),
            match r {
                Ok(v) => final(self).value_ok(v) && !(v@ is Ref) && final(self).tv()[t as int]
                    == ThunkV::Done(v@),
                Err(_) => true,
            },
            old(self).tv()[t as int] is Done ==> *final(self) == *old(self) && match r {
                Ok(v) => ThunkV::Done(v@) == old(self).tv()[t as int],
                Err(_) => false,
            },
            fuel >= 1 && old(self).tv()[t as int] == ThunkV::Cell(CellV::Blackhole) ==> (
            r matches Err(e) && e.kind is InfiniteLoop),
            fuel >= 2 ==> match old(self).tv()[t as int] {
                ThunkV::Cell(CellV::Expr(e, c)) => match old(self).exprs@[e as int] {
                    Expr::Int(n) => r matches Ok(v) && v@ == ValueV::Int(n),
                    Expr::Bool(b) => r matches Ok(v) && v@ == ValueV::Bool(b),
                    Expr::Null => r matches Ok(v) && v@ == ValueV::Null,
                    Expr::Path(_) => r matches Ok(v) && v@ == ValueV::Path(
                        old(self).exprs@[e as int]->Path_0@,
                    ),
                    Expr::Lambda { param, body } => r matches Ok(v) && v@ == ValueV::Lambda {
                        param: param@,
                        body,
                        captures: c,
                    },
                    _ => true,
                },
                _ => true,
            },
        decreases fuel,
    {
        proof {
            assert(old(self).thunks@[t as int]@ == old(self).tv()[t as int]);
        }
        // Memoised fast path: never consult the cell of a transitioned thunk.
        let already = {
            let th = &self.thunks[t];
            match th.value_ref() {
                Some(v) => Some(v.duplicate()),
                None => None,
            }
        };
        if let Some(v) = already {
            return Ok(v);
        }
        if fuel == 0 {
            return Err(Error::new(ErrorKind::RecursionLimit));
        }
        let ghost s0 = *self;
        let cell = self.take_cell(t);
        let ghost cellv = cell@;
        let ghost s1 = *self;
        let stepped: Result<Value, Error> = match cell {
            ThunkCell::Blackhole => {
                // Re-entry into a thunk being forced: the cycle signal.
                return Err(Error::new(ErrorKind::InfiniteLoop));
            },
            ThunkCell::Pending => {
                // A binding consulted its attribute set while it was still
                // being built.
                return Err(Error::new(ErrorKind::InfiniteLoop));
            },
            ThunkCell::Expr(e, ctx) => {
                proof {
                    assert(cellv == CellV::Expr(e, ctx@));
                    assert(ctx_bounded(ctx@, self.nscopes()));
                }
                self.step_eval(e, ctx, fuel - 1)
            },
            ThunkCell::Apply(f, a) => {
                proof {
                    assert(cellv == CellV::Apply(f, a));
                }
                match self.force(f, fuel - 1) {
                    Ok(fv) => {
                        let ghost sb = *self;
                        let rr = self.apply_value(fv, a, fuel - 1);
                        proof {
                            Eval::lemma_evolves_trans(s1, sb, *self);
                        }
                        rr
                    },
                    Err(err) => Err(err),
                }
            },
            ThunkCell::Lookup(name, lctx) => {
                proof {
                    assert(cellv == CellV::Lookup(name@, lctx@));
                    assert(ctx_bounded(lctx@, self.nscopes()));
                }
                match self.lookup_var(&name, &lctx, fuel - 1) {
                    Ok(tid) => Ok(Value::Ref(tid)),
                    Err(err) => Err(err),
                }
            },
            ThunkCell::InheritFrom(ft, name) => {
                proof {
                    assert(cellv == CellV::InheritFrom(ft, name@));
                }
                match self.force(ft, fuel - 1) {
                    Ok(fv) => {
                        let ghost fvv = fv@;
                        match fv {
                            Value::AttrSet(m) => {
                                proof {
                                    assert(fvv == ValueV::AttrSet(m@));
                                    assert(attrs_bounded(m@, self.nthunks()));
                                }
                                match m.get(name.as_str()) {
                                    Some(tid) => Ok(Value::Ref(tid)),
                                    None => Err(Error::new(ErrorKind::MissingAttribute(name))),
                                }
                            },
                            other => Err(
                                Error::new(
                                    ErrorKind::TypeError {
                                        expected: String::from_str("set"),
                                        got: String::from_str(other.typename()),
                                    },
                                ),
                            ),
                        }
                    },
                    Err(err) => Err(err),
                }
            },
        };
        let ghost s2 = *self;
        proof {
            Eval::lemma_evolves_trans(s0, s1, s2);
            assert(s1.thunks@[t as int]@ == s1.tv()[t as int]);
            assert(s1.thunks@[t as int]@ == ThunkV::Cell(CellV::Blackhole));
            assert(s2.thunks@[t as int]@ == s1.thunks@[t as int]@);
            assert(s2.tv()[t as int] == ThunkV::Cell(CellV::Blackhole));
            assert(cellv != CellV::Blackhole);
            assert(cellv != CellV::Pending);
            assert(s0.tv()[t as int] == ThunkV::Cell(cellv));
        }
        let v = match stepped {
            Ok(v) => v,
            Err(err) => {
                return Err(err);
            },
        };
        // Collapse forwarding: never store a bare `Ref`.
        let v2 = if let Value::Ref(u) = v {
            let rr = self.force(u, fuel - 1);
            proof {
                Eval::lemma_evolves_trans(s0, s2, *self);
                assert(s2.thunks@[t as int]@ == self.thunks@[t as int]@);
            }
            match rr {
                Ok(w) => w,
                Err(err) => {
                    return Err(err);
                },
            }
        } else {
            v
        };
        let ghost s3 = *self;
        proof {
            Eval::lemma_evolves_trans(s0, s2, s3);
            assert(s3.thunks@[t as int]@ == s2.thunks@[t as int]@);
            assert(s3.tv()[t as int] == ThunkV::Cell(CellV::Blackhole));
        }
        let out = v2.duplicate();
        self.install_value(t, v2);
        proof {
            assert(Eval::evolves(s0, *self)) by {
                assert forall|i: int| 0 <= i < s0.scopes@.len() implies (
                #[trigger] self.scopes@[i])@ == s0.scopes@[i]@ by {
                    assert(s3.scopes@[i]@ == s0.scopes@[i]@);
                    assert(self.sv()[i] == s3.sv()[i]);
                    assert(self.scopes@[i]@ == self.sv()[i]);
                    assert(s3.scopes@[i]@ == s3.sv()[i]);
                }
                assert forall|i: int|
                    0 <= i < s0.thunks@.len() && (#[trigger] s0.thunks@[i])@ is Done implies self
                    .thunks@[i]@ == s0.thunks@[i]@ by {
                    assert(s3.thunks@[i]@ == s0.thunks@[i]@);
                    assert(s0.thunks@[t as int]@ == ThunkV::Cell(cellv));
                    assert(i != t);
                    assert(self.tv()[i] == s3.tv()[i]);
                    assert(self.thunks@[i]@ == s3.thunks@[i]@);
                }
                assert forall|i: int|
                    0 <= i < s0.thunks@.len() && (#[trigger] s0.thunks@[i])@ == ThunkV::Cell(
                        CellV::Blackhole,
                    ) implies self.thunks@[i]@ == s0.thunks@[i]@ by {
                    assert(s3.thunks@[i]@ == s0.thunks@[i]@);
                    assert(s0.thunks@[t as int]@ == ThunkV::Cell(cellv));
                    assert(i != t);
                    assert(self.tv()[i] == s3.tv()[i]);
                    assert(self.thunks@[i]@ == s3.thunks@[i]@);
                }
                assert forall|i: int|
                    0 <= i < s0.thunks@.len() && (#[trigger] s0.thunks@[i])@ == ThunkV::Cell(
                        CellV::Pending,
                    ) implies self.thunks@[i]@ == ThunkV::Cell(CellV::Pending) || self.thunks@[i]@
                    == ThunkV::Cell(CellV::Blackhole) by {
                    assert(s0.thunks@[t as int]@ == ThunkV::Cell(cellv));
                    assert(i != t);
                    assert(self.tv()[i] == s3.tv()[i]);
                    assert(self.thunks@[i]@ == s3.thunks@[i]@);
                }
            }
            assert(self.tv()[t as int] == ThunkV::Done(out@));
        }
        Ok(out)
    }

    /// Allocates a thunk for `e` under `ctx` and forces it: the strict
    /// evaluation of one subexpression.
    pub fn eval_value(&mut self, e: ExprId, ctx: &Context, fuel: u64) -> (r: Result<Value, Error>)
        requires
            old(self).wf(),
            e < old(self).nexprs(),
            ctx_bounded(ctx@, old(self).nscopes()),
        ensures
            final(self).wf(),
            Eval::evolves(*old(self), *final(self)),
            match r {
                Ok(v) => final(self).value_ok(v) && !(v@ is Ref),
                Err(_) => true,
            },
            fuel >= 3 ==> match old(self).exprs@[e as int] {
                Expr::Int(n) => r matches Ok(v) && v@ == ValueV::Int(n),
                Expr::Bool(b) => r matches Ok(v) && v@ == ValueV::Bool(b),
                Expr::Null => r matches Ok(v) && v@ == ValueV::Null,
                Expr::Path(_) => r matches Ok(v) && v@ == ValueV::Path(
                    old(self).exprs@[e as int]->Path_0@,
                ),
                Expr::Lambda { param, body } => r matches Ok(v) && v@ == ValueV::Lambda {
                    param: param@,
                    body,
                    captures: ctx@,
                },
                _ => true,
            },
        decreases fuel,
    {
        if fuel == 0 {
            return Err(Error::new(ErrorKind::RecursionLimit));
        }
        let t = self.add_thunk(Thunk::thunk(e, ctx.duplicate()));
        let ghost mid = *self;
        proof {
            assert(mid.tv()[t as int] == ThunkV::Cell(CellV::Expr(e, ctx@)));
        }
        let rr = self.force(t, fuel - 1);
        proof {
            Eval::lemma_evolves_trans(*old(self), mid, *self);
        }
        rr
    }

    /// Evaluates a subexpression that must produce a boolean.
    fn eval_bool(&mut self, e: ExprId, ctx: &Context, fuel: u64) -> (r: Result<bool, Error>)
        requires
            old(self).wf(),
            e < old(self).nexprs(),
            ctx_bounded(ctx@, old(self).nscopes()),
        ensures
            final(self).wf(),
            Eval::evolves(*old(self), *final(self)),
            fuel >= 4 ==> match old(self).exprs@[e as int] {
                Expr::Bool(b) => r == Ok::<bool, Error>(b),
                _ => true,
            },
        decreases fuel,
    {
        if fuel == 0 {
            return Err(Error::new(ErrorKind::RecursionLimit));
        }
        match self.eval_value(e, ctx, fuel - 1) {
            Ok(Value::Bool(b)) => Ok(b),
            Ok(other) => Err(
                Error::at(
                    ErrorKind::TypeError {
                        expected: String::from_str("bool"),
                        got: String::from_str(other.typename()),
                    },
                    e,
                ),
            ),
            Err(err) => Err(err),
        }
    }

    /// Looks a variable up through the context: first every static or
    /// dynamic binder, front to back (innermost first), then every `with`
    /// environment in the same order, then the top-level builtin scope.
    /// A dynamic or `with` scope is forced to an attribute set when
    /// consulted; one that lacks the name is no error.
    fn lookup_var(&mut self, name: &String, ctx: &Context, fuel: u64) -> (r: Result<ThunkId, Error>)
        requires
            old(self).wf(),
            ctx_bounded(ctx@, old(self).nscopes()),
        ensures
            final(self).wf(),
            Eval::evolves(*old(self), *final(self)),
            match r {
                Ok(t) => t < final(self).nthunks(),
                Err(_) => true,
            },
            fuel >= 1 && all_static(old(self).sv(), ctx@) ==> match static_hit(
                old(self).sv(),
                ctx@,
                name@,
                0,
            ) {
                Some(t) => r == Ok::<ThunkId, Error>(t),
                None => (if old(self).builtins@.contains_key(name@) {
                    r == Ok::<ThunkId, Error>(old(self).builtins@[name@])
                } else {
                    (r matches Err(e) && e.kind is UnboundVariable)
                }),
            },
            fuel >= 1 && ctx@.len() > 0 ==> match old(self).sv()[ctx@[0] as int] {
                ScopeV::Static(m) => (m.contains_key(name@) ==> r == Ok::<ThunkId, Error>(
                    m[name@],
                )),
                _ => true,
            },
        decreases fuel,
    {
        if fuel == 0 {
            return Err(Error::new(ErrorKind::RecursionLimit));
        }
        let ghost s0 = *self;
        let ghost hyp0 = ctx@.len() > 0 && (s0.sv()[ctx@[0] as int] matches ScopeV::Static(m)
            && m.contains_key(name@));
        let n = ctx.len();
        // First rank: every binder that is not a `with` environment.
        let mut i: usize = 0;
        while i < n
            invariant
                i <= n,
                n == ctx@.len(),
                fuel >= 1,
                s0 == *old(self),
                self.wf(),
                Eval::evolves(*old(self), *self),
                ctx_bounded(ctx@, old(self).nscopes()),
                old(self).nscopes() <= self.nscopes(),
                all_static(s0.sv(), ctx@) ==> static_hit(s0.sv(), ctx@, name@, i as int)
                    == static_hit(s0.sv(), ctx@, name@, 0) && *self == s0,
                hyp0 == (ctx@.len() > 0 && (s0.sv()[ctx@[0] as int] matches ScopeV::Static(m)
                    && m.contains_key(name@))),
                hyp0 ==> i == 0,
                i == 0 ==> *self == s0,
            decreases n - i,
        {
            let sid = match ctx.get(i) {
                Some(s) => s,
                None => {
                    proof {
                        assert(false);
                    }
                    0
                },
            };
            let ghost pre = *self;
            let mut dynamic_thunk: Option<ThunkId> = None;
            {
                let sc = &self.scopes[sid];
                match sc {
                    Scope::Static(m) => {
                        proof {
                            assert(scope_rep_wf(self.scopes@[sid as int]));
                            assert(scope_bounded(self.scopes@[sid as int]@, self.nthunks()));
                            assert(self.scopes@[sid as int]@ == ScopeV::Static(m@));
                            assert(attrs_bounded(m@, self.nthunks()));
                            if all_static(s0.sv(), ctx@) {
                                assert(s0.sv()[sid as int] == s0.scopes@[sid as int]@);
                                assert(s0.sv()[sid as int] == ScopeV::Static(m@));
                            }
                            if hyp0 && i == 0 {
                                assert(s0.sv()[sid as int] == s0.scopes@[sid as int]@);
                                assert(s0.sv()[ctx@[0] as int] == ScopeV::Static(m@));
                            }
                        }
                        if let Some(tid) = m.get(name.as_str()) {
                            proof {
                                assert(m@[name@] < self.nthunks());
                                if all_static(s0.sv(), ctx@) {
                                    assert(static_hit(s0.sv(), ctx@, name@, i as int) == Some(
                                        m@[name@],
                                    ));
                                }
                            }
                            return Ok(tid);
                        }
                        proof {
                            if all_static(s0.sv(), ctx@) {
                                assert(static_hit(s0.sv(), ctx@, name@, i + 1) == static_hit(
                                    s0.sv(),
                                    ctx@,
                                    name@,
                                    i as int,
                                ));
                            }
                            if hyp0 && i == 0 {
                                assert(false);
                            }
                        }
                    },
                    Scope::Dynamic(dt) => {
                        proof {
                            assert(scope_bounded(self.scopes@[sid as int]@, self.nthunks()));
                            assert(self.scopes@[sid as int]@ == ScopeV::Dynamic(*dt));
                            if all_static(s0.sv(), ctx@) {
                                assert(s0.sv()[sid as int] == s0.scopes@[sid as int]@);
                                assert(false);
                            }
                            if hyp0 && i == 0 {
                                assert(s0.sv()[sid as int] == s0.scopes@[sid as int]@);
                                assert(false);
                            }
                        }
                        dynamic_thunk = Some(*dt);
                    },
                    Scope::With(_) => {
                        // Ranked below every other binder: second pass.
                        proof {
                            if all_static(s0.sv(), ctx@) {
                                assert(s0.sv()[sid as int] == s0.scopes@[sid as int]@);
                                assert(false);
                            }
                            if hyp0 && i == 0 {
                                assert(s0.sv()[sid as int] == s0.scopes@[sid as int]@);
                                assert(false);
                            }
                        }
                    },
                }
            }
            if let Some(dt) = dynamic_thunk {
                match self.consult_scope_set(dt, name, fuel - 1) {
                    Ok(Some(tid)) => {
                        proof {
                            Eval::lemma_evolves_trans(*old(self), pre, *self);
                        }
                        return Ok(tid);
                    },
                    Ok(None) => {},
                    Err(err) => {
                        proof {
                            Eval::lemma_evolves_trans(*old(self), pre, *self);
                        }
                        return Err(err);
                    },
                }
                proof {
                    Eval::lemma_evolves_trans(*old(self), pre, *self);
                }
            }
            i = i + 1;
        }
        // Second rank: the `with` environments, innermost first.
        proof {
            if all_static(s0.sv(), ctx@) {
                assert(static_hit(s0.sv(), ctx@, name@, n as int) is None);
            }
            assert(!hyp0);
        }
        let mut i: usize = 0;
        while i < n
            invariant
                i <= n,
                n == ctx@.len(),
                fuel >= 1,
                s0 == *old(self),
                self.wf(),
                Eval::evolves(*old(self), *self),
                ctx_bounded(ctx@, old(self).nscopes()),
                old(self).nscopes() <= self.nscopes(),
                all_static(s0.sv(), ctx@) ==> static_hit(s0.sv(), ctx@, name@, 0) is None
                    && *self == s0,
                hyp0 == (ctx@.len() > 0 && (s0.sv()[ctx@[0] as int] matches ScopeV::Static(m)
                    && m.contains_key(name@))),
                !hyp0,
            decreases n - i,
        {
            let sid = match ctx.get(i) {
                Some(s) => s,
                None => {
                    proof {
                        assert(false);
                    }
                    0
                },
            };
            let ghost pre = *self;
            let mut with_thunk: Option<ThunkId> = None;
            {
                let sc = &self.scopes[sid];
                match sc {
                    Scope::With(wt) => {
                        proof {
                            assert(scope_bounded(self.scopes@[sid as int]@, self.nthunks()));
                            assert(self.scopes@[sid as int]@ == ScopeV::With(*wt));
                            if all_static(s0.sv(), ctx@) {
                                assert(s0.sv()[sid as int] == s0.scopes@[sid as int]@);
                                assert(false);
                            }
                        }
                        with_thunk = Some(*wt);
                    },
                    _ => {},
                }
            }
            if let Some(wt) = with_thunk {
                match self.consult_scope_set(wt, name, fuel - 1) {
                    Ok(Some(tid)) => {
                        proof {
                            Eval::lemma_evolves_trans(*old(self), pre, *self);
                        }
                        return Ok(tid);
                    },
                    Ok(None) => {},
                    Err(err) => {
                        proof {
                            Eval::lemma_evolves_trans(*old(self), pre, *self);
                        }
                        return Err(err);
                    },
                }
                proof {
                    Eval::lemma_evolves_trans(*old(self), pre, *self);
                }
            }
            i = i + 1;
        }
        match self.builtins.get(name.as_str()) {
            Some(tid) => {
                proof {
                    assert(attrs_bounded(self.builtins@, self.nthunks()));
                    assert(self.builtins@[name@] < self.nthunks());
                }
                Ok(tid)
            },
            None => Err(Error::new(ErrorKind::UnboundVariable(name.clone()))),
        }
    }

    /// Forces the thunk behind a dynamic or `with` scope to an attribute
    /// set and looks the name up in it; a missing name is no error here.
    fn consult_scope_set(&mut self, dt: ThunkId, name: &String, fuel: u64) -> (r: Result<
        Option<ThunkId>,
        Error,
    >)
        requires
            old(self).wf(),
            dt < old(self).nthunks(),
        ensures
            final(self).wf(),
            Eval::evolves(*old(self), *final(self)),
            match r {
                Ok(Some(t)) => t < final(self).nthunks(),
                _ => true,
            },
        decreases fuel,
    {
        if fuel == 0 {
            return Err(Error::new(ErrorKind::RecursionLimit));
        }
        let fv = match self.force(dt, fuel - 1) {
            Ok(fv) => fv,
            Err(err) => {
                return Err(err);
            },
        };
        let ghost fvv = fv@;
        match fv {
            Value::AttrSet(m) => {
                proof {
                    assert(fvv == ValueV::AttrSet(m@));
                    assert(attrs_bounded(m@, self.nthunks()));
                }
                match m.get(name.as_str()) {
                    Some(tid) => {
                        proof {
                            assert(m@[name@] < self.nthunks());
                        }
                        Ok(Some(tid))
                    },
                    None => Ok(None),
                }
            },
            other => Err(
                Error::new(
                    ErrorKind::TypeError {
                        expected: String::from_str("set"),
                        got: String::from_str(other.typename()),
                    },
                ),
            ),
        }
    }

    /// Applies a forced function value to an argument thunk.
    fn apply_value(&mut self, f: Value, arg: ThunkId, fuel: u64) -> (r: Result<Value, Error>)
        requires
            old(self).wf(),
            old(self).value_ok(f),
            arg < old(self).nthunks(),
        ensures
            final(self).wf(),
            Eval::evolves(*old(self), *final(self)),
            match r {
                Ok(v) => final(self).value_ok(v),
                Err(_) => true,
            },
        decreases fuel,
    {
        if fuel == 0 {
            return Err(Error::new(ErrorKind::RecursionLimit));
        }
        let ghost fv0 = f@;
        match f {
            Value::Lambda { param: LambdaParam::Plain(name), body, captures } => {
                proof {
                    assert(fv0 == ValueV::Lambda {
                        param: ParamV::Plain(name@),
                        body,
                        captures: captures@,
                    });
                    assert(ctx_bounded(captures@, old(self).nscopes()));
                }
                let mut m = AttrMap::new();
                m.insert(name, arg);
                let sid = self.add_scope(Scope::Static(m));
                let ghost mid = *self;
                let ctx2 = captures.prepend(sid);
                proof {
                    assert(ctx_bounded(ctx2@, self.nscopes())) by {
                        assert forall|j: int| 0 <= j < ctx2@.len() implies #[trigger] ctx2@[j]
                            < self.nscopes() by {
                            if j > 0 {
                                assert(ctx2@[j] == captures@[j - 1]);
                                assert(captures@[j - 1] < old(self).nscopes());
                            } else {
                                assert(ctx2@[j] == sid);
                            }
                        }
                    }
                }
                let rr = self.step_eval(body, ctx2, fuel - 1);
                proof {
                    Eval::lemma_evolves_trans(*old(self), mid, *self);
                }
                rr
            },
            Value::Lambda {
                param: LambdaParam::Formals { formals, ellipsis, at },
                body,
                captures,
            } => {
                self.apply_formals(formals, ellipsis, at, body, captures, arg, fuel - 1)
            },
            Value::Primop(p) => {
                proof {
                    assert(fv0 == ValueV::Primop { op: p.op, args: p.args@ });
                    assert(ids_bounded(p.args@, old(self).nthunks()));
                }
                let mut args = clone_ids(&p.args);
                args.push(arg);
                proof {
                    assert(ids_bounded(args@, self.nthunks())) by {
                        assert forall|j: int| 0 <= j < args@.len() implies #[trigger] args@[j]
                            < self.nthunks() by {
                            if j < args@.len() - 1 {
                                assert(args@[j] == p.args@[j]);
                                assert(p.args@[j] < self.nthunks());
                            }
                        }
                    }
                }
                let arity = p.op.arity();
                if args.len() == arity {
                    self.call_primop(p.op, args, fuel - 1)
                } else {
                    Ok(Value::Primop(Primop { op: p.op, args }))
                }
            },
            other => Err(Error::new(ErrorKind::NotAFunction(String::from_str(other.typename())))),
        }
    }

    /// Applies a lambda with an attribute pattern: the argument must be an
    /// attribute set; declared formals take the argument's attribute when
    /// present and fall back to their default, which may reference sibling
    /// formals; without `...`, undeclared argument keys are an error.
    fn apply_formals(
        &mut self,
        formals: Vec<crate::expr::Formal>,
        ellipsis: bool,
        at: Option<String>,
        body: ExprId,
        captures: Context,
        arg: ThunkId,
        fuel: u64,
    ) -> (r: Result<Value, Error>)
        requires
            old(self).wf(),
            old(self).value_ok(
                Value::Lambda {
                    param: LambdaParam::Formals { formals, ellipsis, at },
                    body,
                    captures,
                },
            ),
            arg < old(self).nthunks(),
        ensures
            final(self).wf(),
            Eval::evolves(*old(self), *final(self)),
            match r {
                Ok(v) => final(self).value_ok(v),
                Err(_) => true,
            },
        decreases fuel,
    {
        if fuel == 0 {
            return Err(Error::new(ErrorKind::RecursionLimit));
        }
        let ghost s0 = *self;
        proof {
            let lam = Value::Lambda {
                param: LambdaParam::Formals { formals, ellipsis, at },
                body,
                captures,
            };
            assert(value_bounded(lam@, s0.nthunks(), s0.nexprs(), s0.nscopes()));
            assert(param_wf(lam@->Lambda_param, s0.nexprs()));
            assert(formals_wf(formals_v(formals@), s0.nexprs()));
            assert(ctx_bounded(captures@, s0.nscopes()));
            assert forall|i: int| 0 <= i < formals@.len() implies match (
            #[trigger] formals@[i])@.default {
                Some(e) => e < s0.nexprs(),
                None => true,
            } by {
                assert(formals_v(formals@)[i] == formals@[i]@);
            }
        }
        let argv = match self.force(arg, fuel - 1) {
            Ok(v) => v,
            Err(err) => {
                return Err(err);
            },
        };
        let ghost sf = *self;
        let ghost argvv = argv@;
        let am = match argv {
            Value::AttrSet(am) => am,
            other => {
                return Err(
                    Error::new(
                        ErrorKind::TypeError {
                            expected: String::from_str("set"),
                            got: String::from_str(other.typename()),
                        },
                    ),
                );
            },
        };
        proof {
            assert(argvv == ValueV::AttrSet(am@));
            assert(am.wf());
            assert(attrs_bounded(am@, sf.nthunks()));
        }
        // Without `...`, every argument key must be a declared formal.
        if !ellipsis {
            let count = am.len();
            let mut k: usize = 0;
            while k < count
                invariant
                    k <= count,
                    am.wf(),
                    count == am@.dom().len(),
                    self.wf(),
                    Eval::evolves(*old(self), *self),
                decreases count - k,
            {
                let (key, _) = am.entry_at(k);
                let mut declared = false;
                let nf = formals.len();
                let mut j: usize = 0;
                while j < nf
                    invariant
                        j <= nf,
                        nf == formals@.len(),
                    decreases nf - j,
                {
                    if crate::strutil::str_eq(formals[j].name.as_str(), key.as_str()) {
                        declared = true;
                    }
                    j = j + 1;
                }
                if !declared {
                    return Err(Error::new(ErrorKind::TooManyArgs));
                }
                k = k + 1;
            }
        }
        // The formal scope is dynamic over a reservation, so defaults can
        // reference sibling formals.
        let ph = self.add_thunk(Thunk::new(ThunkCell::Pending));
        let ghost sp = *self;
        let sid = self.add_scope(Scope::Dynamic(ph));
        proof {
            Eval::lemma_evolves_trans(s0, sf, sp);
            Eval::lemma_evolves_trans(s0, sp, *self);
        }
        let ctx2 = captures.prepend(sid);
        proof {
            assert(ctx_bounded(ctx2@, self.nscopes())) by {
                assert forall|j: int| 0 <= j < ctx2@.len() implies #[trigger] ctx2@[j]
                    < self.nscopes() by {
                    if j > 0 {
                        assert(ctx2@[j] == captures@[j - 1]);
                        assert(captures@[j - 1] < s0.nscopes());
                    } else {
                        assert(ctx2@[j] == sid);
                    }
                }
            }
            assert(attrs_bounded(am@, self.nthunks())) by {
                assert forall|k: Seq<char>| am@.contains_key(k) implies #[trigger] am@[k]
                    < self.nthunks() by {
                    assert(am@[k] < sf.nthunks());
                }
            }
        }
        let mut m = AttrMap::new();
        let nf = formals.len();
        let mut j: usize = 0;
        while j < nf
            invariant
                j <= nf,
                nf == formals@.len(),
                fuel >= 1,
                ph < self.nthunks(),
                s0 == *old(self),
                self.wf(),
                Eval::evolves(s0, *self),
                m.wf(),
                attrs_bounded(m@, self.nthunks()),
                am.wf(),
                attrs_bounded(am@, self.nthunks()),
                ctx_bounded(ctx2@, self.nscopes()),
                body < self.nexprs(),
                arg < self.nthunks(),
                self.tv()[ph as int] == ThunkV::Cell(CellV::Pending),
                forall|i: int|
                    0 <= i < formals@.len() ==> match (#[trigger] formals@[i])@.default {
                        Some(e) => e < self.nexprs(),
                        None => true,
                    },
            decreases nf - j,
        {
            let fo = &formals[j];
            match am.get(fo.name.as_str()) {
                Some(tid) => {
                    proof {
                        assert(am@[fo.name@] < self.nthunks());
                    }
                    let ghost m_pre = m@;
                    m.insert(fo.name.clone(), tid);
                    proof {
                        assert(attrs_bounded(m@, self.nthunks())) by {
                            assert forall|k: Seq<char>| m@.contains_key(k) implies #[trigger] m@[k]
                                < self.nthunks() by {
                                if k != fo.name@ {
                                    assert(m_pre[k] < self.nthunks());
                                }
                            }
                        }
                    }
                },
                None => match fo.default {
                    Some(d) => {
                        let ghost pre = *self;
                        let tid = self.add_thunk(Thunk::thunk(d, ctx2.duplicate()));
                        proof {
                            Eval::lemma_evolves_trans(s0, pre, *self);
                            assert(self.tv()[ph as int] == pre.tv()[ph as int]);
                            crate::attrs::lemma_attrs_bounded_mono(
                                m@,
                                pre.nthunks(),
                                self.nthunks(),
                            );
                            crate::attrs::lemma_attrs_bounded_mono(
                                am@,
                                pre.nthunks(),
                                self.nthunks(),
                            );
                        }
                        let ghost m_pre = m@;
                        m.insert(fo.name.clone(), tid);
                        proof {
                            assert(attrs_bounded(m@, self.nthunks())) by {
                                assert forall|k: Seq<char>| m@.contains_key(k) implies
                                    #[trigger] m@[k] < self.nthunks() by {
                                    if k != fo.name@ {
                                        assert(m_pre[k] < self.nthunks());
                                    }
                                }
                            }
                        }
                    },
                    None => {
                        return Err(Error::new(ErrorKind::MissingArg(fo.name.clone())));
                    },
                },
            }
            j = j + 1;
        }
        if let Some(name) = at {
            let ghost m_pre = m@;
            m.insert(name, arg);
            proof {
                assert(attrs_bounded(m@, self.nthunks())) by {
                    assert forall|k: Seq<char>| m@.contains_key(k) implies #[trigger] m@[k]
                        < self.nthunks() by {
                        if m_pre.contains_key(k) && m@[k] == m_pre[k] {
                            assert(m_pre[k] < self.nthunks());
                        }
                    }
                }
            }
        }
        let ghost pre2 = *self;
        self.install_value(ph, Value::AttrSet(m));
        proof {
            assert(Eval::evolves(s0, *self)) by {
                assert forall|i: int| 0 <= i < s0.scopes@.len() implies (
                #[trigger] self.scopes@[i])@ == s0.scopes@[i]@ by {
                    assert(pre2.scopes@[i]@ == s0.scopes@[i]@);
                    assert(self.sv()[i] == pre2.sv()[i]);
                    assert(self.scopes@[i]@ == self.sv()[i]);
                    assert(pre2.scopes@[i]@ == pre2.sv()[i]);
                }
                assert forall|i: int|
                    0 <= i < s0.thunks@.len() && (#[trigger] s0.thunks@[i])@ is Done implies self
                    .thunks@[i]@ == s0.thunks@[i]@ by {
                    assert(pre2.thunks@[i]@ == s0.thunks@[i]@);
                    assert(pre2.tv()[ph as int] == ThunkV::Cell(CellV::Pending));
                    assert(pre2.thunks@[ph as int]@ == ThunkV::Cell(CellV::Pending));
                    assert(i != ph);
                    assert(self.tv()[i] == pre2.tv()[i]);
                    assert(self.thunks@[i]@ == pre2.thunks@[i]@);
                }
                assert forall|i: int|
                    0 <= i < s0.thunks@.len() && (#[trigger] s0.thunks@[i])@ == ThunkV::Cell(
                        CellV::Blackhole,
                    ) implies self.thunks@[i]@ == s0.thunks@[i]@ by {
                    assert(pre2.thunks@[i]@ == s0.thunks@[i]@);
                    assert(pre2.tv()[ph as int] == ThunkV::Cell(CellV::Pending));
                    assert(pre2.thunks@[ph as int]@ == ThunkV::Cell(CellV::Pending));
                    assert(i != ph);
                    assert(self.tv()[i] == pre2.tv()[i]);
                    assert(self.thunks@[i]@ == pre2.thunks@[i]@);
                }
                assert forall|i: int|
                    0 <= i < s0.thunks@.len() && (#[trigger] s0.thunks@[i])@ == ThunkV::Cell(
                        CellV::Pending,
                    ) implies self.thunks@[i]@ == ThunkV::Cell(CellV::Pending) || self.thunks@[i]@
                    == ThunkV::Cell(CellV::Blackhole) by {
                    assert(pre2.thunks@[i]@ == ThunkV::Cell(CellV::Pending) || pre2.thunks@[i]@
                        == ThunkV::Cell(CellV::Blackhole));
                    assert(pre2.tv()[ph as int] == ThunkV::Cell(CellV::Pending));
                    assert(pre2.thunks@[ph as int]@ == ThunkV::Cell(CellV::Pending));
                    if i != ph {
                        assert(self.tv()[i] == pre2.tv()[i]);
                        assert(self.thunks@[i]@ == pre2.thunks@[i]@);
                    } else {
                        assert(ph == sf.nthunks());
                        assert(s0.nthunks() <= sf.nthunks());
                        assert(i < s0.thunks@.len());
                        assert(false);
                    }
                }
            }
        }
        let ghost sq = *self;
        let rr = self.step_eval(body, ctx2, fuel - 1);
        proof {
            Eval::lemma_evolves_trans(s0, sq, *self);
        }
        rr
    }

    /// Runs a saturated builtin. The operations themselves live beside the
    /// string coercion they share.
    fn call_primop(&mut self, op: PrimopOp, args: Vec<ThunkId>, fuel: u64) -> (r: Result<
        Value,
        Error,
    >)
        requires
            old(self).wf(),
            args@.len() == primop_arity(op),
            ids_bounded(args@, old(self).nthunks()),
        ensures
            final(self).wf(),
            Eval::evolves(*old(self), *final(self)),
            match r {
                Ok(v) => final(self).value_ok(v),
                Err(_) => true,
            },
        decreases fuel,
    {
        if fuel == 0 {
            return Err(Error::new(ErrorKind::RecursionLimit));
        }
        crate::strings::dispatch_primop(self, op, args, fuel - 1)
    }

    /// One reduction step: evaluates the expression node `e` under `ctx` to
    /// a value in weak head normal form (possibly a `Ref` that the force
    /// loop collapses). Given any fuel to run on, literals evaluate to
    /// themselves and a lambda captures `ctx` unchanged.
    pub fn step_eval(&mut self, e: ExprId, ctx: Context, fuel: u64) -> (r: Result<Value, Error>)
        requires
            old(self).wf(),
            e < old(self).nexprs(),
            ctx_bounded(ctx@, old(self).nscopes()),
        ensures
            final(self).wf(),
            Eval::evolves(*old(self), *final(self)),
            match r {
                Ok(v) => final(self).value_ok(v),
                Err(_) => true,
            },
            fuel >= 1 ==> match old(self).exprs@[e as int] {
                Expr::Int(n) => r is Ok && r->Ok_0@ == ValueV::Int(n),
                Expr::Bool(b) => r is Ok && r->Ok_0@ == ValueV::Bool(b),
                Expr::Null => r is Ok && r->Ok_0@ == ValueV::Null,
                Expr::Path(_) => r is Ok && r->Ok_0@ == ValueV::Path(
                    old(self).exprs@[e as int]->Path_0@,
                ),
                Expr::Lambda { param, body } => r is Ok && r->Ok_0@ == ValueV::Lambda {
                    param: param@,
                    body,
                    captures: ctx@,
                },
                _ => true,
            },
            fuel >= 2 ==> match old(self).exprs@[e as int] {
                Expr::Var(name) => (all_static(old(self).sv(), ctx@) ==> match static_hit(
                    old(self).sv(),
                    ctx@,
                    name@,
                    0,
                ) {
                    Some(t) => (r matches Ok(v) && v@ == ValueV::Ref(t)),
                    None => (if old(self).builtins@.contains_key(name@) {
                        (r matches Ok(v) && v@ == ValueV::Ref(old(self).builtins@[name@]))
                    } else {
                        (r matches Err(e2) && e2.kind is UnboundVariable)
                    }),
                }),
                _ => true,
            },
            fuel >= 2 ==> match old(self).exprs@[e as int] {
                Expr::Var(name) => (ctx@.len() > 0 ==> match old(self).sv()[ctx@[0] as int] {
                    ScopeV::Static(m) => (m.contains_key(name@) ==> (r matches Ok(v) && v@
                        == ValueV::Ref(m[name@]))),
                    _ => true,
                }),
                _ => true,
            },
        decreases fuel,
    {
        if fuel == 0 {
            return Err(Error::new(ErrorKind::RecursionLimit));
        }
        proof {
            assert(expr_wf_at(*old(self), e));
        }
        let kind = node_kind(self.exprs.node(e));
        let ghost enode = old(self).exprs@[e as int];
        proof {
            assert(kind_matches(enode, kind));
        }
        match kind {
            NodeKind::Int(n) => Ok(Value::Int(n)),
            NodeKind::Bool(b) => Ok(Value::Bool(b)),
            NodeKind::Null => Ok(Value::Null),
            NodeKind::Path(p) => Ok(Value::Path(p)),
            NodeKind::Var(name) => {
                match self.lookup_var(&name, &ctx, fuel - 1) {
                    Ok(tid) => Ok(Value::Ref(tid)),
                    Err(err) => {
                        if err.at.is_none() {
                            Err(Error { kind: err.kind, at: Some(e) })
                        } else {
                            Err(err)
                        }
                    },
                }
            },
            NodeKind::Lambda { param, body } => {
                proof {
                    match enode {
                        Expr::Lambda { param: p0, body: b0 } => {
                            assert(param@ == p0@ && body == b0);
                            assert(param_wf(p0@, e as nat));
                            lemma_param_wf_mono(param@, e as nat, self.nexprs());
                        },
                        _ => {
                            assert(false);
                        },
                    }
                }
                Ok(Value::Lambda { param, body, captures: ctx })
            },
            NodeKind::Apply { func, arg } => {
                proof {
                    match enode {
                        Expr::Apply { func: f0, arg: a0 } => {
                            assert(func == f0 && arg == a0);
                        },
                        _ => {
                            assert(false);
                        },
                    }
                }
                let tf = self.add_thunk(Thunk::thunk(func, ctx.duplicate()));
                let ghost s1 = *self;
                let ta = self.add_thunk(Thunk::thunk(arg, ctx.duplicate()));
                let ghost s2 = *self;
                let tapp = self.add_thunk(Thunk::new(ThunkCell::Apply(tf, ta)));
                proof {
                    Eval::lemma_evolves_trans(*old(self), s1, s2);
                    Eval::lemma_evolves_trans(*old(self), s2, *self);
                }
                Ok(Value::Ref(tapp))
            },
            NodeKind::Unary { op, operand } => {
                proof {
                    match enode {
                        Expr::Unary { op: o0, operand: e0 } => {
                            assert(operand == e0);
                        },
                        _ => {
                            assert(false);
                        },
                    }
                }
                crate::operators::eval_unary(self, op, operand, &ctx, fuel - 1)
            },
            NodeKind::Binary { op, lhs, rhs } => {
                proof {
                    match enode {
                        Expr::Binary { op: o0, lhs: l0, rhs: r0 } => {
                            assert(lhs == l0 && rhs == r0);
                        },
                        _ => {
                            assert(false);
                        },
                    }
                }
                crate::operators::eval_binary(self, op, lhs, rhs, &ctx, fuel - 1)
            },
            NodeKind::If { cond, when_true, when_false } => {
                proof {
                    match enode {
                        Expr::If { cond: c0, when_true: t0, when_false: f0 } => {
                            assert(cond == c0 && when_true == t0 && when_false == f0);
                        },
                        _ => {
                            assert(false);
                        },
                    }
                }
                let b = match self.eval_bool(cond, &ctx, fuel - 1) {
                    Ok(b) => b,
                    Err(err) => {
                        return Err(err);
                    },
                };
                let ghost mid = *self;
                let rr = if b {
                    self.step_eval(when_true, ctx, fuel - 1)
                } else {
                    self.step_eval(when_false, ctx, fuel - 1)
                };
                proof {
                    Eval::lemma_evolves_trans(*old(self), mid, *self);
                }
                rr
            },
            NodeKind::Assert { cond, body } => {
                proof {
                    match enode {
                        Expr::Assert { cond: c0, body: b0 } => {
                            assert(cond == c0 && body == b0);
                        },
                        _ => {
                            assert(false);
                        },
                    }
                }
                let b = match self.eval_bool(cond, &ctx, fuel - 1) {
                    Ok(b) => b,
                    Err(err) => {
                        return Err(err);
                    },
                };
                if b {
                    let ghost mid = *self;
                    let rr = self.step_eval(body, ctx, fuel - 1);
                    proof {
                        Eval::lemma_evolves_trans(*old(self), mid, *self);
                    }
                    rr
                } else {
                    Err(Error::at(ErrorKind::AssertionFailed, e))
                }
            },
            NodeKind::With { env, body } => {
                proof {
                    match enode {
                        Expr::With { env: e0, body: b0 } => {
                            assert(env == e0 && body == b0);
                        },
                        _ => {
                            assert(false);
                        },
                    }
                }
                let te = self.add_thunk(Thunk::thunk(env, ctx.duplicate()));
                let ghost s1 = *self;
                let sid = self.add_scope(Scope::With(te));
                let ghost s2 = *self;
                let ctx2 = ctx.prepend(sid);
                proof {
                    Eval::lemma_evolves_trans(*old(self), s1, s2);
                    assert(ctx_bounded(ctx2@, self.nscopes())) by {
                        assert forall|j: int| 0 <= j < ctx2@.len() implies #[trigger] ctx2@[j]
                            < self.nscopes() by {
                            if j > 0 {
                                assert(ctx2@[j] == ctx@[j - 1]);
                                assert(ctx@[j - 1] < old(self).nscopes());
                            } else {
                                assert(ctx2@[j] == sid);
                            }
                        }
                    }
                }
                let rr = self.step_eval(body, ctx2, fuel - 1);
                proof {
                    Eval::lemma_evolves_trans(*old(self), s2, *self);
                }
                rr
            },
            NodeKind::List(items) => {
                proof {
                    match enode {
                        Expr::List(items0) => {
                            assert(items@ == items0@);
                            assert(exprids_wf(items0@, e as nat));
                            lemma_exprids_wf_mono(items@, e as nat, self.nexprs());
                        },
                        _ => {
                            assert(false);
                        },
                    }
                }
                let ghost s0 = *self;
                let n = items.len();
                let mut ids: Vec<ThunkId> = Vec::new();
                let mut i: usize = 0;
                while i < n
                    invariant
                        i <= n,
                        n == items@.len(),
                        self.wf(),
                        s0 == *old(self),
                        Eval::evolves(s0, *self),
                        ids@.len() == i,
                        ids_bounded(ids@, self.nthunks()),
                        exprids_wf(items@, self.nexprs()),
                        ctx_bounded(ctx@, self.nscopes()),
                    decreases n - i,
                {
                    proof {
                        assert(items@[i as int] < self.nexprs());
                    }
                    let ghost pre = *self;
                    let ghost ids_pre = ids@;
                    let tid = self.add_thunk(Thunk::thunk(items[i], ctx.duplicate()));
                    proof {
                        Eval::lemma_evolves_trans(s0, pre, *self);
                    }
                    ids.push(tid);
                    proof {
                        assert(ids_bounded(ids@, self.nthunks())) by {
                            assert forall|jj: int| 0 <= jj < ids@.len() implies #[trigger] ids@[jj]
                                < self.nthunks() by {
                                if jj < ids@.len() - 1 {
                                    assert(ids@[jj] == ids_pre[jj]);
                                    assert(ids_pre[jj] < pre.nthunks());
                                }
                            }
                        }
                    }
                    i = i + 1;
                }
                Ok(Value::List(ids))
            },
            NodeKind::Str(parts) => {
                proof {
                    match enode {
                        Expr::Str(parts0) => {
                            assert(strparts_v(parts@) == strparts_v(parts0@));
                            assert(strparts_wf(strparts_v(parts0@), e as nat));
                            lemma_strparts_wf_mono(strparts_v(parts@), e as nat, self.nexprs());
                        },
                        _ => {
                            assert(false);
                        },
                    }
                }
                crate::strings::eval_template(self, parts, &ctx, fuel - 1)
            },
            NodeKind::Bindings { recursive, binds, body } => {
                proof {
                    match enode {
                        Expr::Let { binds: b0, body: bd0 } => {
                            assert(bindings_v(binds@) == bindings_v(b0@));
                            assert(bindings_wf(bindings_v(b0@), e as nat));
                            lemma_bindings_wf_mono(bindings_v(binds@), e as nat, self.nexprs());
                        },
                        Expr::AttrSet { recursive: r0, binds: b0 } => {
                            assert(bindings_v(binds@) == bindings_v(b0@));
                            assert(bindings_wf(bindings_v(b0@), e as nat));
                            lemma_bindings_wf_mono(bindings_v(binds@), e as nat, self.nexprs());
                        },
                        _ => {
                            assert(false);
                        },
                    }
                }
                crate::bindings::eval_bindings(self, recursive, binds, body, ctx, fuel - 1)
            },
            NodeKind::Select { base, path, fallback } => {
                proof {
                    match enode {
                        Expr::Select { base: b0, path: p0, fallback: f0 } => {
                            assert(base == b0 && fallback == f0);
                            assert(attrpath_v(path@) == attrpath_v(p0@));
                            assert(attrpath_wf(attrpath_v(p0@), e as nat));
                            lemma_attrpath_wf_mono(attrpath_v(path@), e as nat, self.nexprs());
                        },
                        _ => {
                            assert(false);
                        },
                    }
                }
                self.eval_select(e, base, path, fallback, &ctx, fuel - 1)
            },
            NodeKind::HasAttr { base, path } => {
                proof {
                    match enode {
                        Expr::HasAttr { base: b0, path: p0 } => {
                            assert(base == b0);
                            assert(attrpath_v(path@) == attrpath_v(p0@));
                            assert(attrpath_wf(attrpath_v(p0@), e as nat));
                            lemma_attrpath_wf_mono(attrpath_v(path@), e as nat, self.nexprs());
                        },
                        _ => {
                            assert(false);
                        },
                    }
                }
                match self.walk_path(base, path, &ctx, fuel - 1) {
                    Ok(PathOutcome::Found(_)) => Ok(Value::Bool(true)),
                    Ok(PathOutcome::Missing(_)) => Ok(Value::Bool(false)),
                    Err(err) => Err(err),
                }
            },
        }
    }

    /// `base.path or fallback`: walks the attribute path; a missing
    /// attribute takes the fallback when one is given and fails otherwise.
    fn eval_select(
        &mut self,
        e: ExprId,
        base: ExprId,
        path: Vec<AttrName>,
        fallback: Option<ExprId>,
        ctx: &Context,
        fuel: u64,
    ) -> (r: Result<Value, Error>)
        requires
            old(self).wf(),
            base < old(self).nexprs(),
            attrpath_wf(attrpath_v(path@), old(self).nexprs()),
            match fallback {
                Some(fe) => fe < old(self).nexprs(),
                None => true,
            },
            ctx_bounded(ctx@, old(self).nscopes()),
        ensures
            final(self).wf(),
            Eval::evolves(*old(self), *final(self)),
            match r {
                Ok(v) => final(self).value_ok(v),
                Err(_) => true,
            },
        decreases fuel,
    {
        if fuel == 0 {
            return Err(Error::new(ErrorKind::RecursionLimit));
        }
        let step = match self.walk_path(base, path, ctx, fuel - 1) {
            Ok(step) => step,
            Err(err) => {
                return Err(err);
            },
        };
        let ghost mid = *self;
        match step {
            PathOutcome::Found(tid) => {
                let rr = self.force(tid, fuel - 1);
                proof {
                    Eval::lemma_evolves_trans(*old(self), mid, *self);
                }
                rr
            },
            PathOutcome::Missing(name) => match fallback {
                Some(fe) => {
                    let rr = self.step_eval(fe, ctx.duplicate(), fuel - 1);
                    proof {
                        Eval::lemma_evolves_trans(*old(self), mid, *self);
                    }
                    rr
                },
                None => Err(Error::at(ErrorKind::MissingAttribute(name), e)),
            },
        }
    }

    /// Walks an attribute path from a base expression to the thunk of the
    /// selected attribute, or to the first name that misses.
    fn walk_path(
        &mut self,
        base: ExprId,
        path: Vec<AttrName>,
        ctx: &Context,
        fuel: u64,
    ) -> (r: Result<PathOutcome, Error>)
        requires
            old(self).wf(),
            base < old(self).nexprs(),
            attrpath_wf(attrpath_v(path@), old(self).nexprs()),
            ctx_bounded(ctx@, old(self).nscopes()),
        ensures
            final(self).wf(),
            Eval::evolves(*old(self), *final(self)),
            match r {
                Ok(PathOutcome::Found(t)) => t < final(self).nthunks(),
                _ => true,
            },
        decreases fuel,
    {
        if fuel == 0 {
            return Err(Error::new(ErrorKind::RecursionLimit));
        }
        let ghost s0 = *self;
        let mut cur = match self.eval_value(base, ctx, fuel - 1) {
            Ok(v) => v,
            Err(err) => {
                return Err(err);
            },
        };
        let n = path.len();
        let mut i: usize = 0;
        // The selected thunk, once the final component is resolved.
        let mut out: Option<ThunkId> = None;
        while i < n
            invariant
                i <= n,
                n == path@.len(),
                fuel >= 1,
                s0 == *old(self),
                self.wf(),
                Eval::evolves(s0, *self),
                self.value_ok(cur),
                ctx_bounded(ctx@, self.nscopes()),
                attrpath_wf(attrpath_v(path@), self.nexprs()),
                match out {
                    Some(t) => t < self.nthunks() && i == n,
                    None => i < n || n == 0,
                },
            decreases n - i,
        {
            proof {
                assert(attrpath_v(path@)[i as int] == path@[i as int]@);
                assert(attrname_wf(attrpath_v(path@)[i as int], self.nexprs()));
            }
            let ghost pre = *self;
            let name = match self.attr_name(&path[i], ctx, fuel - 1) {
                Ok(s) => s,
                Err(err) => {
                    proof {
                        Eval::lemma_evolves_trans(s0, pre, *self);
                    }
                    return Err(err);
                },
            };
            proof {
                Eval::lemma_evolves_trans(s0, pre, *self);
                lemma_value_bounded_mono(
                    cur@,
                    pre.nthunks(),
                    pre.nexprs(),
                    pre.nscopes(),
                    self.nthunks(),
                    self.nexprs(),
                    self.nscopes(),
                );
            }
            let ghost curv = cur@;
            let m = match &cur {
                Value::AttrSet(m) => m,
                other => {
                    return Err(
                        Error::new(
                            ErrorKind::TypeError {
                                expected: String::from_str("set"),
                                got: String::from_str(other.typename()),
                            },
                        ),
                    );
                },
            };
            proof {
                assert(curv == ValueV::AttrSet(m@));
                assert(attrs_bounded(m@, self.nthunks()));
            }
            let tid = match m.get(name.as_str()) {
                Some(t) => t,
                None => {
                    return Ok(PathOutcome::Missing(name));
                },
            };
            proof {
                assert(m@[name@] < self.nthunks());
            }
            if i + 1 == n {
                out = Some(tid);
                cur = Value::Null;
            } else {
                let ghost pre2 = *self;
                cur = match self.force(tid, fuel - 1) {
                    Ok(v) => v,
                    Err(err) => {
                        proof {
                            Eval::lemma_evolves_trans(s0, pre2, *self);
                        }
                        return Err(err);
                    },
                };
                proof {
                    Eval::lemma_evolves_trans(s0, pre2, *self);
                }
            }
            i = i + 1;
        }
        match out {
            Some(t) => Ok(PathOutcome::Found(t)),
            None => Ok(PathOutcome::Missing(String::new())),
        }
    }

    /// The name an attribute-path component denotes: a static identifier
    /// directly, a dynamic component by evaluating it to a string.
    pub(crate) fn attr_name(&mut self, a: &AttrName, ctx: &Context, fuel: u64) -> (r: Result<String, Error>)
        requires
            old(self).wf(),
            attrname_wf(a@, old(self).nexprs()),
            ctx_bounded(ctx@, old(self).nscopes()),
        ensures
            final(self).wf(),
            Eval::evolves(*old(self), *final(self)),
            fuel >= 1 ==> match a@ {
                crate::expr::AttrNameV::Plain(n) => (r matches Ok(s) && s@ == n),
                _ => true,
            },
        decreases fuel,
    {
        if fuel == 0 {
            return Err(Error::new(ErrorKind::RecursionLimit));
        }
        match a {
            AttrName::Plain(id) => Ok(id.clone()),
            AttrName::Dynamic(sub) => {
                let sub = *sub;
                match self.eval_value(sub, ctx, fuel - 1) {
                    Ok(Value::Str { string, .. }) => Ok(string),
                    Ok(other) => Err(
                        Error::at(
                            ErrorKind::TypeError {
                                expected: String::from_str("string"),
                                got: String::from_str(other.typename()),
                            },
                            sub,
                        ),
                    ),
                    Err(err) => Err(err),
                }
            },
        }
    }
}

/// What walking an attribute path found: the selected attribute's thunk, or
/// the first name that was not present.
pub enum PathOutcome {
    Found(ThunkId),
    Missing(String),
}

/// The arena invariant specialised to one node.
pub open spec fn expr_wf_at(ev: Eval, e: ExprId) -> bool {
    crate::expr::expr_wf(ev.exprs@[e as int], e as nat)
}

/// The owned data step_eval extracts from a borrowed node before it starts
/// mutating the arenas.
enum NodeKind {
    Int(i64),
    Bool(bool),
    Null,
    Path(String),
    Var(String),
    Lambda { param: LambdaParam, body: ExprId },
    Apply { func: ExprId, arg: ExprId },
    Unary { op: crate::expr::UnaryOp, operand: ExprId },
    Binary { op: crate::expr::BinaryOp, lhs: ExprId, rhs: ExprId },
    If { cond: ExprId, when_true: ExprId, when_false: ExprId },
    Assert { cond: ExprId, body: ExprId },
    With { env: ExprId, body: ExprId },
    List(Vec<ExprId>),
    Str(Vec<StrPart>),
    Bindings { recursive: bool, binds: Vec<Binding>, body: Option<ExprId> },
    Select { base: ExprId, path: Vec<AttrName>, fallback: Option<ExprId> },
    HasAttr { base: ExprId, path: Vec<AttrName> },
}

/// How extracted data corresponds to the node it was read from.
spec fn kind_matches(e: Expr, k: NodeKind) -> bool {
    match e {
        Expr::Int(n) => k matches NodeKind::Int(m) && m == n,
        Expr::Bool(b) => k matches NodeKind::Bool(c) && c == b,
        Expr::Null => k is Null,
        Expr::Str(parts) => k matches NodeKind::Str(ps) && strparts_v(ps@) == strparts_v(parts@),
        Expr::Path(p) => k matches NodeKind::Path(q) && q@ == p@,
        Expr::Var(name) => k matches NodeKind::Var(m) && m@ == name@,
        Expr::Lambda { param, body } => k matches NodeKind::Lambda { param: p2, body: b2 }
            && p2@ == param@ && b2 == body,
        Expr::Apply { func, arg } => k matches NodeKind::Apply { func: f2, arg: a2 } && f2 == func
            && a2 == arg,
        Expr::Unary { op, operand } => k matches NodeKind::Unary { op: o2, operand: e2 }
            && o2 == op && e2 == operand,
        Expr::Binary { op, lhs, rhs } => k matches NodeKind::Binary { op: o2, lhs: l2, rhs: r2 }
            && o2 == op && l2 == lhs && r2 == rhs,
        Expr::Let { binds, body } => k matches NodeKind::Bindings {
            recursive: rec2,
            binds: b2,
            body: bd2,
        } && rec2 == true && bindings_v(b2@) == bindings_v(binds@) && bd2 == Some(body),
        Expr::With { env, body } => k matches NodeKind::With { env: e2, body: b2 } && e2 == env
            && b2 == body,
        Expr::If { cond, when_true, when_false } => k matches NodeKind::If {
            cond: c2,
            when_true: t2,
            when_false: f2,
        } && c2 == cond && t2 == when_true && f2 == when_false,
        Expr::Assert { cond, body } => k matches NodeKind::Assert { cond: c2, body: b2 }
            && c2 == cond && b2 == body,
        Expr::AttrSet { recursive, binds } => k matches NodeKind::Bindings {
            recursive: rec2,
            binds: b2,
            body: bd2,
        } && rec2 == recursive && bindings_v(b2@) == bindings_v(binds@) && bd2 is None,
        Expr::List(items) => k matches NodeKind::List(ids) && ids@ == items@,
        Expr::Select { base, path, fallback } => k matches NodeKind::Select {
            base: b2,
            path: p2,
            fallback: f2,
        } && b2 == base && attrpath_v(p2@) == attrpath_v(path@) && f2 == fallback,
        Expr::HasAttr { base, path } => k matches NodeKind::HasAttr { base: b2, path: p2 }
            && b2 == base && attrpath_v(p2@) == attrpath_v(path@),
    }
}

/// Copies the data of one node out of the arena.
fn node_kind(e: &Expr) -> (r: NodeKind)
    ensures
        kind_matches(*e, r),
{
    match e {
        Expr::Int(n) => NodeKind::Int(*n),
        Expr::Bool(b) => NodeKind::Bool(*b),
        Expr::Null => NodeKind::Null,
        Expr::Path(p) => NodeKind::Path(p.clone()),
        Expr::Var(name) => NodeKind::Var(name.clone()),
        Expr::Lambda { param, body } => NodeKind::Lambda { param: param.duplicate(), body: *body },
        Expr::Apply { func, arg } => NodeKind::Apply { func: *func, arg: *arg },
        Expr::Unary { op, operand } => NodeKind::Unary { op: *op, operand: *operand },
        Expr::Binary { op, lhs, rhs } => NodeKind::Binary { op: *op, lhs: *lhs, rhs: *rhs },
        Expr::If { cond, when_true, when_false } => NodeKind::If {
            cond: *cond,
            when_true: *when_true,
            when_false: *when_false,
        },
        Expr::Assert { cond, body } => NodeKind::Assert { cond: *cond, body: *body },
        Expr::With { env, body } => NodeKind::With { env: *env, body: *body },
        Expr::List(items) => NodeKind::List(clone_ids(items)),
        Expr::Str(parts) => NodeKind::Str(crate::expr::clone_strparts(parts)),
        Expr::Let { binds, body } => NodeKind::Bindings {
            recursive: true,
            binds: crate::expr::clone_bindings(binds),
            body: Some(*body),
        },
        Expr::AttrSet { recursive, binds } => NodeKind::Bindings {
            recursive: *recursive,
            binds: crate::expr::clone_bindings(binds),
            body: None,
        },
        Expr::Select { base, path, fallback } => NodeKind::Select {
            base: *base,
            path: clone_attrpath(path),
            fallback: *fallback,
        },
        Expr::HasAttr { base, path } => NodeKind::HasAttr {
            base: *base,
            path: clone_attrpath(path),
        },
    }
}

} // verus!
