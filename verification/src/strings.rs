//! String coercion and the string builtins.
//!
//! Coercion takes a value to text while accumulating the *string context* —
//! the set of store paths the text references. The accumulator only ever
//! grows: every context reachable through the strings a coercion consumes is
//! unioned in, never dropped, which is the monotonicity guarantee stated on
//! [`coerce_to_string`].

use crate::attrs::{attrs_bounded, ids_bounded, ThunkId};
use crate::ctx::{ctx_bounded, Context};
use crate::error::{Error, ErrorKind};
use crate::eval::Eval;
use crate::expr::{strparts_v, strparts_wf, StrPart};
use crate::strutil::int_to_string;
use crate::value::{primop_arity, CoerceOpts, PathSet, PrimopOp, Value, ValueV};
use crate::thunk::ThunkV;
use vstd::prelude::*;
use vstd::string::StringExecFns;

verus! {

/// The clamped character slice `substring` takes: from `start` (clamped to
/// the text) at most `len` characters (a negative count takes nothing),
/// never past the end.
pub open spec fn substring_spec(s: Seq<char>, start: int, len: int) -> Seq<char>
    recommends
        start >= 0,
{
    let st = if start > s.len() {
        s.len() as int
    } else {
        start
    };
    let keep = if len < 0 {
        0
    } else {
        len
    };
    let en = if st + keep > s.len() {
        s.len() as int
    } else {
        st + keep
    };
    s.subrange(st, en)
}

/// The text of a forced string thunk (empty for anything else).
pub open spec fn text_of(tv: Seq<crate::thunk::ThunkV>, t: ThunkId) -> Seq<char> {
    match tv[t as int] {
        ThunkV::Done(ValueV::Str { string, .. }) => string,
        _ => Seq::empty(),
    }
}

/// The context of a forced string thunk (empty for anything else).
pub open spec fn context_of(tv: Seq<crate::thunk::ThunkV>, t: ThunkId) -> Set<Seq<char>> {
    match tv[t as int] {
        ThunkV::Done(ValueV::Str { context, .. }) => context,
        _ => Set::empty(),
    }
}

/// Whether every element thunk is forced to a string.
pub open spec fn all_forced_strings(tv: Seq<crate::thunk::ThunkV>, items: Seq<ThunkId>) -> bool {
    forall|i: int|
        0 <= i < items.len() ==> (#[trigger] items[i] as int) < tv.len() && (tv[
            items[i] as int
        ] matches ThunkV::Done(ValueV::Str { .. }))
}

/// The elements' texts joined with the separator between consecutive
/// elements.
pub open spec fn joined_text(
    tv: Seq<crate::thunk::ThunkV>,
    items: Seq<ThunkId>,
    sep: Seq<char>,
) -> Seq<char>
    decreases items.len(),
{
    if items.len() == 0 {
        Seq::empty()
    } else if items.len() == 1 {
        text_of(tv, items[0])
    } else {
        joined_text(tv, items.drop_last(), sep) + sep + text_of(tv, items.last())
    }
}

/// A base context unioned with every element's context, left to right.
pub open spec fn joined_context(
    base: Set<Seq<char>>,
    tv: Seq<crate::thunk::ThunkV>,
    items: Seq<ThunkId>,
) -> Set<Seq<char>>
    decreases items.len(),
{
    if items.len() == 0 {
        base
    } else {
        joined_context(base, tv, items.drop_last()).union(context_of(tv, items.last()))
    }
}

/// Whether every template piece is a literal.
pub open spec fn all_lits(parts: Seq<crate::expr::StrPartV>) -> bool {
    forall|i: int| 0 <= i < parts.len() ==> (#[trigger] parts[i]) is Lit
}

/// The literal pieces concatenated in order.
pub open spec fn lits_text(parts: Seq<crate::expr::StrPartV>) -> Seq<char>
    decreases parts.len(),
{
    if parts.len() == 0 {
        Seq::empty()
    } else {
        lits_text(parts.drop_last()) + (match parts.last() {
            crate::expr::StrPartV::Lit(t) => t,
            crate::expr::StrPartV::Interp(_) => Seq::empty(),
        })
    }
}

/// The string contexts reachable from a thunk through values already
/// forced: a string's own context; every context under a list's elements;
/// the context under a set's `outPath`. `d` bounds the depth; an unforced
/// or missing thunk contributes nothing.
pub open spec fn reach_ctx(tv: Seq<crate::thunk::ThunkV>, t: ThunkId, d: nat) -> Set<Seq<char>>
    decreases d, 0nat,
{
    if d == 0 || t >= tv.len() {
        Set::empty()
    } else {
        match tv[t as int] {
            ThunkV::Done(v) => match v {
                ValueV::Str { context, .. } => context,
                ValueV::List(items) => reach_list(tv, items, (d - 1) as nat),
                ValueV::AttrSet(m) => if m.contains_key("outPath"@) {
                    reach_ctx(tv, m["outPath"@], (d - 1) as nat)
                } else {
                    Set::empty()
                },
                _ => Set::empty(),
            },
            _ => Set::empty(),
        }
    }
}

/// The union of the contexts reachable from each element.
pub open spec fn reach_list(
    tv: Seq<crate::thunk::ThunkV>,
    items: Seq<ThunkId>,
    d: nat,
) -> Set<Seq<char>>
    decreases d, items.len(),
{
    if items.len() == 0 {
        Set::empty()
    } else {
        reach_list(tv, items.drop_last(), d).union(reach_ctx(tv, items.last(), d))
    }
}

/// Whether every thunk the context reach of `t` passes through is forced,
/// to depth `d`. Such a spine keeps its reach under any further evolution
/// of the arena: forced cells never change again.
pub open spec fn spine_done(tv: Seq<crate::thunk::ThunkV>, t: ThunkId, d: nat) -> bool
    decreases d, 0nat,
{
    if d == 0 {
        true
    } else if t >= tv.len() {
        false
    } else {
        match tv[t as int] {
            ThunkV::Done(v) => match v {
                ValueV::List(items) => spine_done_list(tv, items, (d - 1) as nat),
                ValueV::AttrSet(m) => if m.contains_key("outPath"@) {
                    spine_done(tv, m["outPath"@], (d - 1) as nat)
                } else {
                    true
                },
                _ => true,
            },
            _ => false,
        }
    }
}

/// Whether every element's spine is forced to depth `d`.
pub open spec fn spine_done_list(
    tv: Seq<crate::thunk::ThunkV>,
    items: Seq<ThunkId>,
    d: nat,
) -> bool
    decreases d, items.len(),
{
    if items.len() == 0 {
        true
    } else {
        spine_done_list(tv, items.drop_last(), d) && spine_done(tv, items.last(), d)
    }
}

/// A forced spine pins its reach: under evolution the reach neither grows
/// nor shrinks, and the spine stays forced.
pub proof fn lemma_reach_stable(pre: Eval, post: Eval, t: ThunkId, d: nat)
    requires
        Eval::evolves(pre, post),
        spine_done(pre.tv(), t, d),
    ensures
        reach_ctx(post.tv(), t, d) == reach_ctx(pre.tv(), t, d),
        spine_done(post.tv(), t, d),
    decreases d, 0nat,
{
    if d > 0 {
        assert(t < pre.tv().len());
        assert(pre.tv()[t as int] == pre.thunks@[t as int]@);
        assert(pre.tv()[t as int] is Done);
        assert(post.thunks@[t as int]@ == pre.thunks@[t as int]@);
        assert(post.tv()[t as int] == post.thunks@[t as int]@);
        match pre.tv()[t as int] {
            ThunkV::Done(v) => match v {
                ValueV::List(items) => {
                    lemma_reach_list_stable(pre, post, items, (d - 1) as nat);
                },
                ValueV::AttrSet(m) => {
                    if m.contains_key("outPath"@) {
                        lemma_reach_stable(pre, post, m["outPath"@], (d - 1) as nat);
                    }
                },
                _ => {},
            },
            _ => {},
        }
    }
}

pub proof fn lemma_reach_list_stable(pre: Eval, post: Eval, items: Seq<ThunkId>, d: nat)
    requires
        Eval::evolves(pre, post),
        spine_done_list(pre.tv(), items, d),
    ensures
        reach_list(post.tv(), items, d) == reach_list(pre.tv(), items, d),
        spine_done_list(post.tv(), items, d),
    decreases d, items.len(),
{
    if items.len() > 0 {
        lemma_reach_list_stable(pre, post, items.drop_last(), d);
        lemma_reach_stable(pre, post, items.last(), d);
    }
}

/// Reachable contexts only grow as the arena evolves: a forced thunk keeps
/// its value, and an unforced one contributed nothing.
pub proof fn lemma_reach_mono(pre: Eval, post: Eval, t: ThunkId, d: nat)
    requires
        Eval::evolves(pre, post),
    ensures
        reach_ctx(pre.tv(), t, d).subset_of(reach_ctx(post.tv(), t, d)),
    decreases d, 0nat,
{
    if d == 0 || t >= pre.tv().len() {
    } else {
        match pre.tv()[t as int] {
            ThunkV::Done(v) => {
                assert(pre.tv()[t as int] == pre.thunks@[t as int]@);
                assert(post.thunks@[t as int]@ == pre.thunks@[t as int]@);
                assert(post.tv()[t as int] == post.thunks@[t as int]@);
                match v {
                    ValueV::List(items) => {
                        lemma_reach_list_mono(pre, post, items, (d - 1) as nat);
                    },
                    ValueV::AttrSet(m) => {
                        if m.contains_key("outPath"@) {
                            lemma_reach_mono(pre, post, m["outPath"@], (d - 1) as nat);
                        }
                    },
                    _ => {},
                }
            },
            _ => {},
        }
    }
}

pub proof fn lemma_reach_list_mono(pre: Eval, post: Eval, items: Seq<ThunkId>, d: nat)
    requires
        Eval::evolves(pre, post),
    ensures
        reach_list(pre.tv(), items, d).subset_of(reach_list(post.tv(), items, d)),
    decreases d, items.len(),
{
    if items.len() > 0 {
        lemma_reach_list_mono(pre, post, items.drop_last(), d);
        lemma_reach_mono(pre, post, items.last(), d);
    }
}

/// Whether every template piece is a literal or an interpolation of a
/// literal integer expression.
pub open spec fn tpl_known(
    exprs: Seq<crate::expr::Expr>,
    parts: Seq<crate::expr::StrPartV>,
) -> bool {
    forall|i: int|
        0 <= i < parts.len() ==> match #[trigger] parts[i] {
            crate::expr::StrPartV::Lit(_) => true,
            crate::expr::StrPartV::Interp(e) => exprs[e as int] is Int,
        }
}

/// The text such a template renders: literals verbatim, integer
/// interpolations in decimal.
pub open spec fn tpl_text(
    exprs: Seq<crate::expr::Expr>,
    parts: Seq<crate::expr::StrPartV>,
) -> Seq<char>
    decreases parts.len(),
{
    if parts.len() == 0 {
        Seq::empty()
    } else {
        tpl_text(exprs, parts.drop_last()) + (match parts.last() {
            crate::expr::StrPartV::Lit(t) => t,
            crate::expr::StrPartV::Interp(e) => crate::strutil::dec_int(
                exprs[e as int]->Int_0 as int,
            ),
        })
    }
}

impl Eval {
    /// Coerces the value of a thunk to a string under `opts`, unioning every
    /// consumed string context into `sctx`.
    ///
    /// The accumulated context only grows; on success it contains every
    /// string context reachable from the value, to any depth, through the
    /// strings the coercion consumed: a string's own context, the contexts
    /// under every element of a list, and those under a set's `outPath`
    /// chain ([`reach_ctx`] over the finished arena, whose spine the
    /// coercion has forced). A path is rendered literally only when the
    /// options do not demand a store copy; with `copy_to_store` set the
    /// store collaborator is required, which this core reports as an error.
    pub fn coerce_to_string(
        &mut self,
        obj: ThunkId,
        sctx: &mut PathSet,
        opts: CoerceOpts,
        fuel: u64,
    ) -> (r: Result<String, Error>)
        requires
            old(self).wf(),
            obj < old(self).nthunks(),
        ensures
            final(self).wf(),
            Eval::evolves(*old(self), *final(self)),
            old(sctx)@.subset_of(final(sctx)@),
            fuel >= 1 ==> match old(self).tv()[obj as int] {
                ThunkV::Done(ValueV::Str { string, context }) => match r {
                    Ok(s) => s@ == string && final(sctx)@ == old(sctx)@.union(context),
                    Err(_) => false,
                },
                _ => true,
            },
            fuel >= 2 ==> match old(self).tv()[obj as int] {
                ThunkV::Done(ValueV::List(items)) => (r is Ok ==> (forall|j: int|
                    0 <= j < items.len() ==> (match old(self).tv()[#[trigger] items[j] as int] {
                        ThunkV::Done(ValueV::Str { string, context }) => context.subset_of(
                            final(sctx)@,
                        ),
                        _ => true,
                    }))),
                _ => true,
            },
            fuel >= 2 ==> match old(self).tv()[obj as int] {
                ThunkV::Done(ValueV::AttrSet(m)) => (m.contains_key("outPath"@) ==> (
                match old(self).tv()[m["outPath"@] as int] {
                    ThunkV::Done(ValueV::Str { string, context }) => (r matches Ok(s) && s@
                        == string && final(sctx)@ == old(sctx)@.union(context)),
                    _ => true,
                })),
                _ => true,
            },
            fuel >= 1 ==> match old(self).tv()[obj as int] {
                ThunkV::Done(ValueV::Int(i)) => (r matches Ok(s) && s@ == crate::strutil::dec_int(
                    i as int,
                ) && final(sctx)@ == old(sctx)@),
                _ => true,
            },
            fuel >= 1 ==> match old(self).tv()[obj as int] {
                ThunkV::Done(ValueV::Path(p)) => (if opts.copy_to_store {
                    r matches Err(e) && e.kind is StoreCopyRequired
                } else {
                    (r matches Ok(s) && s@ == p && final(sctx)@ == old(sctx)@)
                }),
                _ => true,
            },
            fuel >= 1 ==> match old(self).tv()[obj as int] {
                ThunkV::Done(ValueV::Bool(b)) => (if opts.extended {
                    (r matches Ok(s) && s@ == (if b {
                        ("1")@
                    } else {
                        Seq::<char>::empty()
                    }) && final(sctx)@ == old(sctx)@)
                } else {
                    (r matches Err(e) && e.kind is CoerceError)
                }),
                _ => true,
            },
            fuel >= 1 ==> match old(self).tv()[obj as int] {
                ThunkV::Done(ValueV::Null) => (if opts.extended {
                    (r matches Ok(s) && s@ == Seq::<char>::empty() && final(sctx)@ == old(sctx)@)
                } else {
                    (r matches Err(e) && e.kind is CoerceError)
                }),
                _ => true,
            },
            fuel >= 1 ==> match old(self).tv()[obj as int] {
                ThunkV::Done(ValueV::List(items)) => (!opts.extended ==> (r matches Err(e)
                    && e.kind is CoerceError)),
                _ => true,
            },
            fuel >= 1 ==> match old(self).tv()[obj as int] {
                ThunkV::Done(ValueV::AttrSet(m)) => (!m.contains_key("outPath"@) ==> (
                r matches Err(e) && e.kind is CoerceError)),
                _ => true,
            },
            fuel >= 1 ==> match old(self).tv()[obj as int] {
                ThunkV::Done(v) => ((v is Lambda || v is Primop) ==> (r matches Err(e) && e.kind
                    is CoerceError)),
                _ => true,
            },
            r is Ok ==> forall|d: nat|
                reach_ctx(old(self).tv(), obj, d).subset_of(final(sctx)@),
            r is Ok ==> forall|d: nat| spine_done(final(self).tv(), obj, d),
            r is Ok ==> forall|d: nat|
                reach_ctx(final(self).tv(), obj, d).subset_of(final(sctx)@),
        decreases fuel,
    {
        if fuel == 0 {
            return Err(Error::new(ErrorKind::RecursionLimit));
        }
        let v = match self.force(obj, fuel - 1) {
            Ok(v) => v,
            Err(err) => {
                return Err(err);
            },
        };
        let ghost vv = v@;
        match v {
            Value::Str { string, context } => {
                proof {
                    assert(vv == ValueV::Str { string: string@, context: context@ });
                }
                sctx.extend(&context);
                proof {
                    assert forall|d: nat|
                        reach_ctx(old(self).tv(), obj, d).subset_of(sctx@) by {
                        if d > 0 && (obj as int) < old(self).tv().len() {
                            match old(self).tv()[obj as int] {
                                ThunkV::Done(w) => {
                                    assert(w == vv);
                                },
                                _ => {},
                            }
                        }
                    }
                    assert(self.tv()[obj as int] == ThunkV::Done(vv));
                    assert forall|d: nat|
                        #![trigger spine_done(self.tv(), obj, d)]
                        #![trigger reach_ctx(self.tv(), obj, d)]
                        spine_done(self.tv(), obj, d) && reach_ctx(self.tv(), obj, d).subset_of(
                            sctx@,
                        ) by {
                        if d > 0 {
                            assert((obj as int) < self.tv().len());
                        }
                    }
                }
                Ok(string)
            },
            Value::Path(p) => {
                proof {
                    assert forall|d: nat|
                        reach_ctx(old(self).tv(), obj, d).subset_of(sctx@) by {
                        if d > 0 && (obj as int) < old(self).tv().len() {
                            match old(self).tv()[obj as int] {
                                ThunkV::Done(w) => {
                                    assert(w == vv);
                                },
                                _ => {},
                            }
                        }
                    }
                    assert(self.tv()[obj as int] == ThunkV::Done(vv));
                    assert forall|d: nat|
                        #![trigger spine_done(self.tv(), obj, d)]
                        #![trigger reach_ctx(self.tv(), obj, d)]
                        spine_done(self.tv(), obj, d) && reach_ctx(self.tv(), obj, d).subset_of(
                            sctx@,
                        ) by {
                        if d > 0 {
                            assert((obj as int) < self.tv().len());
                        }
                    }
                }
                if opts.copy_to_store {
                    // Copying into the store is the collaborator's job.
                    Err(Error::new(ErrorKind::StoreCopyRequired(p)))
                } else {
                    Ok(p)
                }
            },
            Value::Int(i) => {
                proof {
                    assert forall|d: nat|
                        reach_ctx(old(self).tv(), obj, d).subset_of(sctx@) by {
                        if d > 0 && (obj as int) < old(self).tv().len() {
                            match old(self).tv()[obj as int] {
                                ThunkV::Done(w) => {
                                    assert(w == vv);
                                },
                                _ => {},
                            }
                        }
                    }
                    assert(self.tv()[obj as int] == ThunkV::Done(vv));
                    assert forall|d: nat|
                        #![trigger spine_done(self.tv(), obj, d)]
                        #![trigger reach_ctx(self.tv(), obj, d)]
                        spine_done(self.tv(), obj, d) && reach_ctx(self.tv(), obj, d).subset_of(
                            sctx@,
                        ) by {
                        if d > 0 {
                            assert((obj as int) < self.tv().len());
                        }
                    }
                }
                Ok(int_to_string(i))
            },
            Value::Bool(b) => {
                proof {
                    assert forall|d: nat|
                        reach_ctx(old(self).tv(), obj, d).subset_of(sctx@) by {
                        if d > 0 && (obj as int) < old(self).tv().len() {
                            match old(self).tv()[obj as int] {
                                ThunkV::Done(w) => {
                                    assert(w == vv);
                                },
                                _ => {},
                            }
                        }
                    }
                    assert(self.tv()[obj as int] == ThunkV::Done(vv));
                    assert forall|d: nat|
                        #![trigger spine_done(self.tv(), obj, d)]
                        #![trigger reach_ctx(self.tv(), obj, d)]
                        spine_done(self.tv(), obj, d) && reach_ctx(self.tv(), obj, d).subset_of(
                            sctx@,
                        ) by {
                        if d > 0 {
                            assert((obj as int) < self.tv().len());
                        }
                    }
                }
                if opts.extended {
                    if b {
                        Ok(String::from_str("1"))
                    } else {
                        Ok(String::new())
                    }
                } else {
                    Err(Error::new(ErrorKind::CoerceError(String::from_str("bool"))))
                }
            },
            Value::Null => {
                proof {
                    assert forall|d: nat|
                        reach_ctx(old(self).tv(), obj, d).subset_of(sctx@) by {
                        if d > 0 && (obj as int) < old(self).tv().len() {
                            match old(self).tv()[obj as int] {
                                ThunkV::Done(w) => {
                                    assert(w == vv);
                                },
                                _ => {},
                            }
                        }
                    }
                    assert(self.tv()[obj as int] == ThunkV::Done(vv));
                    assert forall|d: nat|
                        #![trigger spine_done(self.tv(), obj, d)]
                        #![trigger reach_ctx(self.tv(), obj, d)]
                        spine_done(self.tv(), obj, d) && reach_ctx(self.tv(), obj, d).subset_of(
                            sctx@,
                        ) by {
                        if d > 0 {
                            assert((obj as int) < self.tv().len());
                        }
                    }
                }
                if opts.extended {
                    Ok(String::new())
                } else {
                    Err(Error::new(ErrorKind::CoerceError(String::from_str("null"))))
                }
            },
            Value::List(items) => {
                if opts.extended {
                    let ghost hyp2 = fuel >= 2 && (old(self).tv()[obj as int] matches ThunkV::Done(
                        ValueV::List(l),
                    ) && l == items@);
                    proof {
                        assert(vv == ValueV::List(items@));
                        assert(ids_bounded(items@, self.nthunks()));
                        if hyp2 {
                            assert(old(self).thunks@[obj as int]@ == old(self).tv()[obj as int]);
                            assert(ids_bounded(items@, old(self).nthunks()));
                        }
                        assert(items@.take(0) =~= Seq::<ThunkId>::empty());
                        assert forall|d: nat|
                            reach_list(old(self).tv(), items@.take(0), d).subset_of(sctx@) by {
                            assert(reach_list(old(self).tv(), items@.take(0), d)
                                == Set::<Seq<char>>::empty());
                        }
                        assert(self.tv()[obj as int] == ThunkV::Done(vv));
                        assert forall|d: nat|
                            #![trigger spine_done_list(self.tv(), items@.take(0), d)]
                            #![trigger reach_list(self.tv(), items@.take(0), d)]
                            spine_done_list(self.tv(), items@.take(0), d) && reach_list(
                                self.tv(),
                                items@.take(0),
                                d,
                            ).subset_of(sctx@) by {
                            assert(reach_list(self.tv(), items@.take(0), d)
                                == Set::<Seq<char>>::empty());
                        }
                    }
                    let mut out = String::new();
                    let n = items.len();
                    let mut i: usize = 0;
                    while i < n
                        invariant
                            i <= n,
                            n == items@.len(),
                            fuel >= 1,
                            self.wf(),
                            Eval::evolves(*old(self), *self),
                            ids_bounded(items@, self.nthunks()),
                            old(sctx)@.subset_of(sctx@),
                            !(old(self).tv()[obj as int] matches ThunkV::Done(ValueV::Str { .. })),
                            obj < old(self).nthunks(),
                            opts.extended,
                            match old(self).tv()[obj as int] {
                                ThunkV::Done(w) => w == ValueV::List(items@),
                                _ => true,
                            },
                            forall|d: nat|
                                reach_list(old(self).tv(), items@.take(i as int), d).subset_of(
                                    sctx@,
                                ),
                            obj < self.nthunks(),
                            self.tv()[obj as int] == ThunkV::Done(ValueV::List(items@)),
                            forall|d: nat|
                                spine_done_list(self.tv(), items@.take(i as int), d),
                            forall|d: nat|
                                reach_list(self.tv(), items@.take(i as int), d).subset_of(sctx@),
                            hyp2 == (fuel >= 2 && (old(self).tv()[obj as int]
                                matches ThunkV::Done(ValueV::List(l)) && l == items@)),
                            hyp2 ==> ids_bounded(items@, old(self).nthunks()),
                            hyp2 ==> forall|j: int|
                                0 <= j < i ==> (match old(self).tv()[#[trigger] items@[j] as int] {
                                    ThunkV::Done(ValueV::Str { string, context }) => context
                                        .subset_of(sctx@),
                                    _ => true,
                                }),
                        decreases n - i,
                    {
                        if i > 0 {
                            out.append(" ");
                        }
                        let ghost pre = *self;
                        let ghost sctx_pre = sctx@;
                        let piece = match self.coerce_to_string(items[i], sctx, opts, fuel - 1) {
                            Ok(p) => p,
                            Err(err) => {
                                proof {
                                    Eval::lemma_evolves_trans(*old(self), pre, *self);
                                }
                                return Err(err);
                            },
                        };
                        proof {
                            Eval::lemma_evolves_trans(*old(self), pre, *self);
                            crate::attrs::lemma_ids_bounded_mono(
                                items@,
                                pre.nthunks(),
                                self.nthunks(),
                            );
                            if hyp2 {
                                let e = items@[i as int] as int;
                                assert(e < old(self).nthunks());
                                assert(old(self).thunks@[e]@ == old(self).tv()[e]);
                                if old(self).tv()[e] is Done {
                                    assert(pre.thunks@[e]@ == old(self).thunks@[e]@);
                                    assert(pre.tv()[e] == pre.thunks@[e]@);
                                }
                                assert forall|j: int| 0 <= j < i + 1 implies (
                                match old(self).tv()[#[trigger] items@[j] as int] {
                                    ThunkV::Done(ValueV::Str { string, context }) => context
                                        .subset_of(sctx@),
                                    _ => true,
                                }) by {
                                    if j < i {
                                        assert(sctx_pre.subset_of(sctx@));
                                    } else {
                                        assert(items@[j] as int == e);
                                    }
                                }
                            }
                            assert forall|d: nat|
                                #[trigger] reach_list(old(self).tv(), items@.take(i + 1), d)
                                    .subset_of(sctx@) by {
                                assert(items@.take(i + 1).drop_last() =~= items@.take(i as int));
                                assert(items@.take(i + 1).last() == items@[i as int]);
                                assert(reach_list(old(self).tv(), items@.take(i + 1), d)
                                    == reach_list(old(self).tv(), items@.take(i as int), d).union(
                                    reach_ctx(old(self).tv(), items@[i as int], d),
                                ));
                                lemma_reach_mono(*old(self), pre, items@[i as int], d);
                                assert(reach_ctx(pre.tv(), items@[i as int], d).subset_of(sctx@));
                                assert(sctx_pre.subset_of(sctx@));
                            }
                            assert(self.tv()[obj as int] == ThunkV::Done(ValueV::List(items@)))
                                by {
                                assert(pre.thunks@[obj as int]@ == pre.tv()[obj as int]);
                                assert(self.thunks@[obj as int]@ == pre.thunks@[obj as int]@);
                                assert(self.tv()[obj as int] == self.thunks@[obj as int]@);
                            }
                            assert forall|d: nat|
                                #![trigger spine_done_list(self.tv(), items@.take(i + 1), d)]
                                #![trigger reach_list(self.tv(), items@.take(i + 1), d)]
                                spine_done_list(self.tv(), items@.take(i + 1), d) && reach_list(
                                    self.tv(),
                                    items@.take(i + 1),
                                    d,
                                ).subset_of(sctx@) by {
                                lemma_reach_list_stable(pre, *self, items@.take(i as int), d);
                                assert(items@.take(i + 1).drop_last() =~= items@.take(i as int));
                                assert(items@.take(i + 1).last() == items@[i as int]);
                                assert(spine_done(self.tv(), items@[i as int], d));
                                assert(reach_ctx(self.tv(), items@[i as int], d).subset_of(
                                    sctx@,
                                ));
                                assert(sctx_pre.subset_of(sctx@));
                            }
                        }
                        out.append(piece.as_str());
                        i = i + 1;
                    }
                    proof {
                        assert forall|d: nat|
                            reach_ctx(old(self).tv(), obj, d).subset_of(sctx@) by {
                            if d > 0 && (obj as int) < old(self).tv().len() {
                                match old(self).tv()[obj as int] {
                                    ThunkV::Done(w) => {
                                        assert(w == vv);
                                        assert(items@.take(n as int) =~= items@);
                                        assert(reach_list(
                                            old(self).tv(),
                                            items@.take(n as int),
                                            (d - 1) as nat,
                                        ).subset_of(sctx@));
                                    },
                                    _ => {},
                                }
                            }
                        }
                        assert forall|d: nat|
                            #![trigger spine_done(self.tv(), obj, d)]
                            #![trigger reach_ctx(self.tv(), obj, d)]
                            spine_done(self.tv(), obj, d) && reach_ctx(self.tv(), obj, d)
                                .subset_of(sctx@) by {
                            if d > 0 {
                                assert((obj as int) < self.tv().len());
                                assert(items@.take(n as int) =~= items@);
                                assert(spine_done_list(
                                    self.tv(),
                                    items@.take(n as int),
                                    (d - 1) as nat,
                                ));
                                assert(reach_list(
                                    self.tv(),
                                    items@.take(n as int),
                                    (d - 1) as nat,
                                ).subset_of(sctx@));
                            }
                        }
                    }
                    Ok(out)
                } else {
                    Err(Error::new(ErrorKind::CoerceError(String::from_str("list"))))
                }
            },
            Value::AttrSet(m) => {
                proof {
                    assert(vv == ValueV::AttrSet(m@));
                    assert(attrs_bounded(m@, self.nthunks()));
                }
                // Derivation auto-stringification: a set with an `outPath`
                // attribute coerces through it.
                match m.get("outPath") {
                    Some(t) => {
                        let ghost pre = *self;
                        proof {
                            assert(m@[("outPath")@] < self.nthunks());
                        }
                        let rr = self.coerce_to_string(t, sctx, opts, fuel - 1);
                        proof {
                            Eval::lemma_evolves_trans(*old(self), pre, *self);
                            if rr is Ok {
                                assert forall|d: nat|
                                    reach_ctx(old(self).tv(), obj, d).subset_of(sctx@) by {
                                    if d > 0 && (obj as int) < old(self).tv().len() {
                                        match old(self).tv()[obj as int] {
                                            ThunkV::Done(w) => {
                                                assert(w == vv);
                                                assert(m@["outPath"@] == t);
                                                lemma_reach_mono(
                                                    *old(self),
                                                    pre,
                                                    t,
                                                    (d - 1) as nat,
                                                );
                                                assert(reach_ctx(
                                                    pre.tv(),
                                                    t,
                                                    (d - 1) as nat,
                                                ).subset_of(sctx@));
                                            },
                                            _ => {},
                                        }
                                    }
                                }
                                assert(self.tv()[obj as int] == ThunkV::Done(vv)) by {
                                    assert(pre.tv()[obj as int] == ThunkV::Done(vv));
                                    assert(pre.thunks@[obj as int]@ == pre.tv()[obj as int]);
                                    assert(self.thunks@[obj as int]@ == pre.thunks@[
                                        obj as int
                                    ]@);
                                    assert(self.tv()[obj as int] == self.thunks@[obj as int]@);
                                }
                                assert forall|d: nat|
                                    #![trigger spine_done(self.tv(), obj, d)]
                                    #![trigger reach_ctx(self.tv(), obj, d)]
                                    spine_done(self.tv(), obj, d) && reach_ctx(
                                        self.tv(),
                                        obj,
                                        d,
                                    ).subset_of(sctx@) by {
                                    if d > 0 {
                                        assert((obj as int) < self.tv().len());
                                        assert(m@["outPath"@] == t);
                                        assert(spine_done(self.tv(), t, (d - 1) as nat));
                                        assert(reach_ctx(self.tv(), t, (d - 1) as nat).subset_of(
                                            sctx@,
                                        ));
                                    }
                                }
                            }
                        }
                        rr
                    },
                    None => Err(Error::new(ErrorKind::CoerceError(String::from_str("set")))),
                }
            },
            other => Err(
                Error::new(ErrorKind::CoerceError(String::from_str(other.typename()))),
            ),
        }
    }

    /// Coerces to a string with a fresh context accumulator.
    pub fn coerce_new_string(&mut self, obj: ThunkId, opts: CoerceOpts, fuel: u64) -> (r: Result<
        (String, PathSet),
        Error,
    >)
        requires
            old(self).wf(),
            obj < old(self).nthunks(),
        ensures
            final(self).wf(),
            Eval::evolves(*old(self), *final(self)),
            fuel >= 2 ==> match old(self).tv()[obj as int] {
                ThunkV::Done(ValueV::Str { string, context }) => match r {
                    Ok(p) => p.0@ == string && p.1@ == Set::<Seq<char>>::empty().union(context),
                    Err(_) => false,
                },
                _ => true,
            },
            fuel >= 3 ==> match old(self).tv()[obj as int] {
                ThunkV::Done(ValueV::List(items)) => (match r {
                    Ok(p) => forall|j: int|
                        0 <= j < items.len() ==> (match old(self).tv()[
                            #[trigger] items[j] as int
                        ] {
                            ThunkV::Done(ValueV::Str { string, context }) => context.subset_of(
                                p.1@,
                            ),
                            _ => true,
                        }),
                    Err(_) => true,
                }),
                _ => true,
            },
            fuel >= 3 ==> match old(self).tv()[obj as int] {
                ThunkV::Done(ValueV::AttrSet(m)) => (m.contains_key("outPath"@) ==> (
                match old(self).tv()[m["outPath"@] as int] {
                    ThunkV::Done(ValueV::Str { string, context }) => (r matches Ok(p) && p.0@
                        == string && p.1@ == Set::<Seq<char>>::empty().union(context)),
                    _ => true,
                })),
                _ => true,
            },
            fuel >= 2 ==> match old(self).tv()[obj as int] {
                ThunkV::Done(ValueV::Int(i)) => (r matches Ok(p) && p.0@
                    == crate::strutil::dec_int(i as int) && p.1@ == Set::<Seq<char>>::empty()),
                _ => true,
            },
            fuel >= 2 ==> match old(self).tv()[obj as int] {
                ThunkV::Done(ValueV::Path(pp)) => (if opts.copy_to_store {
                    r matches Err(e) && e.kind is StoreCopyRequired
                } else {
                    (r matches Ok(p) && p.0@ == pp && p.1@ == Set::<Seq<char>>::empty())
                }),
                _ => true,
            },
            fuel >= 2 ==> match old(self).tv()[obj as int] {
                ThunkV::Done(ValueV::Bool(b)) => (if opts.extended {
                    (r matches Ok(p) && p.0@ == (if b {
                        ("1")@
                    } else {
                        Seq::<char>::empty()
                    }) && p.1@ == Set::<Seq<char>>::empty())
                } else {
                    (r matches Err(e) && e.kind is CoerceError)
                }),
                _ => true,
            },
            fuel >= 2 ==> match old(self).tv()[obj as int] {
                ThunkV::Done(ValueV::Null) => (if opts.extended {
                    (r matches Ok(p) && p.0@ == Seq::<char>::empty() && p.1@ == Set::<
                        Seq<char>,
                    >::empty())
                } else {
                    (r matches Err(e) && e.kind is CoerceError)
                }),
                _ => true,
            },
            fuel >= 2 ==> match old(self).tv()[obj as int] {
                ThunkV::Done(ValueV::List(items)) => (!opts.extended ==> (r matches Err(e)
                    && e.kind is CoerceError)),
                _ => true,
            },
            fuel >= 2 ==> match old(self).tv()[obj as int] {
                ThunkV::Done(ValueV::AttrSet(m)) => (!m.contains_key("outPath"@) ==> (
                r matches Err(e) && e.kind is CoerceError)),
                _ => true,
            },
            fuel >= 2 ==> match old(self).tv()[obj as int] {
                ThunkV::Done(v) => ((v is Lambda || v is Primop) ==> (r matches Err(e) && e.kind
                    is CoerceError)),
                _ => true,
            },
            r matches Ok(p) ==> forall|d: nat|
                reach_ctx(old(self).tv(), obj, d).subset_of(p.1@),
            r is Ok ==> forall|d: nat| spine_done(final(self).tv(), obj, d),
            r matches Ok(p) ==> forall|d: nat|
                reach_ctx(final(self).tv(), obj, d).subset_of(p.1@),
        decreases fuel,
    {
        if fuel == 0 {
            return Err(Error::new(ErrorKind::RecursionLimit));
        }
        let mut p = PathSet::new();
        let s = match self.coerce_to_string(obj, &mut p, opts, fuel - 1) {
            Ok(s) => s,
            Err(err) => {
                return Err(err);
            },
        };
        Ok((s, p))
    }
}

/// Coerces a thunk's value to a string: the builtins' entry point, with the
/// extended rules optional and paths always rendered literally.
pub fn coerce_to_string(
    ev: &mut Eval,
    obj: ThunkId,
    sctx: &mut PathSet,
    extended: bool,
    fuel: u64,
) -> (r: Result<String, Error>)
    requires
        old(ev).wf(),
        obj < old(ev).nthunks(),
    ensures
        final(ev).wf(),
        Eval::evolves(*old(ev), *final(ev)),
        old(sctx)@.subset_of(final(sctx)@),
        fuel >= 1 ==> match old(ev).tv()[obj as int] {
            ThunkV::Done(ValueV::Str { string, context }) => match r {
                Ok(s) => s@ == string && final(sctx)@ == old(sctx)@.union(context),
                Err(_) => false,
            },
            _ => true,
        },
    decreases fuel,
{
    let opts = CoerceOpts::new().dont_copy();
    let opts = if extended {
        opts.extended()
    } else {
        opts
    };
    ev.coerce_to_string(obj, sctx, opts, fuel)
}

/// Evaluates a string template: literal parts verbatim, interpolated parts
/// coerced to strings, contexts accumulated.
pub fn eval_template(
    ev: &mut Eval,
    parts: Vec<StrPart>,
    ctx: &Context,
    fuel: u64,
) -> (r: Result<Value, Error>)
    requires
        old(ev).wf(),
        strparts_wf(strparts_v(parts@), old(ev).nexprs()),
        ctx_bounded(ctx@, old(ev).nscopes()),
    ensures
        final(ev).wf(),
        Eval::evolves(*old(ev), *final(ev)),
        match r {
            Ok(v) => final(ev).value_ok(v),
            Err(_) => true,
        },
        fuel >= 1 && all_lits(strparts_v(parts@)) ==> (r matches Ok(v) && v@ == (ValueV::Str {
            string: lits_text(strparts_v(parts@)),
            context: Set::<Seq<char>>::empty(),
        })),
        fuel >= 4 && tpl_known(old(ev).exprs@, strparts_v(parts@)) ==> (r matches Ok(v) && v@ == (
        ValueV::Str {
            string: tpl_text(old(ev).exprs@, strparts_v(parts@)),
            context: Set::<Seq<char>>::empty(),
        })),
    decreases fuel,
{
    if fuel == 0 {
        return Err(Error::new(ErrorKind::RecursionLimit));
    }
    let ghost s0 = *ev;
    let mut out = String::new();
    let mut sctx = PathSet::new();
    let n = parts.len();
    let mut i: usize = 0;
    while i < n
        invariant
            i <= n,
            n == parts@.len(),
            fuel >= 1,
            s0 == *old(ev),
            ev.wf(),
            Eval::evolves(s0, *ev),
            strparts_wf(strparts_v(parts@), ev.nexprs()),
            ctx_bounded(ctx@, ev.nscopes()),
            all_lits(strparts_v(parts@)) ==> out@ == lits_text(
                strparts_v(parts@).take(i as int),
            ) && sctx@ == Set::<Seq<char>>::empty(),
            fuel >= 4 && tpl_known(s0.exprs@, strparts_v(parts@)) ==> out@ == tpl_text(
                s0.exprs@,
                strparts_v(parts@).take(i as int),
            ) && sctx@ == Set::<Seq<char>>::empty(),
        decreases n - i,
    {
        proof {
            assert(strparts_v(parts@)[i as int] == parts@[i as int]@);
        }
        match &parts[i] {
            StrPart::Lit(s) => {
                out.append(s.as_str());
                proof {
                    let pv = strparts_v(parts@);
                    assert(pv.take(i + 1).drop_last() =~= pv.take(i as int));
                    assert(pv.take(i + 1).last() == pv[i as int]);
                    if all_lits(pv) {
                        assert(out@ == lits_text(pv.take(i + 1)));
                    }
                    if fuel >= 4 && tpl_known(s0.exprs@, pv) {
                        assert(out@ == tpl_text(s0.exprs@, pv.take(i + 1)));
                    }
                }
            },
            StrPart::Interp(sub) => {
                let sub = *sub;
                let ghost pre = *ev;
                let t = match ev.eval_value(sub, ctx, fuel - 1) {
                    Ok(v) => v,
                    Err(err) => {
                        proof {
                            Eval::lemma_evolves_trans(s0, pre, *ev);
                        }
                        return Err(err);
                    },
                };
                proof {
                    Eval::lemma_evolves_trans(s0, pre, *ev);
                }
                let ghost pre2 = *ev;
                let tid = ev.new_value(t);
                proof {
                    Eval::lemma_evolves_trans(s0, pre2, *ev);
                    if fuel >= 4 && tpl_known(s0.exprs@, strparts_v(parts@)) {
                        assert(strparts_v(parts@)[i as int] == crate::expr::StrPartV::Interp(sub));
                        assert(s0.exprs@[sub as int] is Int);
                        assert(pre.exprs@ == s0.exprs@);
                        assert(t@ == ValueV::Int(s0.exprs@[sub as int]->Int_0));
                        assert(ev.tv()[tid as int] == ThunkV::Done(t@));
                    }
                }
                let ghost pre3 = *ev;
                let opts = CoerceOpts::new();
                let piece = match ev.coerce_to_string(tid, &mut sctx, opts, fuel - 1) {
                    Ok(p) => p,
                    Err(err) => {
                        proof {
                            Eval::lemma_evolves_trans(s0, pre3, *ev);
                        }
                        return Err(err);
                    },
                };
                proof {
                    Eval::lemma_evolves_trans(s0, pre3, *ev);
                }
                out.append(piece.as_str());
                proof {
                    if fuel >= 4 && tpl_known(s0.exprs@, strparts_v(parts@)) {
                        let pv = strparts_v(parts@);
                        assert(pv.take(i + 1).drop_last() =~= pv.take(i as int));
                        assert(pv.take(i + 1).last() == pv[i as int]);
                        assert(piece@ == crate::strutil::dec_int(
                            s0.exprs@[sub as int]->Int_0 as int,
                        ));
                        assert(out@ == tpl_text(s0.exprs@, pv.take(i + 1)));
                    }
                }
            },
        }
        i = i + 1;
    }
    proof {
        if all_lits(strparts_v(parts@)) {
            assert(strparts_v(parts@).take(n as int) =~= strparts_v(parts@));
        }
        if fuel >= 4 && tpl_known(s0.exprs@, strparts_v(parts@)) {
            assert(strparts_v(parts@).take(n as int) =~= strparts_v(parts@));
        }
    }
    Ok(Value::Str { string: out, context: sctx })
}

/// `substring start len s`: the slice of the coerced string from `start`,
/// at most `len` characters, clamped to the text; a negative start is an
/// error and a negative length an empty take. The slice keeps the whole
/// context of `s`.
pub fn substring(
    ev: &mut Eval,
    start: ThunkId,
    len: ThunkId,
    string: ThunkId,
    fuel: u64,
) -> (r: Result<Value, Error>)
    requires
        old(ev).wf(),
        start < old(ev).nthunks(),
        len < old(ev).nthunks(),
        string < old(ev).nthunks(),
    ensures
        final(ev).wf(),
        Eval::evolves(*old(ev), *final(ev)),
        match r {
            Ok(v) => final(ev).value_ok(v) && v@ is Str,
            Err(_) => true,
        },
        fuel >= 2 ==> match (
            old(ev).tv()[start as int],
            old(ev).tv()[len as int],
            old(ev).tv()[string as int],
        ) {
            (
                ThunkV::Done(ValueV::Int(i)),
                ThunkV::Done(ValueV::Int(l)),
                ThunkV::Done(ValueV::Str { string: sv, context: c }),
            ) => {
                if i < 0 {
                    r matches Err(e) && e.kind is TypeError
                } else {
                    r matches Ok(v) && v@ == ValueV::Str {
                        string: substring_spec(sv, i as int, l as int),
                        context: Set::<Seq<char>>::empty().union(c),
                    }
                }
            },
            _ => true,
        },
    decreases fuel,
{
    if fuel == 0 {
        return Err(Error::new(ErrorKind::RecursionLimit));
    }
    let ghost s0 = *ev;
    let mut sctx = PathSet::new();
    let opts = CoerceOpts::new().dont_copy();
    let s = match ev.coerce_to_string(string, &mut sctx, opts, fuel - 1) {
        Ok(s) => s,
        Err(err) => {
            return Err(err);
        },
    };
    let ghost pre = *ev;
    let sv = match ev.force(start, fuel - 1) {
        Ok(v) => v,
        Err(err) => {
            proof {
                Eval::lemma_evolves_trans(s0, pre, *ev);
            }
            return Err(err);
        },
    };
    proof {
        Eval::lemma_evolves_trans(s0, pre, *ev);
    }
    let st = match sv {
        Value::Int(i) => i,
        other => {
            return Err(
                Error::new(
                    ErrorKind::TypeError {
                        expected: String::from_str("int"),
                        got: String::from_str(other.typename()),
                    },
                ),
            );
        },
    };
    if st < 0 {
        return Err(
            Error::new(
                ErrorKind::TypeError {
                    expected: String::from_str("int >= 0"),
                    got: String::from_str("int"),
                },
            ),
        );
    }
    let ghost pre2 = *ev;
    let lv = match ev.force(len, fuel - 1) {
        Ok(v) => v,
        Err(err) => {
            proof {
                Eval::lemma_evolves_trans(s0, pre2, *ev);
            }
            return Err(err);
        },
    };
    proof {
        Eval::lemma_evolves_trans(s0, pre2, *ev);
    }
    let ln = match lv {
        Value::Int(i) => i,
        other => {
            return Err(
                Error::new(
                    ErrorKind::TypeError {
                        expected: String::from_str("int"),
                        got: String::from_str(other.typename()),
                    },
                ),
            );
        },
    };
    let total: usize = s.as_str().unicode_len();
    let from: usize = if st >= 0 && (st as u64) <= (total as u64) {
        st as usize
    } else {
        total
    };
    let keep: u64 = if ln < 0 {
        0
    } else {
        ln as u64
    };
    let upto: usize = if keep <= (total - from) as u64 {
        from + (keep as usize)
    } else {
        total
    };
    let piece = s.as_str().substring_char(from, upto);
    Ok(Value::Str { string: piece.to_owned(), context: sctx })
}

/// `toString v`: extended coercion of a value to a string, keeping the
/// accumulated context.
pub fn prim_to_string(ev: &mut Eval, obj: ThunkId, fuel: u64) -> (r: Result<Value, Error>)
    requires
        old(ev).wf(),
        obj < old(ev).nthunks(),
    ensures
        final(ev).wf(),
        Eval::evolves(*old(ev), *final(ev)),
        match r {
            Ok(v) => final(ev).value_ok(v) && v@ is Str,
            Err(_) => true,
        },
        fuel >= 2 ==> match old(ev).tv()[obj as int] {
            ThunkV::Done(ValueV::Str { string, context }) => (r matches Ok(v) && v@ == (
            ValueV::Str { string, context: Set::<Seq<char>>::empty().union(context) })),
            _ => true,
        },
    decreases fuel,
{
    if fuel == 0 {
        return Err(Error::new(ErrorKind::RecursionLimit));
    }
    let mut sctx = PathSet::new();
    let opts = CoerceOpts::new().extended().dont_copy();
    let s = match ev.coerce_to_string(obj, &mut sctx, opts, fuel - 1) {
        Ok(s) => s,
        Err(err) => {
            return Err(err);
        },
    };
    Ok(Value::Str { string: s, context: sctx })
}

/// `concatStringsSep sep list`: the elements coerced to strings and joined
/// by the separator, all contexts unioned; an empty list is the empty
/// string without context and never forces the separator. On forced string
/// elements the joined text and the unioned context are pinned.
pub fn concat_strings_sep(
    ev: &mut Eval,
    sep: ThunkId,
    strings: ThunkId,
    fuel: u64,
) -> (r: Result<Value, Error>)
    requires
        old(ev).wf(),
        sep < old(ev).nthunks(),
        strings < old(ev).nthunks(),
    ensures
        final(ev).wf(),
        Eval::evolves(*old(ev), *final(ev)),
        match r {
            Ok(v) => final(ev).value_ok(v) && v@ is Str,
            Err(_) => true,
        },
        fuel >= 2 ==> match old(ev).tv()[strings as int] {
            ThunkV::Done(ValueV::List(items)) => items.len() == 0 ==> (r matches Ok(v) && v@ == (
            ValueV::Str { string: Seq::<char>::empty(), context: Set::<Seq<char>>::empty() })),
            _ => true,
        },
        fuel >= 2 ==> match (old(ev).tv()[sep as int], old(ev).tv()[strings as int]) {
            (
                ThunkV::Done(ValueV::Str { string: sp, context: cs }),
                ThunkV::Done(ValueV::List(items)),
            ) => items.len() > 0 && all_forced_strings(old(ev).tv(), items) ==> (r matches Ok(v)
                && v@ == (ValueV::Str {
                string: joined_text(old(ev).tv(), items, sp),
                context: joined_context(
                    Set::<Seq<char>>::empty().union(cs),
                    old(ev).tv(),
                    items,
                ),
            })),
            _ => true,
        },
    decreases fuel,
{
    if fuel == 0 {
        return Err(Error::new(ErrorKind::RecursionLimit));
    }
    let ghost s0 = *ev;
    let lv = match ev.force(strings, fuel - 1) {
        Ok(v) => v,
        Err(err) => {
            return Err(err);
        },
    };
    let ghost lvv = lv@;
    let items = match lv {
        Value::List(items) => items,
        other => {
            return Err(
                Error::new(
                    ErrorKind::TypeError {
                        expected: String::from_str("list"),
                        got: String::from_str(other.typename()),
                    },
                ),
            );
        },
    };
    proof {
        assert(lvv == ValueV::List(items@));
        assert(ids_bounded(items@, ev.nthunks()));
    }
    if items.len() == 0 {
        let empty_ctx = PathSet::new();
        return Ok(Value::Str { string: String::new(), context: empty_ctx });
    }
    // Whether the contract pins the join exactly.
    let ghost hyp = fuel >= 2 && match (s0.tv()[sep as int], s0.tv()[strings as int]) {
        (
            ThunkV::Done(ValueV::Str { .. }),
            ThunkV::Done(ValueV::List(its)),
        ) => all_forced_strings(s0.tv(), its),
        _ => false,
    };
    let mut sctx = PathSet::new();
    let ghost pre = *ev;
    let sepv = match ev.force(sep, fuel - 1) {
        Ok(v) => v,
        Err(err) => {
            proof {
                Eval::lemma_evolves_trans(s0, pre, *ev);
            }
            return Err(err);
        },
    };
    proof {
        Eval::lemma_evolves_trans(s0, pre, *ev);
    }
    let ghost sepvv = sepv@;
    let sep_text = match sepv {
        Value::Str { string, context } => {
            proof {
                assert(sepvv == ValueV::Str { string: string@, context: context@ });
            }
            sctx.extend(&context);
            string
        },
        other => {
            return Err(
                Error::new(
                    ErrorKind::TypeError {
                        expected: String::from_str("string"),
                        got: String::from_str(other.typename()),
                    },
                ),
            );
        },
    };
    let mut out = String::new();
    let n = items.len();
    let mut i: usize = 0;
    proof {
        if hyp {
            assert(items@.take(0) =~= Seq::<ThunkId>::empty());
        }
    }
    while i < n
        invariant
            i <= n,
            n == items@.len(),
            n > 0,
            fuel >= 1,
            s0 == *old(ev),
            sep < s0.nthunks(),
            strings < s0.nthunks(),
            ev.wf(),
            Eval::evolves(*old(ev), *ev),
            ids_bounded(items@, ev.nthunks()),
            hyp == (fuel >= 2 && match (s0.tv()[sep as int], s0.tv()[strings as int]) {
                (
                    ThunkV::Done(ValueV::Str { .. }),
                    ThunkV::Done(ValueV::List(its)),
                ) => all_forced_strings(s0.tv(), its),
                _ => false,
            }),
            match s0.tv()[strings as int] {
                ThunkV::Done(ValueV::List(its)) => its.len() == n,
                _ => true,
            },
            hyp ==> s0.tv()[strings as int] == ThunkV::Done(ValueV::List(items@)),
            hyp ==> sep_text@ == s0.tv()[sep as int]->Done_0->Str_string,
            hyp ==> forall|j: int|
                0 <= j < items@.len() ==> ev.tv()[#[trigger] items@[j] as int] == s0.tv()[
                    items@[j] as int
                ],
            hyp ==> out@ == joined_text(s0.tv(), items@.take(i as int), sep_text@),
            hyp ==> sctx@ == joined_context(
                Set::<Seq<char>>::empty().union(s0.tv()[sep as int]->Done_0->Str_context),
                s0.tv(),
                items@.take(i as int),
            ),
        decreases n - i,
    {
        if i > 0 {
            out.append(sep_text.as_str());
        }
        proof {
            if hyp {
                assert(all_forced_strings(s0.tv(), items@));
                assert((items@[i as int] as int) < s0.tv().len());
                assert(ev.tv()[items@[i as int] as int] == s0.tv()[items@[i as int] as int]);
            }
        }
        let ghost pre2 = *ev;
        let opts = CoerceOpts::new().dont_copy();
        let piece = match ev.coerce_to_string(items[i], &mut sctx, opts, fuel - 1) {
            Ok(p) => p,
            Err(err) => {
                proof {
                    Eval::lemma_evolves_trans(*old(ev), pre2, *ev);
                }
                return Err(err);
            },
        };
        proof {
            Eval::lemma_evolves_trans(*old(ev), pre2, *ev);
            crate::attrs::lemma_ids_bounded_mono(items@, pre2.nthunks(), ev.nthunks());
            if hyp {
                assert forall|j: int| 0 <= j < items@.len() implies ev.tv()[
                    #[trigger] items@[j] as int
                ] == s0.tv()[items@[j] as int] by {
                    assert(pre2.tv()[items@[j] as int] == s0.tv()[items@[j] as int]);
                    assert(pre2.thunks@[items@[j] as int]@ == pre2.tv()[items@[j] as int]);
                    assert(ev.thunks@[items@[j] as int]@ == pre2.thunks@[items@[j] as int]@);
                }
                let tv0 = s0.tv();
                let taken = items@.take(i + 1);
                assert(taken.drop_last() =~= items@.take(i as int));
                assert(taken.last() == items@[i as int]);
                assert(piece@ == text_of(tv0, items@[i as int]));
                assert(sctx@ == joined_context(
                    Set::<Seq<char>>::empty().union(tv0[sep as int]->Done_0->Str_context),
                    tv0,
                    taken,
                ));
            }
        }
        out.append(piece.as_str());
        proof {
            if hyp {
                let tv0 = s0.tv();
                let taken = items@.take(i + 1);
                assert(taken.drop_last() =~= items@.take(i as int));
                assert(taken.last() == items@[i as int]);
                if i == 0 {
                    assert(taken.len() == 1);
                    assert(taken[0] == items@[0]);
                    assert(joined_text(tv0, taken, sep_text@) == text_of(tv0, items@[0]));
                } else {
                    assert(joined_text(tv0, taken, sep_text@) == joined_text(
                        tv0,
                        items@.take(i as int),
                        sep_text@,
                    ) + sep_text@ + text_of(tv0, items@[i as int]));
                }
                assert(out@ == joined_text(tv0, taken, sep_text@));
            }
        }
        i = i + 1;
    }
    proof {
        if hyp {
            assert(items@.take(n as int) =~= items@);
        }
    }
    Ok(Value::Str { string: out, context: sctx })
}

/// Runs a saturated builtin on its collected arguments; on forced
/// arguments each builtin's verdict is pinned: `throw` fails with its
/// message, `toString` is the extended coercion, `substring` the clamped
/// slice, and `concatStringsSep` the separator join.
pub fn dispatch_primop(
    ev: &mut Eval,
    op: PrimopOp,
    args: Vec<ThunkId>,
    fuel: u64,
) -> (r: Result<Value, Error>)
    requires
        old(ev).wf(),
        args@.len() == primop_arity(op),
        ids_bounded(args@, old(ev).nthunks()),
    ensures
        final(ev).wf(),
        Eval::evolves(*old(ev), *final(ev)),
        match r {
            Ok(v) => final(ev).value_ok(v),
            Err(_) => true,
        },
        fuel >= 3 && op == PrimopOp::Throw ==> match old(ev).tv()[args@[0] as int] {
            ThunkV::Done(ValueV::Str { string, .. }) => (r matches Err(e) && e.kind is Throw),
            _ => true,
        },
        fuel >= 3 && op == PrimopOp::ToString ==> match old(ev).tv()[args@[0] as int] {
            ThunkV::Done(ValueV::Str { string, context }) => (r matches Ok(v) && v@ == (
            ValueV::Str { string, context: Set::<Seq<char>>::empty().union(context) })),
            _ => true,
        },
        fuel >= 3 && op == PrimopOp::Substring ==> match (
            old(ev).tv()[args@[0] as int],
            old(ev).tv()[args@[1] as int],
            old(ev).tv()[args@[2] as int],
        ) {
            (
                ThunkV::Done(ValueV::Int(i)),
                ThunkV::Done(ValueV::Int(l)),
                ThunkV::Done(ValueV::Str { string: sv, context: c }),
            ) => {
                if i < 0 {
                    r matches Err(e) && e.kind is TypeError
                } else {
                    r matches Ok(v) && v@ == (ValueV::Str {
                        string: substring_spec(sv, i as int, l as int),
                        context: Set::<Seq<char>>::empty().union(c),
                    })
                }
            },
            _ => true,
        },
        fuel >= 3 && op == PrimopOp::ConcatStringsSep ==> match old(ev).tv()[args@[1] as int] {
            ThunkV::Done(ValueV::List(items)) => items.len() == 0 ==> (r matches Ok(v) && v@ == (
            ValueV::Str { string: Seq::<char>::empty(), context: Set::<Seq<char>>::empty() })),
            _ => true,
        },
        fuel >= 3 && op == PrimopOp::ConcatStringsSep ==> match (
            old(ev).tv()[args@[0] as int],
            old(ev).tv()[args@[1] as int],
        ) {
            (
                ThunkV::Done(ValueV::Str { string: sp, context: cs }),
                ThunkV::Done(ValueV::List(items)),
            ) => items.len() > 0 && all_forced_strings(old(ev).tv(), items) ==> (r matches Ok(v)
                && v@ == (ValueV::Str {
                string: joined_text(old(ev).tv(), items, sp),
                context: joined_context(
                    Set::<Seq<char>>::empty().union(cs),
                    old(ev).tv(),
                    items,
                ),
            })),
            _ => true,
        },
    decreases fuel,
{
    if fuel == 0 {
        return Err(Error::new(ErrorKind::RecursionLimit));
    }
    proof {
        assert(forall|i: int| 0 <= i < args@.len() ==> #[trigger] args@[i] < old(ev).nthunks());
    }
    match op {
        PrimopOp::Throw => {
            let mut sctx = PathSet::new();
            let opts = CoerceOpts::new().dont_copy();
            let msg = match ev.coerce_to_string(args[0], &mut sctx, opts, fuel - 1) {
                Ok(m) => m,
                Err(err) => {
                    return Err(err);
                },
            };
            Err(Error::new(ErrorKind::Throw(msg)))
        },
        PrimopOp::ToString => prim_to_string(ev, args[0], fuel - 1),
        PrimopOp::Substring => substring(ev, args[0], args[1], args[2], fuel - 1),
        PrimopOp::ConcatStringsSep => concat_strings_sep(ev, args[0], args[1], fuel - 1),
    }
}

} // verus!
