//! Scopes and evaluation contexts. A context is an immutable persistent
//! sequence of scope ids, front first. Every binder prepends, so the
//! innermost stands first; a `with` environment enters as its own scope
//! kind, and lookup ranks every `with` below every other binder while
//! keeping the inner-before-outer order within each rank. Persistence
//! matters because contexts are captured by closures and thunks, so the
//! sequence is held in a structurally shared vector from the `im` crate,
//! seen by the verifier only through its contents.

use crate::attrs::{attrs_bounded, AttrMap, ThunkId};
use vstd::prelude::*;

verus! {

/// Index of a scope inside the evaluator's scope arena.
pub type ScopeId = usize;

/// A static scope maps identifiers directly to thunks.
pub type StaticScope = AttrMap;

/// One scope: either direct bindings, or a lazily evaluated attribute set
/// whose keys come into scope only when a lookup consults it.
#[derive(Debug)]
pub enum Scope {
    /// Lexical bindings.
    Static(StaticScope),
    /// A thunk forced to an attribute set on first consultation:
    /// recursive sets, `let` and formal scopes.
    Dynamic(ThunkId),
    /// A `with` environment: forced like a dynamic scope, but consulted
    /// only after every other binder of the context.
    With(ThunkId),
}

/// Whether every scope id in a context model lies below `ns`.
pub open spec fn ctx_bounded(c: Seq<ScopeId>, ns: nat) -> bool {
    forall|i: int| 0 <= i < c.len() ==> #[trigger] c[i] < ns
}

/// Context bounds only loosen as the scope arena grows.
pub proof fn lemma_ctx_bounded_mono(c: Seq<ScopeId>, ns1: nat, ns2: nat)
    requires
        ctx_bounded(c, ns1),
        ns1 <= ns2,
    ensures
        ctx_bounded(c, ns2),
{
    assert forall|i: int| 0 <= i < c.len() implies #[trigger] c[i] < ns2 by {
        assert(ctx_bounded(c, ns1));
        assert(c[i] < ns1);
    }
}

/// The model of a scope.
#[verifier::ext_equal]
pub enum ScopeV {
    Static(Map<Seq<char>, ThunkId>),
    Dynamic(ThunkId),
    With(ThunkId),
}

impl View for Scope {
    type V = ScopeV;

    open spec fn view(&self) -> ScopeV {
        match self {
            Scope::Static(m) => ScopeV::Static(m@),
            Scope::Dynamic(t) => ScopeV::Dynamic(*t),
            Scope::With(t) => ScopeV::With(*t),
        }
    }
}

/// Representation invariant of a scope: static bindings keep unique keys.
pub open spec fn scope_rep_wf(s: Scope) -> bool {
    match s {
        Scope::Static(m) => m.wf(),
        Scope::Dynamic(_) => true,
        Scope::With(_) => true,
    }
}

/// Whether a scope model references only thunks below `nt`.
pub open spec fn scope_bounded(s: ScopeV, nt: nat) -> bool {
    match s {
        ScopeV::Static(m) => attrs_bounded(m, nt),
        ScopeV::Dynamic(t) => t < nt,
        ScopeV::With(t) => t < nt,
    }
}

#[verifier::external_type_specification]
#[verifier::external_body]
#[verifier::reject_recursive_types(A)]
pub struct ExImVector<A>(im::Vector<A>);

/// The contents of a persistent scope-id vector, front first.
pub uninterp spec fn ids_seq(v: im::Vector<usize>) -> Seq<usize>;

/// Relies on im::Vector::new: a freshly created vector is empty.
#[verifier::external_body]
fn ids_new() -> (r: im::Vector<usize>)
    ensures
        ids_seq(r) == Seq::<usize>::empty(),
{
    im::Vector::new()
}

/// Relies on im::Vector::len: the number of elements held.
#[verifier::external_body]
fn ids_len(v: &im::Vector<usize>) -> (r: usize)
    ensures
        r == ids_seq(*v).len(),
{
    v.len()
}

/// Relies on im::Vector::get: the element at the index, when in range.
#[verifier::external_body]
fn ids_get(v: &im::Vector<usize>, i: usize) -> (r: Option<usize>)
    ensures
        r == if i < ids_seq(*v).len() {
            Some(ids_seq(*v)[i as int])
        } else {
            None::<usize>
        },
{
    v.get(i).copied()
}

/// Relies on im::Vector::push_front: the element is placed before the
/// existing contents.
#[verifier::external_body]
fn ids_push_front(v: &mut im::Vector<usize>, x: usize)
    ensures
        ids_seq(*final(v)) == seq![x] + ids_seq(*old(v)),
{
    v.push_front(x)
}

/// Relies on im::Vector::clone: a structurally shared copy with the same
/// contents.
#[verifier::external_body]
fn ids_clone(v: &im::Vector<usize>) -> (r: im::Vector<usize>)
    ensures
        ids_seq(r) == ids_seq(*v),
{
    v.clone()
}

/// A persistent sequence of scope ids threaded through evaluation;
/// consulted front to back.
#[derive(Debug)]
pub struct Context {
    ids: im::Vector<usize>,
}

impl View for Context {
    type V = Seq<ScopeId>;

    closed spec fn view(&self) -> Seq<ScopeId> {
        ids_seq(self.ids)
    }
}

impl Context {
    /// The empty context.
    pub fn new() -> (r: Context)
        ensures
            r@ == Seq::<ScopeId>::empty(),
    {
        Context { ids: ids_new() }
    }

    /// A copy sharing structure with `self`.
    pub fn duplicate(&self) -> (r: Context)
        ensures
            r@ == self@,
    {
        Context { ids: ids_clone(&self.ids) }
    }

    /// A context consulting `s` before everything in `self`: how lexical
    /// binders, `let` and formal scopes are entered.
    pub fn prepend(&self, s: ScopeId) -> (r: Context)
        ensures
            r@ == seq![s] + self@,
    {
        let mut ids = ids_clone(&self.ids);
        ids_push_front(&mut ids, s);
        Context { ids }
    }



    /// Number of scopes.
    pub fn len(&self) -> (r: usize)
        ensures
            r == self@.len(),
    {
        ids_len(&self.ids)
    }

    /// The scope id at consultation position `i`.
    pub fn get(&self, i: usize) -> (r: Option<ScopeId>)
        ensures
            r == if i < self@.len() {
                Some(self@[i as int])
            } else {
                None::<ScopeId>
            },
    {
        ids_get(&self.ids, i)
    }
}

} // verus!
