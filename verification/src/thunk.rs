//! Memoisation cells. A thunk holds pending work and transitions at most
//! once into a value; while its own evaluation runs, the cell holds a
//! black-hole sentinel, so re-entering the same thunk is detected as an
//! infinite loop. Evaluation drives these cells through an exclusive
//! reference, so the transition protocol is enforced by the contracts here.

use crate::attrs::ThunkId;
use crate::ctx::{ctx_bounded, Context, ScopeId};
use crate::error::ExprId;
use crate::expr::Ident;
use crate::value::{value_bounded, value_rep_wf, Value, ValueV};
use vstd::prelude::*;

verus! {

/// Pending work held by a thunk.
#[derive(Debug)]
pub enum ThunkCell {
    /// Evaluate this expression node under this context.
    Expr(ExprId, Context),
    /// Force the first thunk to a function, then apply it to the second.
    Apply(ThunkId, ThunkId),
    /// Look a variable up in a context, deferred: how `inherit` without a
    /// source defers its lookup to the enclosing scope.
    Lookup(Ident, Context),
    /// Force the first thunk to an attribute set and read the named
    /// attribute out of it: how `inherit (from) name` defers its lookup.
    InheritFrom(ThunkId, Ident),
    /// A reservation: the attribute-set builder installs the finished set
    /// here after the bindings are created. Forcing it early means a
    /// binding consulted the set while it was still being built.
    Pending,
    /// In-progress sentinel: observing it while forcing the same thunk
    /// signals an infinite loop.
    Blackhole,
}

/// The model of a cell.
#[verifier::ext_equal]
pub enum CellV {
    Expr(ExprId, Seq<ScopeId>),
    Apply(ThunkId, ThunkId),
    Lookup(Seq<char>, Seq<ScopeId>),
    InheritFrom(ThunkId, Seq<char>),
    Pending,
    Blackhole,
}

impl View for ThunkCell {
    type V = CellV;

    open spec fn view(&self) -> CellV {
        match self {
            ThunkCell::Expr(e, c) => CellV::Expr(*e, c@),
            ThunkCell::Apply(f, a) => CellV::Apply(*f, *a),
            ThunkCell::Lookup(n, c) => CellV::Lookup(n@, c@),
            ThunkCell::InheritFrom(t, n) => CellV::InheritFrom(*t, n@),
            ThunkCell::Pending => CellV::Pending,
            ThunkCell::Blackhole => CellV::Blackhole,
        }
    }
}

/// The model of a thunk: pending work, or the value it reduced to.
#[verifier::ext_equal]
pub enum ThunkV {
    Cell(CellV),
    Done(ValueV),
}

/// Whether a cell model references only thunks below `nt`, expression
/// nodes below `ne` and scopes below `ns`.
pub open spec fn cell_bounded(c: CellV, nt: nat, ne: nat, ns: nat) -> bool {
    match c {
        CellV::Expr(e, ctx) => e < ne && ctx_bounded(ctx, ns),
        CellV::Apply(f, a) => f < nt && a < nt,
        CellV::Lookup(_, ctx) => ctx_bounded(ctx, ns),
        CellV::InheritFrom(t, _) => t < nt,
        CellV::Pending => true,
        CellV::Blackhole => true,
    }
}

/// Whether a thunk model references only arena slots below the bounds.
pub open spec fn thunk_bounded(t: ThunkV, nt: nat, ne: nat, ns: nat) -> bool {
    match t {
        ThunkV::Cell(c) => cell_bounded(c, nt, ne, ns),
        ThunkV::Done(v) => value_bounded(v, nt, ne, ns),
    }
}

#[derive(Debug)]
enum ThunkState {
    Cell(ThunkCell),
    Value(Value),
}

/// A single memoisation cell.
#[derive(Debug)]
pub struct Thunk {
    state: ThunkState,
}

impl View for Thunk {
    type V = ThunkV;

    closed spec fn view(&self) -> ThunkV {
        match self.state {
            ThunkState::Cell(c) => ThunkV::Cell(c@),
            ThunkState::Value(v) => ThunkV::Done(v@),
        }
    }
}

impl Thunk {
    /// Representation invariant: a held value keeps its attribute maps
    /// well formed.
    pub closed spec fn rep_wf(&self) -> bool {
        match self.state {
            ThunkState::Cell(_) => true,
            ThunkState::Value(v) => value_rep_wf(v),
        }
    }

    /// A thunk holding pending work.
    pub fn new(t: ThunkCell) -> (r: Thunk)
        ensures
            r@ == ThunkV::Cell(t@),
            r.rep_wf(),
    {
        Thunk { state: ThunkState::Cell(t) }
    }

    /// A thunk that will evaluate `e` under `c`.
    pub fn thunk(e: ExprId, c: Context) -> (r: Thunk)
        ensures
            r@ == ThunkV::Cell(CellV::Expr(e, c@)),
            r.rep_wf(),
    {
        Thunk { state: ThunkState::Cell(ThunkCell::Expr(e, c)) }
    }

    /// A thunk born already evaluated.
    pub fn complete(v: Value) -> (r: Thunk)
        requires
            value_rep_wf(v),
        ensures
            r@ == ThunkV::Done(v@),
            r.rep_wf(),
    {
        Thunk { state: ThunkState::Value(v) }
    }

    /// Whether the transition to a value has happened.
    pub fn is_value(&self) -> (r: bool)
        ensures
            r == (self@ is Done),
    {
        match &self.state {
            ThunkState::Cell(_) => false,
            ThunkState::Value(_) => true,
        }
    }

    /// The held value, when there is one.
    pub fn value_ref(&self) -> (r: Option<&Value>)
        ensures
            match r {
                Some(v) => self@ == ThunkV::Done(v@) && (self.rep_wf() ==> value_rep_wf(*v)),
                None => !(self@ is Done),
            },
    {
        match &self.state {
            ThunkState::Cell(_) => None,
            ThunkState::Value(v) => Some(v),
        }
    }

    /// Takes the pending work out, leaving the black-hole sentinel: the
    /// first step of forcing.
    pub fn get_thunk(&mut self) -> (r: ThunkCell)
        requires
            old(self)@ is Cell,
        ensures
            ThunkV::Cell(r@) == old(self)@,
            final(self)@ == ThunkV::Cell(CellV::Blackhole),
            final(self).rep_wf(),
    {
        let mut taken = ThunkState::Cell(ThunkCell::Blackhole);
        core::mem::swap(&mut self.state, &mut taken);
        match taken {
            ThunkState::Cell(c) => c,
            ThunkState::Value(_) => {
                proof {
                    assert(false);
                }
                ThunkCell::Blackhole
            },
        }
    }

    /// Replaces the pending work; the thunk must not have transitioned.
    pub fn update(&mut self, t: ThunkCell)
        requires
            old(self)@ is Cell,
        ensures
            final(self)@ == ThunkV::Cell(t@),
            final(self).rep_wf(),
    {
        self.state = ThunkState::Cell(t);
    }

    /// The one-shot transition: installs the value. The thunk must not
    /// already hold one — a second installation is a protocol error.
    pub fn put_value(&mut self, v: Value)
        requires
            old(self)@ is Cell,
            value_rep_wf(v),
        ensures
            final(self)@ == ThunkV::Done(v@),
            final(self).rep_wf(),
    {
        self.state = ThunkState::Value(v);
    }
}

} // verus!
