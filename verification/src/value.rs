//! The value algebra: what weak-head-normal-form evaluation produces.
//! Strings carry a *context* — the set of store paths they reference — and
//! every coercion that consumes a string unions that set into its caller's
//! accumulator. The mathematical model of a value replaces each container by
//! its contents: sequences, sets and maps over plain data and arena ids.

use crate::attrs::{attrs_bounded, ids_bounded, AttrMap, ThunkId};
use crate::ctx::{ctx_bounded, Context, ScopeId};
use crate::error::{Error, ErrorKind};
use crate::expr::{param_wf, ExprId, LambdaParam, ParamV};
use vstd::prelude::*;

verus! {

/// The set of store paths a string transitively references. Entries may
/// repeat in the backing vector; the model is the set of their texts.
#[derive(Debug)]
pub struct PathSet {
    paths: Vec<String>,
}

impl View for PathSet {
    type V = Set<Seq<char>>;

    closed spec fn view(&self) -> Set<Seq<char>> {
        self.paths@.map_values(|p: String| p@).to_set()
    }
}

impl PathSet {
    /// The empty context.
    pub fn new() -> (r: PathSet)
        ensures
            r@ == Set::<Seq<char>>::empty(),
    {
        let r = PathSet { paths: Vec::new() };
        proof {
            assert(r@ =~= Set::<Seq<char>>::empty());
        }
        r
    }

    /// Adds one store path.
    pub fn insert(&mut self, p: String)
        ensures
            final(self)@ == old(self)@.insert(p@),
    {
        self.paths.push(p);
        proof {
            let f = |q: String| q@;
            let m = self.paths@.map_values(f);
            assert(m.drop_last() =~= old(self).paths@.map_values(f));
            assert forall|x: Seq<char>| self@.contains(x) <==> old(self)@.insert(p@).contains(x) by {
                if self@.contains(x) {
                    let i = choose|i: int| 0 <= i < m.len() && m[i] == x;
                    if i < m.len() - 1 {
                        assert(m.drop_last()[i] == x);
                    }
                } else {
                    if old(self)@.contains(x) {
                        let i = choose|i: int|
                            0 <= i < m.len() - 1 && #[trigger] m.drop_last()[i] == x;
                        assert(m[i] == x);
                    }
                    if x == p@ {
                        assert(m[m.len() - 1] == x);
                    }
                }
            }
            assert(self@ =~= old(self)@.insert(p@));
        }
    }

    /// Unions another context into this one.
    pub fn extend(&mut self, other: &PathSet)
        ensures
            final(self)@ == old(self)@.union(other@),
    {
        let n = other.paths.len();
        let mut i: usize = 0;
        while i < n
            invariant
                i <= n,
                n == other.paths@.len(),
                self@ == old(self)@.union(other.paths@.take(i as int).map_values(|p: String| p@).to_set()),
            decreases n - i,
        {
            let ghost pre = self@;
            let p = other.paths[i].clone();
            self.insert(p);
            proof {
                let f = |q: String| q@;
                let t1 = other.paths@.take(i + 1).map_values(f);
                let t0 = other.paths@.take(i as int).map_values(f);
                assert(t1.drop_last() =~= t0);
                assert forall|x: Seq<char>| t1.to_set().contains(x) <==> t0.to_set().insert(
                    other.paths@[i as int]@,
                ).contains(x) by {
                    if t1.to_set().contains(x) {
                        let j = choose|j: int| 0 <= j < t1.len() && t1[j] == x;
                        if j < t1.len() - 1 {
                            assert(t0[j] == x);
                        }
                    } else {
                        if t0.to_set().contains(x) {
                            let j = choose|j: int| 0 <= j < t0.len() && #[trigger] t0[j] == x;
                            assert(t1[j] == x);
                        }
                        if x == other.paths@[i as int]@ {
                            assert(t1[t1.len() - 1] == x);
                        }
                    }
                }
                assert(self@ =~= old(self)@.union(t1.to_set()));
            }
            i = i + 1;
        }
        proof {
            assert(other.paths@.take(n as int) =~= other.paths@);
        }
    }

    /// Whether the context is empty.
    pub fn is_empty(&self) -> (r: bool)
        ensures
            r == (self@ == Set::<Seq<char>>::empty()),
    {
        let r = self.paths.len() == 0;
        proof {
            let f = |q: String| q@;
            let m = self.paths@.map_values(f);
            if self.paths@.len() == 0 {
                assert(self@ =~= Set::<Seq<char>>::empty());
            } else {
                assert(m[0] == self.paths@[0]@);
                assert(self@.contains(self.paths@[0]@));
            }
        }
        r
    }

    /// A copy with the same model.
    pub fn duplicate(&self) -> (r: PathSet)
        ensures
            r@ == self@,
    {
        let n = self.paths.len();
        let mut out: Vec<String> = Vec::new();
        let mut i: usize = 0;
        while i < n
            invariant
                i <= n,
                n == self.paths@.len(),
                out@.len() == i,
                forall|j: int| 0 <= j < i ==> #[trigger] out@[j]@ == self.paths@[j]@,
            decreases n - i,
        {
            out.push(self.paths[i].clone());
            i = i + 1;
        }
        let r = PathSet { paths: out };
        proof {
            let f = |q: String| q@;
            assert(r.paths@.map_values(f) =~= self.paths@.map_values(f));
        }
        r
    }

    /// The backing entries, for hosts that hand contexts onward. Every
    /// entry's text is in the model and every model element is some
    /// entry's text.
    pub fn items(&self) -> (r: &Vec<String>)
        ensures
            forall|i: int| 0 <= i < r@.len() ==> self@.contains(#[trigger] r@[i]@),
            forall|x: Seq<char>| self@.contains(x) ==> exists|i: int|
                0 <= i < r@.len() && #[trigger] r@[i]@ == x,
    {
        proof {
            let f = |q: String| q@;
            let m = self.paths@.map_values(f);
            assert forall|i: int| 0 <= i < self.paths@.len() implies self@.contains(
                #[trigger] self.paths@[i]@,
            ) by {
                assert(m[i] == self.paths@[i]@);
            }
            assert forall|x: Seq<char>| self@.contains(x) implies exists|i: int|
                0 <= i < self.paths@.len() && #[trigger] self.paths@[i]@ == x by {
                let j = choose|j: int| 0 <= j < m.len() && m[j] == x;
                assert(self.paths@[j]@ == x);
            }
        }
        &self.paths
    }
}

/// Options controlling string coercion.
#[derive(Debug, Clone, Copy, PartialEq, Eq, Structural)]
pub struct CoerceOpts {
    /// Also accept booleans, null and lists, as `toString` does.
    pub extended: bool,
    /// Paths must be copied to the store by the store collaborator rather
    /// than rendered literally.
    pub copy_to_store: bool,
}

impl Default for CoerceOpts {
    /// Plain coercion: not extended, paths go through the store.
    fn default() -> (r: Self)
        ensures
            r == (CoerceOpts { extended: false, copy_to_store: true }),
    {
        CoerceOpts { extended: false, copy_to_store: true }
    }
}

impl CoerceOpts {
    /// The default options.
    pub fn new() -> (r: Self)
        ensures
            r == (CoerceOpts { extended: false, copy_to_store: true }),
    {
        Self::default()
    }

    /// With the extended rules switched on.
    pub fn extended(self) -> (r: Self)
        ensures
            r == (CoerceOpts { extended: true, copy_to_store: self.copy_to_store }),
    {
        CoerceOpts { extended: true, copy_to_store: self.copy_to_store }
    }

    /// With store copying switched off: paths are rendered literally.
    pub fn dont_copy(self) -> (r: Self)
        ensures
            r == (CoerceOpts { extended: self.extended, copy_to_store: false }),
    {
        CoerceOpts { extended: self.extended, copy_to_store: false }
    }
}

/// The built-in operations exposed to the language.
#[derive(Debug, Clone, Copy, PartialEq, Eq, Structural)]
pub enum PrimopOp {
    /// Fails with the given message when forced.
    Throw,
    /// Extended coercion of a value to a string.
    ToString,
    /// `substring start len s`.
    Substring,
    /// `concatStringsSep sep list`.
    ConcatStringsSep,
}

/// How many arguments a primop consumes before it runs.
pub open spec fn primop_arity(op: PrimopOp) -> nat {
    match op {
        PrimopOp::Throw => 1,
        PrimopOp::ToString => 1,
        PrimopOp::Substring => 3,
        PrimopOp::ConcatStringsSep => 2,
    }
}

impl PrimopOp {
    /// How many arguments this built-in consumes before it runs.
    pub fn arity(self) -> (r: usize)
        ensures
            r == primop_arity(self),
    {
        match self {
            PrimopOp::Throw => 1,
            PrimopOp::ToString => 1,
            PrimopOp::Substring => 3,
            PrimopOp::ConcatStringsSep => 2,
        }
    }
}

/// A partially applied built-in: the operation and the arguments collected
/// so far (always fewer than its arity).
#[derive(Debug)]
pub struct Primop {
    pub op: PrimopOp,
    pub args: Vec<ThunkId>,
}

/// A value in weak head normal form (or a `Ref` forwarding to one).
#[derive(Debug)]
pub enum Value {
    Int(i64),
    Bool(bool),
    Null,
    /// Text plus its store-path context.
    Str { string: String, context: PathSet },
    /// An absolute filesystem path.
    Path(String),
    /// Element thunks in order.
    List(Vec<ThunkId>),
    /// Attribute thunks by name; insertion order carries no meaning.
    AttrSet(AttrMap),
    /// A closure: the pattern, the body node, and the captured context.
    Lambda { param: LambdaParam, body: ExprId, captures: Context },
    /// A partially applied built-in.
    Primop(Primop),
    /// Forwarding to the value of another thunk.
    Ref(ThunkId),
}

/// The model of a value: containers replaced by their contents.
#[verifier::ext_equal]
pub enum ValueV {
    Int(i64),
    Bool(bool),
    Null,
    Str { string: Seq<char>, context: Set<Seq<char>> },
    Path(Seq<char>),
    List(Seq<ThunkId>),
    AttrSet(Map<Seq<char>, ThunkId>),
    Lambda { param: ParamV, body: ExprId, captures: Seq<ScopeId> },
    Primop { op: PrimopOp, args: Seq<ThunkId> },
    Ref(ThunkId),
}

impl View for Value {
    type V = ValueV;

    open spec fn view(&self) -> ValueV {
        match self {
            Value::Int(i) => ValueV::Int(*i),
            Value::Bool(b) => ValueV::Bool(*b),
            Value::Null => ValueV::Null,
            Value::Str { string, context } => ValueV::Str { string: string@, context: context@ },
            Value::Path(p) => ValueV::Path(p@),
            Value::List(items) => ValueV::List(items@),
            Value::AttrSet(m) => ValueV::AttrSet(m@),
            Value::Lambda { param, body, captures } => ValueV::Lambda {
                param: param@,
                body: *body,
                captures: captures@,
            },
            Value::Primop(p) => ValueV::Primop { op: p.op, args: p.args@ },
            Value::Ref(t) => ValueV::Ref(*t),
        }
    }
}

/// Representation invariant of a value: every attribute map keeps its keys
/// unique.
pub open spec fn value_rep_wf(v: Value) -> bool {
    match v {
        Value::AttrSet(m) => m.wf(),
        _ => true,
    }
}

/// Whether a value model references only thunks below `nt`, expression
/// nodes below `ne` and scopes below `ns`.
pub open spec fn value_bounded(v: ValueV, nt: nat, ne: nat, ns: nat) -> bool {
    match v {
        ValueV::Int(_) => true,
        ValueV::Bool(_) => true,
        ValueV::Null => true,
        ValueV::Str { .. } => true,
        ValueV::Path(_) => true,
        ValueV::List(items) => ids_bounded(items, nt),
        ValueV::AttrSet(m) => attrs_bounded(m, nt),
        ValueV::Lambda { param, body, captures } => {
            &&& body < ne
            &&& param_wf(param, ne)
            &&& ctx_bounded(captures, ns)
        },
        ValueV::Primop { op, args } => {
            &&& args.len() < primop_arity(op)
            &&& ids_bounded(args, nt)
        },
        ValueV::Ref(t) => t < nt,
    }
}

/// A copy of a thunk-id vector.
pub fn clone_ids(v: &Vec<ThunkId>) -> (r: Vec<ThunkId>)
    ensures
        r@ == v@,
{
    let n = v.len();
    let mut out: Vec<ThunkId> = Vec::new();
    let mut i: usize = 0;
    while i < n
        invariant
            i <= n,
            n == v@.len(),
            out@ == v@.take(i as int),
        decreases n - i,
    {
        out.push(v[i]);
        proof {
            assert(out@ =~= v@.take(i + 1));
        }
        i = i + 1;
    }
    proof {
        assert(v@.take(n as int) =~= v@);
    }
    out
}

impl Value {
    /// A copy with the same model; attribute maps keep their invariant.
    pub fn duplicate(&self) -> (r: Value)
        requires
            value_rep_wf(*self),
        ensures
            r@ == self@,
            value_rep_wf(r),
    {
        match self {
            Value::Int(i) => Value::Int(*i),
            Value::Bool(b) => Value::Bool(*b),
            Value::Null => Value::Null,
            Value::Str { string, context } => Value::Str {
                string: string.clone(),
                context: context.duplicate(),
            },
            Value::Path(p) => Value::Path(p.clone()),
            Value::List(items) => Value::List(clone_ids(items)),
            Value::AttrSet(m) => Value::AttrSet(m.duplicate()),
            Value::Lambda { param, body, captures } => Value::Lambda {
                param: param.duplicate(),
                body: *body,
                captures: captures.duplicate(),
            },
            Value::Primop(p) => Value::Primop(Primop { op: p.op, args: clone_ids(&p.args) }),
            Value::Ref(t) => Value::Ref(*t),
        }
    }

    /// The boolean this value holds; a type error otherwise.
    pub fn as_bool(&self) -> (r: Result<bool, Error>)
        ensures
            match self@ {
                ValueV::Bool(b) => r == Ok::<bool, Error>(b),
                _ => r is Err,
            },
    {
        match self {
            Value::Bool(b) => Ok(*b),
            other => Err(Error::new(ErrorKind::TypeError {
                expected: owned_str("bool"),
                got: owned_str(other.typename()),
            })),
        }
    }

    /// The integer this value holds; a type error otherwise.
    pub fn as_int(&self) -> (r: Result<i64, Error>)
        ensures
            match self@ {
                ValueV::Int(n) => r == Ok::<i64, Error>(n),
                _ => r is Err,
            },
    {
        match self {
            Value::Int(n) => Ok(*n),
            other => Err(Error::new(ErrorKind::TypeError {
                expected: owned_str("int"),
                got: owned_str(other.typename()),
            })),
        }
    }

    /// The text and store context this string holds; a type error otherwise.
    pub fn as_string_and_context(&self) -> (r: Result<(&String, &PathSet), Error>)
        ensures
            match self@ {
                ValueV::Str { string, context } => r matches Ok(p) && p.0@ == string && p.1@
                    == context,
                _ => r is Err,
            },
    {
        match self {
            Value::Str { string, context } => Ok((string, context)),
            other => Err(Error::new(ErrorKind::TypeError {
                expected: owned_str("string"),
                got: owned_str(other.typename()),
            })),
        }
    }

    /// The filesystem path this value holds; a type error otherwise.
    pub fn as_path(&self) -> (r: Result<&String, Error>)
        ensures
            match self@ {
                ValueV::Path(p) => r matches Ok(q) && q@ == p,
                _ => r is Err,
            },
    {
        match self {
            Value::Path(p) => Ok(p),
            other => Err(Error::new(ErrorKind::TypeError {
                expected: owned_str("path"),
                got: owned_str(other.typename()),
            })),
        }
    }

    /// The element thunks of this list; a type error otherwise.
    pub fn as_list(&self) -> (r: Result<&Vec<ThunkId>, Error>)
        ensures
            match self@ {
                ValueV::List(items) => r matches Ok(l) && l@ == items,
                _ => r is Err,
            },
    {
        match self {
            Value::List(items) => Ok(items),
            other => Err(Error::new(ErrorKind::TypeError {
                expected: owned_str("list"),
                got: owned_str(other.typename()),
            })),
        }
    }

    /// The attribute map this set holds; a type error otherwise.
    pub fn as_attrs(&self) -> (r: Result<&AttrMap, Error>)
        ensures
            match self@ {
                ValueV::AttrSet(m) => r matches Ok(a) && a@ == m,
                _ => r is Err,
            },
    {
        match self {
            Value::AttrSet(m) => Ok(m),
            other => Err(Error::new(ErrorKind::TypeError {
                expected: owned_str("set"),
                got: owned_str(other.typename()),
            })),
        }
    }

    /// The display name of this value's type, as error messages use it.
    pub fn typename(&self) -> (r: &'static str)
        ensures
            r@ == typename_of(self@),
    {
        match self {
            Value::Int(_) => "int",
            Value::Bool(_) => "bool",
            Value::Null => "null",
            Value::Str { .. } => "string",
            Value::Path(_) => "path",
            Value::List(_) => "list",
            Value::AttrSet(_) => "set",
            Value::Lambda { .. } => "lambda",
            Value::Primop(_) => "primop",
            Value::Ref(_) => "ref",
        }
    }
}

/// An owned copy of a string slice.
fn owned_str(s: &str) -> (r: String)
    ensures
        r@ == s@,
{
    s.to_owned()
}

/// The display name of a value model's type.
pub open spec fn typename_of(v: ValueV) -> Seq<char> {
    match v {
        ValueV::Int(_) => "int"@,
        ValueV::Bool(_) => "bool"@,
        ValueV::Null => "null"@,
        ValueV::Str { .. } => "string"@,
        ValueV::Path(_) => "path"@,
        ValueV::List(_) => "list"@,
        ValueV::AttrSet(_) => "set"@,
        ValueV::Lambda { .. } => "lambda"@,
        ValueV::Primop { .. } => "primop"@,
        ValueV::Ref(_) => "ref"@,
    }
}

} // verus!
