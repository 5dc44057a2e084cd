//! Parsed expression nodes and the append-only arena that holds them. An
//! external parser produces nodes bottom-up, so every child reference points
//! at an earlier slot; the evaluator never mutates a node.

use vstd::prelude::*;

verus! {

/// Identifier text. Two identifiers are the same exactly when their text is.
pub type Ident = String;

/// Index of an expression node inside an [`ExprArena`].
pub type ExprId = usize;

/// A source region: a file id from the host's span database plus a byte range.
#[derive(Debug, Clone, Copy, PartialEq, Eq, Structural)]
pub struct Span {
    pub file: u32,
    pub lo: u32,
    pub hi: u32,
}

/// Unary operator tags.
#[derive(Debug, Clone, Copy, PartialEq, Eq, Structural)]
pub enum UnaryOp {
    /// Boolean negation `!`.
    Not,
    /// Numeric negation, evaluated as `0 - x`.
    Negate,
}

/// Binary operator tags.
#[derive(Debug, Clone, Copy, PartialEq, Eq, Structural)]
pub enum BinaryOp {
    /// Short-circuit disjunction.
    Or,
    /// Short-circuit conjunction.
    And,
    /// Implication: `a -> b` is `!a || b`, with `b` evaluated only if needed.
    Impl,
    Add,
    Sub,
    Mul,
    Div,
    Eq,
    Neq,
    /// Strictly less than.
    Le,
    /// Less than or equal, evaluated as the negation of `>`.
    Leq,
    /// Strictly greater than.
    Ge,
    /// Greater than or equal, evaluated as the negation of `<`.
    Geq,
    /// Right-biased attribute-set merge `//`.
    Update,
    /// List concatenation `++`.
    Concat,
}

/// One piece of a string template.
#[derive(Debug)]
pub enum StrPart {
    /// A literal run of characters.
    Lit(String),
    /// An interpolated subexpression, coerced to a string when evaluated.
    Interp(ExprId),
}

/// One component of an attribute path.
#[derive(Debug)]
pub enum AttrName {
    /// A static identifier.
    Plain(Ident),
    /// A subexpression evaluated to a string to name the attribute.
    Dynamic(ExprId),
}

/// One binding inside an attribute set or a `let`.
#[derive(Debug)]
pub enum Binding {
    /// `path = rhs;` — a possibly nested attribute path bound to a lazy
    /// right-hand side.
    Plain { path: Vec<AttrName>, rhs: ExprId },
    /// `inherit (from) names;` — each name bound to a deferred lookup,
    /// in the enclosing scope when `from` is absent.
    Inherit { from: Option<ExprId>, names: Vec<Ident> },
}

/// A declared formal argument: its name and optional default expression.
#[derive(Debug)]
pub struct Formal {
    pub name: Ident,
    pub default: Option<ExprId>,
}

/// A lambda's argument pattern.
#[derive(Debug)]
pub enum LambdaParam {
    /// A single name binding the whole argument.
    Plain(Ident),
    /// An attribute pattern `{ a, b ? d, ... } @ whole`.
    Formals { formals: Vec<Formal>, ellipsis: bool, at: Option<Ident> },
}

/// An expression node. Child references are [`ExprId`]s into the same arena.
#[derive(Debug)]
pub enum Expr {
    Int(i64),
    Bool(bool),
    Null,
    /// A string template of literal and interpolated parts.
    Str(Vec<StrPart>),
    /// An absolute filesystem path literal, already resolved by the producer.
    Path(String),
    Var(Ident),
    Lambda { param: LambdaParam, body: ExprId },
    Apply { func: ExprId, arg: ExprId },
    Unary { op: UnaryOp, operand: ExprId },
    Binary { op: BinaryOp, lhs: ExprId, rhs: ExprId },
    Let { binds: Vec<Binding>, body: ExprId },
    With { env: ExprId, body: ExprId },
    If { cond: ExprId, when_true: ExprId, when_false: ExprId },
    Assert { cond: ExprId, body: ExprId },
    AttrSet { recursive: bool, binds: Vec<Binding> },
    List(Vec<ExprId>),
    /// `base.path` with an optional `or fallback`.
    Select { base: ExprId, path: Vec<AttrName>, fallback: Option<ExprId> },
    /// `base ? path`.
    HasAttr { base: ExprId, path: Vec<AttrName> },
}

/// The model of an attribute-path component.
#[verifier::ext_equal]
pub enum AttrNameV {
    Plain(Seq<char>),
    Dynamic(ExprId),
}

impl View for AttrName {
    type V = AttrNameV;

    open spec fn view(&self) -> AttrNameV {
        match self {
            AttrName::Plain(id) => AttrNameV::Plain(id@),
            AttrName::Dynamic(e) => AttrNameV::Dynamic(*e),
        }
    }
}

/// The model of a template piece.
#[verifier::ext_equal]
pub enum StrPartV {
    Lit(Seq<char>),
    Interp(ExprId),
}

impl View for StrPart {
    type V = StrPartV;

    open spec fn view(&self) -> StrPartV {
        match self {
            StrPart::Lit(s) => StrPartV::Lit(s@),
            StrPart::Interp(e) => StrPartV::Interp(*e),
        }
    }
}

/// The model of a formal argument.
#[verifier::ext_equal]
pub struct FormalV {
    pub name: Seq<char>,
    pub default: Option<ExprId>,
}

impl View for Formal {
    type V = FormalV;

    open spec fn view(&self) -> FormalV {
        FormalV { name: self.name@, default: self.default }
    }
}

/// The models of an attribute path, elementwise.
pub open spec fn attrpath_v(path: Seq<AttrName>) -> Seq<AttrNameV> {
    Seq::new(path.len(), |i: int| path[i]@)
}

/// The models of a template, elementwise.
pub open spec fn strparts_v(parts: Seq<StrPart>) -> Seq<StrPartV> {
    Seq::new(parts.len(), |i: int| parts[i]@)
}

/// The models of a formal list, elementwise.
pub open spec fn formals_v(formals: Seq<Formal>) -> Seq<FormalV> {
    Seq::new(formals.len(), |i: int| formals[i]@)
}

/// The texts of a name list, elementwise.
pub open spec fn idents_v(names: Seq<Ident>) -> Seq<Seq<char>> {
    Seq::new(names.len(), |i: int| names[i]@)
}

/// The model of a lambda pattern.
#[verifier::ext_equal]
pub enum ParamV {
    Plain(Seq<char>),
    Formals { formals: Seq<FormalV>, ellipsis: bool, at: Option<Seq<char>> },
}

impl View for LambdaParam {
    type V = ParamV;

    open spec fn view(&self) -> ParamV {
        match self {
            LambdaParam::Plain(name) => ParamV::Plain(name@),
            LambdaParam::Formals { formals, ellipsis, at } => ParamV::Formals {
                formals: formals_v(formals@),
                ellipsis: *ellipsis,
                at: match at {
                    Some(n) => Some(n@),
                    None => None,
                },
            },
        }
    }
}

/// The model of a binding.
#[verifier::ext_equal]
pub enum BindingV {
    Plain { path: Seq<AttrNameV>, rhs: ExprId },
    Inherit { from: Option<ExprId>, names: Seq<Seq<char>> },
}

impl View for Binding {
    type V = BindingV;

    open spec fn view(&self) -> BindingV {
        match self {
            Binding::Plain { path, rhs } => BindingV::Plain { path: attrpath_v(path@), rhs: *rhs },
            Binding::Inherit { from, names } => BindingV::Inherit {
                from: *from,
                names: idents_v(names@),
            },
        }
    }
}

/// The models of a binding list, elementwise.
pub open spec fn bindings_v(binds: Seq<Binding>) -> Seq<BindingV> {
    Seq::new(binds.len(), |i: int| binds[i]@)
}

/// A copy of a formal list with the same models.
pub fn clone_formals(v: &Vec<Formal>) -> (r: Vec<Formal>)
    ensures
        formals_v(r@) == formals_v(v@),
{
    let n = v.len();
    let mut out: Vec<Formal> = Vec::new();
    let mut i: usize = 0;
    while i < n
        invariant
            i <= n,
            n == v@.len(),
            out@.len() == i,
            forall|j: int| 0 <= j < i ==> #[trigger] out@[j]@ == v@[j]@,
        decreases n - i,
    {
        let f = &v[i];
        out.push(Formal { name: f.name.clone(), default: f.default });
        i = i + 1;
    }
    proof {
        assert(formals_v(out@) =~= formals_v(v@));
    }
    out
}

impl LambdaParam {
    /// A copy with the same model.
    pub fn duplicate(&self) -> (r: LambdaParam)
        ensures
            r@ == self@,
    {
        match self {
            LambdaParam::Plain(name) => LambdaParam::Plain(name.clone()),
            LambdaParam::Formals { formals, ellipsis, at } => LambdaParam::Formals {
                formals: clone_formals(formals),
                ellipsis: *ellipsis,
                at: match at {
                    Some(n) => Some(n.clone()),
                    None => None,
                },
            },
        }
    }
}

/// A copy of a template with the same models.
pub fn clone_strparts(v: &Vec<StrPart>) -> (r: Vec<StrPart>)
    ensures
        strparts_v(r@) == strparts_v(v@),
{
    let n = v.len();
    let mut out: Vec<StrPart> = Vec::new();
    let mut i: usize = 0;
    while i < n
        invariant
            i <= n,
            n == v@.len(),
            out@.len() == i,
            forall|j: int| 0 <= j < i ==> (#[trigger] out@[j])@ == v@[j]@,
        decreases n - i,
    {
        let c = match &v[i] {
            StrPart::Lit(s) => StrPart::Lit(s.clone()),
            StrPart::Interp(e) => StrPart::Interp(*e),
        };
        out.push(c);
        i = i + 1;
    }
    proof {
        assert(strparts_v(out@) =~= strparts_v(v@));
    }
    out
}

/// A copy of a name list with the same models.
pub fn clone_idents(v: &Vec<Ident>) -> (r: Vec<Ident>)
    ensures
        idents_v(r@) == idents_v(v@),
{
    let n = v.len();
    let mut out: Vec<Ident> = Vec::new();
    let mut i: usize = 0;
    while i < n
        invariant
            i <= n,
            n == v@.len(),
            out@.len() == i,
            forall|j: int| 0 <= j < i ==> (#[trigger] out@[j])@ == v@[j]@,
        decreases n - i,
    {
        out.push(v[i].clone());
        i = i + 1;
    }
    proof {
        assert(idents_v(out@) =~= idents_v(v@));
    }
    out
}

/// A copy of an attribute path with the same models.
pub fn clone_attrpath(v: &Vec<AttrName>) -> (r: Vec<AttrName>)
    ensures
        attrpath_v(r@) == attrpath_v(v@),
{
    let n = v.len();
    let mut out: Vec<AttrName> = Vec::new();
    let mut i: usize = 0;
    while i < n
        invariant
            i <= n,
            n == v@.len(),
            out@.len() == i,
            forall|j: int| 0 <= j < i ==> (#[trigger] out@[j])@ == v@[j]@,
        decreases n - i,
    {
        let c = match &v[i] {
            AttrName::Plain(id) => AttrName::Plain(id.clone()),
            AttrName::Dynamic(e) => AttrName::Dynamic(*e),
        };
        out.push(c);
        i = i + 1;
    }
    proof {
        assert(attrpath_v(out@) =~= attrpath_v(v@));
    }
    out
}

/// A copy of a binding list with the same models.
pub fn clone_bindings(v: &Vec<Binding>) -> (r: Vec<Binding>)
    ensures
        bindings_v(r@) == bindings_v(v@),
{
    let n = v.len();
    let mut out: Vec<Binding> = Vec::new();
    let mut i: usize = 0;
    while i < n
        invariant
            i <= n,
            n == v@.len(),
            out@.len() == i,
            forall|j: int| 0 <= j < i ==> (#[trigger] out@[j])@ == v@[j]@,
        decreases n - i,
    {
        let c = match &v[i] {
            Binding::Plain { path, rhs } => {
                let b = Binding::Plain { path: clone_attrpath(path), rhs: *rhs };
                proof {
                    assert(b@ =~= v@[i as int]@);
                }
                b
            },
            Binding::Inherit { from, names } => {
                let b = Binding::Inherit { from: *from, names: clone_idents(names) };
                proof {
                    assert(b@ =~= v@[i as int]@);
                }
                b
            },
        };
        out.push(c);
        i = i + 1;
    }
    proof {
        assert(bindings_v(out@) =~= bindings_v(v@));
    }
    out
}

/// Whether an attribute-path component references only nodes below `n`.
pub open spec fn attrname_wf(a: AttrNameV, n: nat) -> bool {
    match a {
        AttrNameV::Plain(_) => true,
        AttrNameV::Dynamic(e) => e < n,
    }
}

/// Whether every component of an attribute path references only nodes
/// below `n`.
pub open spec fn attrpath_wf(path: Seq<AttrNameV>, n: nat) -> bool {
    forall|i: int| 0 <= i < path.len() ==> attrname_wf(#[trigger] path[i], n)
}

/// Whether a binding references only nodes below `n`; a plain binding's
/// path is never empty.
pub open spec fn binding_wf(b: BindingV, n: nat) -> bool {
    match b {
        BindingV::Plain { path, rhs } => {
            &&& rhs < n
            &&& path.len() >= 1
            &&& attrpath_wf(path, n)
        },
        BindingV::Inherit { from, names } => match from {
            Some(e) => e < n,
            None => true,
        },
    }
}

/// Whether every binding of a list references only nodes below `n`.
pub open spec fn bindings_wf(binds: Seq<BindingV>, n: nat) -> bool {
    forall|i: int| 0 <= i < binds.len() ==> binding_wf(#[trigger] binds[i], n)
}

/// Whether every template piece references only nodes below `n`.
pub open spec fn strparts_wf(parts: Seq<StrPartV>, n: nat) -> bool {
    forall|i: int|
        0 <= i < parts.len() ==> match #[trigger] parts[i] {
            StrPartV::Lit(_) => true,
            StrPartV::Interp(sub) => sub < n,
        }
}

/// Whether every id of a list lies below `n`.
pub open spec fn exprids_wf(ids: Seq<ExprId>, n: nat) -> bool {
    forall|i: int| 0 <= i < ids.len() ==> #[trigger] ids[i] < n
}

/// Whether every formal's default references only nodes below `n`.
pub open spec fn formals_wf(formals: Seq<FormalV>, n: nat) -> bool {
    forall|i: int|
        0 <= i < formals.len() ==> match (#[trigger] formals[i]).default {
            Some(e) => e < n,
            None => true,
        }
}

/// Whether a lambda pattern references only nodes below `n`.
pub open spec fn param_wf(p: ParamV, n: nat) -> bool {
    match p {
        ParamV::Plain(_) => true,
        ParamV::Formals { formals, ellipsis, at } => formals_wf(formals, n),
    }
}

/// Whether an expression node references only nodes below `n`.
pub open spec fn expr_wf(e: Expr, n: nat) -> bool {
    match e {
        Expr::Int(_) => true,
        Expr::Bool(_) => true,
        Expr::Null => true,
        Expr::Str(parts) => strparts_wf(strparts_v(parts@), n),
        Expr::Path(_) => true,
        Expr::Var(_) => true,
        Expr::Lambda { param, body } => body < n && param_wf(param@, n),
        Expr::Apply { func, arg } => func < n && arg < n,
        Expr::Unary { op, operand } => operand < n,
        Expr::Binary { op, lhs, rhs } => lhs < n && rhs < n,
        Expr::Let { binds, body } => body < n && bindings_wf(bindings_v(binds@), n),
        Expr::With { env, body } => env < n && body < n,
        Expr::If { cond, when_true, when_false } => cond < n && when_true < n && when_false < n,
        Expr::Assert { cond, body } => cond < n && body < n,
        Expr::AttrSet { recursive, binds } => bindings_wf(bindings_v(binds@), n),
        Expr::List(items) => exprids_wf(items@, n),
        Expr::Select { base, path, fallback } => {
            &&& base < n
            &&& attrpath_wf(attrpath_v(path@), n)
            &&& match fallback {
                Some(e) => e < n,
                None => true,
            }
        },
        Expr::HasAttr { base, path } => base < n && attrpath_wf(attrpath_v(path@), n),
    }
}

/// Path well-formedness only loosens as the arena grows.
pub proof fn lemma_attrpath_wf_mono(path: Seq<AttrNameV>, n1: nat, n2: nat)
    requires
        attrpath_wf(path, n1),
        n1 <= n2,
    ensures
        attrpath_wf(path, n2),
{
    assert forall|i: int| 0 <= i < path.len() implies attrname_wf(#[trigger] path[i], n2) by {
        assert(attrname_wf(path[i], n1));
    }
}

/// Binding well-formedness only loosens as the arena grows.
pub proof fn lemma_binding_wf_mono(b: BindingV, n1: nat, n2: nat)
    requires
        binding_wf(b, n1),
        n1 <= n2,
    ensures
        binding_wf(b, n2),
{
    match b {
        BindingV::Plain { path, rhs } => {
            assert(attrpath_wf(path, n1));
            lemma_attrpath_wf_mono(path, n1, n2);
        },
        BindingV::Inherit { .. } => {},
    }
}

/// Binding-list well-formedness only loosens as the arena grows.
pub proof fn lemma_bindings_wf_mono(binds: Seq<BindingV>, n1: nat, n2: nat)
    requires
        bindings_wf(binds, n1),
        n1 <= n2,
    ensures
        bindings_wf(binds, n2),
{
    assert forall|i: int| 0 <= i < binds.len() implies binding_wf(#[trigger] binds[i], n2) by {
        assert(binding_wf(binds[i], n1));
        lemma_binding_wf_mono(binds[i], n1, n2);
    }
}

/// Template well-formedness only loosens as the arena grows.
pub proof fn lemma_strparts_wf_mono(parts: Seq<StrPartV>, n1: nat, n2: nat)
    requires
        strparts_wf(parts, n1),
        n1 <= n2,
    ensures
        strparts_wf(parts, n2),
{
    assert forall|i: int|
        0 <= i < parts.len() implies match #[trigger] parts[i] {
        StrPartV::Lit(_) => true,
        StrPartV::Interp(sub) => sub < n2,
    } by {
        assert(strparts_wf(parts, n1));
    }
}

/// Id-list well-formedness only loosens as the arena grows.
pub proof fn lemma_exprids_wf_mono(ids: Seq<ExprId>, n1: nat, n2: nat)
    requires
        exprids_wf(ids, n1),
        n1 <= n2,
    ensures
        exprids_wf(ids, n2),
{
    assert forall|i: int| 0 <= i < ids.len() implies #[trigger] ids[i] < n2 by {
        assert(exprids_wf(ids, n1));
    }
}

/// Formal well-formedness only loosens as the arena grows.
pub proof fn lemma_formals_wf_mono(formals: Seq<FormalV>, n1: nat, n2: nat)
    requires
        formals_wf(formals, n1),
        n1 <= n2,
    ensures
        formals_wf(formals, n2),
{
    assert forall|i: int|
        0 <= i < formals.len() implies match (#[trigger] formals[i]).default {
        Some(e) => e < n2,
        None => true,
    } by {
        assert(formals_wf(formals, n1));
    }
}

/// Pattern well-formedness only loosens as the arena grows.
pub proof fn lemma_param_wf_mono(p: ParamV, n1: nat, n2: nat)
    requires
        param_wf(p, n1),
        n1 <= n2,
    ensures
        param_wf(p, n2),
{
    match p {
        ParamV::Plain(_) => {},
        ParamV::Formals { formals, ellipsis, at } => {
            assert(formals_wf(formals, n1));
            lemma_formals_wf_mono(formals, n1, n2);
        },
    }
}

/// The append-only store of expression nodes with their source spans.
/// Nodes are produced bottom-up: slot `i` references only slots below `i`.
#[derive(Debug)]
pub struct ExprArena {
    nodes: Vec<Expr>,
    spans: Vec<Span>,
}

impl View for ExprArena {
    type V = Seq<Expr>;

    closed spec fn view(&self) -> Seq<Expr> {
        self.nodes@
    }
}

impl ExprArena {
    /// Every node references only earlier slots.
    pub open spec fn wf(&self) -> bool {
        &&& forall|i: int| 0 <= i < self@.len() ==> expr_wf(#[trigger] self@[i], i as nat)
        &&& self.spans_seq().len() == self@.len()
    }

    /// The span of each node, by slot.
    pub closed spec fn spans_seq(&self) -> Seq<Span> {
        self.spans@
    }

    /// An empty arena.
    pub fn new() -> (r: ExprArena)
        ensures
            r@ == Seq::<Expr>::empty(),
            r.wf(),
    {
        ExprArena { nodes: Vec::new(), spans: Vec::new() }
    }

    /// Number of nodes.
    pub fn len(&self) -> (r: usize)
        ensures
            r == self@.len(),
    {
        self.nodes.len()
    }

    /// Appends a node whose children already stand in the arena, and
    /// returns its id.
    pub fn add(&mut self, e: Expr, span: Span) -> (r: ExprId)
        requires
            old(self).wf(),
            expr_wf(e, old(self)@.len()),
        ensures
            final(self).wf(),
            final(self)@ == old(self)@.push(e),
            r == old(self)@.len(),
            final(self).spans_seq() == old(self).spans_seq().push(span),
    {
        let id = self.nodes.len();
        self.nodes.push(e);
        self.spans.push(span);
        id
    }

    /// The node at `id`.
    pub fn node(&self, id: ExprId) -> (r: &Expr)
        requires
            id < self@.len(),
        ensures
            *r == self@[id as int],
    {
        &self.nodes[id]
    }

    /// The span recorded for the node at `id`.
    pub fn span(&self, id: ExprId) -> (r: Span)
        requires
            self.wf(),
            id < self@.len(),
        ensures
            r == self.spans_seq()[id as int],
    {
        self.spans[id]
    }
}

} // verus!
