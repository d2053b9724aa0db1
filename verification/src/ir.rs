//! The positional core IR that lowering produces and evaluation, scheduling,
//! provenance and printing consume. Every name is resolved: predicates are
//! [`PredId`]s, variables are per-rule [`Var`] slots, and named arguments and
//! wildcards are gone.
use vstd::prelude::*;

use crate::ast::{AggOp, ArithOp, BuiltinOp, CmpOp, FloatLit, Span, TypeName};
use crate::temporal::{Date, Duration, Timestamp};

verus! {

/// A predicate, by its index in [`Program::predicates`] (first-appearance order).
#[derive(Debug, Clone, Copy, PartialEq, Eq, Structural, Hash, PartialOrd, Ord)]
pub struct PredId(pub u32);

/// A variable slot of one rule or query.
#[derive(Debug, Clone, Copy, PartialEq, Eq, Structural, Hash, PartialOrd, Ord)]
pub struct Var(pub u32);

/// A rule, by its source-order index in [`Program::rules`]; never renumbered.
#[derive(Debug, Clone, Copy, PartialEq, Eq, Structural, Hash, PartialOrd, Ord)]
pub struct RuleId(pub u32);

/// A ground value.
#[derive(Debug, Clone, PartialEq, Eq, Hash, PartialOrd, Ord)]
pub enum Value {
    Absent,
    Symbol(String),
    String(String),
    Int(i64),
    Float(FloatLit),
    Bool(bool),
    Date(Date),
    Timestamp(Timestamp),
    Duration(Duration),
}

/// The mathematical content of a [`Value`].
pub enum ValueView {
    Absent,
    Symbol(Seq<char>),
    String(Seq<char>),
    Int(int),
    Float(Seq<char>),
    Bool(bool),
    Date(int),
    Timestamp(int),
    Duration(int),
}

impl View for Value {
    type V = ValueView;

    open spec fn view(&self) -> ValueView {
        match self {
            Value::Absent => ValueView::Absent,
            Value::Symbol(s) => ValueView::Symbol(s@),
            Value::String(s) => ValueView::String(s@),
            Value::Int(n) => ValueView::Int(*n as int),
            Value::Float(f) => ValueView::Float(f.text@),
            Value::Bool(b) => ValueView::Bool(*b),
            Value::Date(d) => ValueView::Date(d@),
            Value::Timestamp(t) => ValueView::Timestamp(t@),
            Value::Duration(d) => ValueView::Duration(d@),
        }
    }
}

/// Whether two values are the same value.
pub fn value_eq(a: &Value, b: &Value) -> (r: bool)
    ensures
        r == (a@ == b@),
{
    match (a, b) {
        (Value::Absent, Value::Absent) => true,
        (Value::Symbol(x), Value::Symbol(y)) => crate::text::str_equal(x.as_str(), y.as_str()),
        (Value::String(x), Value::String(y)) => crate::text::str_equal(x.as_str(), y.as_str()),
        (Value::Int(x), Value::Int(y)) => *x == *y,
        (Value::Float(x), Value::Float(y)) => crate::text::str_equal(x.text.as_str(), y.text.as_str()),
        (Value::Bool(x), Value::Bool(y)) => *x == *y,
        (Value::Date(x), Value::Date(y)) => x.days() == y.days(),
        (Value::Timestamp(x), Value::Timestamp(y)) => x.micros() == y.micros(),
        (Value::Duration(x), Value::Duration(y)) => x.micros() == y.micros(),
        _ => false,
    }
}

/// A copy of a value.
pub fn copy_value(v: &Value) -> (r: Value)
    ensures
        r@ == v@,
{
    match v {
        Value::Absent => Value::Absent,
        Value::Symbol(s) => Value::Symbol(crate::text::to_owned(s.as_str())),
        Value::String(s) => Value::String(crate::text::to_owned(s.as_str())),
        Value::Int(n) => Value::Int(*n),
        Value::Float(f) => Value::Float(FloatLit { text: crate::text::to_owned(f.text.as_str()) }),
        Value::Bool(b) => Value::Bool(*b),
        Value::Date(d) => Value::Date(*d),
        Value::Timestamp(t) => Value::Timestamp(*t),
        Value::Duration(d) => Value::Duration(*d),
    }
}

/// A row of values.
#[derive(Debug, Clone, PartialEq, Eq, Hash, PartialOrd, Ord)]
pub struct Tuple(pub Vec<Value>);

impl View for Tuple {
    type V = Seq<ValueView>;

    open spec fn view(&self) -> Seq<ValueView> {
        self.0@.map_values(|v: Value| v@)
    }
}

/// A ground fact: a predicate and a row.
#[derive(Debug, Clone, PartialEq, Eq, Hash, PartialOrd, Ord)]
pub struct Fact {
    pub pred: PredId,
    pub tuple: Tuple,
}

impl View for Fact {
    type V = (PredId, Seq<ValueView>);

    open spec fn view(&self) -> (PredId, Seq<ValueView>) {
        (self.pred, self.tuple@)
    }
}

/// Whether two rows hold the same values.
pub fn tuple_eq(a: &Tuple, b: &Tuple) -> (r: bool)
    ensures
        r == (a@ == b@),
{
    if a.0.len() != b.0.len() {
        assert(a@.len() != b@.len());
        return false;
    }
    let mut i: usize = 0;
    while i < a.0.len()
        invariant
            i <= a.0.len() == b.0.len(),
            forall|j: int| 0 <= j < i ==> a@[j] == b@[j],
        decreases a.0.len() - i,
    {
        if !value_eq(&a.0[i], &b.0[i]) {
            assert(a@[i as int] != b@[i as int]);
            return false;
        }
        i += 1;
    }
    assert(a@ =~= b@);
    true
}

/// Whether two facts are the same fact.
pub fn fact_eq(a: &Fact, b: &Fact) -> (r: bool)
    ensures
        r == (a@ == b@),
{
    a.pred == b.pred && tuple_eq(&a.tuple, &b.tuple)
}

/// A copy of a row.
pub fn copy_tuple(t: &Tuple) -> (r: Tuple)
    ensures
        r@ == t@,
{
    let mut out: Vec<Value> = Vec::new();
    let mut i: usize = 0;
    while i < t.0.len()
        invariant
            i <= t.0.len(),
            out@.len() == i,
            forall|j: int| 0 <= j < i ==> out@[j]@ == t.0@[j]@,
        decreases t.0.len() - i,
    {
        out.push(copy_value(&t.0[i]));
        i += 1;
    }
    let r = Tuple(out);
    assert(r@ =~= t@);
    r
}

/// A copy of a fact.
pub fn copy_fact(f: &Fact) -> (r: Fact)
    ensures
        r@ == f@,
{
    Fact { pred: f.pred, tuple: copy_tuple(&f.tuple) }
}

/// An argument position: a variable slot or a constant.
#[derive(Debug, Clone, PartialEq, Eq)]
pub enum Term {
    Var(Var),
    Const(Value),
}

/// A core expression.
#[derive(Debug, PartialEq, Eq)]
pub enum Expr {
    Term(Term),
    Binary { op: ArithOp, lhs: Box<Expr>, rhs: Box<Expr> },
    Cast { expr: Box<Expr>, ty: TypeName },
    /// A `std` module relation applied to its inputs.
    Builtin { op: BuiltinOp, args: Vec<Expr> },
}

/// A positional atom.
#[derive(Debug, Clone, PartialEq, Eq)]
pub struct Atom {
    pub pred: PredId,
    pub args: Vec<Term>,
}

/// One literal of a lowered body.
#[derive(Debug, PartialEq, Eq)]
pub enum BodyLiteralKind {
    Atom(Atom),
    NegAtom(Atom),
    Compare { op: CmpOp, lhs: Expr, rhs: Expr },
    Presence { expr: Expr, negated: bool },
    /// `result = op { expr | goal }`, with `params` evaluated in the enclosing scope.
    Aggregate { result: Var, op: AggOp, params: Vec<Expr>, expr: Expr, goal: Vec<BodyLiteral> },
}

#[derive(Debug, PartialEq, Eq)]
pub struct BodyLiteral {
    pub kind: BodyLiteralKind,
    pub span: Span,
}

/// A lowered rule; `var_names[v]` is the source name of slot `v`, `None` for a
/// wildcard or a slot lowering introduced.
#[derive(Debug, PartialEq, Eq)]
pub struct Rule {
    pub head: Atom,
    pub body: Vec<BodyLiteral>,
    pub var_names: Vec<Option<String>>,
    pub span: Span,
}

/// A lowered query; `projection` lists the answer slots in slot order.
#[derive(Debug, PartialEq, Eq)]
pub struct Query {
    pub body: Vec<BodyLiteral>,
    pub var_names: Vec<Option<String>>,
    pub projection: Vec<u32>,
    pub span: Span,
}

/// What the program knows of one predicate.
#[derive(Debug, Clone, PartialEq, Eq)]
pub struct PredicateInfo {
    pub name: String,
    pub arity: u32,
    /// Field names, where a declaration, a schema or a header gave them.
    pub fields: Option<Vec<String>>,
    /// Declared column types, parallel to `fields`.
    pub field_types: Option<Vec<Option<TypeName>>>,
}

/// A data import, by the predicate it fills.
#[derive(Debug, Clone, PartialEq, Eq)]
pub struct ImportSpec {
    pub pred: PredId,
    pub path: String,
    pub span: Span,
}

/// A lowered program.
#[derive(Debug, PartialEq, Eq)]
pub struct Program {
    pub predicates: Vec<PredicateInfo>,
    pub rules: Vec<Rule>,
    pub facts: Vec<Fact>,
    pub queries: Vec<Query>,
    pub imports: Vec<ImportSpec>,
    /// Rule ids by stratum, lowest first.
    pub strata: Vec<Vec<RuleId>>,
}

impl Program {
    /// The empty program.
    pub fn new() -> (r: Program)
        ensures
            r.predicates@.len() == 0,
            r.rules@.len() == 0,
            r.facts@.len() == 0,
            r.queries@.len() == 0,
            r.imports@.len() == 0,
            r.strata@.len() == 0,
    {
        Program {
            predicates: Vec::new(),
            rules: Vec::new(),
            facts: Vec::new(),
            queries: Vec::new(),
            imports: Vec::new(),
            strata: Vec::new(),
        }
    }
}

} // verus!
