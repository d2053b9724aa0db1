//! The surface syntax tree: what the parser produces and the printer renders,
//! before lowering resolves names, named arguments and wildcards.
use vstd::prelude::*;

use crate::temporal::Temporal;

verus! {

/// A byte range in the source text.
#[derive(Debug, Clone, Copy, PartialEq, Eq, Hash)]
pub struct Span {
    pub start: usize,
    pub end: usize,
}

impl Span {
    /// The placeholder span of hand-built trees.
    pub fn dummy() -> (r: Span)
        ensures
            r.start == 0 && r.end == 0,
    {
        Span { start: 0, end: 0 }
    }
}

/// A name with the place it was written.
#[derive(Debug, Clone, PartialEq, Eq)]
pub struct Ident {
    pub name: String,
    pub span: Span,
}

/// The column types a schema may declare.
#[derive(Debug, Clone, Copy, PartialEq, Eq, Structural, Hash, PartialOrd, Ord)]
pub enum TypeName {
    Symbol,
    String,
    Int,
    Float,
    Bool,
    Date,
    Timestamp,
    Duration,
}

/// The spelling of a type name.
pub open spec fn spec_type_keyword(ty: TypeName) -> Seq<char> {
    match ty {
        TypeName::Symbol => "symbol"@,
        TypeName::String => "string"@,
        TypeName::Int => "int"@,
        TypeName::Float => "float"@,
        TypeName::Bool => "bool"@,
        TypeName::Date => "date"@,
        TypeName::Timestamp => "timestamp"@,
        TypeName::Duration => "duration"@,
    }
}

impl TypeName {
    /// The keyword a type is written as; printing and parsing share it.
    pub fn keyword(self) -> (r: &'static str)
        ensures
            r@ == spec_type_keyword(self),
    {
        match self {
            TypeName::Symbol => "symbol",
            TypeName::String => "string",
            TypeName::Int => "int",
            TypeName::Float => "float",
            TypeName::Bool => "bool",
            TypeName::Date => "date",
            TypeName::Timestamp => "timestamp",
            TypeName::Duration => "duration",
        }
    }
}

/// Comparison operators.
#[derive(Debug, Clone, Copy, PartialEq, Eq, Structural, Hash, PartialOrd, Ord)]
pub enum CmpOp {
    Eq,
    Ne,
    Lt,
    Le,
    Gt,
    Ge,
}

/// The source symbol of a comparison operator.
pub open spec fn spec_cmp_symbol(op: CmpOp) -> Seq<char> {
    match op {
        CmpOp::Eq => "="@,
        CmpOp::Ne => "!="@,
        CmpOp::Lt => "<"@,
        CmpOp::Le => "<="@,
        CmpOp::Gt => ">"@,
        CmpOp::Ge => ">="@,
    }
}

/// The source symbol of a comparison operator, for messages and printing.
pub fn cmp_symbol(op: CmpOp) -> (r: &'static str)
    ensures
        r@ == spec_cmp_symbol(op),
{
    match op {
        CmpOp::Eq => "=",
        CmpOp::Ne => "!=",
        CmpOp::Lt => "<",
        CmpOp::Le => "<=",
        CmpOp::Gt => ">",
        CmpOp::Ge => ">=",
    }
}

/// Arithmetic operators, all left-associative.
#[derive(Debug, Clone, Copy, PartialEq, Eq, Structural, Hash, PartialOrd, Ord)]
pub enum ArithOp {
    Add,
    Sub,
    Mul,
    Div,
}

/// The binding strength of an arithmetic operator: `*` `/` bind tighter.
pub open spec fn spec_precedence(op: ArithOp) -> u8 {
    match op {
        ArithOp::Add | ArithOp::Sub => 1,
        ArithOp::Mul | ArithOp::Div => 2,
    }
}

/// The source symbol of an arithmetic operator.
pub open spec fn spec_arith_symbol(op: ArithOp) -> Seq<char> {
    match op {
        ArithOp::Add => "+"@,
        ArithOp::Sub => "-"@,
        ArithOp::Mul => "*"@,
        ArithOp::Div => "/"@,
    }
}

impl ArithOp {
    /// The binding strength: `*` `/` bind tighter than `+` `-`.
    pub fn precedence(self) -> (r: u8)
        ensures
            r == spec_precedence(self),
    {
        match self {
            ArithOp::Add | ArithOp::Sub => 1,
            ArithOp::Mul | ArithOp::Div => 2,
        }
    }
}

/// The source symbol of an arithmetic operator.
pub fn arith_symbol(op: ArithOp) -> (r: &'static str)
    ensures
        r@ == spec_arith_symbol(op),
{
    match op {
        ArithOp::Add => "+",
        ArithOp::Sub => "-",
        ArithOp::Mul => "*",
        ArithOp::Div => "/",
    }
}

/// The set-builder aggregate operators.
#[derive(Debug, Clone, Copy, PartialEq, Eq, Structural, Hash, PartialOrd, Ord)]
pub enum AggOp {
    Count,
    Sum,
    Min,
    Max,
    Avg,
}

/// The keyword of an aggregate operator.
pub open spec fn spec_agg_keyword(op: AggOp) -> Seq<char> {
    match op {
        AggOp::Count => "count"@,
        AggOp::Sum => "sum"@,
        AggOp::Min => "min"@,
        AggOp::Max => "max"@,
        AggOp::Avg => "avg"@,
    }
}

impl AggOp {
    /// The keyword an aggregate operator is written as.
    pub fn keyword(self) -> (r: &'static str)
        ensures
            r@ == spec_agg_keyword(self),
    {
        match self {
            AggOp::Count => "count",
            AggOp::Sum => "sum",
            AggOp::Min => "min",
            AggOp::Max => "max",
            AggOp::Avg => "avg",
        }
    }

    /// The operator a keyword names, if it names one.
    pub fn from_name(name: &str) -> (r: Option<AggOp>)
        ensures
            r matches Some(op) ==> spec_agg_keyword(op) == name@,
            r is None ==> forall|op: AggOp| spec_agg_keyword(op) != name@,
    {
        let candidates = [AggOp::Count, AggOp::Sum, AggOp::Min, AggOp::Max, AggOp::Avg];
        let mut i: usize = 0;
        while i < 5
            invariant
                i <= 5,
                candidates@ == seq![AggOp::Count, AggOp::Sum, AggOp::Min, AggOp::Max, AggOp::Avg],
                forall|j: int| 0 <= j < i ==> spec_agg_keyword(#[trigger] candidates@[j]) != name@,
            decreases 5 - i,
        {
            let op = candidates[i];
            if crate::text::str_equal(op.keyword(), name) {
                return Some(op);
            }
            i += 1;
        }
        proof {
            assert forall|op: AggOp| spec_agg_keyword(op) != name@ by {
                match op {
                    AggOp::Count => assert(candidates@[0] == op),
                    AggOp::Sum => assert(candidates@[1] == op),
                    AggOp::Min => assert(candidates@[2] == op),
                    AggOp::Max => assert(candidates@[3] == op),
                    AggOp::Avg => assert(candidates@[4] == op),
                }
            }
        }
        None
    }
}

/// The `std` module relations, lowered to functions of their inputs.
#[derive(Debug, Clone, Copy, PartialEq, Eq, Structural, Hash, PartialOrd, Ord)]
pub enum BuiltinOp {
    Year,
    Month,
    Day,
    Hour,
    Minute,
    Second,
    Truncate,
}

/// A float literal, held as the decimal text it was written with.
#[derive(Debug, Clone, PartialEq, Eq, Hash, PartialOrd, Ord)]
pub struct FloatLit {
    pub text: String,
}

/// A ground constant.
#[derive(Debug, Clone, PartialEq)]
pub enum Constant {
    Symbol(String),
    String(String),
    Int(i64),
    Float(FloatLit),
    Bool(bool),
    Absent,
    Temporal(Temporal),
}

#[derive(Debug, Clone, PartialEq)]
pub enum TermKind {
    Constant(Constant),
    Variable(String),
    Wildcard,
}

#[derive(Debug, Clone, PartialEq)]
pub struct Term {
    pub kind: TermKind,
    pub span: Span,
}

#[derive(Debug, PartialEq)]
pub enum ExprKind {
    Term(Term),
    Binary { op: ArithOp, lhs: Box<Expr>, rhs: Box<Expr> },
    Cast { expr: Box<Expr>, ty: TypeName },
    Aggregate(Aggregate),
}

#[derive(Debug, PartialEq)]
pub struct Expr {
    pub kind: ExprKind,
    pub span: Span,
}

/// A set-builder aggregate `op { expr | goal }`.
#[derive(Debug, PartialEq)]
pub struct Aggregate {
    pub op: AggOp,
    pub expr: Box<Expr>,
    pub goal: Vec<Literal>,
    pub params: Vec<Expr>,
}

/// A `field: value` argument.
#[derive(Debug, PartialEq)]
pub struct NamedArg {
    pub field: Ident,
    pub value: Expr,
    pub span: Span,
}

/// An atom's arguments: all positional or all named.
#[derive(Debug, PartialEq)]
pub enum Args {
    Positional(Vec<Expr>),
    Named(Vec<NamedArg>),
}

#[derive(Debug, PartialEq)]
pub struct Atom {
    pub predicate: Ident,
    pub args: Args,
    pub span: Span,
}

#[derive(Debug, PartialEq)]
pub struct Comparison {
    pub op: CmpOp,
    pub lhs: Expr,
    pub rhs: Expr,
}

#[derive(Debug, PartialEq)]
pub enum LiteralKind {
    Atom { negated: bool, atom: Atom },
    Comparison(Comparison),
    Presence { expr: Expr, negated: bool },
}

#[derive(Debug, PartialEq)]
pub struct Literal {
    pub kind: LiteralKind,
    pub span: Span,
}

/// A fact (empty body) or a rule.
#[derive(Debug, PartialEq)]
pub struct Clause {
    pub head: Atom,
    pub body: Vec<Literal>,
    pub span: Span,
}

#[derive(Debug, PartialEq)]
pub struct Query {
    pub name: Option<Ident>,
    pub body: Vec<Literal>,
    pub span: Span,
}

/// One field of a schema, optionally typed.
#[derive(Debug, Clone, PartialEq)]
pub struct FieldDecl {
    pub name: Ident,
    pub ty: Option<TypeName>,
    pub span: Span,
}

#[derive(Debug, Clone, PartialEq)]
pub struct Declaration {
    pub relation: Ident,
    pub fields: Vec<FieldDecl>,
}

/// What an import brings in.
#[derive(Debug, Clone, PartialEq)]
pub enum ImportKind {
    /// `import "lib.dl".` — spliced away by module resolution.
    Module,
    /// `import "std/<module>".` after resolution.
    Std { module: String },
    /// `import "<path>" [table "<name>"] as rel[(schema)].`
    Data { table: Option<(String, Span)>, relation: Ident, schema: Option<Vec<FieldDecl>> },
}

#[derive(Debug, Clone, PartialEq)]
pub struct Import {
    pub path: String,
    pub path_span: Span,
    pub kind: ImportKind,
}

#[derive(Debug, PartialEq)]
pub enum StatementKind {
    Import(Import),
    Declare(Declaration),
    Clause(Clause),
    Query(Query),
}

#[derive(Debug, PartialEq)]
pub struct Statement {
    pub kind: StatementKind,
    pub span: Span,
}

#[derive(Debug, PartialEq)]
pub struct Program {
    pub statements: Vec<Statement>,
}

} // verus!
