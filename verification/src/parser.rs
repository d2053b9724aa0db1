//! The recursive-descent parser: tokens to a surface [`Program`].
//!
//! - A malformed statement is reported and the parser skips past the next `.`,
//!   so one run reports every error.
//! - `*` and `/` bind tighter than `+` and `-`, all left-associative; a cast
//!   `e as type` binds tightest. Comparisons do not chain.
//! - A prefix `-` on a numeric literal folds into a negative constant; on
//!   anything else it is an error (there is no unary minus).
//! - A rule body of `;`-separated disjuncts becomes one clause per disjunct,
//!   sharing the head.
//! - The common near-misses (uppercase relation, chained comparison, `not`
//!   before a comparison, zero-arity atom, mixed argument styles, trailing
//!   comma, grouping parentheses) are refused with advice.
use vstd::prelude::*;

use crate::ast::{
    AggOp, Aggregate, Args, ArithOp, Atom, Clause, CmpOp, Comparison, Constant, Declaration,
    Expr, ExprKind, FieldDecl, FloatLit, Ident, Import, ImportKind, Literal, LiteralKind,
    NamedArg, Program, Query, Span, Statement, StatementKind, Term, TermKind, TypeName,
};
use crate::error::{Error, ErrorKind};
use crate::ir::ValueView;
use crate::lexer::{lex, lex_from, token_views, Token, TokenKind, TokenView};
use crate::temporal::TemporalView;
use crate::text::{push_str, signed_decimal, to_owned};

verus! {

// --- Ground facts, as tokens ---

/// The value a constant denotes.
pub open spec fn spec_constant_value(c: Constant) -> ValueView {
    match c {
        Constant::Symbol(s) => ValueView::Symbol(s@),
        Constant::String(s) => ValueView::String(s@),
        Constant::Int(n) => ValueView::Int(n as int),
        Constant::Float(f) => ValueView::Float(f.text@),
        Constant::Bool(b) => ValueView::Bool(b),
        Constant::Absent => ValueView::Absent,
        Constant::Temporal(t) => match t@ {
            TemporalView::Date(d) => ValueView::Date(d),
            TemporalView::Timestamp(m) => ValueView::Timestamp(m),
            TemporalView::Duration(u) => ValueView::Duration(u),
        },
    }
}

/// The value a term denotes when it is a constant.
pub open spec fn spec_term_value(t: Term) -> Option<ValueView> {
    match t.kind {
        TermKind::Constant(c) => Some(spec_constant_value(c)),
        _ => None,
    }
}

/// The value an expression denotes when it is a constant term.
pub open spec fn spec_expr_value(e: Expr) -> Option<ValueView> {
    match e.kind {
        ExprKind::Term(t) => match t.kind {
            TermKind::Constant(c) => Some(spec_constant_value(c)),
            _ => None,
        },
        _ => None,
    }
}

/// An argument as values: a constant, a named variable, or the wildcard.
pub enum ArgView {
    Value(ValueView),
    Var(Seq<char>),
    Wildcard,
}

/// The argument an expression denotes when it is a term.
pub open spec fn spec_expr_arg(e: Expr) -> Option<ArgView> {
    match e.kind {
        ExprKind::Term(t) => match t.kind {
            TermKind::Constant(c) => Some(ArgView::Value(spec_constant_value(c))),
            TermKind::Variable(v) => Some(ArgView::Var(v@)),
            TermKind::Wildcard => Some(ArgView::Wildcard),
        },
        _ => None,
    }
}

/// The argument the tokens at `p` spell, and where it ends: a variable (`_`
/// the wildcard) or a constant.
pub open spec fn spec_arg_at(ts: Seq<TokenView>, p: int) -> Option<(ArgView, int)> {
    if 0 <= p < ts.len() && ts[p] is Variable {
        let name = ts[p]->Variable_0;
        Some((if name == "_"@ { ArgView::Wildcard } else { ArgView::Var(name) }, p + 1))
    } else {
        match spec_constant_at(ts, p) {
            Some((v, e)) => Some((ArgView::Value(v), e)),
            None => None,
        }
    }
}

/// An argument at `p` that a `,` or a `)` follows.
pub open spec fn spec_closed_arg(ts: Seq<TokenView>, p: int) -> Option<(ArgView, int)> {
    match spec_arg_at(ts, p) {
        Some((a, e)) => if e < ts.len() && (ts[e] == TokenView::Comma || ts[e] == TokenView::RParen) {
            Some((a, e))
        } else {
            None
        },
        None => None,
    }
}

/// Whether a token ends an expression: nothing after it continues one.
pub open spec fn spec_expr_stop(t: TokenView) -> bool {
    t == TokenView::Comma || t == TokenView::RParen || t == TokenView::Dot || t == TokenView::Semi || t
        == TokenView::Eq || t == TokenView::Ne || t == TokenView::Lt || t == TokenView::Le || t == TokenView::Gt
        || t == TokenView::Ge
}

/// An argument at `p` that a token ending an expression follows.
pub open spec fn spec_stop_arg(ts: Seq<TokenView>, p: int) -> Option<(ArgView, int)> {
    match spec_arg_at(ts, p) {
        Some((a, e)) => if 0 <= e < ts.len() && spec_expr_stop(ts[e]) {
            Some((a, e))
        } else {
            None
        },
        None => None,
    }
}

/// Arguments separated by `,` from `p` up to a `)`: the arguments, and where
/// the `)` is.
pub open spec fn spec_arg_list(ts: Seq<TokenView>, p: int) -> Option<(Seq<ArgView>, int)>
    decreases ts.len() - p,
{
    match spec_closed_arg(ts, p) {
        Some((a, e)) => if ts[e] == TokenView::RParen {
            Some((seq![a], e))
        } else if e + 1 > p {
            match spec_arg_list(ts, e + 1) {
                Some((rest, end)) => Some((seq![a] + rest, end)),
                None => None,
            }
        } else {
            None
        },
        None => None,
    }
}

/// The tokens at `p` are an atom `name(a1, …, an)` over variables and
/// constants: its predicate, its arguments, and where its `)` ends.
pub open spec fn spec_arg_atom_at(ts: Seq<TokenView>, p: int) -> Option<(Seq<char>, Seq<ArgView>, int)> {
    if 0 <= p && p + 1 < ts.len() && ts[p + 1] == TokenView::LParen {
        match ts[p] {
            TokenView::Ident(name) => match spec_arg_list(ts, p + 2) {
                Some((args, end)) => Some((name, args, end + 1)),
                None => None,
            },
            _ => None,
        }
    } else {
        None
    }
}

/// `a` is the atom `name(args)` with positional arguments.
pub open spec fn spec_is_arg_atom(a: Atom, name: Seq<char>, args: Seq<ArgView>) -> bool {
    &&& a.predicate.name@ == name
    &&& match a.args {
        Args::Positional(es) => es@.len() == args.len() && forall|k: int|
            0 <= k < args.len() ==> spec_expr_arg(#[trigger] es@[k]) == Some(args[k]),
        Args::Named(_) => false,
    }
}

/// A body literal as values: an atom (whether negated, its predicate and
/// arguments), or a comparison of two arguments.
pub enum LitView {
    Atom(bool, Seq<char>, Seq<ArgView>),
    Compare(ArgView, CmpOp, ArgView),
}

/// The comparison operator a token spells.
pub open spec fn spec_token_comparison(t: TokenView) -> Option<CmpOp> {
    match t {
        TokenView::Eq => Some(CmpOp::Eq),
        TokenView::Ne => Some(CmpOp::Ne),
        TokenView::Lt => Some(CmpOp::Lt),
        TokenView::Le => Some(CmpOp::Le),
        TokenView::Gt => Some(CmpOp::Gt),
        TokenView::Ge => Some(CmpOp::Ge),
        _ => None,
    }
}

/// A comparison `a op b` of two arguments at `p`, closed by a `,` or a `.`:
/// its sides, its operator, and where it ends.
pub open spec fn spec_comparison_at(ts: Seq<TokenView>, p: int) -> Option<(ArgView, CmpOp, ArgView, int)> {
    match spec_arg_at(ts, p) {
        Some((a, e)) => if 0 <= e && e + 1 < ts.len() && spec_token_comparison(ts[e]) is Some {
            match spec_stop_arg(ts, e + 1) {
                Some((b, e2)) => if ts[e2] == TokenView::Comma || ts[e2] == TokenView::Dot {
                    Some((a, spec_token_comparison(ts[e]).unwrap(), b, e2))
                } else {
                    None
                },
                None => None,
            }
        } else {
            None
        },
        None => None,
    }
}

/// A body literal at `p`, `name(args)`, `not name(args)` or `a op b`, and
/// where it ends.
pub open spec fn spec_lit_at(ts: Seq<TokenView>, p: int) -> Option<(LitView, int)> {
    if 0 <= p < ts.len() && ts[p] == TokenView::Not {
        match spec_arg_atom_at(ts, p + 1) {
            Some((name, args, e)) => Some((LitView::Atom(true, name, args), e)),
            None => None,
        }
    } else if let Some((name, args, e)) = spec_arg_atom_at(ts, p) {
        Some((LitView::Atom(false, name, args), e))
    } else if let Some((a, op, b, e)) = spec_comparison_at(ts, p) {
        Some((LitView::Compare(a, op, b), e))
    } else {
        None
    }
}

/// Body literals separated by `,` from `p`, up to a `.` or a `;`: the
/// literals, and where the `.` or `;` is.
pub open spec fn spec_atoms_from(ts: Seq<TokenView>, p: int) -> Option<(Seq<LitView>, int)>
    decreases ts.len() - p,
{
    match spec_lit_at(ts, p) {
        Some((lv, e)) => if 0 <= e < ts.len() && (ts[e] == TokenView::Dot || ts[e] == TokenView::Semi) {
            Some((seq![lv], e))
        } else if 0 <= e && e + 1 < ts.len() && ts[e] == TokenView::Comma && ts[e + 1] != TokenView::Dot && ts[e
            + 1] != TokenView::Semi && e + 1 > p {
            match spec_atoms_from(ts, e + 1) {
                Some((rest, end)) => Some((seq![lv] + rest, end)),
                None => None,
            }
        } else {
            None
        },
        None => None,
    }
}

/// Conjunctions separated by `;` from `p`, up to a `.`: each conjunction's
/// literals, and where the `.` is.
pub open spec fn spec_disjuncts_from(ts: Seq<TokenView>, p: int) -> Option<(Seq<Seq<LitView>>, int)>
    decreases ts.len() - p,
{
    match spec_atoms_from(ts, p) {
        Some((c, e)) => if 0 <= e < ts.len() && ts[e] == TokenView::Dot {
            Some((seq![c], e))
        } else if p < e && 0 <= e && e + 1 < ts.len() {
            match spec_disjuncts_from(ts, e + 1) {
                Some((rest, end)) => Some((seq![c] + rest, end)),
                None => None,
            }
        } else {
            None
        },
        None => None,
    }
}

/// `l` is the body literal `lv`: that atom, negated where it says, or that
/// comparison.
pub open spec fn spec_is_body_literal(l: Literal, lv: LitView) -> bool {
    match lv {
        LitView::Atom(neg, name, args) => match l.kind {
            LiteralKind::Atom { negated, atom } => negated == neg && spec_is_arg_atom(atom, name, args),
            _ => false,
        },
        LitView::Compare(a, op, b) => match l.kind {
            LiteralKind::Comparison(c) => c.op == op && spec_expr_arg(c.lhs) == Some(a) && spec_expr_arg(c.rhs)
                == Some(b),
            _ => false,
        },
    }
}

/// `k` is the comparison `a op b`.
pub open spec fn spec_is_comparison(k: LiteralKind, a: ArgView, op: CmpOp, b: ArgView) -> bool {
    match k {
        LiteralKind::Comparison(c) => c.op == op && spec_expr_arg(c.lhs) == Some(a) && spec_expr_arg(c.rhs) == Some(b),
        _ => false,
    }
}

/// `ds` are the bodies `bodies`, in order.
pub open spec fn spec_is_bodies(ds: Seq<Vec<Literal>>, bodies: Seq<Seq<LitView>>) -> bool {
    &&& ds.len() == bodies.len()
    &&& forall|k: int| 0 <= k < ds.len() ==> spec_is_body_literals((#[trigger] ds[k])@, bodies[k])
}

/// `ls` are the body literals `lits`, in order.
pub open spec fn spec_is_body_literals(ls: Seq<Literal>, lits: Seq<LitView>) -> bool {
    &&& ls.len() == lits.len()
    &&& forall|k: int| 0 <= k < lits.len() ==> spec_is_body_literal(#[trigger] ls[k], lits[k])
}

/// A rule at `p`, `head :- lit, …, lit; …; lit, …, lit.`, its literals atoms
/// or comparisons over variables and constants: its head, its bodies (one per
/// disjunct), and where its `.` ends.
pub open spec fn spec_rule_at(ts: Seq<TokenView>, p: int) -> Option<
    ((Seq<char>, Seq<ArgView>), Seq<Seq<LitView>>, int),
> {
    match spec_arg_atom_at(ts, p) {
        Some((name, args, e)) => if 0 <= e && e + 1 < ts.len() && ts[e] == TokenView::ColonDash {
            match spec_disjuncts_from(ts, e + 1) {
                Some((bodies, d)) => Some(((name, args), bodies, d + 1)),
                None => None,
            }
        } else {
            None
        },
        None => None,
    }
}

/// A query at `p`, `?- lit, …, lit.`, its literals atoms or comparisons: its body, and
/// where its `.` ends.
pub open spec fn spec_query_at(ts: Seq<TokenView>, p: int) -> Option<(Seq<LitView>, int)> {
    if 0 <= p < ts.len() && ts[p] == TokenView::QuestionDash {
        match spec_atoms_from(ts, p + 1) {
            Some((atoms, d)) => if ts[d] == TokenView::Dot {
                Some((atoms, d + 1))
            } else {
                None
            },
            None => None,
        }
    } else {
        None
    }
}

/// `stmt` is the unnamed query `?- body.`.
pub open spec fn spec_is_query(stmt: Statement, body: Seq<LitView>) -> bool {
    match stmt.kind {
        StatementKind::Query(q) => q.name is None && spec_is_body_literals(q.body@, body),
        _ => false,
    }
}

/// `stmt` is the rule `head :- body`.
pub open spec fn spec_is_rule(
    stmt: Statement,
    head: (Seq<char>, Seq<ArgView>),
    body: Seq<LitView>,
) -> bool {
    match stmt.kind {
        StatementKind::Clause(c) => spec_is_arg_atom(c.head, head.0, head.1) && spec_is_body_literals(c.body@, body),
        _ => false,
    }
}

/// A run of atoms ends at a `.`.
proof fn lemma_atoms_end(ts: Seq<TokenView>, p: int)
    ensures
        spec_atoms_from(ts, p) matches Some((atoms, end)) ==> 0 <= end < ts.len() && (ts[end] == TokenView::Dot
            || ts[end] == TokenView::Semi) && atoms.len() >= 1,
    decreases ts.len() - p,
{
    if let Some((lv, e)) = spec_lit_at(ts, p) {
        if !(0 <= e < ts.len() && (ts[e] == TokenView::Dot || ts[e] == TokenView::Semi)) && 0 <= e && e + 1
            < ts.len() && e + 1 > p {
            lemma_atoms_end(ts, e + 1);
        }
    }
}

/// A run of disjuncts ends at a `.`.
proof fn lemma_disjuncts_end(ts: Seq<TokenView>, p: int)
    ensures
        spec_disjuncts_from(ts, p) matches Some((bodies, end)) ==> 0 <= end < ts.len() && ts[end] == TokenView::Dot
            && bodies.len() >= 1,
    decreases ts.len() - p,
{
    if let Some((c, e)) = spec_atoms_from(ts, p) {
        if !(0 <= e < ts.len() && ts[e] == TokenView::Dot) && p < e && 0 <= e && e + 1 < ts.len() {
            lemma_disjuncts_end(ts, e + 1);
        }
    }
}

/// A copy of an atom is the same atom.
proof fn lemma_same_arg_atom(a: Atom, b: Atom, name: Seq<char>, args: Seq<ArgView>)
    requires
        same_atom(a, b),
        spec_is_arg_atom(a, name, args),
    ensures
        spec_is_arg_atom(b, name, args),
{
    if let (Args::Positional(x), Args::Positional(y)) = (a.args, b.args) {
        assert forall|k: int| 0 <= k < args.len() implies spec_expr_arg(#[trigger] y@[k]) == Some(args[k]) by {
            assert(same_expr(x@[k], y@[k]));
        }
    }
}

/// An argument list ends at a `)`.
proof fn lemma_arg_list_end(ts: Seq<TokenView>, p: int)
    ensures
        spec_arg_list(ts, p) matches Some((args, end)) ==> p < end < ts.len() && ts[end]
            == TokenView::RParen && args.len() >= 1,
    decreases ts.len() - p,
{
    if let Some((a, e)) = spec_closed_arg(ts, p) {
        if ts[e] != TokenView::RParen && e + 1 > p {
            lemma_arg_list_end(ts, e + 1);
        }
    }
}

/// The constant one token spells at `p`: a literal, or an identifier (a
/// symbol) not followed by `(`.
pub open spec fn spec_term_token(ts: Seq<TokenView>, p: int) -> Option<ValueView> {
    if 0 <= p < ts.len() {
        match ts[p] {
            TokenView::Int(n) => Some(ValueView::Int(n)),
            TokenView::Float(t) => Some(ValueView::Float(t)),
            TokenView::Str(t) => Some(ValueView::String(t)),
            TokenView::True => Some(ValueView::Bool(true)),
            TokenView::False => Some(ValueView::Bool(false)),
            TokenView::Absent => Some(ValueView::Absent),
            TokenView::Temporal(t) => Some(
                match t {
                    TemporalView::Date(d) => ValueView::Date(d),
                    TemporalView::Timestamp(m) => ValueView::Timestamp(m),
                    TemporalView::Duration(u) => ValueView::Duration(u),
                },
            ),
            TokenView::Ident(t) => if p + 1 < ts.len() && ts[p + 1] == TokenView::LParen {
                None
            } else {
                Some(ValueView::Symbol(t))
            },
            _ => None,
        }
    } else {
        None
    }
}

/// The constant the tokens at `p` spell, and where it ends: one token, or a
/// `-` and a number.
pub open spec fn spec_constant_at(ts: Seq<TokenView>, p: int) -> Option<(ValueView, int)> {
    if 0 <= p && p + 1 < ts.len() && ts[p] == TokenView::Minus {
        match ts[p + 1] {
            TokenView::Int(n) => if n != i64::MIN {
                Some((ValueView::Int(-n), p + 2))
            } else {
                None
            },
            TokenView::Float(t) => Some((ValueView::Float(seq!['-'] + t), p + 2)),
            _ => None,
        }
    } else {
        match spec_term_token(ts, p) {
            Some(v) => Some((v, p + 1)),
            None => None,
        }
    }
}

/// A constant at `p` that a `,` or a `)` follows.
pub open spec fn spec_closed_constant(ts: Seq<TokenView>, p: int) -> Option<(ValueView, int)> {
    match spec_constant_at(ts, p) {
        Some((v, e)) => if e < ts.len() && (ts[e] == TokenView::Comma || ts[e] == TokenView::RParen) {
            Some((v, e))
        } else {
            None
        },
        None => None,
    }
}

/// Constants separated by `,` from `p` up to a `)`: the values, and where the
/// `)` is.
pub open spec fn spec_const_list(ts: Seq<TokenView>, p: int) -> Option<(Seq<ValueView>, int)>
    decreases ts.len() - p,
{
    match spec_closed_constant(ts, p) {
        Some((v, e)) => if ts[e] == TokenView::RParen {
            Some((seq![v], e))
        } else if e + 1 > p {
            match spec_const_list(ts, e + 1) {
                Some((rest, end)) => Some((seq![v] + rest, end)),
                None => None,
            }
        } else {
            None
        },
        None => None,
    }
}

/// The tokens at `p` are an atom `name(c1, …, cn)` over constants: its
/// predicate, its values, and where its `)` ends.
pub open spec fn spec_atom_at(ts: Seq<TokenView>, p: int) -> Option<(Seq<char>, Seq<ValueView>, int)> {
    if 0 <= p && p + 1 < ts.len() && ts[p + 1] == TokenView::LParen {
        match ts[p] {
            TokenView::Ident(name) => match spec_const_list(ts, p + 2) {
                Some((vs, end)) => Some((name, vs, end + 1)),
                None => None,
            },
            _ => None,
        }
    } else {
        None
    }
}

/// `a` is the atom `name(vs)` with positional constant arguments.
pub open spec fn spec_is_atom(a: Atom, name: Seq<char>, vs: Seq<ValueView>) -> bool {
    &&& a.predicate.name@ == name
    &&& match a.args {
        Args::Positional(es) => es@.len() == vs.len() && forall|k: int|
            0 <= k < vs.len() ==> spec_expr_value(#[trigger] es@[k]) == Some(vs[k]),
        Args::Named(_) => false,
    }
}

/// A constant list ends at a `)`.
proof fn lemma_const_list_end(ts: Seq<TokenView>, p: int)
    ensures
        spec_const_list(ts, p) matches Some((vs, end)) ==> p < end < ts.len() && ts[end]
            == TokenView::RParen && vs.len() >= 1,
    decreases ts.len() - p,
{
    if let Some((v, e)) = spec_closed_constant(ts, p) {
        if ts[e] != TokenView::RParen && e + 1 > p {
            lemma_const_list_end(ts, e + 1);
        }
    }
}

/// The tokens at `p` are a ground fact `name(c1, …, cn).`: its predicate, its
/// values, and where its `.` ends.
pub open spec fn spec_fact_at(ts: Seq<TokenView>, p: int) -> Option<(Seq<char>, Seq<ValueView>, int)> {
    match spec_atom_at(ts, p) {
        Some((name, vs, e)) => if 0 <= e < ts.len() && ts[e] == TokenView::Dot {
            Some((name, vs, e + 1))
        } else {
            None
        },
        None => None,
    }
}

/// A field declaration at `p`, `name` or `name: type`: where it ends.
pub open spec fn spec_field_at(ts: Seq<TokenView>, p: int) -> Option<int> {
    if 0 <= p && p + 1 < ts.len() && ts[p] is Ident {
        if ts[p + 1] == TokenView::Colon {
            if p + 2 < ts.len() && (ts[p + 2] matches TokenView::Ident(m) && exists|t: TypeName|
                crate::ast::spec_type_keyword(t) == m) {
                Some(p + 3)
            } else {
                None
            }
        } else {
            Some(p + 1)
        }
    } else {
        None
    }
}

/// Field declarations separated by `,` from `p`, closed by `)`: where the
/// `)` ends.
pub open spec fn spec_field_list_end(ts: Seq<TokenView>, p: int) -> Option<int>
    decreases ts.len() - p,
{
    match spec_field_at(ts, p) {
        Some(e) => if e < ts.len() && ts[e] == TokenView::RParen {
            Some(e + 1)
        } else if e + 1 < ts.len() && ts[e] == TokenView::Comma && ts[e + 1] != TokenView::RParen && e + 1 > p {
            spec_field_list_end(ts, e + 1)
        } else {
            None
        },
        None => None,
    }
}

/// After a relation name at `q - 1`: `.`, or a parenthesized field list and
/// `.`; where the statement ends.
pub open spec fn spec_schema_tail(ts: Seq<TokenView>, q: int) -> Option<int> {
    if 0 <= q < ts.len() && ts[q] == TokenView::Dot {
        Some(q + 1)
    } else if 0 <= q < ts.len() && ts[q] == TokenView::LParen {
        match spec_field_list_end(ts, q + 1) {
            Some(e) => if e < ts.len() && ts[e] == TokenView::Dot {
                Some(e + 1)
            } else {
                None
            },
            None => None,
        }
    } else {
        None
    }
}

/// A well-formed import at `p`: `import "path".`, or `import "path"
/// [table "name"] as rel[(fields)].` with a lowercase relation name; where it
/// ends.
pub open spec fn spec_import_end(ts: Seq<TokenView>, p: int) -> Option<int> {
    if 0 <= p && p + 2 < ts.len() && ts[p] == TokenView::Import && ts[p + 1] is Str {
        if ts[p + 2] == TokenView::Dot {
            Some(p + 3)
        } else {
            let q = if ts[p + 2] == TokenView::Ident("table"@) {
                if p + 3 < ts.len() && ts[p + 3] is Str {
                    p + 4
                } else {
                    -1
                }
            } else {
                p + 2
            };
            if 0 <= q && q + 2 < ts.len() && ts[q] == TokenView::As && ts[q + 1] is Ident {
                spec_schema_tail(ts, q + 2)
            } else {
                None
            }
        }
    } else {
        None
    }
}

/// A well-formed declaration at `p`: `declare rel(fields).` with a lowercase
/// relation name; where it ends.
pub open spec fn spec_declare_end(ts: Seq<TokenView>, p: int) -> Option<int> {
    if 0 <= p && p + 2 < ts.len() && ts[p] == TokenView::Declare && ts[p + 1] is Ident && ts[p + 2]
        == TokenView::LParen {
        match spec_field_list_end(ts, p + 3) {
            Some(e) => if e < ts.len() && ts[e] == TokenView::Dot {
                Some(e + 1)
            } else {
                None
            },
            None => None,
        }
    } else {
        None
    }
}

/// The tokens from `p` to the end marker are ground facts, one after another.
pub open spec fn spec_facts_from(ts: Seq<TokenView>, p: int) -> Option<Seq<(Seq<char>, Seq<ValueView>)>>
    decreases ts.len() - p,
{
    if 0 <= p && p + 1 == ts.len() {
        Some(seq![])
    } else {
        match spec_fact_at(ts, p) {
            Some((name, vs, e)) => if p < e {
                match spec_facts_from(ts, e) {
                    Some(rest) => Some(seq![(name, vs)] + rest),
                    None => None,
                }
            } else {
                None
            },
            None => None,
        }
    }
}

/// `stmt` is the fact clause `name(vs).`: its head is that atom and it has
/// no body.
pub open spec fn spec_is_fact(stmt: Statement, name: Seq<char>, vs: Seq<ValueView>) -> bool {
    match stmt.kind {
        StatementKind::Clause(c) => c.body@.len() == 0 && spec_is_atom(c.head, name, vs),
        _ => false,
    }
}

/// `program` is exactly the facts `fs`, in order.
pub open spec fn spec_is_facts(program: Program, fs: Seq<(Seq<char>, Seq<ValueView>)>) -> bool {
    &&& program.statements@.len() == fs.len()
    &&& forall|k: int| 0 <= k < fs.len() ==> spec_is_fact(#[trigger] program.statements@[k], fs[k].0, fs[k].1)
}

/// A statement as values: a ground fact (its relation and values), a rule over
/// body literals (its head and body), a query over body literals (its body),
/// an import (its path, and whether it imports a module), or a declaration.
pub enum PieceView {
    Fact(Seq<char>, Seq<ValueView>),
    Rule((Seq<char>, Seq<ArgView>), Seq<LitView>),
    Query(Seq<LitView>),
    Import(Seq<char>, bool),
    Declare,
}

/// A well-formed statement at `p` of a program made of facts, rules and
/// queries over body literals, imports and declarations, and where it ends.
pub open spec fn spec_piece_at(ts: Seq<TokenView>, p: int) -> Option<(Seq<PieceView>, int)> {
    if let Some((name, vs, e)) = spec_fact_at(ts, p) {
        Some((seq![PieceView::Fact(name, vs)], e))
    } else if let Some((head, bodies, e)) = spec_rule_at(ts, p) {
        Some((Seq::new(bodies.len(), |k: int| PieceView::Rule(head, bodies[k])), e))
    } else if let Some((body, e)) = spec_query_at(ts, p) {
        Some((seq![PieceView::Query(body)], e))
    } else if let Some(e) = spec_import_end(ts, p) {
        let path = match ts[p + 1] {
            TokenView::Str(t) => t,
            _ => Seq::empty(),
        };
        Some((seq![PieceView::Import(path, ts[p + 2] == TokenView::Dot)], e))
    } else if let Some(e) = spec_declare_end(ts, p) {
        Some((seq![PieceView::Declare], e))
    } else {
        None
    }
}

/// The tokens from `p` to the end marker are facts, rules and queries over
/// body literals, imports and declarations, one after another.
pub open spec fn spec_pieces_from(ts: Seq<TokenView>, p: int) -> Option<Seq<PieceView>>
    decreases ts.len() - p,
{
    if 0 <= p && p + 1 == ts.len() {
        Some(seq![])
    } else {
        match spec_piece_at(ts, p) {
            Some((pieces, e)) => if p < e <= ts.len() {
                match spec_pieces_from(ts, e) {
                    Some(rest) => Some(pieces + rest),
                    None => None,
                }
            } else {
                None
            },
            None => None,
        }
    }
}

/// `stmt` is the statement `piece` describes: that fact clause, that rule, an
/// import of that path, or a declaration.
pub open spec fn spec_is_piece(stmt: Statement, piece: PieceView) -> bool {
    match piece {
        PieceView::Fact(name, vs) => spec_is_fact(stmt, name, vs),
        PieceView::Rule(head, body) => spec_is_rule(stmt, head, body),
        PieceView::Query(body) => spec_is_query(stmt, body),
        PieceView::Import(path, module) => match stmt.kind {
            StatementKind::Import(im) => im.path@ == path && (im.kind is Module <==> module),
            _ => false,
        },
        PieceView::Declare => stmt.kind is Declare,
    }
}

/// `program` is exactly the statements `ps` describe, in order.
pub open spec fn spec_is_pieces(program: Program, ps: Seq<PieceView>) -> bool {
    &&& program.statements@.len() == ps.len()
    &&& forall|k: int| 0 <= k < ps.len() ==> spec_is_piece(#[trigger] program.statements@[k], ps[k])
}

/// A parse error's text: the message, then the byte offset it points at.
pub open spec fn spec_parse_message(message: Seq<char>, span: Span) -> Seq<char> {
    message + " (at byte "@ + signed_decimal((span.start as i64) as int) + ")"@
}

/// A parse step that failed after recording its error.
pub type PResult<T> = Result<T, ()>;

struct Parser {
    tokens: Vec<Token>,
    pos: usize,
    errors: Vec<Error>,
}

/// The unit tokens a parser step can expect by kind.
#[derive(Clone, Copy)]
enum Punct {
    Dot,
    Comma,
    LParen,
    RParen,
    LBrace,
    RBrace,
    Colon,
    As,
}

/// The token a punctuation kind stands for.
spec fn spec_punct(p: Punct) -> TokenView {
    match p {
        Punct::Dot => TokenView::Dot,
        Punct::Comma => TokenView::Comma,
        Punct::LParen => TokenView::LParen,
        Punct::RParen => TokenView::RParen,
        Punct::LBrace => TokenView::LBrace,
        Punct::RBrace => TokenView::RBrace,
        Punct::Colon => TokenView::Colon,
        Punct::As => TokenView::As,
    }
}

fn punct_is(k: &TokenKind, p: Punct) -> (r: bool)
    ensures
        r == (k@ == spec_punct(p)),
{
    match p {
        Punct::Dot => matches!(k, TokenKind::Dot),
        Punct::Comma => matches!(k, TokenKind::Comma),
        Punct::LParen => matches!(k, TokenKind::LParen),
        Punct::RParen => matches!(k, TokenKind::RParen),
        Punct::LBrace => matches!(k, TokenKind::LBrace),
        Punct::RBrace => matches!(k, TokenKind::RBrace),
        Punct::Colon => matches!(k, TokenKind::Colon),
        Punct::As => matches!(k, TokenKind::As),
    }
}

/// How a token is named in an error.
pub open spec fn spec_describe(k: TokenKind) -> Seq<char> {
    match k {
        TokenKind::Import => "`import`"@,
        TokenKind::Declare => "`declare`"@,
        TokenKind::As => "`as`"@,
        TokenKind::Not => "`not`"@,
        TokenKind::Is => "`is`"@,
        TokenKind::Absent => "`absent`"@,
        TokenKind::True => "`true`"@,
        TokenKind::False => "`false`"@,
        TokenKind::QuestionDash => "`?-`"@,
        TokenKind::ColonDash => "`:-`"@,
        TokenKind::Dot => "`.`"@,
        TokenKind::Comma => "`,`"@,
        TokenKind::Semi => "`;`"@,
        TokenKind::LParen => "`(`"@,
        TokenKind::RParen => "`)`"@,
        TokenKind::LBrace => "`{`"@,
        TokenKind::RBrace => "`}`"@,
        TokenKind::Pipe => "`|`"@,
        TokenKind::Colon => "`:`"@,
        TokenKind::Eq => "`=`"@,
        TokenKind::Ne => "`!=`"@,
        TokenKind::Lt => "`<`"@,
        TokenKind::Le => "`<=`"@,
        TokenKind::Gt => "`>`"@,
        TokenKind::Ge => "`>=`"@,
        TokenKind::Plus => "`+`"@,
        TokenKind::Minus => "`-`"@,
        TokenKind::Star => "`*`"@,
        TokenKind::Slash => "`/`"@,
        TokenKind::Int(_) => "an integer"@,
        TokenKind::Float(_) => "a float"@,
        TokenKind::Str(_) => "a string"@,
        TokenKind::Temporal(_) => "a temporal literal"@,
        TokenKind::Eof => "the end of the input"@,
        TokenKind::Ident(name) => "identifier `"@ + name@ + "`"@,
        TokenKind::Variable(name) => "variable `"@ + name@ + "`"@,
    }
}

/// How a token is named in an error.
fn describe(k: &TokenKind) -> (r: String)
    ensures
        r@ == spec_describe(*k),
{
    let fixed: &str = match k {
        TokenKind::Import => "`import`",
        TokenKind::Declare => "`declare`",
        TokenKind::As => "`as`",
        TokenKind::Not => "`not`",
        TokenKind::Is => "`is`",
        TokenKind::Absent => "`absent`",
        TokenKind::True => "`true`",
        TokenKind::False => "`false`",
        TokenKind::QuestionDash => "`?-`",
        TokenKind::ColonDash => "`:-`",
        TokenKind::Dot => "`.`",
        TokenKind::Comma => "`,`",
        TokenKind::Semi => "`;`",
        TokenKind::LParen => "`(`",
        TokenKind::RParen => "`)`",
        TokenKind::LBrace => "`{`",
        TokenKind::RBrace => "`}`",
        TokenKind::Pipe => "`|`",
        TokenKind::Colon => "`:`",
        TokenKind::Eq => "`=`",
        TokenKind::Ne => "`!=`",
        TokenKind::Lt => "`<`",
        TokenKind::Le => "`<=`",
        TokenKind::Gt => "`>`",
        TokenKind::Ge => "`>=`",
        TokenKind::Plus => "`+`",
        TokenKind::Minus => "`-`",
        TokenKind::Star => "`*`",
        TokenKind::Slash => "`/`",
        TokenKind::Int(_) => "an integer",
        TokenKind::Float(_) => "a float",
        TokenKind::Str(_) => "a string",
        TokenKind::Temporal(_) => "a temporal literal",
        TokenKind::Eof => "the end of the input",
        TokenKind::Ident(name) => {
            let mut out = to_owned("identifier `");
            push_str(&mut out, name.as_str());
            push_str(&mut out, "`");
            return out;
        },
        TokenKind::Variable(name) => {
            let mut out = to_owned("variable `");
            push_str(&mut out, name.as_str());
            push_str(&mut out, "`");
            return out;
        },
    };
    to_owned(fixed)
}

/// The span covering both `a` and `b`.
pub open spec fn spec_join(a: Span, b: Span) -> Span {
    Span {
        start: if a.start <= b.start {
            a.start
        } else {
            b.start
        },
        end: if a.end >= b.end {
            a.end
        } else {
            b.end
        },
    }
}

/// The span covering both `a` and `b`.
pub fn join(a: Span, b: Span) -> (r: Span)
    ensures
        r == spec_join(a, b),
        r.start == (if a.start <= b.start {
            a.start
        } else {
            b.start
        }),
        r.end == (if a.end >= b.end {
            a.end
        } else {
            b.end
        }),
{
    Span {
        start: if a.start <= b.start {
            a.start
        } else {
            b.start
        },
        end: if a.end >= b.end {
            a.end
        } else {
            b.end
        },
    }
}

/// Left-associative binary folding for precedence climbing.
fn fold_binary(op: ArithOp, lhs: Expr, rhs: Expr) -> (r: Expr)
    ensures
        r.kind == (ExprKind::Binary { op, lhs: Box::new(lhs), rhs: Box::new(rhs) }),
        r.span == spec_join(lhs.span, rhs.span),
{
    let span = join(lhs.span, rhs.span);
    Expr { kind: ExprKind::Binary { op, lhs: Box::new(lhs), rhs: Box::new(rhs) }, span }
}

/// `name` with its first character lowercased (ASCII).
fn lowercase_first(name: &str) -> (r: String)
    ensures
        r@.len() == name@.len(),
        forall|k: int| 0 < k < name@.len() ==> #[trigger] r@[k] == name@[k],
        name@.len() > 0 ==> if 'A' <= name@[0] <= 'Z' {
            r@[0] as int == name@[0] as int + 32
        } else {
            r@[0] == name@[0]
        },
{
    let v = crate::text::chars_of(name);
    let mut out = String::new();
    let mut i: usize = 0;
    while i < v.len()
        invariant
            i <= v@.len(),
            v@ == name@,
            out@.len() == i,
            forall|k: int| 0 < k < i ==> #[trigger] out@[k] == name@[k],
            i > 0 ==> if 'A' <= name@[0] <= 'Z' {
                out@[0] as int == name@[0] as int + 32
            } else {
                out@[0] == name@[0]
            },
        decreases v.len() - i,
    {
        let c = v[i];
        if i == 0 && 'A' <= c && c <= 'Z' {
            let b: u8 = c as u8;
            assert(b as int == c as int);
            let lower: char = (b + 32) as char;
            crate::text::push_char(&mut out, lower);
        } else {
            crate::text::push_char(&mut out, c);
        }
        i += 1;
    }
    out
}

/// `b` is a copy of the expression `a`: the same tree, node for node, with
/// equal leaves.
pub open spec fn same_expr(a: Expr, b: Expr) -> bool
    decreases a, 3int,
{
    &&& a.span == b.span
    &&& match (a.kind, b.kind) {
        (ExprKind::Term(x), ExprKind::Term(y)) => x == y,
        (ExprKind::Binary { op, lhs, rhs }, ExprKind::Binary { op: op2, lhs: lhs2, rhs: rhs2 }) => op == op2
            && same_expr(*lhs, *lhs2) && same_expr(*rhs, *rhs2),
        (ExprKind::Cast { expr, ty }, ExprKind::Cast { expr: expr2, ty: ty2 }) => ty == ty2 && same_expr(
            *expr,
            *expr2,
        ),
        (ExprKind::Aggregate(g), ExprKind::Aggregate(h)) => g.op == h.op && same_expr(*g.expr, *h.expr)
            && same_literals(g.goal, h.goal) && same_exprs(g.params, h.params),
        _ => false,
    }
}

/// `b` copies the expressions `a`, one for one.
pub open spec fn same_exprs(a: Vec<Expr>, b: Vec<Expr>) -> bool
    decreases a, 2int,
{
    &&& a@.len() == b@.len()
    &&& forall|k: int| 0 <= k < a@.len() ==> same_expr(#[trigger] a@[k], b@[k])
}

/// `b` copies the named arguments `a`, one for one.
pub open spec fn same_named(a: Vec<NamedArg>, b: Vec<NamedArg>) -> bool
    decreases a, 2int,
{
    &&& a@.len() == b@.len()
    &&& forall|k: int|
        0 <= k < a@.len() ==> (#[trigger] a@[k]).field == b@[k].field && a@[k].span == b@[k].span
            && same_expr(a@[k].value, b@[k].value)
}

/// `b` is a copy of the atom `a`.
pub open spec fn same_atom(a: Atom, b: Atom) -> bool
    decreases a, 3int,
{
    &&& a.predicate == b.predicate
    &&& a.span == b.span
    &&& match (a.args, b.args) {
        (Args::Positional(x), Args::Positional(y)) => same_exprs(x, y),
        (Args::Named(x), Args::Named(y)) => same_named(x, y),
        _ => false,
    }
}

/// `b` is a copy of the literal `a`.
pub open spec fn same_literal(a: Literal, b: Literal) -> bool
    decreases a, 3int,
{
    &&& a.span == b.span
    &&& match (a.kind, b.kind) {
        (LiteralKind::Atom { negated, atom }, LiteralKind::Atom { negated: n2, atom: atom2 }) => negated == n2
            && same_atom(atom, atom2),
        (LiteralKind::Comparison(c), LiteralKind::Comparison(d)) => c.op == d.op && same_expr(c.lhs, d.lhs)
            && same_expr(c.rhs, d.rhs),
        (LiteralKind::Presence { expr, negated }, LiteralKind::Presence { expr: e2, negated: n2 }) => negated
            == n2 && same_expr(expr, e2),
        _ => false,
    }
}

/// `b` copies the literals `a`, one for one.
pub open spec fn same_literals(a: Vec<Literal>, b: Vec<Literal>) -> bool
    decreases a, 2int,
{
    &&& a@.len() == b@.len()
    &&& forall|k: int| 0 <= k < a@.len() ==> same_literal(#[trigger] a@[k], b@[k])
}

/// A copy of a term.
fn copy_term(t: &Term) -> (r: Term)
    ensures
        r == *t,
{
    let kind = match &t.kind {
        TermKind::Constant(c) => TermKind::Constant(copy_constant(c)),
        TermKind::Variable(v) => TermKind::Variable(v.clone()),
        TermKind::Wildcard => TermKind::Wildcard,
    };
    Term { kind, span: t.span }
}

fn copy_constant(c: &Constant) -> (r: Constant)
    ensures
        r == *c,
{
    match c {
        Constant::Symbol(s) => Constant::Symbol(s.clone()),
        Constant::String(s) => Constant::String(s.clone()),
        Constant::Int(n) => Constant::Int(*n),
        Constant::Float(f) => Constant::Float(FloatLit { text: f.text.clone() }),
        Constant::Bool(b) => Constant::Bool(*b),
        Constant::Absent => Constant::Absent,
        Constant::Temporal(t) => Constant::Temporal(*t),
    }
}

fn copy_ident(i: &Ident) -> (r: Ident)
    ensures
        r == *i,
{
    Ident { name: i.name.clone(), span: i.span }
}

/// A copy of an expression.
fn copy_expr(e: &Expr) -> (r: Expr)
    ensures
        same_expr(*e, r),
    decreases e, 2int,
{
    let kind = match &e.kind {
        ExprKind::Term(t) => ExprKind::Term(copy_term(t)),
        ExprKind::Binary { op, lhs, rhs } => ExprKind::Binary {
            op: *op,
            lhs: Box::new(copy_expr(lhs)),
            rhs: Box::new(copy_expr(rhs)),
        },
        ExprKind::Cast { expr, ty } => ExprKind::Cast { expr: Box::new(copy_expr(expr)), ty: *ty },
        ExprKind::Aggregate(agg) => {
            let inner = copy_expr(&agg.expr);
            let goal = copy_literals(&agg.goal);
            let params = copy_exprs(&agg.params);
            ExprKind::Aggregate(
                Aggregate { op: agg.op, expr: Box::new(inner), goal, params },
            )
        },
    };
    Expr { kind, span: e.span }
}

/// A copy of a list of expressions.
fn copy_exprs(es: &Vec<Expr>) -> (r: Vec<Expr>)
    ensures
        same_exprs(*es, r),
    decreases es, 1int,
{
    let mut out: Vec<Expr> = Vec::new();
    let mut i: usize = 0;
    while i < es.len()
        invariant
            i <= es@.len(),
            out@.len() == i,
            forall|k: int| 0 <= k < i ==> same_expr(#[trigger] es@[k], out@[k]),
        decreases es.len() - i,
    {
        assert(decreases_to!(es => es@[i as int]));
        out.push(copy_expr(&es[i]));
        i += 1;
    }
    out
}

/// A copy of a list of named arguments.
fn copy_named(named: &Vec<NamedArg>) -> (r: Vec<NamedArg>)
    ensures
        same_named(*named, r),
    decreases named, 1int,
{
    let mut out: Vec<NamedArg> = Vec::new();
    let mut i: usize = 0;
    while i < named.len()
        invariant
            i <= named@.len(),
            out@.len() == i,
            forall|k: int|
                0 <= k < i ==> (#[trigger] named@[k]).field == out@[k].field && named@[k].span == out@[k].span
                    && same_expr(named@[k].value, out@[k].value),
        decreases named.len() - i,
    {
        assert(decreases_to!(named => named@[i as int].value));
        let n = &named[i];
        out.push(NamedArg { field: copy_ident(&n.field), value: copy_expr(&n.value), span: n.span });
        i += 1;
    }
    out
}

/// A copy of an atom.
fn copy_atom(a: &Atom) -> (r: Atom)
    ensures
        same_atom(*a, r),
    decreases a, 2int,
{
    let args = match &a.args {
        Args::Positional(es) => Args::Positional(copy_exprs(es)),
        Args::Named(named) => Args::Named(copy_named(named)),
    };
    Atom { predicate: copy_ident(&a.predicate), args, span: a.span }
}

/// A copy of a literal.
fn copy_literal(l: &Literal) -> (r: Literal)
    ensures
        same_literal(*l, r),
    decreases l, 2int,
{
    let kind = match &l.kind {
        LiteralKind::Atom { negated, atom } => LiteralKind::Atom { negated: *negated, atom: copy_atom(atom) },
        LiteralKind::Comparison(c) => LiteralKind::Comparison(
            Comparison { op: c.op, lhs: copy_expr(&c.lhs), rhs: copy_expr(&c.rhs) },
        ),
        LiteralKind::Presence { expr, negated } => LiteralKind::Presence {
            expr: copy_expr(expr),
            negated: *negated,
        },
    };
    Literal { kind, span: l.span }
}

/// A copy of a list of literals.
fn copy_literals(ls: &Vec<Literal>) -> (r: Vec<Literal>)
    ensures
        same_literals(*ls, r),
    decreases ls, 1int,
{
    let mut out: Vec<Literal> = Vec::new();
    let mut i: usize = 0;
    while i < ls.len()
        invariant
            i <= ls@.len(),
            out@.len() == i,
            forall|k: int| 0 <= k < i ==> same_literal(#[trigger] ls@[k], out@[k]),
        decreases ls.len() - i,
    {
        assert(decreases_to!(ls => ls@[i as int]));
        out.push(copy_literal(&ls[i]));
        i += 1;
    }
    out
}

/// The last token a parser consumed.
spec fn last_taken(p: Parser) -> TokenKind {
    p.tokens@[p.pos - 1].kind
}

impl Parser {
    /// The parser's standing facts: one `Eof`, at the end, and a position on a
    /// token.
    spec fn ok(&self) -> bool {
        &&& self.tokens@.len() >= 1
        &&& self.tokens@.last().kind == TokenKind::Eof
        &&& forall|i: int| 0 <= i < self.tokens@.len() - 1 ==> self.tokens@[i].kind != TokenKind::Eof
        &&& self.pos < self.tokens@.len()
        &&& forall|i: int| 0 <= i < self.errors@.len() ==> (#[trigger] self.errors@[i]).kind == ErrorKind::Parse
    }

    /// `next` continues from `prev`: same tokens, no step back, errors kept.
    spec fn follows(prev: Parser, next: Parser) -> bool {
        &&& next.ok()
        &&& next.tokens@ == prev.tokens@
        &&& prev.pos <= next.pos
        &&& prev.errors@.len() <= next.errors@.len()
    }

    spec fn remaining(&self) -> int {
        self.tokens@.len() - self.pos
    }

    fn kind(&self) -> (r: &TokenKind)
        requires
            self.ok(),
        ensures
            *r == self.tokens@[self.pos as int].kind,
    {
        &self.tokens[self.pos].kind
    }

    fn kind_at(&self, offset: usize) -> (r: &TokenKind)
        requires
            self.ok(),
        ensures
            self.pos + offset < self.tokens@.len() ==> *r == self.tokens@[self.pos + offset].kind,
            self.pos + offset >= self.tokens@.len() ==> *r == self.tokens@.last().kind,
    {
        if offset < self.tokens.len() - self.pos {
            &self.tokens[self.pos + offset].kind
        } else {
            &self.tokens[self.tokens.len() - 1].kind
        }
    }

    fn span(&self) -> (r: Span)
        requires
            self.ok(),
        ensures
            r == self.tokens@[self.pos as int].span,
    {
        self.tokens[self.pos].span
    }

    fn at_eof(&self) -> (r: bool)
        requires
            self.ok(),
        ensures
            r == (self.pos == self.tokens@.len() - 1),
    {
        matches!(self.kind(), TokenKind::Eof)
    }

    /// Steps past the current token (never past `Eof`), returning its span.
    fn bump(&mut self) -> (r: Span)
        requires
            old(self).ok(),
        ensures
            Parser::follows(*old(self), *final(self)),
            final(self).errors@ == old(self).errors@,
            old(self).pos < old(self).tokens@.len() - 1 ==> final(self).pos == old(self).pos + 1,
            old(self).pos == old(self).tokens@.len() - 1 ==> final(self).pos == old(self).pos,
            r == old(self).tokens@[old(self).pos as int].span,
    {
        let span = self.tokens[self.pos].span;
        let n = self.tokens.len();
        if !self.at_eof() {
            assert(self.pos < n);
            self.pos = self.pos + 1;
        }
        span
    }

    /// Records an error at `span`.
    fn error(&mut self, span: Span, message: String)
        requires
            old(self).ok(),
        ensures
            Parser::follows(*old(self), *final(self)),
            final(self).pos == old(self).pos,
            final(self).errors@.len() == old(self).errors@.len() + 1,
            final(self).errors@.drop_last() == old(self).errors@,
            final(self).errors@.last().message@ == spec_parse_message(message@, span),
    {
        let mut m = message;
        push_str(&mut m, " (at byte ");
        let n = crate::text::i64_text(span.start as i64);
        push_str(&mut m, n.as_str());
        push_str(&mut m, ")");
        self.errors.push(Error::parse(m));
    }

    fn error_str(&mut self, span: Span, message: &str)
        requires
            old(self).ok(),
        ensures
            Parser::follows(*old(self), *final(self)),
            final(self).pos == old(self).pos,
            final(self).errors@.len() == old(self).errors@.len() + 1,
            final(self).errors@.drop_last() == old(self).errors@,
            final(self).errors@.last().message@ == spec_parse_message(message@, span),
    {
        self.error(span, to_owned(message));
    }

    /// Reports that `expected` was wanted where the current token stands.
    fn error_expected(&mut self, expected: &str)
        requires
            old(self).ok(),
        ensures
            Parser::follows(*old(self), *final(self)),
            final(self).pos == old(self).pos,
            final(self).errors@.len() == old(self).errors@.len() + 1,
    {
        let found = describe(self.kind());
        let span = self.span();
        let mut m = to_owned("expected ");
        push_str(&mut m, expected);
        push_str(&mut m, ", found ");
        push_str(&mut m, found.as_str());
        self.error(span, m);
    }

    /// Consumes the expected punctuation, or reports what was wanted.
    fn expect(&mut self, p: Punct, expected: &str) -> (r: PResult<Span>)
        requires
            old(self).ok(),
        ensures
            Parser::follows(*old(self), *final(self)),
            r is Ok ==> final(self).pos > old(self).pos || old(self).pos == old(self).tokens@.len() - 1,
            old(self).tokens@[old(self).pos as int].kind@ == spec_punct(p) ==> r is Ok && final(self).errors@
                == old(self).errors@ && final(self).pos == old(self).pos + 1,
            r matches Ok(sp) ==> old(self).tokens@[old(self).pos as int].kind@ == spec_punct(p) && sp == old(
                self).tokens@[old(self).pos as int].span && final(self).pos == old(self).pos + 1,
            r is Err ==> final(self).pos == old(self).pos && final(self).errors@.len() == old(self).errors@.len()
                + 1,
    {
        if punct_is(self.kind(), p) {
            Ok(self.bump())
        } else {
            self.error_expected(expected);
            Err(())
        }
    }

    /// Consumes the punctuation if it is next.
    fn eat(&mut self, p: Punct) -> (r: bool)
        requires
            old(self).ok(),
        ensures
            Parser::follows(*old(self), *final(self)),
            final(self).errors@ == old(self).errors@,
            r ==> final(self).pos == old(self).pos + 1,
            !r ==> final(self).pos == old(self).pos,
            r == (old(self).tokens@[old(self).pos as int].kind@ == spec_punct(p) && old(self).pos < old(
                self).tokens@.len() - 1),
    {
        if punct_is(self.kind(), p) && !self.at_eof() {
            self.bump();
            true
        } else {
            false
        }
    }

    #[verifier::rlimit(100)]
    fn parse_program(&mut self) -> (r: Program)
        requires
            old(self).ok(),
        ensures
            Parser::follows(*old(self), *final(self)),
            spec_facts_from(token_views(old(self).tokens@), old(self).pos as int) matches Some(fs) ==> spec_is_facts(
                r,
                fs,
            ) && final(self).errors@ == old(self).errors@,
            spec_pieces_from(token_views(old(self).tokens@), old(self).pos as int) matches Some(ps)
                ==> spec_is_pieces(r, ps) && final(self).errors@ == old(self).errors@,
    {
        let ghost ts = token_views(self.tokens@);
        let ghost all = spec_facts_from(ts, self.pos as int);
        let ghost allp = spec_pieces_from(ts, self.pos as int);
        let mut statements: Vec<Statement> = Vec::new();
        while !self.at_eof()
            invariant
                Parser::follows(*old(self), *self),
                ts == token_views(self.tokens@),
                all == spec_facts_from(ts, old(self).pos as int),
                all matches Some(fs) ==> (spec_facts_from(ts, self.pos as int) matches Some(rest) && rest
                    == fs.skip(statements@.len() as int) && statements@.len() <= fs.len() && (forall|k: int|
                    0 <= k < statements@.len() ==> spec_is_fact(#[trigger] statements@[k], fs[k].0, fs[k].1))
                    && self.errors@ == old(self).errors@),
                allp == spec_pieces_from(ts, old(self).pos as int),
                allp matches Some(ps) ==> (spec_pieces_from(ts, self.pos as int) matches Some(rest) && rest
                    == ps.skip(statements@.len() as int) && statements@.len() <= ps.len() && (forall|k: int|
                    0 <= k < statements@.len() ==> spec_is_piece(#[trigger] statements@[k], ps[k]))
                    && self.errors@ == old(self).errors@),
            ensures
                all is Some ==> self.pos == self.tokens@.len() - 1,
                allp is Some ==> self.pos == self.tokens@.len() - 1,
            decreases self.remaining(),
        {
            let start = self.pos;
            let ghost before = statements@;
            let ghost here = spec_fact_at(ts, start as int);
            let ghost herep = spec_piece_at(ts, start as int);
            match self.parse_statement() {
                Ok(stmts) => {
                    let mut stmts = stmts;
                    let ghost added = stmts@;
                    statements.append(&mut stmts);
                    proof {
                        if let Some(fs) = all {
                            let (name, vs, e) = here->0;
                            let rest = spec_facts_from(ts, start as int)->0;
                            let rest2 = spec_facts_from(ts, e)->0;
                            assert(rest == seq![(name, vs)] + rest2);
                            assert(rest == fs.skip(before.len() as int));
                            assert(fs[before.len() as int] == rest[0]);
                            assert(rest2 =~= rest.skip(1));
                            assert(fs.skip(before.len() as int).skip(1) =~= fs.skip(before.len() + 1int));
                            assert(statements@.len() == before.len() + 1);
                            assert(rest2 =~= fs.skip(statements@.len() as int));
                            assert(statements@ == before + added);
                            assert forall|k: int| 0 <= k < statements@.len() implies spec_is_fact(
                                #[trigger] statements@[k],
                                fs[k].0,
                                fs[k].1,
                            ) by {
                                if k < before.len() {
                                    assert(statements@[k] == before[k]);
                                } else {
                                    assert(statements@[k] == added[0]);
                                }
                            }
                        }
                        if let Some(ps) = allp {
                            let (pieces, e) = herep->0;
                            let n = pieces.len() as int;
                            let b = before.len() as int;
                            let rest = spec_pieces_from(ts, start as int)->0;
                            let rest2 = spec_pieces_from(ts, e)->0;
                            assert(rest == pieces + rest2);
                            assert(rest == ps.skip(b));
                            assert forall|j: int| 0 <= j < n implies ps[b + j] == pieces[j] by {
                                assert(rest[j] == pieces[j]);
                            }
                            assert(rest2 =~= rest.skip(n));
                            assert(ps.skip(b).skip(n) =~= ps.skip(b + n));
                            assert(statements@.len() == b + n);
                            assert(rest2 =~= ps.skip(statements@.len() as int));
                            assert(statements@ == before + added);
                            assert forall|k: int| 0 <= k < statements@.len() implies spec_is_piece(
                                #[trigger] statements@[k],
                                ps[k],
                            ) by {
                                if k < b {
                                    assert(statements@[k] == before[k]);
                                } else {
                                    assert(statements@[k] == added[k - b]);
                                    assert(ps[b + (k - b)] == pieces[k - b]);
                                }
                            }
                        }
                    }
                },
                Err(()) => self.recover_to_next_statement(),
            }
            if self.pos == start && !self.at_eof() {
                self.bump();
            }
            if self.pos == start {
                break;
            }
        }
        proof {
            if let Some(fs) = all {
                let rest = spec_facts_from(ts, self.pos as int)->0;
                assert(ts.len() == self.tokens@.len());
                assert(rest.len() == 0);
                assert(statements@.len() == fs.len());
            }
            if let Some(ps) = allp {
                let rest = spec_pieces_from(ts, self.pos as int)->0;
                assert(ts.len() == self.tokens@.len());
                assert(rest.len() == 0);
                assert(statements@.len() == ps.len());
            }
        }
        Program { statements }
    }

    /// Skips tokens up to and including the next `.`.
    fn recover_to_next_statement(&mut self)
        requires
            old(self).ok(),
        ensures
            Parser::follows(*old(self), *final(self)),
            final(self).errors@ == old(self).errors@,
            (final(self).pos == final(self).tokens@.len() - 1 && forall|k: int|
                old(self).pos <= k < final(self).pos ==> !(#[trigger] final(self).tokens@[k].kind is Dot)) || (
            old(self).pos < final(self).pos && final(self).tokens@[final(self).pos - 1].kind is Dot && forall|k: int|
                old(self).pos <= k < final(self).pos - 1 ==> !(#[trigger] final(self).tokens@[k].kind is Dot)),
    {
        while !self.at_eof()
            invariant
                Parser::follows(*old(self), *self),
                self.errors@ == old(self).errors@,
                forall|k: int| old(self).pos <= k < self.pos ==> !(#[trigger] self.tokens@[k].kind is Dot),
            decreases self.remaining(),
        {
            let is_dot = matches!(self.kind(), TokenKind::Dot);
            self.bump();
            if is_dot {
                return;
            }
        }
    }

    /// One statement; a disjunctive rule yields one statement per disjunct.
    fn parse_statement(&mut self) -> (r: PResult<Vec<Statement>>)
        requires
            old(self).ok(),
        ensures
            Parser::follows(*old(self), *final(self)),
            r is Err ==> final(self).errors@.len() > old(self).errors@.len(),
            spec_fact_at(token_views(old(self).tokens@), old(self).pos as int) matches Some((name, vs, e))
                ==> r matches Ok(stmts) && stmts@.len() == 1 && spec_is_fact(stmts@[0], name, vs) && final(
                self).pos == e && final(self).errors@ == old(self).errors@,
            spec_piece_at(token_views(old(self).tokens@), old(self).pos as int) matches Some((pieces, e))
                ==> r matches Ok(stmts) && stmts@.len() == pieces.len() && (forall|k: int|
                0 <= k < pieces.len() ==> spec_is_piece(#[trigger] stmts@[k], pieces[k])) && final(self).pos == e
                && final(self).errors@ == old(self).errors@,
    {
        proof {
            assert(token_views(self.tokens@)[self.pos as int] == self.tokens@[self.pos as int].kind@);
        }
        match self.kind() {
            TokenKind::Import => {
                let s = self.parse_import()?;
                Ok(vec![s])
            },
            TokenKind::Declare => {
                let s = self.parse_declare()?;
                Ok(vec![s])
            },
            TokenKind::QuestionDash => {
                let s = self.parse_query()?;
                Ok(vec![s])
            },
            _ => self.parse_clause(),
        }
    }

    fn expect_string(&mut self, expected: &str) -> (r: PResult<(String, Span)>)
        requires
            old(self).ok(),
        ensures
            Parser::follows(*old(self), *final(self)),
            r is Err ==> final(self).errors@.len() > old(self).errors@.len(),
            old(self).tokens@[old(self).pos as int].kind matches TokenKind::Str(t) ==> r matches Ok((x, sp))
                && x@ == t@ && sp == old(self).tokens@[old(self).pos as int].span && final(self).pos == old(
                self).pos + 1 && final(self).errors@ == old(self).errors@,
            !(old(self).tokens@[old(self).pos as int].kind is Str) ==> r is Err && final(self).pos == old(
                self).pos && final(self).errors@.len() == old(self).errors@.len() + 1,
    {
        let found = match self.kind() {
            TokenKind::Str(s) => Some(to_owned(s.as_str())),
            _ => None,
        };
        match found {
            Some(s) => {
                let span = self.bump();
                Ok((s, span))
            },
            None => {
                self.error_expected(expected);
                Err(())
            },
        }
    }

    fn parse_import(&mut self) -> (r: PResult<Statement>)
        requires
            old(self).ok(),
        ensures
            Parser::follows(*old(self), *final(self)),
            r is Err ==> final(self).errors@.len() > old(self).errors@.len(),
            spec_import_end(token_views(old(self).tokens@), old(self).pos as int) matches Some(e) ==> r is Ok
                && final(self).pos == e && final(self).errors@ == old(self).errors@,
            r matches Ok(st) ==> st.kind matches StatementKind::Import(im) && old(self).tokens@[old(self).pos + 1].kind
                matches TokenKind::Str(t) && im.path@ == t@ && im.path_span == old(self).tokens@[old(self).pos
                + 1].span && (im.kind is Module <==> old(self).tokens@[old(self).pos + 2].kind is Dot) && last_taken(
                *final(self),
            ) is Dot && st.span == spec_join(old(self).tokens@[old(self).pos as int].span, final(self).tokens@[final(
                self).pos - 1].span),
    {
        let start = self.span();
        self.bump();
        let (path, path_span) = self.expect_string("a quoted path after `import`")?;
        if matches!(self.kind(), TokenKind::Dot) {
            let end = self.bump();
            return Ok(
                Statement {
                    kind: StatementKind::Import(Import { path, path_span, kind: ImportKind::Module }),
                    span: join(start, end),
                },
            );
        }
        let is_table = match self.kind() {
            TokenKind::Ident(name) => crate::text::str_equal(name.as_str(), "table"),
            _ => false,
        };
        let table = if is_table {
            self.bump();
            let (name, span) = self.expect_string("a quoted table name after `table`")?;
            Some((name, span))
        } else {
            None
        };
        self.expect(Punct::As, "`as` after the import path (or `.` for a module import)")?;
        let relation = self.expect_relation_name("a relation name after `as`")?;
        let schema = if self.eat(Punct::LParen) {
            Some(self.parse_field_list()?)
        } else {
            None
        };
        let end = self.expect(Punct::Dot, "`.` to end the import")?;
        Ok(
            Statement {
                kind: StatementKind::Import(
                    Import { path, path_span, kind: ImportKind::Data { table, relation, schema } },
                ),
                span: join(start, end),
            },
        )
    }

    fn parse_declare(&mut self) -> (r: PResult<Statement>)
        requires
            old(self).ok(),
        ensures
            Parser::follows(*old(self), *final(self)),
            r is Err ==> final(self).errors@.len() > old(self).errors@.len(),
            spec_declare_end(token_views(old(self).tokens@), old(self).pos as int) matches Some(e) ==> r is Ok
                && final(self).pos == e && final(self).errors@ == old(self).errors@,
            r matches Ok(st) ==> st.kind matches StatementKind::Declare(d) && d.fields@.len() >= 1 && last_taken(
                *final(self),
            ) is Dot && st.span == spec_join(old(self).tokens@[old(self).pos as int].span, final(self).tokens@[final(
                self).pos - 1].span),
    {
        let start = self.span();
        self.bump();
        let relation = self.expect_relation_name("a relation name after `declare`")?;
        self.expect(Punct::LParen, "`(` after the relation name")?;
        let fields = self.parse_field_list()?;
        let end = self.expect(Punct::Dot, "`.` to end the declaration")?;
        Ok(
            Statement {
                kind: StatementKind::Declare(Declaration { relation, fields }),
                span: join(start, end),
            },
        )
    }

    /// `field { "," field } ")"`, consuming the closing parenthesis.
    fn parse_field_list(&mut self) -> (r: PResult<Vec<FieldDecl>>)
        requires
            old(self).ok(),
        ensures
            Parser::follows(*old(self), *final(self)),
            r is Err ==> final(self).errors@.len() > old(self).errors@.len(),
            spec_field_list_end(token_views(old(self).tokens@), old(self).pos as int) matches Some(e) ==> r is Ok
                && final(self).pos == e && final(self).errors@ == old(self).errors@,
            r matches Ok(fields) ==> fields@.len() >= 1 && final(self).pos > old(self).pos && last_taken(*final(self))
                is RParen,
    {
        let ghost ts = token_views(self.tokens@);
        let ghost target = spec_field_list_end(ts, self.pos as int);
        let mut fields: Vec<FieldDecl> = Vec::new();
        proof {
            assert(ts[self.pos as int] == self.tokens@[self.pos as int].kind@);
        }
        if matches!(self.kind(), TokenKind::RParen) {
            self.error_expected("at least one field name");
            self.bump();
            return Err(());
        }
        loop
            invariant_except_break
                target is Some ==> spec_field_list_end(ts, self.pos as int) == target && self.errors@ == old(
                    self).errors@,
            invariant
                Parser::follows(*old(self), *self),
                ts == token_views(self.tokens@),
                target == spec_field_list_end(ts, old(self).pos as int),
            ensures
                fields@.len() >= 1,
                target is Some ==> self.errors@ == old(self).errors@ && ts[self.pos as int] == TokenView::RParen
                    && target == Some(self.pos + 1),
            decreases self.remaining(),
        {
            let before = self.pos;
            let field = self.parse_field()?;
            fields.push(field);
            proof {
                assert(ts[self.pos as int] == self.tokens@[self.pos as int].kind@);
                if self.pos + 1 < ts.len() {
                    assert(ts[self.pos + 1] == self.tokens@[self.pos + 1].kind@);
                }
            }
            if self.eat(Punct::Comma) {
                if matches!(self.kind(), TokenKind::RParen) {
                    let span = self.span();
                    self.error_str(span, "trailing `,` in the field list");
                    return Err(());
                }
                if self.pos <= before {
                    return Err(());
                }
                continue;
            }
            break;
        }
        self.expect(Punct::RParen, "`)` to close the field list")?;
        Ok(fields)
    }

    fn parse_field(&mut self) -> (r: PResult<FieldDecl>)
        requires
            old(self).ok(),
        ensures
            Parser::follows(*old(self), *final(self)),
            r is Err ==> final(self).errors@.len() > old(self).errors@.len(),
            spec_field_at(token_views(old(self).tokens@), old(self).pos as int) matches Some(e) ==> r is Ok
                && final(self).pos == e && final(self).errors@ == old(self).errors@,
            r matches Ok(f) ==> old(self).tokens@[old(self).pos as int].kind matches TokenKind::Ident(n) && f.name.name@
                == n@ && (f.ty is Some <==> old(self).tokens@[old(self).pos + 1].kind is Colon) && (f.ty matches Some(t)
                ==> old(self).tokens@[old(self).pos + 2].kind matches TokenKind::Ident(m) && crate::ast::spec_type_keyword(
                t) == m@) && f.span == spec_join(f.name.span, final(self).tokens@[final(self).pos - 1].span)
                && final(self).pos > old(self).pos,
    {
        let name = self.expect_lowercase_ident("a field name")?;
        let span_start = name.span;
        let (ty, end) = if self.eat(Punct::Colon) {
            let (ty, span) = self.parse_type()?;
            (Some(ty), span)
        } else {
            (None, name.span)
        };
        Ok(FieldDecl { name, ty, span: join(span_start, end) })
    }

    /// A type name: contextual identifiers, recognized only here.
    fn parse_type(&mut self) -> (r: PResult<(TypeName, Span)>)
        requires
            old(self).ok(),
        ensures
            Parser::follows(*old(self), *final(self)),
            r is Err ==> final(self).errors@.len() > old(self).errors@.len(),
            match old(self).tokens@[old(self).pos as int].kind {
                TokenKind::Ident(name) => if exists|t: TypeName| crate::ast::spec_type_keyword(t) == name@ {
                    r matches Ok((t, sp)) && crate::ast::spec_type_keyword(t) == name@ && sp == old(
                        self).tokens@[old(self).pos as int].span && final(self).pos == old(self).pos + 1
                        && final(self).errors@ == old(self).errors@
                } else {
                    r is Err && final(self).pos == old(self).pos && final(self).errors@.len() == old(
                        self).errors@.len() + 1
                },
                _ => r is Err && final(self).pos == old(self).pos && final(self).errors@.len() == old(
                    self).errors@.len() + 1,
            },
    {
        let span = self.span();
        let ty = match self.kind() {
            TokenKind::Ident(name) => type_named(name.as_str()),
            _ => None,
        };
        if let Some(ty) = ty {
            self.bump();
            return Ok((ty, span));
        }
        self.error_expected("a type name (int, float, string, symbol, bool, date, timestamp, or duration)");
        Err(())
    }

    fn parse_query(&mut self) -> (r: PResult<Statement>)
        requires
            old(self).ok(),
        ensures
            spec_query_at(token_views(old(self).tokens@), old(self).pos as int) matches Some((atoms, e)) ==> (r matches Ok(
                st,
            ) && spec_is_query(st, atoms) && final(self).pos == e && final(self).errors@ == old(self).errors@),
            Parser::follows(*old(self), *final(self)),
            r is Err ==> final(self).errors@.len() > old(self).errors@.len(),
            r matches Ok(st) ==> st.kind matches StatementKind::Query(q) && q.body@.len() >= 1 && last_taken(
                *final(self),
            ) is Dot && q.span == st.span && st.span == spec_join(old(self).tokens@[old(self).pos as int].span, final(
                self).tokens@[final(self).pos - 1].span),
    {
        let ghost ts = token_views(self.tokens@);
        let ghost target = spec_query_at(ts, self.pos as int);
        proof {
            if target is Some {
                lemma_atoms_end(ts, self.pos + 1);
                assert(ts[self.pos as int] == self.tokens@[self.pos as int].kind@);
                assert(ts[self.pos + 1] == self.tokens@[self.pos + 1].kind@);
                assert(ts[self.pos + 2] == self.tokens@[self.pos + 2].kind@);
            }
        }
        let start = self.span();
        self.bump();
        let named = match (self.kind(), self.kind_at(1)) {
            (TokenKind::Ident(_), TokenKind::Colon) => true,
            _ => false,
        };
        let name = if named {
            let ident = self.expect_lowercase_ident("a query name")?;
            self.bump();
            Some(ident)
        } else {
            None
        };
        let body = self.parse_conjunction()?;
        proof {
            if let Some((_, e)) = target {
                assert(ts[e - 1] == self.tokens@[e - 1].kind@);
            }
        }
        if matches!(self.kind(), TokenKind::Semi) {
            let span = self.span();
            self.error_str(
                span,
                "disjunction `;` is not supported in queries; split into separate queries",
            );
            return Err(());
        }
        let end = self.expect(Punct::Dot, "`.` to end the query")?;
        let span = join(start, end);
        Ok(Statement { kind: StatementKind::Query(Query { name, body, span }), span })
    }

    /// A fact or a rule; a disjunctive body yields one clause per disjunct.
    fn parse_clause(&mut self) -> (r: PResult<Vec<Statement>>)
        requires
            old(self).ok(),
        ensures
            Parser::follows(*old(self), *final(self)),
            r is Err ==> final(self).errors@.len() > old(self).errors@.len(),
            spec_fact_at(token_views(old(self).tokens@), old(self).pos as int) matches Some((name, vs, e))
                ==> r matches Ok(stmts) && stmts@.len() == 1 && spec_is_fact(stmts@[0], name, vs) && final(
                self).pos == e && final(self).errors@ == old(self).errors@,
            spec_rule_at(token_views(old(self).tokens@), old(self).pos as int) matches Some((head, bodies, e))
                ==> r matches Ok(stmts) && stmts@.len() == bodies.len() && (forall|k: int|
                0 <= k < bodies.len() ==> spec_is_rule(#[trigger] stmts@[k], head, bodies[k])) && final(self).pos
                == e && final(self).errors@ == old(self).errors@,
    {
        let ghost ts = token_views(self.tokens@);
        let ghost target = spec_fact_at(ts, self.pos as int);
        let ghost rule = spec_rule_at(ts, self.pos as int);
        let head = self.parse_atom()?;
        proof {
            if target is Some || rule is Some {
                assert(ts[self.pos as int] == self.tokens@[self.pos as int].kind@);
            }
        }
        let start = head.span;
        match self.kind() {
            TokenKind::Dot => {
                let end = self.bump();
                let span = join(start, end);
                Ok(vec![Statement { kind: StatementKind::Clause(Clause { head, body: Vec::new(), span }), span }])
            },
            TokenKind::ColonDash => {
                self.bump();
                let disjuncts = self.parse_body()?;
                proof {
                    if let Some((_, _, e)) = rule {
                        let (_, _, e0) = spec_arg_atom_at(ts, old(self).pos as int)->0;
                        lemma_disjuncts_end(ts, e0 + 1);
                        assert(ts[e - 1] == self.tokens@[e - 1].kind@);
                    }
                }
                let end = self.expect(Punct::Dot, "`.` to end the rule")?;
                let span = join(start, end);
                let mut out: Vec<Statement> = Vec::new();
                let mut disjuncts = disjuncts;
                let ghost n = disjuncts@.len();
                while disjuncts.len() > 0
                    invariant
                        out@.len() + disjuncts@.len() == n,
                        rule matches Some((h, bodies, _)) ==> n == bodies.len() && spec_is_arg_atom(head, h.0, h.1) && (
                        forall|j: int|
                            0 <= j < disjuncts@.len() ==> spec_is_body_literals(
                                (#[trigger] disjuncts@[j])@,
                                bodies[out@.len() + j],
                            )) && (forall|k: int| 0 <= k < out@.len() ==> spec_is_rule(#[trigger] out@[k], h, bodies[k])),
                    decreases disjuncts.len(),
                {
                    let ghost d0 = disjuncts@;
                    let ghost o0 = out@;
                    let body = disjuncts.remove(0);
                    let h = copy_atom(&head);
                    proof {
                        if let Some((hd, _, _)) = rule {
                            lemma_same_arg_atom(head, h, hd.0, hd.1);
                            assert(body == d0[0]);
                            assert forall|j: int| 0 <= j < disjuncts@.len() implies disjuncts@[j] == d0[j + 1] by {}
                        }
                    }
                    out.push(
                        Statement {
                            kind: StatementKind::Clause(Clause { head: h, body, span }),
                            span,
                        },
                    );
                    proof {
                        if let Some((hd, bodies, _)) = rule {
                            assert forall|k: int| 0 <= k < out@.len() implies spec_is_rule(#[trigger] out@[k], hd, bodies[k]) by {
                                if k < o0.len() {
                                    assert(out@[k] == o0[k]);
                                }
                            }
                            assert forall|j: int| 0 <= j < disjuncts@.len() implies spec_is_body_literals(
                                (#[trigger] disjuncts@[j])@,
                                bodies[out@.len() + j],
                            ) by {
                                assert(disjuncts@[j] == d0[j + 1]);
                            }
                        }
                    }
                }
                Ok(out)
            },
            _ => {
                self.error_expected("`.` for a fact or `:-` for a rule after the head");
                Err(())
            },
        }
    }

    /// A rule body: conjunctions separated by `;`.
    fn parse_body(&mut self) -> (r: PResult<Vec<Vec<Literal>>>)
        requires
            old(self).ok(),
        ensures
            Parser::follows(*old(self), *final(self)),
            r is Err ==> final(self).errors@.len() > old(self).errors@.len(),
            r matches Ok(ds) ==> ds@.len() >= 1 && forall|k: int| 0 <= k < ds@.len() ==> (#[trigger] ds@[k])@.len()
                >= 1,
            spec_disjuncts_from(token_views(old(self).tokens@), old(self).pos as int) matches Some((bodies, end))
                ==> r matches Ok(ds) && spec_is_bodies(ds@, bodies) && final(self).pos == end && final(self).errors@
                == old(self).errors@,
    {
        let ghost ts = token_views(self.tokens@);
        let ghost all = spec_disjuncts_from(ts, self.pos as int);
        proof {
            lemma_atoms_end(ts, self.pos as int);
            if let Some((bodies, end)) = all {
                let (c, e) = spec_atoms_from(ts, self.pos as int)->0;
                if ts[e] != TokenView::Dot {
                    let (rest, _) = spec_disjuncts_from(ts, e + 1)->0;
                    assert(bodies.skip(1) =~= rest);
                }
            }
        }
        let first = self.parse_conjunction()?;
        let mut disjuncts = vec![first];
        while matches!(self.kind(), TokenKind::Semi) && !self.at_eof()
            invariant
                Parser::follows(*old(self), *self),
                disjuncts@.len() >= 1,
                forall|k: int| 0 <= k < disjuncts@.len() ==> (#[trigger] disjuncts@[k])@.len() >= 1,
                ts == token_views(self.tokens@),
                all == spec_disjuncts_from(ts, old(self).pos as int),
                all matches Some((bodies, end)) ==> disjuncts@.len() <= bodies.len() && (forall|k: int|
                    0 <= k < disjuncts@.len() ==> spec_is_body_literals((#[trigger] disjuncts@[k])@, bodies[k]))
                    && self.errors@ == old(self).errors@ && (if disjuncts@.len() == bodies.len() {
                    self.pos == end && ts[end] == TokenView::Dot
                } else {
                    self.pos + 1 < ts.len() && ts[self.pos as int] == TokenView::Semi && spec_disjuncts_from(
                        ts,
                        self.pos + 1,
                    ) == Some((bodies.skip(disjuncts@.len() as int), end))
                }),
            decreases self.remaining(),
        {
            proof {
                assert(ts[self.pos as int] == self.tokens@[self.pos as int].kind@);
            }
            self.bump();
            let ghost q = self.pos as int;
            let ghost before = disjuncts@;
            proof {
                lemma_atoms_end(ts, q);
            }
            let c = self.parse_conjunction()?;
            disjuncts.push(c);
            proof {
                if let Some((bodies, end)) = all {
                    let k = before.len() as int;
                    let rest = bodies.skip(k);
                    let (cv, e) = spec_atoms_from(ts, q)->0;
                    assert(rest[0] == cv);
                    assert(bodies[k] == rest[0]);
                    assert(disjuncts@[k] == c);
                    assert forall|j: int| 0 <= j < disjuncts@.len() implies spec_is_body_literals(
                        (#[trigger] disjuncts@[j])@,
                        bodies[j],
                    ) by {
                        if j < k {
                            assert(disjuncts@[j] == before[j]);
                        }
                    }
                    if ts[e] == TokenView::Dot {
                        assert(rest.len() == 1);
                    } else {
                        let (rest2, _) = spec_disjuncts_from(ts, e + 1)->0;
                        assert(rest.skip(1) =~= rest2);
                        assert(bodies.skip(k + 1) =~= rest.skip(1));
                    }
                }
            }
        }
        proof {
            if let Some((bodies, end)) = all {
                if disjuncts@.len() != bodies.len() {
                    assert(self.tokens@[self.pos as int].kind@ == ts[self.pos as int]);
                }
            }
        }
        Ok(disjuncts)
    }

    fn parse_conjunction(&mut self) -> (r: PResult<Vec<Literal>>)
        requires
            old(self).ok(),
        ensures
            Parser::follows(*old(self), *final(self)),
            r is Err ==> final(self).errors@.len() > old(self).errors@.len(),
            r matches Ok(ls) ==> ls@.len() >= 1,
            spec_atoms_from(token_views(old(self).tokens@), old(self).pos as int) matches Some((atoms, end))
                ==> r matches Ok(ls) && spec_is_body_literals(ls@, atoms) && final(self).pos == end && final(
                self).errors@ == old(self).errors@,
        decreases old(self).remaining(), 9int,
    {
        let ghost ts = token_views(self.tokens@);
        let ghost all = spec_atoms_from(ts, self.pos as int);
        let first = self.parse_literal()?;
        let mut literals = vec![first];
        proof {
            if let Some((atoms, end)) = all {
                let (lv, e) = spec_lit_at(ts, old(self).pos as int)->0;
                assert(literals@[0] == first);
                if ts[e] != TokenView::Dot && ts[e] != TokenView::Semi {
                    let (rest, _) = spec_atoms_from(ts, e + 1)->0;
                    assert(atoms.skip(1) =~= rest);
                }
            }
        }
        while self.eat(Punct::Comma)
            invariant
                Parser::follows(*old(self), *self),
                literals@.len() >= 1,
                ts == token_views(self.tokens@),
                all == spec_atoms_from(ts, old(self).pos as int),
                all matches Some((atoms, end)) ==> literals@.len() <= atoms.len() && (forall|k: int|
                    0 <= k < literals@.len() ==> spec_is_body_literal(#[trigger] literals@[k], atoms[k])) && self.errors@ == old(self).errors@ && (if literals@.len() == atoms.len() {
                    self.pos == end && (ts[end] == TokenView::Dot || ts[end] == TokenView::Semi)
                } else {
                    self.pos + 1 < ts.len() && ts[self.pos as int] == TokenView::Comma && ts[self.pos + 1] != TokenView::Dot
                        && ts[self.pos + 1] != TokenView::Semi
                        && spec_atoms_from(ts, self.pos + 1) == Some((atoms.skip(literals@.len() as int), end))
                }),
            decreases self.remaining(),
        {
            proof {
                assert(ts[self.pos as int] == self.tokens@[self.pos as int].kind@);
            }
            if matches!(self.kind(), TokenKind::Dot | TokenKind::Semi) {
                let span = self.span();
                self.error_str(span, "trailing `,` in the body");
                return Err(());
            }
            let ghost q = self.pos as int;
            let ghost before = literals@;
            let lit = self.parse_literal()?;
            literals.push(lit);
            proof {
                if let Some((atoms, end)) = all {
                    let k = before.len() as int;
                    let rest = atoms.skip(k);
                    let (lv, e) = spec_lit_at(ts, q)->0;
                    assert(rest[0] == lv);
                    assert(atoms[k] == rest[0]);
                    assert(literals@[k] == lit);
                    assert forall|j: int| 0 <= j < literals@.len() implies spec_is_body_literal(
                        #[trigger] literals@[j],
                        atoms[j],
                    ) by {
                        if j < k {
                            assert(literals@[j] == before[j]);
                        }
                    }
                    if ts[e] == TokenView::Dot || ts[e] == TokenView::Semi {
                        assert(rest.len() == 1);
                    } else {
                        let (rest2, _) = spec_atoms_from(ts, e + 1)->0;
                        assert(rest.skip(1) =~= rest2);
                        assert(atoms.skip(k + 1) =~= rest.skip(1));
                    }
                }
            }
        }
        proof {
            if let Some((atoms, end)) = all {
                if literals@.len() != atoms.len() {
                    assert(self.tokens@[self.pos as int].kind@ == ts[self.pos as int]);
                }
            }
        }
        Ok(literals)
    }

    fn parse_literal(&mut self) -> (r: PResult<Literal>)
        requires
            old(self).ok(),
        ensures
            Parser::follows(*old(self), *final(self)),
            r is Err ==> final(self).errors@.len() > old(self).errors@.len(),
            r matches Ok(l) ==> if old(self).tokens@[old(self).pos as int].kind is Not {
                l.kind matches LiteralKind::Atom { negated, .. } && negated
            } else if old(self).tokens@[old(self).pos as int].kind is Ident && old(self).pos + 1 < old(
                self).tokens@.len() && old(self).tokens@[old(self).pos + 1].kind is LParen {
                l.kind matches LiteralKind::Atom { negated, atom } && !negated && l.span == atom.span
            } else {
                l.kind is Comparison || l.kind is Presence
            },
            spec_lit_at(token_views(old(self).tokens@), old(self).pos as int) matches Some((lv, e))
                ==> r matches Ok(l) && spec_is_body_literal(l, lv) && final(self).pos == e && final(
                self).errors@ == old(self).errors@,
        decreases old(self).remaining(), 8int,
    {
        proof {
            assert(token_views(self.tokens@)[self.pos as int] == self.tokens@[self.pos as int].kind@);
            if self.pos + 1 < self.tokens@.len() {
                assert(token_views(self.tokens@)[self.pos + 1] == self.tokens@[self.pos + 1].kind@);
            }
        }
        if matches!(self.kind(), TokenKind::Not) {
            let start = self.span();
            self.bump();
            let is_atom = match (self.kind(), self.kind_at(1)) {
                (TokenKind::Ident(_), TokenKind::LParen) => true,
                _ => false,
            };
            if !is_atom {
                self.error_expected("an atom after `not` (negation applies to atoms, not comparisons)");
                return Err(());
            }
            let atom = self.parse_atom()?;
            let span = join(start, atom.span);
            return Ok(Literal { kind: LiteralKind::Atom { negated: true, atom }, span });
        }
        let is_atom = match (self.kind(), self.kind_at(1)) {
            (TokenKind::Ident(_), TokenKind::LParen) => true,
            _ => false,
        };
        if is_atom {
            let atom = self.parse_atom()?;
            let span = atom.span;
            return Ok(Literal { kind: LiteralKind::Atom { negated: false, atom }, span });
        }
        let (kind, span) = self.parse_comparison_or_presence()?;
        Ok(Literal { kind, span })
    }

    /// A comparison `e op e`, or a presence test `e is [not] absent`.
    fn parse_comparison_or_presence(&mut self) -> (r: PResult<(LiteralKind, Span)>)
        requires
            old(self).ok(),
        ensures
            Parser::follows(*old(self), *final(self)),
            r is Err ==> final(self).errors@.len() > old(self).errors@.len(),
            r matches Ok((k, sp)) ==> match k {
                LiteralKind::Presence { expr, .. } => last_taken(*final(self)) is Absent && sp == spec_join(
                    expr.span,
                    final(self).tokens@[final(self).pos - 1].span,
                ),
                LiteralKind::Comparison(c) => sp == spec_join(c.lhs.span, c.rhs.span),
                _ => false,
            },
            spec_comparison_at(token_views(old(self).tokens@), old(self).pos as int) matches Some((a, op, b, e)) ==> (r matches Ok(
                (k, _),
            ) && spec_is_comparison(k, a, op, b) && final(self).pos == e && final(self).errors@ == old(self).errors@),
        decreases old(self).remaining(), 7int,
    {
        let ghost ts = token_views(self.tokens@);
        let ghost target = spec_comparison_at(ts, self.pos as int);
        proof {
            if let Some((_, _, _, e2)) = target {
                let (_, e1) = spec_arg_at(ts, self.pos as int)->0;
                assert(ts[e1] == self.tokens@[e1].kind@);
                assert(ts[e2] == self.tokens@[e2].kind@);
                assert(spec_stop_arg(ts, self.pos as int) is Some);
            }
        }
        let lhs = self.parse_expr()?;
        if matches!(self.kind(), TokenKind::Is) {
            self.bump();
            let negated = matches!(self.kind(), TokenKind::Not);
            if negated {
                self.bump();
            }
            let absent_span = self.span();
            if !matches!(self.kind(), TokenKind::Absent) {
                self.error_expected("`absent` (the only presence test is `is absent` / `is not absent`)");
                return Err(());
            }
            self.bump();
            let span = join(lhs.span, absent_span);
            return Ok((LiteralKind::Presence { expr: lhs, negated }, span));
        }
        let op = match comparison_op(self.kind()) {
            Some(op) => op,
            None => {
                self.error_expected("a comparison operator (=, !=, <, <=, >, >=) or `is [not] absent`");
                return Err(());
            },
        };
        self.bump();
        let rhs = self.parse_expr()?;
        if comparison_op(self.kind()).is_some() || matches!(self.kind(), TokenKind::Is) {
            let span = self.span();
            self.error_str(span, "comparisons do not chain; write `a <= b, b <= c` instead of `a <= b <= c`");
            return Err(());
        }
        let span = join(lhs.span, rhs.span);
        Ok((LiteralKind::Comparison(Comparison { op, lhs, rhs }), span))
    }

    fn parse_expr(&mut self) -> (r: PResult<Expr>)
        requires
            old(self).ok(),
        ensures
            Parser::follows(*old(self), *final(self)),
            r is Err ==> final(self).errors@.len() > old(self).errors@.len(),
            spec_closed_constant(token_views(old(self).tokens@), old(self).pos as int) matches Some((v, e))
                ==> r matches Ok(x) && spec_expr_value(x) == Some(v) && final(self).pos == e && final(self).errors@ == old(self).errors@,
            spec_closed_arg(token_views(old(self).tokens@), old(self).pos as int) matches Some((v, e))
                ==> r matches Ok(x) && spec_expr_arg(x) == Some(v) && final(self).pos == e && final(self).errors@ == old(self).errors@,
            spec_stop_arg(token_views(old(self).tokens@), old(self).pos as int) matches Some((v, e))
                ==> r matches Ok(x) && spec_expr_arg(x) == Some(v) && final(self).pos == e && final(self).errors@ == old(self).errors@,
        decreases old(self).remaining(), 6int,
    {
        self.parse_additive()
    }

    fn parse_additive(&mut self) -> (r: PResult<Expr>)
        requires
            old(self).ok(),
        ensures
            Parser::follows(*old(self), *final(self)),
            r is Err ==> final(self).errors@.len() > old(self).errors@.len(),
            spec_closed_constant(token_views(old(self).tokens@), old(self).pos as int) matches Some((v, e))
                ==> r matches Ok(x) && spec_expr_value(x) == Some(v) && final(self).pos == e && final(self).errors@ == old(self).errors@,
            spec_closed_arg(token_views(old(self).tokens@), old(self).pos as int) matches Some((v, e))
                ==> r matches Ok(x) && spec_expr_arg(x) == Some(v) && final(self).pos == e && final(self).errors@ == old(self).errors@,
            spec_stop_arg(token_views(old(self).tokens@), old(self).pos as int) matches Some((v, e))
                ==> r matches Ok(x) && spec_expr_arg(x) == Some(v) && final(self).pos == e && final(self).errors@ == old(self).errors@,
        decreases old(self).remaining(), 5int,
    {
        let ghost c = spec_closed_constant(token_views(self.tokens@), self.pos as int);
        let ghost ca = spec_closed_arg(token_views(self.tokens@), self.pos as int);
        let ghost cs = spec_stop_arg(token_views(self.tokens@), self.pos as int);
        let mut lhs = self.parse_multiplicative()?;
        loop
            invariant
                Parser::follows(*old(self), *self),
                c == spec_closed_constant(token_views(old(self).tokens@), old(self).pos as int),
                ca == spec_closed_arg(token_views(old(self).tokens@), old(self).pos as int),
                ca matches Some((v, e)) ==> spec_expr_arg(lhs) == Some(v) && self.pos == e && self.errors@
                    == old(self).errors@,
                cs == spec_stop_arg(token_views(old(self).tokens@), old(self).pos as int),
                cs matches Some((v, e)) ==> spec_expr_arg(lhs) == Some(v) && self.pos == e && self.errors@
                    == old(self).errors@,
                c matches Some((v, e)) ==> spec_expr_value(lhs) == Some(v) && self.pos == e && self.errors@
                    == old(self).errors@,
            decreases self.remaining(),
        {
            let op = match self.kind() {
                TokenKind::Plus => ArithOp::Add,
                TokenKind::Minus => ArithOp::Sub,
                _ => break,
            };
            self.bump();
            let rhs = self.parse_multiplicative()?;
            lhs = fold_binary(op, lhs, rhs);
        }
        Ok(lhs)
    }

    fn parse_multiplicative(&mut self) -> (r: PResult<Expr>)
        requires
            old(self).ok(),
        ensures
            Parser::follows(*old(self), *final(self)),
            r is Err ==> final(self).errors@.len() > old(self).errors@.len(),
            spec_closed_constant(token_views(old(self).tokens@), old(self).pos as int) matches Some((v, e))
                ==> r matches Ok(x) && spec_expr_value(x) == Some(v) && final(self).pos == e && final(self).errors@ == old(self).errors@,
            spec_closed_arg(token_views(old(self).tokens@), old(self).pos as int) matches Some((v, e))
                ==> r matches Ok(x) && spec_expr_arg(x) == Some(v) && final(self).pos == e && final(self).errors@ == old(self).errors@,
            spec_stop_arg(token_views(old(self).tokens@), old(self).pos as int) matches Some((v, e))
                ==> r matches Ok(x) && spec_expr_arg(x) == Some(v) && final(self).pos == e && final(self).errors@ == old(self).errors@,
        decreases old(self).remaining(), 4int,
    {
        let ghost c = spec_closed_constant(token_views(self.tokens@), self.pos as int);
        let ghost ca = spec_closed_arg(token_views(self.tokens@), self.pos as int);
        let ghost cs = spec_stop_arg(token_views(self.tokens@), self.pos as int);
        let mut lhs = self.parse_cast()?;
        loop
            invariant
                Parser::follows(*old(self), *self),
                c == spec_closed_constant(token_views(old(self).tokens@), old(self).pos as int),
                ca == spec_closed_arg(token_views(old(self).tokens@), old(self).pos as int),
                ca matches Some((v, e)) ==> spec_expr_arg(lhs) == Some(v) && self.pos == e && self.errors@
                    == old(self).errors@,
                cs == spec_stop_arg(token_views(old(self).tokens@), old(self).pos as int),
                cs matches Some((v, e)) ==> spec_expr_arg(lhs) == Some(v) && self.pos == e && self.errors@
                    == old(self).errors@,
                c matches Some((v, e)) ==> spec_expr_value(lhs) == Some(v) && self.pos == e && self.errors@
                    == old(self).errors@,
            decreases self.remaining(),
        {
            let op = match self.kind() {
                TokenKind::Star => ArithOp::Mul,
                TokenKind::Slash => ArithOp::Div,
                _ => break,
            };
            self.bump();
            let rhs = self.parse_cast()?;
            lhs = fold_binary(op, lhs, rhs);
        }
        Ok(lhs)
    }

    /// A primary followed by any number of `as type` casts.
    fn parse_cast(&mut self) -> (r: PResult<Expr>)
        requires
            old(self).ok(),
        ensures
            Parser::follows(*old(self), *final(self)),
            r is Err ==> final(self).errors@.len() > old(self).errors@.len(),
            spec_closed_constant(token_views(old(self).tokens@), old(self).pos as int) matches Some((v, e))
                ==> r matches Ok(x) && spec_expr_value(x) == Some(v) && final(self).pos == e && final(self).errors@ == old(self).errors@,
            spec_closed_arg(token_views(old(self).tokens@), old(self).pos as int) matches Some((v, e))
                ==> r matches Ok(x) && spec_expr_arg(x) == Some(v) && final(self).pos == e && final(self).errors@ == old(self).errors@,
            spec_stop_arg(token_views(old(self).tokens@), old(self).pos as int) matches Some((v, e))
                ==> r matches Ok(x) && spec_expr_arg(x) == Some(v) && final(self).pos == e && final(self).errors@ == old(self).errors@,
        decreases old(self).remaining(), 3int,
    {
        let ghost c = spec_closed_constant(token_views(self.tokens@), self.pos as int);
        let ghost ca = spec_closed_arg(token_views(self.tokens@), self.pos as int);
        let ghost cs = spec_stop_arg(token_views(self.tokens@), self.pos as int);
        let mut expr = self.parse_primary()?;
        while matches!(self.kind(), TokenKind::As) && !self.at_eof()
            invariant
                Parser::follows(*old(self), *self),
                c == spec_closed_constant(token_views(old(self).tokens@), old(self).pos as int),
                ca == spec_closed_arg(token_views(old(self).tokens@), old(self).pos as int),
                ca matches Some((v, e)) ==> spec_expr_arg(expr) == Some(v) && self.pos == e && self.errors@
                    == old(self).errors@,
                cs == spec_stop_arg(token_views(old(self).tokens@), old(self).pos as int),
                cs matches Some((v, e)) ==> spec_expr_arg(expr) == Some(v) && self.pos == e && self.errors@
                    == old(self).errors@,
                c matches Some((v, e)) ==> spec_expr_value(expr) == Some(v) && self.pos == e && self.errors@
                    == old(self).errors@,
            decreases self.remaining(),
        {
            self.bump();
            let (ty, ty_span) = self.parse_type()?;
            let span = join(expr.span, ty_span);
            expr = Expr { kind: ExprKind::Cast { expr: Box::new(expr), ty }, span };
        }
        Ok(expr)
    }

    /// A term, an aggregate, or a prefix `-` folded onto a numeric literal.
    fn parse_primary(&mut self) -> (r: PResult<Expr>)
        requires
            old(self).ok(),
        ensures
            Parser::follows(*old(self), *final(self)),
            r is Err ==> final(self).errors@.len() > old(self).errors@.len(),
            old(self).tokens@[old(self).pos as int].kind matches TokenKind::Variable(name) ==> r matches Ok(x)
                && x.kind matches ExprKind::Term(t) && final(self).pos == old(self).pos + 1 && final(self).errors@
                == old(self).errors@ && (if name@ == "_"@ {
                t.kind is Wildcard
            } else {
                t.kind matches TermKind::Variable(v) && v@ == name@
            }),
            spec_closed_constant(token_views(old(self).tokens@), old(self).pos as int) matches Some((v, e))
                ==> r matches Ok(x) && spec_expr_value(x) == Some(v) && final(self).pos == e && final(self).errors@ == old(self).errors@,
            spec_closed_arg(token_views(old(self).tokens@), old(self).pos as int) matches Some((v, e))
                ==> r matches Ok(x) && spec_expr_arg(x) == Some(v) && final(self).pos == e && final(self).errors@ == old(self).errors@,
            spec_stop_arg(token_views(old(self).tokens@), old(self).pos as int) matches Some((v, e))
                ==> r matches Ok(x) && spec_expr_arg(x) == Some(v) && final(self).pos == e && final(self).errors@ == old(self).errors@,
            old(self).tokens@[old(self).pos as int].kind is Minus && old(self).pos + 1 < old(self).tokens@.len() && !(old(
                self,
            ).tokens@[old(self).pos + 1].kind is Int) && !(old(self).tokens@[old(self).pos + 1].kind is Float) ==> r is Err
                && final(self).errors@.len() == old(self).errors@.len() + 1 && final(self).errors@.last().message@
                == spec_parse_message(
                "prefix `-` applies only to a numeric literal (there is no unary minus on variables or expressions)"@,
                old(self).tokens@[old(self).pos as int].span,
            ),
            old(self).tokens@[old(self).pos as int].kind is LParen ==> r is Err && final(self).errors@.len() == old(
                self,
            ).errors@.len() + 1 && final(self).errors@.last().message@ == spec_parse_message(
                "parentheses are not supported in expressions; introduce an intermediate variable instead (e.g. `(A + B) * C` becomes `T = A + B, X = T * C`)"@,
                old(self).tokens@[old(self).pos as int].span,
            ),
        decreases old(self).remaining(), 2int,
    {
        if matches!(self.kind(), TokenKind::Minus) {
            let start = self.span();
            proof {
                assert(token_views(self.tokens@)[self.pos as int] == self.tokens@[self.pos as int].kind@);
                assert(token_views(self.tokens@)[self.pos + 1] == self.tokens@[self.pos + 1].kind@);
            }
            self.bump();
            let span = self.span();
            let constant = match self.kind() {
                TokenKind::Int(n) => {
                    let n = *n;
                    if n == i64::MIN {
                        self.error_str(span, "integer literal out of range for a 64-bit integer");
                        return Err(());
                    }
                    Constant::Int(-n)
                },
                TokenKind::Float(f) => {
                    let mut text = to_owned("-");
                    push_str(&mut text, f.as_str());
                    proof {
                        reveal_strlit("-");
                        assert(text@ =~= seq!['-'] + f@);
                    }
                    Constant::Float(FloatLit { text })
                },
                _ => {
                    self.error_str(
                        start,
                        "prefix `-` applies only to a numeric literal (there is no unary minus on variables or expressions)",
                    );
                    return Err(());
                },
            };
            self.bump();
            let span = join(start, span);
            return Ok(Expr { kind: ExprKind::Term(Term { kind: TermKind::Constant(constant), span }), span });
        }
        let agg_name = match (self.kind(), self.kind_at(1)) {
            (TokenKind::Ident(name), TokenKind::LBrace) => Some(to_owned(name.as_str())),
            _ => None,
        };
        if let Some(name) = agg_name {
            if let Some(op) = AggOp::from_name(name.as_str()) {
                return self.parse_aggregate(op);
            }
            let span = self.span();
            let mut m = to_owned("`");
            push_str(&mut m, name.as_str());
            push_str(&mut m, "` is not an aggregate operator; expected one of count, sum, min, max, avg before `{`");
            self.error(span, m);
            return Err(());
        }
        if matches!(self.kind(), TokenKind::LBrace) {
            let span = self.span();
            self.error_str(
                span,
                "an aggregate needs an operator: write `count { X | goal(X) }` (one of count, sum, min, max, avg) before the `{`",
            );
            return Err(());
        }
        if matches!(self.kind(), TokenKind::LParen) {
            let span = self.span();
            self.error_str(
                span,
                "parentheses are not supported in expressions; introduce an intermediate variable instead (e.g. `(A + B) * C` becomes `T = A + B, X = T * C`)",
            );
            return Err(());
        }
        let term = self.parse_term()?;
        let span = term.span;
        Ok(Expr { kind: ExprKind::Term(term), span })
    }

    /// A set-builder aggregate `op { expr | goal }`.
    fn parse_aggregate(&mut self, op: AggOp) -> (r: PResult<Expr>)
        requires
            old(self).ok(),
        ensures
            Parser::follows(*old(self), *final(self)),
            r is Err ==> final(self).errors@.len() > old(self).errors@.len(),
            r matches Ok(e) ==> e.kind matches ExprKind::Aggregate(g) && g.op == op && g.params@.len() == 0
                && g.goal@.len() >= 1 && old(self).tokens@[old(self).pos + 1].kind is LBrace && last_taken(
                *final(self),
            ) is RBrace && e.span == spec_join(old(self).tokens@[old(self).pos as int].span, final(self).tokens@[final(
                self).pos - 1].span),
        decreases old(self).remaining(), 1int,
    {
        let start = self.span();
        let p0 = self.pos;
        if self.at_eof() {
            self.error_expected("an aggregate operator");
            return Err(());
        }
        self.bump();
        if !matches!(self.kind(), TokenKind::LBrace) || self.at_eof() {
            self.error_expected("`{` opening the aggregate");
            return Err(());
        }
        self.bump();
        assert(self.pos > p0);
        let expr = self.parse_expr()?;
        if !self.eat_pipe() {
            self.error_expected("`|` separating the aggregated expression from its goal (`op { Expr | Goal }`)");
            return Err(());
        }
        let goal = self.parse_conjunction()?;
        let close = self.expect(Punct::RBrace, "`}` closing the aggregate")?;
        let span = join(start, close);
        Ok(Expr { kind: ExprKind::Aggregate(Aggregate { op, expr: Box::new(expr), goal, params: Vec::new() }), span })
    }

    fn eat_pipe(&mut self) -> (r: bool)
        requires
            old(self).ok(),
        ensures
            Parser::follows(*old(self), *final(self)),
            final(self).errors@ == old(self).errors@,
            r == (old(self).tokens@[old(self).pos as int].kind is Pipe && old(self).pos < old(
                self).tokens@.len() - 1),
            r ==> final(self).pos == old(self).pos + 1,
            !r ==> final(self).pos == old(self).pos,
    {
        if matches!(self.kind(), TokenKind::Pipe) && !self.at_eof() {
            self.bump();
            true
        } else {
            false
        }
    }

    fn parse_term(&mut self) -> (r: PResult<Term>)
        requires
            old(self).ok(),
        ensures
            Parser::follows(*old(self), *final(self)),
            r is Err ==> final(self).errors@.len() > old(self).errors@.len(),
            match old(self).tokens@[old(self).pos as int].kind {
                TokenKind::Variable(name) => r matches Ok(t) && t.span == old(self).tokens@[old(self).pos as int].span
                    && final(self).pos == old(self).pos + 1 && final(self).errors@ == old(self).errors@ && if name@
                    == "_"@ {
                    t.kind is Wildcard
                } else {
                    t.kind matches TermKind::Variable(x) && x@ == name@
                },
                _ => spec_term_token(token_views(old(self).tokens@), old(self).pos as int) is None ==> r is Err
                    && final(self).pos == old(self).pos,
            },
            spec_term_token(token_views(old(self).tokens@), old(self).pos as int) matches Some(v) ==> r matches Ok(
                t,
            ) && spec_term_value(t) == Some(v) && final(self).pos == old(self).pos + 1 && final(self).errors@
                == old(self).errors@,
            old(self).tokens@[old(self).pos as int].kind is Ident && old(self).pos + 1 < old(self).tokens@.len() && old(
                self,
            ).tokens@[old(self).pos + 1].kind is LParen ==> r is Err && final(self).errors@.len() == old(
                self,
            ).errors@.len() + 1 && final(self).errors@.last().message@ == spec_parse_message(
                "compound terms are not supported; arguments are flat"@,
                old(self).tokens@[old(self).pos as int].span,
            ),
    {
        let span = self.span();
        let compound = matches!(self.kind_at(1), TokenKind::LParen);
        let kind = match self.kind() {
            TokenKind::Int(n) => TermKind::Constant(Constant::Int(*n)),
            TokenKind::Float(f) => TermKind::Constant(Constant::Float(FloatLit { text: to_owned(f.as_str()) })),
            TokenKind::Str(s) => TermKind::Constant(Constant::String(to_owned(s.as_str()))),
            TokenKind::Temporal(t) => TermKind::Constant(Constant::Temporal(*t)),
            TokenKind::True => TermKind::Constant(Constant::Bool(true)),
            TokenKind::False => TermKind::Constant(Constant::Bool(false)),
            TokenKind::Absent => TermKind::Constant(Constant::Absent),
            TokenKind::Ident(name) => {
                if compound {
                    self.error_str(span, "compound terms are not supported; arguments are flat");
                    return Err(());
                }
                TermKind::Constant(Constant::Symbol(to_owned(name.as_str())))
            },
            TokenKind::Variable(name) => {
                proof {
                    reveal_strlit("_");
                }
                if crate::text::str_equal(name.as_str(), "_") {
                    TermKind::Wildcard
                } else {
                    TermKind::Variable(to_owned(name.as_str()))
                }
            },
            _ => {
                self.error_expected("a term (a constant or a variable)");
                return Err(());
            },
        };
        self.bump();
        Ok(Term { kind, span })
    }

    fn parse_atom(&mut self) -> (r: PResult<Atom>)
        requires
            old(self).ok(),
        ensures
            Parser::follows(*old(self), *final(self)),
            r is Err ==> final(self).errors@.len() > old(self).errors@.len(),
            spec_atom_at(token_views(old(self).tokens@), old(self).pos as int) matches Some((name, vs, end))
                ==> r matches Ok(a) && spec_is_atom(a, name, vs) && final(self).pos == end && final(self).errors@
                == old(self).errors@,
            spec_arg_atom_at(token_views(old(self).tokens@), old(self).pos as int) matches Some((name, args, end))
                ==> r matches Ok(a) && spec_is_arg_atom(a, name, args) && final(self).pos == end && final(
                self).errors@ == old(self).errors@,
        decreases old(self).remaining(), 1int,
    {
        let p0 = self.pos;
        let ghost ts = token_views(self.tokens@);
        let ghost target = spec_atom_at(ts, p0 as int);
        let ghost targeta = spec_arg_atom_at(ts, p0 as int);
        proof {
            lemma_const_list_end(ts, p0 + 2);
            lemma_arg_list_end(ts, p0 + 2);
            if target is Some {
                assert(ts[p0 as int] == self.tokens@[p0 as int].kind@);
                assert(ts[p0 + 1] == self.tokens@[p0 + 1].kind@);
                assert(ts[p0 + 2] == self.tokens@[p0 + 2].kind@);
                assert(ts[p0 + 3] == self.tokens@[p0 + 3].kind@);
                let (v, e) = spec_closed_constant(ts, p0 + 2)->0;
                assert(e >= p0 + 3);
            }
            if targeta is Some {
                assert(ts[p0 as int] == self.tokens@[p0 as int].kind@);
                assert(ts[p0 + 1] == self.tokens@[p0 + 1].kind@);
                assert(ts[p0 + 2] == self.tokens@[p0 + 2].kind@);
                assert(ts[p0 + 3] == self.tokens@[p0 + 3].kind@);
                let (v, e) = spec_closed_arg(ts, p0 + 2)->0;
                assert(e >= p0 + 3);
            }
        }
        let predicate = self.expect_relation_name("a relation name")?;
        let start = predicate.span;
        if !matches!(self.kind(), TokenKind::LParen) || self.pos == p0 || self.at_eof() {
            self.error_expected("`(` after the relation name");
            return Err(());
        }
        self.bump();
        if matches!(self.kind(), TokenKind::RParen) {
            let span = self.span();
            let mut m = to_owned("predicate `");
            push_str(&mut m, predicate.name.as_str());
            push_str(&mut m, "` has no arguments; predicates take at least one argument");
            self.error(span, m);
            return Err(());
        }
        let named = match (self.kind(), self.kind_at(1)) {
            (TokenKind::Ident(_), TokenKind::Colon) => true,
            _ => false,
        };
        let args = if named {
            Args::Named(self.parse_named_args()?)
        } else {
            Args::Positional(self.parse_positional_args()?)
        };
        proof {
            if let Some((name, vs, end)) = target {
                assert(ts[self.pos as int] == self.tokens@[self.pos as int].kind@);
            }
            if let Some((name, vs, end)) = targeta {
                assert(ts[self.pos as int] == self.tokens@[self.pos as int].kind@);
            }
        }
        let end = self.expect(Punct::RParen, "`)` to close the argument list")?;
        Ok(Atom { predicate, args, span: join(start, end) })
    }

    fn parse_positional_args(&mut self) -> (r: PResult<Vec<Expr>>)
        requires
            old(self).ok(),
        ensures
            Parser::follows(*old(self), *final(self)),
            r is Err ==> final(self).errors@.len() > old(self).errors@.len(),
            spec_const_list(token_views(old(self).tokens@), old(self).pos as int) matches Some((vs, end))
                ==> r matches Ok(args) && args@.len() == vs.len() && (forall|k: int|
                0 <= k < vs.len() ==> spec_expr_value(#[trigger] args@[k]) == Some(vs[k])) && final(self).pos
                == end && final(self).errors@ == old(self).errors@,
            spec_arg_list(token_views(old(self).tokens@), old(self).pos as int) matches Some((vs, end))
                ==> r matches Ok(args) && args@.len() == vs.len() && (forall|k: int|
                0 <= k < vs.len() ==> spec_expr_arg(#[trigger] args@[k]) == Some(vs[k])) && final(self).pos
                == end && final(self).errors@ == old(self).errors@,
        decreases old(self).remaining(), 7int,
    {
        let ghost all = spec_const_list(token_views(self.tokens@), self.pos as int);
        let ghost alla = spec_arg_list(token_views(self.tokens@), self.pos as int);
        let ghost ts = token_views(self.tokens@);
        let mut args: Vec<Expr> = Vec::new();
        loop
            invariant_except_break
                all matches Some((vs, end)) ==> (spec_const_list(ts, self.pos as int) matches Some((rest, end2))
                    && end2 == end && args@.len() + rest.len() == vs.len() && rest == vs.skip(args@.len() as int)
                    && self.errors@ == old(self).errors@),
                alla matches Some((vs, end)) ==> (spec_arg_list(ts, self.pos as int) matches Some((rest, end2))
                    && end2 == end && args@.len() + rest.len() == vs.len() && rest == vs.skip(args@.len() as int)
                    && self.errors@ == old(self).errors@),
            invariant
                Parser::follows(*old(self), *self),
                ts == token_views(self.tokens@),
                all == spec_const_list(ts, old(self).pos as int),
                all matches Some((vs, end)) ==> args@.len() <= vs.len() && forall|k: int|
                    0 <= k < args@.len() ==> spec_expr_value(#[trigger] args@[k]) == Some(vs[k]),
                alla == spec_arg_list(ts, old(self).pos as int),
                alla matches Some((vs, end)) ==> args@.len() <= vs.len() && forall|k: int|
                    0 <= k < args@.len() ==> spec_expr_arg(#[trigger] args@[k]) == Some(vs[k]),
            ensures
                all matches Some((vs, end)) ==> args@.len() == vs.len() && self.pos == end && self.errors@
                    == old(self).errors@,
                alla matches Some((vs, end)) ==> args@.len() == vs.len() && self.pos == end && self.errors@
                    == old(self).errors@,
            decreases self.remaining(),
        {
            let named_here = match (self.kind(), self.kind_at(1)) {
                (TokenKind::Ident(_), TokenKind::Colon) => true,
                _ => false,
            };
            if named_here {
                let span = self.span();
                self.error_str(span, "cannot mix positional and named arguments in one literal");
                return Err(());
            }
            let before = self.pos;
            let ghost p = self.pos as int;
            let ghost head = spec_closed_constant(ts, p);
            let ghost heada = spec_closed_arg(ts, p);
            proof {
                if all is Some || alla is Some {
                    assert(ts[p] == self.tokens@[p].kind@);
                    assert(ts[p + 1] == self.tokens@[p + 1].kind@);
                }
            }
            let ghost args_before = args@;
            args.push(self.parse_expr()?);
            proof {
                if let Some((_, e)) = head {
                    assert(ts[e] == self.tokens@[e].kind@);
                    assert(forall|k: int| 0 <= k < args_before.len() ==> args@[k] == args_before[k]);
                }
                if let Some((_, e)) = heada {
                    assert(ts[e] == self.tokens@[e].kind@);
                    assert(forall|k: int| 0 <= k < args_before.len() ==> args@[k] == args_before[k]);
                }
            }
            if self.eat(Punct::Comma) {
                proof {
                    if let Some((vs, end)) = all {
                        let q = self.pos as int;
                        assert(ts[q - 1] == self.tokens@[q - 1].kind@);
                        assert(ts[q] == self.tokens@[q].kind@);
                        let (v, e) = head->0;
                        assert(e == q - 1);
                        assert(ts[e] == TokenView::Comma);
                        let (rest, _) = spec_const_list(ts, p)->0;
                        assert(rest == vs.skip(args_before.len() as int));
                        let tail = spec_const_list(ts, e + 1);
                        assert(tail is Some);
                        let (rest2, _) = tail->0;
                        assert(rest == seq![v] + rest2);
                        assert(args@.len() == args_before.len() + 1);
                        assert(rest2 =~= rest.drop_first());
                        assert(rest2 =~= vs.skip(args@.len() as int));
                        assert(vs[args_before.len() as int] == rest[0]);
                        assert(spec_closed_constant(ts, e + 1) is Some);
                        assert(q < ts.len() - 1);
                    }
                    if let Some((vs, end)) = alla {
                        let q = self.pos as int;
                        assert(ts[q - 1] == self.tokens@[q - 1].kind@);
                        assert(ts[q] == self.tokens@[q].kind@);
                        let (v, e) = heada->0;
                        assert(e == q - 1);
                        assert(ts[e] == TokenView::Comma);
                        let (rest, _) = spec_arg_list(ts, p)->0;
                        assert(rest == vs.skip(args_before.len() as int));
                        let tail = spec_arg_list(ts, e + 1);
                        assert(tail is Some);
                        let (rest2, _) = tail->0;
                        assert(rest == seq![v] + rest2);
                        assert(args@.len() == args_before.len() + 1);
                        assert(rest2 =~= rest.drop_first());
                        assert(rest2 =~= vs.skip(args@.len() as int));
                        assert(vs[args_before.len() as int] == rest[0]);
                        assert(spec_closed_arg(ts, e + 1) is Some);
                        assert(q < ts.len() - 1);
                    }
                }
                if matches!(self.kind(), TokenKind::RParen) {
                    let span = self.span();
                    self.error_str(span, "trailing `,` in the argument list");
                    return Err(());
                }
                if self.pos <= before {
                    return Err(());
                }
                continue;
            }
            proof {
                if let Some((vs, end)) = all {
                    let (v, e) = head->0;
                    assert(ts[e] == self.tokens@[e].kind@);
                    assert(ts[e] == TokenView::RParen);
                    let (rest, _) = spec_const_list(ts, p)->0;
                    assert(rest == seq![v]);
                    assert(rest == vs.skip(args_before.len() as int));
                    assert(vs[args_before.len() as int] == rest[0]);
                }
                if let Some((vs, end)) = alla {
                    let (v, e) = heada->0;
                    assert(ts[e] == self.tokens@[e].kind@);
                    assert(ts[e] == TokenView::RParen);
                    let (rest, _) = spec_arg_list(ts, p)->0;
                    assert(rest == seq![v]);
                    assert(rest == vs.skip(args_before.len() as int));
                    assert(vs[args_before.len() as int] == rest[0]);
                }
            }
            break;
        }
        Ok(args)
    }

    fn parse_named_args(&mut self) -> (r: PResult<Vec<NamedArg>>)
        requires
            old(self).ok(),
        ensures
            Parser::follows(*old(self), *final(self)),
            r is Err ==> final(self).errors@.len() > old(self).errors@.len(),
            r matches Ok(args) ==> args@.len() >= 1 && forall|k: int| 0 <= k < args@.len() ==> (#[trigger] args@[k]).span
                == spec_join(args@[k].field.span, args@[k].value.span),
        decreases old(self).remaining(), 7int,
    {
        let mut args: Vec<NamedArg> = Vec::new();
        loop
            invariant
                Parser::follows(*old(self), *self),
                forall|k: int| 0 <= k < args@.len() ==> (#[trigger] args@[k]).span == spec_join(
                    args@[k].field.span,
                    args@[k].value.span,
                ),
            ensures
                args@.len() >= 1,
                forall|k: int| 0 <= k < args@.len() ==> (#[trigger] args@[k]).span == spec_join(
                    args@[k].field.span,
                    args@[k].value.span,
                ),
            decreases self.remaining(),
        {
            let named_here = match (self.kind(), self.kind_at(1)) {
                (TokenKind::Ident(_), TokenKind::Colon) => true,
                _ => false,
            };
            if !named_here {
                self.error_expected("a named argument `field: value` (a literal is all-named or all-positional)");
                return Err(());
            }
            let before = self.pos;
            let field = self.expect_lowercase_ident("a field name")?;
            if !self.eat(Punct::Colon) {
                self.error_expected("`:` after the field name");
                return Err(());
            }
            assert(self.pos > before);
            let value = self.parse_expr()?;
            let span = join(field.span, value.span);
            args.push(NamedArg { field, value, span });
            if self.eat(Punct::Comma) {
                if matches!(self.kind(), TokenKind::RParen) {
                    let span = self.span();
                    self.error_str(span, "trailing `,` in the argument list");
                    return Err(());
                }
                continue;
            }
            break;
        }
        Ok(args)
    }

    /// A relation name: a lowercase identifier. A variable-shaped name here is
    /// the capitalized-relation near-miss, reported with the lowercase spelling
    /// and kept so parsing can go on.
    fn expect_relation_name(&mut self, expected: &str) -> (r: PResult<Ident>)
        requires
            old(self).ok(),
        ensures
            Parser::follows(*old(self), *final(self)),
            r is Err ==> final(self).errors@.len() > old(self).errors@.len(),
            r is Ok ==> final(self).pos > old(self).pos,
            old(self).tokens@[old(self).pos as int].kind@ matches TokenView::Ident(n) ==> r matches Ok(id)
                && id.name@ == n && final(self).errors@ == old(self).errors@ && final(self).pos == old(self).pos + 1,
    {
        let found = match self.kind() {
            TokenKind::Ident(name) => Some((to_owned(name.as_str()), false)),
            TokenKind::Variable(name) => Some((to_owned(name.as_str()), true)),
            _ => None,
        };
        match found {
            Some((name, capitalized)) => {
                let span = self.span();
                if capitalized {
                    let mut m = to_owned("relation names must be lowercase; `");
                    push_str(&mut m, name.as_str());
                    push_str(&mut m, "` looks like a variable (did you mean `");
                    let lower = lowercase_first(name.as_str());
                    push_str(&mut m, lower.as_str());
                    push_str(&mut m, "`?)");
                    self.error(span, m);
                }
                self.bump();
                Ok(Ident { name, span })
            },
            None => {
                self.error_expected(expected);
                Err(())
            },
        }
    }

    fn expect_lowercase_ident(&mut self, expected: &str) -> (r: PResult<Ident>)
        requires
            old(self).ok(),
        ensures
            Parser::follows(*old(self), *final(self)),
            r is Err ==> final(self).errors@.len() > old(self).errors@.len(),
            old(self).tokens@[old(self).pos as int].kind is Ident ==> r is Ok && final(self).pos == old(self).pos + 1
                && final(self).errors@ == old(self).errors@,
            r is Ok ==> final(self).pos > old(self).pos,
            r matches Ok(id) ==> old(self).tokens@[old(self).pos as int].kind matches TokenKind::Ident(n) && id.name@
                == n@ && id.span == old(self).tokens@[old(self).pos as int].span && final(self).pos == old(
                self).pos + 1 && final(self).errors@ == old(self).errors@,
    {
        let found = match self.kind() {
            TokenKind::Ident(name) => Some(to_owned(name.as_str())),
            _ => None,
        };
        match found {
            Some(name) => {
                let span = self.span();
                self.bump();
                Ok(Ident { name, span })
            },
            None => {
                self.error_expected(expected);
                Err(())
            },
        }
    }
}

/// The comparison operator a token spells.
pub open spec fn spec_comparison_op(k: TokenKind) -> Option<CmpOp> {
    match k {
        TokenKind::Eq => Some(CmpOp::Eq),
        TokenKind::Ne => Some(CmpOp::Ne),
        TokenKind::Lt => Some(CmpOp::Lt),
        TokenKind::Le => Some(CmpOp::Le),
        TokenKind::Gt => Some(CmpOp::Gt),
        TokenKind::Ge => Some(CmpOp::Ge),
        _ => None,
    }
}

fn comparison_op(k: &TokenKind) -> (r: Option<CmpOp>)
    ensures
        r == spec_comparison_op(*k),
{
    match k {
        TokenKind::Eq => Some(CmpOp::Eq),
        TokenKind::Ne => Some(CmpOp::Ne),
        TokenKind::Lt => Some(CmpOp::Lt),
        TokenKind::Le => Some(CmpOp::Le),
        TokenKind::Gt => Some(CmpOp::Gt),
        TokenKind::Ge => Some(CmpOp::Ge),
        _ => None,
    }
}

/// The type a name spells.
fn type_named(name: &str) -> (r: Option<TypeName>)
    ensures
        r matches Some(t) ==> crate::ast::spec_type_keyword(t) == name@,
        r is None ==> forall|t: TypeName| crate::ast::spec_type_keyword(t) != name@,
{
    let all = [
        TypeName::Int,
        TypeName::Float,
        TypeName::String,
        TypeName::Symbol,
        TypeName::Bool,
        TypeName::Date,
        TypeName::Timestamp,
        TypeName::Duration,
    ];
    assert(all@ =~= seq![
        TypeName::Int,
        TypeName::Float,
        TypeName::String,
        TypeName::Symbol,
        TypeName::Bool,
        TypeName::Date,
        TypeName::Timestamp,
        TypeName::Duration,
    ]);
    let mut i: usize = 0;
    while i < 8
        invariant
            i <= 8,
            all@ == seq![
                TypeName::Int,
                TypeName::Float,
                TypeName::String,
                TypeName::Symbol,
                TypeName::Bool,
                TypeName::Date,
                TypeName::Timestamp,
                TypeName::Duration,
            ],
            forall|j: int| 0 <= j < i ==> crate::ast::spec_type_keyword(#[trigger] all@[j]) != name@,
        decreases 8 - i,
    {
        let ty = all[i];
        if crate::text::str_equal(ty.keyword(), name) {
            return Some(ty);
        }
        i += 1;
    }
    assert forall|t: TypeName| crate::ast::spec_type_keyword(t) != name@ by {
        match t {
            TypeName::Int => assert(all@[0] == t),
            TypeName::Float => assert(all@[1] == t),
            TypeName::String => assert(all@[2] == t),
            TypeName::Symbol => assert(all@[3] == t),
            TypeName::Bool => assert(all@[4] == t),
            TypeName::Date => assert(all@[5] == t),
            TypeName::Timestamp => assert(all@[6] == t),
            TypeName::Duration => assert(all@[7] == t),
        }
    }
    None
}

/// Parses source text to a surface program, or reports every lexical and
/// syntactic error found. Never panics.
pub fn parse(src: &str) -> (r: Result<Program, Vec<Error>>)
    ensures
        r matches Err(es) ==> es@.len() > 0 && forall|i: int| 0 <= i < es@.len() ==> (#[trigger] es@[i]).kind == ErrorKind::Parse,
        lex_from(src@, 0).1 == 0 ==> (spec_facts_from(lex_from(src@, 0).0.push(TokenView::Eof), 0) matches Some(fs)
            ==> (r matches Ok(p) && spec_is_facts(p, fs))),
        lex_from(src@, 0).1 == 0 ==> (spec_pieces_from(lex_from(src@, 0).0.push(TokenView::Eof), 0) matches Some(ps)
            ==> (r matches Ok(p) && spec_is_pieces(p, ps))),
{
    let lexed = lex(src);
    let mut parser = Parser { tokens: lexed.tokens, pos: 0, errors: Vec::new() };
    let program = parser.parse_program();
    let mut errors = lexed.errors;
    let mut more = parser.errors;
    errors.append(&mut more);
    if errors.len() == 0 {
        Ok(program)
    } else {
        Err(errors)
    }
}

} // verus!
