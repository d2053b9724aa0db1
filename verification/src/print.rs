//! The canonical printer.
//!
//! - [`print_program`] renders a surface program back to Datalog text, one
//!   statement per line, parenthesizing an expression exactly where its
//!   grouping would otherwise be lost on re-parse.
//! - [`print_ground_fact`] / [`print_fact_lines`] render ground facts in answer
//!   form, `pred(v1, v2).`, which parses straight back as input.
//! - [`print_proof`] renders a proof tree as `%`-comment lines, each carrying
//!   its depth as a leading integer and as indentation.
use vstd::prelude::*;

use crate::ast::{
    AggOp, spec_agg_keyword, spec_arith_symbol, spec_cmp_symbol, spec_precedence, spec_type_keyword,
    ArithOp, Args, Atom, Clause, Comparison, Constant, Declaration, Expr, ExprKind, FieldDecl,
    Import, ImportKind, Literal, LiteralKind, NamedArg, Program, Query, Statement, StatementKind,
    Term, TermKind,
};
use crate::ir::{self, Value, ValueView};
use crate::temporal::{spec_render_date, spec_render_duration, spec_render_timestamp, Temporal, TemporalView};
use crate::provenance::{LostConversion, NoMatchPattern, ProofTree};
use crate::stdlib::spec_op_name;
use crate::text::{decimal, push_char, push_str, repeat_char, signed_decimal};

verus! {

// --- Values and constants ---

/// The escape a character takes inside a double-quoted string.
pub open spec fn spec_escape_char(c: char) -> Seq<char> {
    if c == '\\' {
        seq!['\\', '\\']
    } else if c == '"' {
        seq!['\\', '"']
    } else if c == '\n' {
        seq!['\\', 'n']
    } else if c == '\t' {
        seq!['\\', 't']
    } else {
        seq![c]
    }
}

/// A string's characters, each escaped.
pub open spec fn spec_escaped(s: Seq<char>) -> Seq<char>
    decreases s.len(),
{
    if s.len() == 0 {
        seq![]
    } else {
        spec_escaped(s.drop_last()) + spec_escape_char(s.last())
    }
}

/// A string constant as a double-quoted literal.
pub open spec fn spec_string_literal(s: Seq<char>) -> Seq<char> {
    seq!['"'] + spec_escaped(s) + seq!['"']
}

pub open spec fn spec_bool_text(b: bool) -> Seq<char> {
    if b {
        "true"@
    } else {
        "false"@
    }
}

/// The unsigilled text of a temporal value.
pub open spec fn spec_temporal_text(t: TemporalView) -> Seq<char> {
    match t {
        TemporalView::Date(d) => spec_render_date(d),
        TemporalView::Timestamp(m) => spec_render_timestamp(m),
        TemporalView::Duration(u) => spec_render_duration(u),
    }
}

/// The canonical text of a ground value: `absent` for the missing value, a
/// symbol bare, a string quoted and escaped, a temporal value behind its `@`.
pub open spec fn spec_value_text(v: ValueView) -> Seq<char> {
    match v {
        ValueView::Absent => "absent"@,
        ValueView::Symbol(s) => s,
        ValueView::String(s) => spec_string_literal(s),
        ValueView::Int(n) => signed_decimal(n),
        ValueView::Float(t) => t,
        ValueView::Bool(b) => spec_bool_text(b),
        ValueView::Date(d) => seq!['@'] + spec_render_date(d),
        ValueView::Timestamp(m) => seq!['@'] + spec_render_timestamp(m),
        ValueView::Duration(u) => seq!['@'] + spec_render_duration(u),
    }
}

/// The text of a constant as written in a program.
pub open spec fn spec_constant_text(c: Constant) -> Seq<char> {
    match c {
        Constant::Symbol(s) => s@,
        Constant::String(s) => spec_string_literal(s@),
        Constant::Int(n) => signed_decimal(n as int),
        Constant::Float(f) => f.text@,
        Constant::Bool(b) => spec_bool_text(b),
        Constant::Absent => "absent"@,
        Constant::Temporal(t) => seq!['@'] + spec_temporal_text(t@),
    }
}

/// Appends `s` as a double-quoted literal with `\\`, `\"`, `\n`, `\t` escaped.
fn write_string_literal(out: &mut String, s: &str)
    ensures
        final(out)@ == old(out)@ + spec_string_literal(s@),
{
    let ghost start = out@;
    push_char(out, '"');
    let cs = crate::text::chars_of(s);
    let mut i: usize = 0;
    while i < cs.len()
        invariant
            i <= cs.len(),
            cs@ == s@,
            out@ == start + seq!['"'] + spec_escaped(cs@.take(i as int)),
        decreases cs.len() - i,
    {
        let c = cs[i];
        let ghost before = out@;
        if c == '\\' {
            push_char(out, '\\');
            push_char(out, '\\');
        } else if c == '"' {
            push_char(out, '\\');
            push_char(out, '"');
        } else if c == '\n' {
            push_char(out, '\\');
            push_char(out, 'n');
        } else if c == '\t' {
            push_char(out, '\\');
            push_char(out, 't');
        } else {
            push_char(out, c);
        }
        proof {
            assert(out@ =~= before + spec_escape_char(c));
            let t = cs@.take(i + 1);
            assert(t.drop_last() =~= cs@.take(i as int));
            assert(t.last() == c);
        }
        i += 1;
    }
    push_char(out, '"');
    proof {
        assert(cs@.take(cs@.len() as int) =~= cs@);
        assert(out@ =~= start + spec_string_literal(s@));
    }
}

/// Appends the unsigilled text of a temporal value.
fn write_temporal(out: &mut String, t: Temporal)
    ensures
        final(out)@ == old(out)@ + spec_temporal_text(t@),
{
    match t {
        Temporal::Date(d) => push_str(out, d.render().as_str()),
        Temporal::Timestamp(m) => push_str(out, m.render().as_str()),
        Temporal::Duration(u) => push_str(out, u.render().as_str()),
    }
}

fn write_bool(out: &mut String, b: bool)
    ensures
        final(out)@ == old(out)@ + spec_bool_text(b),
{
    if b {
        push_str(out, "true");
    } else {
        push_str(out, "false");
    }
}

/// Appends the canonical text of a ground value.
fn write_value(out: &mut String, v: &Value)
    ensures
        final(out)@ == old(out)@ + spec_value_text(v@),
{
    match v {
        Value::Absent => push_str(out, "absent"),
        Value::Symbol(s) => push_str(out, s.as_str()),
        Value::String(s) => write_string_literal(out, s.as_str()),
        Value::Int(n) => push_str(out, crate::text::i64_text(*n).as_str()),
        Value::Float(f) => push_str(out, f.text.as_str()),
        Value::Bool(b) => write_bool(out, *b),
        Value::Date(d) => {
            let ghost start = out@;
            push_char(out, '@');
            push_str(out, d.render().as_str());
            assert(out@ =~= start + (seq!['@'] + spec_render_date(d@)));
        },
        Value::Timestamp(m) => {
            let ghost start = out@;
            push_char(out, '@');
            push_str(out, m.render().as_str());
            assert(out@ =~= start + (seq!['@'] + spec_render_timestamp(m@)));
        },
        Value::Duration(u) => {
            let ghost start = out@;
            push_char(out, '@');
            push_str(out, u.render().as_str());
            assert(out@ =~= start + (seq!['@'] + spec_render_duration(u@)));
        },
    }
}

/// Prints a ground value in canonical form: the missing value as `absent`, a
/// symbol bare, a string quoted with its escapes, a float as the decimal text
/// it holds, a temporal value as its literal with the `@` sigil.
pub fn print_value(value: &Value) -> (r: String)
    ensures
        r@ == spec_value_text(value@),
{
    let mut out = String::new();
    write_value(&mut out, value);
    proof {
        assert(out@ =~= spec_value_text(value@));
    }
    out
}

fn write_constant(out: &mut String, c: &Constant)
    ensures
        final(out)@ == old(out)@ + spec_constant_text(*c),
{
    match c {
        Constant::Symbol(s) => push_str(out, s.as_str()),
        Constant::String(s) => write_string_literal(out, s.as_str()),
        Constant::Int(n) => push_str(out, crate::text::i64_text(*n).as_str()),
        Constant::Float(f) => push_str(out, f.text.as_str()),
        Constant::Bool(b) => write_bool(out, *b),
        Constant::Absent => push_str(out, "absent"),
        Constant::Temporal(t) => {
            let ghost start = out@;
            push_char(out, '@');
            write_temporal(out, *t);
            assert(out@ =~= start + (seq!['@'] + spec_temporal_text(t@)));
        },
    }
}


// --- Surface programs ---

/// `t` in parentheses when `wrap` holds.
pub open spec fn spec_parens(wrap: bool, t: Seq<char>) -> Seq<char> {
    if wrap {
        seq!['('] + t + seq![')']
    } else {
        t
    }
}

/// Whether `e`, as the `right` or left operand of `parent`, needs parentheses
/// to re-parse to the same tree: a binary child binding looser, or binding
/// equally on the right (all four operators associate to the left). A cast
/// binds tighter than every operator; terms and aggregates are atomic.
pub open spec fn spec_operand_wraps(e: Expr, parent: ArithOp, right: bool) -> bool {
    match e.kind {
        ExprKind::Binary { op, .. } => spec_precedence(op) < spec_precedence(parent) || (
        spec_precedence(op) == spec_precedence(parent) && right),
        _ => false,
    }
}

/// Whether `e` needs parentheses as the operand of a cast: the grammar admits
/// only a primary or another cast there.
pub open spec fn spec_cast_operand_wraps(e: Expr) -> bool {
    e.kind is Binary
}

pub open spec fn spec_term_text(t: Term) -> Seq<char> {
    match t.kind {
        TermKind::Constant(c) => spec_constant_text(c),
        TermKind::Variable(n) => n@,
        TermKind::Wildcard => "_"@,
    }
}

/// The text of an expression.
pub open spec fn spec_expr_text(e: Expr) -> Seq<char>
    decreases e,
{
    match e.kind {
        ExprKind::Term(t) => spec_term_text(t),
        ExprKind::Cast { expr, ty } => spec_parens(spec_cast_operand_wraps(*expr), spec_expr_text(*expr))
            + " as "@ + spec_type_keyword(ty),
        ExprKind::Binary { op, lhs, rhs } => spec_parens(
            spec_operand_wraps(*lhs, op, false),
            spec_expr_text(*lhs),
        ) + seq![' '] + spec_arith_symbol(op) + seq![' '] + spec_parens(
            spec_operand_wraps(*rhs, op, true),
            spec_expr_text(*rhs),
        ),
        ExprKind::Aggregate(agg) => spec_agg_keyword(agg.op) + " { "@ + spec_expr_text(*agg.expr)
            + " | "@ + spec_body_text(agg.goal@) + " }"@,
    }
}

/// Expressions separated by `, `.
pub open spec fn spec_exprs_text(es: Seq<Expr>) -> Seq<char>
    decreases es,
{
    if es.len() == 0 {
        seq![]
    } else if es.len() == 1 {
        spec_expr_text(es[0])
    } else {
        spec_exprs_text(es.drop_last()) + ", "@ + spec_expr_text(es.last())
    }
}

/// Named arguments `field: value` separated by `, `.
pub open spec fn spec_named_text(ns: Seq<NamedArg>) -> Seq<char>
    decreases ns,
{
    if ns.len() == 0 {
        seq![]
    } else if ns.len() == 1 {
        ns[0].field.name@ + ": "@ + spec_expr_text(ns[0].value)
    } else {
        spec_named_text(ns.drop_last()) + ", "@ + ns.last().field.name@ + ": "@ + spec_expr_text(
            ns.last().value,
        )
    }
}

/// The text of an atom: its predicate and its arguments in parentheses.
pub open spec fn spec_atom_text(a: Atom) -> Seq<char>
    decreases a,
{
    a.predicate.name@ + seq!['('] + match a.args {
        Args::Positional(es) => spec_exprs_text(es@),
        Args::Named(ns) => spec_named_text(ns@),
    } + seq![')']
}

pub open spec fn spec_literal_text(l: Literal) -> Seq<char>
    decreases l,
{
    match l.kind {
        LiteralKind::Atom { negated, atom } => if negated {
            "not "@ + spec_atom_text(atom)
        } else {
            spec_atom_text(atom)
        },
        LiteralKind::Comparison(c) => spec_expr_text(c.lhs) + seq![' '] + spec_cmp_symbol(c.op) + seq![' ']
            + spec_expr_text(c.rhs),
        LiteralKind::Presence { expr, negated } => spec_expr_text(expr) + if negated {
            " is not absent"@
        } else {
            " is absent"@
        },
    }
}

/// Literals separated by `, `.
pub open spec fn spec_body_text(lits: Seq<Literal>) -> Seq<char>
    decreases lits,
{
    if lits.len() == 0 {
        seq![]
    } else if lits.len() == 1 {
        spec_literal_text(lits[0])
    } else {
        spec_body_text(lits.drop_last()) + ", "@ + spec_literal_text(lits.last())
    }
}

fn write_term(out: &mut String, t: &Term)
    ensures
        final(out)@ == old(out)@ + spec_term_text(*t),
{
    match &t.kind {
        TermKind::Constant(c) => write_constant(out, c),
        TermKind::Variable(n) => push_str(out, n.as_str()),
        TermKind::Wildcard => push_str(out, "_"),
    }
}

fn operand_wraps(e: &Expr, parent: ArithOp, right: bool) -> (r: bool)
    ensures
        r == spec_operand_wraps(*e, parent, right),
{
    match &e.kind {
        ExprKind::Binary { op, .. } => op.precedence() < parent.precedence() || (op.precedence()
            == parent.precedence() && right),
        _ => false,
    }
}

/// Appends `e`, in parentheses when `wrap` holds.
fn write_wrapped(out: &mut String, e: &Expr, wrap: bool)
    ensures
        final(out)@ == old(out)@ + spec_parens(wrap, spec_expr_text(*e)),
    decreases e, 3int,
{
    let ghost start = out@;
    if wrap {
        push_char(out, '(');
        write_expr(out, e);
        push_char(out, ')');
        assert(out@ =~= start + spec_parens(wrap, spec_expr_text(*e)));
    } else {
        write_expr(out, e);
    }
}

fn write_expr(out: &mut String, e: &Expr)
    ensures
        final(out)@ == old(out)@ + spec_expr_text(*e),
    decreases e, 2int,
{
    let ghost start = out@;
    match &e.kind {
        ExprKind::Term(t) => write_term(out, t),
        ExprKind::Cast { expr, ty } => {
            let wrap = match &expr.kind {
                ExprKind::Binary { .. } => true,
                _ => false,
            };
            write_wrapped(out, expr, wrap);
            push_str(out, " as ");
            push_str(out, ty.keyword());
            assert(out@ =~= start + spec_expr_text(*e));
        },
        ExprKind::Binary { op, lhs, rhs } => {
            let wl = operand_wraps(lhs, *op, false);
            write_wrapped(out, lhs, wl);
            push_char(out, ' ');
            push_str(out, crate::ast::arith_symbol(*op));
            push_char(out, ' ');
            let wr = operand_wraps(rhs, *op, true);
            write_wrapped(out, rhs, wr);
            assert(out@ =~= start + spec_expr_text(*e));
        },
        ExprKind::Aggregate(agg) => {
            push_str(out, agg.op.keyword());
            push_str(out, " { ");
            write_expr(out, &agg.expr);
            push_str(out, " | ");
            write_body(out, &agg.goal);
            push_str(out, " }");
            assert(out@ =~= start + spec_expr_text(*e));
        },
    }
}

fn write_exprs(out: &mut String, es: &Vec<Expr>)
    ensures
        final(out)@ == old(out)@ + spec_exprs_text(es@),
    decreases es, 0int,
{
    let ghost start = out@;
    let mut i: usize = 0;
    while i < es.len()
        invariant
            i <= es.len(),
            out@ == start + spec_exprs_text(es@.take(i as int)),
        decreases es.len() - i,
    {
        if i > 0 {
            push_str(out, ", ");
        }
        assert(decreases_to!(es => es@[i as int]));
        write_expr(out, &es[i]);
        proof {
            let t = es@.take(i + 1);
            assert(t.drop_last() =~= es@.take(i as int));
            assert(t.last() == es@[i as int]);
            if i == 0 {
                assert(t.len() == 1 && t[0] == es@[0]);
                assert(es@.take(0) =~= Seq::<Expr>::empty());
            }
            assert(out@ =~= start + spec_exprs_text(t));
        }
        i += 1;
    }
    assert(es@.take(es@.len() as int) =~= es@);
}

fn write_named(out: &mut String, ns: &Vec<NamedArg>)
    ensures
        final(out)@ == old(out)@ + spec_named_text(ns@),
    decreases ns, 0int,
{
    let ghost start = out@;
    let mut i: usize = 0;
    while i < ns.len()
        invariant
            i <= ns.len(),
            out@ == start + spec_named_text(ns@.take(i as int)),
        decreases ns.len() - i,
    {
        if i > 0 {
            push_str(out, ", ");
        }
        let n = &ns[i];
        push_str(out, n.field.name.as_str());
        push_str(out, ": ");
        assert(decreases_to!(ns => ns@[i as int].value));
        write_expr(out, &n.value);
        proof {
            let t = ns@.take(i + 1);
            assert(t.drop_last() =~= ns@.take(i as int));
            assert(t.last() == ns@[i as int]);
            if i == 0 {
                assert(t.len() == 1 && t[0] == ns@[0]);
                assert(ns@.take(0) =~= Seq::<NamedArg>::empty());
            }
            assert(out@ =~= start + spec_named_text(t));
        }
        i += 1;
    }
    assert(ns@.take(ns@.len() as int) =~= ns@);
}

fn write_atom(out: &mut String, a: &Atom)
    ensures
        final(out)@ == old(out)@ + spec_atom_text(*a),
    decreases a, 1int,
{
    let ghost start = out@;
    push_str(out, a.predicate.name.as_str());
    push_char(out, '(');
    match &a.args {
        Args::Positional(es) => write_exprs(out, es),
        Args::Named(ns) => write_named(out, ns),
    }
    push_char(out, ')');
    assert(out@ =~= start + spec_atom_text(*a));
}

fn write_literal(out: &mut String, l: &Literal)
    ensures
        final(out)@ == old(out)@ + spec_literal_text(*l),
    decreases l, 2int,
{
    let ghost start = out@;
    match &l.kind {
        LiteralKind::Atom { negated, atom } => {
            if *negated {
                push_str(out, "not ");
            }
            write_atom(out, atom);
        },
        LiteralKind::Comparison(c) => {
            write_expr(out, &c.lhs);
            push_char(out, ' ');
            push_str(out, crate::ast::cmp_symbol(c.op));
            push_char(out, ' ');
            write_expr(out, &c.rhs);
        },
        LiteralKind::Presence { expr, negated } => {
            write_expr(out, expr);
            if *negated {
                push_str(out, " is not absent");
            } else {
                push_str(out, " is absent");
            }
        },
    }
    assert(out@ =~= start + spec_literal_text(*l));
}

fn write_body(out: &mut String, lits: &Vec<Literal>)
    ensures
        final(out)@ == old(out)@ + spec_body_text(lits@),
    decreases lits, 0int,
{
    let ghost start = out@;
    let mut i: usize = 0;
    while i < lits.len()
        invariant
            i <= lits.len(),
            out@ == start + spec_body_text(lits@.take(i as int)),
        decreases lits.len() - i,
    {
        if i > 0 {
            push_str(out, ", ");
        }
        assert(decreases_to!(lits => lits@[i as int]));
        write_literal(out, &lits[i]);
        proof {
            let t = lits@.take(i + 1);
            assert(t.drop_last() =~= lits@.take(i as int));
            assert(t.last() == lits@[i as int]);
            if i == 0 {
                assert(t.len() == 1 && t[0] == lits@[0]);
                assert(lits@.take(0) =~= Seq::<Literal>::empty());
            }
            assert(out@ =~= start + spec_body_text(t));
        }
        i += 1;
    }
    assert(lits@.take(lits@.len() as int) =~= lits@);
}

/// Renders one atom (no trailing `.`).
pub fn print_atom(atom: &Atom) -> (r: String)
    ensures
        r@ == spec_atom_text(*atom),
{
    let mut out = String::new();
    write_atom(&mut out, atom);
    assert(out@ =~= spec_atom_text(*atom));
    out
}

/// Fields `name` or `name: type`, separated by `, `.
pub open spec fn spec_fields_text(fs: Seq<FieldDecl>) -> Seq<char>
    decreases fs.len(),
{
    if fs.len() == 0 {
        seq![]
    } else {
        let f = fs.last();
        let one = match f.ty {
            Some(ty) => f.name.name@ + ": "@ + spec_type_keyword(ty),
            None => f.name.name@,
        };
        if fs.len() == 1 {
            one
        } else {
            spec_fields_text(fs.drop_last()) + ", "@ + one
        }
    }
}

/// The text of an import: a module import; a `std` import as the module import
/// it was written as; a data import with its optional table and schema.
pub open spec fn spec_import_text(i: Import) -> Seq<char> {
    match i.kind {
        ImportKind::Module => "import "@ + spec_string_literal(i.path@) + seq!['.'],
        ImportKind::Std { module } => "import \"std/"@ + module@ + "\"."@,
        ImportKind::Data { table, relation, schema } => "import "@ + spec_string_literal(i.path@)
            + match table {
            Some((t, _)) => " table "@ + spec_string_literal(t@),
            None => seq![],
        } + " as "@ + relation.name@ + match schema {
            Some(fs) => seq!['('] + spec_fields_text(fs@) + seq![')'],
            None => seq![],
        } + seq!['.'],
    }
}

pub open spec fn spec_declare_text(d: Declaration) -> Seq<char> {
    "declare "@ + d.relation.name@ + seq!['('] + spec_fields_text(d.fields@) + ")."@
}

/// A fact `head.` or a rule `head :- body.`.
pub open spec fn spec_clause_text(c: Clause) -> Seq<char> {
    if c.body@.len() == 0 {
        spec_atom_text(c.head) + seq!['.']
    } else {
        spec_atom_text(c.head) + " :- "@ + spec_body_text(c.body@) + seq!['.']
    }
}

/// A query `?- body.` or a named query `?- name: body.`.
pub open spec fn spec_query_text(q: Query) -> Seq<char> {
    match q.name {
        Some(n) => "?- "@ + n.name@ + ": "@ + spec_body_text(q.body@) + seq!['.'],
        None => "?- "@ + spec_body_text(q.body@) + seq!['.'],
    }
}

pub open spec fn spec_statement_text(s: Statement) -> Seq<char> {
    match s.kind {
        StatementKind::Import(i) => spec_import_text(i),
        StatementKind::Declare(d) => spec_declare_text(d),
        StatementKind::Clause(c) => spec_clause_text(c),
        StatementKind::Query(q) => spec_query_text(q),
    }
}

/// Each statement followed by a newline.
pub open spec fn spec_statements_text(ss: Seq<Statement>) -> Seq<char>
    decreases ss.len(),
{
    if ss.len() == 0 {
        seq![]
    } else {
        spec_statements_text(ss.drop_last()) + spec_statement_text(ss.last()) + seq!['\n']
    }
}

/// The canonical text of a program, one statement per line.
pub open spec fn spec_program_text(p: Program) -> Seq<char> {
    spec_statements_text(p.statements@)
}

fn write_fields(out: &mut String, fs: &Vec<FieldDecl>)
    ensures
        final(out)@ == old(out)@ + spec_fields_text(fs@),
{
    let ghost start = out@;
    let mut i: usize = 0;
    while i < fs.len()
        invariant
            i <= fs.len(),
            out@ == start + spec_fields_text(fs@.take(i as int)),
        decreases fs.len() - i,
    {
        if i > 0 {
            push_str(out, ", ");
        }
        let f = &fs[i];
        push_str(out, f.name.name.as_str());
        match f.ty {
            Some(ty) => {
                push_str(out, ": ");
                push_str(out, ty.keyword());
            },
            None => {},
        }
        proof {
            let t = fs@.take(i + 1);
            assert(t.drop_last() =~= fs@.take(i as int));
            assert(t.last() == fs@[i as int]);
            if i == 0 {
                assert(fs@.take(0) =~= Seq::<FieldDecl>::empty());
            }
            assert(out@ =~= start + spec_fields_text(t));
        }
        i += 1;
    }
    assert(fs@.take(fs@.len() as int) =~= fs@);
}

fn write_import(out: &mut String, i: &Import)
    ensures
        final(out)@ == old(out)@ + spec_import_text(*i),
{
    let ghost start = out@;
    match &i.kind {
        ImportKind::Module => {
            push_str(out, "import ");
            write_string_literal(out, i.path.as_str());
            push_char(out, '.');
        },
        ImportKind::Std { module } => {
            push_str(out, "import \"std/");
            push_str(out, module.as_str());
            push_str(out, "\".");
        },
        ImportKind::Data { table, relation, schema } => {
            push_str(out, "import ");
            write_string_literal(out, i.path.as_str());
            match table {
                Some((t, _)) => {
                    push_str(out, " table ");
                    write_string_literal(out, t.as_str());
                },
                None => {},
            }
            push_str(out, " as ");
            push_str(out, relation.name.as_str());
            match schema {
                Some(fs) => {
                    push_char(out, '(');
                    write_fields(out, fs);
                    push_char(out, ')');
                },
                None => {},
            }
            push_char(out, '.');
        },
    }
    assert(out@ =~= start + spec_import_text(*i));
}

fn write_statement(out: &mut String, s: &Statement)
    ensures
        final(out)@ == old(out)@ + spec_statement_text(*s),
{
    let ghost start = out@;
    match &s.kind {
        StatementKind::Import(i) => write_import(out, i),
        StatementKind::Declare(d) => {
            push_str(out, "declare ");
            push_str(out, d.relation.name.as_str());
            push_char(out, '(');
            write_fields(out, &d.fields);
            push_str(out, ").");
        },
        StatementKind::Clause(c) => {
            write_atom(out, &c.head);
            if c.body.len() > 0 {
                push_str(out, " :- ");
                write_body(out, &c.body);
            }
            push_char(out, '.');
        },
        StatementKind::Query(q) => {
            push_str(out, "?- ");
            match &q.name {
                Some(n) => {
                    push_str(out, n.name.as_str());
                    push_str(out, ": ");
                },
                None => {},
            }
            write_body(out, &q.body);
            push_char(out, '.');
        },
    }
    assert(out@ =~= start + spec_statement_text(*s));
}

/// Renders a surface program to canonical Datalog text, one statement per line.
pub fn print_program(program: &Program) -> (r: String)
    ensures
        r@ == spec_program_text(*program),
{
    let mut out = String::new();
    let ss = &program.statements;
    let mut i: usize = 0;
    while i < ss.len()
        invariant
            i <= ss.len(),
            out@ == spec_statements_text(ss@.take(i as int)),
        decreases ss.len() - i,
    {
        write_statement(&mut out, &ss[i]);
        push_char(&mut out, '\n');
        proof {
            let t = ss@.take(i + 1);
            assert(t.drop_last() =~= ss@.take(i as int));
            assert(t.last() == ss@[i as int]);
            assert(out@ =~= spec_statements_text(t));
        }
        i += 1;
    }
    assert(ss@.take(ss@.len() as int) =~= ss@);
    out
}

// --- Ground facts in answer form ---

/// Values separated by `, `.
pub open spec fn spec_values_text(vs: Seq<ValueView>) -> Seq<char>
    decreases vs.len(),
{
    if vs.len() == 0 {
        seq![]
    } else if vs.len() == 1 {
        spec_value_text(vs[0])
    } else {
        spec_values_text(vs.drop_last()) + ", "@ + spec_value_text(vs.last())
    }
}

/// One ground fact as a statement: `pred(v1, v2).`.
pub open spec fn spec_ground_fact_text(pred: Seq<char>, vs: Seq<ValueView>) -> Seq<char> {
    pred + seq!['('] + spec_values_text(vs) + ")."@
}

fn write_values(out: &mut String, vs: &[Value])
    ensures
        final(out)@ == old(out)@ + spec_values_text(vs@.map_values(|v: Value| v@)),
{
    let ghost start = out@;
    let ghost all = vs@.map_values(|v: Value| v@);
    let mut i: usize = 0;
    while i < vs.len()
        invariant
            i <= vs.len(),
            all == vs@.map_values(|v: Value| v@),
            out@ == start + spec_values_text(all.take(i as int)),
        decreases vs.len() - i,
    {
        if i > 0 {
            push_str(out, ", ");
        }
        write_value(out, &vs[i]);
        proof {
            let t = all.take(i + 1);
            assert(t.drop_last() =~= all.take(i as int));
            assert(t.last() == vs@[i as int]@);
            if i == 0 {
                assert(all.take(0) =~= Seq::<ValueView>::empty());
            }
            assert(out@ =~= start + spec_values_text(t));
        }
        i += 1;
    }
    assert(all.take(all.len() as int) =~= all);
}

/// Prints one ground fact as canonical Datalog: `pred(v1, v2, …).`.
pub fn print_ground_fact(predicate: &str, values: &[Value]) -> (r: String)
    ensures
        r@ == spec_ground_fact_text(predicate@, values@.map_values(|v: Value| v@)),
{
    let mut out = String::new();
    push_str(&mut out, predicate);
    push_char(&mut out, '(');
    write_values(&mut out, values);
    push_str(&mut out, ").");
    assert(out@ =~= spec_ground_fact_text(predicate@, values@.map_values(|v: Value| v@)));
    out
}

/// Facts given as (predicate index, values), each printed as a ground fact and
/// followed by a newline.
pub open spec fn spec_fact_lines_text(facts: Seq<(usize, Vec<Value>)>, names: Seq<Seq<char>>) -> Seq<
    char,
>
    decreases facts.len(),
{
    if facts.len() == 0 {
        seq![]
    } else {
        let (p, vs) = facts.last();
        spec_fact_lines_text(facts.drop_last(), names) + spec_ground_fact_text(
            names[p as int],
            vs@.map_values(|v: Value| v@),
        ) + seq!['\n']
    }
}

/// The names of a program's predicates, in index order.
pub open spec fn spec_pred_names(predicates: Seq<crate::ir::PredicateInfo>) -> Seq<Seq<char>> {
    predicates.map_values(|p: crate::ir::PredicateInfo| p.name@)
}

/// Renders facts, each `(predicate index, values)`, one per line; `predicates`
/// supplies the names.
pub fn print_fact_lines(facts: &[(usize, Vec<Value>)], predicates: &[crate::ir::PredicateInfo]) -> (r:
    String)
    requires
        forall|i: int| 0 <= i < facts@.len() ==> (#[trigger] facts@[i]).0 < predicates@.len(),
    ensures
        r@ == spec_fact_lines_text(facts@, spec_pred_names(predicates@)),
{
    let ghost names = spec_pred_names(predicates@);
    let mut out = String::new();
    let mut i: usize = 0;
    while i < facts.len()
        invariant
            i <= facts.len(),
            names == spec_pred_names(predicates@),
            forall|j: int| 0 <= j < facts@.len() ==> (#[trigger] facts@[j]).0 < predicates@.len(),
            out@ == spec_fact_lines_text(facts@.take(i as int), names),
        decreases facts.len() - i,
    {
        let (p, vs) = &facts[i];
        assert(facts@[i as int].0 < predicates@.len());
        let line = print_ground_fact(predicates[*p].name.as_str(), vs.as_slice());
        push_str(&mut out, line.as_str());
        push_char(&mut out, '\n');
        proof {
            let t = facts@.take(i + 1);
            assert(t.drop_last() =~= facts@.take(i as int));
            assert(t.last() == facts@[i as int]);
            assert(names[*p as int] == predicates@[*p as int].name@);
            assert(out@ =~= spec_fact_lines_text(t, names));
        }
        i += 1;
    }
    assert(facts@.take(facts@.len() as int) =~= facts@);
    out
}

// --- Lowered rules, as a proof cites them ---

/// Parts separated by `, `.
pub open spec fn spec_join(parts: Seq<Seq<char>>) -> Seq<char>
    decreases parts.len(),
{
    if parts.len() == 0 {
        seq![]
    } else if parts.len() == 1 {
        parts[0]
    } else {
        spec_join(parts.drop_last()) + ", "@ + parts.last()
    }
}

pub open spec fn spec_term_occ(t: ir::Term, slot: nat) -> nat {
    match t {
        ir::Term::Var(v) => if v.0 == slot {
            1
        } else {
            0
        },
        ir::Term::Const(_) => 0,
    }
}

pub open spec fn spec_terms_occ(ts: Seq<ir::Term>, slot: nat) -> nat
    decreases ts.len(),
{
    if ts.len() == 0 {
        0
    } else {
        spec_terms_occ(ts.drop_last(), slot) + spec_term_occ(ts.last(), slot)
    }
}

/// How often variable slot `slot` occurs in an expression.
pub open spec fn spec_expr_occ(e: ir::Expr, slot: nat) -> nat
    decreases e,
{
    match e {
        ir::Expr::Term(t) => spec_term_occ(t, slot),
        ir::Expr::Binary { lhs, rhs, .. } => spec_expr_occ(*lhs, slot) + spec_expr_occ(*rhs, slot),
        ir::Expr::Cast { expr, .. } => spec_expr_occ(*expr, slot),
        ir::Expr::Builtin { args, .. } => spec_exprs_occ(args@, slot),
    }
}

pub open spec fn spec_exprs_occ(es: Seq<ir::Expr>, slot: nat) -> nat
    decreases es,
{
    if es.len() == 0 {
        0
    } else {
        spec_exprs_occ(es.drop_last(), slot) + spec_expr_occ(es.last(), slot)
    }
}

/// How often variable slot `slot` occurs in a body literal, an aggregate's
/// result, parameters, expression and goal included.
pub open spec fn spec_lit_occ(l: ir::BodyLiteral, slot: nat) -> nat
    decreases l,
{
    match l.kind {
        ir::BodyLiteralKind::Atom(a) => spec_terms_occ(a.args@, slot),
        ir::BodyLiteralKind::NegAtom(a) => spec_terms_occ(a.args@, slot),
        ir::BodyLiteralKind::Compare { lhs, rhs, .. } => spec_expr_occ(lhs, slot) + spec_expr_occ(
            rhs,
            slot,
        ),
        ir::BodyLiteralKind::Presence { expr, .. } => spec_expr_occ(expr, slot),
        ir::BodyLiteralKind::Aggregate { result, params, expr, goal, .. } => (if result.0 == slot {
            1nat
        } else {
            0nat
        }) + spec_exprs_occ(params@, slot) + spec_expr_occ(expr, slot) + spec_lits_occ(goal@, slot),
    }
}

pub open spec fn spec_lits_occ(ls: Seq<ir::BodyLiteral>, slot: nat) -> nat
    decreases ls,
{
    if ls.len() == 0 {
        0
    } else {
        spec_lits_occ(ls.drop_last(), slot) + spec_lit_occ(ls.last(), slot)
    }
}

/// How often variable slot `slot` occurs across a rule's head and body.
pub open spec fn spec_rule_occ(r: ir::Rule, slot: nat) -> nat {
    spec_terms_occ(r.head.args@, slot) + spec_lits_occ(r.body@, slot)
}

/// Whether a slot has no source name: a wildcard or a slot lowering made.
pub open spec fn spec_unnamed(r: ir::Rule, slot: nat) -> bool {
    slot >= r.var_names@.len() || r.var_names@[slot as int] is None
}

/// Whether an unnamed slot constrains nothing: it is out of the rule's slot
/// range or occurs at most once.
pub open spec fn spec_lone(r: ir::Rule, slot: nat) -> bool {
    slot >= r.var_names@.len() || spec_rule_occ(r, slot) <= 1
}

/// The name a variable prints as: its source name; `_` for an unnamed slot
/// occurring once; `_g<slot>` for an unnamed slot occurring more often (a
/// temporary lowering hoisted, which must keep an identity).
pub open spec fn spec_var_name(r: ir::Rule, v: ir::Var) -> Seq<char> {
    let slot = v.0 as nat;
    if !spec_unnamed(r, slot) {
        r.var_names@[slot as int]->Some_0@
    } else if spec_lone(r, slot) {
        "_"@
    } else {
        "_g"@ + decimal(slot)
    }
}

/// An argument that partial selection dropped at the surface: an unnamed slot
/// that nothing else mentions.
pub open spec fn spec_omitted(t: ir::Term, r: ir::Rule) -> bool {
    match t {
        ir::Term::Var(v) => spec_unnamed(r, v.0 as nat) && spec_lone(r, v.0 as nat),
        ir::Term::Const(_) => false,
    }
}

pub open spec fn spec_ir_term_text(t: ir::Term, r: ir::Rule) -> Seq<char> {
    match t {
        ir::Term::Const(v) => spec_value_text(v@),
        ir::Term::Var(v) => spec_var_name(r, v),
    }
}

pub open spec fn spec_ir_operand_wraps(e: ir::Expr, parent: ArithOp, right: bool) -> bool {
    match e {
        ir::Expr::Binary { op, .. } => spec_precedence(op) < spec_precedence(parent) || (
        spec_precedence(op) == spec_precedence(parent) && right),
        _ => false,
    }
}

/// The text of a lowered expression; a `std` relation prints as a call of its
/// relation name.
pub open spec fn spec_ir_expr_text(e: ir::Expr, r: ir::Rule) -> Seq<char>
    decreases e,
{
    match e {
        ir::Expr::Term(t) => spec_ir_term_text(t, r),
        ir::Expr::Binary { op, lhs, rhs } => spec_parens(
            spec_ir_operand_wraps(*lhs, op, false),
            spec_ir_expr_text(*lhs, r),
        ) + seq![' '] + spec_arith_symbol(op) + seq![' '] + spec_parens(
            spec_ir_operand_wraps(*rhs, op, true),
            spec_ir_expr_text(*rhs, r),
        ),
        ir::Expr::Cast { expr, ty } => spec_parens((*expr) is Binary, spec_ir_expr_text(*expr, r))
            + " as "@ + spec_type_keyword(ty),
        ir::Expr::Builtin { op, args } => spec_op_name(op) + seq!['('] + spec_ir_exprs_text(args@, r)
            + seq![')'],
    }
}

pub open spec fn spec_ir_exprs_text(es: Seq<ir::Expr>, r: ir::Rule) -> Seq<char>
    decreases es,
{
    if es.len() == 0 {
        seq![]
    } else if es.len() == 1 {
        spec_ir_expr_text(es[0], r)
    } else {
        spec_ir_exprs_text(es.drop_last(), r) + ", "@ + spec_ir_expr_text(es.last(), r)
    }
}

/// The `field: term` parts of the first `k` argument positions, omitted
/// arguments dropped.
pub open spec fn spec_named_parts(args: Seq<ir::Term>, fields: Seq<String>, r: ir::Rule, k: nat) -> Seq<
    Seq<char>,
>
    decreases k,
{
    if k == 0 {
        seq![]
    } else {
        let t = args[k - 1];
        spec_named_parts(args, fields, r, (k - 1) as nat) + if spec_omitted(t, r) {
            Seq::<Seq<char>>::empty()
        } else {
            seq![fields[k - 1]@ + ": "@ + spec_ir_term_text(t, r)]
        }
    }
}

pub open spec fn spec_min(a: nat, b: nat) -> nat {
    if a <= b {
        a
    } else {
        b
    }
}

/// A lowered atom: in named form where the predicate has field names and some
/// argument survives dropping the omitted ones, positional otherwise.
pub open spec fn spec_ir_atom_text(a: ir::Atom, r: ir::Rule, preds: Seq<ir::PredicateInfo>) -> Seq<
    char,
> {
    let info = preds[a.pred.0 as int];
    let positional = spec_join(a.args@.map_values(|t: ir::Term| spec_ir_term_text(t, r)));
    match info.fields {
        Some(fs) => {
            let parts = spec_named_parts(a.args@, fs@, r, spec_min(a.args@.len(), fs@.len()));
            if parts.len() > 0 {
                info.name@ + seq!['('] + spec_join(parts) + seq![')']
            } else {
                info.name@ + seq!['('] + positional + seq![')']
            }
        },
        None => info.name@ + seq!['('] + positional + seq![')'],
    }
}

/// A lowered body literal; an aggregate prints as the assignment it lowers.
pub open spec fn spec_ir_lit_text(l: ir::BodyLiteral, r: ir::Rule, preds: Seq<ir::PredicateInfo>) -> Seq<
    char,
>
    decreases l,
{
    match l.kind {
        ir::BodyLiteralKind::Atom(a) => spec_ir_atom_text(a, r, preds),
        ir::BodyLiteralKind::NegAtom(a) => "not "@ + spec_ir_atom_text(a, r, preds),
        ir::BodyLiteralKind::Compare { op, lhs, rhs } => spec_ir_expr_text(lhs, r) + seq![' ']
            + spec_cmp_symbol(op) + seq![' '] + spec_ir_expr_text(rhs, r),
        ir::BodyLiteralKind::Presence { expr, negated } => spec_ir_expr_text(expr, r) + if negated {
            " is not absent"@
        } else {
            " is absent"@
        },
        ir::BodyLiteralKind::Aggregate { result, op, expr, goal, .. } => spec_var_name(r, result)
            + " = "@ + spec_agg_keyword(op) + " { "@ + spec_ir_expr_text(expr, r) + " | "@
            + spec_ir_lits_text(goal@, r, preds) + " }"@,
    }
}

pub open spec fn spec_ir_lits_text(
    ls: Seq<ir::BodyLiteral>,
    r: ir::Rule,
    preds: Seq<ir::PredicateInfo>,
) -> Seq<char>
    decreases ls,
{
    if ls.len() == 0 {
        seq![]
    } else if ls.len() == 1 {
        spec_ir_lit_text(ls[0], r, preds)
    } else {
        spec_ir_lits_text(ls.drop_last(), r, preds) + ", "@ + spec_ir_lit_text(ls.last(), r, preds)
    }
}

/// A lowered rule in its source spelling: `head` or `head :- lit, lit`.
pub open spec fn spec_ir_rule_text(r: ir::Rule, preds: Seq<ir::PredicateInfo>) -> Seq<char> {
    if r.body@.len() == 0 {
        spec_ir_atom_text(r.head, r, preds)
    } else {
        spec_ir_atom_text(r.head, r, preds) + " :- "@ + spec_ir_lits_text(r.body@, r, preds)
    }
}

/// Every atom of a literal names a predicate below `n`.
pub open spec fn spec_lit_preds_ok(l: ir::BodyLiteral, n: nat) -> bool
    decreases l,
{
    match l.kind {
        ir::BodyLiteralKind::Atom(a) => a.pred.0 < n,
        ir::BodyLiteralKind::NegAtom(a) => a.pred.0 < n,
        ir::BodyLiteralKind::Aggregate { goal, .. } => spec_lits_preds_ok(goal@, n),
        _ => true,
    }
}

pub open spec fn spec_lits_preds_ok(ls: Seq<ir::BodyLiteral>, n: nat) -> bool
    decreases ls,
{
    if ls.len() == 0 {
        true
    } else {
        spec_lits_preds_ok(ls.drop_last(), n) && spec_lit_preds_ok(ls.last(), n)
    }
}

/// Every atom of a rule names a known predicate.
pub open spec fn spec_rule_preds_ok(r: ir::Rule, n: nat) -> bool {
    r.head.pred.0 < n && spec_lits_preds_ok(r.body@, n)
}

/// `x`, held at 2: all a name needs to know is "once" or "more than once".
pub open spec fn spec_cap(x: int) -> int {
    if x >= 2 {
        2
    } else {
        x
    }
}

/// `new` is `old` with each slot's count raised by `occ(slot)`, held at 2.
pub open spec fn spec_counted(old: Seq<u32>, new: Seq<u32>, occ: spec_fn(nat) -> nat) -> bool {
    &&& new.len() == old.len()
    &&& forall|s: int| 0 <= s < new.len() ==> #[trigger] new[s] == spec_cap(old[s] + occ(s as nat))
}

pub open spec fn spec_small(counts: Seq<u32>) -> bool {
    forall|s: int| 0 <= s < counts.len() ==> #[trigger] counts[s] <= 2
}

fn count_term(t: &ir::Term, counts: &mut Vec<u32>)
    requires
        spec_small(old(counts)@),
    ensures
        spec_small(final(counts)@),
        spec_counted(old(counts)@, final(counts)@, |s: nat| spec_term_occ(*t, s)),
{
    match t {
        ir::Term::Var(v) => {
            let slot = v.0 as usize;
            if slot < counts.len() {
                let c = counts[slot];
                if c < 2 {
                    counts.set(slot, c + 1);
                }
            }
        },
        ir::Term::Const(_) => {},
    }
}

fn count_terms(ts: &Vec<ir::Term>, counts: &mut Vec<u32>)
    requires
        spec_small(old(counts)@),
    ensures
        spec_small(final(counts)@),
        spec_counted(old(counts)@, final(counts)@, |s: nat| spec_terms_occ(ts@, s)),
{
    let ghost orig = counts@;
    let mut i: usize = 0;
    while i < ts.len()
        invariant
            i <= ts.len(),
            spec_small(counts@),
            spec_counted(orig, counts@, |s: nat| spec_terms_occ(ts@.take(i as int), s)),
        decreases ts.len() - i,
    {
        let ghost before = counts@;
        count_term(&ts[i], counts);
        proof {
            let t = ts@.take(i + 1);
            assert(t.drop_last() =~= ts@.take(i as int));
            assert forall|s: int| 0 <= s < counts@.len() implies #[trigger] counts@[s] == spec_cap(
                orig[s] + spec_terms_occ(t, s as nat),
            ) by {
                assert(before[s] == spec_cap(orig[s] + spec_terms_occ(ts@.take(i as int), s as nat)));
                assert(counts@[s] == spec_cap(before[s] + spec_term_occ(ts@[i as int], s as nat)));
            }
        }
        i += 1;
    }
    assert(ts@.take(ts@.len() as int) =~= ts@);
}

fn count_expr(e: &ir::Expr, counts: &mut Vec<u32>)
    requires
        spec_small(old(counts)@),
    ensures
        spec_small(final(counts)@),
        spec_counted(old(counts)@, final(counts)@, |s: nat| spec_expr_occ(*e, s)),
    decreases e, 1int,
{
    let ghost orig = counts@;
    match e {
        ir::Expr::Term(t) => count_term(t, counts),
        ir::Expr::Binary { lhs, rhs, .. } => {
            count_expr(lhs, counts);
            let ghost mid = counts@;
            count_expr(rhs, counts);
            assert forall|s: int| 0 <= s < counts@.len() implies #[trigger] counts@[s] == spec_cap(
                orig[s] + spec_expr_occ(*e, s as nat),
            ) by {
                assert(mid[s] == spec_cap(orig[s] + spec_expr_occ(**lhs, s as nat)));
            }
        },
        ir::Expr::Cast { expr, .. } => count_expr(expr, counts),
        ir::Expr::Builtin { args, .. } => count_exprs(args, counts),
    }
}

fn count_exprs(es: &Vec<ir::Expr>, counts: &mut Vec<u32>)
    requires
        spec_small(old(counts)@),
    ensures
        spec_small(final(counts)@),
        spec_counted(old(counts)@, final(counts)@, |s: nat| spec_exprs_occ(es@, s)),
    decreases es, 0int,
{
    let ghost orig = counts@;
    let mut i: usize = 0;
    while i < es.len()
        invariant
            i <= es.len(),
            spec_small(counts@),
            spec_counted(orig, counts@, |s: nat| spec_exprs_occ(es@.take(i as int), s)),
        decreases es.len() - i,
    {
        let ghost before = counts@;
        assert(decreases_to!(es => es@[i as int]));
        count_expr(&es[i], counts);
        proof {
            let t = es@.take(i + 1);
            assert(t.drop_last() =~= es@.take(i as int));
            assert forall|s: int| 0 <= s < counts@.len() implies #[trigger] counts@[s] == spec_cap(
                orig[s] + spec_exprs_occ(t, s as nat),
            ) by {
                assert(before[s] == spec_cap(orig[s] + spec_exprs_occ(es@.take(i as int), s as nat)));
                assert(counts@[s] == spec_cap(before[s] + spec_expr_occ(es@[i as int], s as nat)));
            }
        }
        i += 1;
    }
    assert(es@.take(es@.len() as int) =~= es@);
}

fn count_literal(l: &ir::BodyLiteral, counts: &mut Vec<u32>)
    requires
        spec_small(old(counts)@),
    ensures
        spec_small(final(counts)@),
        spec_counted(old(counts)@, final(counts)@, |s: nat| spec_lit_occ(*l, s)),
    decreases l, 1int,
{
    let ghost orig = counts@;
    match &l.kind {
        ir::BodyLiteralKind::Atom(a) => count_terms(&a.args, counts),
        ir::BodyLiteralKind::NegAtom(a) => count_terms(&a.args, counts),
        ir::BodyLiteralKind::Compare { lhs, rhs, .. } => {
            count_expr(lhs, counts);
            let ghost mid = counts@;
            count_expr(rhs, counts);
            assert forall|s: int| 0 <= s < counts@.len() implies #[trigger] counts@[s] == spec_cap(
                orig[s] + spec_lit_occ(*l, s as nat),
            ) by {
                assert(mid[s] == spec_cap(orig[s] + spec_expr_occ(*lhs, s as nat)));
            }
        },
        ir::BodyLiteralKind::Presence { expr, .. } => count_expr(expr, counts),
        ir::BodyLiteralKind::Aggregate { result, params, expr, goal, .. } => {
            let rt = ir::Term::Var(*result);
            count_term(&rt, counts);
            let ghost m1 = counts@;
            count_exprs(params, counts);
            let ghost m2 = counts@;
            count_expr(expr, counts);
            let ghost m3 = counts@;
            count_literals(goal, counts);
            assert forall|s: int| 0 <= s < counts@.len() implies #[trigger] counts@[s] == spec_cap(
                orig[s] + spec_lit_occ(*l, s as nat),
            ) by {
                assert(m1[s] == spec_cap(orig[s] + spec_term_occ(rt, s as nat)));
                assert(m2[s] == spec_cap(m1[s] + spec_exprs_occ(params@, s as nat)));
                assert(m3[s] == spec_cap(m2[s] + spec_expr_occ(*expr, s as nat)));
            }
        },
    }
}

fn count_literals(ls: &Vec<ir::BodyLiteral>, counts: &mut Vec<u32>)
    requires
        spec_small(old(counts)@),
    ensures
        spec_small(final(counts)@),
        spec_counted(old(counts)@, final(counts)@, |s: nat| spec_lits_occ(ls@, s)),
    decreases ls, 0int,
{
    let ghost orig = counts@;
    let mut i: usize = 0;
    while i < ls.len()
        invariant
            i <= ls.len(),
            spec_small(counts@),
            spec_counted(orig, counts@, |s: nat| spec_lits_occ(ls@.take(i as int), s)),
        decreases ls.len() - i,
    {
        let ghost before = counts@;
        assert(decreases_to!(ls => ls@[i as int]));
        count_literal(&ls[i], counts);
        proof {
            let t = ls@.take(i + 1);
            assert(t.drop_last() =~= ls@.take(i as int));
            assert forall|s: int| 0 <= s < counts@.len() implies #[trigger] counts@[s] == spec_cap(
                orig[s] + spec_lits_occ(t, s as nat),
            ) by {
                assert(before[s] == spec_cap(orig[s] + spec_lits_occ(ls@.take(i as int), s as nat)));
                assert(counts@[s] == spec_cap(before[s] + spec_lit_occ(ls@[i as int], s as nat)));
            }
        }
        i += 1;
    }
    assert(ls@.take(ls@.len() as int) =~= ls@);
}

/// Rendering context for one rule: the program it belongs to, the rule, and
/// how often each of its slots occurs (held at 2).
struct RuleCx<'a> {
    program: &'a ir::Program,
    rule: &'a ir::Rule,
    counts: Vec<u32>,
}

impl<'a> RuleCx<'a> {
    spec fn wf(&self) -> bool {
        &&& self.counts@.len() == self.rule.var_names@.len()
        &&& forall|s: int|
            0 <= s < self.counts@.len() ==> #[trigger] self.counts@[s] == spec_cap(
                spec_rule_occ(*self.rule, s as nat) as int,
            )
    }

    fn new(program: &'a ir::Program, rule: &'a ir::Rule) -> (r: RuleCx<'a>)
        ensures
            r.wf(),
            r.program == program,
            r.rule == rule,
    {
        let mut counts: Vec<u32> = Vec::new();
        let mut i: usize = 0;
        while i < rule.var_names.len()
            invariant
                i <= rule.var_names.len(),
                counts@.len() == i,
                forall|s: int| 0 <= s < i ==> #[trigger] counts@[s] == 0,
            decreases rule.var_names.len() - i,
        {
            counts.push(0);
            i += 1;
        }
        let ghost zero = counts@;
        count_terms(&rule.head.args, &mut counts);
        let ghost mid = counts@;
        count_literals(&rule.body, &mut counts);
        proof {
            assert forall|s: int| 0 <= s < counts@.len() implies #[trigger] counts@[s] == spec_cap(
                spec_rule_occ(*rule, s as nat) as int,
            ) by {
                assert(mid[s] == spec_cap(zero[s] + spec_terms_occ(rule.head.args@, s as nat)));
            }
        }
        RuleCx { program, rule, counts }
    }

    /// Whether slot `slot` has no source name.
    fn unnamed(&self, slot: usize) -> (r: bool)
        ensures
            r == spec_unnamed(*self.rule, slot as nat),
    {
        slot >= self.rule.var_names.len() || self.rule.var_names[slot].is_none()
    }

    /// Whether slot `slot` is out of range or occurs at most once.
    fn lone(&self, slot: usize) -> (r: bool)
        requires
            self.wf(),
        ensures
            r == spec_lone(*self.rule, slot as nat),
    {
        slot >= self.counts.len() || self.counts[slot] <= 1
    }

    fn write_var(&self, out: &mut String, v: ir::Var)
        requires
            self.wf(),
        ensures
            final(out)@ == old(out)@ + spec_var_name(*self.rule, v),
    {
        let slot = v.0 as usize;
        if !self.unnamed(slot) {
            match &self.rule.var_names[slot] {
                Some(name) => push_str(out, name.as_str()),
                None => {},
            }
        } else if self.lone(slot) {
            push_str(out, "_");
        } else {
            let ghost start = out@;
            push_str(out, "_g");
            let digits = crate::text::decimal_chars(v.0 as u64);
            crate::text::push_chars(out, digits.as_slice());
            assert(out@ =~= start + spec_var_name(*self.rule, v));
        }
    }

    fn is_omitted(&self, t: &ir::Term) -> (r: bool)
        requires
            self.wf(),
        ensures
            r == spec_omitted(*t, *self.rule),
    {
        match t {
            ir::Term::Var(v) => self.unnamed(v.0 as usize) && self.lone(v.0 as usize),
            ir::Term::Const(_) => false,
        }
    }

    fn write_term(&self, out: &mut String, t: &ir::Term)
        requires
            self.wf(),
        ensures
            final(out)@ == old(out)@ + spec_ir_term_text(*t, *self.rule),
    {
        match t {
            ir::Term::Const(v) => write_value(out, v),
            ir::Term::Var(v) => self.write_var(out, *v),
        }
    }
}

fn ir_operand_wraps(e: &ir::Expr, parent: ArithOp, right: bool) -> (r: bool)
    ensures
        r == spec_ir_operand_wraps(*e, parent, right),
{
    match e {
        ir::Expr::Binary { op, .. } => op.precedence() < parent.precedence() || (op.precedence()
            == parent.precedence() && right),
        _ => false,
    }
}

fn write_ir_wrapped(out: &mut String, e: &ir::Expr, wrap: bool, cx: &RuleCx)
    requires
        cx.wf(),
    ensures
        final(out)@ == old(out)@ + spec_parens(wrap, spec_ir_expr_text(*e, *cx.rule)),
    decreases e, 3int,
{
    let ghost start = out@;
    if wrap {
        push_char(out, '(');
        write_ir_expr(out, e, cx);
        push_char(out, ')');
        assert(out@ =~= start + spec_parens(wrap, spec_ir_expr_text(*e, *cx.rule)));
    } else {
        write_ir_expr(out, e, cx);
    }
}

fn write_ir_expr(out: &mut String, e: &ir::Expr, cx: &RuleCx)
    requires
        cx.wf(),
    ensures
        final(out)@ == old(out)@ + spec_ir_expr_text(*e, *cx.rule),
    decreases e, 2int,
{
    let ghost start = out@;
    match e {
        ir::Expr::Term(t) => cx.write_term(out, t),
        ir::Expr::Binary { op, lhs, rhs } => {
            let wl = ir_operand_wraps(lhs, *op, false);
            write_ir_wrapped(out, lhs, wl, cx);
            push_char(out, ' ');
            push_str(out, crate::ast::arith_symbol(*op));
            push_char(out, ' ');
            let wr = ir_operand_wraps(rhs, *op, true);
            write_ir_wrapped(out, rhs, wr, cx);
            assert(out@ =~= start + spec_ir_expr_text(*e, *cx.rule));
        },
        ir::Expr::Cast { expr, ty } => {
            let wrap = match &**expr {
                ir::Expr::Binary { .. } => true,
                _ => false,
            };
            write_ir_wrapped(out, expr, wrap, cx);
            push_str(out, " as ");
            push_str(out, ty.keyword());
            assert(out@ =~= start + spec_ir_expr_text(*e, *cx.rule));
        },
        ir::Expr::Builtin { op, args } => {
            push_str(out, crate::stdlib::op_name(*op));
            push_char(out, '(');
            write_ir_exprs(out, args, cx);
            push_char(out, ')');
            assert(out@ =~= start + spec_ir_expr_text(*e, *cx.rule));
        },
    }
}

fn write_ir_exprs(out: &mut String, es: &Vec<ir::Expr>, cx: &RuleCx)
    requires
        cx.wf(),
    ensures
        final(out)@ == old(out)@ + spec_ir_exprs_text(es@, *cx.rule),
    decreases es, 0int,
{
    let ghost start = out@;
    let mut i: usize = 0;
    while i < es.len()
        invariant
            i <= es.len(),
            cx.wf(),
            out@ == start + spec_ir_exprs_text(es@.take(i as int), *cx.rule),
        decreases es.len() - i,
    {
        if i > 0 {
            push_str(out, ", ");
        }
        assert(decreases_to!(es => es@[i as int]));
        write_ir_expr(out, &es[i], cx);
        proof {
            let t = es@.take(i + 1);
            assert(t.drop_last() =~= es@.take(i as int));
            assert(t.last() == es@[i as int]);
            if i == 0 {
                assert(t.len() == 1 && t[0] == es@[0]);
                assert(es@.take(0) =~= Seq::<ir::Expr>::empty());
            }
            assert(out@ =~= start + spec_ir_exprs_text(t, *cx.rule));
        }
        i += 1;
    }
    assert(es@.take(es@.len() as int) =~= es@);
}

/// Appends parts separated by `, `.
fn write_joined(out: &mut String, parts: &Vec<String>)
    ensures
        final(out)@ == old(out)@ + spec_join(parts@.map_values(|p: String| p@)),
{
    let ghost start = out@;
    let ghost all = parts@.map_values(|p: String| p@);
    let mut i: usize = 0;
    while i < parts.len()
        invariant
            i <= parts.len(),
            all == parts@.map_values(|p: String| p@),
            out@ == start + spec_join(all.take(i as int)),
        decreases parts.len() - i,
    {
        if i > 0 {
            push_str(out, ", ");
        }
        push_str(out, parts[i].as_str());
        proof {
            let t = all.take(i + 1);
            assert(t.drop_last() =~= all.take(i as int));
            assert(t.last() == parts@[i as int]@);
            if i == 0 {
                assert(t.len() == 1 && t[0] == parts@[0]@);
                assert(all.take(0) =~= Seq::<Seq<char>>::empty());
            }
            assert(out@ =~= start + spec_join(t));
        }
        i += 1;
    }
    assert(all.take(all.len() as int) =~= all);
}

fn write_ir_atom(out: &mut String, a: &ir::Atom, cx: &RuleCx)
    requires
        cx.wf(),
        a.pred.0 < cx.program.predicates@.len(),
    ensures
        final(out)@ == old(out)@ + spec_ir_atom_text(*a, *cx.rule, cx.program.predicates@),
{
    let ghost start = out@;
    let info = &cx.program.predicates[a.pred.0 as usize];
    let ghost rule = *cx.rule;
    let ghost f = |t: ir::Term| spec_ir_term_text(t, rule);
    match &info.fields {
        Some(fs) => {
            let n = if a.args.len() <= fs.len() {
                a.args.len()
            } else {
                fs.len()
            };
            let mut parts: Vec<String> = Vec::new();
            let mut k: usize = 0;
            while k < n
                invariant
                    k <= n,
                    n == spec_min(a.args@.len(), fs@.len()),
                    cx.wf(),
                    rule == *cx.rule,
                    parts@.map_values(|p: String| p@) == spec_named_parts(a.args@, fs@, rule, k as nat),
                decreases n - k,
            {
                let t = &a.args[k];
                if !cx.is_omitted(t) {
                    let mut part = String::new();
                    push_str(&mut part, fs[k].as_str());
                    push_str(&mut part, ": ");
                    cx.write_term(&mut part, t);
                    let ghost before = parts@.map_values(|p: String| p@);
                    parts.push(part);
                    proof {
                        assert(parts@.map_values(|p: String| p@) =~= before.push(part@));
                        assert(part@ =~= fs@[k as int]@ + ": "@ + spec_ir_term_text(*t, rule));
                        assert(spec_named_parts(a.args@, fs@, rule, (k + 1) as nat) =~= before
                            + seq![fs@[k as int]@ + ": "@ + spec_ir_term_text(*t, rule)]);
                    }
                } else {
                    proof {
                        assert(spec_named_parts(a.args@, fs@, rule, (k + 1) as nat) =~= spec_named_parts(
                            a.args@,
                            fs@,
                            rule,
                            k as nat,
                        ));
                    }
                }
                k += 1;
            }
            if parts.len() > 0 {
                push_str(out, info.name.as_str());
                push_char(out, '(');
                write_joined(out, &parts);
                push_char(out, ')');
                assert(out@ =~= start + spec_ir_atom_text(*a, *cx.rule, cx.program.predicates@));
                return;
            }
        },
        None => {},
    }
    push_str(out, info.name.as_str());
    push_char(out, '(');
    let ghost open_at = out@;
    let ghost all = a.args@.map_values(f);
    let mut i: usize = 0;
    while i < a.args.len()
        invariant
            i <= a.args.len(),
            cx.wf(),
            rule == *cx.rule,
            all == a.args@.map_values(f),
            f == (|t: ir::Term| spec_ir_term_text(t, rule)),
            out@ == open_at + spec_join(all.take(i as int)),
        decreases a.args.len() - i,
    {
        if i > 0 {
            push_str(out, ", ");
        }
        cx.write_term(out, &a.args[i]);
        proof {
            let t = all.take(i + 1);
            assert(t.drop_last() =~= all.take(i as int));
            assert(t.last() == spec_ir_term_text(a.args@[i as int], rule));
            if i == 0 {
                assert(t.len() == 1 && t[0] == spec_ir_term_text(a.args@[0], rule));
                assert(all.take(0) =~= Seq::<Seq<char>>::empty());
            }
            assert(out@ =~= open_at + spec_join(t));
        }
        i += 1;
    }
    push_char(out, ')');
    proof {
        assert(all.take(all.len() as int) =~= all);
        assert(out@ =~= start + spec_ir_atom_text(*a, *cx.rule, cx.program.predicates@));
    }
}

fn write_ir_literal(out: &mut String, l: &ir::BodyLiteral, cx: &RuleCx)
    requires
        cx.wf(),
        spec_lit_preds_ok(*l, cx.program.predicates@.len()),
    ensures
        final(out)@ == old(out)@ + spec_ir_lit_text(*l, *cx.rule, cx.program.predicates@),
    decreases l, 1int,
{
    let ghost start = out@;
    match &l.kind {
        ir::BodyLiteralKind::Atom(a) => write_ir_atom(out, a, cx),
        ir::BodyLiteralKind::NegAtom(a) => {
            push_str(out, "not ");
            write_ir_atom(out, a, cx);
        },
        ir::BodyLiteralKind::Compare { op, lhs, rhs } => {
            write_ir_expr(out, lhs, cx);
            push_char(out, ' ');
            push_str(out, crate::ast::cmp_symbol(*op));
            push_char(out, ' ');
            write_ir_expr(out, rhs, cx);
        },
        ir::BodyLiteralKind::Presence { expr, negated } => {
            write_ir_expr(out, expr, cx);
            if *negated {
                push_str(out, " is not absent");
            } else {
                push_str(out, " is absent");
            }
        },
        ir::BodyLiteralKind::Aggregate { result, op, expr, goal, .. } => {
            cx.write_var(out, *result);
            push_str(out, " = ");
            push_str(out, op.keyword());
            push_str(out, " { ");
            write_ir_expr(out, expr, cx);
            push_str(out, " | ");
            write_ir_literals(out, goal, cx);
            push_str(out, " }");
        },
    }
    assert(out@ =~= start + spec_ir_lit_text(*l, *cx.rule, cx.program.predicates@));
}

fn write_ir_literals(out: &mut String, ls: &Vec<ir::BodyLiteral>, cx: &RuleCx)
    requires
        cx.wf(),
        spec_lits_preds_ok(ls@, cx.program.predicates@.len()),
    ensures
        final(out)@ == old(out)@ + spec_ir_lits_text(ls@, *cx.rule, cx.program.predicates@),
    decreases ls, 0int,
{
    let ghost start = out@;
    let ghost n = cx.program.predicates@.len();
    let mut i: usize = 0;
    while i < ls.len()
        invariant
            i <= ls.len(),
            cx.wf(),
            n == cx.program.predicates@.len(),
            spec_lits_preds_ok(ls@, n),
            out@ == start + spec_ir_lits_text(ls@.take(i as int), *cx.rule, cx.program.predicates@),
        decreases ls.len() - i,
    {
        if i > 0 {
            push_str(out, ", ");
        }
        proof {
            lemma_lits_preds_ok_index(ls@, n, i as int);
        }
        assert(decreases_to!(ls => ls@[i as int]));
        write_ir_literal(out, &ls[i], cx);
        proof {
            let t = ls@.take(i + 1);
            assert(t.drop_last() =~= ls@.take(i as int));
            assert(t.last() == ls@[i as int]);
            if i == 0 {
                assert(t.len() == 1 && t[0] == ls@[0]);
                assert(ls@.take(0) =~= Seq::<ir::BodyLiteral>::empty());
            }
            assert(out@ =~= start + spec_ir_lits_text(t, *cx.rule, cx.program.predicates@));
        }
        i += 1;
    }
    assert(ls@.take(ls@.len() as int) =~= ls@);
}

proof fn lemma_lits_preds_ok_index(ls: Seq<ir::BodyLiteral>, n: nat, i: int)
    requires
        spec_lits_preds_ok(ls, n),
        0 <= i < ls.len(),
    ensures
        spec_lit_preds_ok(ls[i], n),
    decreases ls.len(),
{
    if i < ls.len() - 1 {
        lemma_lits_preds_ok_index(ls.drop_last(), n, i);
    }
}

/// Appends a lowered rule in its source spelling.
fn write_ir_rule(out: &mut String, rule: &ir::Rule, program: &ir::Program)
    requires
        spec_rule_preds_ok(*rule, program.predicates@.len()),
    ensures
        final(out)@ == old(out)@ + spec_ir_rule_text(*rule, program.predicates@),
{
    let ghost start = out@;
    let cx = RuleCx::new(program, rule);
    write_ir_atom(out, &rule.head, &cx);
    if rule.body.len() > 0 {
        push_str(out, " :- ");
        write_ir_literals(out, &rule.body, &cx);
    }
    assert(out@ =~= start + spec_ir_rule_text(*rule, program.predicates@));
}

// --- Proof trees, as comment lines ---

/// The path the first import naming `pred` read it from.
pub open spec fn spec_import_path(imports: Seq<ir::ImportSpec>, pred: ir::PredId) -> Option<Seq<char>>
    decreases imports.len(),
{
    if imports.len() == 0 {
        None
    } else if imports[0].pred == pred {
        Some(imports[0].path@)
    } else {
        spec_import_path(imports.drop_first(), pred)
    }
}

/// `field: value` parts over the first `k` positions.
pub open spec fn spec_field_value_parts(fields: Seq<String>, vals: Seq<ValueView>, k: nat) -> Seq<
    Seq<char>,
>
    decreases k,
{
    if k == 0 {
        seq![]
    } else {
        spec_field_value_parts(fields, vals, (k - 1) as nat) + seq![
            fields[k - 1]@ + ": "@ + spec_value_text(vals[k - 1]),
        ]
    }
}

/// A fact mid-sentence (no terminator): in named form where the predicate has
/// field names, positional otherwise.
pub open spec fn spec_ir_fact_text(
    pred: ir::PredId,
    vals: Seq<ValueView>,
    preds: Seq<ir::PredicateInfo>,
) -> Seq<char> {
    let info = preds[pred.0 as int];
    info.name@ + seq!['('] + match info.fields {
        Some(fs) => spec_join(spec_field_value_parts(fs@, vals, spec_min(fs@.len(), vals.len()))),
        None => spec_join(vals.map_values(|v: ValueView| spec_value_text(v))),
    } + seq![')']
}

/// A pattern slot: its value where the rule's bindings closed it, `_` where the
/// negation left it open.
pub open spec fn spec_slot_text(v: Option<Value>) -> Seq<char> {
    match v {
        Some(x) => spec_value_text(x@),
        None => "_"@,
    }
}

pub open spec fn spec_field_slot_parts(fields: Seq<String>, slots: Seq<Option<Value>>, k: nat) -> Seq<
    Seq<char>,
>
    decreases k,
{
    if k == 0 {
        seq![]
    } else {
        spec_field_slot_parts(fields, slots, (k - 1) as nat) + seq![
            fields[k - 1]@ + ": "@ + spec_slot_text(slots[k - 1]),
        ]
    }
}

/// The pattern no fact matched.
pub open spec fn spec_no_match_text(p: NoMatchPattern, preds: Seq<ir::PredicateInfo>) -> Seq<char> {
    let info = preds[p.pred.0 as int];
    info.name@ + seq!['('] + match info.fields {
        Some(fs) => spec_join(spec_field_slot_parts(fs@, p.args@, spec_min(fs@.len(), p.args@.len()))),
        None => spec_join(p.args@.map_values(|v: Option<Value>| spec_slot_text(v))),
    } + seq![')']
}

/// The body literal a premise answers, where it sat in a rule.
pub open spec fn spec_site_literal(site: Option<(usize, usize)>, program: ir::Program) -> Option<
    Seq<char>,
> {
    match site {
        Some((r, i)) => if r < program.rules@.len() && i < program.rules@[r as int].body@.len() {
            let rule = program.rules@[r as int];
            Some(spec_ir_lit_text(rule.body@[i as int], rule, program.predicates@))
        } else {
            None
        },
        None => None,
    }
}

/// A self-justifying premise: the literal it satisfied, then the values.
pub open spec fn spec_with_site(site: Option<(usize, usize)>, program: ir::Program, held: Seq<char>) -> Seq<
    char,
> {
    match spec_site_literal(site, program) {
        Some(lit) => lit + "  ("@ + held + seq![')'],
        None => held,
    }
}

/// What an aggregate premise held: `count` its value alone; another fold its
/// value, how many values it folded, and how many absent inputs it skipped.
pub open spec fn spec_aggregate_held(op: AggOp, value: ValueView, present: usize, skipped: usize) -> Seq<
    char,
> {
    if op == AggOp::Count {
        spec_value_text(value)
    } else if skipped == 0 {
        spec_value_text(value) + " over "@ + decimal(present as nat) + " values"@
    } else {
        spec_value_text(value) + " over "@ + decimal(present as nat) + " values, "@ + decimal(
            skipped as nat,
        ) + " absent skipped"@
    }
}

/// The conversion report of a comparison premise whose values lost data.
pub open spec fn spec_lost_text(lost: Option<LostConversion>) -> Seq<char> {
    match lost {
        Some(l) => "  ["@ + decimal(l.count as nat) + seq![' '] + if l.count == 1 {
            "value"@
        } else {
            "values"@
        } + " lost converting to "@ + spec_type_keyword(l.to) + seq![']'],
        None => seq![],
    }
}

/// The values a comparison premise held: `lhs op rhs`.
pub open spec fn spec_compare_held(op: crate::ast::CmpOp, lhs: ValueView, rhs: ValueView) -> Seq<char> {
    spec_value_text(lhs) + seq![' '] + spec_cmp_symbol(op) + seq![' '] + spec_value_text(rhs)
}

/// What one proof node says.
pub open spec fn spec_node_content(tree: ProofTree, program: ir::Program, site: Option<(usize, usize)>) -> Seq<
    char,
> {
    let preds = program.predicates@;
    match tree {
        ProofTree::Leaf(f) => spec_ir_fact_text(f.pred, f.tuple@, preds) + "  "@ + match spec_import_path(
            program.imports@,
            f.pred,
        ) {
            Some(path) => "[fact from "@ + spec_string_literal(path) + seq![']'],
            None => "[fact]"@,
        },
        ProofTree::Derived { fact, rule, .. } => spec_ir_fact_text(fact.pred, fact.tuple@, preds)
            + "  by "@ + spec_ir_rule_text(program.rules@[rule.0 as int], preds),
        ProofTree::NoMatch(p) => "no "@ + spec_no_match_text(p, preds),
        ProofTree::Builtin { op, lhs, rhs, lost } => spec_with_site(
            site,
            program,
            spec_compare_held(op, lhs@, rhs@),
        ) + spec_lost_text(lost),
        ProofTree::Presence { value, negated } => spec_with_site(
            site,
            program,
            spec_value_text(value@) + " is "@ + if negated {
                "not "@
            } else {
                seq![]
            } + "absent"@,
        ),
        ProofTree::Aggregate { op, value, present, skipped } => match spec_site_literal(site, program) {
            Some(lit) => lit + "  ("@ + spec_aggregate_held(op, value@, present, skipped) + seq![')'],
            None => spec_agg_keyword(op) + seq![' '] + spec_aggregate_held(op, value@, present, skipped),
        },
    }
}

/// One node line: `% <depth>  `, two spaces of indentation per level, then
/// the node's content.
pub open spec fn spec_node_line(depth: nat, content: Seq<char>) -> Seq<char> {
    "% "@ + decimal(depth) + "  "@ + repeat_char(' ', 2 * depth) + content
}

/// The lines of a proof subtree in preorder: the node, then each child's
/// subtree one level deeper, the `i`th child citing body literal `i` of the
/// rule that fired.
pub open spec fn spec_proof_lines(
    tree: ProofTree,
    program: ir::Program,
    depth: nat,
    site: Option<(usize, usize)>,
) -> Seq<Seq<char>>
    decreases tree,
{
    seq![spec_node_line(depth, spec_node_content(tree, program, site))] + match tree {
        ProofTree::Derived { rule, children, .. } => spec_children_lines(
            children@,
            program,
            depth + 1,
            rule.0 as usize,
        ),
        _ => seq![],
    }
}

pub open spec fn spec_children_lines(
    cs: Seq<ProofTree>,
    program: ir::Program,
    depth: nat,
    rule: usize,
) -> Seq<Seq<char>>
    decreases cs,
{
    if cs.len() == 0 {
        seq![]
    } else {
        spec_children_lines(cs.drop_last(), program, depth, rule) + spec_proof_lines(
            cs.last(),
            program,
            depth,
            Some((rule, (cs.len() - 1) as usize)),
        )
    }
}

/// The proof as comment lines: a `% why` header naming the fact (a header
/// wears no depth number), then the nodes.
pub open spec fn spec_proof_text(tree: ProofTree, program: ir::Program) -> Seq<Seq<char>> {
    let preds = program.predicates@;
    let header: Seq<Seq<char>> = match tree {
        ProofTree::Leaf(f) => seq!["% why "@ + spec_ir_fact_text(f.pred, f.tuple@, preds)],
        ProofTree::Derived { fact, .. } => seq!["% why "@ + spec_ir_fact_text(fact.pred, fact.tuple@, preds)],
        _ => seq![],
    };
    header + spec_proof_lines(tree, program, 0, None)
}

/// The nesting depth of a proof tree.
pub open spec fn spec_height(tree: ProofTree) -> nat
    decreases tree,
{
    match tree {
        ProofTree::Derived { children, .. } => 1 + spec_max_height(children@),
        _ => 0,
    }
}

pub open spec fn spec_max_height(cs: Seq<ProofTree>) -> nat
    decreases cs,
{
    if cs.len() == 0 {
        0
    } else {
        let a = spec_max_height(cs.drop_last());
        let b = spec_height(cs.last());
        if a >= b {
            a
        } else {
            b
        }
    }
}

/// Every fact, pattern and rule a proof names is in the program.
pub open spec fn spec_tree_ok(tree: ProofTree, program: ir::Program) -> bool
    decreases tree,
{
    let n = program.predicates@.len();
    match tree {
        ProofTree::Leaf(f) => f.pred.0 < n,
        ProofTree::NoMatch(p) => p.pred.0 < n,
        ProofTree::Derived { fact, rule, children } => fact.pred.0 < n && rule.0 < program.rules@.len()
            && spec_trees_ok(children@, program),
        _ => true,
    }
}

pub open spec fn spec_trees_ok(cs: Seq<ProofTree>, program: ir::Program) -> bool
    decreases cs,
{
    if cs.len() == 0 {
        true
    } else {
        spec_trees_ok(cs.drop_last(), program) && spec_tree_ok(cs.last(), program)
    }
}

/// Every rule of the program names only its own predicates.
pub open spec fn spec_rules_ok(program: ir::Program) -> bool {
    forall|r: int|
        0 <= r < program.rules@.len() ==> spec_rule_preds_ok(
            #[trigger] program.rules@[r],
            program.predicates@.len(),
        )
}

/// The texts of a list of lines.
pub open spec fn spec_lines(v: Seq<String>) -> Seq<Seq<char>> {
    v.map_values(|s: String| s@)
}

fn import_path(program: &ir::Program, pred: ir::PredId) -> (r: Option<&String>)
    ensures
        match r {
            Some(p) => spec_import_path(program.imports@, pred) == Some(p@),
            None => spec_import_path(program.imports@, pred) is None,
        },
{
    let imports = &program.imports;
    let mut i: usize = 0;
    assert(imports@.skip(0) =~= imports@);
    while i < imports.len()
        invariant
            i <= imports.len(),
            imports@ == program.imports@,
            spec_import_path(imports@, pred) == spec_import_path(imports@.skip(i as int), pred),
        decreases imports.len() - i,
    {
        proof {
            assert(imports@.skip(i as int).drop_first() =~= imports@.skip(i + 1));
            assert(imports@.skip(i as int)[0] == imports@[i as int]);
        }
        if imports[i].pred == pred {
            proof {
                let rest = imports@.skip(i as int);
                assert(rest.len() > 0 && rest[0].pred == pred);
                assert(spec_import_path(rest, pred) == Some(imports@[i as int].path@));
            }
            return Some(&imports[i].path);
        }
        i += 1;
    }
    None
}

fn write_ir_fact(out: &mut String, pred: ir::PredId, vals: &Vec<Value>, program: &ir::Program)
    requires
        pred.0 < program.predicates@.len(),
    ensures
        final(out)@ == old(out)@ + spec_ir_fact_text(
            pred,
            vals@.map_values(|v: Value| v@),
            program.predicates@,
        ),
{
    let ghost start = out@;
    let ghost vv = vals@.map_values(|v: Value| v@);
    let info = &program.predicates[pred.0 as usize];
    push_str(out, info.name.as_str());
    push_char(out, '(');
    let ghost open_at = out@;
    match &info.fields {
        Some(fs) => {
            let n = if fs.len() <= vals.len() {
                fs.len()
            } else {
                vals.len()
            };
            let mut k: usize = 0;
            while k < n
                invariant
                    k <= n,
                    n == spec_min(fs@.len(), vv.len()),
                    vv == vals@.map_values(|v: Value| v@),
                    out@ == open_at + spec_join(spec_field_value_parts(fs@, vv, k as nat)),
                decreases n - k,
            {
                if k > 0 {
                    push_str(out, ", ");
                }
                push_str(out, fs[k].as_str());
                push_str(out, ": ");
                write_value(out, &vals[k]);
                proof {
                    let ps = spec_field_value_parts(fs@, vv, (k + 1) as nat);
                    assert(ps.drop_last() =~= spec_field_value_parts(fs@, vv, k as nat));
                    if k == 0 {
                        assert(ps.len() == 1);
                    }
                    assert(out@ =~= open_at + spec_join(ps));
                }
                k += 1;
            }
        },
        None => {
            let mut i: usize = 0;
            let ghost all = vv.map_values(|v: ValueView| spec_value_text(v));
            while i < vals.len()
                invariant
                    i <= vals.len(),
                    vv == vals@.map_values(|v: Value| v@),
                    all == vv.map_values(|v: ValueView| spec_value_text(v)),
                    out@ == open_at + spec_join(all.take(i as int)),
                decreases vals.len() - i,
            {
                if i > 0 {
                    push_str(out, ", ");
                }
                write_value(out, &vals[i]);
                proof {
                    let t = all.take(i + 1);
                    assert(t.drop_last() =~= all.take(i as int));
                    assert(t.last() == spec_value_text(vals@[i as int]@));
                    if i == 0 {
                        assert(t.len() == 1);
                        assert(all.take(0) =~= Seq::<Seq<char>>::empty());
                    }
                    assert(out@ =~= open_at + spec_join(t));
                }
                i += 1;
            }
            assert(all.take(all.len() as int) =~= all);
        },
    }
    push_char(out, ')');
    assert(out@ =~= start + spec_ir_fact_text(pred, vv, program.predicates@));
}

fn write_slot(out: &mut String, v: &Option<Value>)
    ensures
        final(out)@ == old(out)@ + spec_slot_text(*v),
{
    match v {
        Some(x) => write_value(out, x),
        None => push_str(out, "_"),
    }
}

fn write_no_match(out: &mut String, p: &NoMatchPattern, program: &ir::Program)
    requires
        p.pred.0 < program.predicates@.len(),
    ensures
        final(out)@ == old(out)@ + spec_no_match_text(*p, program.predicates@),
{
    let ghost start = out@;
    let info = &program.predicates[p.pred.0 as usize];
    push_str(out, info.name.as_str());
    push_char(out, '(');
    let ghost open_at = out@;
    match &info.fields {
        Some(fs) => {
            let n = if fs.len() <= p.args.len() {
                fs.len()
            } else {
                p.args.len()
            };
            let mut k: usize = 0;
            while k < n
                invariant
                    k <= n,
                    n == spec_min(fs@.len(), p.args@.len()),
                    out@ == open_at + spec_join(spec_field_slot_parts(fs@, p.args@, k as nat)),
                decreases n - k,
            {
                if k > 0 {
                    push_str(out, ", ");
                }
                push_str(out, fs[k].as_str());
                push_str(out, ": ");
                write_slot(out, &p.args[k]);
                proof {
                    let ps = spec_field_slot_parts(fs@, p.args@, (k + 1) as nat);
                    assert(ps.drop_last() =~= spec_field_slot_parts(fs@, p.args@, k as nat));
                    if k == 0 {
                        assert(ps.len() == 1);
                    }
                    assert(out@ =~= open_at + spec_join(ps));
                }
                k += 1;
            }
        },
        None => {
            let mut i: usize = 0;
            let ghost all = p.args@.map_values(|v: Option<Value>| spec_slot_text(v));
            while i < p.args.len()
                invariant
                    i <= p.args.len(),
                    all == p.args@.map_values(|v: Option<Value>| spec_slot_text(v)),
                    out@ == open_at + spec_join(all.take(i as int)),
                decreases p.args.len() - i,
            {
                if i > 0 {
                    push_str(out, ", ");
                }
                write_slot(out, &p.args[i]);
                proof {
                    let t = all.take(i + 1);
                    assert(t.drop_last() =~= all.take(i as int));
                    assert(t.last() == spec_slot_text(p.args@[i as int]));
                    if i == 0 {
                        assert(t.len() == 1);
                        assert(all.take(0) =~= Seq::<Seq<char>>::empty());
                    }
                    assert(out@ =~= open_at + spec_join(t));
                }
                i += 1;
            }
            assert(all.take(all.len() as int) =~= all);
        },
    }
    push_char(out, ')');
    assert(out@ =~= start + spec_no_match_text(*p, program.predicates@));
}

fn site_literal(site: Option<(usize, usize)>, program: &ir::Program) -> (r: Option<String>)
    requires
        spec_rules_ok(*program),
    ensures
        match r {
            Some(t) => spec_site_literal(site, *program) == Some(t@),
            None => spec_site_literal(site, *program) is None,
        },
{
    match site {
        Some((ri, i)) => {
            if ri < program.rules.len() && i < program.rules[ri].body.len() {
                let rule = &program.rules[ri];
                assert(spec_rule_preds_ok(program.rules@[ri as int], program.predicates@.len()));
                proof {
                    lemma_lits_preds_ok_index(rule.body@, program.predicates@.len(), i as int);
                }
                let cx = RuleCx::new(program, rule);
                let mut t = String::new();
                write_ir_literal(&mut t, &rule.body[i], &cx);
                assert(t@ =~= spec_ir_lit_text(rule.body@[i as int], *rule, program.predicates@));
                Some(t)
            } else {
                None
            }
        },
        None => None,
    }
}

/// Appends `lit  (held)` where the premise sat in a rule, `held` alone where not.
fn write_with_site(out: &mut String, lit: &Option<String>, held: &str)
    ensures
        final(out)@ == old(out)@ + match *lit {
            Some(l) => l@ + "  ("@ + held@ + seq![')'],
            None => held@,
        },
{
    let ghost start = out@;
    match lit {
        Some(l) => {
            push_str(out, l.as_str());
            push_str(out, "  (");
            push_str(out, held);
            push_char(out, ')');
            assert(out@ =~= start + (l@ + "  ("@ + held@ + seq![')']));
        },
        None => push_str(out, held),
    }
}

fn write_decimal(out: &mut String, n: u64)
    ensures
        final(out)@ == old(out)@ + decimal(n as nat),
{
    let digits = crate::text::decimal_chars(n);
    crate::text::push_chars(out, digits.as_slice());
}

fn compare_held(op: crate::ast::CmpOp, lhs: &Value, rhs: &Value) -> (r: String)
    ensures
        r@ == spec_compare_held(op, lhs@, rhs@),
{
    let mut held = String::new();
    write_value(&mut held, lhs);
    push_char(&mut held, ' ');
    push_str(&mut held, crate::ast::cmp_symbol(op));
    push_char(&mut held, ' ');
    write_value(&mut held, rhs);
    assert(held@ =~= spec_compare_held(op, lhs@, rhs@));
    held
}

fn leaf_content(f: &ir::Fact, program: &ir::Program) -> (r: String)
    requires
        f.pred.0 < program.predicates@.len(),
    ensures
        r@ == spec_node_content(ProofTree::Leaf(*f), *program, None),
{
    let mut out = String::new();
    write_ir_fact(&mut out, f.pred, &f.tuple.0, program);
    push_str(&mut out, "  ");
    match import_path(program, f.pred) {
        Some(path) => {
            push_str(&mut out, "[fact from ");
            write_string_literal(&mut out, path.as_str());
            push_char(&mut out, ']');
        },
        None => push_str(&mut out, "[fact]"),
    }
    assert(out@ =~= spec_node_content(ProofTree::Leaf(*f), *program, None));
    out
}

fn derived_content(fact: &ir::Fact, rule: ir::RuleId, program: &ir::Program) -> (r: String)
    requires
        fact.pred.0 < program.predicates@.len(),
        rule.0 < program.rules@.len(),
        spec_rules_ok(*program),
    ensures
        r@ == spec_ir_fact_text(fact.pred, fact.tuple@, program.predicates@) + "  by "@
            + spec_ir_rule_text(program.rules@[rule.0 as int], program.predicates@),
{
    let mut out = String::new();
    write_ir_fact(&mut out, fact.pred, &fact.tuple.0, program);
    push_str(&mut out, "  by ");
    assert(spec_rule_preds_ok(program.rules@[rule.0 as int], program.predicates@.len()));
    write_ir_rule(&mut out, &program.rules[rule.0 as usize], program);
    assert(out@ =~= spec_ir_fact_text(fact.pred, fact.tuple@, program.predicates@) + "  by "@
        + spec_ir_rule_text(program.rules@[rule.0 as int], program.predicates@));
    out
}

fn lost_text(lost: &Option<LostConversion>) -> (r: String)
    ensures
        r@ == spec_lost_text(*lost),
{
    let mut out = String::new();
    match lost {
        Some(l) => {
            push_str(&mut out, "  [");
            write_decimal(&mut out, l.count as u64);
            push_char(&mut out, ' ');
            if l.count == 1 {
                push_str(&mut out, "value");
            } else {
                push_str(&mut out, "values");
            }
            push_str(&mut out, " lost converting to ");
            push_str(&mut out, l.to.keyword());
            push_char(&mut out, ']');
        },
        None => {},
    }
    assert(out@ =~= spec_lost_text(*lost));
    out
}

fn presence_held(value: &Value, negated: bool) -> (r: String)
    ensures
        r@ == spec_value_text(value@) + " is "@ + (if negated {
            "not "@
        } else {
            Seq::<char>::empty()
        }) + "absent"@,
{
    let mut held = String::new();
    write_value(&mut held, value);
    push_str(&mut held, " is ");
    if negated {
        push_str(&mut held, "not ");
    }
    push_str(&mut held, "absent");
    assert(held@ =~= spec_value_text(value@) + " is "@ + (if negated {
        "not "@
    } else {
        Seq::<char>::empty()
    }) + "absent"@);
    held
}

fn aggregate_held(op: AggOp, value: &Value, present: usize, skipped: usize) -> (r: String)
    ensures
        r@ == spec_aggregate_held(op, value@, present, skipped),
{
    let mut held = String::new();
    write_value(&mut held, value);
    match op {
        AggOp::Count => {},
        _ => {
            push_str(&mut held, " over ");
            write_decimal(&mut held, present as u64);
            if skipped == 0 {
                push_str(&mut held, " values");
            } else {
                push_str(&mut held, " values, ");
                write_decimal(&mut held, skipped as u64);
                push_str(&mut held, " absent skipped");
            }
        },
    }
    assert(held@ =~= spec_aggregate_held(op, value@, present, skipped));
    held
}

fn node_content(tree: &ProofTree, program: &ir::Program, site: Option<(usize, usize)>) -> (r: String)
    requires
        spec_tree_ok(*tree, *program),
        spec_rules_ok(*program),
    ensures
        r@ == spec_node_content(*tree, *program, site),
{
    match tree {
        ProofTree::Leaf(f) => leaf_content(f, program),
        ProofTree::Derived { fact, rule, .. } => derived_content(fact, *rule, program),
        ProofTree::NoMatch(p) => {
            let mut out = String::new();
            push_str(&mut out, "no ");
            write_no_match(&mut out, p, program);
            out
        },
        ProofTree::Builtin { op, lhs, rhs, lost } => {
            let held = compare_held(*op, lhs, rhs);
            let lit = site_literal(site, program);
            let mut out = String::new();
            write_with_site(&mut out, &lit, held.as_str());
            push_str(&mut out, lost_text(lost).as_str());
            out
        },
        ProofTree::Presence { value, negated } => {
            let held = presence_held(value, *negated);
            let lit = site_literal(site, program);
            let mut out = String::new();
            write_with_site(&mut out, &lit, held.as_str());
            out
        },
        ProofTree::Aggregate { op, value, present, skipped } => {
            let held = aggregate_held(*op, value, *present, *skipped);
            let mut out = String::new();
            match site_literal(site, program) {
                Some(lit) => {
                    push_str(&mut out, lit.as_str());
                    push_str(&mut out, "  (");
                    push_str(&mut out, held.as_str());
                    push_char(&mut out, ')');
                },
                None => {
                    push_str(&mut out, op.keyword());
                    push_char(&mut out, ' ');
                    push_str(&mut out, held.as_str());
                },
            }
            out
        },
    }
}

proof fn lemma_trees_ok_index(cs: Seq<ProofTree>, program: ir::Program, i: int)
    requires
        spec_trees_ok(cs, program),
        0 <= i < cs.len(),
    ensures
        spec_tree_ok(cs[i], program),
    decreases cs.len(),
{
    if i < cs.len() - 1 {
        lemma_trees_ok_index(cs.drop_last(), program, i);
    }
}

proof fn lemma_max_height_index(cs: Seq<ProofTree>, i: int)
    requires
        0 <= i < cs.len(),
    ensures
        spec_height(cs[i]) <= spec_max_height(cs),
    decreases cs.len(),
{
    if i < cs.len() - 1 {
        lemma_max_height_index(cs.drop_last(), i);
    }
}

/// The text of one node line.
fn node_line(depth: usize, content: &str) -> (r: String)
    ensures
        r@ == spec_node_line(depth as nat, content@),
{
    let mut line = String::new();
    push_str(&mut line, "% ");
    write_decimal(&mut line, depth as u64);
    push_str(&mut line, "  ");
    let ghost prefix = line@;
    let mut j: usize = 0;
    while j < depth
        invariant
            j <= depth,
            line@ == prefix + repeat_char(' ', 2 * j as nat),
        decreases depth - j,
    {
        push_char(&mut line, ' ');
        push_char(&mut line, ' ');
        assert(repeat_char(' ', 2 * (j + 1) as nat) =~= repeat_char(' ', 2 * j as nat) + seq![' ', ' ']);
        j += 1;
    }
    push_str(&mut line, content);
    assert(line@ =~= spec_node_line(depth as nat, content@));
    line
}

fn proof_lines(
    tree: &ProofTree,
    program: &ir::Program,
    depth: usize,
    site: Option<(usize, usize)>,
    out: &mut Vec<String>,
)
    requires
        spec_tree_ok(*tree, *program),
        spec_rules_ok(*program),
        depth + spec_height(*tree) <= usize::MAX,
    ensures
        spec_lines(final(out)@) == spec_lines(old(out)@) + spec_proof_lines(
            *tree,
            *program,
            depth as nat,
            site,
        ),
    decreases tree,
{
    let ghost start = spec_lines(out@);
    let content = node_content(tree, program, site);
    let line = node_line(depth, content.as_str());
    out.push(line);
    let ghost first = spec_lines(out@);
    assert(first =~= start + seq![spec_node_line(depth as nat, spec_node_content(*tree, *program, site))]);
    match tree {
        ProofTree::Derived { fact, rule, children } => {
            let ghost rid = rule.0 as usize;
            let mut i: usize = 0;
            while i < children.len()
                invariant
                    i <= children.len(),
                    spec_trees_ok(children@, *program),
                    spec_rules_ok(*program),
                    depth + 1 + spec_max_height(children@) <= usize::MAX,
                    rid == rule.0 as usize,
                    *tree == (ProofTree::Derived { fact: *fact, rule: *rule, children: *children }),
                    spec_lines(out@) == first + spec_children_lines(
                        children@.take(i as int),
                        *program,
                        (depth + 1) as nat,
                        rid,
                    ),
                decreases children.len() - i,
            {
                proof {
                    lemma_trees_ok_index(children@, *program, i as int);
                    lemma_max_height_index(children@, i as int);
                }
                proof {
                    assert(decreases_to!(*tree => (*tree)->Derived_children));
                    assert((*tree)->Derived_children == *children);
                    assert(decreases_to!(*children => children@));
                    assert(decreases_to!(children@ => children@[i as int]));
                }
                proof_lines(&children[i], program, depth + 1, Some((rule.0 as usize, i)), out);
                proof {
                    let t = children@.take(i + 1);
                    assert(t.drop_last() =~= children@.take(i as int));
                    assert(t.last() == children@[i as int]);
                    assert(spec_children_lines(t, *program, (depth + 1) as nat, rid)
                        == spec_children_lines(children@.take(i as int), *program, (depth + 1) as nat, rid)
                        + spec_proof_lines(children@[i as int], *program, (depth + 1) as nat, Some((rid, i))));
                    assert(spec_lines(out@) =~= first + spec_children_lines(t, *program, (depth + 1) as nat, rid));
                }
                i += 1;
            }
            assert(children@.take(children@.len() as int) =~= children@);
            assert(spec_lines(out@) =~= start + spec_proof_lines(*tree, *program, depth as nat, site));
        },
        _ => {
            assert(spec_lines(out@) =~= start + spec_proof_lines(*tree, *program, depth as nat, site));
        },
    }
}

/// Renders one proof tree as `%`-comment lines: a `% why` header naming the
/// fact, then one line per node in preorder, each `% <depth>  ` followed by
/// two spaces of indentation per level and what the node says. A leaf cites
/// the import its predicate came from; a derived fact cites the lowered rule
/// that fired; a comparison, presence test or aggregate premise cites the body
/// literal it answered beside the values that satisfied it.
pub fn print_proof(tree: &ProofTree, program: &ir::Program) -> (r: Vec<String>)
    requires
        spec_tree_ok(*tree, *program),
        spec_rules_ok(*program),
        spec_height(*tree) < usize::MAX,
    ensures
        spec_lines(r@) == spec_proof_text(*tree, *program),
{
    let mut out: Vec<String> = Vec::new();
    match tree.fact() {
        Some(fact) => {
            let mut header = String::new();
            push_str(&mut header, "% why ");
            write_ir_fact(&mut header, fact.pred, &fact.tuple.0, program);
            out.push(header);
        },
        None => {},
    }
    proof_lines(tree, program, 0, None, &mut out);
    assert(spec_lines(out@) =~= spec_proof_text(*tree, *program));
    out
}

// --- What every rendered proof keeps ---

/// Every line is a `%` comment.
pub open spec fn spec_all_comments(lines: Seq<Seq<char>>) -> bool {
    forall|k: int| 0 <= k < lines.len() ==> (#[trigger] lines[k]).len() > 0 && lines[k][0] == '%'
}

/// The depth of each node of a proof subtree, in preorder, computed by a walk
/// of the tree alone.
pub open spec fn spec_node_depths(tree: ProofTree, depth: nat) -> Seq<nat>
    decreases tree,
{
    seq![depth] + match tree {
        ProofTree::Derived { children, .. } => spec_children_depths(children@, depth + 1),
        _ => seq![],
    }
}

pub open spec fn spec_children_depths(cs: Seq<ProofTree>, depth: nat) -> Seq<nat>
    decreases cs,
{
    if cs.len() == 0 {
        seq![]
    } else {
        spec_children_depths(cs.drop_last(), depth) + spec_node_depths(cs.last(), depth)
    }
}

/// The depth prefix a node line opens with: `% <depth>  `.
pub open spec fn spec_depth_prefix(depth: nat) -> Seq<char> {
    "% "@ + decimal(depth) + "  "@
}

/// `line` opens with the depth prefix of `depth`.
pub open spec fn spec_declares(line: Seq<char>, depth: nat) -> bool {
    let p = spec_depth_prefix(depth);
    line.len() >= p.len() && line.subrange(0, p.len() as int) == p
}

/// Each line declares the depth at its position.
pub open spec fn spec_lines_declare(lines: Seq<Seq<char>>, depths: Seq<nat>) -> bool {
    &&& lines.len() == depths.len()
    &&& forall|k: int| 0 <= k < lines.len() ==> spec_declares(#[trigger] lines[k], depths[k])
}

proof fn lemma_node_line(depth: nat, content: Seq<char>)
    ensures
        spec_node_line(depth, content).len() > 0,
        spec_node_line(depth, content)[0] == '%',
        spec_declares(spec_node_line(depth, content), depth),
{
    reveal_strlit("% ");
    let line = spec_node_line(depth, content);
    let p = spec_depth_prefix(depth);
    assert(line =~= p + (repeat_char(' ', 2 * depth) + content));
    assert(line.subrange(0, p.len() as int) =~= p);
}

proof fn lemma_concat_lines(a: Seq<Seq<char>>, da: Seq<nat>, b: Seq<Seq<char>>, db: Seq<nat>)
    requires
        spec_all_comments(a),
        spec_all_comments(b),
        spec_lines_declare(a, da),
        spec_lines_declare(b, db),
    ensures
        spec_all_comments(a + b),
        spec_lines_declare(a + b, da + db),
{
    assert forall|k: int| 0 <= k < (a + b).len() implies (#[trigger] (a + b)[k]).len() > 0 && (a
        + b)[k][0] == '%' by {
        if k < a.len() {
            assert((a + b)[k] == a[k]);
        } else {
            assert((a + b)[k] == b[k - a.len()]);
        }
    }
    assert forall|k: int| 0 <= k < (a + b).len() implies spec_declares(
        #[trigger] (a + b)[k],
        (da + db)[k],
    ) by {
        if k < a.len() {
            assert((a + b)[k] == a[k]);
            assert((da + db)[k] == da[k]);
        } else {
            assert((a + b)[k] == b[k - a.len()]);
            assert((da + db)[k] == db[k - a.len()]);
        }
    }
}

proof fn lemma_subtree_lines(tree: ProofTree, program: ir::Program, depth: nat, site: Option<(usize, usize)>)
    ensures
        spec_all_comments(spec_proof_lines(tree, program, depth, site)),
        spec_lines_declare(spec_proof_lines(tree, program, depth, site), spec_node_depths(tree, depth)),
    decreases tree,
{
    let line = spec_node_line(depth, spec_node_content(tree, program, site));
    lemma_node_line(depth, spec_node_content(tree, program, site));
    let head = seq![line];
    let dh = seq![depth];
    assert(spec_all_comments(head));
    assert(spec_lines_declare(head, dh));
    match tree {
        ProofTree::Derived { rule, children, .. } => {
            assert(decreases_to!(tree => tree->Derived_children));
            lemma_children_lines(children@, program, depth + 1, rule.0 as usize);
            lemma_concat_lines(
                head,
                dh,
                spec_children_lines(children@, program, depth + 1, rule.0 as usize),
                spec_children_depths(children@, depth + 1),
            );
        },
        _ => {
            assert(spec_proof_lines(tree, program, depth, site) =~= head);
            assert(spec_node_depths(tree, depth) =~= dh);
        },
    }
}

proof fn lemma_children_lines(cs: Seq<ProofTree>, program: ir::Program, depth: nat, rule: usize)
    ensures
        spec_all_comments(spec_children_lines(cs, program, depth, rule)),
        spec_lines_declare(spec_children_lines(cs, program, depth, rule), spec_children_depths(cs, depth)),
    decreases cs,
{
    if cs.len() > 0 {
        lemma_children_lines(cs.drop_last(), program, depth, rule);
        let site = Some((rule, (cs.len() - 1) as usize));
        lemma_subtree_lines(cs.last(), program, depth, site);
        lemma_concat_lines(
            spec_children_lines(cs.drop_last(), program, depth, rule),
            spec_children_depths(cs.drop_last(), depth),
            spec_proof_lines(cs.last(), program, depth, site),
            spec_node_depths(cs.last(), depth),
        );
    }
}

/// Every line a rendered proof holds is a `%` comment, so a proof can share a
/// stream with answers: stripping comments leaves the answers alone.
pub proof fn lemma_proof_lines_are_comments(tree: ProofTree, program: ir::Program)
    ensures
        spec_all_comments(spec_proof_text(tree, program)),
{
    reveal_strlit("% why ");
    lemma_subtree_lines(tree, program, 0, None);
    let body = spec_proof_lines(tree, program, 0, None);
    let text = spec_proof_text(tree, program);
    let header_len: int = text.len() - body.len();
    assert forall|k: int| 0 <= k < text.len() implies (#[trigger] text[k]).len() > 0 && text[k][0]
        == '%' by {
        if k < header_len {
            match tree {
                ProofTree::Leaf(f) => assert(text[k] =~= "% why "@ + spec_ir_fact_text(
                    f.pred,
                    f.tuple@,
                    program.predicates@,
                )),
                ProofTree::Derived { fact, .. } => assert(text[k] =~= "% why "@ + spec_ir_fact_text(
                    fact.pred,
                    fact.tuple@,
                    program.predicates@,
                )),
                _ => {},
            }
        } else {
            assert(text[k] == body[k - header_len]);
        }
    }
}

/// The depth a node line declares is that node's depth in the tree: after the
/// header (which declares none), line `k` opens with `% <d>  ` where `d` is the
/// depth of the `k`th node of a preorder walk.
pub proof fn lemma_proof_depths_agree(tree: ProofTree, program: ir::Program)
    ensures
        ({
            let text = spec_proof_text(tree, program);
            let depths = spec_node_depths(tree, 0);
            let header_len = text.len() - depths.len();
            &&& 0 <= header_len <= 1
            &&& spec_lines_declare(text.subrange(header_len, text.len() as int), depths)
            &&& header_len == 1 ==> text[0][2] == 'w'
        }),
{
    reveal_strlit("% why ");
    lemma_subtree_lines(tree, program, 0, None);
    let body = spec_proof_lines(tree, program, 0, None);
    let text = spec_proof_text(tree, program);
    let header_len: int = text.len() - body.len();
    assert(text.subrange(header_len, text.len() as int) =~= body);
    match tree {
        ProofTree::Leaf(f) => assert(text[0] =~= "% why "@ + spec_ir_fact_text(
            f.pred,
            f.tuple@,
            program.predicates@,
        )),
        ProofTree::Derived { fact, .. } => assert(text[0] =~= "% why "@ + spec_ir_fact_text(
            fact.pred,
            fact.tuple@,
            program.predicates@,
        )),
        _ => {},
    }
}

} // verus!
