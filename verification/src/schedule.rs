//! Body scheduling: the static evaluation order of a rule or query body.
//!
//! A body is a conjunction, so its literals mean the same thing in any order.
//! Positive atoms run first and bind every variable they mention; negated atoms
//! whose reads the positives already bind run next; then the builtins
//! (comparisons, assignments, presence tests, aggregates) and the remaining
//! negations run in dependency order, the earliest ready literal in source order
//! first. A body fails to schedule only when something it needs is never bound,
//! or when what is left waits on itself.
//!
//! The order is a pure function of the body. Variable sets are kept as
//! sequences in the order they were gathered; membership is what matters.
use vstd::prelude::*;

use crate::ast::CmpOp;
use crate::ir::{Atom, BodyLiteral, BodyLiteralKind, Expr, Term, Var};

verus! {

// ---------------------------------------------------------------------------
// The variables of terms and expressions
// ---------------------------------------------------------------------------

/// The variables among `args`, in order.
pub open spec fn term_vars(args: Seq<Term>) -> Seq<Var>
    decreases args.len(),
{
    if args.len() == 0 {
        Seq::empty()
    } else {
        term_vars(args.drop_last()) + match args.last() {
            Term::Var(v) => seq![v],
            Term::Const(_) => Seq::empty(),
        }
    }
}

/// The variables of an expression, in occurrence order.
pub open spec fn spec_expr_vars(e: Expr) -> Seq<Var>
    decreases e, 0int,
{
    match e {
        Expr::Term(Term::Var(v)) => seq![v],
        Expr::Term(Term::Const(_)) => Seq::empty(),
        Expr::Binary { lhs, rhs, .. } => spec_expr_vars(*lhs) + spec_expr_vars(*rhs),
        Expr::Cast { expr, .. } => spec_expr_vars(*expr),
        Expr::Builtin { args, .. } => spec_exprs_vars(args@),
    }
}

/// The variables of a list of expressions, in order.
pub open spec fn spec_exprs_vars(es: Seq<Expr>) -> Seq<Var>
    decreases es, 1int,
{
    if es.len() == 0 {
        Seq::empty()
    } else {
        spec_exprs_vars(es.drop_last()) + spec_expr_vars(es.last())
    }
}

/// The variable an expression is, when it is a bare variable.
pub open spec fn bare_var(e: Expr) -> Option<Var> {
    match e {
        Expr::Term(Term::Var(v)) => Some(v),
        _ => None,
    }
}

/// Whether an arithmetic operator occurs anywhere in `e`, under casts and
/// inside the arguments of a `std` relation included.
pub open spec fn spec_has_arithmetic(e: Expr) -> bool
    decreases e, 0int,
{
    match e {
        Expr::Binary { .. } => true,
        Expr::Cast { expr, .. } => spec_has_arithmetic(*expr),
        Expr::Builtin { args, .. } => spec_any_arithmetic(args@),
        Expr::Term(_) => false,
    }
}

pub open spec fn spec_any_arithmetic(es: Seq<Expr>) -> bool
    decreases es, 1int,
{
    if es.len() == 0 {
        false
    } else {
        spec_any_arithmetic(es.drop_last()) || spec_has_arithmetic(es.last())
    }
}

/// Whether evaluating `e` can make a value that appears nowhere in the program
/// or its inputs: arithmetic over at least one variable.
pub open spec fn spec_creates_value(e: Expr) -> bool {
    spec_has_arithmetic(e) && spec_expr_vars(e).len() > 0
}

// ---------------------------------------------------------------------------
// Variable sets of a body
// ---------------------------------------------------------------------------

/// The variables a literal shares with the enclosing clause: everything but an
/// aggregate's goal and collected expression, which are its own scope.
pub open spec fn lit_outside(k: BodyLiteralKind) -> Seq<Var> {
    match k {
        BodyLiteralKind::Atom(a) => term_vars(a.args@),
        BodyLiteralKind::NegAtom(a) => term_vars(a.args@),
        BodyLiteralKind::Compare { lhs, rhs, .. } => spec_expr_vars(lhs) + spec_expr_vars(rhs),
        BodyLiteralKind::Presence { expr, .. } => spec_expr_vars(expr),
        BodyLiteralKind::Aggregate { result, params, .. } => seq![result] + spec_exprs_vars(params@),
    }
}

/// Every variable occurring in `body` outside any aggregate's own scope.
pub open spec fn spec_outside(body: Seq<BodyLiteral>) -> Seq<Var>
    decreases body.len(),
{
    if body.len() == 0 {
        Seq::empty()
    } else {
        spec_outside(body.drop_last()) + lit_outside(body.last().kind)
    }
}

/// Every variable occurring anywhere in `body`, aggregate goals included.
pub open spec fn spec_all_vars(body: Seq<BodyLiteral>) -> Seq<Var>
    decreases body, 1int,
{
    spec_outside(body) + spec_inner_vars(body)
}

/// The variables inside the aggregates of `body`: collected expressions and goals.
pub open spec fn spec_inner_vars(body: Seq<BodyLiteral>) -> Seq<Var>
    decreases body, 0int,
{
    if body.len() == 0 {
        Seq::empty()
    } else {
        spec_inner_vars(body.drop_last()) + match body.last().kind {
            BodyLiteralKind::Aggregate { expr, goal, .. } => spec_expr_vars(expr) + spec_all_vars(
                goal@,
            ),
            _ => Seq::empty(),
        }
    }
}

/// What one literal could bind, whatever the order: a positive atom's
/// variables, the bare-variable sides of an `=`, an aggregate's result.
pub open spec fn lit_binders(k: BodyLiteralKind) -> Seq<Var> {
    match k {
        BodyLiteralKind::Atom(a) => term_vars(a.args@),
        BodyLiteralKind::Compare { op, lhs, rhs } => if op == CmpOp::Eq {
            (match bare_var(lhs) {
                Some(v) => seq![v],
                None => Seq::empty(),
            }) + (match bare_var(rhs) {
                Some(v) => seq![v],
                None => Seq::empty(),
            })
        } else {
            Seq::empty()
        },
        BodyLiteralKind::Aggregate { result, .. } => seq![result],
        _ => Seq::empty(),
    }
}

/// Every variable the body could bind: a static over-approximation.
pub open spec fn spec_binders(body: Seq<BodyLiteral>) -> Seq<Var>
    decreases body.len(),
{
    if body.len() == 0 {
        Seq::empty()
    } else {
        spec_binders(body.drop_last()) + lit_binders(body.last().kind)
    }
}

/// The variables of a positive atom's arguments, over the whole body.
pub open spec fn spec_atom_binds(body: Seq<BodyLiteral>) -> Seq<Var>
    decreases body.len(),
{
    if body.len() == 0 {
        Seq::empty()
    } else {
        spec_atom_binds(body.drop_last()) + match body.last().kind {
            BodyLiteralKind::Atom(a) => term_vars(a.args@),
            _ => Seq::empty(),
        }
    }
}

/// The argument variables of a negated atom that something else binds: what
/// it waits for. A slot bound nowhere is existential under the negation.
pub open spec fn spec_neg_reads(args: Seq<Term>, binders: Seq<Var>) -> Seq<Var>
    decreases args.len(),
{
    if args.len() == 0 {
        Seq::empty()
    } else {
        spec_neg_reads(args.drop_last(), binders) + match args.last() {
            Term::Var(v) => if binders.contains(v) {
                seq![v]
            } else {
                Seq::empty()
            },
            Term::Const(_) => Seq::empty(),
        }
    }
}

// ---------------------------------------------------------------------------
// Effects
// ---------------------------------------------------------------------------

/// What a literal needs bound before it runs, and what it binds. `keys` are an
/// aggregate's group keys (a set, read in ascending slot order); `reads` are
/// the other reads, in order.
pub struct EffectSpec {
    pub keys: Set<Var>,
    pub reads: Seq<Var>,
    pub binds: Seq<Var>,
}

/// Whether every read of an effect is bound.
pub open spec fn ready(e: EffectSpec, bound: Seq<Var>) -> bool {
    &&& forall|v: Var| #[trigger] e.keys.contains(v) ==> bound.contains(v)
    &&& forall|i: int| 0 <= i < e.reads.len() ==> bound.contains(#[trigger] e.reads[i])
}

/// An aggregate's group keys: the variables of its goal and collected
/// expression that also occur outside it.
pub open spec fn agg_keys(expr: Expr, goal: Seq<BodyLiteral>, outside: Seq<Var>) -> Set<Var> {
    Set::new(
        |v: Var|
            (spec_all_vars(goal).contains(v) || spec_expr_vars(expr).contains(v))
                && outside.contains(v),
    )
}

/// A comparison's effect: an `=` with a bare unbound variable side assigns it
/// (the left side preferred) and reads the other side; otherwise it filters,
/// reading both sides.
pub open spec fn spec_compare_effect(op: CmpOp, lhs: Expr, rhs: Expr, bound: Seq<Var>) -> EffectSpec {
    if op == CmpOp::Eq && bare_var(lhs) is Some && !bound.contains(bare_var(lhs)->0) {
        EffectSpec { keys: Set::empty(), reads: spec_expr_vars(rhs), binds: seq![bare_var(lhs)->0] }
    } else if op == CmpOp::Eq && bare_var(rhs) is Some && !bound.contains(bare_var(rhs)->0) {
        EffectSpec { keys: Set::empty(), reads: spec_expr_vars(lhs), binds: seq![bare_var(rhs)->0] }
    } else {
        EffectSpec {
            keys: Set::empty(),
            reads: spec_expr_vars(lhs) + spec_expr_vars(rhs),
            binds: Seq::empty(),
        }
    }
}

/// What `k` reads and binds given what is bound. Positive atoms have no
/// effect: they run first and bind their variables.
pub open spec fn spec_effect(
    k: BodyLiteralKind,
    bound: Seq<Var>,
    outside: Seq<Var>,
    binders: Seq<Var>,
) -> Option<EffectSpec> {
    match k {
        BodyLiteralKind::Compare { op, lhs, rhs } => Some(spec_compare_effect(op, lhs, rhs, bound)),
        BodyLiteralKind::Presence { expr, .. } => Some(
            EffectSpec { keys: Set::empty(), reads: spec_expr_vars(expr), binds: Seq::empty() },
        ),
        BodyLiteralKind::Aggregate { result, params, expr, goal, .. } => Some(
            EffectSpec {
                keys: agg_keys(expr, goal@, outside),
                reads: spec_exprs_vars(params@),
                binds: seq![result],
            },
        ),
        BodyLiteralKind::NegAtom(a) => Some(
            EffectSpec {
                keys: Set::empty(),
                reads: spec_neg_reads(a.args@, binders),
                binds: Seq::empty(),
            },
        ),
        BodyLiteralKind::Atom(_) => None,
    }
}

// ---------------------------------------------------------------------------
// The schedule
// ---------------------------------------------------------------------------

/// Why a body could not be scheduled, and which literal is stuck.
#[derive(Debug, Clone, Copy, PartialEq, Eq)]
pub struct ScheduleError {
    /// Index of a literal that never became ready: the earliest in source order.
    pub literal: usize,
    /// A variable that literal needs and never gets.
    pub variable: Var,
    pub cause: ScheduleFailure,
}

/// The two ways a body fails to schedule.
#[derive(Debug, Clone, Copy, PartialEq, Eq)]
pub enum ScheduleFailure {
    /// Nothing in the body ever binds the variable.
    Unbound,
    /// Another stuck literal binds the variable and waits on this one.
    Cycle,
}

/// Whether a literal always waits for the dependency phase.
pub open spec fn spec_is_builtin(k: BodyLiteralKind) -> bool {
    k is Compare || k is Presence || k is Aggregate
}

/// What the positive atoms bind, on top of `seed`.
pub open spec fn phase1_bound(body: Seq<BodyLiteral>, seed: Seq<Var>) -> Seq<Var> {
    seed + spec_atom_binds(body)
}

/// A negated atom that the positives already satisfy runs in the early phase.
pub open spec fn neg_early(body: Seq<BodyLiteral>, seed: Seq<Var>, i: int) -> bool {
    body[i].kind matches BodyLiteralKind::NegAtom(a) && forall|j: int|
        0 <= j < spec_neg_reads(a.args@, spec_binders(body)).len() ==> phase1_bound(
            body,
            seed,
        ).contains(#[trigger] spec_neg_reads(a.args@, spec_binders(body))[j])
}

/// The literals left for the dependency phase.
pub open spec fn is_pending(body: Seq<BodyLiteral>, seed: Seq<Var>, i: int) -> bool {
    spec_is_builtin(body[i].kind) || (body[i].kind is NegAtom && !neg_early(body, seed, i))
}

/// Which phase literal `i` runs in: 1 for positive atoms, 2 for the early
/// negations, 3 for the dependency phase.
pub open spec fn in_phase(body: Seq<BodyLiteral>, seed: Seq<Var>, i: int, phase: int) -> bool {
    if phase == 1 {
        body[i].kind is Atom
    } else if phase == 2 {
        neg_early(body, seed, i)
    } else {
        is_pending(body, seed, i)
    }
}

/// The indices below `n` of the literals in `phase`, ascending.
pub open spec fn phase_indices(body: Seq<BodyLiteral>, seed: Seq<Var>, n: int, phase: int) -> Seq<
    int,
>
    decreases n,
{
    if n <= 0 {
        Seq::empty()
    } else {
        phase_indices(body, seed, n - 1, phase) + if in_phase(body, seed, n - 1, phase) {
            seq![n - 1]
        } else {
            Seq::empty()
        }
    }
}

/// The position in `pending` of the first literal whose reads are all bound.
pub open spec fn first_ready(
    body: Seq<BodyLiteral>,
    pending: Seq<int>,
    bound: Seq<Var>,
    outside: Seq<Var>,
    binders: Seq<Var>,
) -> Option<int>
    decreases pending.len(),
{
    if pending.len() == 0 {
        None
    } else {
        match first_ready(body, pending.drop_last(), bound, outside, binders) {
            Some(p) => Some(p),
            None => match spec_effect(body[pending.last()].kind, bound, outside, binders) {
                Some(e) => if ready(e, bound) {
                    Some(pending.len() - 1)
                } else {
                    None
                },
                None => None,
            },
        }
    }
}

/// The first variable of `reads` not in `bound`.
pub open spec fn first_unbound_in(reads: Seq<Var>, bound: Seq<Var>) -> Option<Var>
    decreases reads.len(),
{
    if reads.len() == 0 {
        None
    } else if !bound.contains(reads[0]) {
        Some(reads[0])
    } else {
        first_unbound_in(reads.drop_first(), bound)
    }
}

/// Whether `v` is the lowest-numbered unbound key.
pub open spec fn least_unbound_key(keys: Set<Var>, bound: Seq<Var>, v: Var) -> bool {
    &&& keys.contains(v)
    &&& !bound.contains(v)
    &&& forall|w: Var| #[trigger] keys.contains(w) && !bound.contains(w) ==> v.0 <= w.0
}

/// The read a stuck effect waits on: the lowest unbound group key, else the
/// first unbound other read.
pub open spec fn missing_read(e: EffectSpec, bound: Seq<Var>) -> Option<Var> {
    if exists|v: Var| least_unbound_key(e.keys, bound, v) {
        Some(choose|v: Var| least_unbound_key(e.keys, bound, v))
    } else {
        first_unbound_in(e.reads, bound)
    }
}

/// What the pending literals could still bind.
pub open spec fn spec_bindable(body: Seq<BodyLiteral>, pending: Seq<int>, bound: Seq<Var>) -> Seq<
    Var,
>
    decreases pending.len(),
{
    if pending.len() == 0 {
        Seq::empty()
    } else {
        spec_bindable(body, pending.drop_last(), bound) + match body[pending.last()].kind {
            BodyLiteralKind::Compare { op, lhs, rhs } => if op == CmpOp::Eq {
                (match bare_var(lhs) {
                    Some(v) => if !bound.contains(v) {
                        seq![v]
                    } else {
                        Seq::empty()
                    },
                    None => Seq::empty(),
                }) + (match bare_var(rhs) {
                    Some(v) => if !bound.contains(v) {
                        seq![v]
                    } else {
                        Seq::empty()
                    },
                    None => Seq::empty(),
                })
            } else {
                Seq::empty()
            },
            BodyLiteralKind::Aggregate { result, .. } => seq![result],
            _ => Seq::empty(),
        }
    }
}

/// The error for a stuck body: the earliest stuck literal, a variable it waits
/// on, and whether anything left could ever bind it.
pub open spec fn spec_diagnose(
    body: Seq<BodyLiteral>,
    pending: Seq<int>,
    bound: Seq<Var>,
    outside: Seq<Var>,
    binders: Seq<Var>,
) -> ScheduleError {
    let index = pending[0];
    let missing = match spec_effect(body[index].kind, bound, outside, binders) {
        Some(e) => match missing_read(e, bound) {
            Some(v) => v,
            None => Var(0),
        },
        None => Var(0),
    };
    ScheduleError {
        literal: index as usize,
        variable: missing,
        cause: if spec_bindable(body, pending, bound).contains(missing) {
            ScheduleFailure::Cycle
        } else {
            ScheduleFailure::Unbound
        },
    }
}

/// Puts `prefix` in front of a schedule's order.
pub open spec fn prepend(prefix: Seq<int>, r: Result<(Seq<int>, Seq<Var>), ScheduleError>) -> Result<
    (Seq<int>, Seq<Var>),
    ScheduleError,
> {
    match r {
        Ok((order, bound)) => Ok((prefix + order, bound)),
        Err(e) => Err(e),
    }
}

/// The dependency phase: emit the earliest ready pending literal, repeat.
pub open spec fn phase3(
    body: Seq<BodyLiteral>,
    pending: Seq<int>,
    bound: Seq<Var>,
    outside: Seq<Var>,
    binders: Seq<Var>,
) -> Result<(Seq<int>, Seq<Var>), ScheduleError>
    decreases pending.len(),
{
    if pending.len() == 0 {
        Ok((Seq::empty(), bound))
    } else {
        match first_ready(body, pending, bound, outside, binders) {
            None => Err(spec_diagnose(body, pending, bound, outside, binders)),
            Some(p) => if 0 <= p < pending.len() {
                let index = pending[p];
                let binds = match spec_effect(body[index].kind, bound, outside, binders) {
                    Some(e) => e.binds,
                    None => Seq::empty(),
                };
                prepend(
                    seq![index],
                    phase3(body, pending.remove(p), bound + binds, outside, binders),
                )
            } else {
                Err(spec_diagnose(body, pending, bound, outside, binders))
            },
        }
    }
}

/// The schedule of `body` with `seed` already bound: the order, and what the
/// body ends up binding (the seed, then each literal's bindings in order).
pub open spec fn spec_schedule(body: Seq<BodyLiteral>, seed: Seq<Var>) -> Result<
    (Seq<int>, Seq<Var>),
    ScheduleError,
> {
    let n = body.len() as int;
    let o1 = phase_indices(body, seed, n, 1);
    let o2 = phase_indices(body, seed, n, 2);
    let pend = phase_indices(body, seed, n, 3);
    prepend(
        o1 + o2,
        phase3(body, pend, phase1_bound(body, seed), spec_outside(body), spec_binders(body)),
    )
}

/// Running `order` from `bound`: each literal's reads must be bound when it
/// runs; the result is what is bound at the end.
pub open spec fn replay(
    body: Seq<BodyLiteral>,
    order: Seq<int>,
    bound: Seq<Var>,
    outside: Seq<Var>,
    binders: Seq<Var>,
) -> Option<Seq<Var>>
    decreases order.len(),
{
    if order.len() == 0 {
        Some(bound)
    } else {
        let i = order[0];
        if !(0 <= i < body.len()) {
            None
        } else {
            match body[i].kind {
                BodyLiteralKind::Atom(a) => replay(
                    body,
                    order.drop_first(),
                    bound + term_vars(a.args@),
                    outside,
                    binders,
                ),
                _ => match spec_effect(body[i].kind, bound, outside, binders) {
                    Some(e) => if ready(e, bound) {
                        replay(body, order.drop_first(), bound + e.binds, outside, binders)
                    } else {
                        None
                    },
                    None => None,
                },
            }
        }
    }
}


// ---------------------------------------------------------------------------
// Executable variable sets
// ---------------------------------------------------------------------------

/// Whether `v` occurs in `vs`.
pub fn contains_var(vs: &[Var], v: Var) -> (r: bool)
    ensures
        r == vs@.contains(v),
{
    let mut i: usize = 0;
    while i < vs.len()
        invariant
            i <= vs.len(),
            forall|j: int| 0 <= j < i ==> vs@[j] != v,
        decreases vs.len() - i,
    {
        if vs[i] == v {
            return true;
        }
        i += 1;
    }
    false
}

/// Appends `more` to `acc`.
pub fn extend_vars(acc: &mut Vec<Var>, more: &[Var])
    ensures
        final(acc)@ == old(acc)@ + more@,
{
    let mut i: usize = 0;
    while i < more.len()
        invariant
            i <= more.len(),
            acc@ == old(acc)@ + more@.take(i as int),
        decreases more.len() - i,
    {
        acc.push(more[i]);
        i += 1;
        assert(more@.take(i as int) =~= more@.take((i - 1) as int).push(more@[i - 1]));
    }
    assert(more@.take(more.len() as int) =~= more@);
}

/// `a` followed by `b`.
fn concat_vars(a: Vec<Var>, b: Vec<Var>) -> (r: Vec<Var>)
    ensures
        r@ == a@ + b@,
{
    let mut out = a;
    extend_vars(&mut out, b.as_slice());
    out
}

/// The variables among `args`, in order.
fn term_vars_of(args: &[Term]) -> (r: Vec<Var>)
    ensures
        r@ == term_vars(args@),
{
    let mut r: Vec<Var> = Vec::new();
    let mut i: usize = 0;
    while i < args.len()
        invariant
            i <= args.len(),
            r@ == term_vars(args@.take(i as int)),
        decreases args.len() - i,
    {
        assert(args@.take(i as int + 1).drop_last() =~= args@.take(i as int));
        if let Term::Var(v) = &args[i] {
            r.push(*v);
        }
        i += 1;
        assert(r@ =~= term_vars(args@.take(i as int)));
    }
    assert(args@.take(i as int) =~= args@);
    r
}

/// The variables of an expression, in occurrence order.
pub fn expr_vars(expr: &Expr) -> (r: Vec<Var>)
    ensures
        r@ == spec_expr_vars(*expr),
    decreases expr,
{
    match expr {
        Expr::Term(Term::Var(v)) => vec![*v],
        Expr::Term(Term::Const(_)) => Vec::new(),
        Expr::Binary { lhs, rhs, .. } => {
            let mut vars = expr_vars(lhs);
            let more = expr_vars(rhs);
            extend_vars(&mut vars, more.as_slice());
            vars
        },
        Expr::Cast { expr: inner, .. } => expr_vars(inner),
        Expr::Builtin { op, args } => {
            assert(*expr == (Expr::Builtin { op: *op, args: *args }));
            let mut vars: Vec<Var> = Vec::new();
            let mut i: usize = 0;
            while i < args.len()
                invariant
                    i <= args.len(),
                    vars@ == spec_exprs_vars(args@.take(i as int)),
                    *expr == (Expr::Builtin { op: *op, args: *args }),
                decreases args.len() - i,
            {
                assert(args@.take(i as int + 1).drop_last() =~= args@.take(i as int));
                assert(decreases_to!(*expr => (*expr)->args));
                assert(decreases_to!((*expr)->args => (*expr)->args@));
                assert(decreases_to!((*expr)->args@ => args@[i as int]));
                let more = expr_vars(&args[i]);
                extend_vars(&mut vars, more.as_slice());
                i += 1;
            }
            assert(args@.take(i as int) =~= args@);
            vars
        },
    }
}

/// Whether an arithmetic operator occurs anywhere in `expr`.
fn has_arithmetic(expr: &Expr) -> (r: bool)
    ensures
        r == spec_has_arithmetic(*expr),
    decreases expr,
{
    match expr {
        Expr::Binary { .. } => true,
        Expr::Cast { expr: inner, .. } => has_arithmetic(inner),
        Expr::Builtin { op, args } => {
            assert(*expr == (Expr::Builtin { op: *op, args: *args }));
            let mut i: usize = 0;
            let mut found = false;
            while i < args.len()
                invariant
                    i <= args.len(),
                    found == spec_any_arithmetic(args@.take(i as int)),
                    *expr == (Expr::Builtin { op: *op, args: *args }),
                decreases args.len() - i,
            {
                assert(args@.take(i as int + 1).drop_last() =~= args@.take(i as int));
                assert(decreases_to!(*expr => (*expr)->args));
                assert(decreases_to!((*expr)->args => (*expr)->args@));
                assert(decreases_to!((*expr)->args@ => args@[i as int]));
                let here = has_arithmetic(&args[i]);
                found = found || here;
                i += 1;
            }
            assert(args@.take(i as int) =~= args@);
            found
        },
        Expr::Term(_) => false,
    }
}

/// Whether evaluating `expr` synthesises a value: arithmetic over a variable.
fn creates_value(expr: &Expr) -> (r: bool)
    ensures
        r == spec_creates_value(*expr),
{
    has_arithmetic(expr) && expr_vars(expr).len() > 0
}

/// The variables of a list of expressions, in order.
fn exprs_vars(es: &[Expr]) -> (r: Vec<Var>)
    ensures
        r@ == spec_exprs_vars(es@),
{
    let mut vars: Vec<Var> = Vec::new();
    let mut i: usize = 0;
    while i < es.len()
        invariant
            i <= es.len(),
            vars@ == spec_exprs_vars(es@.take(i as int)),
        decreases es.len() - i,
    {
        assert(es@.take(i as int + 1).drop_last() =~= es@.take(i as int));
        let more = expr_vars(&es[i]);
        extend_vars(&mut vars, more.as_slice());
        i += 1;
    }
    assert(es@.take(i as int) =~= es@);
    vars
}

/// The variables one literal shares with the enclosing clause.
fn literal_outside(k: &BodyLiteralKind) -> (r: Vec<Var>)
    ensures
        r@ == lit_outside(*k),
{
    match k {
        BodyLiteralKind::Atom(a) => term_vars_of(a.args.as_slice()),
        BodyLiteralKind::NegAtom(a) => term_vars_of(a.args.as_slice()),
        BodyLiteralKind::Compare { lhs, rhs, .. } => {
            let mut vars = expr_vars(lhs);
            let more = expr_vars(rhs);
            extend_vars(&mut vars, more.as_slice());
            vars
        },
        BodyLiteralKind::Presence { expr, .. } => expr_vars(expr),
        BodyLiteralKind::Aggregate { result, params, .. } => {
            let mut vars = vec![*result];
            let more = exprs_vars(params.as_slice());
            extend_vars(&mut vars, more.as_slice());
            vars
        },
    }
}

/// Every variable occurring in `body` outside any aggregate's own scope: the
/// positions that share the enclosing clause's variables.
pub fn outside_aggregate_vars(body: &[BodyLiteral]) -> (r: Vec<Var>)
    ensures
        r@ == spec_outside(body@),
{
    let mut vars: Vec<Var> = Vec::new();
    let mut i: usize = 0;
    while i < body.len()
        invariant
            i <= body.len(),
            vars@ == spec_outside(body@.take(i as int)),
        decreases body.len() - i,
    {
        assert(body@.take(i as int + 1).drop_last() =~= body@.take(i as int));
        let more = literal_outside(&body[i].kind);
        extend_vars(&mut vars, more.as_slice());
        i += 1;
    }
    assert(body@.take(i as int) =~= body@);
    vars
}

/// Every variable occurring anywhere in `body`, aggregate goals and collected
/// expressions included.
pub fn all_body_vars(body: &[BodyLiteral]) -> (r: Vec<Var>)
    ensures
        r@ == spec_all_vars(body@),
    decreases body@,
{
    let mut vars = outside_aggregate_vars(body);
    let mut inner: Vec<Var> = Vec::new();
    let mut i: usize = 0;
    while i < body.len()
        invariant
            i <= body.len(),
            inner@ == spec_inner_vars(body@.take(i as int)),
        decreases body.len() - i,
    {
        assert(body@.take(i as int + 1).drop_last() =~= body@.take(i as int));
        if let BodyLiteralKind::Aggregate { expr, goal, .. } = &body[i].kind {
            let ev = expr_vars(expr);
            extend_vars(&mut inner, ev.as_slice());
            assert(decreases_to!(body@ => goal@));
            let gv = all_body_vars(goal.as_slice());
            extend_vars(&mut inner, gv.as_slice());
        }
        i += 1;
    }
    assert(body@.take(i as int) =~= body@);
    extend_vars(&mut vars, inner.as_slice());
    vars
}

/// What one literal could bind, whatever the order.
fn literal_binders(k: &BodyLiteralKind) -> (r: Vec<Var>)
    ensures
        r@ == lit_binders(*k),
{
    match k {
        BodyLiteralKind::Atom(a) => term_vars_of(a.args.as_slice()),
        BodyLiteralKind::Compare { op, lhs, rhs } => {
            let mut vars: Vec<Var> = Vec::new();
            if *op == CmpOp::Eq {
                if let Expr::Term(Term::Var(v)) = lhs {
                    vars.push(*v);
                }
                if let Expr::Term(Term::Var(v)) = rhs {
                    vars.push(*v);
                }
            }
            assert(vars@ =~= lit_binders(*k));
            vars
        },
        BodyLiteralKind::Aggregate { result, .. } => vec![*result],
        _ => Vec::new(),
    }
}

/// Every variable the body could bind: positive-atom arguments, the bare
/// variable sides of `=`, and aggregate results.
fn binder_vars(body: &[BodyLiteral]) -> (r: Vec<Var>)
    ensures
        r@ == spec_binders(body@),
{
    let mut vars: Vec<Var> = Vec::new();
    let mut i: usize = 0;
    while i < body.len()
        invariant
            i <= body.len(),
            vars@ == spec_binders(body@.take(i as int)),
        decreases body.len() - i,
    {
        assert(body@.take(i as int + 1).drop_last() =~= body@.take(i as int));
        let more = literal_binders(&body[i].kind);
        extend_vars(&mut vars, more.as_slice());
        i += 1;
    }
    assert(body@.take(i as int) =~= body@);
    vars
}

/// The argument variables of a negated atom that something else binds.
fn neg_reads(atom: &Atom, binders: &[Var]) -> (r: Vec<Var>)
    ensures
        r@ == spec_neg_reads(atom.args@, binders@),
{
    let args = atom.args.as_slice();
    let mut r: Vec<Var> = Vec::new();
    let mut i: usize = 0;
    while i < args.len()
        invariant
            i <= args.len(),
            args@ == atom.args@,
            r@ == spec_neg_reads(args@.take(i as int), binders@),
        decreases args.len() - i,
    {
        assert(args@.take(i as int + 1).drop_last() =~= args@.take(i as int));
        if let Term::Var(v) = &args[i] {
            if contains_var(binders, *v) {
                r.push(*v);
            }
        }
        i += 1;
        assert(r@ =~= spec_neg_reads(args@.take(i as int), binders@));
    }
    assert(args@.take(i as int) =~= args@);
    r
}


// ---------------------------------------------------------------------------
// Executable effects
// ---------------------------------------------------------------------------

/// Strictly increasing by slot number.
pub open spec fn strictly_sorted(s: Seq<Var>) -> bool {
    forall|i: int, j: int| 0 <= i < j < s.len() ==> s[i].0 < s[j].0
}

/// Inserting `v` where it belongs keeps a list strictly sorted and adds `v`.
proof fn lemma_insert_sorted(before: Seq<Var>, p: int, v: Var)
    requires
        strictly_sorted(before),
        0 <= p <= before.len(),
        forall|j: int| 0 <= j < p ==> before[j].0 < v.0,
        p < before.len() ==> before[p].0 > v.0,
    ensures
        strictly_sorted(before.insert(p, v)),
        forall|w: Var| before.insert(p, v).contains(w) <==> (before.contains(w) || w == v),
{
    let out = before.insert(p, v);
    assert forall|i: int, j: int| 0 <= i < j < out.len() implies out[i].0 < out[j].0 by {
        if j < p {
            assert(out[i] == before[i] && out[j] == before[j]);
        } else if j == p {
            assert(out[i] == before[i]);
        } else if i < p {
            assert(out[i] == before[i] && out[j] == before[j - 1]);
        } else if i == p {
            assert(out[j] == before[j - 1]);
            assert(before[p].0 <= before[j - 1].0);
        } else {
            assert(out[i] == before[i - 1] && out[j] == before[j - 1]);
        }
    }
    assert forall|w: Var| out.contains(w) <==> (before.contains(w) || w == v) by {
        if out.contains(w) {
            let j = choose|j: int| 0 <= j < out.len() && out[j] == w;
            if j < p {
                assert(before[j] == w);
            } else if j > p {
                assert(before[j - 1] == w);
            }
        }
        if before.contains(w) {
            let j = choose|j: int| 0 <= j < before.len() && before[j] == w;
            if j < p {
                assert(out[j] == w);
            } else {
                assert(out[j + 1] == w);
            }
        }
        if w == v {
            assert(out[p] == w);
        }
    }
}

/// Adds `v` to a strictly sorted list of variables, unless it is there.
fn insert_sorted(keys: Vec<Var>, v: Var) -> (r: Vec<Var>)
    requires
        strictly_sorted(keys@),
    ensures
        strictly_sorted(r@),
        forall|w: Var| r@.contains(w) <==> (keys@.contains(w) || w == v),
{
    let mut p: usize = 0;
    while p < keys.len() && keys[p].0 < v.0
        invariant
            p <= keys.len(),
            strictly_sorted(keys@),
            forall|j: int| 0 <= j < p ==> keys@[j].0 < v.0,
        decreases keys.len() - p,
    {
        p += 1;
    }
    if p < keys.len() && keys[p].0 == v.0 {
        assert(keys@[p as int] == v);
        assert(keys@.contains(v));
        return keys;
    }
    let ghost before = keys@;
    let mut out = keys;
    out.insert(p, v);
    proof {
        lemma_insert_sorted(before, p as int, v);
    }
    out
}

/// An executable effect: the reads are the group keys in ascending slot order
/// (the first `nkeys` of them), then the other reads.
struct Effect {
    reads: Vec<Var>,
    nkeys: usize,
    binds: Vec<Var>,
}

/// `e` computes the specified effect `s`.
spec fn effect_matches(e: Effect, s: EffectSpec) -> bool {
    &&& e.nkeys <= e.reads@.len()
    &&& strictly_sorted(e.reads@.take(e.nkeys as int))
    &&& forall|v: Var| s.keys.contains(v) <==> e.reads@.take(e.nkeys as int).contains(v)
    &&& e.reads@.skip(e.nkeys as int) == s.reads
    &&& e.binds@ == s.binds
}

/// `r` computes the specified effect, or is `None` where there is none.
spec fn effect_ok(r: Option<Effect>, s: Option<EffectSpec>) -> bool {
    match s {
        None => r is None,
        Some(s) => r is Some && effect_matches(r->0, s),
    }
}

/// Membership in a concatenation is membership in either part.
proof fn lemma_concat_contains(a: Seq<Var>, b: Seq<Var>, outside: Seq<Var>, keys: Seq<Var>)
    requires
        forall|w: Var| keys.contains(w) <==> ((a + b).contains(w) && outside.contains(w)),
    ensures
        forall|w: Var| keys.contains(w) <==> ((a.contains(w) || b.contains(w)) && outside.contains(w)),
{
    assert forall|w: Var| (a + b).contains(w) <==> (a.contains(w) || b.contains(w)) by {
        if (a + b).contains(w) {
            let j = choose|j: int| 0 <= j < (a + b).len() && (a + b)[j] == w;
            if j < a.len() {
                assert(a[j] == w);
            } else {
                assert(b[j - a.len()] == w);
            }
        }
        if a.contains(w) {
            let j = choose|j: int| 0 <= j < a.len() && a[j] == w;
            assert((a + b)[j] == w);
        }
        if b.contains(w) {
            let j = choose|j: int| 0 <= j < b.len() && b[j] == w;
            assert((a + b)[a.len() + j] == w);
        }
    }
}

/// The variable an `=` side assigns: a bare variable not yet bound.
fn assign_target(op: CmpOp, side: &Expr, bound: &[Var]) -> (r: Option<Var>)
    ensures
        r == (if op == CmpOp::Eq && bare_var(*side) is Some && !bound@.contains(
            bare_var(*side)->0,
        ) {
            bare_var(*side)
        } else {
            None
        }),
{
    if op == CmpOp::Eq {
        if let Expr::Term(Term::Var(v)) = side {
            if !contains_var(bound, *v) {
                return Some(*v);
            }
        }
    }
    None
}

/// A comparison's effect, given what is bound so far.
fn compare_effect(op: CmpOp, lhs: &Expr, rhs: &Expr, bound: &[Var]) -> (e: Effect)
    ensures
        effect_matches(e, spec_compare_effect(op, *lhs, *rhs, bound@)),
{
    let target_l = assign_target(op, lhs, bound);
    let target_r = assign_target(op, rhs, bound);
    let e = if let Some(v) = target_l {
        Effect { reads: expr_vars(rhs), nkeys: 0, binds: vec![v] }
    } else if let Some(v) = target_r {
        Effect { reads: expr_vars(lhs), nkeys: 0, binds: vec![v] }
    } else {
        Effect { reads: concat_vars(expr_vars(lhs), expr_vars(rhs)), nkeys: 0, binds: Vec::new() }
    };
    assert(e.reads@.skip(0) =~= e.reads@);
    assert(e.reads@.take(0) =~= Seq::<Var>::empty());
    assert(e.binds@ =~= spec_compare_effect(op, *lhs, *rhs, bound@).binds);
    e
}

/// What `k` reads and binds, given what is bound so far.
fn effect_of(k: &BodyLiteralKind, bound: &[Var], outside: &[Var], binders: &[Var]) -> (r: Option<
    Effect,
>)
    ensures
        effect_ok(r, spec_effect(*k, bound@, outside@, binders@)),
{
    match k {
        BodyLiteralKind::Compare { op, lhs, rhs } => {
            Some(compare_effect(*op, lhs, rhs, bound))
        },
        BodyLiteralKind::Presence { expr, .. } => {
            let e = Effect { reads: expr_vars(expr), nkeys: 0, binds: Vec::new() };
            assert(e.reads@.skip(0) =~= e.reads@);
            assert(e.reads@.take(0) =~= Seq::<Var>::empty());
            assert(e.binds@ =~= Seq::<Var>::empty());
            Some(e)
        },
        BodyLiteralKind::Aggregate { result, params, expr, goal, .. } => {
            let mut candidates = all_body_vars(goal.as_slice());
            let ev = expr_vars(expr);
            extend_vars(&mut candidates, ev.as_slice());
            let mut keys: Vec<Var> = Vec::new();
            let mut i: usize = 0;
            while i < candidates.len()
                invariant
                    i <= candidates.len(),
                    strictly_sorted(keys@),
                    forall|w: Var|
                        keys@.contains(w) <==> (candidates@.take(i as int).contains(w)
                            && outside@.contains(w)),
                decreases candidates.len() - i,
            {
                let c = candidates[i];
                let ghost prev = candidates@.take(i as int);
                if contains_var(outside, c) {
                    keys = insert_sorted(keys, c);
                }
                assert(candidates@.take(i as int + 1) =~= prev.push(c));
                assert forall|w: Var| prev.push(c).contains(w) <==> (prev.contains(w) || w == c) by {
                    if prev.push(c).contains(w) {
                        let j = choose|j: int| 0 <= j < prev.push(c).len() && prev.push(c)[j] == w;
                        if j < prev.len() {
                            assert(prev[j] == w);
                        }
                    }
                    if prev.contains(w) {
                        let j = choose|j: int| 0 <= j < prev.len() && prev[j] == w;
                        assert(prev.push(c)[j] == w);
                    }
                    if w == c {
                        assert(prev.push(c)[prev.len() as int] == w);
                    }
                }
                i += 1;
            }
            assert(candidates@.take(i as int) =~= candidates@);
            let nkeys = keys.len();
            let pv = exprs_vars(params.as_slice());
            let ghost keys_seq = keys@;
            extend_vars(&mut keys, pv.as_slice());
            let e = Effect { reads: keys, nkeys, binds: vec![*result] };
            assert(e.binds@ =~= seq![*result]);
            assert(e.reads@.take(nkeys as int) =~= keys_seq);
            assert(e.reads@.skip(nkeys as int) =~= pv@);
            proof {
                lemma_concat_contains(spec_all_vars(goal@), spec_expr_vars(*expr), outside@, keys_seq);
            }
            Some(e)
        },
        BodyLiteralKind::NegAtom(a) => {
            let e = Effect { reads: neg_reads(a, binders), nkeys: 0, binds: Vec::new() };
            assert(e.reads@.skip(0) =~= e.reads@);
            assert(e.reads@.take(0) =~= Seq::<Var>::empty());
            assert(e.binds@ =~= Seq::<Var>::empty());
            Some(e)
        },
        BodyLiteralKind::Atom(_) => None,
    }
}

/// Whether every variable of `reads` is in `bound`.
fn all_in(reads: &[Var], bound: &[Var]) -> (r: bool)
    ensures
        r == forall|i: int| 0 <= i < reads@.len() ==> bound@.contains(#[trigger] reads@[i]),
{
    let mut i: usize = 0;
    while i < reads.len()
        invariant
            i <= reads.len(),
            forall|j: int| 0 <= j < i ==> bound@.contains(#[trigger] reads@[j]),
        decreases reads.len() - i,
    {
        if !contains_var(bound, reads[i]) {
            return false;
        }
        i += 1;
    }
    true
}

/// Whether the effect's reads are all bound.
fn is_ready(e: &Effect, bound: &[Var]) -> (r: bool)
    requires
        exists|s: EffectSpec| effect_matches(*e, s),
    ensures
        forall|s: EffectSpec| effect_matches(*e, s) ==> r == ready(s, bound@),
{
    let r = all_in(e.reads.as_slice(), bound);
    proof {
        assert forall|s: EffectSpec| effect_matches(*e, s) implies r == ready(s, bound@) by {
            let k = e.nkeys as int;
            if r {
                assert forall|v: Var| #[trigger] s.keys.contains(v) implies bound@.contains(v) by {
                    let j = choose|j: int| 0 <= j < k && e.reads@.take(k)[j] == v;
                    assert(e.reads@[j] == v);
                }
                assert forall|i: int| 0 <= i < s.reads.len() implies bound@.contains(
                    #[trigger] s.reads[i],
                ) by {
                    assert(s.reads[i] == e.reads@[k + i]);
                }
            }
            if ready(s, bound@) {
                assert forall|i: int| 0 <= i < e.reads@.len() implies bound@.contains(
                    #[trigger] e.reads@[i],
                ) by {
                    if i < k {
                        assert(e.reads@.take(k)[i] == e.reads@[i]);
                        assert(e.reads@.take(k).contains(e.reads@[i]));
                        assert(s.keys.contains(e.reads@[i]));
                    } else {
                        assert(s.reads[i - k] == e.reads@[i]);
                    }
                }
            }
        }
    }
    r
}


/// The first variable of `reads` not in `bound`.
fn first_missing(reads: &[Var], bound: &[Var]) -> (r: Option<Var>)
    ensures
        r == first_unbound_in(reads@, bound@),
{
    let mut i: usize = 0;
    assert(reads@.skip(0) =~= reads@);
    while i < reads.len()
        invariant
            i <= reads.len(),
            first_unbound_in(reads@, bound@) == first_unbound_in(reads@.skip(i as int), bound@),
        decreases reads.len() - i,
    {
        assert(reads@.skip(i as int)[0] == reads@[i as int]);
        if !contains_var(bound, reads[i]) {
            return Some(reads[i]);
        }
        assert(reads@.skip(i as int).drop_first() =~= reads@.skip(i as int + 1));
        i += 1;
    }
    None
}

/// The first unbound variable of a concatenation comes from its first part
/// when that part has one.
proof fn lemma_first_unbound_concat(a: Seq<Var>, b: Seq<Var>, bound: Seq<Var>)
    ensures
        first_unbound_in(a + b, bound) == match first_unbound_in(a, bound) {
            Some(x) => Some(x),
            None => first_unbound_in(b, bound),
        },
    decreases a.len(),
{
    if a.len() == 0 {
        assert(a + b =~= b);
    } else {
        assert((a + b)[0] == a[0]);
        assert((a + b).drop_first() =~= a.drop_first() + b);
        lemma_first_unbound_concat(a.drop_first(), b, bound);
    }
}

/// In a strictly sorted list, the first unbound variable is the lowest-numbered
/// one; and when there is none, every variable is bound.
proof fn lemma_first_unbound_sorted(a: Seq<Var>, bound: Seq<Var>)
    requires
        strictly_sorted(a),
    ensures
        match first_unbound_in(a, bound) {
            Some(x) => a.contains(x) && !bound.contains(x) && forall|w: Var|
                #[trigger] a.contains(w) && !bound.contains(w) ==> x.0 <= w.0,
            None => forall|i: int| 0 <= i < a.len() ==> bound.contains(#[trigger] a[i]),
        },
    decreases a.len(),
{
    if a.len() > 0 {
        let rest = a.drop_first();
        assert(strictly_sorted(rest));
        lemma_first_unbound_sorted(rest, bound);
        if bound.contains(a[0]) {
            match first_unbound_in(rest, bound) {
                Some(x) => {
                    assert(a.contains(x)) by {
                        let j = choose|j: int| 0 <= j < rest.len() && rest[j] == x;
                        assert(a[j + 1] == x);
                    }
                    assert forall|w: Var| #[trigger] a.contains(w) && !bound.contains(w) implies x.0
                        <= w.0 by {
                        let j = choose|j: int| 0 <= j < a.len() && a[j] == w;
                        if j > 0 {
                            assert(rest[j - 1] == w);
                            assert(rest.contains(w));
                        }
                    }
                },
                None => {
                    assert forall|i: int| 0 <= i < a.len() implies bound.contains(#[trigger] a[i]) by {
                        if i > 0 {
                            assert(a[i] == rest[i - 1]);
                        }
                    }
                },
            }
        } else {
            assert(a.contains(a[0]));
            assert forall|w: Var| #[trigger] a.contains(w) && !bound.contains(w) implies a[0].0
                <= w.0 by {
                let j = choose|j: int| 0 <= j < a.len() && a[j] == w;
                if j > 0 {
                    assert(a[0].0 < a[j].0);
                }
            }
        }
    }
}

/// The variable a stuck effect waits on.
fn missing_of(e: &Effect, bound: &[Var]) -> (r: Option<Var>)
    ensures
        forall|s: EffectSpec| effect_matches(*e, s) ==> r == missing_read(s, bound@),
{
    let r = first_missing(e.reads.as_slice(), bound);
    proof {
        assert forall|s: EffectSpec| effect_matches(*e, s) implies r == missing_read(s, bound@) by {
            let k = e.nkeys as int;
            let keys = e.reads@.take(k);
            assert(e.reads@ =~= keys + e.reads@.skip(k));
            lemma_first_unbound_concat(keys, e.reads@.skip(k), bound@);
            lemma_first_unbound_sorted(keys, bound@);
            match first_unbound_in(keys, bound@) {
                Some(x) => {
                    assert(least_unbound_key(s.keys, bound@, x));
                    let v = choose|v: Var| least_unbound_key(s.keys, bound@, v);
                    assert(v.0 == x.0);
                    assert(v == x);
                },
                None => {
                    assert forall|v: Var| !least_unbound_key(s.keys, bound@, v) by {
                        if s.keys.contains(v) {
                            assert(keys.contains(v));
                            let j = choose|j: int| 0 <= j < keys.len() && keys[j] == v;
                            assert(bound@.contains(keys[j]));
                        }
                    }
                },
            }
        }
    }
    r
}


// ---------------------------------------------------------------------------
// The executable schedule
// ---------------------------------------------------------------------------

/// Indices as integers.
pub open spec fn ints(s: Seq<usize>) -> Seq<int> {
    s.map_values(|i: usize| i as int)
}

/// The mathematical content of a schedule result.
pub open spec fn view_schedule(r: Result<(Vec<usize>, Vec<Var>), ScheduleError>) -> Result<
    (Seq<int>, Seq<Var>),
    ScheduleError,
> {
    match r {
        Ok((order, bound)) => Ok((ints(order@), bound@)),
        Err(e) => Err(e),
    }
}

/// A ready literal found in a prefix of `pending` is the first ready one.
proof fn lemma_first_ready_prefix(
    body: Seq<BodyLiteral>,
    pending: Seq<int>,
    j: int,
    bound: Seq<Var>,
    outside: Seq<Var>,
    binders: Seq<Var>,
)
    requires
        0 <= j <= pending.len(),
        first_ready(body, pending.take(j), bound, outside, binders) is Some,
    ensures
        first_ready(body, pending, bound, outside, binders) == first_ready(
            body,
            pending.take(j),
            bound,
            outside,
            binders,
        ),
    decreases pending.len() - j,
{
    if j < pending.len() {
        assert(pending.take(j + 1).drop_last() =~= pending.take(j));
        lemma_first_ready_prefix(body, pending, j + 1, bound, outside, binders);
    } else {
        assert(pending.take(j) =~= pending);
    }
}

/// The first ready literal is in range and ready.
proof fn lemma_first_ready_facts(
    body: Seq<BodyLiteral>,
    pending: Seq<int>,
    bound: Seq<Var>,
    outside: Seq<Var>,
    binders: Seq<Var>,
)
    ensures
        first_ready(body, pending, bound, outside, binders) matches Some(p) ==> 0 <= p
            < pending.len() && spec_effect(body[pending[p]].kind, bound, outside, binders) is Some
            && ready(spec_effect(body[pending[p]].kind, bound, outside, binders)->0, bound),
    decreases pending.len(),
{
    if pending.len() > 0 {
        lemma_first_ready_facts(body, pending.drop_last(), bound, outside, binders);
    }
}

/// The position in `pending` of the first ready literal, with its effect.
fn find_ready(
    body: &[BodyLiteral],
    pending: &[usize],
    bound: &[Var],
    outside: &[Var],
    binders: &[Var],
) -> (r: Option<(usize, Effect)>)
    requires
        forall|k: int| 0 <= k < pending.len() ==> pending@[k] < body.len(),
    ensures
        match r {
            None => first_ready(body@, ints(pending@), bound@, outside@, binders@) is None,
            Some((p, e)) => first_ready(body@, ints(pending@), bound@, outside@, binders@) == Some(
                p as int,
            ) && p < pending.len() && effect_matches(
                e,
                spec_effect(body@[pending@[p as int] as int].kind, bound@, outside@, binders@)->0,
            ) && spec_effect(body@[pending@[p as int] as int].kind, bound@, outside@, binders@) is Some,
        },
{
    let ghost ps = ints(pending@);
    let mut j: usize = 0;
    while j < pending.len()
        invariant
            j <= pending.len(),
            ps == ints(pending@),
            forall|k: int| 0 <= k < pending.len() ==> pending@[k] < body.len(),
            first_ready(body@, ps.take(j as int), bound@, outside@, binders@) is None,
        decreases pending.len() - j,
    {
        assert(ps.take(j as int + 1).drop_last() =~= ps.take(j as int));
        assert(ps.take(j as int + 1).last() == pending@[j as int] as int);
        let index = pending[j];
        if let Some(e) = effect_of(&body[index].kind, bound, outside, binders) {
            if is_ready(&e, bound) {
                proof {
                    lemma_first_ready_prefix(body@, ps, j as int + 1, bound@, outside@, binders@);
                }
                return Some((j, e));
            }
        }
        j += 1;
    }
    assert(ps.take(j as int) =~= ps);
    None
}

/// Explains a stuck body: the earliest stuck literal, a variable it waits on,
/// and whether anything left could ever bind it.
fn diagnose(
    body: &[BodyLiteral],
    pending: &[usize],
    bound: &[Var],
    outside: &[Var],
    binders: &[Var],
) -> (r: ScheduleError)
    requires
        pending.len() > 0,
        forall|k: int| 0 <= k < pending.len() ==> pending@[k] < body.len(),
    ensures
        r == spec_diagnose(body@, ints(pending@), bound@, outside@, binders@),
{
    let ghost ps = ints(pending@);
    let mut bindable: Vec<Var> = Vec::new();
    let mut j: usize = 0;
    while j < pending.len()
        invariant
            j <= pending.len(),
            ps == ints(pending@),
            forall|k: int| 0 <= k < pending.len() ==> pending@[k] < body.len(),
            bindable@ == spec_bindable(body@, ps.take(j as int), bound@),
        decreases pending.len() - j,
    {
        assert(ps.take(j as int + 1).drop_last() =~= ps.take(j as int));
        assert(ps.take(j as int + 1).last() == pending@[j as int] as int);
        match &body[pending[j]].kind {
            BodyLiteralKind::Compare { op, lhs, rhs } => {
                if *op == CmpOp::Eq {
                    if let Expr::Term(Term::Var(v)) = lhs {
                        if !contains_var(bound, *v) {
                            bindable.push(*v);
                        }
                    }
                    if let Expr::Term(Term::Var(v)) = rhs {
                        if !contains_var(bound, *v) {
                            bindable.push(*v);
                        }
                    }
                    assert(bindable@ =~= spec_bindable(body@, ps.take(j as int + 1), bound@));
                } else {
                    assert(bindable@ =~= spec_bindable(body@, ps.take(j as int + 1), bound@));
                }
            },
            BodyLiteralKind::Aggregate { result, .. } => {
                bindable.push(*result);
                assert(bindable@ =~= spec_bindable(body@, ps.take(j as int + 1), bound@));
            },
            _ => {
                assert(bindable@ =~= spec_bindable(body@, ps.take(j as int + 1), bound@));
            },
        }
        j += 1;
    }
    assert(ps.take(j as int) =~= ps);
    let index = pending[0];
    let missing = match effect_of(&body[index].kind, bound, outside, binders) {
        Some(e) => match missing_of(&e, bound) {
            Some(v) => v,
            None => Var(0),
        },
        None => Var(0),
    };
    let cause = if contains_var(bindable.as_slice(), missing) {
        ScheduleFailure::Cycle
    } else {
        ScheduleFailure::Unbound
    };
    ScheduleError { literal: index, variable: missing, cause }
}

/// `prefix` then `more`, in front of a schedule, is `prefix + more` in front.
proof fn lemma_prepend_twice(
    prefix: Seq<int>,
    more: Seq<int>,
    r: Result<(Seq<int>, Seq<Var>), ScheduleError>,
)
    ensures
        prepend(prefix, prepend(more, r)) == prepend(prefix + more, r),
{
    match r {
        Ok((order, bound)) => {
            assert(prefix + (more + order) =~= (prefix + more) + order);
        },
        Err(_) => {},
    }
}

/// The evaluation order for `body` with `seed` already bound, and what the body
/// ends up binding: positive atoms in source order, then the negated atoms the
/// positives satisfy, then the builtins and remaining negations in dependency
/// order, earliest ready first.
pub fn schedule_body_with(body: &[BodyLiteral], seed: &[Var]) -> (r: Result<
    (Vec<usize>, Vec<Var>),
    ScheduleError,
>)
    ensures
        view_schedule(r) == spec_schedule(body@, seed@),
{
    let n = body.len();
    let ghost sb = body@;
    let ghost ss = seed@;
    let mut order: Vec<usize> = Vec::new();
    let mut bound: Vec<Var> = Vec::new();
    extend_vars(&mut bound, seed);
    assert(bound@ =~= seed@ + spec_atom_binds(body@.take(0)));
    let mut i: usize = 0;
    while i < n
        invariant
            i <= n == body.len(),
            sb == body@,
            ss == seed@,
            ints(order@) == phase_indices(sb, ss, i as int, 1),
            bound@ == ss + spec_atom_binds(sb.take(i as int)),
        decreases n - i,
    {
        assert(sb.take(i as int + 1).drop_last() =~= sb.take(i as int));
        assert(sb.take(i as int + 1).last() == sb[i as int]);
        if let BodyLiteralKind::Atom(atom) = &body[i].kind {
            order.push(i);
            let vs = term_vars_of(atom.args.as_slice());
            extend_vars(&mut bound, vs.as_slice());
        }
        assert(ints(order@) =~= phase_indices(sb, ss, i as int + 1, 1));
        assert(bound@ =~= ss + spec_atom_binds(sb.take(i as int + 1)));
        i += 1;
    }
    assert(sb.take(n as int) =~= sb);
    let binders = binder_vars(body);
    let outside = outside_aggregate_vars(body);
    let ghost o1 = phase_indices(sb, ss, n as int, 1);
    let mut pending: Vec<usize> = Vec::new();
    i = 0;
    while i < n
        invariant
            i <= n == body.len(),
            sb == body@,
            ss == seed@,
            binders@ == spec_binders(sb),
            bound@ == phase1_bound(sb, ss),
            ints(order@) == o1 + phase_indices(sb, ss, i as int, 2),
            ints(pending@) == phase_indices(sb, ss, i as int, 3),
            forall|k: int| 0 <= k < pending.len() ==> pending@[k] < i,
        decreases n - i,
    {
        let ghost old_order = ints(order@);
        match &body[i].kind {
            BodyLiteralKind::Atom(_) => {},
            BodyLiteralKind::NegAtom(atom) => {
                let reads = neg_reads(atom, binders.as_slice());
                let early = all_in(reads.as_slice(), bound.as_slice());
                proof {
                    assert(sb[i as int].kind == BodyLiteralKind::NegAtom(*atom));
                    assert(reads@ == spec_neg_reads(atom.args@, spec_binders(sb)));
                    if early {
                        assert(neg_early(sb, ss, i as int));
                    } else {
                        let j = choose|j: int|
                            0 <= j < reads@.len() && !bound@.contains(#[trigger] reads@[j]);
                        assert(!neg_early(sb, ss, i as int));
                    }
                }
                if early {
                    order.push(i);
                } else {
                    pending.push(i);
                }
            },
            _ => {
                pending.push(i);
            },
        }
        proof {
            if in_phase(sb, ss, i as int, 2) {
                assert(ints(order@) =~= old_order.push(i as int));
                assert(phase_indices(sb, ss, i as int + 1, 2) =~= phase_indices(
                    sb,
                    ss,
                    i as int,
                    2,
                ).push(i as int));
            } else {
                assert(ints(order@) =~= old_order);
                assert(phase_indices(sb, ss, i as int + 1, 2) =~= phase_indices(sb, ss, i as int, 2));
            }
        }
        assert(ints(order@) =~= o1 + phase_indices(sb, ss, i as int + 1, 2));
        assert(ints(pending@) =~= phase_indices(sb, ss, i as int + 1, 3));
        i += 1;
    }
    let ghost o2 = phase_indices(sb, ss, n as int, 2);
    assert(ints(order@) == o1 + o2);
    while pending.len() > 0
        invariant
            n == body.len(),
            sb == body@,
            ss == seed@,
            binders@ == spec_binders(sb),
            outside@ == spec_outside(sb),
            forall|k: int| 0 <= k < pending.len() ==> pending@[k] < n,
            spec_schedule(sb, ss) == prepend(
                ints(order@),
                phase3(sb, ints(pending@), bound@, outside@, binders@),
            ),
        decreases pending.len(),
    {
        match find_ready(body, pending.as_slice(), bound.as_slice(), outside.as_slice(), binders.as_slice()) {
            None => {
                let err = diagnose(body, pending.as_slice(), bound.as_slice(), outside.as_slice(), binders.as_slice());
                return Err(err);
            },
            Some((p, e)) => {
                let ghost ps = ints(pending@);
                let ghost old_order = ints(order@);
                let index = pending.remove(p);
                assert(ints(pending@) =~= ps.remove(p as int));
                extend_vars(&mut bound, e.binds.as_slice());
                order.push(index);
                assert(ints(order@) =~= old_order + seq![index as int]);
                proof {
                    lemma_prepend_twice(
                        old_order,
                        seq![index as int],
                        phase3(sb, ints(pending@), bound@, outside@, binders@),
                    );
                }
            },
        }
    }
    Ok((order, bound))
}

/// The evaluation order for `body`: positive atoms in source order, then the
/// negated atoms the positives already satisfy, then the builtins and any
/// remaining negations in dependency order. A permutation of the body's
/// indices (see [`lemma_schedule_is_permutation`]).
pub fn schedule_body(body: &[BodyLiteral]) -> (r: Result<Vec<usize>, ScheduleError>)
    ensures
        match (r, spec_schedule(body@, Seq::empty())) {
            (Ok(order), Ok((spec_order, _))) => ints(order@) == spec_order,
            (Err(e), Err(spec_e)) => e == spec_e,
            _ => false,
        },
{
    let seed: Vec<Var> = Vec::new();
    assert(seed@ =~= Seq::<Var>::empty());
    match schedule_body_with(body, seed.as_slice()) {
        Ok((order, _)) => Ok(order),
        Err(e) => Err(e),
    }
}


// ---------------------------------------------------------------------------
// Laws of the schedule
// ---------------------------------------------------------------------------

/// The literals of one phase, listed ascending, are exactly those below `n`.
proof fn lemma_phase_indices(body: Seq<BodyLiteral>, seed: Seq<Var>, n: int, phase: int)
    requires
        0 <= n,
    ensures
        forall|k: int|
            0 <= k < phase_indices(body, seed, n, phase).len() ==> 0 <= #[trigger] phase_indices(
                body,
                seed,
                n,
                phase,
            )[k] < n,
        forall|a: int, b: int|
            0 <= a < b < phase_indices(body, seed, n, phase).len() ==> phase_indices(
                body,
                seed,
                n,
                phase,
            )[a] < phase_indices(body, seed, n, phase)[b],
        forall|i: int|
            0 <= i < n ==> (phase_indices(body, seed, n, phase).contains(i) <==> in_phase(
                body,
                seed,
                i,
                phase,
            )),
    decreases n,
{
    if n > 0 {
        lemma_phase_indices(body, seed, n - 1, phase);
        let prev = phase_indices(body, seed, n - 1, phase);
        let cur = phase_indices(body, seed, n, phase);
        assert forall|i: int| 0 <= i < n implies (cur.contains(i) <==> in_phase(
            body,
            seed,
            i,
            phase,
        )) by {
            if i < n - 1 {
                if prev.contains(i) {
                    let j = choose|j: int| 0 <= j < prev.len() && prev[j] == i;
                    assert(cur[j] == i);
                }
                if cur.contains(i) {
                    let j = choose|j: int| 0 <= j < cur.len() && cur[j] == i;
                    if j < prev.len() {
                        assert(prev[j] == i);
                    }
                }
            } else {
                if in_phase(body, seed, i, phase) {
                    assert(cur[prev.len() as int] == i);
                }
                if cur.contains(i) {
                    let j = choose|j: int| 0 <= j < cur.len() && cur[j] == i;
                    if j < prev.len() {
                        assert(prev[j] < n - 1);
                    }
                }
            }
        }
    }
}

/// Each literal runs in exactly one phase, so the three phases have `n`
/// literals between them.
proof fn lemma_phase_lengths(body: Seq<BodyLiteral>, seed: Seq<Var>, n: int)
    requires
        0 <= n <= body.len(),
    ensures
        phase_indices(body, seed, n, 1).len() + phase_indices(body, seed, n, 2).len()
            + phase_indices(body, seed, n, 3).len() == n,
    decreases n,
{
    if n > 0 {
        lemma_phase_lengths(body, seed, n - 1);
    }
}

/// Running one order after another is running their concatenation.
proof fn lemma_replay_append(
    body: Seq<BodyLiteral>,
    a: Seq<int>,
    b: Seq<int>,
    bound: Seq<Var>,
    outside: Seq<Var>,
    binders: Seq<Var>,
)
    ensures
        replay(body, a + b, bound, outside, binders) == match replay(body, a, bound, outside, binders) {
            Some(mid) => replay(body, b, mid, outside, binders),
            None => None,
        },
    decreases a.len(),
{
    if a.len() == 0 {
        assert(a + b =~= b);
    } else {
        assert((a + b)[0] == a[0]);
        assert((a + b).drop_first() =~= a.drop_first() + b);
        let i = a[0];
        if 0 <= i < body.len() {
            match body[i].kind {
                BodyLiteralKind::Atom(at) => {
                    lemma_replay_append(
                        body,
                        a.drop_first(),
                        b,
                        bound + term_vars(at.args@),
                        outside,
                        binders,
                    );
                },
                _ => match spec_effect(body[i].kind, bound, outside, binders) {
                    Some(e) => {
                        lemma_replay_append(body, a.drop_first(), b, bound + e.binds, outside, binders);
                    },
                    None => {},
                },
            }
        }
    }
}

/// The positive atoms, run in source order, bind what phase one binds.
proof fn lemma_replay_phase1(body: Seq<BodyLiteral>, seed: Seq<Var>, n: int)
    requires
        0 <= n <= body.len(),
    ensures
        replay(body, phase_indices(body, seed, n, 1), seed, spec_outside(body), spec_binders(body))
            == Some(seed + spec_atom_binds(body.take(n))),
    decreases n,
{
    let outside = spec_outside(body);
    let binders = spec_binders(body);
    if n == 0 {
        assert(seed + spec_atom_binds(body.take(0)) =~= seed);
    } else {
        lemma_replay_phase1(body, seed, n - 1);
        let prev = phase_indices(body, seed, n - 1, 1);
        let mid = seed + spec_atom_binds(body.take(n - 1));
        assert(body.take(n).drop_last() =~= body.take(n - 1));
        assert(body.take(n).last() == body[n - 1]);
        if body[n - 1].kind is Atom {
            assert(phase_indices(body, seed, n, 1) =~= prev + seq![n - 1]);
            lemma_replay_append(body, prev, seq![n - 1], seed, outside, binders);
            let at = body[n - 1].kind->Atom_0;
            assert(seq![n - 1].drop_first() =~= Seq::<int>::empty());
            assert(seq![n - 1][0] == n - 1);
            assert(replay(body, Seq::<int>::empty(), mid + term_vars(at.args@), outside, binders) == Some(mid + term_vars(at.args@)));
            assert(replay(body, seq![n - 1], mid, outside, binders) == Some(mid + term_vars(at.args@)));
            assert(spec_atom_binds(body.take(n)) == spec_atom_binds(body.take(n - 1)) + term_vars(at.args@));
            assert(mid + term_vars(at.args@) =~= seed + spec_atom_binds(body.take(n)));
        } else {
            assert(phase_indices(body, seed, n, 1) =~= prev);
            assert(mid =~= seed + spec_atom_binds(body.take(n)));
        }
    }
}

/// The early negations, run in source order, read only what the positives
/// bound and bind nothing.
proof fn lemma_replay_phase2(body: Seq<BodyLiteral>, seed: Seq<Var>, n: int)
    requires
        0 <= n <= body.len(),
    ensures
        replay(
            body,
            phase_indices(body, seed, n, 2),
            phase1_bound(body, seed),
            spec_outside(body),
            spec_binders(body),
        ) == Some(phase1_bound(body, seed)),
    decreases n,
{
    let outside = spec_outside(body);
    let binders = spec_binders(body);
    let b1 = phase1_bound(body, seed);
    if n > 0 {
        lemma_replay_phase2(body, seed, n - 1);
        let prev = phase_indices(body, seed, n - 1, 2);
        if neg_early(body, seed, n - 1) {
            assert(phase_indices(body, seed, n, 2) =~= prev + seq![n - 1]);
            lemma_replay_append(body, prev, seq![n - 1], b1, outside, binders);
            let e = spec_effect(body[n - 1].kind, b1, outside, binders)->0;
            assert(e.binds =~= Seq::<Var>::empty());
            assert(b1 + e.binds =~= b1);
            assert(seq![n - 1].drop_first() =~= Seq::<int>::empty());
            assert(seq![n - 1][0] == n - 1);
            assert(ready(e, b1));
            assert(replay(body, Seq::<int>::empty(), b1 + e.binds, outside, binders) == Some(b1));
            assert(replay(body, seq![n - 1], b1, outside, binders) == Some(b1));
        } else {
            assert(phase_indices(body, seed, n, 2) =~= prev);
        }
    }
}

/// A ready literal at the front of `pending` is the first ready one.
proof fn lemma_first_ready_front(
    body: Seq<BodyLiteral>,
    pending: Seq<int>,
    bound: Seq<Var>,
    outside: Seq<Var>,
    binders: Seq<Var>,
)
    requires
        pending.len() > 0,
        spec_effect(body[pending[0]].kind, bound, outside, binders) matches Some(e) && ready(e, bound),
    ensures
        first_ready(body, pending, bound, outside, binders) == Some(0int),
    decreases pending.len(),
{
    if pending.len() > 1 {
        assert(pending.drop_last()[0] == pending[0]);
        lemma_first_ready_front(body, pending.drop_last(), bound, outside, binders);
    } else {
        assert(pending.drop_last() =~= Seq::<int>::empty());
        assert(first_ready(body, pending.drop_last(), bound, outside, binders) is None);
        assert(pending.last() == pending[0]);
    }
}

/// The dependency phase runs its output in an order whose reads are bound.
proof fn lemma_phase3_replays(
    body: Seq<BodyLiteral>,
    pending: Seq<int>,
    bound: Seq<Var>,
    outside: Seq<Var>,
    binders: Seq<Var>,
)
    requires
        forall|k: int| 0 <= k < pending.len() ==> 0 <= #[trigger] pending[k] < body.len(),
        pending.no_duplicates(),
    ensures
        phase3(body, pending, bound, outside, binders) matches Ok((out, b)) ==> {
            &&& replay(body, out, bound, outside, binders) == Some(b)
            &&& out.len() == pending.len()
            &&& out.no_duplicates()
            &&& forall|x: int| out.contains(x) <==> pending.contains(x)
        },
    decreases pending.len(),
{
    if pending.len() == 0 {
    } else {
        lemma_first_ready_facts(body, pending, bound, outside, binders);
        match first_ready(body, pending, bound, outside, binders) {
            None => {},
            Some(p) => {
                let index = pending[p];
                let e = spec_effect(body[index].kind, bound, outside, binders)->0;
                let rest = pending.remove(p);
                assert forall|k: int| 0 <= k < rest.len() implies 0 <= #[trigger] rest[k]
                    < body.len() by {
                    if k < p {
                        assert(rest[k] == pending[k]);
                    } else {
                        assert(rest[k] == pending[k + 1]);
                    }
                }
                assert(rest.no_duplicates()) by {
                    assert forall|a: int, b: int| 0 <= a < b < rest.len() implies rest[a]
                        != rest[b] by {
                        let pa = if a < p { a } else { a + 1 };
                        let pb = if b < p { b } else { b + 1 };
                        assert(rest[a] == pending[pa] && rest[b] == pending[pb]);
                    }
                }
                lemma_phase3_replays(body, rest, bound + e.binds, outside, binders);
                match phase3(body, rest, bound + e.binds, outside, binders) {
                    Ok((out_rest, b)) => {
                        let out = seq![index] + out_rest;
                        assert(out[0] == index);
                        assert(out.drop_first() =~= out_rest);
                        assert(!(body[index].kind is Atom));
                        assert forall|x: int| out.contains(x) <==> pending.contains(x) by {
                            if out.contains(x) {
                                let j = choose|j: int| 0 <= j < out.len() && out[j] == x;
                                if j == 0 {
                                    assert(pending[p] == x);
                                } else {
                                    assert(out_rest[j - 1] == x);
                                    assert(rest.contains(x));
                                    let m = choose|m: int| 0 <= m < rest.len() && rest[m] == x;
                                    if m < p {
                                        assert(pending[m] == x);
                                    } else {
                                        assert(pending[m + 1] == x);
                                    }
                                }
                            }
                            if pending.contains(x) {
                                let j = choose|j: int| 0 <= j < pending.len() && pending[j] == x;
                                if j == p {
                                    assert(out[0] == x);
                                } else {
                                    let m = if j < p { j } else { j - 1 };
                                    assert(rest[m] == x);
                                    assert(rest.contains(x));
                                    assert(out_rest.contains(x));
                                    let q = choose|q: int| 0 <= q < out_rest.len() && out_rest[q] == x;
                                    assert(out[q + 1] == x);
                                }
                            }
                        }
                        assert(out.no_duplicates()) by {
                            assert forall|a: int, b: int| 0 <= a < b < out.len() implies out[a]
                                != out[b] by {
                                if a == 0 {
                                    assert(out[b] == out_rest[b - 1]);
                                    assert(out_rest.contains(out_rest[b - 1]));
                                    assert(rest.contains(out_rest[b - 1]));
                                    let m = choose|m: int|
                                        0 <= m < rest.len() && rest[m] == out_rest[b - 1];
                                    if m < p {
                                        assert(rest[m] == pending[m]);
                                    } else {
                                        assert(rest[m] == pending[m + 1]);
                                    }
                                } else {
                                    assert(out[a] == out_rest[a - 1] && out[b] == out_rest[b - 1]);
                                }
                            }
                        }
                    },
                    Err(_) => {},
                }
            },
        }
    }
}

/// Law: a schedule orders every literal of the body exactly once: it is a
/// permutation of the body's indices.
pub proof fn lemma_schedule_is_permutation(body: Seq<BodyLiteral>, seed: Seq<Var>)
    ensures
        spec_schedule(body, seed) matches Ok((order, _)) ==> {
            &&& order.len() == body.len()
            &&& order.no_duplicates()
            &&& forall|k: int| 0 <= k < order.len() ==> 0 <= #[trigger] order[k] < body.len()
            &&& forall|i: int| 0 <= i < body.len() ==> order.contains(i)
        },
{
    let n = body.len() as int;
    let o1 = phase_indices(body, seed, n, 1);
    let o2 = phase_indices(body, seed, n, 2);
    let pend = phase_indices(body, seed, n, 3);
    lemma_phase_indices(body, seed, n, 1);
    lemma_phase_indices(body, seed, n, 2);
    lemma_phase_indices(body, seed, n, 3);
    lemma_phase_lengths(body, seed, n);
    assert(pend.no_duplicates()) by {
        assert forall|a: int, b: int| 0 <= a < b < pend.len() implies pend[a] != pend[b] by {
            assert(pend[a] < pend[b]);
        }
    }
    let b1 = phase1_bound(body, seed);
    let outside = spec_outside(body);
    let binders = spec_binders(body);
    lemma_phase3_replays(body, pend, b1, outside, binders);
    match phase3(body, pend, b1, outside, binders) {
        Ok((out, b)) => {
            let order = o1 + o2 + out;
            assert forall|i: int| 0 <= i < n implies order.contains(i) by {
                if body[i].kind is Atom {
                    assert(in_phase(body, seed, i, 1));
                    assert(o1.contains(i));
                    let j = choose|j: int| 0 <= j < o1.len() && o1[j] == i;
                    assert(order[j] == i);
                } else if neg_early(body, seed, i) {
                    assert(in_phase(body, seed, i, 2));
                    assert(o2.contains(i));
                    let j = choose|j: int| 0 <= j < o2.len() && o2[j] == i;
                    assert(order[o1.len() + j] == i);
                } else {
                    assert(in_phase(body, seed, i, 3));
                    assert(pend.contains(i));
                    assert(out.contains(i));
                    let j = choose|j: int| 0 <= j < out.len() && out[j] == i;
                    assert(order[o1.len() + o2.len() + j] == i);
                }
            }
            assert forall|k: int| 0 <= k < order.len() implies 0 <= #[trigger] order[k] < n by {
                if k < o1.len() {
                    assert(order[k] == o1[k]);
                } else if k < o1.len() + o2.len() {
                    assert(order[k] == o2[k - o1.len()]);
                } else {
                    assert(order[k] == out[k - o1.len() - o2.len()]);
                    assert(out.contains(out[k - o1.len() - o2.len()]));
                    assert(pend.contains(out[k - o1.len() - o2.len()]));
                }
            }
            assert(order.no_duplicates()) by {
                assert forall|a: int, b: int| 0 <= a < b < order.len() implies order[a]
                    != order[b] by {
                    let x = order[a];
                    let y = order[b];
                    // the phase each position's literal belongs to
                    let pa = if a < o1.len() { 1int } else if a < o1.len() + o2.len() { 2int } else { 3int };
                    let pb = if b < o1.len() { 1int } else if b < o1.len() + o2.len() { 2int } else { 3int };
                    assert(0 <= x < n && 0 <= y < n);
                    if pa == 1 {
                        assert(o1.contains(x)) by { assert(o1[a] == x); }
                    } else if pa == 2 {
                        assert(o2.contains(x)) by { assert(o2[a - o1.len()] == x); }
                    } else {
                        assert(out.contains(x)) by { assert(out[a - o1.len() - o2.len()] == x); }
                        assert(pend.contains(x));
                    }
                    if pb == 1 {
                        assert(o1.contains(y)) by { assert(o1[b] == y); }
                    } else if pb == 2 {
                        assert(o2.contains(y)) by { assert(o2[b - o1.len()] == y); }
                    } else {
                        assert(out.contains(y)) by { assert(out[b - o1.len() - o2.len()] == y); }
                        assert(pend.contains(y));
                    }
                    if pa != pb && x == y {
                        assert(in_phase(body, seed, x, pa));
                        assert(in_phase(body, seed, x, pb));
                        assert(false);
                    }
                    if pa == pb {
                        if pa == 1 {
                            assert(o1[a] < o1[b]);
                        } else if pa == 2 {
                            assert(o2[a - o1.len()] < o2[b - o1.len()]);
                        } else {
                            assert(out[a - o1.len() - o2.len()] != out[b - o1.len() - o2.len()]);
                        }
                    }
                }
            }
        },
        Err(_) => {},
    }
}

/// Law: the schedule's contract. Running the emitted order from the seed, every
/// literal's reads are bound when it runs, and what ends up bound is what the
/// schedule reports.
pub proof fn lemma_schedule_replays(body: Seq<BodyLiteral>, seed: Seq<Var>)
    ensures
        spec_schedule(body, seed) matches Ok((order, bound)) ==> replay(
            body,
            order,
            seed,
            spec_outside(body),
            spec_binders(body),
        ) == Some(bound),
{
    let n = body.len() as int;
    let o1 = phase_indices(body, seed, n, 1);
    let o2 = phase_indices(body, seed, n, 2);
    let pend = phase_indices(body, seed, n, 3);
    let b1 = phase1_bound(body, seed);
    let outside = spec_outside(body);
    let binders = spec_binders(body);
    lemma_phase_indices(body, seed, n, 3);
    assert(pend.no_duplicates()) by {
        assert forall|a: int, b: int| 0 <= a < b < pend.len() implies pend[a] != pend[b] by {
            assert(pend[a] < pend[b]);
        }
    }
    lemma_phase3_replays(body, pend, b1, outside, binders);
    lemma_replay_phase1(body, seed, n);
    assert(body.take(n) =~= body);
    lemma_replay_phase2(body, seed, n);
    match phase3(body, pend, b1, outside, binders) {
        Ok((out, b)) => {
            lemma_replay_append(body, o1, o2, seed, outside, binders);
            lemma_replay_append(body, o1 + o2, out, seed, outside, binders);
        },
        Err(_) => {},
    }
}

/// The dependency phase keeps an order that already works.
proof fn lemma_phase3_in_order(
    body: Seq<BodyLiteral>,
    pending: Seq<int>,
    bound: Seq<Var>,
    outside: Seq<Var>,
    binders: Seq<Var>,
)
    requires
        forall|k: int| 0 <= k < pending.len() ==> !(body[#[trigger] pending[k]].kind is Atom),
        replay(body, pending, bound, outside, binders) is Some,
    ensures
        phase3(body, pending, bound, outside, binders) == Ok::<(Seq<int>, Seq<Var>), ScheduleError>(
            (pending, replay(body, pending, bound, outside, binders)->0),
        ),
    decreases pending.len(),
{
    if pending.len() > 0 {
        assert(!(body[pending[0]].kind is Atom));
        assert(0 <= pending[0] < body.len());
        assert(spec_effect(body[pending[0]].kind, bound, outside, binders) is Some);
        let e = spec_effect(body[pending[0]].kind, bound, outside, binders)->0;
        assert(ready(e, bound));
        lemma_first_ready_front(body, pending, bound, outside, binders);
        let rest = pending.remove(0);
        assert(rest =~= pending.drop_first());
        assert forall|k: int| 0 <= k < rest.len() implies !(body[#[trigger] rest[k]].kind is Atom) by {
            assert(rest[k] == pending[k + 1]);
        }
        assert(replay(body, pending, bound, outside, binders) == replay(body, rest, bound + e.binds, outside, binders));
        lemma_phase3_in_order(body, rest, bound + e.binds, outside, binders);
        assert(seq![pending[0]] + rest =~= pending);
        assert(phase3(body, pending, bound, outside, binders) == prepend(
            seq![pending[0]],
            phase3(body, rest, bound + e.binds, outside, binders),
        ));
    } else {
        assert(pending =~= Seq::<int>::empty());
    }
}

/// The positive atoms among the first `n` literals are exactly those the
/// first phase lists, ascending.
proof fn lemma_phase1_is_atoms(body: Seq<BodyLiteral>, seed: Seq<Var>, n: int)
    requires
        0 <= n <= body.len(),
    ensures
        ({
            let p1 = phase_indices(body, seed, n, 1);
            &&& forall|j: int| 0 <= j < p1.len() ==> 0 <= #[trigger] p1[j] < n && body[p1[j]].kind is Atom
            &&& forall|j: int, k: int| 0 <= j < k < p1.len() ==> #[trigger] p1[j] < #[trigger] p1[k]
            &&& forall|i: int| 0 <= i < n && (#[trigger] body[i]).kind is Atom ==> p1.contains(i)
        }),
    decreases n,
{
    if n > 0 {
        lemma_phase1_is_atoms(body, seed, n - 1);
        let p0 = phase_indices(body, seed, n - 1, 1);
        let p1 = phase_indices(body, seed, n, 1);
        if body[n - 1].kind is Atom {
            assert(p1 == p0.push(n - 1));
            assert(p1[p0.len() as int] == n - 1);
            assert forall|i: int| 0 <= i < n && (#[trigger] body[i]).kind is Atom implies p1.contains(i) by {
                if i < n - 1 {
                    let j = choose|j: int| 0 <= j < p0.len() && p0[j] == i;
                    assert(p1[j] == i);
                }
            }
        } else {
            assert(p1 =~= p0);
        }
    }
}

/// Every variable of `vs` is in `bound`.
pub open spec fn all_bound(vs: Seq<Var>, bound: Seq<Var>) -> bool {
    forall|i: int| 0 <= i < vs.len() ==> bound.contains(#[trigger] vs[i])
}

/// A body of one comparison schedules exactly when that comparison is ready
/// on the seed, and then binds what it binds.
proof fn lemma_single_compare(lit: BodyLiteral, seed: Seq<Var>)
    requires
        lit.kind is Compare,
    ensures
        ({
            let e = spec_effect(lit.kind, seed, spec_outside(seq![lit]), spec_binders(seq![lit]))->0;
            &&& spec_effect(lit.kind, seed, spec_outside(seq![lit]), spec_binders(seq![lit])) is Some
            &&& (spec_schedule(seq![lit], seed) is Ok) == ready(e, seed)
            &&& ready(e, seed) ==> spec_schedule(seq![lit], seed) == Ok::<(Seq<int>, Seq<Var>), ScheduleError>(
                (seq![0int], seed + e.binds),
            )
        }),
{
    let body = seq![lit];
    let outside = spec_outside(body);
    let binders = spec_binders(body);
    assert(phase_indices(body, seed, 0, 1) =~= Seq::<int>::empty());
    assert(phase_indices(body, seed, 1, 1) =~= Seq::<int>::empty());
    assert(!neg_early(body, seed, 0));
    assert(is_pending(body, seed, 0));
    assert(phase_indices(body, seed, 0, 2) =~= Seq::<int>::empty());
    assert(phase_indices(body, seed, 0, 3) =~= Seq::<int>::empty());
    assert(phase_indices(body, seed, 1, 2) =~= Seq::<int>::empty());
    assert(phase_indices(body, seed, 1, 3) =~= seq![0int]);
    assert(spec_atom_binds(body.drop_last()) =~= Seq::<Var>::empty());
    assert(spec_atom_binds(body) =~= Seq::<Var>::empty());
    assert(phase1_bound(body, seed) =~= seed);
    let pend = seq![0int];
    assert(pend.drop_last() =~= Seq::<int>::empty());
    let e = spec_effect(lit.kind, seed, outside, binders)->0;
    assert(first_ready(body, Seq::<int>::empty(), seed, outside, binders) is None);
    assert(pend.last() == 0);
    assert(body[0] == lit);
    if ready(e, seed) {
        assert(first_ready(body, pend, seed, outside, binders) == Some(0int));
        assert(pend.remove(0) =~= Seq::<int>::empty());
        assert(phase3(body, Seq::<int>::empty(), seed + e.binds, outside, binders) == Ok::<
            (Seq<int>, Seq<Var>),
            ScheduleError,
        >((Seq::<int>::empty(), seed + e.binds)));
        assert(seq![0int] + Seq::<int>::empty() =~= seq![0int]);
        assert(Seq::<int>::empty() + Seq::<int>::empty() + seq![0int] =~= seq![0int]);
    } else {
        assert(first_ready(body, pend, seed, outside, binders) is None);
    }
}

/// An `=` with a bare variable not yet bound on either side assigns that
/// variable from the other side: a body of that one comparison, with the
/// other side's variables bound by the seed, schedules and binds the variable,
/// whichever side it stands on.
pub proof fn lemma_equality_assigns_either_side(lit: BodyLiteral, lhs: Expr, rhs: Expr, seed: Seq<Var>, v: Var)
    requires
        lit.kind == (BodyLiteralKind::Compare { op: CmpOp::Eq, lhs, rhs }),
        !seed.contains(v),
    ensures
        bare_var(rhs) == Some(v) && all_bound(spec_expr_vars(lhs), seed) ==> spec_schedule(seq![lit], seed)
            == Ok::<(Seq<int>, Seq<Var>), ScheduleError>((seq![0int], seed.push(v))),
        bare_var(lhs) == Some(v) && all_bound(spec_expr_vars(rhs), seed) ==> spec_schedule(seq![lit], seed)
            == Ok::<(Seq<int>, Seq<Var>), ScheduleError>((seq![0int], seed.push(v))),
{
    lemma_single_compare(lit, seed);
    if bare_var(lhs) is Some {
        assert(spec_expr_vars(lhs) == seq![bare_var(lhs)->0]);
    }
    if bare_var(rhs) is Some {
        assert(spec_expr_vars(rhs) == seq![bare_var(rhs)->0]);
    }
    if bare_var(rhs) == Some(v) && all_bound(spec_expr_vars(lhs), seed) && bare_var(lhs) is Some {
        assert(seed.contains(spec_expr_vars(lhs)[0]));
    }
    assert(seed + seq![v] =~= seed.push(v));
}

/// A comparison other than `=` only checks: a body of that one comparison
/// schedules exactly when the seed binds every variable of both sides, and
/// then binds nothing more.
pub proof fn lemma_comparison_only_checks(lit: BodyLiteral, op: CmpOp, lhs: Expr, rhs: Expr, seed: Seq<Var>)
    requires
        lit.kind == (BodyLiteralKind::Compare { op, lhs, rhs }),
        op != CmpOp::Eq,
    ensures
        (spec_schedule(seq![lit], seed) is Ok) == all_bound(spec_expr_vars(lhs) + spec_expr_vars(rhs), seed),
        spec_schedule(seq![lit], seed) is Ok ==> spec_schedule(seq![lit], seed) == Ok::<
            (Seq<int>, Seq<Var>),
            ScheduleError,
        >((seq![0int], seed)),
{
    lemma_single_compare(lit, seed);
    assert(seed + Seq::<Var>::empty() =~= seed);
}

/// The sides of an `=` can be swapped: a body of one equality schedules
/// exactly when the same equality written the other way round does.
pub proof fn lemma_equality_sides_swap(lit: BodyLiteral, swapped: BodyLiteral, lhs: Expr, rhs: Expr, seed: Seq<Var>)
    requires
        lit.kind == (BodyLiteralKind::Compare { op: CmpOp::Eq, lhs, rhs }),
        swapped.kind == (BodyLiteralKind::Compare { op: CmpOp::Eq, lhs: rhs, rhs: lhs }),
    ensures
        (spec_schedule(seq![lit], seed) is Ok) == (spec_schedule(seq![swapped], seed) is Ok),
{
    lemma_single_compare(lit, seed);
    lemma_single_compare(swapped, seed);
    let e1 = spec_compare_effect(CmpOp::Eq, lhs, rhs, seed);
    let e2 = spec_compare_effect(CmpOp::Eq, rhs, lhs, seed);
    assert(ready(e1, seed) == all_bound(e1.reads, seed));
    assert(ready(e2, seed) == all_bound(e2.reads, seed));
    if bare_var(lhs) is Some {
        assert(spec_expr_vars(lhs) == seq![bare_var(lhs)->0]);
    }
    if bare_var(rhs) is Some {
        assert(spec_expr_vars(rhs) == seq![bare_var(rhs)->0]);
    }
    let a = spec_expr_vars(lhs);
    let b = spec_expr_vars(rhs);
    assert forall|i: int| 0 <= i < (a + b).len() implies #[trigger] (a + b)[i] == (if i < a.len() {
        a[i]
    } else {
        b[i - a.len()]
    }) by {}
    assert forall|i: int| 0 <= i < (b + a).len() implies #[trigger] (b + a)[i] == (if i < b.len() {
        b[i]
    } else {
        a[i - b.len()]
    }) by {}
    assert(all_bound(a + b, seed) == (all_bound(a, seed) && all_bound(b, seed))) by {
        if all_bound(a, seed) && all_bound(b, seed) {
            assert forall|i: int| 0 <= i < (a + b).len() implies seed.contains(#[trigger] (a + b)[i]) by {
                if i < a.len() {
                    assert(seed.contains(a[i]));
                } else {
                    assert(seed.contains(b[i - a.len()]));
                }
            }
        }
        if all_bound(a + b, seed) {
            assert forall|i: int| 0 <= i < a.len() implies seed.contains(#[trigger] a[i]) by {
                assert((a + b)[i] == a[i]);
            }
            assert forall|i: int| 0 <= i < b.len() implies seed.contains(#[trigger] b[i]) by {
                assert((a + b)[a.len() + i] == b[i]);
            }
        }
    }
    assert(all_bound(b + a, seed) == (all_bound(a, seed) && all_bound(b, seed))) by {
        if all_bound(a, seed) && all_bound(b, seed) {
            assert forall|i: int| 0 <= i < (b + a).len() implies seed.contains(#[trigger] (b + a)[i]) by {
                if i < b.len() {
                    assert(seed.contains(b[i]));
                } else {
                    assert(seed.contains(a[i - b.len()]));
                }
            }
        }
        if all_bound(b + a, seed) {
            assert forall|i: int| 0 <= i < a.len() implies seed.contains(#[trigger] a[i]) by {
                assert((b + a)[b.len() + i] == a[i]);
            }
            assert forall|i: int| 0 <= i < b.len() implies seed.contains(#[trigger] b[i]) by {
                assert((b + a)[i] == b[i]);
            }
        }
    }
    let l = bare_var(lhs) is Some && !seed.contains(bare_var(lhs)->0);
    let r = bare_var(rhs) is Some && !seed.contains(bare_var(rhs)->0);
    if l && r {
        assert(e1.reads == b);
        assert(!seed.contains(b[0]));
        assert(!all_bound(e1.reads, seed));
        assert(e2.reads == a);
        assert(!seed.contains(a[0]));
        assert(!all_bound(e2.reads, seed));
    } else if l {
        assert(e1.reads == b);
        assert(e2.reads == b);
    } else if r {
        assert(e1.reads == a);
        assert(e2.reads == a);
    } else {
        assert(e1.reads == a + b);
        assert(e2.reads == b + a);
    }
}

/// Law: positive atoms run first, in the order written. A body's schedule,
/// where it has one, begins with the indices of all its positive atoms,
/// ascending, and nothing else comes before them.
pub proof fn lemma_positive_atoms_first(body: Seq<BodyLiteral>, seed: Seq<Var>)
    ensures
        spec_schedule(body, seed) matches Ok((order, _)) ==> ({
            let p1 = phase_indices(body, seed, body.len() as int, 1);
            &&& order.len() >= p1.len()
            &&& order.subrange(0, p1.len() as int) == p1
            &&& forall|j: int| 0 <= j < p1.len() ==> (#[trigger] body[p1[j]]).kind is Atom
            &&& forall|j: int, k: int| 0 <= j < k < p1.len() ==> #[trigger] p1[j] < #[trigger] p1[k]
            &&& forall|i: int| 0 <= i < body.len() && (#[trigger] body[i]).kind is Atom ==> p1.contains(i)
        }),
{
    let n = body.len() as int;
    lemma_phase1_is_atoms(body, seed, n);
    let o1 = phase_indices(body, seed, n, 1);
    let o2 = phase_indices(body, seed, n, 2);
    if let Ok((order, _)) = spec_schedule(body, seed) {
        let rest = phase3(body, phase_indices(body, seed, n, 3), phase1_bound(body, seed), spec_outside(body), spec_binders(body));
        assert(order == o1 + o2 + rest->Ok_0.0);
        assert(order.subrange(0, o1.len() as int) =~= o1);
    }
}

/// Law: source order is the tie-break. When the literals left for the
/// dependency phase can already run in the order they are written, that is the
/// order they get: the schedule is the positive atoms, then the early
/// negations, then the rest exactly as written.
pub proof fn lemma_workable_source_order_is_kept(body: Seq<BodyLiteral>, seed: Seq<Var>)
    requires
        replay(
            body,
            phase_indices(body, seed, body.len() as int, 3),
            phase1_bound(body, seed),
            spec_outside(body),
            spec_binders(body),
        ) is Some,
    ensures
        spec_schedule(body, seed) == Ok::<(Seq<int>, Seq<Var>), ScheduleError>(
            (
                phase_indices(body, seed, body.len() as int, 1) + phase_indices(
                    body,
                    seed,
                    body.len() as int,
                    2,
                ) + phase_indices(body, seed, body.len() as int, 3),
                replay(
                    body,
                    phase_indices(body, seed, body.len() as int, 3),
                    phase1_bound(body, seed),
                    spec_outside(body),
                    spec_binders(body),
                )->0,
            ),
        ),
{
    let n = body.len() as int;
    let pend = phase_indices(body, seed, n, 3);
    lemma_phase_indices(body, seed, n, 3);
    assert forall|k: int| 0 <= k < pend.len() implies !(body[#[trigger] pend[k]].kind is Atom) by {
        assert(pend.contains(pend[k]));
        assert(in_phase(body, seed, pend[k], 3));
    }
    lemma_phase3_in_order(body, pend, phase1_bound(body, seed), spec_outside(body), spec_binders(body));
}


// ---------------------------------------------------------------------------
// Value-creating variables
// ---------------------------------------------------------------------------

/// Whether some variable of `vs` is in `set`.
pub open spec fn any_in(vs: Seq<Var>, set: Seq<Var>) -> bool {
    exists|i: int| 0 <= i < vs.len() && set.contains(#[trigger] vs[i])
}

/// Replays `order`, collecting the assignment targets whose source expression
/// creates a value or reads one already collected.
pub open spec fn taint_replay(
    body: Seq<BodyLiteral>,
    order: Seq<int>,
    bound: Seq<Var>,
    computed: Seq<Var>,
    outside: Seq<Var>,
    binders: Seq<Var>,
) -> Seq<Var>
    decreases order.len(),
{
    if order.len() == 0 || !(0 <= order[0] < body.len()) {
        computed
    } else {
        let k = body[order[0]].kind;
        match spec_effect(k, bound, outside, binders) {
            None => match k {
                BodyLiteralKind::Atom(a) => taint_replay(
                    body,
                    order.drop_first(),
                    bound + term_vars(a.args@),
                    computed,
                    outside,
                    binders,
                ),
                _ => taint_replay(body, order.drop_first(), bound, computed, outside, binders),
            },
            Some(e) => {
                let more = match k {
                    BodyLiteralKind::Compare { op, lhs, rhs } => if op == CmpOp::Eq && e.binds.len()
                        == 1 {
                        let source = if bare_var(lhs) == Some(e.binds[0]) {
                            rhs
                        } else {
                            lhs
                        };
                        if spec_creates_value(source) || any_in(spec_expr_vars(source), computed) {
                            seq![e.binds[0]]
                        } else {
                            Seq::empty()
                        }
                    } else {
                        Seq::empty()
                    },
                    _ => Seq::empty(),
                };
                taint_replay(
                    body,
                    order.drop_first(),
                    bound + e.binds,
                    computed + more,
                    outside,
                    binders,
                )
            },
        }
    }
}

/// The variables a body binds to a value computed by arithmetic, taken through
/// `=`-chains and casts, in the schedule's order. An unschedulable body
/// computes nothing.
pub open spec fn spec_computed_vars(body: Seq<BodyLiteral>) -> Seq<Var> {
    match spec_schedule(body, Seq::empty()) {
        Ok((order, _)) => taint_replay(
            body,
            order,
            Seq::empty(),
            Seq::empty(),
            spec_outside(body),
            spec_binders(body),
        ),
        Err(_) => Seq::empty(),
    }
}

/// Whether some variable of `vs` is in `set`.
fn any_var_in(vs: &[Var], set: &[Var]) -> (r: bool)
    ensures
        r == any_in(vs@, set@),
{
    let mut i: usize = 0;
    while i < vs.len()
        invariant
            i <= vs.len(),
            forall|j: int| 0 <= j < i ==> !set@.contains(#[trigger] vs@[j]),
        decreases vs.len() - i,
    {
        if contains_var(set, vs[i]) {
            return true;
        }
        i += 1;
    }
    false
}

/// The variables this body binds to a value computed by arithmetic over a
/// variable, closed under `=`-chains and casts, following the schedule (an
/// aggregate result or a ground expression computes nothing new).
pub fn computed_vars(body: &[BodyLiteral]) -> (r: Vec<Var>)
    ensures
        r@ == spec_computed_vars(body@),
{
    let seed: Vec<Var> = Vec::new();
    assert(seed@ =~= Seq::<Var>::empty());
    let order = match schedule_body_with(body, seed.as_slice()) {
        Ok((order, _)) => order,
        Err(_) => {
            return Vec::new();
        },
    };
    proof {
        lemma_schedule_is_permutation(body@, Seq::empty());
    }
    let outside = outside_aggregate_vars(body);
    let binders = binder_vars(body);
    let mut bound: Vec<Var> = Vec::new();
    let mut computed: Vec<Var> = Vec::new();
    let ghost os = ints(order@);
    assert(os.skip(0) =~= os);
    let mut i: usize = 0;
    while i < order.len()
        invariant
            i <= order.len(),
            os == ints(order@),
            forall|k: int| 0 <= k < order.len() ==> 0 <= #[trigger] os[k] < body.len(),
            outside@ == spec_outside(body@),
            binders@ == spec_binders(body@),
            spec_computed_vars(body@) == taint_replay(
                body@,
                os.skip(i as int),
                bound@,
                computed@,
                outside@,
                binders@,
            ),
        decreases order.len() - i,
    {
        let index = order[i];
        assert(os.skip(i as int)[0] == index as int);
        assert(os.skip(i as int).drop_first() =~= os.skip(i as int + 1));
        assert(os[i as int] == index as int);
        let literal = &body[index];
        let ghost old_bound = bound@;
        let ghost old_computed = computed@;
        let ghost step = taint_replay(body@, os.skip(i as int), old_bound, old_computed, outside@, binders@);
        let ghost k = body@[index as int].kind;
        match effect_of(&literal.kind, bound.as_slice(), outside.as_slice(), binders.as_slice()) {
            None => {
                if let BodyLiteralKind::Atom(atom) = &literal.kind {
                    let vs = term_vars_of(atom.args.as_slice());
                    extend_vars(&mut bound, vs.as_slice());
                }
            },
            Some(effect) => {
                let ghost e = spec_effect(k, old_bound, outside@, binders@)->0;
                assert(effect.binds@ == e.binds);
                let mut added = false;
                if let BodyLiteralKind::Compare { op, lhs, rhs } = &literal.kind {
                    if *op == CmpOp::Eq && effect.binds.len() == 1 {
                        let target = effect.binds[0];
                        let source = match lhs {
                            Expr::Term(Term::Var(v)) => if *v == target {
                                rhs
                            } else {
                                lhs
                            },
                            _ => lhs,
                        };
                        assert(*source == (if bare_var(*lhs) == Some(e.binds[0]) {
                            *rhs
                        } else {
                            *lhs
                        }));
                        let sv = expr_vars(source);
                        if creates_value(source) || any_var_in(sv.as_slice(), computed.as_slice()) {
                            computed.push(target);
                            added = true;
                        }
                    }
                }
                let ghost more = match k {
                    BodyLiteralKind::Compare { op, lhs, rhs } => if op == CmpOp::Eq && e.binds.len()
                        == 1 {
                        let source = if bare_var(lhs) == Some(e.binds[0]) {
                            rhs
                        } else {
                            lhs
                        };
                        if spec_creates_value(source) || any_in(spec_expr_vars(source), old_computed) {
                            seq![e.binds[0]]
                        } else {
                            Seq::empty()
                        }
                    } else {
                        Seq::empty()
                    },
                    _ => Seq::empty(),
                };
                assert(computed@ =~= old_computed + more);
                extend_vars(&mut bound, effect.binds.as_slice());
            },
        }
        assert(step == taint_replay(body@, os.skip(i as int + 1), bound@, computed@, outside@, binders@));
        i += 1;
    }
    assert(os.skip(i as int) =~= Seq::<int>::empty());
    computed
}

} // verus!
