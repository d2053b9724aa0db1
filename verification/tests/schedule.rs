use datalog::ast::{ArithOp, CmpOp, Span};
use datalog::ir::{Atom, BodyLiteral, BodyLiteralKind, Expr, PredId, Term, Value, Var};
use datalog::schedule::{computed_vars, schedule_body, schedule_body_with, ScheduleFailure};

fn atom(pred: u32, args: Vec<Term>) -> BodyLiteral {
    BodyLiteral {
        kind: BodyLiteralKind::Atom(Atom { pred: PredId(pred), args }),
        span: Span::dummy(),
    }
}

fn assign(target: u32, from: Expr) -> BodyLiteral {
    BodyLiteral {
        kind: BodyLiteralKind::Compare {
            op: CmpOp::Eq,
            lhs: Expr::Term(Term::Var(Var(target))),
            rhs: from,
        },
        span: Span::dummy(),
    }
}

fn var(slot: u32) -> Expr {
    Expr::Term(Term::Var(Var(slot)))
}

fn plus_one(slot: u32) -> Expr {
    Expr::Binary {
        op: ArithOp::Add,
        lhs: Box::new(var(slot)),
        rhs: Box::new(Expr::Term(Term::Const(Value::Int(1)))),
    }
}

fn neg_atom(pred: u32, args: Vec<Term>) -> BodyLiteral {
    BodyLiteral {
        kind: BodyLiteralKind::NegAtom(Atom { pred: PredId(pred), args }),
        span: Span::dummy(),
    }
}

fn greater(lhs: Expr, rhs: Expr) -> BodyLiteral {
    BodyLiteral { kind: BodyLiteralKind::Compare { op: CmpOp::Gt, lhs, rhs }, span: Span::dummy() }
}

#[test]
fn a_negation_waits_for_the_assignment_that_binds_it() {
    let binder_first = vec![
        atom(0, vec![Term::Var(Var(0))]),
        assign(1, plus_one(0)),
        neg_atom(1, vec![Term::Var(Var(1))]),
    ];
    assert_eq!(schedule_body(&binder_first).unwrap(), vec![0, 1, 2]);

    let binder_last = vec![
        atom(0, vec![Term::Var(Var(0))]),
        neg_atom(1, vec![Term::Var(Var(1))]),
        assign(1, plus_one(0)),
    ];
    assert_eq!(schedule_body(&binder_last).unwrap(), vec![0, 2, 1]);
}

#[test]
fn a_wildcard_negation_stays_in_the_early_phase() {
    let body = vec![
        atom(0, vec![Term::Var(Var(0))]),
        neg_atom(1, vec![Term::Var(Var(2))]),
        assign(1, plus_one(0)),
    ];
    assert_eq!(schedule_body(&body).unwrap(), vec![0, 1, 2]);
    let (_, bound) = schedule_body_with(&body, &[]).unwrap();
    assert!(!bound.contains(&Var(2)));
}

#[test]
fn a_satisfiable_source_order_is_preserved() {
    let body = vec![
        atom(0, vec![Term::Var(Var(0))]),
        assign(1, plus_one(0)),
        assign(2, plus_one(1)),
    ];
    assert_eq!(schedule_body(&body).unwrap(), vec![0, 1, 2]);
}

#[test]
fn source_order_breaks_ties_among_ready_literals() {
    let body = vec![
        atom(0, vec![Term::Var(Var(0))]),
        greater(var(0), Expr::Term(Term::Const(Value::Int(0)))),
        assign(1, plus_one(0)),
    ];
    assert_eq!(schedule_body(&body).unwrap(), vec![0, 1, 2]);

    let swapped = vec![
        atom(0, vec![Term::Var(Var(0))]),
        assign(1, plus_one(0)),
        greater(var(0), Expr::Term(Term::Const(Value::Int(0)))),
    ];
    assert_eq!(schedule_body(&swapped).unwrap(), vec![0, 1, 2]);
}

#[test]
fn a_reversed_chain_is_reordered() {
    let body = vec![
        atom(0, vec![Term::Var(Var(0))]),
        assign(2, plus_one(1)),
        assign(1, plus_one(0)),
    ];
    assert_eq!(schedule_body(&body).unwrap(), vec![0, 2, 1]);
}

#[test]
fn a_cycle_is_reported_as_a_cycle() {
    let body = vec![
        atom(0, vec![Term::Var(Var(0))]),
        assign(2, plus_one(1)),
        assign(1, plus_one(2)),
    ];
    let failure = schedule_body(&body).expect_err("no order exists");
    assert_eq!(failure.cause, ScheduleFailure::Cycle);
    assert_eq!(failure.literal, 1);
}

#[test]
fn a_variable_nothing_binds_is_unbound() {
    let body = vec![atom(0, vec![Term::Var(Var(0))]), greater(var(0), var(1))];
    let failure = schedule_body(&body).expect_err("Z is never bound");
    assert_eq!(failure.cause, ScheduleFailure::Unbound);
    assert_eq!(failure.variable, Var(1));
}

#[test]
fn a_seed_counts_as_bound_and_is_reported_bound() {
    let body = vec![greater(var(5), Expr::Term(Term::Const(Value::Int(0))))];
    assert!(schedule_body(&body).is_err());
    let (order, bound) = schedule_body_with(&body, &[Var(5)]).unwrap();
    assert_eq!(order, vec![0]);
    assert_eq!(bound, vec![Var(5)]);
}

#[test]
fn an_assignment_chain_from_arithmetic_is_computed() {
    // p(M), K = M + 1, N = K, J = 3 + 4.
    let body = vec![
        atom(0, vec![Term::Var(Var(0))]),
        assign(1, plus_one(0)),
        assign(2, var(1)),
        assign(
            3,
            Expr::Binary {
                op: ArithOp::Add,
                lhs: Box::new(Expr::Term(Term::Const(Value::Int(3)))),
                rhs: Box::new(Expr::Term(Term::Const(Value::Int(4)))),
            },
        ),
    ];
    assert_eq!(computed_vars(&body), vec![Var(1), Var(2)]);
}
