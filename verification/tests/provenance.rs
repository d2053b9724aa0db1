use datalog::ast::AggOp;
use datalog::ir::{Fact, PredId, RuleId, Tuple, Value};
use datalog::provenance::{
    Derivation, Explained, Model, NoMatchPattern, Premise, ProofTree, Provenance,
};

fn fact2(pred: PredId, a: &str, b: &str) -> Fact {
    Fact {
        pred,
        tuple: Tuple(vec![Value::String(a.to_string()), Value::String(b.to_string())]),
    }
}

/// The evaluated model of the ancestry example: three `parent` facts, and
/// `ancestor` derived by `ancestor(X, Y) :- parent(X, Y).` (rule 0) and
/// `ancestor(X, Y) :- parent(X, Z), ancestor(Z, Y).` (rule 1), with the round
/// each fact first appeared in and every derivation the fixpoint recorded.
fn example_16_1_model() -> Model {
    let parent = PredId(0);
    let ancestor = PredId(1);
    let mut model = Model::new(Provenance::Recorded);
    for (a, b) in [("alice", "bob"), ("bob", "carol"), ("carol", "dave")] {
        model.insert_fact(fact2(parent, a, b), 0, true);
    }
    for (a, b) in [("alice", "bob"), ("bob", "carol"), ("carol", "dave")] {
        model.insert_fact(fact2(ancestor, a, b), 1, false);
        model.record(
            &fact2(ancestor, a, b),
            Derivation { rule: RuleId(0), premises: vec![Premise::Fact(fact2(parent, a, b))] },
        );
    }
    for (a, z, b) in [("alice", "bob", "carol"), ("bob", "carol", "dave")] {
        model.insert_fact(fact2(ancestor, a, b), 2, false);
        model.record(
            &fact2(ancestor, a, b),
            Derivation {
                rule: RuleId(1),
                premises: vec![
                    Premise::Fact(fact2(parent, a, z)),
                    Premise::Fact(fact2(ancestor, z, b)),
                ],
            },
        );
    }
    model.insert_fact(fact2(ancestor, "alice", "dave"), 3, false);
    model.record(
        &fact2(ancestor, "alice", "dave"),
        Derivation {
            rule: RuleId(1),
            premises: vec![
                Premise::Fact(fact2(parent, "alice", "bob")),
                Premise::Fact(fact2(ancestor, "bob", "dave")),
            ],
        },
    );
    model
}

#[test]
fn base_facts_explain_as_leaves() {
    let parent = PredId(0);
    let model = example_16_1_model();

    let fact = fact2(parent, "alice", "bob");
    assert_eq!(
        ProofTree::explain(&model, &fact).proof_tree(),
        Some(ProofTree::Leaf(fact.clone()))
    );
}

#[test]
fn absent_facts_have_no_proof() {
    let ancestor = PredId(1);
    let model = example_16_1_model();

    let fact = fact2(ancestor, "dave", "alice");
    assert_eq!(ProofTree::explain(&model, &fact), Explained::DoesNotHold);
}

#[test]
fn recursive_fact_explains_down_to_parent_leaves() {
    let parent = PredId(0);
    let ancestor = PredId(1);
    let model = example_16_1_model();

    let tree = ProofTree::explain(&model, &fact2(ancestor, "alice", "dave"))
        .proof_tree()
        .unwrap();
    let expected = ProofTree::Derived {
        fact: fact2(ancestor, "alice", "dave"),
        rule: RuleId(1),
        children: vec![
            ProofTree::Leaf(fact2(parent, "alice", "bob")),
            ProofTree::Derived {
                fact: fact2(ancestor, "bob", "dave"),
                rule: RuleId(1),
                children: vec![
                    ProofTree::Leaf(fact2(parent, "bob", "carol")),
                    ProofTree::Derived {
                        fact: fact2(ancestor, "carol", "dave"),
                        rule: RuleId(0),
                        children: vec![ProofTree::Leaf(fact2(parent, "carol", "dave"))],
                    },
                ],
            },
        ],
    };
    assert_eq!(tree, expected);
}

#[test]
fn an_unrecorded_run_says_so_rather_than_no_proof() {
    let mut model = Model::new(Provenance::Unrecorded);
    let fact = fact2(PredId(0), "a", "b");
    model.insert_fact(fact.clone(), 0, true);
    assert_eq!(ProofTree::explain(&model, &fact), Explained::Unrecorded);
}

#[test]
fn a_derivation_whose_premise_is_no_earlier_is_not_chosen() {
    // `p(a)` first appears in round 2; its first recorded derivation leans on
    // `q(a)`, which appeared in the same round, so the second one is chosen.
    let p = PredId(0);
    let q = PredId(1);
    let r = PredId(2);
    let one = |pred: PredId| Fact { pred, tuple: Tuple(vec![Value::Symbol("a".to_string())]) };
    let mut model = Model::new(Provenance::Recorded);
    model.insert_fact(one(r), 0, true);
    model.insert_fact(one(q), 2, false);
    model.insert_fact(one(p), 2, false);
    model.record(&one(q), Derivation { rule: RuleId(1), premises: vec![Premise::Fact(one(r))] });
    model.record(&one(p), Derivation { rule: RuleId(5), premises: vec![Premise::Fact(one(q))] });
    model.record(&one(p), Derivation { rule: RuleId(7), premises: vec![Premise::Fact(one(r))] });
    let tree = ProofTree::explain(&model, &one(p)).proof_tree().unwrap();
    assert_eq!(
        tree,
        ProofTree::Derived { fact: one(p), rule: RuleId(7), children: vec![ProofTree::Leaf(one(r))] }
    );
    assert_eq!(tree.fact(), Some(&one(p)));
}

#[test]
fn a_report_is_an_aggregate_that_skipped_or_a_lost_conversion() {
    let skipped = Derivation {
        rule: RuleId(0),
        premises: vec![Premise::Aggregate { op: AggOp::Sum, value: Value::Int(3), present: 2, skipped: 1 }],
    };
    let clean = Derivation {
        rule: RuleId(0),
        premises: vec![Premise::Aggregate { op: AggOp::Sum, value: Value::Int(3), present: 2, skipped: 0 }],
    };
    assert!(skipped.reports());
    assert!(!clean.reports());
}

#[test]
fn a_no_match_pattern_matches_by_closed_slots_only() {
    let pattern = NoMatchPattern {
        pred: PredId(0),
        args: vec![None, Some(Value::String("alice".to_string()))],
    };
    let row = |a: &str, b: &str| Tuple(vec![Value::String(a.to_string()), Value::String(b.to_string())]);
    assert!(pattern.matches(&row("bob", "alice")));
    assert!(!pattern.matches(&row("alice", "bob")));
    assert!(!pattern.matches(&Tuple(vec![Value::String("alice".to_string())])));
    let absent = NoMatchPattern { pred: PredId(0), args: vec![Some(Value::Absent)] };
    assert!(absent.matches(&Tuple(vec![Value::Absent])));
}

#[test]
fn the_least_qualifying_derivation_is_chosen_whatever_the_recording_order() {
    // Both derivations of `p(a)` qualify; rule 3 orders before rule 7 though
    // it was recorded second, and a smaller premise breaks a tie of rules.
    let p = PredId(0);
    let r = PredId(2);
    let one = |pred: PredId, x: &str| Fact { pred, tuple: Tuple(vec![Value::Symbol(x.to_string())]) };
    let mut model = Model::new(Provenance::Recorded);
    model.insert_fact(one(r, "a"), 0, true);
    model.insert_fact(one(r, "b"), 0, true);
    model.insert_fact(one(p, "a"), 1, false);
    model.record(&one(p, "a"), Derivation { rule: RuleId(7), premises: vec![Premise::Fact(one(r, "a"))] });
    model.record(&one(p, "a"), Derivation { rule: RuleId(3), premises: vec![Premise::Fact(one(r, "b"))] });
    model.record(&one(p, "a"), Derivation { rule: RuleId(3), premises: vec![Premise::Fact(one(r, "a"))] });
    let tree = ProofTree::explain(&model, &one(p, "a")).proof_tree().unwrap();
    assert_eq!(
        tree,
        ProofTree::Derived { fact: one(p, "a"), rule: RuleId(3), children: vec![ProofTree::Leaf(one(r, "a"))] }
    );
}
