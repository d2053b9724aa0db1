use datalog::ast::{Args, Constant, ExprKind, FloatLit, StatementKind, TermKind};
use datalog::ir::Value;
use datalog::parser::parse;
use datalog::print::{print_ground_fact, print_program, print_value};
use datalog::temporal::{Date, Duration, Timestamp};

#[test]
fn import_forms_round_trip() {
    for src in [
        "import \"lib/family.dl\".\n",
        "import \"data/parents.csv\" as parent.\n",
        "import \"analytics.duckdb\" table \"orders\" as order.\n",
        "import \"db.sqlite\" table \"t\" as t(a: int, b: string).\n",
    ] {
        let program = parse(src).unwrap_or_else(|e| panic!("parse failed for {src:?}: {e:?}"));
        assert_eq!(print_program(&program), src);
    }
}

#[test]
fn floats_keep_their_decimal_point() {
    assert_eq!(print_value(&Value::Float(FloatLit { text: "1.0".to_string() })), "1.0");
    assert_eq!(print_value(&Value::Float(FloatLit { text: "-0.5".to_string() })), "-0.5");
}

#[test]
fn ground_fact_is_canonical_datalog() {
    let fact = print_ground_fact("ancestor", &[Value::String("alice".into()), Value::String("bob".into())]);
    assert_eq!(fact, "ancestor(\"alice\", \"bob\").");
    assert!(parse(&fact).is_ok());
}

#[test]
fn absent_prints_and_reparses_as_the_reserved_literal() {
    assert_eq!(print_value(&Value::Absent), "absent");
    let fact = print_ground_fact("m", &[Value::String("bread".into()), Value::Absent]);
    assert_eq!(fact, "m(\"bread\", absent).");
    assert!(parse(&fact).is_ok());
}

#[test]
fn aggregate_rule_round_trips() {
    let src = "cc(P, N) :- parent(P, _), N = count { C | parent(P, C) }.\n";
    let program = parse(src).unwrap_or_else(|e| panic!("parse: {e:?}"));
    assert_eq!(print_program(&program), src);
}

#[test]
fn symbols_and_strings_print_distinctly() {
    assert_eq!(print_value(&Value::Symbol("red".into())), "red");
    assert_eq!(print_value(&Value::String("red".into())), "\"red\"");
}

#[test]
fn strings_are_escaped() {
    assert_eq!(print_value(&Value::String("a\"b\\c\nd".into())), "\"a\\\"b\\\\c\\nd\"");
    assert_eq!(print_value(&Value::String("tab\there".into())), "\"tab\\there\"");
}

#[test]
fn temporal_values_print_with_their_sigil() {
    let date = Date::from_ymd(2024, 2, 29).unwrap();
    assert_eq!(print_value(&Value::Date(date)), "@2024-02-29");
    let ts = Timestamp::from_parts(2024, 1, 5, 13, 4, 5, 120000).unwrap();
    assert_eq!(print_value(&Value::Timestamp(ts)), "@2024-01-05T13:04:05.12");
    assert_eq!(print_value(&Value::Duration(Duration::from_micros(90 * 60 * 1_000_000))), "@1h30m");
    let fact = print_ground_fact("due", &[Value::Date(date)]);
    assert!(parse(&fact).is_ok());
}

#[test]
fn ints_and_bools_print_plainly() {
    assert_eq!(print_value(&Value::Int(-42)), "-42");
    assert_eq!(print_value(&Value::Bool(true)), "true");
    assert_eq!(print_ground_fact("p", &[]), "p().");
}

#[test]
fn left_associated_chains_print_without_parentheses() {
    for src in [
        "r(X) :- p(A, B, C), X = A - B - C.\n",
        "r(X) :- p(A, B, C), X = A + B * C.\n",
        "r(X) :- p(A), X = A as int as float.\n",
        "?- total: p(X), X is not absent.\n",
        "declare person(name: string, age).\n",
    ] {
        let program = parse(src).unwrap_or_else(|e| panic!("parse failed for {src:?}: {e:?}"));
        assert_eq!(print_program(&program), src);
    }
}

// --- Proof rendering ---

use datalog::ast::{AggOp, CmpOp, TypeName};
use datalog::ir::{Fact, PredId, RuleId, Tuple};
use datalog::lower::lower;
use datalog::print::print_proof;
use datalog::provenance::{LostConversion, NoMatchPattern, ProofTree};

fn text(s: &str) -> Value {
    Value::String(s.to_string())
}

fn lowered(src: &str) -> datalog::ir::Program {
    lower(&parse(src).expect("parses")).expect("lowers")
}

fn pred(program: &datalog::ir::Program, name: &str) -> PredId {
    PredId(program.predicates.iter().position(|p| p.name == name).expect("predicate") as u32)
}

fn fact_of(program: &datalog::ir::Program, name: &str, values: Vec<Value>) -> Fact {
    Fact { pred: pred(program, name), tuple: Tuple(values) }
}

fn render(tree: &ProofTree, program: &datalog::ir::Program) -> String {
    print_proof(tree, program).join("\n")
}

#[test]
fn example_16_6_proof_renders_as_the_spec_shows() {
    let program = lowered(
        "parent(\"alice\", \"bob\").\n\
         parent(\"bob\", \"carol\").\n\
         parent(\"carol\", \"dave\").\n\
         ancestor(X, Y) :- parent(X, Y).\n\
         ancestor(X, Y) :- parent(X, Z), ancestor(Z, Y).\n\
         ?- ancestor(\"alice\", Who).\n",
    );
    let tree = ProofTree::Derived {
        fact: fact_of(&program, "ancestor", vec![text("alice"), text("carol")]),
        rule: RuleId(1),
        children: vec![
            ProofTree::Leaf(fact_of(&program, "parent", vec![text("alice"), text("bob")])),
            ProofTree::Derived {
                fact: fact_of(&program, "ancestor", vec![text("bob"), text("carol")]),
                rule: RuleId(0),
                children: vec![ProofTree::Leaf(fact_of(&program, "parent", vec![text("bob"), text("carol")]))],
            },
        ],
    };
    assert_eq!(
        render(&tree, &program),
        "% why ancestor(\"alice\", \"carol\")\n\
         % 0  ancestor(\"alice\", \"carol\")  by ancestor(X, Y) :- parent(X, Z), ancestor(Z, Y)\n\
         % 1    parent(\"alice\", \"bob\")  [fact]\n\
         % 1    ancestor(\"bob\", \"carol\")  by ancestor(X, Y) :- parent(X, Y)\n\
         % 2      parent(\"bob\", \"carol\")  [fact]"
    );
}

#[test]
fn a_schema_names_fields_and_a_builtin_cites_its_literal() {
    let program = lowered(
        "declare person(name: string, age: int).\n\
         person(\"alice\", 30).\n\
         adult(N) :- person(name: N, age: A), A >= 18.\n",
    );
    let tree = ProofTree::Derived {
        fact: fact_of(&program, "adult", vec![text("alice")]),
        rule: RuleId(0),
        children: vec![
            ProofTree::Leaf(fact_of(&program, "person", vec![text("alice"), Value::Int(30)])),
            ProofTree::Builtin { op: CmpOp::Ge, lhs: Value::Int(30), rhs: Value::Int(18), lost: None },
        ],
    };
    assert_eq!(
        render(&tree, &program),
        "% why adult(\"alice\")\n\
         % 0  adult(\"alice\")  by adult(N) :- person(name: N, age: A), A >= 18\n\
         % 1    person(name: \"alice\", age: 30)  [fact]\n\
         % 1    A >= 18  (30 >= 18)"
    );
}

#[test]
fn a_negated_premise_proves_by_its_no_match_pattern() {
    let program = lowered(
        "parent(\"alice\", \"bob\").\n\
         person(\"alice\").\n\
         person(\"bob\").\n\
         root(X) :- person(X), not parent(_, X).\n",
    );
    let tree = ProofTree::Derived {
        fact: fact_of(&program, "root", vec![text("alice")]),
        rule: RuleId(0),
        children: vec![
            ProofTree::Leaf(fact_of(&program, "person", vec![text("alice")])),
            ProofTree::NoMatch(NoMatchPattern { pred: pred(&program, "parent"), args: vec![None, Some(text("alice"))] }),
        ],
    };
    assert_eq!(
        render(&tree, &program),
        "% why root(\"alice\")\n\
         % 0  root(\"alice\")  by root(X) :- person(X), not parent(_, X)\n\
         % 1    person(\"alice\")  [fact]\n\
         % 1    no parent(_, \"alice\")"
    );
}

#[test]
fn an_aggregate_premise_reports_its_fold_and_its_skips() {
    let program = lowered(
        "m(\"a\", 1).\n\
         m(\"a\", absent).\n\
         m(\"b\", 5).\n\
         total(T) :- T = sum { C | m(_, C) }.\n",
    );
    let tree = ProofTree::Derived {
        fact: fact_of(&program, "total", vec![Value::Int(6)]),
        rule: RuleId(0),
        children: vec![
            ProofTree::Aggregate { op: AggOp::Sum, value: Value::Int(6), present: 2, skipped: 1 },
            ProofTree::Builtin { op: CmpOp::Eq, lhs: Value::Int(6), rhs: Value::Int(6), lost: None },
        ],
    };
    let proof = render(&tree, &program);
    assert!(proof.contains("(6 over 2 values, 1 absent skipped)"), "{proof}");
}

#[test]
fn count_reports_its_value_alone() {
    let program = lowered(
        "m(\"a\", 1).\n\
         m(\"a\", absent).\n\
         n(N) :- N = count { C | m(_, C) }.\n",
    );
    let tree = ProofTree::Derived {
        fact: fact_of(&program, "n", vec![Value::Int(2)]),
        rule: RuleId(0),
        children: vec![
            ProofTree::Aggregate { op: AggOp::Count, value: Value::Int(2), present: 1, skipped: 1 },
            ProofTree::Builtin { op: CmpOp::Eq, lhs: Value::Int(2), rhs: Value::Int(2), lost: None },
        ],
    };
    let proof = render(&tree, &program);
    assert!(proof.contains("| m(_, C) }  (2)"), "{proof}");
}

#[test]
fn a_conversion_that_failed_on_data_says_so() {
    let program = lowered(
        "declare m(food: string, amount: string).\n\
         m(\"rice\", \"abc\").\n\
         recorded(F, V) :- m(food: F, amount: A), V = A as int.\n",
    );
    let tree = ProofTree::Derived {
        fact: fact_of(&program, "recorded", vec![text("rice"), Value::Absent]),
        rule: RuleId(0),
        children: vec![
            ProofTree::Leaf(fact_of(&program, "m", vec![text("rice"), text("abc")])),
            ProofTree::Builtin {
                op: CmpOp::Eq,
                lhs: Value::Absent,
                rhs: Value::Absent,
                lost: Some(LostConversion { to: TypeName::Int, count: 1 }),
            },
        ],
    };
    let proof = render(&tree, &program);
    assert!(proof.contains("V = A as int  (absent = absent)  [1 value lost converting to int]"), "{proof}");
}

#[test]
fn a_presence_premise_cites_its_literal() {
    let program = lowered("m(\"kale\", 7).\nknown(F) :- m(F, A), A is not absent.\n");
    let tree = ProofTree::Derived {
        fact: fact_of(&program, "known", vec![text("kale")]),
        rule: RuleId(0),
        children: vec![
            ProofTree::Leaf(fact_of(&program, "m", vec![text("kale"), Value::Int(7)])),
            ProofTree::Presence { value: Value::Int(7), negated: true },
        ],
    };
    let proof = render(&tree, &program);
    assert!(proof.contains("A is not absent  (7 is not absent)"), "{proof}");
}

#[test]
fn a_base_fact_is_a_leaf() {
    let program = lowered("parent(\"alice\", \"bob\").\nancestor(X, Y) :- parent(X, Y).\n");
    let tree = ProofTree::Leaf(fact_of(&program, "parent", vec![text("alice"), text("bob")]));
    assert_eq!(render(&tree, &program), "% why parent(\"alice\", \"bob\")\n% 0  parent(\"alice\", \"bob\")  [fact]");
}

#[test]
fn an_omitted_argument_stays_omitted_and_a_temporary_keeps_its_name() {
    let program = lowered("declare e(a: int, b: int, c: int).\ne(1, 2, 3).\nq(N) :- e(b: 2, c: N).\n");
    let tree = ProofTree::Derived {
        fact: fact_of(&program, "q", vec![Value::Int(3)]),
        rule: RuleId(0),
        children: vec![ProofTree::Leaf(fact_of(&program, "e", vec![Value::Int(1), Value::Int(2), Value::Int(3)]))],
    };
    let proof = render(&tree, &program);
    assert!(proof.contains("by q(N) :- e(b: 2, c: N)"), "{proof}");
    assert!(proof.contains("e(a: 1, b: 2, c: 3)  [fact]"), "{proof}");

    let program = lowered("n(1).\nsucc(X, Y) :- n(X), Y = X + 1.\n");
    let tree = ProofTree::Derived {
        fact: fact_of(&program, "succ", vec![Value::Int(1), Value::Int(2)]),
        rule: RuleId(0),
        children: vec![
            ProofTree::Leaf(fact_of(&program, "n", vec![Value::Int(1)])),
            ProofTree::Builtin { op: CmpOp::Eq, lhs: Value::Int(2), rhs: Value::Int(2), lost: None },
        ],
    };
    let hoisted = render(&tree, &program);
    assert!(hoisted.contains("succ(X, Y) :- n(X), Y = X + 1"), "{hoisted}");
}

#[test]
fn a_hoisted_temporary_prints_with_an_identity() {
    let program = lowered("n(1).\nsucc(X, X + 1) :- n(X).\n");
    let tree = ProofTree::Derived {
        fact: fact_of(&program, "succ", vec![Value::Int(1), Value::Int(2)]),
        rule: RuleId(0),
        children: vec![
            ProofTree::Leaf(fact_of(&program, "n", vec![Value::Int(1)])),
            ProofTree::Builtin { op: CmpOp::Eq, lhs: Value::Int(2), rhs: Value::Int(2), lost: None },
        ],
    };
    let proof = render(&tree, &program);
    assert!(proof.contains("by succ(X, _g1) :- n(X), _g1 = X + 1"), "{proof}");
}

#[test]
fn an_imported_leaf_cites_its_source() {
    let program = lowered("import \"data/people.csv\" as person(name: string).\nok(N) :- person(N).\n");
    let tree = ProofTree::Leaf(fact_of(&program, "person", vec![text("ann")]));
    assert_eq!(
        render(&tree, &program),
        "% why person(name: \"ann\")\n% 0  person(name: \"ann\")  [fact from \"data/people.csv\"]"
    );
}

#[test]
fn every_proof_line_is_a_comment_and_declares_its_depth() {
    let program = lowered(
        "parent(\"a\", \"b\").\nparent(\"b\", \"c\").\nparent(\"c\", \"d\").\n\
         anc(X, Y) :- parent(X, Y).\nanc(X, Y) :- parent(X, Z), anc(Z, Y).\n",
    );
    let leaf = |x: &str, y: &str| ProofTree::Leaf(fact_of(&program, "parent", vec![text(x), text(y)]));
    let tree = ProofTree::Derived {
        fact: fact_of(&program, "anc", vec![text("a"), text("d")]),
        rule: RuleId(1),
        children: vec![
            leaf("a", "b"),
            ProofTree::Derived {
                fact: fact_of(&program, "anc", vec![text("b"), text("d")]),
                rule: RuleId(1),
                children: vec![
                    leaf("b", "c"),
                    ProofTree::Derived {
                        fact: fact_of(&program, "anc", vec![text("c"), text("d")]),
                        rule: RuleId(0),
                        children: vec![leaf("c", "d")],
                    },
                ],
            },
        ],
    };
    let lines = print_proof(&tree, &program);
    let depths: Vec<usize> = lines[1..]
        .iter()
        .map(|line| line.strip_prefix("% ").unwrap().split_whitespace().next().unwrap().parse().unwrap())
        .collect();
    assert_eq!(depths, vec![0, 1, 1, 2, 2, 3]);
    assert!(lines.iter().all(|line| line.starts_with('%') && !line.contains('\n')));
    assert!(lines[0].starts_with("% why "));
}

#[test]
fn printed_ground_facts_parse_back_to_the_same_values() {
    let values = vec![
        Value::Symbol("red".into()),
        Value::Int(-42),
        Value::Int(7),
        Value::String("a\"b\\c\nd".into()),
        Value::Float(FloatLit { text: "-0.5".to_string() }),
        Value::Bool(true),
        Value::Absent,
    ];
    let text = print_ground_fact("colour", &values);
    let program = parse(&text).unwrap_or_else(|e| panic!("parse failed for {text:?}: {e:?}"));
    assert_eq!(program.statements.len(), 1);
    let clause = match &program.statements[0].kind {
        StatementKind::Clause(c) => c,
        other => panic!("expected a clause, found {other:?}"),
    };
    assert!(clause.body.is_empty());
    assert_eq!(clause.head.predicate.name, "colour");
    let args = match &clause.head.args {
        Args::Positional(es) => es,
        other => panic!("expected positional arguments, found {other:?}"),
    };
    let constants: Vec<Constant> = args
        .iter()
        .map(|e| match &e.kind {
            ExprKind::Term(t) => match &t.kind {
                TermKind::Constant(c) => c.clone(),
                other => panic!("expected a constant, found {other:?}"),
            },
            other => panic!("expected a term, found {other:?}"),
        })
        .collect();
    assert_eq!(
        constants,
        vec![
            Constant::Symbol("red".into()),
            Constant::Int(-42),
            Constant::Int(7),
            Constant::String("a\"b\\c\nd".into()),
            Constant::Float(FloatLit { text: "-0.5".to_string() }),
            Constant::Bool(true),
            Constant::Absent,
        ]
    );
}
