use datalog::ast::{
    self, Args, Atom, Clause, CmpOp, Comparison, Constant, Declaration, Expr, ExprKind, FieldDecl,
    Ident, Import, ImportKind, Literal, LiteralKind, NamedArg, Program, Query, Span, Statement,
    StatementKind, Term, TermKind, TypeName,
};
use datalog::error::{Error, Warning};
use datalog::ir;
use datalog::lower::{check_program, levenshtein, lower, lower_with_sources, Lowerer};
use datalog::parser::parse;
use datalog::sources::LoadedTable;

// --- Hand-built surface programs ---

fn dummy() -> Span {
    Span::dummy()
}

fn ident(name: &str) -> Ident {
    Ident { name: name.to_string(), span: dummy() }
}

fn term(kind: TermKind) -> Term {
    Term { kind, span: dummy() }
}

fn var_term(name: &str) -> Term {
    term(TermKind::Variable(name.to_string()))
}

fn string_term(s: &str) -> Term {
    term(TermKind::Constant(Constant::String(s.to_string())))
}

fn int_term(n: i64) -> Term {
    term(TermKind::Constant(Constant::Int(n)))
}

fn wildcard_term() -> Term {
    term(TermKind::Wildcard)
}

fn expr(t: Term) -> Expr {
    Expr { kind: ExprKind::Term(t), span: dummy() }
}

fn positional_atom(name: &str, args: Vec<Term>) -> Atom {
    Atom { predicate: ident(name), args: Args::Positional(args.into_iter().map(expr).collect()), span: dummy() }
}

fn named_arg(field: &str, value: Term) -> NamedArg {
    NamedArg { field: ident(field), value: expr(value), span: dummy() }
}

fn named_atom(name: &str, args: Vec<NamedArg>) -> Atom {
    Atom { predicate: ident(name), args: Args::Named(args), span: dummy() }
}

fn positive_literal(atom: Atom) -> Literal {
    Literal { kind: LiteralKind::Atom { negated: false, atom }, span: dummy() }
}

fn negated_literal(atom: Atom) -> Literal {
    Literal { kind: LiteralKind::Atom { negated: true, atom }, span: dummy() }
}

fn rule(head: Atom, body: Vec<Literal>) -> Statement {
    Statement { kind: StatementKind::Clause(Clause { head, body, span: dummy() }), span: dummy() }
}

fn fact(name: &str, args: Vec<Term>) -> Statement {
    rule(positional_atom(name, args), Vec::new())
}

fn named_fact(head: Atom) -> Statement {
    rule(head, Vec::new())
}

fn query(body: Vec<Literal>) -> Statement {
    Statement { kind: StatementKind::Query(Query { name: None, body, span: dummy() }), span: dummy() }
}

fn field_decl(name: &str, ty: Option<TypeName>) -> FieldDecl {
    FieldDecl { name: ident(name), ty, span: dummy() }
}

fn declare(name: &str, fields: Vec<FieldDecl>) -> Statement {
    Statement { kind: StatementKind::Declare(Declaration { relation: ident(name), fields }), span: dummy() }
}

fn comparison(op: CmpOp, lhs: Expr, rhs: Expr) -> Literal {
    Literal { kind: LiteralKind::Comparison(Comparison { op, lhs, rhs }), span: dummy() }
}

fn declare_person() -> Statement {
    declare("person", vec![field_decl("name", Some(TypeName::String)), field_decl("age", Some(TypeName::Int))])
}

fn example_16_1() -> Program {
    Program {
        statements: vec![
            fact("parent", vec![string_term("alice"), string_term("bob")]),
            fact("parent", vec![string_term("bob"), string_term("carol")]),
            fact("parent", vec![string_term("carol"), string_term("dave")]),
            rule(
                positional_atom("ancestor", vec![var_term("X"), var_term("Y")]),
                vec![positive_literal(positional_atom("parent", vec![var_term("X"), var_term("Y")]))],
            ),
            rule(
                positional_atom("ancestor", vec![var_term("X"), var_term("Y")]),
                vec![
                    positive_literal(positional_atom("parent", vec![var_term("X"), var_term("Z")])),
                    positive_literal(positional_atom("ancestor", vec![var_term("Z"), var_term("Y")])),
                ],
            ),
            query(vec![positive_literal(positional_atom("ancestor", vec![string_term("alice"), var_term("Who")]))]),
        ],
    }
}

fn example_16_2() -> Program {
    Program {
        statements: vec![
            fact("person", vec![string_term("alice")]),
            fact("person", vec![string_term("bob")]),
            fact("person", vec![string_term("carol")]),
            fact("parent", vec![string_term("alice"), string_term("bob")]),
            fact("parent", vec![string_term("bob"), string_term("carol")]),
            rule(
                positional_atom("root", vec![var_term("X")]),
                vec![
                    positive_literal(positional_atom("person", vec![var_term("X")])),
                    negated_literal(positional_atom("parent", vec![wildcard_term(), var_term("X")])),
                ],
            ),
        ],
    }
}

fn employee_schema() -> Vec<FieldDecl> {
    vec![
        field_decl("id", Some(TypeName::Int)),
        field_decl("name", Some(TypeName::String)),
        field_decl("age", Some(TypeName::Int)),
        field_decl("dept", Some(TypeName::String)),
        field_decl("title", Some(TypeName::String)),
        field_decl("salary", Some(TypeName::Int)),
        field_decl("city", Some(TypeName::String)),
        field_decl("start_date", Some(TypeName::String)),
    ]
}

fn example_16_7() -> Program {
    Program {
        statements: vec![
            Statement {
                kind: StatementKind::Import(Import {
                    path: "data/employees.csv".to_string(),
                    path_span: dummy(),
                    kind: ImportKind::Data { table: None, relation: ident("employee"), schema: Some(employee_schema()) },
                }),
                span: dummy(),
            },
            rule(
                positional_atom("manager_name", vec![var_term("N")]),
                vec![positive_literal(named_atom(
                    "employee",
                    vec![named_arg("name", var_term("N")), named_arg("title", string_term("manager"))],
                ))],
            ),
            declare_person(),
            fact("person", vec![string_term("alice"), int_term(30)]),
            rule(
                positional_atom("adult", vec![var_term("N")]),
                vec![
                    positive_literal(named_atom("person", vec![named_arg("name", var_term("N")), named_arg("age", var_term("A"))])),
                    comparison(CmpOp::Ge, expr(var_term("A")), expr(int_term(18))),
                ],
            ),
        ],
    }
}

// --- Hand-built IR ---

fn info(name: &str, arity: u32) -> ir::PredicateInfo {
    ir::PredicateInfo { name: name.to_string(), arity, fields: None, field_types: None }
}

fn v(slot: u32) -> ir::Term {
    ir::Term::Var(ir::Var(slot))
}

fn s(text: &str) -> ir::Value {
    ir::Value::String(text.to_string())
}

fn c(value: ir::Value) -> ir::Term {
    ir::Term::Const(value)
}

fn atom_lit(pred: u32, args: Vec<ir::Term>) -> ir::BodyLiteral {
    ir::BodyLiteral { kind: ir::BodyLiteralKind::Atom(ir::Atom { pred: ir::PredId(pred), args }), span: dummy() }
}

fn neg_lit(pred: u32, args: Vec<ir::Term>) -> ir::BodyLiteral {
    ir::BodyLiteral { kind: ir::BodyLiteralKind::NegAtom(ir::Atom { pred: ir::PredId(pred), args }), span: dummy() }
}

fn ir_fact(pred: u32, values: Vec<ir::Value>) -> ir::Fact {
    ir::Fact { pred: ir::PredId(pred), tuple: ir::Tuple(values) }
}

fn ir_rule(pred: u32, args: Vec<ir::Term>, body: Vec<ir::BodyLiteral>, names: Vec<Option<&str>>) -> ir::Rule {
    ir::Rule {
        head: ir::Atom { pred: ir::PredId(pred), args },
        body,
        var_names: names.into_iter().map(|n| n.map(str::to_string)).collect(),
        span: dummy(),
    }
}

fn ir_example_16_1() -> ir::Program {
    ir::Program {
        predicates: vec![info("parent", 2), info("ancestor", 2)],
        rules: vec![
            ir_rule(1, vec![v(0), v(1)], vec![atom_lit(0, vec![v(0), v(1)])], vec![Some("X"), Some("Y")]),
            ir_rule(
                1,
                vec![v(0), v(1)],
                vec![atom_lit(0, vec![v(0), v(2)]), atom_lit(1, vec![v(2), v(1)])],
                vec![Some("X"), Some("Y"), Some("Z")],
            ),
        ],
        facts: vec![
            ir_fact(0, vec![s("alice"), s("bob")]),
            ir_fact(0, vec![s("bob"), s("carol")]),
            ir_fact(0, vec![s("carol"), s("dave")]),
        ],
        queries: vec![ir::Query {
            body: vec![atom_lit(1, vec![c(s("alice")), v(0)])],
            var_names: vec![Some("Who".to_string())],
            projection: vec![0],
            span: dummy(),
        }],
        imports: Vec::new(),
        strata: vec![vec![ir::RuleId(0), ir::RuleId(1)]],
    }
}

fn ir_example_16_2() -> ir::Program {
    ir::Program {
        predicates: vec![info("person", 1), info("parent", 2), info("root", 1)],
        rules: vec![ir_rule(
            2,
            vec![v(0)],
            vec![atom_lit(0, vec![v(0)]), neg_lit(1, vec![v(1), v(0)])],
            vec![Some("X"), None],
        )],
        facts: vec![
            ir_fact(0, vec![s("alice")]),
            ir_fact(0, vec![s("bob")]),
            ir_fact(0, vec![s("carol")]),
            ir_fact(1, vec![s("alice"), s("bob")]),
            ir_fact(1, vec![s("bob"), s("carol")]),
        ],
        queries: Vec::new(),
        imports: Vec::new(),
        strata: vec![vec![ir::RuleId(0)]],
    }
}

fn ir_example_16_7() -> ir::Program {
    let names = ["id", "name", "age", "dept", "title", "salary", "city", "start_date"];
    let types = vec![
        Some(TypeName::Int),
        Some(TypeName::String),
        Some(TypeName::Int),
        Some(TypeName::String),
        Some(TypeName::String),
        Some(TypeName::Int),
        Some(TypeName::String),
        Some(TypeName::String),
    ];
    let employee = ir::PredicateInfo {
        name: "employee".to_string(),
        arity: 8,
        fields: Some(names.iter().map(|n| n.to_string()).collect()),
        field_types: Some(types),
    };
    let person = ir::PredicateInfo {
        name: "person".to_string(),
        arity: 2,
        fields: Some(vec!["name".to_string(), "age".to_string()]),
        field_types: Some(vec![Some(TypeName::String), Some(TypeName::Int)]),
    };
    ir::Program {
        predicates: vec![employee, info("manager_name", 1), person, info("adult", 1)],
        rules: vec![
            ir_rule(
                1,
                vec![v(0)],
                vec![atom_lit(0, vec![v(1), v(0), v(2), v(3), c(s("manager")), v(4), v(5), v(6)])],
                vec![Some("N"), None, None, None, None, None, None],
            ),
            ir_rule(
                3,
                vec![v(0)],
                vec![
                    atom_lit(2, vec![v(0), v(1)]),
                    ir::BodyLiteral {
                        kind: ir::BodyLiteralKind::Compare {
                            op: CmpOp::Ge,
                            lhs: ir::Expr::Term(v(1)),
                            rhs: ir::Expr::Term(c(ir::Value::Int(18))),
                        },
                        span: dummy(),
                    },
                ],
                vec![Some("N"), Some("A")],
            ),
        ],
        facts: vec![ir_fact(2, vec![s("alice"), ir::Value::Int(30)])],
        queries: Vec::new(),
        imports: vec![ir::ImportSpec { pred: ir::PredId(0), path: "data/employees.csv".to_string(), span: dummy() }],
        strata: vec![vec![ir::RuleId(0), ir::RuleId(1)]],
    }
}

fn texts(errors: &[Error]) -> Vec<String> {
    errors.iter().map(|e| e.render()).collect()
}

// --- Contract tests against hand-built IR ---

#[test]
fn lowering_16_1_matches_ir_fixture() {
    let lowered = lower(&example_16_1()).expect("16.1 lowers cleanly");
    assert_eq!(lowered, ir_example_16_1());
}

#[test]
fn arity_clash_is_reported() {
    let program = Program {
        statements: vec![fact("p", vec![string_term("a")]), fact("p", vec![string_term("a"), string_term("b")])],
    };
    let errors = texts(&lower(&program).expect_err("arity clash"));
    assert!(errors.iter().any(|e| e.contains("arity 2") && e.contains("arity 1")), "unexpected errors: {errors:?}");
}

#[test]
fn unsafe_rule_is_reported() {
    let program = Program {
        statements: vec![rule(
            positional_atom("p", vec![var_term("X")]),
            vec![positive_literal(positional_atom("q", vec![var_term("Y")]))],
        )],
    };
    let errors = texts(&lower(&program).expect_err("unsafe rule"));
    assert!(errors.iter().any(|e| e.contains("head variable `X`")), "unexpected errors: {errors:?}");
}

#[test]
fn non_ground_fact_is_reported() {
    let program = Program { statements: vec![fact("p", vec![var_term("X")])] };
    let errors = texts(&lower(&program).expect_err("non-ground fact"));
    assert!(errors.iter().any(|e| e.contains("not ground")), "unexpected errors: {errors:?}");
}

#[test]
fn lowering_16_2_matches_ir_fixture() {
    let lowered = lower(&example_16_2()).expect("16.2 lowers cleanly");
    assert_eq!(lowered, ir_example_16_2());
}

#[test]
fn named_var_only_in_negated_atom_is_unsafe() {
    let program = Program {
        statements: vec![rule(
            positional_atom("p", vec![var_term("X")]),
            vec![
                positive_literal(positional_atom("q", vec![var_term("X")])),
                negated_literal(positional_atom("r", vec![var_term("Y")])),
            ],
        )],
    };
    let errors = texts(&lower(&program).expect_err("Y is unsafe"));
    assert!(errors.iter().any(|e| e.contains("negated atom") && e.contains("`Y`")), "unexpected errors: {errors:?}");
}

#[test]
fn self_negation_is_not_stratifiable() {
    let program = Program {
        statements: vec![rule(
            positional_atom("p", vec![var_term("X")]),
            vec![
                positive_literal(positional_atom("q", vec![var_term("X")])),
                negated_literal(positional_atom("p", vec![var_term("X")])),
            ],
        )],
    };
    let errors = texts(&lower(&program).expect_err("negative self-loop"));
    assert!(
        errors.iter().any(|e| e.contains("not stratifiable: recursion through negation or aggregation: p -> not p")),
        "unexpected errors: {errors:?}"
    );
}

#[test]
fn a_negative_cycle_is_reported_with_its_path() {
    let program = Program {
        statements: vec![
            rule(
                positional_atom("a", vec![var_term("X")]),
                vec![
                    positive_literal(positional_atom("q", vec![var_term("X")])),
                    negated_literal(positional_atom("b", vec![var_term("X")])),
                ],
            ),
            rule(positional_atom("b", vec![var_term("X")]), vec![positive_literal(positional_atom("a", vec![var_term("X")]))]),
        ],
    };
    let errors = texts(&lower(&program).expect_err("negative cycle"));
    assert!(
        errors.iter().any(|e| e.contains("recursion through negation or aggregation: a -> not b -> a")),
        "unexpected errors: {errors:?}"
    );
}

#[test]
fn wildcard_in_a_rule_head_is_unsafe() {
    let program = Program {
        statements: vec![rule(
            positional_atom("p", vec![wildcard_term()]),
            vec![positive_literal(positional_atom("q", vec![var_term("X")]))],
        )],
    };
    let errors = texts(&lower(&program).expect_err("head wildcard is unsafe"));
    assert!(errors.iter().any(|e| e.contains("head variable `_`")), "unexpected errors: {errors:?}");
}

#[test]
fn a_negated_query_lowers_to_a_negatom_body() {
    let program = Program {
        statements: vec![query(vec![
            positive_literal(positional_atom("person", vec![var_term("X")])),
            negated_literal(positional_atom("parent", vec![wildcard_term(), var_term("X")])),
        ])],
    };
    let lowered = lower(&program).expect("negated query lowers");
    assert_eq!(
        lowered.queries,
        vec![ir::Query {
            body: vec![atom_lit(0, vec![v(0)]), neg_lit(1, vec![v(1), v(0)])],
            var_names: vec![Some("X".to_string()), None],
            projection: vec![0],
            span: dummy(),
        }]
    );
}

#[test]
fn named_var_only_in_a_negated_query_atom_is_unsafe() {
    let program = Program {
        statements: vec![query(vec![
            positive_literal(positional_atom("q", vec![var_term("X")])),
            negated_literal(positional_atom("r", vec![var_term("Y")])),
        ])],
    };
    let errors = texts(&lower(&program).expect_err("Y is unsafe in the query"));
    assert!(errors.iter().any(|e| e.contains("query") && e.contains("`Y`")), "unexpected errors: {errors:?}");
}

#[test]
fn a_negation_chain_yields_three_strata() {
    let unary_rule = |head: &str, body: Vec<Literal>| rule(positional_atom(head, vec![var_term("X")]), body);
    let positive = |pred: &str| positive_literal(positional_atom(pred, vec![var_term("X")]));
    let negative = |pred: &str| negated_literal(positional_atom(pred, vec![var_term("X")]));
    let program = Program {
        statements: vec![
            unary_rule("a", vec![positive("d")]),
            unary_rule("b", vec![positive("d"), negative("a")]),
            unary_rule("c", vec![positive("d"), negative("b")]),
        ],
    };
    let lowered = lower(&program).expect("stratifiable");
    assert_eq!(lowered.strata, vec![vec![ir::RuleId(0)], vec![ir::RuleId(1)], vec![ir::RuleId(2)]]);
}

#[test]
fn negation_over_idb_yields_two_strata_in_order() {
    let program = Program {
        statements: vec![
            rule(positional_atom("p", vec![var_term("X")]), vec![positive_literal(positional_atom("q", vec![var_term("X")]))]),
            rule(
                positional_atom("r", vec![var_term("X")]),
                vec![
                    positive_literal(positional_atom("q", vec![var_term("X")])),
                    negated_literal(positional_atom("p", vec![var_term("X")])),
                ],
            ),
            rule(positional_atom("s", vec![var_term("X")]), vec![positive_literal(positional_atom("q", vec![var_term("X")]))]),
        ],
    };
    let lowered = lower(&program).expect("stratifiable");
    assert_eq!(lowered.strata, vec![vec![ir::RuleId(0), ir::RuleId(2)], vec![ir::RuleId(1)]]);
}

#[test]
fn lowering_16_7_matches_ir_fixture() {
    let lowered = lower(&example_16_7()).expect("16.7 lowers cleanly");
    assert_eq!(lowered, ir_example_16_7());
}

#[test]
fn named_and_positional_forms_lower_identically() {
    let named = Program {
        statements: vec![
            declare_person(),
            rule(
                positional_atom("adult", vec![var_term("N")]),
                vec![positive_literal(named_atom("person", vec![named_arg("name", var_term("N")), named_arg("age", var_term("A"))]))],
            ),
        ],
    };
    let positional = Program {
        statements: vec![
            declare_person(),
            rule(
                positional_atom("adult", vec![var_term("N")]),
                vec![positive_literal(positional_atom("person", vec![var_term("N"), var_term("A")]))],
            ),
        ],
    };
    assert_eq!(lower(&named).expect("named form lowers"), lower(&positional).expect("positional form lowers"));
}

#[test]
fn named_argument_order_is_irrelevant() {
    let make = |args: Vec<NamedArg>| Program {
        statements: vec![
            declare_person(),
            rule(positional_atom("adult", vec![var_term("N")]), vec![positive_literal(named_atom("person", args))]),
        ],
    };
    let a = lower(&make(vec![named_arg("name", var_term("N")), named_arg("age", var_term("A"))])).expect("lowers");
    let b = lower(&make(vec![named_arg("age", var_term("A")), named_arg("name", var_term("N"))])).expect("lowers");
    let args_of = |program: &ir::Program| match &program.rules[0].body[0].kind {
        ir::BodyLiteralKind::Atom(atom) => atom.args.clone(),
        other => panic!("expected a positive atom, got {other:?}"),
    };
    let name_slot = |program: &ir::Program| {
        program.rules[0].var_names.iter().position(|n| n.as_deref() == Some("N")).expect("N is numbered") as u32
    };
    assert_eq!(args_of(&a)[0], ir::Term::Var(ir::Var(name_slot(&a))));
    assert_eq!(args_of(&b)[0], ir::Term::Var(ir::Var(name_slot(&b))));
}

#[test]
fn partial_selection_fills_omitted_fields_with_fresh_slots() {
    let program = Program {
        statements: vec![
            declare(
                "employee",
                vec![field_decl("id", None), field_decl("name", None), field_decl("dept", None), field_decl("title", None)],
            ),
            rule(
                positional_atom("manager_name", vec![var_term("N")]),
                vec![positive_literal(named_atom(
                    "employee",
                    vec![named_arg("name", var_term("N")), named_arg("title", string_term("manager"))],
                ))],
            ),
        ],
    };
    let lowered = lower(&program).expect("partial selection lowers");
    let rule = &lowered.rules[0];
    let args = match &rule.body[0].kind {
        ir::BodyLiteralKind::Atom(atom) => &atom.args,
        other => panic!("expected a positive atom, got {other:?}"),
    };
    assert_eq!(args.len(), 4, "atom carries full arity");
    assert_eq!(args[3], ir::Term::Const(ir::Value::String("manager".into())));
    let fresh: Vec<ir::Var> = [0, 2]
        .iter()
        .map(|&i| match args[i] {
            ir::Term::Var(var) => var,
            ref other => panic!("expected a fresh variable, got {other:?}"),
        })
        .collect();
    assert_ne!(fresh[0], fresh[1]);
    for var in fresh {
        assert_eq!(rule.var_names[var.0 as usize], None);
    }
}

#[test]
fn declare_may_follow_its_use() {
    let program = Program {
        statements: vec![
            rule(
                positional_atom("adult", vec![var_term("N")]),
                vec![positive_literal(named_atom("person", vec![named_arg("name", var_term("N"))]))],
            ),
            declare_person(),
        ],
    };
    lower(&program).expect("declaration order does not matter");
}

#[test]
fn field_names_reach_the_ir() {
    let lowered = lower(&example_16_7()).expect("16.7 lowers cleanly");
    let employee = lowered.predicates.iter().find(|p| p.name == "employee").expect("employee is interned");
    assert_eq!(
        employee.fields.as_deref(),
        Some(["id", "name", "age", "dept", "title", "salary", "city", "start_date"].map(String::from).as_slice())
    );
    let manager_name = lowered.predicates.iter().find(|p| p.name == "manager_name").expect("manager_name is interned");
    assert_eq!(manager_name.fields, None);
    for info in &lowered.predicates {
        if let Some(fields) = &info.fields {
            assert_eq!(fields.len(), info.arity as usize, "for `{}`", info.name);
        }
        assert_eq!(info.fields.is_some(), info.field_types.is_some(), "for `{}`", info.name);
        if let Some(types) = &info.field_types {
            assert_eq!(types.len(), info.arity as usize, "for `{}`", info.name);
        }
    }
}

#[test]
fn declared_types_reach_the_ir() {
    let lowered = lower(&example_16_7()).expect("16.7 lowers cleanly");
    let person = lowered.predicates.iter().find(|p| p.name == "person").expect("person is interned");
    assert_eq!(person.field_types.as_deref(), Some([Some(TypeName::String), Some(TypeName::Int)].as_slice()));
    let employee = lowered.predicates.iter().find(|p| p.name == "employee").expect("employee is interned");
    assert_eq!(
        employee.field_types.as_deref(),
        Some(
            [
                Some(TypeName::Int),
                Some(TypeName::String),
                Some(TypeName::Int),
                Some(TypeName::String),
                Some(TypeName::String),
                Some(TypeName::Int),
                Some(TypeName::String),
                Some(TypeName::String),
            ]
            .as_slice()
        )
    );
    let manager_name = lowered.predicates.iter().find(|p| p.name == "manager_name").expect("manager_name is interned");
    assert_eq!(manager_name.field_types, None);
}

#[test]
fn a_late_declare_still_reaches_the_ir() {
    let program = Program { statements: vec![fact("person", vec![string_term("alice"), int_term(30)]), declare_person()] };
    let lowered = lower(&program).expect("lowers");
    assert_eq!(lowered.predicates[0].fields.as_deref(), Some(["name".to_string(), "age".to_string()].as_slice()));
}

#[test]
fn a_schema_conflicting_with_arity_is_not_attached() {
    let program = Program {
        statements: vec![
            fact("person", vec![string_term("alice"), int_term(30), string_term("eng")]),
            declare_person(),
        ],
    };
    let mut lowerer = Lowerer::new();
    lowerer.collect_predicates(&program, &[]);
    lowerer.attach_field_names();
    let person = &lowerer.predicates[0];
    assert_eq!(person.name, "person");
    assert_eq!(person.arity, 3, "arity comes from the first use site");
    assert_eq!(person.fields, None, "a two-field schema must not attach to an arity-3 predicate");
    assert!(
        lowerer.errors.iter().any(|e| e.render().contains("arity")),
        "unexpected errors: {:?}",
        lowerer.errors
    );
}

#[test]
fn a_schema_less_import_alone_still_reaches_the_predicate_table() {
    let program = Program {
        statements: vec![Statement {
            kind: StatementKind::Import(Import {
                path: "data/employees.csv".to_string(),
                path_span: dummy(),
                kind: ImportKind::Data { table: None, relation: ident("employee"), schema: None },
            }),
            span: dummy(),
        }],
    };
    let lowered = lower(&program).expect("a lone schema-less import lowers");
    assert_eq!(lowered.imports.len(), 1);
    let info = &lowered.predicates[lowered.imports[0].pred.0 as usize];
    assert_eq!(info.name, "employee");
    assert_eq!(info.arity, 0, "arity is pending source load");
    assert_eq!(info.fields, None);
}

#[test]
fn unknown_field_is_reported() {
    let program = Program {
        statements: vec![
            declare_person(),
            rule(
                positional_atom("adult", vec![var_term("N")]),
                vec![positive_literal(named_atom("person", vec![named_arg("nickname", var_term("N"))]))],
            ),
        ],
    };
    let errors = texts(&lower(&program).expect_err("unknown field"));
    assert!(
        errors.iter().any(|e| e.contains("unknown field `nickname`") && e.contains("name, age")),
        "unexpected errors: {errors:?}"
    );
}

#[test]
fn duplicate_field_in_one_literal_is_reported() {
    let program = Program {
        statements: vec![
            declare_person(),
            rule(
                positional_atom("adult", vec![var_term("N")]),
                vec![positive_literal(named_atom("person", vec![named_arg("name", var_term("N")), named_arg("name", var_term("M"))]))],
            ),
        ],
    };
    let errors = texts(&lower(&program).expect_err("duplicate field"));
    assert!(errors.iter().any(|e| e.contains("`name` is given twice")), "unexpected errors: {errors:?}");
}

#[test]
fn named_arguments_without_a_schema_are_reported() {
    let program = Program {
        statements: vec![rule(
            positional_atom("adult", vec![var_term("N")]),
            vec![positive_literal(named_atom("person", vec![named_arg("name", var_term("N"))]))],
        )],
    };
    let errors = texts(&lower(&program).expect_err("no schema"));
    assert!(
        errors.iter().any(|e| e.contains("require known field names for `person`") && e.contains("declare person(...)")),
        "unexpected errors: {errors:?}"
    );
}

#[test]
fn partial_selection_in_a_rule_head_is_reported() {
    let program = Program {
        statements: vec![
            declare_person(),
            rule(
                named_atom("person", vec![named_arg("name", var_term("N"))]),
                vec![positive_literal(positional_atom("adult", vec![var_term("N")]))],
            ),
        ],
    };
    let errors = texts(&lower(&program).expect_err("partial head"));
    assert!(
        errors.iter().any(|e| e.contains("must supply every field") && e.contains("missing: age")),
        "unexpected errors: {errors:?}"
    );
}

#[test]
fn partial_selection_in_a_fact_is_reported() {
    let program = Program {
        statements: vec![declare_person(), named_fact(named_atom("person", vec![named_arg("name", string_term("alice"))]))],
    };
    let errors = texts(&lower(&program).expect_err("partial fact"));
    assert!(errors.iter().any(|e| e.contains("must supply every field")), "unexpected errors: {errors:?}");
}

#[test]
fn non_ground_named_fact_reports_the_field_name() {
    let program = Program {
        statements: vec![
            declare_person(),
            named_fact(named_atom("person", vec![named_arg("name", string_term("alice")), named_arg("age", var_term("A"))])),
        ],
    };
    let errors = texts(&lower(&program).expect_err("non-ground named fact"));
    assert!(errors.iter().any(|e| e.contains("not ground") && e.contains("field `age`")), "unexpected errors: {errors:?}");
}

#[test]
fn conflicting_schemas_are_reported() {
    let program = Program {
        statements: vec![declare_person(), declare("person", vec![field_decl("name", None), field_decl("years", None)])],
    };
    let errors = texts(&lower(&program).expect_err("conflicting schemas"));
    assert!(errors.iter().any(|e| e.contains("conflicting schemas for `person`")), "unexpected errors: {errors:?}");
}

#[test]
fn schemas_conflicting_only_on_types_are_reported() {
    let program = Program {
        statements: vec![
            declare_person(),
            declare("person", vec![field_decl("name", Some(TypeName::String)), field_decl("age", Some(TypeName::String))]),
        ],
    };
    let errors = texts(&lower(&program).expect_err("conflicting declared types"));
    assert!(errors.iter().any(|e| e.contains("conflicting declared types for `person`")), "unexpected errors: {errors:?}");
}

#[test]
fn duplicate_field_within_a_schema_is_reported() {
    let program = Program { statements: vec![declare("person", vec![field_decl("name", None), field_decl("name", None)])] };
    let errors = texts(&lower(&program).expect_err("duplicate schema field"));
    assert!(errors.iter().any(|e| e.contains("duplicate field `name`")), "unexpected errors: {errors:?}");
}

#[test]
fn comparison_only_variable_is_unsafe() {
    let program = Program {
        statements: vec![rule(
            positional_atom("p", vec![var_term("X")]),
            vec![
                positive_literal(positional_atom("q", vec![var_term("X")])),
                comparison(CmpOp::Gt, expr(var_term("Y")), expr(int_term(1))),
            ],
        )],
    };
    let errors = texts(&lower(&program).expect_err("comparison-only var"));
    assert!(errors.iter().any(|e| e.contains("`Y`")), "unexpected errors: {errors:?}");
}

#[test]
fn assignment_target_lowers_safely() {
    // next_year(X, N) :- age(X, A), N = A + 1.
    let program = Program {
        statements: vec![
            fact("age", vec![string_term("alice"), int_term(30)]),
            rule(
                positional_atom("next_year", vec![var_term("X"), var_term("N")]),
                vec![
                    positive_literal(positional_atom("age", vec![var_term("X"), var_term("A")])),
                    comparison(
                        CmpOp::Eq,
                        expr(var_term("N")),
                        Expr {
                            kind: ExprKind::Binary {
                                op: ast::ArithOp::Add,
                                lhs: Box::new(expr(var_term("A"))),
                                rhs: Box::new(expr(int_term(1))),
                            },
                            span: dummy(),
                        },
                    ),
                ],
            ),
        ],
    };
    let lowered = lower(&program).expect("assignment rule should lower");
    assert_eq!(lowered.rules.len(), 1);
    assert_eq!(lowered.rules[0].head.args, vec![v(0), v(1)]);
}

// --- Body scheduling ---

fn lower_errors(src: &str) -> Vec<String> {
    let ast = parse(src).expect("parses");
    texts(&lower(&ast).expect_err("lowering should fail"))
}

#[test]
fn an_assignment_chain_may_be_written_in_any_order() {
    let ast = parse("a(1).\nrev(X, M) :- a(X), M = N + 1, N = X + 1.\n").expect("parses");
    lower(&ast).expect("the scheduler finds the order");
}

#[test]
fn a_circular_dependency_is_rejected_as_circular() {
    let errors = lower_errors("a(1).\nr(1, \"x\").\ncyc(X, N) :- a(X), N = count { C | r(Y, C) }, Y = N.\n");
    assert!(errors.iter().any(|e| e.contains("circular dependency") && e.contains("`Y`")), "unexpected errors: {errors:?}");
    assert_eq!(errors.len(), 1, "{errors:?}");
}

#[test]
fn a_never_bound_variable_is_rejected_as_unbound() {
    let errors = lower_errors("a(1).\nu(X) :- a(X), X > Z.\n");
    assert!(errors.iter().any(|e| e.contains("is never bound") && e.contains("`Z`")), "unexpected errors: {errors:?}");
}

#[test]
fn goal_local_names_may_repeat_across_aggregates() {
    let ast = parse("q(\"k\").\nr(1).\ns(7).\nboth(K, N, M) :- q(K), N = count { C | r(C) }, M = count { C | s(C) }.\n")
        .expect("parses");
    lower(&ast).expect("goal-local names are local to each aggregate");
}

// --- The undefined-predicate lint ---

fn warnings(src: &str) -> Vec<Warning> {
    let ast = parse(src).expect("parses");
    let program = lower(&ast).expect("lowers");
    check_program(&program)
}

#[test]
fn levenshtein_matches_known_distances() {
    assert_eq!(levenshtein("ancestor", "ancester"), 1);
    assert_eq!(levenshtein("", "abc"), 3);
    assert_eq!(levenshtein("kitten", "sitting"), 3);
    assert_eq!(levenshtein("same", "same"), 0);
}

#[test]
fn undefined_body_predicate_warns_with_suggestion() {
    let src = "\
parent(\"alice\", \"bob\").
ancestor(X, Y) :- parent(X, Y).
ancestor(X, Y) :- parent(X, Z), ancester(Z, Y).
?- ancestor(\"alice\", Who).
";
    assert_eq!(
        warnings(src),
        vec![Warning::UndefinedPredicate { name: "ancester".to_string(), arity: 2, suggestion: Some("ancestor".to_string()) }]
    );
}

#[test]
fn fully_defined_program_warns_nothing() {
    let src = "\
parent(\"alice\", \"bob\").
ancestor(X, Y) :- parent(X, Y).
ancestor(X, Y) :- parent(X, Z), ancestor(Z, Y).
?- ancestor(\"alice\", Who).
";
    assert_eq!(warnings(src), Vec::new());
}

#[test]
fn rule_head_counts_as_defined_even_if_never_derivable() {
    let src = "base(\"a\").\nunreachable(X) :- never(X).\n?- unreachable(Who).\n";
    assert_eq!(warnings(src), vec![Warning::UndefinedPredicate { name: "never".to_string(), arity: 1, suggestion: None }]);
}

#[test]
fn query_only_undefined_predicate_warns() {
    let src = "person(\"alice\").\n?- ghost(Who).";
    assert_eq!(warnings(src), vec![Warning::UndefinedPredicate { name: "ghost".to_string(), arity: 1, suggestion: None }]);
}

#[test]
fn undefined_under_negation_still_warns() {
    let src = "person(\"alice\").\n?- person(X), not missing(X).";
    assert_eq!(warnings(src), vec![Warning::UndefinedPredicate { name: "missing".to_string(), arity: 1, suggestion: None }]);
}

#[test]
fn suggestion_prefers_matching_arity_on_a_distance_tie() {
    let src = "\
use(\"x\").
user(\"a\", 1).
lookup(N) :- usr(N, _).
?- lookup(N).
";
    assert_eq!(
        warnings(src),
        vec![Warning::UndefinedPredicate { name: "usr".to_string(), arity: 2, suggestion: Some("user".to_string()) }]
    );
}

#[test]
fn no_suggestion_when_nothing_is_close() {
    let src = "aardvark(\"x\").\n?- zzz(W).";
    assert_eq!(warnings(src), vec![Warning::UndefinedPredicate { name: "zzz".to_string(), arity: 1, suggestion: None }]);
}

// --- More of what lowering promises ---

#[test]
fn a_fact_folds_its_arithmetic() {
    let lowered = lower(&parse("p(1 + 2 * 3).\n").expect("parses")).expect("lowers");
    assert_eq!(lowered.facts, vec![ir_fact(0, vec![ir::Value::Int(7)])]);
}

#[test]
fn a_fact_that_divides_by_zero_is_refused() {
    let errors = lower_errors("p(1 / 0).\n");
    assert!(errors.iter().any(|e| e.contains("cannot evaluate")), "unexpected errors: {errors:?}");
}

#[test]
fn inline_arithmetic_in_a_rule_hoists_to_an_assignment() {
    let lowered = lower(&parse("n(1).\nsucc(X, X + 1) :- n(X).\n").expect("parses")).expect("lowers");
    let rule = &lowered.rules[0];
    assert_eq!(rule.head.args, vec![v(0), v(1)]);
    assert_eq!(rule.var_names, vec![Some("X".to_string()), None]);
    assert!(matches!(
        &rule.body[1].kind,
        ir::BodyLiteralKind::Compare { op: CmpOp::Eq, lhs: ir::Expr::Term(ir::Term::Var(ir::Var(1))), .. }
    ));
}

#[test]
fn absent_in_a_body_atom_is_refused() {
    let errors = lower_errors("m(\"a\", absent).\nr(X) :- m(X, absent).\n");
    assert!(errors.iter().any(|e| e.contains("cannot be matched in a body atom")), "unexpected errors: {errors:?}");
}

#[test]
fn comparing_against_absent_is_refused() {
    let errors = lower_errors("m(\"a\", 1).\nr(X) :- m(X, V), V != absent.\n");
    assert!(errors.iter().any(|e| e.contains("against the literal `absent`")), "unexpected errors: {errors:?}");
}

#[test]
fn an_aggregate_is_its_own_literal_and_a_strict_dependency() {
    let lowered = lower(&parse("e(1).\ne(2).\ncnt(N) :- N = count { X | e(X) }.\n").expect("parses")).expect("lowers");
    assert!(matches!(lowered.rules[0].body[0].kind, ir::BodyLiteralKind::Aggregate { .. }));
    let errors = lower_errors("p(N) :- N = count { X | p(X) }.\n");
    assert!(
        errors.iter().any(|e| e.contains("recursion through negation or aggregation: p -> agg p")),
        "unexpected errors: {errors:?}"
    );
}

#[test]
fn an_unresolved_module_import_is_refused() {
    let errors = lower_errors("import \"lib/family.dl\".\n");
    assert!(errors.iter().any(|e| e.contains("must be resolved before lowering")), "unexpected errors: {errors:?}");
}

#[test]
fn loaded_rows_become_base_facts_and_headers_name_fields() {
    let ast = parse("import \"people.csv\" as person.\nadult(N) :- person(name: N, age: A), A >= 18.\n").expect("parses");
    let table = LoadedTable {
        fields: vec!["name".to_string(), "age".to_string()],
        rows: vec![vec![s("ann"), ir::Value::Int(40)], vec![s("bo"), ir::Value::Int(9)]],
    };
    let lowered = lower_with_sources(&ast, &[table]).expect("lowers");
    assert_eq!(lowered.facts, vec![ir_fact(0, vec![s("ann"), ir::Value::Int(40)]), ir_fact(0, vec![s("bo"), ir::Value::Int(9)])]);
    assert_eq!(lowered.predicates[0].fields, Some(vec!["name".to_string(), "age".to_string()]));
    assert_eq!(lowered.imports[0].path, "people.csv");
}

#[test]
fn a_positive_program_is_one_stratum() {
    let lowered = lower(&parse("e(1, 2).\ne(2, 3).\nt(X, Y) :- e(X, Y).\nt(X, Z) :- t(X, Y), e(Y, Z).\n").expect("parses"))
        .expect("lowers");
    assert_eq!(lowered.strata, vec![vec![ir::RuleId(0), ir::RuleId(1)]]);
}

#[test]
fn assignment_target_is_safe_and_lowers() {
    // next_year(X, N) :- age(X, A), N = A + 1.
    let program = Program {
        statements: vec![
            fact("age", vec![string_term("alice"), int_term(30)]),
            rule(
                positional_atom("next_year", vec![var_term("X"), var_term("N")]),
                vec![
                    positive_literal(positional_atom("age", vec![var_term("X"), var_term("A")])),
                    comparison(
                        CmpOp::Eq,
                        expr(var_term("N")),
                        Expr {
                            kind: ExprKind::Binary {
                                op: ast::ArithOp::Add,
                                lhs: Box::new(expr(var_term("A"))),
                                rhs: Box::new(expr(int_term(1))),
                            },
                            span: dummy(),
                        },
                    ),
                ],
            ),
        ],
    };
    let ir = lower(&program).expect("assignment rule should lower");
    let next_year = ir.predicates.iter().position(|p| p.name == "next_year").expect("next_year predicate") as u32;
    assert_eq!(ir.rules.len(), 1);
    assert_eq!(ir.rules[0].head.pred, ir::PredId(next_year));
    assert_eq!(ir.rules[0].head.args.len(), 2);
    assert_eq!(ir.rules[0].body.len(), 2);
    assert!(matches!(ir.rules[0].body[1].kind, ir::BodyLiteralKind::Compare { op: CmpOp::Eq, .. }));
    assert_eq!(ir.facts.len(), 1);
    assert_eq!(ir.facts[0].tuple.0, vec![ir::Value::String("alice".to_string()), ir::Value::Int(30)]);
}

#[test]
fn a_group_key_is_grouped_wherever_its_binder_is_written() {
    let facts = "q(1). q(2).\nr(2, \"a\"). r(3, \"b\"). r(3, \"c\").\n";
    let before = format!("{facts}g(X, N) :- q(X), Y = X + 1, N = count {{ C | r(Y, C) }}.\n?- g(X, N).");
    let after = format!("{facts}g(X, N) :- q(X), N = count {{ C | r(Y, C) }}, Y = X + 1.\n?- g(X, N).");
    let lowered = |src: &str| lower(&parse(src).expect("parses")).unwrap_or_else(|e| panic!("lowers: {e:?}"));
    let a = lowered(&before);
    let b = lowered(&after);
    assert_eq!(a.rules.len(), 1);
    assert_eq!(b.rules.len(), 1);
    assert_eq!(a.facts, b.facts);
    assert_eq!(a.rules[0].body.len(), b.rules[0].body.len());
    let aggregates = |ir: &ir::Program| {
        ir.rules[0].body.iter().filter(|l| matches!(l.kind, ir::BodyLiteralKind::Aggregate { .. })).count()
    };
    assert_eq!(aggregates(&a), 1);
    assert_eq!(aggregates(&b), 1);
}

#[test]
fn an_unsafe_head_variable_is_reported_once_with_its_remedy() {
    let program = parse("p(X) :- q(Y).\n").expect("parses");
    let errors = texts(&lower(&program).expect_err("X is unbound"));
    assert_eq!(errors.len(), 1, "unexpected errors: {errors:?}");
    assert!(
        errors[0].contains(
            "unsafe rule for `p`: head variable `X` is not bound by the body — it must occur in a positive body atom, or be bound by an `=`-assignment or an aggregate result"
        ),
        "unexpected errors: {errors:?}"
    );
}

#[test]
fn a_wildcard_under_negation_is_existential() {
    let program = Program {
        statements: vec![rule(
            positional_atom("p", vec![var_term("X")]),
            vec![
                positive_literal(positional_atom("q", vec![var_term("X")])),
                negated_literal(positional_atom("r", vec![wildcard_term()])),
            ],
        )],
    };
    assert!(lower(&program).is_ok());
}

#[test]
fn printed_facts_lower_to_exactly_those_facts() {
    let lowered = lower(&parse("e(1, \"a\").\ne(2, \"b\").\nf(x).\n").expect("parses")).expect("lowers");
    assert_eq!(lowered.facts.len(), 3);
    let name = |f: &ir::Fact| lowered.predicates[f.pred.0 as usize].name.clone();
    assert_eq!(name(&lowered.facts[0]), "e");
    assert_eq!(lowered.facts[0].tuple.0, vec![ir::Value::Int(1), ir::Value::String("a".to_string())]);
    assert_eq!(name(&lowered.facts[2]), "f");
    assert_eq!(lowered.facts[2].tuple.0, vec![ir::Value::Symbol("x".to_string())]);
}

#[test]
fn a_negated_body_atom_lowers_negated_and_a_plain_one_plain() {
    let lowered = lower(&parse("q(1).\nr(2).\np(X) :- q(X), not r(X).\n").expect("parses")).expect("lowers");
    assert_eq!(lowered.rules.len(), 1);
    let body = &lowered.rules[0].body;
    assert!(matches!(body[0].kind, ir::BodyLiteralKind::Atom(_)));
    assert!(matches!(body[1].kind, ir::BodyLiteralKind::NegAtom(_)));
}

#[test]
fn a_schema_less_import_takes_its_arity_from_its_table() {
    let ast = parse("import \"t.csv\" as t.\n").expect("parses");
    let table = LoadedTable { fields: vec!["a".to_string(), "b".to_string(), "c".to_string()], rows: vec![] };
    let lowered = lower_with_sources(&ast, &[table]).expect("lowers");
    let info = &lowered.predicates[lowered.imports[0].pred.0 as usize];
    assert_eq!(info.arity, 3);
}

#[test]
fn a_plain_program_fails_with_exactly_its_safety_reports() {
    let errors = texts(&lower(&parse("q(1).\np(X) :- q(Y).\nr(Z) :- q(Z).\n").expect("parses")).expect_err("unsafe"));
    assert_eq!(errors.len(), 1, "unexpected errors: {errors:?}");
    assert!(errors[0].contains("head variable `X` is not bound by the body"), "unexpected errors: {errors:?}");
    assert!(lower(&parse("q(1).\nr(Z) :- q(Z).\n").expect("parses")).is_ok());
}
