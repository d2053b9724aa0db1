use datalog::ast::{
    AggOp, Args, ArithOp, Atom, Clause, CmpOp, Comparison, Constant, Declaration, Expr, ExprKind,
    FieldDecl, FloatLit, Ident, Import, ImportKind, Literal, LiteralKind, NamedArg, Program, Query,
    Span, Statement, StatementKind, Term, TermKind, TypeName,
};
use datalog::error::Error;
use datalog::parser::parse;

fn dummy() -> Span {
    Span::dummy()
}

/// Zeroes every span, so parsed programs compare with hand-built ones.
fn zero_spans(program: &mut Program) {
    for statement in &mut program.statements {
        statement.span = dummy();
        match &mut statement.kind {
            StatementKind::Import(import) => {
                import.path_span = dummy();
                match &mut import.kind {
                    ImportKind::Module | ImportKind::Std { .. } => {}
                    ImportKind::Data { table, relation, schema } => {
                        if let Some((_, table_span)) = table {
                            *table_span = dummy();
                        }
                        relation.span = dummy();
                        if let Some(schema) = schema {
                            schema.iter_mut().for_each(zero_field);
                        }
                    }
                }
            }
            StatementKind::Declare(declaration) => {
                declaration.relation.span = dummy();
                declaration.fields.iter_mut().for_each(zero_field);
            }
            StatementKind::Clause(clause) => {
                clause.span = dummy();
                zero_atom(&mut clause.head);
                clause.body.iter_mut().for_each(zero_literal);
            }
            StatementKind::Query(query) => {
                query.span = dummy();
                if let Some(name) = &mut query.name {
                    name.span = dummy();
                }
                query.body.iter_mut().for_each(zero_literal);
            }
        }
    }
}

fn zero_field(field: &mut FieldDecl) {
    field.name.span = dummy();
    field.span = dummy();
}

fn zero_atom(atom: &mut Atom) {
    atom.predicate.span = dummy();
    atom.span = dummy();
    match &mut atom.args {
        Args::Positional(exprs) => exprs.iter_mut().for_each(zero_expr),
        Args::Named(named) => {
            for arg in named {
                arg.field.span = dummy();
                arg.span = dummy();
                zero_expr(&mut arg.value);
            }
        }
    }
}

fn zero_literal(literal: &mut Literal) {
    literal.span = dummy();
    match &mut literal.kind {
        LiteralKind::Atom { atom, .. } => zero_atom(atom),
        LiteralKind::Comparison(cmp) => {
            zero_expr(&mut cmp.lhs);
            zero_expr(&mut cmp.rhs);
        }
        LiteralKind::Presence { expr, .. } => zero_expr(expr),
    }
}

fn zero_expr(expr: &mut Expr) {
    expr.span = dummy();
    match &mut expr.kind {
        ExprKind::Term(term) => term.span = dummy(),
        ExprKind::Binary { lhs, rhs, .. } => {
            zero_expr(lhs);
            zero_expr(rhs);
        }
        ExprKind::Cast { expr, .. } => zero_expr(expr),
        ExprKind::Aggregate(agg) => {
            zero_expr(&mut agg.expr);
            for literal in &mut agg.goal {
                zero_literal(literal);
            }
            for param in &mut agg.params {
                zero_expr(param);
            }
        }
    }
}

fn parse_ok(src: &str) -> Program {
    let mut program = parse(src).unwrap_or_else(|e| panic!("parse failed: {e:?}"));
    zero_spans(&mut program);
    program
}

fn parse_err(src: &str) -> Vec<Error> {
    parse(src).expect_err("expected a parse error")
}

// --- Hand-built programs ---

fn ident(name: &str) -> Ident {
    Ident { name: name.to_string(), span: dummy() }
}

fn term(kind: TermKind) -> Expr {
    Expr { kind: ExprKind::Term(Term { kind, span: dummy() }), span: dummy() }
}

fn string(s: &str) -> Expr {
    term(TermKind::Constant(Constant::String(s.to_string())))
}

fn int_lit(n: i64) -> Expr {
    term(TermKind::Constant(Constant::Int(n)))
}

fn var(name: &str) -> Expr {
    term(TermKind::Variable(name.to_string()))
}

fn atom(name: &str, args: Vec<Expr>) -> Atom {
    Atom { predicate: ident(name), args: Args::Positional(args), span: dummy() }
}

fn named_atom(name: &str, args: Vec<(&str, Expr)>) -> Atom {
    Atom {
        predicate: ident(name),
        args: Args::Named(
            args.into_iter()
                .map(|(field, value)| NamedArg { field: ident(field), value, span: dummy() })
                .collect(),
        ),
        span: dummy(),
    }
}

fn pos(atom: Atom) -> Literal {
    Literal { kind: LiteralKind::Atom { negated: false, atom }, span: dummy() }
}

fn neg(atom: Atom) -> Literal {
    Literal { kind: LiteralKind::Atom { negated: true, atom }, span: dummy() }
}

fn clause(head: Atom, body: Vec<Literal>) -> Statement {
    Statement { kind: StatementKind::Clause(Clause { head, body, span: dummy() }), span: dummy() }
}

fn fact(head: Atom) -> Statement {
    clause(head, Vec::new())
}

fn field(name: &str, ty: Option<TypeName>) -> FieldDecl {
    FieldDecl { name: ident(name), ty, span: dummy() }
}

fn example_16_1() -> Program {
    Program {
        statements: vec![
            fact(atom("parent", vec![string("alice"), string("bob")])),
            fact(atom("parent", vec![string("bob"), string("carol")])),
            fact(atom("parent", vec![string("carol"), string("dave")])),
            clause(atom("ancestor", vec![var("X"), var("Y")]), vec![pos(atom("parent", vec![var("X"), var("Y")]))]),
            clause(
                atom("ancestor", vec![var("X"), var("Y")]),
                vec![
                    pos(atom("parent", vec![var("X"), var("Z")])),
                    pos(atom("ancestor", vec![var("Z"), var("Y")])),
                ],
            ),
            Statement {
                kind: StatementKind::Query(Query {
                    name: None,
                    body: vec![pos(atom("ancestor", vec![string("alice"), var("Who")]))],
                    span: dummy(),
                }),
                span: dummy(),
            },
        ],
    }
}

fn example_16_2() -> Program {
    Program {
        statements: vec![
            fact(atom("person", vec![string("alice")])),
            fact(atom("person", vec![string("bob")])),
            fact(atom("person", vec![string("carol")])),
            fact(atom("parent", vec![string("alice"), string("bob")])),
            fact(atom("parent", vec![string("bob"), string("carol")])),
            clause(
                atom("root", vec![var("X")]),
                vec![
                    pos(atom("person", vec![var("X")])),
                    neg(atom("parent", vec![term(TermKind::Wildcard), var("X")])),
                ],
            ),
        ],
    }
}

fn example_16_7() -> Program {
    let schema = vec![
        field("id", Some(TypeName::Int)),
        field("name", Some(TypeName::String)),
        field("age", Some(TypeName::Int)),
        field("dept", Some(TypeName::String)),
        field("title", Some(TypeName::String)),
        field("salary", Some(TypeName::Int)),
        field("city", Some(TypeName::String)),
        field("start_date", Some(TypeName::String)),
    ];
    Program {
        statements: vec![
            Statement {
                kind: StatementKind::Import(Import {
                    path: "data/employees.csv".to_string(),
                    path_span: dummy(),
                    kind: ImportKind::Data { table: None, relation: ident("employee"), schema: Some(schema) },
                }),
                span: dummy(),
            },
            clause(
                atom("manager_name", vec![var("N")]),
                vec![pos(named_atom("employee", vec![("name", var("N")), ("title", string("manager"))]))],
            ),
            Statement {
                kind: StatementKind::Declare(Declaration {
                    relation: ident("person"),
                    fields: vec![field("name", Some(TypeName::String)), field("age", Some(TypeName::Int))],
                }),
                span: dummy(),
            },
            fact(atom("person", vec![string("alice"), int_lit(30)])),
            clause(
                atom("adult", vec![var("N")]),
                vec![
                    pos(named_atom("person", vec![("name", var("N")), ("age", var("A"))])),
                    Literal {
                        kind: LiteralKind::Comparison(Comparison { op: CmpOp::Ge, lhs: var("A"), rhs: int_lit(18) }),
                        span: dummy(),
                    },
                ],
            ),
        ],
    }
}

// --- Golden programs ---

#[test]
fn golden_16_1_ancestry() {
    let src = "\
parent(\"alice\", \"bob\").
parent(\"bob\", \"carol\").
parent(\"carol\", \"dave\").
ancestor(X, Y) :- parent(X, Y).
ancestor(X, Y) :- parent(X, Z), ancestor(Z, Y).
?- ancestor(\"alice\", Who).
";
    assert_eq!(parse_ok(src), example_16_1());
}

#[test]
fn golden_16_2_negation() {
    let src = "\
person(\"alice\").
person(\"bob\").
person(\"carol\").
parent(\"alice\", \"bob\").
parent(\"bob\", \"carol\").
root(X) :- person(X), not parent(_, X).
";
    assert_eq!(parse_ok(src), example_16_2());
}

#[test]
fn golden_16_7_named_arguments() {
    let src = "\
import \"data/employees.csv\" as employee(id: int, name: string, age: int, dept: string, title: string, salary: int, city: string, start_date: string).
manager_name(N) :- employee(name: N, title: \"manager\").
declare person(name: string, age: int).
person(\"alice\", 30).
adult(N) :- person(name: N, age: A), A >= 18.
";
    assert_eq!(parse_ok(src), example_16_7());
}

// --- Import forms ---

#[test]
fn module_import_parses_without_as() {
    let program = parse_ok("import \"lib/family.dl\".");
    let StatementKind::Import(import) = &program.statements[0].kind else {
        panic!("expected an import");
    };
    assert_eq!(import.path, "lib/family.dl");
    assert_eq!(import.kind, ImportKind::Module);
}

#[test]
fn table_import_parses_with_selection() {
    let program = parse_ok("import \"analytics.duckdb\" table \"orders\" as order.");
    let StatementKind::Import(import) = &program.statements[0].kind else {
        panic!("expected an import");
    };
    assert_eq!(import.path, "analytics.duckdb");
    let ImportKind::Data { table, relation, schema } = &import.kind else {
        panic!("expected a data import");
    };
    assert_eq!(table.as_ref().map(|(name, _)| name.as_str()), Some("orders"));
    assert_eq!(relation.name, "order");
    assert!(schema.is_none());
}

#[test]
fn table_import_composes_with_an_explicit_schema() {
    let program = parse_ok("import \"db.sqlite\" table \"t\" as t(a: int, b: string).");
    let StatementKind::Import(import) = &program.statements[0].kind else {
        panic!("expected an import");
    };
    let ImportKind::Data { schema, .. } = &import.kind else {
        panic!("expected a data import");
    };
    assert_eq!(schema.as_ref().map(Vec::len), Some(2));
}

#[test]
fn table_stays_an_ordinary_identifier_elsewhere() {
    let program = parse_ok("declare table(kind: symbol).\ntable(dining).\np(X) :- table(X).");
    assert_eq!(program.statements.len(), 3);
    let StatementKind::Declare(declaration) = &program.statements[0].kind else {
        panic!("expected a declare");
    };
    assert_eq!(declaration.relation.name, "table");
}

#[test]
fn import_error_mentions_the_module_alternative() {
    let errors = parse_err("import \"x.csv\" garbage.");
    assert!(
        errors.iter().any(|e| e.render().contains("or `.` for a module import")),
        "got: {errors:?}"
    );
}

// --- Core grammar ---

#[test]
fn comment_markers_and_whitespace_are_ignored() {
    let a = parse_ok("% a comment\np(1).\n# another\n");
    let b = parse_ok("p(1).");
    assert_eq!(a, b);
}

#[test]
fn signed_literals_fold_to_negative_constants() {
    let program = parse_ok("p(-7, -0.5).");
    let StatementKind::Clause(clause) = &program.statements[0].kind else {
        panic!("expected a clause");
    };
    let Args::Positional(args) = &clause.head.args else {
        panic!("positional");
    };
    assert_eq!(
        args[0].kind,
        ExprKind::Term(Term { kind: TermKind::Constant(Constant::Int(-7)), span: dummy() })
    );
    assert_eq!(
        args[1].kind,
        ExprKind::Term(Term {
            kind: TermKind::Constant(Constant::Float(FloatLit { text: "-0.5".to_string() })),
            span: dummy(),
        })
    );
}

#[test]
fn bare_identifier_is_a_symbol_constant() {
    let program = parse_ok("color(red).");
    let StatementKind::Clause(clause) = &program.statements[0].kind else {
        panic!("clause");
    };
    let Args::Positional(args) = &clause.head.args else {
        panic!("positional");
    };
    assert_eq!(
        args[0].kind,
        ExprKind::Term(Term { kind: TermKind::Constant(Constant::Symbol("red".into())), span: dummy() })
    );
}

#[test]
fn presence_test_parses_both_polarities() {
    for (src, want_negated) in [
        ("p(X) :- q(X), X is absent.", false),
        ("p(X) :- q(X), X is not absent.", true),
    ] {
        let program = parse_ok(src);
        let StatementKind::Clause(clause) = &program.statements[0].kind else {
            panic!("clause");
        };
        let LiteralKind::Presence { expr, negated } = &clause.body[1].kind else {
            panic!("expected a presence test, got {:?}", clause.body[1].kind);
        };
        assert_eq!(*negated, want_negated);
        assert!(matches!(expr.kind, ExprKind::Term(Term { kind: TermKind::Variable(_), .. })));
    }
}

#[test]
fn absent_parses_as_a_constant_in_term_position() {
    let program = parse_ok("p(absent).");
    let StatementKind::Clause(clause) = &program.statements[0].kind else {
        panic!("clause");
    };
    let Args::Positional(args) = &clause.head.args else {
        panic!("positional");
    };
    assert_eq!(
        args[0].kind,
        ExprKind::Term(Term { kind: TermKind::Constant(Constant::Absent), span: dummy() })
    );
}

#[test]
fn is_without_absent_is_a_targeted_error() {
    let errors = parse_err("p(X) :- q(X), X is 5.");
    assert!(errors[0].render().contains("absent"), "got: {errors:?}");
}

#[test]
fn absent_is_reserved_and_cannot_name_a_relation() {
    assert!(!parse_err("absent(1).").is_empty());
}

#[test]
fn aggregate_parses_with_the_pipe_separator() {
    let program = parse_ok("child_count(P, N) :- parent(P, _), N = count { C | parent(P, C) }.");
    let StatementKind::Clause(clause) = &program.statements[0].kind else {
        panic!("clause");
    };
    let LiteralKind::Comparison(cmp) = &clause.body[1].kind else {
        panic!("comparison");
    };
    let ExprKind::Aggregate(agg) = &cmp.rhs.kind else {
        panic!("aggregate on the rhs");
    };
    assert_eq!(agg.op, AggOp::Count);
    assert!(
        matches!(&agg.expr.kind, ExprKind::Term(Term { kind: TermKind::Variable(name), .. }) if name == "C"),
        "collected expression is the variable C"
    );
    assert_eq!(agg.goal.len(), 1);
    assert!(matches!(&agg.goal[0].kind, LiteralKind::Atom { negated: false, .. }));
    assert!(agg.params.is_empty(), "no parameters in the v1 five");
}

#[test]
fn aggregate_operator_names_stay_usable_as_relations() {
    let program = parse_ok("count(5).\n?- count(X).");
    let StatementKind::Clause(clause) = &program.statements[0].kind else {
        panic!("clause");
    };
    assert_eq!(clause.head.predicate.name, "count");
}

#[test]
fn aggregate_without_a_pipe_is_a_targeted_error() {
    let errors = parse_err("p(N) :- N = count { C , parent(P, C) }.");
    assert!(errors[0].render().contains('|'), "got: {errors:?}");
}

#[test]
fn a_non_operator_before_a_brace_is_a_targeted_error() {
    let errors = parse_err("p(N) :- N = blah { C | q(C) }.");
    assert!(errors[0].render().contains("aggregate operator"), "got: {errors:?}");
}

#[test]
fn arithmetic_precedence_is_mul_over_add_left_assoc() {
    let program = parse_ok("p(X) :- X = 1 + 2 * 3 - 4.");
    let StatementKind::Clause(clause) = &program.statements[0].kind else {
        panic!("clause");
    };
    let LiteralKind::Comparison(cmp) = &clause.body[0].kind else {
        panic!("comparison");
    };
    let ExprKind::Binary { op: ArithOp::Sub, lhs, rhs } = &cmp.rhs.kind else {
        panic!("outermost is subtraction, got {:?}", cmp.rhs.kind);
    };
    assert!(matches!(rhs.kind, ExprKind::Term(_)), "rhs of Sub is 4");
    let ExprKind::Binary { op: ArithOp::Add, rhs: add_rhs, .. } = &lhs.kind else {
        panic!("lhs is an addition");
    };
    assert!(matches!(add_rhs.kind, ExprKind::Binary { op: ArithOp::Mul, .. }));
}

#[test]
fn disjunction_expands_to_multiple_clauses() {
    let program = parse_ok("p(X) :- a(X) ; b(X).");
    assert_eq!(program.statements.len(), 2);
    for (i, pred) in ["a", "b"].iter().enumerate() {
        let StatementKind::Clause(clause) = &program.statements[i].kind else {
            panic!("clause");
        };
        assert_eq!(clause.head.predicate.name, "p");
        let LiteralKind::Atom { atom, .. } = &clause.body[0].kind else {
            panic!("atom");
        };
        assert_eq!(&atom.predicate.name, pred);
    }
}

#[test]
fn conjunction_binds_tighter_than_disjunction() {
    let program = parse_ok("p(X) :- a(X), b(X) ; c(X).");
    assert_eq!(program.statements.len(), 2);
    let StatementKind::Clause(first) = &program.statements[0].kind else {
        panic!("clause");
    };
    assert_eq!(first.body.len(), 2, "first disjunct is the conjunction a, b");
    let StatementKind::Clause(second) = &program.statements[1].kind else {
        panic!("clause");
    };
    assert_eq!(second.body.len(), 1, "second disjunct is c");
}

#[test]
fn inline_arithmetic_in_atom_args_parses() {
    let program = parse_ok("succ(N, N + 1) :- number(N).");
    let StatementKind::Clause(clause) = &program.statements[0].kind else {
        panic!("clause");
    };
    let Args::Positional(args) = &clause.head.args else {
        panic!("positional");
    };
    assert!(matches!(args[1].kind, ExprKind::Binary { .. }), "second head arg is an inline expression");
}

#[test]
fn named_and_positional_facts_both_parse() {
    assert!(parse("person(\"alice\", 30).").is_ok());
    assert!(parse("declare person(name: string, age: int).\nperson(name: \"alice\", age: 30).").is_ok());
}

// --- Structured errors ---

fn asserts_message(src: &str, needle: &str) {
    let errors = parse_err(src);
    assert!(
        errors.iter().any(|e| e.render().contains(needle)),
        "for {src:?} expected a message containing {needle:?}, got {errors:?}"
    );
}

#[test]
fn uppercase_relation_name_is_reported_with_a_hint() {
    asserts_message("Parent(X, Y) :- edge(X, Y).", "relation names must be lowercase");
}

#[test]
fn missing_terminator_is_reported() {
    asserts_message("p(1)", "`.`");
}

#[test]
fn zero_arity_atom_is_rejected() {
    asserts_message("p().", "at least one argument");
}

#[test]
fn mixed_argument_styles_are_rejected() {
    asserts_message("p(1, name: X).", "mix positional and named");
}

#[test]
fn not_before_a_comparison_is_rejected() {
    asserts_message("p(X) :- q(X), not X < 3.", "negation applies to atoms");
}

#[test]
fn chained_comparison_is_rejected() {
    asserts_message("p(X) :- q(X), 0 <= X <= 9.", "comparisons do not chain");
}

#[test]
fn trailing_comma_is_rejected() {
    asserts_message("p(1, 2,).", "trailing `,`");
}

#[test]
fn compound_term_is_rejected() {
    asserts_message("p(f(1)).", "compound terms are not supported");
}

#[test]
fn grouped_expression_is_rejected_with_the_decomposition_hint() {
    asserts_message("r(X) :- n(Y), X = (Y + 1) * 2.", "parentheses are not supported in expressions");
    asserts_message("r(X) :- n(Y), X = (Y + 1) * 2.", "T = A + B, X = T * C");
    asserts_message("double(N, (N + N)) :- n(N).", "parentheses are not supported");
}

#[test]
fn prefix_minus_on_a_variable_is_rejected() {
    asserts_message("p(X) :- Y = -X, q(Y).", "prefix `-` applies only to a numeric literal");
}

#[test]
fn recovery_collects_multiple_errors_in_one_run() {
    let errors = parse_err("Parent(X).\np(1)\nq(2).");
    assert!(errors.len() >= 2, "expected multiple errors, got {errors:?}");
}

#[test]
fn operator_near_misses_from_the_lexer_surface_through_parse() {
    asserts_message("p(X) :- q(X), X =< 3.", "did you mean `<=`?");
}

#[test]
fn casts_temporal_literals_and_named_queries_parse() {
    let program = parse_ok("p(X) :- q(Y), X = Y as float.\nd(@2026-08-19).\n?- adults: p(X).");
    assert_eq!(program.statements.len(), 3);
    let StatementKind::Clause(clause) = &program.statements[0].kind else {
        panic!("clause");
    };
    let LiteralKind::Comparison(cmp) = &clause.body[1].kind else {
        panic!("comparison");
    };
    assert!(matches!(cmp.rhs.kind, ExprKind::Cast { ty: TypeName::Float, .. }));
    let StatementKind::Query(query) = &program.statements[2].kind else {
        panic!("query");
    };
    assert_eq!(query.name.as_ref().map(|n| n.name.as_str()), Some("adults"));
}

#[test]
fn parsing_arbitrary_text_never_panics() {
    let samples = [
        "", ".", "?-", ":-", "p(", "p(1", "p(1,", "\"unterminated", "@", "@x(", "p(X) :- X = count {",
        "import", "import \"x\" table", "declare p(", "p(X) :- X = 1 +", "9999999999999999999999(1).",
        "p(\"\\q\").", "\\+ p(1).", "!p(1).", "p(X) :- X \\= 1.", "é(1).", "p(1) :- q(1);", "?- a: .",
    ];
    for src in samples {
        let _ = parse(src);
    }
}

// --- Printing round trips over the corpus ---

/// Printing a program and re-parsing the text gives a program that prints to
/// the same text (the canonical form is a fixpoint).
fn round_trips(program: &Program) {
    let text = datalog::print::print_program(program);
    let reparsed = parse(&text).unwrap_or_else(|e| panic!("re-parse failed for:\n{text}\n{e:?}"));
    assert_eq!(datalog::print::print_program(&reparsed), text);
}

#[test]
fn corpus_round_trips() {
    round_trips(&example_16_1());
    round_trips(&example_16_2());
    round_trips(&example_16_7());
}

#[test]
fn reparsed_corpus_equals_its_fixture() {
    for fixture in [example_16_1(), example_16_2(), example_16_7()] {
        let text = datalog::print::print_program(&fixture);
        assert_eq!(parse_ok(&text), fixture);
    }
}

#[test]
fn nested_grouping_prints_its_parentheses() {
    let bin = |op: ArithOp, lhs: Expr, rhs: Expr| Expr {
        kind: ExprKind::Binary { op, lhs: Box::new(lhs), rhs: Box::new(rhs) },
        span: dummy(),
    };
    let right_nested = bin(ArithOp::Sub, var("A"), bin(ArithOp::Sub, var("B"), var("C")));
    let looser_child = bin(ArithOp::Mul, bin(ArithOp::Add, var("A"), var("B")), var("C"));
    let cast_of_sum = Expr {
        kind: ExprKind::Cast { expr: Box::new(bin(ArithOp::Add, var("A"), var("B"))), ty: TypeName::Float },
        span: dummy(),
    };
    let program = Program {
        statements: vec![clause(
            atom("r", vec![var("X"), var("Y"), var("Z")]),
            vec![pos(atom("p", vec![right_nested, looser_child, cast_of_sum]))],
        )],
    };
    assert_eq!(
        datalog::print::print_program(&program),
        "r(X, Y, Z) :- p(A - (B - C), (A + B) * C, (A + B) as float).\n"
    );
}

#[test]
fn queries_are_appended_as_goals_or_as_defined_rules() {
    let text = datalog::query::compose(
        "p(1).",
        &["p(X)".to_string(), "q(X) :- p(X). ".to_string(), " p(1)..".to_string()],
    );
    assert_eq!(text, "p(1).\n?- p(X).\nq(X) :- p(X).\n?- q(X).\n?- p(1).\n");
}

#[test]
fn imports_declarations_and_facts_parse_in_order() {
    let program = parse("import \"people.csv\" as person.\ndeclare b(x: int).\nb(1).\n").expect("parses");
    assert_eq!(program.statements.len(), 3);
    match &program.statements[0].kind {
        StatementKind::Import(import) => assert_eq!(import.path, "people.csv"),
        other => panic!("expected an import, got {other:?}"),
    }
    assert!(matches!(program.statements[1].kind, StatementKind::Declare(_)));
    assert!(matches!(program.statements[2].kind, StatementKind::Clause(_)));
}

#[test]
fn a_rule_over_positive_atoms_parses_to_its_head_and_body() {
    let program = parse("t(X, Z) :- t(X, Y), e(Y, Z).\n").expect("parses");
    assert_eq!(program.statements.len(), 1);
    let StatementKind::Clause(clause) = &program.statements[0].kind else {
        panic!("expected a clause");
    };
    assert_eq!(clause.head.predicate.name, "t");
    assert_eq!(clause.body.len(), 2);
    match &clause.body[1].kind {
        LiteralKind::Atom { negated, atom } => {
            assert!(!negated);
            assert_eq!(atom.predicate.name, "e");
        }
        other => panic!("expected an atom, got {other:?}"),
    }
}

#[test]
fn a_query_over_positive_atoms_parses_to_its_body() {
    let program = parse("?- t(X, Y), e(Y, 3).\n").expect("parses");
    assert_eq!(program.statements.len(), 1);
    let StatementKind::Query(query) = &program.statements[0].kind else {
        panic!("expected a query");
    };
    assert!(query.name.is_none());
    assert_eq!(query.body.len(), 2);
}

#[test]
fn a_negated_atom_in_a_rule_body_parses_as_negated() {
    let program = parse("orphan(X) :- person(X), not parent(_, X).\n").expect("parses");
    let StatementKind::Clause(clause) = &program.statements[0].kind else {
        panic!("expected a clause");
    };
    assert_eq!(clause.body.len(), 2);
    assert!(matches!(clause.body[1].kind, LiteralKind::Atom { negated: true, .. }));
}

#[test]
fn a_comparison_in_a_rule_body_keeps_its_operator_and_sides() {
    let program = parse("big(X) :- n(X), X > 10.\n").expect("parses");
    let StatementKind::Clause(clause) = &program.statements[0].kind else {
        panic!("expected a clause");
    };
    match &clause.body[1].kind {
        LiteralKind::Comparison(c) => assert_eq!(c.op, CmpOp::Gt),
        other => panic!("expected a comparison, got {other:?}"),
    }
}

#[test]
fn a_disjunctive_rule_becomes_one_clause_per_disjunct() {
    let program = parse("p(X) :- a(X), b(X) ; c(X).\n").expect("parses");
    assert_eq!(program.statements.len(), 2);
    let bodies: Vec<usize> = program
        .statements
        .iter()
        .map(|s| match &s.kind {
            StatementKind::Clause(c) => c.body.len(),
            _ => panic!("expected clauses"),
        })
        .collect();
    assert_eq!(bodies, vec![2, 1]);
    assert_eq!(program.statements[0].span, program.statements[1].span);
}
