use datalog::ast::{FieldDecl, FloatLit, Ident, Span, TypeName};
use datalog::error::Error;
use datalog::ir::Value;
use datalog::lexer::{classify_cell, CellClass};
use datalog::sources::table::{finalize, RawTable, RawValue};
use datalog::sources::LoadedTable;

fn text_row(cells: &[&str]) -> Vec<RawValue> {
    cells.iter().map(|c| RawValue::Text(c.to_string())).collect()
}

fn csv(rows: &[&[&str]]) -> RawTable {
    RawTable {
        columns: None,
        rows: rows.iter().map(|r| text_row(r)).collect(),
    }
}

fn field(name: &str, ty: Option<TypeName>) -> FieldDecl {
    FieldDecl {
        name: Ident {
            name: name.to_string(),
            span: Span::dummy(),
        },
        ty,
        span: Span::dummy(),
    }
}

fn float(text: &str) -> Value {
    Value::Float(FloatLit {
        text: text.to_string(),
    })
}

fn ok(table: RawTable, schema: Option<&[FieldDecl]>) -> LoadedTable {
    finalize(table, schema, "test.csv").expect("finalize succeeds")
}

fn err(table: RawTable, schema: Option<&[FieldDecl]>) -> Vec<Error> {
    finalize(table, schema, "test.csv").expect_err("finalize fails")
}

fn typed(columns: &[&str], rows: Vec<Vec<RawValue>>) -> RawTable {
    RawTable {
        columns: Some(columns.iter().map(|c| c.to_string()).collect()),
        rows,
    }
}

#[test]
fn all_int_column_infers_int() {
    let table = ok(csv(&[&["n"], &["1"], &["-42"], &["007"]]), None);
    assert_eq!(
        table.rows,
        vec![vec![Value::Int(-42)], vec![Value::Int(1)], vec![Value::Int(7)]]
    );
}

#[test]
fn int_float_mix_widens_to_float() {
    let table = ok(csv(&[&["x"], &["1"], &["2.5"]]), None);
    assert_eq!(table.rows, vec![vec![float("1.0")], vec![float("2.5")]]);
}

#[test]
fn bool_column_infers_bool_only_on_exact_literals() {
    let table = ok(csv(&[&["b"], &["true"], &["false"]]), None);
    assert_eq!(
        table.rows,
        vec![vec![Value::Bool(false)], vec![Value::Bool(true)]]
    );

    let table = ok(csv(&[&["b"], &["TRUE"], &["false"]]), None);
    assert_eq!(
        table.rows,
        vec![
            vec![Value::String("TRUE".to_string())],
            vec![Value::String("false".to_string())],
        ]
    );
}

#[test]
fn absent_cell_is_type_neutral_and_keeps_the_column_typed() {
    let table = ok(
        RawTable {
            columns: None,
            rows: vec![
                text_row(&["n"]),
                text_row(&["1"]),
                vec![RawValue::Absent],
                text_row(&["3"]),
            ],
        },
        None,
    );
    assert_eq!(
        table.rows,
        vec![vec![Value::Absent], vec![Value::Int(1)], vec![Value::Int(3)]]
    );
}

#[test]
fn a_quoted_empty_string_cell_stays_a_string() {
    let table = ok(csv(&[&["n"], &["1"], &[""]]), None);
    assert_eq!(
        table.rows,
        vec![
            vec![Value::String(String::new())],
            vec![Value::String("1".to_string())],
        ]
    );
}

#[test]
fn an_all_absent_column_materializes_all_absent() {
    let table = ok(
        RawTable {
            columns: None,
            rows: vec![
                text_row(&["c"]),
                vec![RawValue::Absent],
                vec![RawValue::Absent],
            ],
        },
        None,
    );
    assert_eq!(table.rows, vec![vec![Value::Absent]]);
}

#[test]
fn non_literal_spellings_stay_verbatim_strings() {
    let table = ok(csv(&[&["x"], &["NaN"], &["inf"], &["1 2"]]), None);
    let strings: Vec<&Value> = table.rows.iter().map(|r| &r[0]).collect();
    assert_eq!(
        strings,
        [
            &Value::String("1 2".to_string()),
            &Value::String("NaN".to_string()),
            &Value::String("inf".to_string()),
        ]
    );
}

#[test]
fn scientific_notation_is_a_float_literal_iff_the_lexer_says_so() {
    let cell = "1e5";
    let lexes_as_float = matches!(classify_cell(cell), CellClass::Float(_));
    let table = ok(csv(&[&["x"], &[cell]]), None);
    match &table.rows[0][0] {
        Value::Float(_) => assert!(lexes_as_float),
        Value::String(s) => {
            assert!(!lexes_as_float);
            assert_eq!(s, cell);
        }
        other => panic!("unexpected value {other:?}"),
    }
}

#[test]
fn whitespace_padding_follows_the_lexer() {
    let table = ok(csv(&[&["n"], &[" 42 "]]), None);
    assert_eq!(table.rows, vec![vec![Value::Int(42)]]);
}

#[test]
fn explicit_string_keeps_a_numeric_cell_verbatim() {
    let schema = [field("code", Some(TypeName::String))];
    let table = ok(csv(&[&["42"]]), Some(&schema));
    assert_eq!(table.rows, vec![vec![Value::String("42".to_string())]]);
}

#[test]
fn explicit_symbol_reads_bare_identifiers() {
    let schema = [field("color", Some(TypeName::Symbol))];
    let table = ok(csv(&[&["red"], &["blue"]]), Some(&schema));
    assert_eq!(
        table.rows,
        vec![
            vec![Value::Symbol("blue".to_string())],
            vec![Value::Symbol("red".to_string())],
        ]
    );

    let errors = err(csv(&[&["Red"]]), Some(&schema));
    assert!(
        errors[0].render().contains("not a symbol"),
        "got: {errors:?}"
    );
}

#[test]
fn absent_is_exempt_from_a_declared_type_but_real_violations_still_error() {
    let schema = [field("age", Some(TypeName::Int))];
    let table = ok(
        RawTable {
            columns: None,
            rows: vec![vec![RawValue::Int(30)], vec![RawValue::Absent]],
        },
        Some(&schema),
    );
    assert_eq!(table.rows, vec![vec![Value::Absent], vec![Value::Int(30)]]);
    let errors = err(csv(&[&["30"], &["abc"]]), Some(&schema));
    assert!(
        errors[0].render().contains("not an int"),
        "got: {errors:?}"
    );
}

#[test]
fn explicit_int_reports_the_offending_cell_row_and_column() {
    let schema = [field("age", Some(TypeName::Int))];
    let errors = err(csv(&[&["30"], &["abc"]]), Some(&schema));
    let message = errors[0].render();
    assert!(message.contains("row 2"), "got: {message}");
    assert!(message.contains("column `age`"), "got: {message}");
    assert!(message.contains("`abc` is not an int"), "got: {message}");
}

#[test]
fn explicit_float_widens_int_cells() {
    let schema = [field("x", Some(TypeName::Float))];
    let table = ok(csv(&[&["1"], &["2.5"]]), Some(&schema));
    assert_eq!(table.rows, vec![vec![float("1.0")], vec![float("2.5")]]);
}

#[test]
fn header_is_skipped_iff_it_equals_the_schema_field_names() {
    let schema = [
        field("parent", Some(TypeName::String)),
        field("child", Some(TypeName::String)),
    ];
    let table = ok(
        csv(&[&["parent", "child"], &["alice", "bob"]]),
        Some(&schema),
    );
    assert_eq!(table.rows.len(), 1);

    let table = ok(csv(&[&["eve", "adam"], &["alice", "bob"]]), Some(&schema));
    assert_eq!(table.rows.len(), 2);
}

#[test]
fn untyped_schema_fields_still_infer() {
    let schema = [field("n", None)];
    let table = ok(csv(&[&["1"], &["2"]]), Some(&schema));
    assert_eq!(table.rows, vec![vec![Value::Int(1)], vec![Value::Int(2)]]);
}

#[test]
fn header_names_become_fields() {
    let table = ok(csv(&[&["parent", "child"], &["alice", "bob"]]), None);
    assert_eq!(table.fields, ["parent", "child"]);
}

#[test]
fn an_empty_file_needs_a_header_or_schema() {
    let errors = err(csv(&[]), None);
    assert!(errors[0].render().contains("empty"), "got: {errors:?}");
    let schema = [field("a", Some(TypeName::Int))];
    let table = ok(csv(&[]), Some(&schema));
    assert!(table.rows.is_empty());
    assert_eq!(table.fields, ["a"]);
}

#[test]
fn a_self_describing_source_with_no_records_needs_a_schema() {
    let empty = || RawTable {
        columns: Some(Vec::new()),
        rows: Vec::new(),
    };
    let errors = err(empty(), None);
    assert!(
        errors[0].render().contains("no records"),
        "got: {errors:?}"
    );
    let schema = [field("a", Some(TypeName::Int)), field("b", None)];
    let table = ok(empty(), Some(&schema));
    assert!(table.rows.is_empty());
    assert_eq!(table.fields, ["a", "b"]);
}

#[test]
fn a_header_only_file_is_a_legal_empty_table() {
    let table = ok(csv(&[&["a", "b"]]), None);
    assert!(table.rows.is_empty());
    assert_eq!(table.fields, ["a", "b"]);
}

#[test]
fn illegal_header_names_suggest_an_explicit_schema() {
    for bad in ["First Name", "AGE", "import", "1st"] {
        let errors = err(csv(&[&[bad], &["x"]]), None);
        assert!(
            errors[0].render().contains("explicit"),
            "for {bad:?}, got: {errors:?}"
        );
    }
}

#[test]
fn a_lossy_int_to_float_widening_is_rejected() {
    let errors = err(csv(&[&["v"], &["9007199254740993"], &["2.5"]]), None);
    let message = errors[0].render();
    assert!(
        message.contains("9007199254740993") && message.contains("losing precision"),
        "got: {message}"
    );
}

#[test]
fn an_exact_int_to_float_widening_is_allowed() {
    let table = ok(csv(&[&["v"], &["9007199254740992"], &["2.5"]]), None);
    assert_eq!(
        table.rows,
        vec![vec![float("2.5")], vec![float("9007199254740992.0")]]
    );
}

#[test]
fn an_all_int_column_keeps_large_values_exactly() {
    let table = ok(csv(&[&["v"], &["9007199254740993"]]), None);
    assert_eq!(table.rows[0][0], Value::Int(9007199254740993));
}

#[test]
fn duplicate_header_names_are_an_error() {
    let errors = err(csv(&[&["a", "a"], &["1", "2"]]), None);
    assert!(
        errors[0].render().contains("duplicate"),
        "got: {errors:?}"
    );
}

#[test]
fn ragged_rows_report_their_row_number() {
    let errors = err(csv(&[&["a", "b"], &["1", "2"], &["3"]]), None);
    let message = errors[0].render();
    assert!(message.contains("row 3"), "got: {message}");
    assert!(
        message.contains("1 column(s), expected 2"),
        "got: {message}"
    );
}

#[test]
fn json_strings_are_never_reinferred() {
    let table = ok(
        typed(
            &["code"],
            vec![
                vec![RawValue::Str("42".to_string())],
                vec![RawValue::Str("true".to_string())],
            ],
        ),
        None,
    );
    assert_eq!(
        table.rows,
        vec![
            vec![Value::String("42".to_string())],
            vec![Value::String("true".to_string())],
        ]
    );
}

#[test]
fn typed_int_float_mix_widens() {
    let table = ok(
        typed(
            &["x"],
            vec![
                vec![RawValue::Int(1)],
                vec![RawValue::Float(FloatLit {
                    text: "2.5".to_string(),
                })],
            ],
        ),
        None,
    );
    assert_eq!(table.rows, vec![vec![float("1.0")], vec![float("2.5")]]);
}

#[test]
fn typed_string_number_mix_is_an_error_not_a_fallback() {
    let errors = err(
        typed(
            &["x"],
            vec![vec![RawValue::Int(1)], vec![RawValue::Str("x".to_string())]],
        ),
        None,
    );
    assert!(errors[0].render().contains("mixes"), "got: {errors:?}");
}

#[test]
fn explicit_schema_binds_typed_sources_by_name_in_schema_order() {
    let schema = [
        field("b", Some(TypeName::Int)),
        field("a", Some(TypeName::Int)),
    ];
    let table = ok(
        typed(&["a", "b"], vec![vec![RawValue::Int(1), RawValue::Int(2)]]),
        Some(&schema),
    );
    assert_eq!(table.fields, ["b", "a"]);
    assert_eq!(table.rows, vec![vec![Value::Int(2), Value::Int(1)]]);
}

#[test]
fn schema_source_field_set_mismatch_names_both_sides() {
    let schema = [field("z", Some(TypeName::Int))];
    let errors = err(typed(&["a"], vec![vec![RawValue::Int(1)]]), Some(&schema));
    let all = errors
        .iter()
        .map(|e| e.render())
        .collect::<Vec<_>>()
        .join("\n");
    assert!(all.contains("names `z`"), "got: {all}");
    assert!(all.contains("field `a`"), "got: {all}");
}

#[test]
fn rows_are_sorted_and_deduplicated() {
    let table = ok(csv(&[&["n"], &["2"], &["1"], &["2"]]), None);
    assert_eq!(table.rows, vec![vec![Value::Int(1)], vec![Value::Int(2)]]);
}

// Beyond the cases above.

#[test]
fn values_of_different_kinds_sort_by_kind() {
    let table = ok(
        typed(
            &["v"],
            vec![
                vec![RawValue::Str("b".to_string())],
                vec![RawValue::Absent],
                vec![RawValue::Str("a".to_string())],
            ],
        ),
        Some(&[field("v", Some(TypeName::String))]),
    );
    assert_eq!(
        table.rows,
        vec![
            vec![Value::Absent],
            vec![Value::String("a".to_string())],
            vec![Value::String("b".to_string())],
        ]
    );
}

#[test]
fn rows_order_by_their_first_differing_cell() {
    let table = ok(
        csv(&[&["a", "b"], &["1", "9"], &["1", "2"], &["0", "5"], &["1", "2"]]),
        None,
    );
    assert_eq!(
        table.rows,
        vec![
            vec![Value::Int(0), Value::Int(5)],
            vec![Value::Int(1), Value::Int(2)],
            vec![Value::Int(1), Value::Int(9)],
        ]
    );
}

#[test]
fn a_typed_date_widens_into_a_timestamp_column() {
    let date = datalog::temporal::parse_date("2024-01-02").expect("a date");
    let stamp = datalog::temporal::parse_timestamp("2024-01-02T03:04:05").expect("a timestamp");
    let table = ok(
        typed(
            &["t"],
            vec![vec![RawValue::Date(date)], vec![RawValue::Timestamp(stamp)]],
        ),
        None,
    );
    assert_eq!(
        table.rows,
        vec![
            vec![Value::Timestamp(date.at_midnight())],
            vec![Value::Timestamp(stamp)],
        ]
    );
}

#[test]
fn a_ragged_self_describing_row_is_refused() {
    let errors = err(
        typed(&["a", "b"], vec![vec![RawValue::Int(1)]]),
        None,
    );
    assert!(
        errors[0].render().contains("1 column(s), expected 2"),
        "got: {errors:?}"
    );
}

#[test]
fn an_illegal_schema_field_name_is_refused() {
    let schema = [field("Bad", Some(TypeName::Int))];
    let errors = err(csv(&[&["1"]]), Some(&schema));
    assert!(errors[0].render().contains("`Bad`"), "got: {errors:?}");
}
