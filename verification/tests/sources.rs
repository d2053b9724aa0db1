use datalog::sources::formats::{
    first_record_shape, parquet_column, sql_ident, sql_string, unescape_json_string, TemporalColumn,
};
use datalog::sources::{has_database_extension, is_url, load_table, url_path_part};

#[test]
fn database_paths_and_table_clauses_are_reserved() {
    for (path, table) in [
        ("analytics.duckdb", None),
        ("things.sqlite", None),
        ("data.csv", Some("orders")),
    ] {
        let errors = load_table(path, table, None).expect_err("reserved");
        assert!(
            errors[0].render().contains("not yet implemented"),
            "got: {errors:?}"
        );
    }
}

#[test]
fn a_url_dispatches_on_its_path_extension_ignoring_the_query_string() {
    assert_eq!(
        url_path_part("https://h.com/a.csv?token=x"),
        "https://h.com/a.csv"
    );
    assert_eq!(
        url_path_part("https://h.com/a.parquet#frag"),
        "https://h.com/a.parquet"
    );
}

#[test]
fn a_url_with_an_unsupported_extension_is_rejected_before_any_network() {
    let errors =
        load_table("https://example.com/data.xlsx", None, None).expect_err("unsupported url");
    assert!(
        errors[0].render().contains("unsupported import format"),
        "got: {errors:?}"
    );
}

#[test]
fn a_dl_path_in_data_position_suggests_the_module_form() {
    let errors = load_table("lib/family.dl", None, None).expect_err("module path");
    assert!(
        errors[0].render().contains("drop the `as` clause"),
        "got: {errors:?}"
    );
}

#[test]
fn unknown_extensions_list_the_supported_formats() {
    let errors = load_table("data.xlsx", None, None).expect_err("unsupported");
    assert!(
        errors[0].render().contains("unsupported import format"),
        "got: {errors:?}"
    );
}

#[test]
fn a_supported_format_is_refused_by_a_build_without_a_reader() {
    for path in ["data.csv", "DATA.JSONL", "x.ndjson", "https://h.com/t.parquet?x=1"] {
        let errors = load_table(path, None, None).expect_err("no reader");
        assert!(errors[0].render().contains("no import support"), "got: {errors:?}");
    }
}

#[test]
fn url_and_database_recognition() {
    assert!(is_url("https://example.com/a.csv"));
    assert!(is_url("http://example.com/a.csv"));
    assert!(!is_url("ftp://example.com/a.csv"));
    assert!(!is_url("data/a.csv"));
    assert!(has_database_extension("A.DuckDB"));
    assert!(has_database_extension("x.sqlite3"));
    assert!(!has_database_extension("x.csv"));
}

#[test]
fn json_string_unescaping_covers_the_escape_table() {
    assert_eq!(unescape_json_string("\"a\"").unwrap(), "a");
    assert_eq!(
        unescape_json_string("\"a\\\"b\\\\c\\/d\\n\\t\\r\\b\\f\"").unwrap(),
        "a\"b\\c/d\n\t\r\u{0008}\u{000C}"
    );
    assert_eq!(unescape_json_string("\"\\u0041\"").unwrap(), "A");
    // A surrogate pair.
    assert_eq!(unescape_json_string("\"\\uD83D\\uDE00\"").unwrap(), "😀");
    assert!(unescape_json_string("\"\\uD83D\"").is_err());
    assert!(unescape_json_string("\"\\q\"").is_err());
}

#[test]
fn json_string_errors_name_what_is_wrong() {
    assert_eq!(unescape_json_string("\"\\q\"").unwrap_err(), "invalid JSON escape `\\q`");
    assert_eq!(unescape_json_string("\"\\uD83D\"").unwrap_err(), "unpaired surrogate in JSON string");
    assert_eq!(unescape_json_string("\"\\uDE00\"").unwrap_err(), "invalid \\u escape in JSON string");
    assert_eq!(unescape_json_string("\"\\u12\"").unwrap_err(), "invalid \\u escape in JSON string");
    assert_eq!(unescape_json_string("abc").unwrap_err(), "malformed JSON string `abc`");
    assert_eq!(unescape_json_string("\"").unwrap_err(), "malformed JSON string `\"`");
}

#[test]
fn the_first_csv_record_gives_width_and_terminator() {
    assert_eq!(first_record_shape(b"a,b,c\n1,2,3\n"), (3, "\\n"));
    assert_eq!(first_record_shape(b"a,\"b,\nc\"\r\n1,2\r\n"), (2, "\\r\\n"));
    assert_eq!(first_record_shape(b"\"a\"\"b\",c"), (2, "\\n"));
    assert_eq!(first_record_shape(b""), (1, "\\n"));
}

#[test]
fn sql_quoting_doubles_the_quote() {
    assert_eq!(sql_string("it's"), "'it''s'");
    assert_eq!(sql_ident("a\"b"), "\"a\"\"b\"");
}

#[test]
fn parquet_columns_select_directly_or_through_a_cast() {
    let (select, temporal) = parquet_column("t.parquet", "n", "bigint").expect("an int column");
    assert_eq!(select, "\"n\"");
    assert_eq!(temporal, None);
    let (select, _) = parquet_column("t.parquet", "price", "DECIMAL(10,2)").expect("a decimal column");
    assert_eq!(select, "CAST(\"price\" AS DOUBLE)");
    let (select, temporal) = parquet_column("t.parquet", "d", "DATE").expect("a date column");
    assert_eq!(select, "CAST(\"d\" AS VARCHAR)");
    assert_eq!(temporal, Some(TemporalColumn::Date));
    let (select, temporal) = parquet_column("t.parquet", "at", "TIMESTAMP WITH TIME ZONE").expect("a timestamp column");
    assert_eq!(select, "CAST(\"at\" AS VARCHAR)");
    assert_eq!(temporal, Some(TemporalColumn::Timestamp));
}

#[test]
fn a_parquet_column_of_no_value_type_is_refused() {
    let e = parquet_column("t.parquet", "blob", "blob").expect_err("a blob maps onto nothing");
    assert_eq!(
        e.message,
        "`t.parquet`: column `blob` has type BLOB, which does not map onto the value types (symbol/string/int/float/bool)"
    );
}
