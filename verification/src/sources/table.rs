//! Typing a source's raw table into a fact table.
//!
//! Readers read; this module types. An untyped (CSV) cell is typed by the
//! language's own literal grammar: it is an int, float or bool exactly when
//! the lexer reads it as that literal, a date or timestamp when it parses as
//! one, and a string otherwise, so an import means the facts its cells would
//! be as in-program literals. Typed sources (JSON, Parquet, databases) are
//! their own authority. The result has legal, distinct field names, rows of
//! the table's arity, one type per column, and its rows sorted with no
//! duplicates (set semantics at import).
use vstd::prelude::*;

use crate::ast::{FieldDecl, FloatLit, TypeName};
use crate::error::{Error, ErrorCode, ErrorKind};
use crate::ir::{Value, ValueView};
use crate::lexer::{classify_cell, classify_symbol, CellClass};
use crate::sources::LoadedTable;
use crate::lower::{lemma_str_lt_irrefl, lemma_str_lt_total, lemma_str_lt_trans, spec_str_lt, str_lt};
use crate::text::{chars_of, push_str, str_equal, to_owned};

verus! {

/// A reader's table before typing. `columns` names the fields of a
/// self-describing source and is `None` for CSV, whose header is decided here.
#[derive(Debug)]
pub struct RawTable {
    pub columns: Option<Vec<String>>,
    pub rows: Vec<Vec<RawValue>>,
}

/// One cell as a reader produced it. `Text` is an untyped CSV cell, typed by
/// the literal grammar; the other variants come from sources that type their
/// own cells, and a `Str` stays a string. A float is held as its decimal text.
#[derive(Debug, Clone, PartialEq)]
pub enum RawValue {
    Text(String),
    Str(String),
    Int(i64),
    Float(FloatLit),
    Bool(bool),
    Date(crate::temporal::Date),
    Timestamp(crate::temporal::Timestamp),
    /// A missing value: an empty CSV cell, a missing JSON key or `null`, a
    /// database `NULL`. It fits any column and becomes `absent`.
    Absent,
}

/// The content of a reader's cell.
pub enum RawValueView {
    Text(Seq<char>),
    Str(Seq<char>),
    Int(int),
    Float(Seq<char>),
    Bool(bool),
    Date(int),
    Timestamp(int),
    Absent,
}

impl View for RawValue {
    type V = RawValueView;

    open spec fn view(&self) -> RawValueView {
        match self {
            RawValue::Text(t) => RawValueView::Text(t@),
            RawValue::Str(t) => RawValueView::Str(t@),
            RawValue::Int(n) => RawValueView::Int(*n as int),
            RawValue::Float(f) => RawValueView::Float(f.text@),
            RawValue::Bool(b) => RawValueView::Bool(*b),
            RawValue::Date(d) => RawValueView::Date(d@),
            RawValue::Timestamp(t) => RawValueView::Timestamp(t@),
            RawValue::Absent => RawValueView::Absent,
        }
    }
}

/// A reader's row, cell by cell.
pub open spec fn spec_raw_row(row: Vec<RawValue>) -> Seq<RawValueView> {
    row@.map_values(|v: RawValue| v@)
}

/// A value fits a column type: `absent` fits every column, any other value
/// the column of its own type.
pub open spec fn spec_conforms(v: ValueView, ty: TypeName) -> bool {
    match v {
        ValueView::Absent => true,
        ValueView::Symbol(_) => ty == TypeName::Symbol,
        ValueView::String(_) => ty == TypeName::String,
        ValueView::Int(_) => ty == TypeName::Int,
        ValueView::Float(_) => ty == TypeName::Float,
        ValueView::Bool(_) => ty == TypeName::Bool,
        ValueView::Date(_) => ty == TypeName::Date,
        ValueView::Timestamp(_) => ty == TypeName::Timestamp,
        ValueView::Duration(_) => ty == TypeName::Duration,
    }
}

/// Every error is an import error.
pub open spec fn all_source(errors: Seq<Error>) -> bool {
    forall|i: int| 0 <= i < errors.len() ==> (#[trigger] errors[i]).kind == ErrorKind::Source
}

fn source_error(code: ErrorCode, message: String) -> (r: Error)
    ensures
        r.kind == ErrorKind::Source,
{
    Error::new(code, message)
}

fn push_error(errors: &mut Vec<Error>, e: Error)
    requires
        all_source(old(errors)@),
        e.kind == ErrorKind::Source,
    ensures
        all_source(final(errors)@),
        final(errors)@.len() == old(errors)@.len() + 1,
{
    errors.push(e);
    assert(forall|i: int| 0 <= i < old(errors)@.len() ==> errors@[i] == old(errors)@[i]);
}

fn cat(parts: &[&str]) -> (r: String)
    ensures
        r@ == crate::lower::spec_concat(parts@.map_values(|p: &str| p@)),
{
    let ghost all = parts@.map_values(|p: &str| p@);
    let mut out = String::new();
    let mut i: usize = 0;
    while i < parts.len()
        invariant
            i <= parts.len(),
            all == parts@.map_values(|p: &str| p@),
            out@ == crate::lower::spec_concat(all.take(i as int)),
        decreases parts.len() - i,
    {
        push_str(&mut out, parts[i]);
        proof {
            assert(all.take(i + 1).drop_last() =~= all.take(i as int));
        }
        i += 1;
    }
    assert(all.take(all.len() as int) =~= all);
    out
}

fn num(n: u64) -> (r: String)
    ensures
        r@ == crate::text::decimal(n as nat),
{
    let digits = crate::text::decimal_chars(n);
    crate::text::string_of(digits.as_slice())
}

/// `n + 1` as a message's row or field number.
fn ordinal(n: usize) -> (r: String)
    ensures
        r@ == crate::text::decimal(if n < u64::MAX { (n + 1) as nat } else { n as nat }),
{
    let x: u64 = n as u64;
    if x < 0xffff_ffff_ffff_ffff {
        num(x + 1)
    } else {
        num(x)
    }
}

fn join_names(items: &Vec<String>) -> (r: String)
    ensures
        r@ == crate::text::comma_joined(spec_names(items@)),
{
    let ghost all = spec_names(items@);
    let mut out = String::new();
    let mut i: usize = 0;
    while i < items.len()
        invariant
            i <= items@.len(),
            all == spec_names(items@),
            out@ == crate::text::comma_joined(all.take(i as int)),
        decreases items.len() - i,
    {
        if i > 0 {
            push_str(&mut out, ", ");
        }
        push_str(&mut out, items[i].as_str());
        proof {
            reveal_strlit(", ");
            assert(all.take(i + 1).drop_last() =~= all.take(i as int));
            assert(all.take(i + 1).last() == items@[i as int]@);
            if i == 0 {
                assert(out@ =~= all.take(1)[0]);
            }
        }
        i += 1;
    }
    assert(all.take(all.len() as int) =~= all);
    out
}

/// How a message names a type.
pub open spec fn spec_type_label(ty: TypeName) -> Seq<char> {
    match ty {
        TypeName::Symbol => "a symbol"@,
        TypeName::String => "a string"@,
        TypeName::Int => "an int"@,
        TypeName::Float => "a float"@,
        TypeName::Bool => "a bool"@,
        TypeName::Date => "a date"@,
        TypeName::Timestamp => "a timestamp"@,
        TypeName::Duration => "a duration"@,
    }
}

fn type_label(ty: TypeName) -> (r: &'static str)
    ensures
        r@ == spec_type_label(ty),
{
    match ty {
        TypeName::Symbol => "a symbol",
        TypeName::String => "a string",
        TypeName::Int => "an int",
        TypeName::Float => "a float",
        TypeName::Bool => "a bool",
        TypeName::Date => "a date",
        TypeName::Timestamp => "a timestamp",
        TypeName::Duration => "a duration",
    }
}

/// A cell as a message quotes it: `absent` bare, anything else between
/// backquotes, a temporal value after `@`.
pub open spec fn spec_rendered(v: RawValueView) -> Seq<char> {
    match v {
        RawValueView::Absent => "absent"@,
        RawValueView::Date(_) => seq!['`', '@'] + spec_raw_text(v) + seq!['`'],
        RawValueView::Timestamp(_) => seq!['`', '@'] + spec_raw_text(v) + seq!['`'],
        _ => seq!['`'] + spec_raw_text(v) + seq!['`'],
    }
}

/// A cell as a message quotes it.
fn render(value: &RawValue) -> (r: String)
    ensures
        r@ == spec_rendered(value@),
{
    proof {
        reveal_strlit("`");
        reveal_strlit("@");
        reveal_strlit("true");
        reveal_strlit("false");
    }
    let mut out = to_owned("`");
    match value {
        RawValue::Text(t) => push_str(&mut out, t.as_str()),
        RawValue::Str(t) => push_str(&mut out, t.as_str()),
        RawValue::Int(n) => push_str(&mut out, crate::text::i64_text(*n).as_str()),
        RawValue::Float(f) => push_str(&mut out, f.text.as_str()),
        RawValue::Bool(b) => push_str(&mut out, if *b { "true" } else { "false" }),
        RawValue::Date(d) => {
            push_str(&mut out, "@");
            push_str(&mut out, d.render().as_str());
        },
        RawValue::Timestamp(t) => {
            push_str(&mut out, "@");
            push_str(&mut out, t.render().as_str());
        },
        RawValue::Absent => return to_owned("absent"),
    }
    push_str(&mut out, "`");
    out
}

/// The text of a cell where it names a field (a header row is read as
/// text): its own text, the decimal of an int, `true` or `false`, a temporal
/// value's canonical spelling, and nothing for `absent`.
pub open spec fn spec_raw_text(v: RawValueView) -> Seq<char> {
    match v {
        RawValueView::Text(t) => t,
        RawValueView::Str(t) => t,
        RawValueView::Int(n) => crate::text::signed_decimal(n),
        RawValueView::Float(t) => t,
        RawValueView::Bool(b) => if b {
            "true"@
        } else {
            "false"@
        },
        RawValueView::Date(d) => crate::temporal::spec_render_date(d),
        RawValueView::Timestamp(t) => crate::temporal::spec_render_timestamp(t),
        RawValueView::Absent => Seq::empty(),
    }
}

/// The text of a header cell.
fn raw_text(value: &RawValue) -> (r: String)
    ensures
        r@ == spec_raw_text(value@),
{
    proof {
        reveal_strlit("true");
        reveal_strlit("false");
    }
    match value {
        RawValue::Text(t) => to_owned(t.as_str()),
        RawValue::Str(t) => to_owned(t.as_str()),
        RawValue::Int(n) => crate::text::i64_text(*n),
        RawValue::Float(f) => to_owned(f.text.as_str()),
        RawValue::Bool(b) => to_owned(if *b { "true" } else { "false" }),
        RawValue::Date(d) => d.render(),
        RawValue::Timestamp(t) => t.render(),
        RawValue::Absent => String::new(),
    }
}

/// A copy of a cell.
fn copy_raw(value: &RawValue) -> (r: RawValue)
    ensures
        r@ == value@,
{
    match value {
        RawValue::Text(t) => RawValue::Text(to_owned(t.as_str())),
        RawValue::Str(t) => RawValue::Str(to_owned(t.as_str())),
        RawValue::Int(n) => RawValue::Int(*n),
        RawValue::Float(f) => RawValue::Float(FloatLit { text: to_owned(f.text.as_str()) }),
        RawValue::Bool(b) => RawValue::Bool(*b),
        RawValue::Date(d) => RawValue::Date(*d),
        RawValue::Timestamp(t) => RawValue::Timestamp(*t),
        RawValue::Absent => RawValue::Absent,
    }
}

/// Names as texts.
pub open spec fn spec_names(names: Seq<String>) -> Seq<Seq<char>> {
    names.map_values(|n: String| n@)
}

/// The field names an explicit schema declares.
pub open spec fn spec_schema_names(schema: Seq<FieldDecl>) -> Seq<Seq<char>> {
    schema.map_values(|f: FieldDecl| f.name.name@)
}

/// The texts of a header row.
pub open spec fn spec_header_texts(row: Seq<RawValueView>) -> Seq<Seq<char>> {
    row.map_values(|v: RawValueView| spec_raw_text(v))
}

/// A reader's rows, cell by cell.
pub open spec fn spec_raw_rows(rows: Seq<Vec<RawValue>>) -> Seq<Seq<RawValueView>> {
    rows.map_values(|row: Vec<RawValue>| spec_raw_row(row))
}

/// The first position of `name` among `names`, or their count when it is
/// not there.
pub open spec fn spec_first_index(names: Seq<Seq<char>>, name: Seq<char>) -> int
    decreases names.len(),
{
    if names.len() == 0 {
        0
    } else if names[0] == name {
        0
    } else {
        1 + spec_first_index(names.drop_first(), name)
    }
}

proof fn lemma_first_index(names: Seq<Seq<char>>, name: Seq<char>, i: int)
    requires
        0 <= i <= names.len(),
        forall|j: int| 0 <= j < i ==> names[j] != name,
    ensures
        spec_first_index(names, name) == i + spec_first_index(names.skip(i), name),
    decreases i,
{
    if i > 0 {
        lemma_first_index(names.drop_first(), name, i - 1);
        assert(names.drop_first().skip(i - 1) =~= names.skip(i));
    } else {
        assert(names.skip(0) =~= names);
    }
}

/// The field names of a schema.
fn field_names(schema: &[FieldDecl]) -> (r: Vec<String>)
    ensures
        spec_names(r@) == spec_schema_names(schema@),
{
    let mut out: Vec<String> = Vec::new();
    let mut i: usize = 0;
    while i < schema.len()
        invariant
            i <= schema@.len(),
            out@.len() == i,
            forall|k: int| 0 <= k < i ==> (#[trigger] out@[k])@ == schema@[k].name.name@,
        decreases schema.len() - i,
    {
        out.push(to_owned(schema[i].name.name.as_str()));
        i += 1;
    }
    assert(spec_names(out@) =~= spec_schema_names(schema@));
    out
}

/// The texts of a header row.
fn header_texts(row: &Vec<RawValue>) -> (r: Vec<String>)
    ensures
        spec_names(r@) == spec_header_texts(spec_raw_row(*row)),
{
    let mut out: Vec<String> = Vec::new();
    let mut i: usize = 0;
    while i < row.len()
        invariant
            i <= row@.len(),
            out@.len() == i,
            forall|k: int| 0 <= k < i ==> (#[trigger] out@[k])@ == spec_raw_text(row@[k]@),
        decreases row.len() - i,
    {
        out.push(raw_text(&row[i]));
        i += 1;
    }
    assert(spec_names(out@) =~= spec_header_texts(spec_raw_row(*row)));
    out
}

/// Whether two lists of names are the same.
fn names_equal(a: &Vec<String>, b: &Vec<String>) -> (r: bool)
    ensures
        r == (spec_names(a@) == spec_names(b@)),
{
    if a.len() != b.len() {
        assert(spec_names(a@).len() != spec_names(b@).len());
        return false;
    }
    let mut i: usize = 0;
    while i < a.len()
        invariant
            i <= a@.len() == b@.len(),
            forall|k: int| 0 <= k < i ==> a@[k]@ == b@[k]@,
        decreases a.len() - i,
    {
        if !str_equal(a[i].as_str(), b[i].as_str()) {
            assert(spec_names(a@)[i as int] != spec_names(b@)[i as int]);
            return false;
        }
        i += 1;
    }
    assert(spec_names(a@) =~= spec_names(b@));
    true
}

/// The first position of `name` among `names`.
fn find_name(names: &Vec<String>, name: &str) -> (r: Option<usize>)
    ensures
        r matches Some(p) ==> p < names@.len() && p == spec_first_index(spec_names(names@), name@)
            && names@[p as int]@ == name@,
        r is None ==> !spec_names(names@).contains(name@) && spec_first_index(spec_names(names@), name@)
            == names@.len(),
{
    let ghost ns = spec_names(names@);
    let mut i: usize = 0;
    while i < names.len()
        invariant
            i <= names@.len(),
            ns == spec_names(names@),
            forall|j: int| 0 <= j < i ==> ns[j] != name@,
        decreases names.len() - i,
    {
        if str_equal(names[i].as_str(), name) {
            proof {
                lemma_first_index(ns, name@, i as int);
                assert(ns.skip(i as int)[0] == name@);
            }
            return Some(i);
        }
        i += 1;
    }
    proof {
        lemma_first_index(ns, name@, i as int);
        assert(ns.skip(i as int).len() == 0);
    }
    None
}

/// Whether `name` is among `names`.
fn has_name(names: &Vec<String>, name: &str) -> (r: bool)
    ensures
        r == spec_names(names@).contains(name@),
{
    match find_name(names, name) {
        Some(p) => {
            assert(spec_names(names@)[p as int] == name@);
            true
        },
        None => false,
    }
}

/// A legal field name is one identifier token spelled exactly as given.
fn is_legal_field_name(name: &str) -> (r: bool)
    ensures
        r == (crate::lexer::spec_classify_symbol(name@) == Some(name@)),
{
    match classify_symbol(name) {
        Some(s) => str_equal(s.as_str(), name),
        None => false,
    }
}

/// Whether `names[i]` occurs before position `i`.
fn repeats_earlier(names: &Vec<String>, i: usize) -> (r: bool)
    requires
        i < names@.len(),
    ensures
        r == exists|j: int| 0 <= j < i && (#[trigger] names@[j])@ == names@[i as int]@,
{
    let mut j: usize = 0;
    while j < i
        invariant
            j <= i < names@.len(),
            forall|k: int| 0 <= k < j ==> (#[trigger] names@[k])@ != names@[i as int]@,
        decreases i - j,
    {
        if str_equal(names[j].as_str(), names[i].as_str()) {
            return true;
        }
        j += 1;
    }
    false
}

/// Field names are distinct.
pub open spec fn spec_distinct_names(names: Seq<String>) -> bool {
    forall|i: int, j: int| 0 <= i < j < names.len() ==> (#[trigger] names[i])@ != (#[trigger] names[j])@
}

/// Field names a table may have: each one identifier token spelled exactly
/// as given (a lowercase-initial word that is no keyword), none given twice.
pub open spec fn spec_legal_names(ns: Seq<Seq<char>>) -> bool {
    &&& forall|k: int| 0 <= k < ns.len() ==> crate::lexer::spec_classify_symbol(#[trigger] ns[k]) == Some(ns[k])
    &&& forall|a: int, b: int| 0 <= a < b < ns.len() ==> #[trigger] ns[a] != #[trigger] ns[b]
}

/// Refuses an illegal field name and a name given twice, naming each.
fn validate_field_names(names: &Vec<String>, source: &str) -> (r: Result<(), Vec<Error>>)
    ensures
        r is Ok ==> spec_distinct_names(names@),
        r is Ok <==> spec_legal_names(spec_names(names@)),
        r matches Err(es) ==> es@.len() > 0 && all_source(es@),
{
    let ghost ns = spec_names(names@);
    let mut errors: Vec<Error> = Vec::new();
    let mut i: usize = 0;
    while i < names.len()
        invariant
            i <= names@.len(),
            ns == spec_names(names@),
            all_source(errors@),
            errors@.len() == 0 ==> forall|a: int, b: int| 0 <= a < b < i ==> (#[trigger] names@[a])@ != (#[trigger] names@[b])@,
            errors@.len() == 0 <==> spec_legal_names(ns.take(i as int)),
        decreases names.len() - i,
    {
        let ghost e0 = errors@.len();
        proof {
            assert(ns[i as int] == names@[i as int]@);
            assert forall|k: int| 0 <= k < i implies #[trigger] ns.take(i as int)[k] == names@[k]@ by {}
            assert forall|k: int| 0 <= k <= i implies #[trigger] ns.take(i + 1)[k] == names@[k]@ by {}
        }
        let name = names[i].as_str();
        if !is_legal_field_name(name) {
            let m = cat(
                &[
                    "in `",
                    source,
                    "`: field ",
                    ordinal(i).as_str(),
                    " (`",
                    name,
                    "`) is not a legal field name (a lowercase-initial identifier); give the import an explicit schema to rename it",
                ],
            );
            push_error(&mut errors, source_error(ErrorCode::SourceSchemaMismatch, m));
        }
        if repeats_earlier(names, i) {
            let m = cat(
                &["in `", source, "`: duplicate field name `", name, "`; give the import an explicit schema to rename it"],
            );
            push_error(&mut errors, source_error(ErrorCode::SourceSchemaMismatch, m));
        }
        proof {
            let t = ns.take(i + 1);
            if spec_legal_names(t) {
                assert(t[i as int] == ns[i as int]);
                assert(spec_legal_names(ns.take(i as int))) by {
                    assert forall|k: int| 0 <= k < i implies crate::lexer::spec_classify_symbol(
                        #[trigger] ns.take(i as int)[k],
                    ) == Some(ns.take(i as int)[k]) by {
                        assert(t[k] == ns.take(i as int)[k]);
                    }
                    assert forall|a: int, b: int| 0 <= a < b < i implies #[trigger] ns.take(i as int)[a]
                        != #[trigger] ns.take(i as int)[b] by {
                        assert(t[a] == ns.take(i as int)[a] && t[b] == ns.take(i as int)[b]);
                    }
                }
                assert forall|j: int| 0 <= j < i implies (#[trigger] names@[j])@ != names@[i as int]@ by {
                    assert(t[j] != t[i as int]);
                }
            }
            if errors@.len() == 0 {
                assert forall|a: int, b: int| 0 <= a < b < i + 1 implies #[trigger] t[a] != #[trigger] t[b] by {
                    if b == i {
                        assert(!(names@[a]@ == names@[i as int]@));
                    } else {
                        assert(ns.take(i as int)[a] == t[a] && ns.take(i as int)[b] == t[b]);
                    }
                }
                assert forall|k: int| 0 <= k < i + 1 implies crate::lexer::spec_classify_symbol(#[trigger] t[k])
                    == Some(t[k]) by {
                    if k < i {
                        assert(ns.take(i as int)[k] == t[k]);
                    }
                }
            }
        }
        i += 1;
    }
    assert(ns.take(i as int) =~= ns);
    if errors.len() == 0 {
        Ok(())
    } else {
        Err(errors)
    }
}

/// The odd part of `a`: `a` with its factors of two removed.
pub open spec fn spec_odd_part(a: nat) -> nat
    decreases a,
{
    if a == 0 {
        0
    } else if a % 2 == 0 {
        spec_odd_part(a / 2)
    } else {
        a
    }
}

/// An integer has an exact double when its odd part fits the 53-bit
/// significand.
pub open spec fn spec_exact_as_float(n: int) -> bool {
    spec_odd_part(if n < 0 {
        (-n) as nat
    } else {
        n as nat
    }) < 0x20_0000_0000_0000
}

/// Whether an integer is exactly a double.
fn exact_as_float(n: i64) -> (r: bool)
    ensures
        r == spec_exact_as_float(n as int),
{
    let mut a: u64 = if n == i64::MIN {
        0x8000_0000_0000_0000
    } else if n < 0 {
        (-n) as u64
    } else {
        n as u64
    };
    let ghost start = a as nat;
    while a != 0 && a % 2 == 0
        invariant
            spec_odd_part(a as nat) == spec_odd_part(start),
        decreases a,
    {
        a = a / 2;
    }
    a < 0x20_0000_0000_0000
}

/// An int widened to a float: its decimal with `.0` where the double is
/// exact; refused with a message otherwise.
pub open spec fn spec_widened(n: int) -> Result<ValueView, Seq<char>> {
    if spec_exact_as_float(n) {
        Ok(ValueView::Float(crate::text::signed_decimal(n) + ".0"@))
    } else {
        Err("`"@ + crate::text::signed_decimal(n) + "` cannot be widened to a float without losing precision (this column mixes integers and floats, so it is float; give the column an explicit `int` type, or keep the values below 2^53)"@)
    }
}

/// An int cell widened into a float column: refused where the double would
/// not be exact, since rounding an imported identifier corrupts every join
/// on it.
fn widen_int(n: i64) -> (r: Result<Value, String>)
    ensures
        r matches Ok(v) ==> spec_conforms(v@, TypeName::Float) && spec_exact_as_float(n as int),
        r is Err ==> !spec_exact_as_float(n as int),
        spec_result_view(r) == spec_widened(n as int),
{
    proof {
        reveal_strlit(".0");
        reveal_strlit("`");
    }
    if exact_as_float(n) {
        let mut text = crate::text::i64_text(n);
        push_str(&mut text, ".0");
        Ok(Value::Float(FloatLit { text }))
    } else {
        let mut m = to_owned("`");
        push_str(&mut m, crate::text::i64_text(n).as_str());
        push_str(&mut m, "` cannot be widened to a float without losing precision (this column mixes integers and floats, so it is float; give the column an explicit `int` type, or keep the values below 2^53)");
        Err(m)
    }
}

/// A conversion's result by its views.
pub open spec fn spec_result_view(r: Result<Value, String>) -> Result<ValueView, Seq<char>> {
    match r {
        Ok(v) => Ok(v@),
        Err(m) => Err(m@),
    }
}

/// Why a cell does not convert to a column type.
pub open spec fn spec_refusal(value: RawValueView, ty: TypeName) -> Result<ValueView, Seq<char>> {
    Err(spec_rendered(value) + " is not "@ + spec_type_label(ty))
}

/// A text cell read as a temporal value of a declared column, by the parser
/// given, on the trimmed text.
pub open spec fn spec_temporal_cell(parsed: Result<int, crate::temporal::TemporalErrorView>, ty: TypeName, value: RawValueView) -> Result<ValueView, Seq<char>> {
    match parsed {
        Ok(x) => Ok(
            match ty {
                TypeName::Date => ValueView::Date(x),
                TypeName::Timestamp => ValueView::Timestamp(x),
                _ => ValueView::Duration(x),
            },
        ),
        Err(_) => spec_refusal(value, ty),
    }
}

/// What a cell converts to in a column of type `ty`, or why it does not:
/// `absent` fits every column; an int column takes int cells and text that
/// reads as an int literal; a float column takes float cells and float
/// literals, and int ones widened when exact; a bool column bool cells and
/// `true`/`false`; a string column any text or string cell; a symbol column
/// text or string cells that are one identifier; temporal columns their own
/// cells (a date widened to its midnight), and text read by the temporal
/// grammar (leniently for timestamps).
pub open spec fn spec_coerced(value: RawValueView, ty: TypeName) -> Result<ValueView, Seq<char>> {
    let refused = spec_refusal(value, ty);
    match value {
        RawValueView::Absent => Ok(ValueView::Absent),
        _ => match ty {
            TypeName::Int => match value {
                RawValueView::Text(t) => match crate::lexer::spec_classify_cell(t) {
                    crate::lexer::CellClassView::Int(n) => Ok(ValueView::Int(n)),
                    _ => refused,
                },
                RawValueView::Int(n) => Ok(ValueView::Int(n)),
                _ => refused,
            },
            TypeName::Float => match value {
                RawValueView::Text(t) => match crate::lexer::spec_classify_cell(t) {
                    crate::lexer::CellClassView::Float(f) => Ok(ValueView::Float(f)),
                    crate::lexer::CellClassView::Int(n) => spec_widened(n),
                    _ => refused,
                },
                RawValueView::Float(f) => Ok(ValueView::Float(f)),
                RawValueView::Int(n) => spec_widened(n),
                _ => refused,
            },
            TypeName::Bool => match value {
                RawValueView::Text(t) => match crate::lexer::spec_classify_cell(t) {
                    crate::lexer::CellClassView::Bool(b) => Ok(ValueView::Bool(b)),
                    _ => refused,
                },
                RawValueView::Bool(b) => Ok(ValueView::Bool(b)),
                _ => refused,
            },
            TypeName::String => match value {
                RawValueView::Text(t) => Ok(ValueView::String(t)),
                RawValueView::Str(t) => Ok(ValueView::String(t)),
                _ => refused,
            },
            TypeName::Symbol => match value {
                RawValueView::Text(t) => match crate::lexer::spec_classify_symbol(t) {
                    Some(name) => Ok(ValueView::Symbol(name)),
                    None => refused,
                },
                RawValueView::Str(t) => match crate::lexer::spec_classify_symbol(t) {
                    Some(name) => Ok(ValueView::Symbol(name)),
                    None => refused,
                },
                _ => refused,
            },
            TypeName::Date => match value {
                RawValueView::Date(d) => Ok(ValueView::Date(d)),
                RawValueView::Text(t) => spec_temporal_cell(crate::temporal::spec_parse_date(crate::text::trim(t)), ty, value),
                RawValueView::Str(t) => spec_temporal_cell(crate::temporal::spec_parse_date(crate::text::trim(t)), ty, value),
                _ => refused,
            },
            TypeName::Timestamp => match value {
                RawValueView::Timestamp(x) => Ok(ValueView::Timestamp(x)),
                RawValueView::Date(d) => if i64::MIN <= d * 86_400_000_000 <= i64::MAX {
                    Ok(ValueView::Timestamp(d * 86_400_000_000))
                } else {
                    refused
                },
                RawValueView::Text(t) => spec_temporal_cell(crate::temporal::spec_parse_timestamp_lenient(t), ty, value),
                RawValueView::Str(t) => spec_temporal_cell(crate::temporal::spec_parse_timestamp_lenient(t), ty, value),
                _ => refused,
            },
            TypeName::Duration => match value {
                RawValueView::Text(t) => spec_temporal_cell(crate::temporal::spec_parse_duration(crate::text::trim(t)), ty, value),
                RawValueView::Str(t) => spec_temporal_cell(crate::temporal::spec_parse_duration(crate::text::trim(t)), ty, value),
                _ => refused,
            },
        },
    }
}

fn fail(value: &RawValue, ty: TypeName) -> (r: Result<Value, String>)
    ensures
        r is Err,
        spec_result_view(r) == spec_refusal(value@, ty),
{
    let mut m = render(value);
    push_str(&mut m, " is not ");
    push_str(&mut m, type_label(ty));
    Err(m)
}

/// The value a cell converts to directly, where its own type is the
/// column's: `absent` under any column, an int cell under `int`, a string or
/// text cell under `string`, and so on for float, bool, date and timestamp.
pub open spec fn spec_direct_value(value: RawValueView, ty: TypeName) -> Option<ValueView> {
    match value {
        RawValueView::Absent => Some(ValueView::Absent),
        RawValueView::Int(n) => if ty == TypeName::Int {
            Some(ValueView::Int(n))
        } else {
            None
        },
        RawValueView::Str(t) => if ty == TypeName::String {
            Some(ValueView::String(t))
        } else {
            None
        },
        RawValueView::Text(t) => if ty == TypeName::String {
            Some(ValueView::String(t))
        } else {
            None
        },
        RawValueView::Bool(b) => if ty == TypeName::Bool {
            Some(ValueView::Bool(b))
        } else {
            None
        },
        RawValueView::Float(f) => if ty == TypeName::Float {
            Some(ValueView::Float(f))
        } else {
            None
        },
        RawValueView::Date(d) => if ty == TypeName::Date {
            Some(ValueView::Date(d))
        } else {
            None
        },
        RawValueView::Timestamp(t) => if ty == TypeName::Timestamp {
            Some(ValueView::Timestamp(t))
        } else {
            None
        },
    }
}

/// Converts one cell to a column type, or says why it cannot: `absent` fits
/// every column; an untyped cell converts by its literal reading (an int
/// widening into a float column when exact); a typed cell converts to its own
/// type (an int to a float, a date to a timestamp at midnight); a text cell
/// reads as a string, a symbol when it is an identifier, or a temporal value
/// of a declared temporal column (the timestamp reading is the lenient one).
fn coerce(value: &RawValue, ty: TypeName) -> (r: Result<Value, String>)
    ensures
        r matches Ok(v) ==> spec_conforms(v@, ty),
        spec_direct_value(value@, ty) matches Some(w) ==> (r matches Ok(v) && v@ == w),
        spec_result_view(r) == spec_coerced(value@, ty),
{
    match value {
        RawValue::Absent => return Ok(Value::Absent),
        _ => {},
    }
    match ty {
        TypeName::Int => match value {
            RawValue::Text(t) => match classify_cell(t.as_str()) {
                CellClass::Int(n) => Ok(Value::Int(n)),
                _ => fail(value, ty),
            },
            RawValue::Int(n) => Ok(Value::Int(*n)),
            _ => fail(value, ty),
        },
        TypeName::Float => match value {
            RawValue::Text(t) => match classify_cell(t.as_str()) {
                CellClass::Float(f) => Ok(Value::Float(FloatLit { text: f })),
                CellClass::Int(n) => widen_int(n),
                _ => fail(value, ty),
            },
            RawValue::Float(f) => Ok(Value::Float(FloatLit { text: to_owned(f.text.as_str()) })),
            RawValue::Int(n) => widen_int(*n),
            _ => fail(value, ty),
        },
        TypeName::Bool => match value {
            RawValue::Text(t) => match classify_cell(t.as_str()) {
                CellClass::Bool(b) => Ok(Value::Bool(b)),
                _ => fail(value, ty),
            },
            RawValue::Bool(b) => Ok(Value::Bool(*b)),
            _ => fail(value, ty),
        },
        TypeName::String => match value {
            RawValue::Text(t) => Ok(Value::String(to_owned(t.as_str()))),
            RawValue::Str(t) => Ok(Value::String(to_owned(t.as_str()))),
            _ => fail(value, ty),
        },
        TypeName::Symbol => match value {
            RawValue::Text(t) => match classify_symbol(t.as_str()) {
                Some(name) => Ok(Value::Symbol(name)),
                None => fail(value, ty),
            },
            RawValue::Str(t) => match classify_symbol(t.as_str()) {
                Some(name) => Ok(Value::Symbol(name)),
                None => fail(value, ty),
            },
            _ => fail(value, ty),
        },
        TypeName::Date => match value {
            RawValue::Date(d) => Ok(Value::Date(*d)),
            RawValue::Text(t) => match crate::temporal::parse_date(crate::lexer::trimmed(t.as_str()).as_str()) {
                Ok(d) => Ok(Value::Date(d)),
                Err(_) => fail(value, ty),
            },
            RawValue::Str(t) => match crate::temporal::parse_date(crate::lexer::trimmed(t.as_str()).as_str()) {
                Ok(d) => Ok(Value::Date(d)),
                Err(_) => fail(value, ty),
            },
            _ => fail(value, ty),
        },
        TypeName::Timestamp => match value {
            RawValue::Timestamp(t) => Ok(Value::Timestamp(*t)),
            RawValue::Date(d) => {
                let days = d.days() as i64;
                match days.checked_mul(86_400_000_000) {
                    Some(_) => Ok(Value::Timestamp(d.at_midnight())),
                    None => fail(value, ty),
                }
            },
            RawValue::Text(t) => match crate::temporal::parse_timestamp_lenient(t.as_str()) {
                Ok(ts) => Ok(Value::Timestamp(ts)),
                Err(_) => fail(value, ty),
            },
            RawValue::Str(t) => match crate::temporal::parse_timestamp_lenient(t.as_str()) {
                Ok(ts) => Ok(Value::Timestamp(ts)),
                Err(_) => fail(value, ty),
            },
            _ => fail(value, ty),
        },
        TypeName::Duration => match value {
            RawValue::Text(t) => match crate::temporal::parse_duration(crate::lexer::trimmed(t.as_str()).as_str()) {
                Ok(d) => Ok(Value::Duration(d)),
                Err(_) => fail(value, ty),
            },
            RawValue::Str(t) => match crate::temporal::parse_duration(crate::lexer::trimmed(t.as_str()).as_str()) {
                Ok(d) => Ok(Value::Duration(d)),
                Err(_) => fail(value, ty),
            },
            _ => fail(value, ty),
        },
    }
}

/// The type one cell reads as, `None` for `absent`.
fn cell_type(value: &RawValue) -> (r: Option<TypeName>)
    ensures
        r is None <==> *value == RawValue::Absent,
        r == spec_cell_type(value@),
{
    match value {
        RawValue::Absent => None,
        RawValue::Text(t) => Some(
            match classify_cell(t.as_str()) {
                CellClass::Int(_) => TypeName::Int,
                CellClass::Float(_) => TypeName::Float,
                CellClass::Bool(_) => TypeName::Bool,
                CellClass::Date(_) => TypeName::Date,
                CellClass::Timestamp(_) => TypeName::Timestamp,
                CellClass::Str => TypeName::String,
            },
        ),
        RawValue::Str(_) => Some(TypeName::String),
        RawValue::Int(_) => Some(TypeName::Int),
        RawValue::Float(_) => Some(TypeName::Float),
        RawValue::Bool(_) => Some(TypeName::Bool),
        RawValue::Date(_) => Some(TypeName::Date),
        RawValue::Timestamp(_) => Some(TypeName::Timestamp),
    }
}

/// The type one cell reads as, `None` for `absent`.
pub open spec fn spec_cell_type(v: RawValueView) -> Option<TypeName> {
    match v {
        RawValueView::Absent => None,
        RawValueView::Text(t) => Some(
            match crate::lexer::spec_classify_cell(t) {
                crate::lexer::CellClassView::Int(_) => TypeName::Int,
                crate::lexer::CellClassView::Float(_) => TypeName::Float,
                crate::lexer::CellClassView::Bool(_) => TypeName::Bool,
                crate::lexer::CellClassView::Date(_) => TypeName::Date,
                crate::lexer::CellClassView::Timestamp(_) => TypeName::Timestamp,
                crate::lexer::CellClassView::Str => TypeName::String,
            },
        ),
        RawValueView::Str(_) => Some(TypeName::String),
        RawValueView::Int(_) => Some(TypeName::Int),
        RawValueView::Float(_) => Some(TypeName::Float),
        RawValueView::Bool(_) => Some(TypeName::Bool),
        RawValueView::Date(_) => Some(TypeName::Date),
        RawValueView::Timestamp(_) => Some(TypeName::Timestamp),
    }
}

/// Two cell types unified: equal types, int with float as float, date with
/// timestamp as timestamp; `None` for any other pair.
pub open spec fn spec_unify(a: TypeName, b: TypeName) -> Option<TypeName> {
    if a == b {
        Some(a)
    } else if (a == TypeName::Int && b == TypeName::Float) || (a == TypeName::Float && b == TypeName::Int) {
        Some(TypeName::Float)
    } else if (a == TypeName::Date && b == TypeName::Timestamp) || (a == TypeName::Timestamp && b
        == TypeName::Date) {
        Some(TypeName::Timestamp)
    } else {
        None
    }
}

/// A column's inferred type from cell `i` on, given the type unified so far:
/// the first conflict makes the column a string column at a text cell and
/// refuses it otherwise; a column with no present cell is a string column.
pub open spec fn spec_infer_from(cells: Seq<RawValueView>, i: int, acc: Option<TypeName>) -> Result<TypeName, ()>
    decreases cells.len() - i,
{
    if i < 0 || i >= cells.len() {
        Ok(
            match acc {
                Some(t) => t,
                None => TypeName::String,
            },
        )
    } else {
        match spec_cell_type(cells[i]) {
            None => spec_infer_from(cells, i + 1, acc),
            Some(b) => match acc {
                None => spec_infer_from(cells, i + 1, Some(b)),
                Some(a) => match spec_unify(a, b) {
                    Some(c) => spec_infer_from(cells, i + 1, Some(c)),
                    None => if cells[i] is Text {
                        Ok(TypeName::String)
                    } else {
                        Err(())
                    },
                },
            },
        }
    }
}

/// Column `col` of rows of cells.
pub open spec fn spec_cells(rows: Seq<Seq<RawValueView>>, col: int) -> Seq<RawValueView> {
    Seq::new(rows.len(), |k: int| rows[k][col])
}

/// A column's type: the declared one, else the inferred one.
pub open spec fn spec_column_type(cells: Seq<RawValueView>, declared: Option<TypeName>) -> Result<TypeName, ()> {
    match declared {
        Some(d) => Ok(d),
        None => spec_infer_from(cells, 0, None),
    }
}

/// A column types: its type is found and every cell converts to it.
pub open spec fn spec_column_ok(cells: Seq<RawValueView>, declared: Option<TypeName>) -> bool {
    spec_column_type(cells, declared) matches Ok(ty) && forall|k: int|
        0 <= k < cells.len() ==> spec_coerced(#[trigger] cells[k], ty) is Ok
}

/// Every row has at least `n` cells.
pub open spec fn spec_rows_wide(data: Seq<Vec<RawValue>>, n: nat) -> bool {
    forall|r: int| 0 <= r < data.len() ==> (#[trigger] data[r])@.len() >= n
}

/// Unifies a column's cell types: `absent` takes no part; int and float
/// unify to float, date and timestamp to timestamp; any other conflict makes
/// an untyped column a string column and a typed column an error. A column
/// with no present cell is a string column (its cells are all `absent`).
fn infer_column(data: &Vec<Vec<RawValue>>, col: usize, field: &str, source: &str) -> (r: Result<TypeName, Vec<Error>>)
    requires
        spec_rows_wide(data@, (col + 1) as nat),
    ensures
        r matches Err(es) ==> es@.len() > 0 && all_source(es@),
        match spec_infer_from(spec_cells(spec_raw_rows(data@), col as int), 0, None) {
            Ok(t) => r == Ok::<TypeName, Vec<Error>>(t),
            Err(_) => r is Err,
        },
{
    let ghost cells = spec_cells(spec_raw_rows(data@), col as int);
    let mut inferred: Option<TypeName> = None;
    let mut index: usize = 0;
    while index < data.len()
        invariant
            index <= data@.len(),
            spec_rows_wide(data@, (col + 1) as nat),
            cells == spec_cells(spec_raw_rows(data@), col as int),
            spec_infer_from(cells, 0, None) == spec_infer_from(cells, index as int, inferred),
        decreases data.len() - index,
    {
        let cell = &data[index][col];
        proof {
            assert(cells[index as int] == data@[index as int]@[col as int]@);
        }
        match cell_type(cell) {
            None => {},
            Some(b) => {
                inferred = match inferred {
                    None => Some(b),
                    Some(a) => {
                        if a == b {
                            Some(a)
                        } else if (a == TypeName::Int && b == TypeName::Float) || (a == TypeName::Float && b == TypeName::Int) {
                            Some(TypeName::Float)
                        } else if (a == TypeName::Date && b == TypeName::Timestamp) || (a == TypeName::Timestamp && b == TypeName::Date) {
                            Some(TypeName::Timestamp)
                        } else {
                            match cell {
                                RawValue::Text(_) => return Ok(TypeName::String),
                                _ => {},
                            }
                            let m = cat(
                                &[
                                    "in `",
                                    source,
                                    "`: column `",
                                    field,
                                    "` mixes ",
                                    type_label(a),
                                    " and ",
                                    type_label(b),
                                    " (row ",
                                    ordinal(index).as_str(),
                                    "); the value space has no mixed columns — declare an explicit type",
                                ],
                            );
                            let e = source_error(ErrorCode::UnsupportedColumn, m);
                            let errors = vec![e];
                            return Err(errors);
                        }
                    },
                };
            },
        }
        index += 1;
    }
    match inferred {
        Some(ty) => Ok(ty),
        None => Ok(TypeName::String),
    }
}

/// Every value of a column fits the column's type.
pub open spec fn spec_column_conforms(values: Seq<Value>, ty: TypeName) -> bool {
    forall|k: int| 0 <= k < values.len() ==> spec_conforms((#[trigger] values[k])@, ty)
}

/// `values` are column `col` of `data` typed as `ty`: each fits `ty`, and a
/// cell of `ty`'s own kind (or `absent`) keeps its value.
pub open spec fn spec_column_values(data: Seq<Vec<RawValue>>, col: int, values: Seq<Value>, ty: TypeName) -> bool {
    &&& spec_column_conforms(values, ty)
    &&& forall|k: int|
        0 <= k < values.len() ==> (spec_direct_value(data[k]@[col]@, ty) matches Some(w) ==> (
        #[trigger] values[k])@ == w)
}

/// A column's type (declared, else inferred) and its values, every cell
/// converted; each cell that does not convert is an error naming its row.
fn type_column(
    data: &Vec<Vec<RawValue>>,
    col: usize,
    declared: Option<TypeName>,
    field: &str,
    first_data_row: usize,
    source: &str,
) -> (r: Result<(TypeName, Vec<Value>), Vec<Error>>)
    requires
        spec_rows_wide(data@, (col + 1) as nat),
    ensures
        r matches Ok(tv) ==> tv.1@.len() == data@.len() && (declared matches Some(d) ==> tv.0 == d)
            && spec_column_values(data@, col as int, tv.1@, tv.0),
        r matches Err(es) ==> es@.len() > 0 && all_source(es@),
        r is Ok <==> spec_column_ok(spec_cells(spec_raw_rows(data@), col as int), declared),
        r matches Ok(tv) ==> Ok::<TypeName, ()>(tv.0) == spec_column_type(spec_cells(spec_raw_rows(data@), col as int), declared)
            && forall|k: int| 0 <= k < tv.1@.len() ==> Ok::<ValueView, Seq<char>>((#[trigger] tv.1@[k])@) == spec_coerced(
                spec_cells(spec_raw_rows(data@), col as int)[k],
                tv.0,
            ),
{
    let ghost cells = spec_cells(spec_raw_rows(data@), col as int);
    let ty = match declared {
        Some(ty) => ty,
        None => match infer_column(data, col, field, source) {
            Ok(ty) => ty,
            Err(es) => return Err(es),
        },
    };
    let mut errors: Vec<Error> = Vec::new();
    let mut values: Vec<Value> = Vec::new();
    let mut index: usize = 0;
    while index < data.len()
        invariant
            index <= data@.len(),
            spec_rows_wide(data@, (col + 1) as nat),
            all_source(errors@),
            errors@.len() == 0 ==> values@.len() == index,
            forall|k: int| 0 <= k < values@.len() ==> spec_conforms((#[trigger] values@[k])@, ty),
            errors@.len() == 0 ==> forall|k: int|
                0 <= k < values@.len() ==> (spec_direct_value(data@[k]@[col as int]@, ty) matches Some(w)
                    ==> (#[trigger] values@[k])@ == w),
            cells == spec_cells(spec_raw_rows(data@), col as int),
            spec_column_type(cells, declared) == Ok::<TypeName, ()>(ty),
            errors@.len() == 0 <==> forall|k: int| 0 <= k < index ==> spec_coerced(#[trigger] cells[k], ty) is Ok,
            errors@.len() == 0 ==> forall|k: int|
                0 <= k < values@.len() ==> Ok::<ValueView, Seq<char>>((#[trigger] values@[k])@) == spec_coerced(
                    cells[k],
                    ty,
                ),
        decreases data.len() - index,
    {
        proof {
            assert(cells[index as int] == data@[index as int]@[col as int]@);
        }
        match coerce(&data[index][col], ty) {
            Ok(v) => values.push(v),
            Err(reason) => {
                let row: u64 = if (first_data_row as u64) < 0xffff_ffff_ffff_ffff - (index as u64) {
                    first_data_row as u64 + index as u64
                } else {
                    0xffff_ffff_ffff_ffff
                };
                let m = cat(
                    &["in `", source, "`: row ", num(row).as_str(), ", column `", field, "`: ", reason.as_str()],
                );
                push_error(&mut errors, source_error(ErrorCode::UnconvertibleCell, m));
            },
        }
        index += 1;
    }
    if errors.len() == 0 {
        Ok((ty, values))
    } else {
        Err(errors)
    }
}

/// A schema as a sequence.
pub open spec fn spec_schema(schema: Option<&[FieldDecl]>) -> Option<Seq<FieldDecl>> {
    match schema {
        Some(s) => Some(s@),
        None => None,
    }
}

/// A self-describing source with no records: no fields and no rows.
pub open spec fn spec_no_records(raw: RawTable) -> bool {
    raw.columns matches Some(cs) && cs@.len() == 0 && raw.rows@.len() == 0
}

/// Where columns are bound by name (a self-describing source under an
/// explicit schema), each row has a cell for every column.
pub open spec fn spec_rows_cover_columns(raw: RawTable, bound_by_name: bool) -> bool {
    match raw.columns {
        Some(cs) => bound_by_name ==> forall|i: int|
            0 <= i < raw.rows@.len() ==> (#[trigger] raw.rows@[i])@.len() >= cs@.len(),
        None => true,
    }
}

/// The field names of a table and its data rows, before typing, as the raw
/// table and the schema decide them. Under an explicit schema the fields are
/// the schema's: a self-describing source binds its columns by name (each
/// schema field to the first column of its name, the two name sets equal), a
/// CSV's first row is a header skipped when its cells spell the fields, and a
/// source with no records is the empty table. Without a schema a
/// self-describing source names its own fields, and a CSV's first row is the
/// header.
pub open spec fn spec_arrangement(
    raw: RawTable,
    schema: Option<Seq<FieldDecl>>,
    fields: Seq<Seq<char>>,
    data: Seq<Seq<RawValueView>>,
) -> bool {
    let rows = spec_raw_rows(raw.rows@);
    match schema {
        Some(s) => fields == spec_schema_names(s) && match raw.columns {
            Some(cs) => if spec_no_records(raw) {
                data.len() == 0
            } else {
                let names = spec_names(cs@);
                &&& forall|k: int| 0 <= k < fields.len() ==> spec_first_index(names, #[trigger] fields[k]) < names.len()
                &&& forall|j: int| 0 <= j < names.len() ==> fields.contains(#[trigger] names[j])
                &&& data.len() == rows.len()
                &&& forall|r: int| 0 <= r < data.len() ==> (#[trigger] data[r]).len() == fields.len()
                &&& forall|r: int, k: int|
                    0 <= r < data.len() && 0 <= k < fields.len() ==> #[trigger] data[r][k]
                        == rows[r][spec_first_index(names, fields[k])]
            },
            None => if rows.len() > 0 && spec_header_texts(rows[0]) == fields {
                data == rows.drop_first()
            } else {
                data == rows
            },
        },
        None => match raw.columns {
            Some(cs) => fields == spec_names(cs@) && data == rows,
            None => rows.len() > 0 && fields == spec_header_texts(rows[0]) && data == rows.drop_first(),
        },
    }
}

/// When a table's names can be arranged: legal names, and under a schema
/// binding a self-describing source by name, the schema's and the source's
/// names the same; a CSV needs a header row where no schema is given, and a
/// source with no records needs a schema.
pub open spec fn spec_arrange_ok(raw: RawTable, schema: Option<Seq<FieldDecl>>) -> bool {
    let rows = spec_raw_rows(raw.rows@);
    match raw.columns {
        Some(cs) => match schema {
            None => !spec_no_records(raw) && spec_legal_names(spec_names(cs@)),
            Some(s) => spec_legal_names(spec_schema_names(s)) && (spec_no_records(raw) || ((forall|k: int|
                0 <= k < spec_schema_names(s).len() ==> spec_names(cs@).contains(#[trigger] spec_schema_names(s)[k]))
                && (forall|j: int| 0 <= j < cs@.len() ==> spec_schema_names(s).contains(#[trigger] spec_names(cs@)[j])))),
        },
        None => match schema {
            None => rows.len() > 0 && spec_legal_names(spec_header_texts(rows[0])),
            Some(s) => spec_legal_names(spec_schema_names(s)),
        },
    }
}

/// The source row of the first data row: 2 where a CSV's first row is its
/// header (always without a schema, and under one where it spells the
/// schema's names), 1 otherwise.
pub open spec fn spec_first_data_row(raw: RawTable, schema: Option<Seq<FieldDecl>>) -> int {
    let rows = spec_raw_rows(raw.rows@);
    if raw.columns is None && match schema {
        None => true,
        Some(s) => rows.len() > 0 && spec_header_texts(rows[0]) == spec_schema_names(s),
    } {
        2
    } else {
        1
    }
}

/// The field names, the data rows, and the source row number of the first
/// data row (for messages), or the errors refusing the names: header
/// extraction for CSV, binding by name for a self-describing source.
fn arrange(raw: RawTable, schema: Option<&[FieldDecl]>, source: &str) -> (r: Result<
    (Vec<String>, Vec<Vec<RawValue>>, usize),
    Vec<Error>,
>)
    requires
        spec_rows_cover_columns(raw, schema is Some),
    ensures
        r matches Ok(a) ==> spec_arrangement(raw, spec_schema(schema), spec_names(a.0@), spec_raw_rows(a.1@))
            && spec_distinct_names(a.0@) && a.2 == spec_first_data_row(raw, spec_schema(schema)) && spec_legal_names(
            spec_names(a.0@),
        ),
        r is Ok <==> spec_arrange_ok(raw, spec_schema(schema)),
        r matches Err(es) ==> es@.len() > 0 && all_source(es@),
        (raw.columns is None && schema is None && raw.rows@.len() == 0) ==> r is Err,
        (spec_no_records(raw) && schema is None) ==> r is Err,
{
    let ghost rows0 = spec_raw_rows(raw.rows@);
    let RawTable { columns, rows } = raw;
    match columns {
        Some(columns) => {
            if columns.len() == 0 && rows.len() == 0 {
                match schema {
                    Some(schema) => {
                        let fields = field_names(schema);
                        match validate_field_names(&fields, source) {
                            Ok(()) => {},
                            Err(es) => return Err(es),
                        }
                        let data: Vec<Vec<RawValue>> = Vec::new();
                        assert(spec_raw_rows(data@) =~= Seq::<Seq<RawValueView>>::empty());
                        return Ok((fields, data, 1));
                    },
                    None => {
                        let m = cat(
                            &[
                                "in `",
                                source,
                                "`: the source has no records, so nothing names its fields; an explicit schema is required",
                            ],
                        );
                        return Err(vec![source_error(ErrorCode::SourceSchemaMismatch, m)]);
                    },
                }
            }
            match schema {
                None => {
                    match validate_field_names(&columns, source) {
                        Ok(()) => {},
                        Err(es) => return Err(es),
                    }
                    Ok((columns, rows, 1))
                },
                Some(schema) => {
                    let fields = field_names(schema);
                    match validate_field_names(&fields, source) {
                        Ok(()) => {},
                        Err(es) => return Err(es),
                    }
                    let ghost names = spec_names(columns@);
                    let ghost fs = spec_names(fields@);
                    let mut errors: Vec<Error> = Vec::new();
                    let mut positions: Vec<usize> = Vec::new();
                    let mut k: usize = 0;
                    while k < fields.len()
                        invariant
                            k <= fields@.len(),
                            names == spec_names(columns@),
                            fs == spec_names(fields@),
                            all_source(errors@),
                            errors@.len() == 0 <==> forall|q: int| 0 <= q < k ==> names.contains(#[trigger] fs[q]),
                            errors@.len() == 0 ==> positions@.len() == k,
                            errors@.len() == 0 ==> forall|q: int|
                                0 <= q < k ==> (#[trigger] positions@[q]) as int == spec_first_index(names, fs[q])
                                    && positions@[q] < columns@.len(),
                        decreases fields.len() - k,
                    {
                        proof {
                            assert(fs[k as int] == fields@[k as int]@);
                        }
                        match find_name(&columns, fields[k].as_str()) {
                            Some(p) => {
                                proof {
                                    assert(names[p as int] == fs[k as int]);
                                    assert(names.contains(fs[k as int]));
                                }
                                positions.push(p);
                            },
                            None => {
                                let m = cat(
                                    &[
                                        "in `",
                                        source,
                                        "`: the explicit schema names `",
                                        fields[k].as_str(),
                                        "`, which the source does not have (source fields: ",
                                        join_names(&columns).as_str(),
                                        ")",
                                    ],
                                );
                                push_error(&mut errors, source_error(ErrorCode::SourceSchemaMismatch, m));
                            },
                        }
                        k += 1;
                    }
                    let mut j: usize = 0;
                    while j < columns.len()
                        invariant
                            j <= columns@.len(),
                            names == spec_names(columns@),
                            fs == spec_names(fields@),
                            all_source(errors@),
                            errors@.len() == 0 <==> (forall|q: int| 0 <= q < fs.len() ==> names.contains(#[trigger] fs[q]))
                                && (forall|q: int| 0 <= q < j ==> fs.contains(#[trigger] names[q])),
                            errors@.len() == 0 ==> forall|q: int| 0 <= q < j ==> fs.contains(#[trigger] names[q]),
                            errors@.len() == 0 ==> positions@.len() == fields@.len(),
                            errors@.len() == 0 ==> forall|q: int|
                                0 <= q < fields@.len() ==> (#[trigger] positions@[q]) as int == spec_first_index(names, fs[q])
                                    && positions@[q] < columns@.len(),
                        decreases columns.len() - j,
                    {
                        proof {
                            assert(names[j as int] == columns@[j as int]@);
                        }
                        if !has_name(&fields, columns[j].as_str()) {
                            let m = cat(
                                &[
                                    "in `",
                                    source,
                                    "`: the source has field `",
                                    columns[j].as_str(),
                                    "`, which the explicit schema does not name (schema fields: ",
                                    join_names(&fields).as_str(),
                                    ")",
                                ],
                            );
                            push_error(&mut errors, source_error(ErrorCode::SourceSchemaMismatch, m));
                        }
                        j += 1;
                    }
                    if errors.len() > 0 {
                        return Err(errors);
                    }
                    let mut data: Vec<Vec<RawValue>> = Vec::new();
                    let mut r: usize = 0;
                    while r < rows.len()
                        invariant
                            r <= rows@.len(),
                            rows0 == spec_raw_rows(rows@),
                            positions@.len() == fields@.len(),
                            forall|q: int| 0 <= q < positions@.len() ==> (#[trigger] positions@[q]) as int
                                == spec_first_index(names, fs[q]) && positions@[q] < columns@.len(),
                            forall|i: int| 0 <= i < rows@.len() ==> (#[trigger] rows@[i])@.len() >= columns@.len(),
                            data@.len() == r,
                            forall|i: int| 0 <= i < r ==> (#[trigger] data@[i])@.len() == fields@.len(),
                            forall|i: int, q: int|
                                0 <= i < r && 0 <= q < fields@.len() ==> (#[trigger] data@[i]@[q])@
                                    == rows0[i][positions@[q] as int],
                        decreases rows.len() - r,
                    {
                        let mut row: Vec<RawValue> = Vec::new();
                        let mut q: usize = 0;
                        while q < positions.len()
                            invariant
                                q <= positions@.len(),
                                r < rows@.len(),
                                rows0 == spec_raw_rows(rows@),
                                forall|x: int| 0 <= x < positions@.len() ==> (#[trigger] positions@[x]) < columns@.len(),
                                rows@[r as int]@.len() >= columns@.len(),
                                row@.len() == q,
                                forall|x: int| 0 <= x < q ==> (#[trigger] row@[x])@ == rows0[r as int][positions@[x] as int],
                            decreases positions.len() - q,
                        {
                            let p = positions[q];
                            row.push(copy_raw(&rows[r][p]));
                            q += 1;
                        }
                        data.push(row);
                        r += 1;
                    }
                    proof {
                        let dv = spec_raw_rows(data@);
                        assert forall|i: int, q: int| 0 <= i < dv.len() && 0 <= q < fs.len() implies #[trigger] dv[i][q]
                            == rows0[i][spec_first_index(names, fs[q])] by {
                            assert(data@[i]@[q]@ == rows0[i][positions@[q] as int]);
                        }
                        assert forall|q: int| 0 <= q < fs.len() implies spec_first_index(names, #[trigger] fs[q]) < names.len() by {
                            assert(positions@[q] as int == spec_first_index(names, fs[q]));
                        }
                    }
                    Ok((fields, data, 1))
                },
            }
        },
        None => {
            match schema {
                None => {
                    if rows.len() == 0 {
                        let m = cat(
                            &[
                                "in `",
                                source,
                                "`: the file is empty; a header row (or an explicit schema) is required",
                            ],
                        );
                        return Err(vec![source_error(ErrorCode::SourceSchemaMismatch, m)]);
                    }
                    let mut rows = rows;
                    let header = rows.remove(0);
                    let names = header_texts(&header);
                    match validate_field_names(&names, source) {
                        Ok(()) => {},
                        Err(es) => return Err(es),
                    }
                    assert(spec_raw_rows(rows@) =~= rows0.drop_first());
                    Ok((names, rows, 2))
                },
                Some(schema) => {
                    let fields = field_names(schema);
                    match validate_field_names(&fields, source) {
                        Ok(()) => {},
                        Err(es) => return Err(es),
                    }
                    let mut rows = rows;
                    let mut first_data_row: usize = 1;
                    if rows.len() > 0 {
                        let texts = header_texts(&rows[0]);
                        if names_equal(&texts, &fields) {
                            rows.remove(0);
                            first_data_row = 2;
                            assert(spec_raw_rows(rows@) =~= rows0.drop_first());
                        }
                    }
                    Ok((fields, rows, first_data_row))
                },
            }
        },
    }
}

/// The rank of a value's kind in the order of values: `absent`, symbols,
/// strings, ints, floats, bools, dates, timestamps, durations.
pub open spec fn spec_kind_rank(v: ValueView) -> int {
    match v {
        ValueView::Absent => 0,
        ValueView::Symbol(_) => 1,
        ValueView::String(_) => 2,
        ValueView::Int(_) => 3,
        ValueView::Float(_) => 4,
        ValueView::Bool(_) => 5,
        ValueView::Date(_) => 6,
        ValueView::Timestamp(_) => 7,
        ValueView::Duration(_) => 8,
    }
}

/// The order of values: by kind, then within a kind by text (symbols,
/// strings, and floats by their decimal text), by number, `false` before
/// `true`, and temporal values by time.
pub open spec fn spec_value_lt(a: ValueView, b: ValueView) -> bool {
    match (a, b) {
        (ValueView::Symbol(x), ValueView::Symbol(y)) => spec_str_lt(x, y),
        (ValueView::String(x), ValueView::String(y)) => spec_str_lt(x, y),
        (ValueView::Int(x), ValueView::Int(y)) => x < y,
        (ValueView::Float(x), ValueView::Float(y)) => spec_str_lt(x, y),
        (ValueView::Bool(x), ValueView::Bool(y)) => !x && y,
        (ValueView::Date(x), ValueView::Date(y)) => x < y,
        (ValueView::Timestamp(x), ValueView::Timestamp(y)) => x < y,
        (ValueView::Duration(x), ValueView::Duration(y)) => x < y,
        _ => spec_kind_rank(a) < spec_kind_rank(b),
    }
}

/// The order of rows: lexicographic by value, a proper prefix first.
pub open spec fn spec_row_lt(a: Seq<ValueView>, b: Seq<ValueView>) -> bool
    decreases a.len(),
{
    if a.len() == 0 {
        b.len() > 0
    } else if b.len() == 0 {
        false
    } else if a[0] != b[0] {
        spec_value_lt(a[0], b[0])
    } else {
        spec_row_lt(a.drop_first(), b.drop_first())
    }
}

/// A row's values.
pub open spec fn spec_row_view(row: Vec<Value>) -> Seq<ValueView> {
    row@.map_values(|v: Value| v@)
}

/// Each row's values.
pub open spec fn spec_row_views(rows: Seq<Vec<Value>>) -> Seq<Seq<ValueView>> {
    rows.map_values(|row: Vec<Value>| spec_row_view(row))
}

/// Rows in strictly increasing order: sorted, with no row twice.
pub open spec fn spec_strictly_sorted(rows: Seq<Seq<ValueView>>) -> bool {
    forall|i: int, j: int| 0 <= i < j < rows.len() ==> spec_row_lt(#[trigger] rows[i], #[trigger] rows[j])
}

proof fn lemma_value_lt_irrefl(a: ValueView)
    ensures
        !spec_value_lt(a, a),
{
    match a {
        ValueView::Symbol(x) => lemma_str_lt_irrefl(x),
        ValueView::String(x) => lemma_str_lt_irrefl(x),
        ValueView::Float(x) => lemma_str_lt_irrefl(x),
        _ => {},
    }
}

proof fn lemma_value_lt_trans(a: ValueView, b: ValueView, c: ValueView)
    requires
        spec_value_lt(a, b),
        spec_value_lt(b, c),
    ensures
        spec_value_lt(a, c),
{
    match (a, b, c) {
        (ValueView::Symbol(x), ValueView::Symbol(y), ValueView::Symbol(z)) => lemma_str_lt_trans(x, y, z),
        (ValueView::String(x), ValueView::String(y), ValueView::String(z)) => lemma_str_lt_trans(x, y, z),
        (ValueView::Float(x), ValueView::Float(y), ValueView::Float(z)) => lemma_str_lt_trans(x, y, z),
        _ => {},
    }
}

proof fn lemma_value_lt_total(a: ValueView, b: ValueView)
    requires
        a != b,
    ensures
        spec_value_lt(a, b) || spec_value_lt(b, a),
{
    match (a, b) {
        (ValueView::Symbol(x), ValueView::Symbol(y)) => lemma_str_lt_total(x, y),
        (ValueView::String(x), ValueView::String(y)) => lemma_str_lt_total(x, y),
        (ValueView::Float(x), ValueView::Float(y)) => lemma_str_lt_total(x, y),
        _ => {},
    }
}

proof fn lemma_row_lt_irrefl(a: Seq<ValueView>)
    ensures
        !spec_row_lt(a, a),
    decreases a.len(),
{
    if a.len() > 0 {
        lemma_row_lt_irrefl(a.drop_first());
    }
}

proof fn lemma_row_lt_trans(a: Seq<ValueView>, b: Seq<ValueView>, c: Seq<ValueView>)
    requires
        spec_row_lt(a, b),
        spec_row_lt(b, c),
    ensures
        spec_row_lt(a, c),
    decreases a.len(),
{
    if a.len() > 0 && b.len() > 0 && c.len() > 0 {
        if a[0] == b[0] && b[0] == c[0] {
            lemma_row_lt_trans(a.drop_first(), b.drop_first(), c.drop_first());
        } else if a[0] != b[0] && b[0] != c[0] {
            lemma_value_lt_trans(a[0], b[0], c[0]);
            if a[0] == c[0] {
                lemma_value_lt_irrefl(a[0]);
            }
        }
    }
}

proof fn lemma_row_lt_total(a: Seq<ValueView>, b: Seq<ValueView>)
    requires
        a != b,
    ensures
        spec_row_lt(a, b) || spec_row_lt(b, a),
    decreases a.len(),
{
    if a.len() > 0 && b.len() > 0 {
        if a[0] == b[0] {
            if a.drop_first() == b.drop_first() {
                assert(a =~= seq![a[0]] + a.drop_first());
                assert(b =~= seq![b[0]] + b.drop_first());
            }
            lemma_row_lt_total(a.drop_first(), b.drop_first());
        } else {
            lemma_value_lt_total(a[0], b[0]);
        }
    } else if a.len() == 0 && b.len() == 0 {
        assert(a =~= b);
    }
}

/// The rank of a value's kind.
fn kind_rank(v: &Value) -> (r: u8)
    ensures
        r as int == spec_kind_rank(v@),
{
    match v {
        Value::Absent => 0,
        Value::Symbol(_) => 1,
        Value::String(_) => 2,
        Value::Int(_) => 3,
        Value::Float(_) => 4,
        Value::Bool(_) => 5,
        Value::Date(_) => 6,
        Value::Timestamp(_) => 7,
        Value::Duration(_) => 8,
    }
}

fn text_lt(a: &str, b: &str) -> (r: bool)
    ensures
        r == spec_str_lt(a@, b@),
{
    let x = chars_of(a);
    let y = chars_of(b);
    str_lt(x.as_slice(), y.as_slice())
}

/// Whether `a` comes before `b` in the order of values.
pub(crate) fn value_less(a: &Value, b: &Value) -> (r: bool)
    ensures
        r == spec_value_lt(a@, b@),
{
    match (a, b) {
        (Value::Symbol(x), Value::Symbol(y)) => text_lt(x.as_str(), y.as_str()),
        (Value::String(x), Value::String(y)) => text_lt(x.as_str(), y.as_str()),
        (Value::Int(x), Value::Int(y)) => *x < *y,
        (Value::Float(x), Value::Float(y)) => text_lt(x.text.as_str(), y.text.as_str()),
        (Value::Bool(x), Value::Bool(y)) => !*x && *y,
        (Value::Date(x), Value::Date(y)) => x.days() < y.days(),
        (Value::Timestamp(x), Value::Timestamp(y)) => x.micros() < y.micros(),
        (Value::Duration(x), Value::Duration(y)) => x.micros() < y.micros(),
        _ => kind_rank(a) < kind_rank(b),
    }
}

/// Whether row `a` comes before row `b`.
pub(crate) fn row_less(a: &Vec<Value>, b: &Vec<Value>) -> (r: bool)
    ensures
        r == spec_row_lt(spec_row_view(*a), spec_row_view(*b)),
{
    let ghost va = spec_row_view(*a);
    let ghost vb = spec_row_view(*b);
    let mut i: usize = 0;
    assert(va.skip(0) =~= va);
    assert(vb.skip(0) =~= vb);
    while i < a.len() && i < b.len()
        invariant
            i <= a@.len(),
            i <= b@.len(),
            va == spec_row_view(*a),
            vb == spec_row_view(*b),
            spec_row_lt(va, vb) == spec_row_lt(va.skip(i as int), vb.skip(i as int)),
        decreases a.len() - i,
    {
        assert(va.skip(i as int)[0] == a@[i as int]@);
        assert(vb.skip(i as int)[0] == b@[i as int]@);
        if !crate::ir::value_eq(&a[i], &b[i]) {
            return value_less(&a[i], &b[i]);
        }
        assert(va.skip(i as int).drop_first() =~= va.skip(i + 1));
        assert(vb.skip(i as int).drop_first() =~= vb.skip(i + 1));
        i += 1;
    }
    i == a.len() && i < b.len()
}

/// Whether two rows hold the same values.
fn row_same(a: &Vec<Value>, b: &Vec<Value>) -> (r: bool)
    ensures
        r == (spec_row_view(*a) == spec_row_view(*b)),
{
    if a.len() != b.len() {
        assert(spec_row_view(*a).len() != spec_row_view(*b).len());
        return false;
    }
    let mut i: usize = 0;
    while i < a.len()
        invariant
            i <= a@.len() == b@.len(),
            forall|k: int| 0 <= k < i ==> a@[k]@ == b@[k]@,
        decreases a.len() - i,
    {
        if !crate::ir::value_eq(&a[i], &b[i]) {
            assert(spec_row_view(*a)[i as int] != spec_row_view(*b)[i as int]);
            return false;
        }
        i += 1;
    }
    assert(spec_row_view(*a) =~= spec_row_view(*b));
    true
}

/// Adds a row to strictly sorted rows, where it sorts, unless an equal row
/// is there already.
fn insert_sorted(rows: &mut Vec<Vec<Value>>, row: Vec<Value>)
    requires
        spec_strictly_sorted(spec_row_views(old(rows)@)),
    ensures
        spec_strictly_sorted(spec_row_views(final(rows)@)),
        forall|x: Seq<ValueView>|
            spec_row_views(final(rows)@).contains(x) <==> (spec_row_views(old(rows)@).contains(x) || x
                == spec_row_view(row)),
        final(rows)@.len() <= old(rows)@.len() + 1,
{
    let ghost old_views = spec_row_views(rows@);
    let ghost rv = spec_row_view(row);
    let mut i: usize = 0;
    while i < rows.len() && row_less(&rows[i], &row)
        invariant
            i <= rows@.len(),
            rows@ == old(rows)@,
            old_views == spec_row_views(rows@),
            rv == spec_row_view(row),
            forall|k: int| 0 <= k < i ==> spec_row_lt(#[trigger] old_views[k], rv),
        decreases rows.len() - i,
    {
        i += 1;
    }
    if i < rows.len() && row_same(&rows[i], &row) {
        assert(old_views[i as int] == rv);
        assert forall|x: Seq<ValueView>| spec_row_views(rows@).contains(x) <==> (old_views.contains(x) || x == rv) by {
            if x == rv {
                assert(old_views[i as int] == x);
            }
        }
        return;
    }
    proof {
        if i < rows.len() {
            assert(!spec_row_lt(old_views[i as int], rv));
            lemma_row_lt_total(old_views[i as int], rv);
        }
    }
    rows.insert(i, row);
    let ghost new_views = spec_row_views(rows@);
    assert(new_views =~= old_views.insert(i as int, rv));
    assert forall|a: int, b: int| 0 <= a < b < new_views.len() implies spec_row_lt(
        #[trigger] new_views[a],
        #[trigger] new_views[b],
    ) by {
        if b < i {
        } else if a < i && b == i {
        } else if a < i && b > i {
            assert(new_views[b] == old_views[b - 1]);
        } else if a == i {
            assert(new_views[b] == old_views[b - 1]);
            if b - 1 > i {
                lemma_row_lt_trans(rv, old_views[i as int], old_views[b - 1]);
            }
        } else {
            assert(new_views[a] == old_views[a - 1]);
            assert(new_views[b] == old_views[b - 1]);
        }
    }
    assert forall|x: Seq<ValueView>| new_views.contains(x) <==> (old_views.contains(x) || x == rv) by {
        if new_views.contains(x) {
            let k = choose|k: int| 0 <= k < new_views.len() && new_views[k] == x;
            if k < i {
                assert(old_views[k] == x);
            } else if k > i {
                assert(old_views[k - 1] == x);
            }
        }
        if old_views.contains(x) {
            let k = choose|k: int| 0 <= k < old_views.len() && old_views[k] == x;
            if k < i {
                assert(new_views[k] == x);
            } else {
                assert(new_views[k + 1] == x);
            }
        }
        if x == rv {
            assert(new_views[i as int] == x);
        }
    }
}

/// A table row typed from a data row: one value per column, each fitting
/// its column's type, and a cell of the column's own kind (or `absent`)
/// keeping its value.
pub open spec fn spec_typed_row(out: Seq<ValueView>, src: Seq<RawValueView>, tys: Seq<TypeName>) -> bool {
    &&& out.len() == tys.len()
    &&& src.len() == tys.len()
    &&& forall|c: int| 0 <= c < tys.len() ==> spec_conforms(#[trigger] out[c], tys[c])
    &&& forall|c: int|
        0 <= c < tys.len() ==> (spec_direct_value(#[trigger] src[c], tys[c]) matches Some(w) ==> out[c] == w)
}

/// `row` is typed from one of the data rows.
pub open spec fn spec_typed_from_some(row: Seq<ValueView>, data: Seq<Seq<RawValueView>>, tys: Seq<TypeName>) -> bool {
    exists|q: int| 0 <= q < data.len() && #[trigger] spec_typed_row(row, data[q], tys)
}

/// One of the rows is typed from data row `src`.
pub open spec fn spec_typing_kept(views: Seq<Seq<ValueView>>, src: Seq<RawValueView>, tys: Seq<TypeName>) -> bool {
    exists|i: int| 0 <= i < views.len() && #[trigger] spec_typed_row(views[i], src, tys)
}

/// Each row is typed from a data row, and each data row's typing is one of
/// the rows.
pub open spec fn spec_rows_typed_from(views: Seq<Seq<ValueView>>, data: Seq<Seq<RawValueView>>, tys: Seq<TypeName>) -> bool {
    &&& forall|i: int| 0 <= i < views.len() ==> spec_typed_from_some(#[trigger] views[i], data, tys)
    &&& forall|q: int| 0 <= q < data.len() ==> spec_typing_kept(views, #[trigger] data[q], tys)
}

/// Each column's type is the one its schema field declares, where it
/// declares one.
pub open spec fn spec_declared_respected(schema: Option<Seq<FieldDecl>>, tys: Seq<TypeName>) -> bool {
    schema matches Some(s) ==> forall|c: int|
        0 <= c < tys.len() && c < s.len() ==> ((#[trigger] s[c]).ty matches Some(d) ==> tys[c] == d)
}

/// `t` is the table typed from `raw` under `schema`, with column types `tys`
/// and data rows `data`: its fields and data rows are the arrangement's, its
/// field names are distinct, each column has one type (the declared one
/// where there is one), its rows are strictly sorted, each row is typed from
/// a data row, and each data row's typing is one of its rows.
pub open spec fn spec_table_from(
    raw: RawTable,
    schema: Option<Seq<FieldDecl>>,
    t: LoadedTable,
    tys: Seq<TypeName>,
    data: Seq<Seq<RawValueView>>,
) -> bool {
    &&& spec_arrangement(raw, schema, spec_names(t.fields@), data)
    &&& spec_distinct_names(t.fields@)
    &&& tys.len() == t.fields@.len()
    &&& spec_declared_respected(schema, tys)
    &&& spec_strictly_sorted(spec_row_views(t.rows@))
    &&& spec_rows_typed_from(spec_row_views(t.rows@), data, tys)
}

/// `t` is the table typed from `raw` under `schema`.
pub open spec fn spec_finalized(raw: RawTable, schema: Option<Seq<FieldDecl>>, t: LoadedTable) -> bool {
    exists|tys: Seq<TypeName>, data: Seq<Seq<RawValueView>>| #[trigger] spec_table_from(raw, schema, t, tys, data)
}

/// Without a schema, a row whose cell count differs from the field count: a
/// self-describing source's row against its columns, a CSV row against its
/// header.
pub open spec fn spec_ragged(raw: RawTable, has_schema: bool) -> bool {
    !has_schema && match raw.columns {
        Some(cs) => exists|r: int| 0 <= r < raw.rows@.len() && (#[trigger] raw.rows@[r])@.len() != cs@.len(),
        None => raw.rows@.len() > 0 && exists|r: int|
            1 <= r < raw.rows@.len() && (#[trigger] raw.rows@[r])@.len() != raw.rows@[0]@.len(),
    }
}

fn append_errors(errors: &mut Vec<Error>, more: Vec<Error>)
    requires
        all_source(old(errors)@),
        all_source(more@),
        more@.len() > 0,
    ensures
        all_source(final(errors)@),
        final(errors)@.len() > 0,
{
    let mut more = more;
    errors.append(&mut more);
}

proof fn lemma_take_push_contains(
    before: Seq<Seq<ValueView>>,
    after: Seq<Seq<ValueView>>,
    assembled: Seq<Seq<ValueView>>,
    r: int,
    rv: Seq<ValueView>,
)
    requires
        0 <= r < assembled.len(),
        rv == assembled[r],
        forall|x: Seq<ValueView>| before.contains(x) <==> assembled.take(r).contains(x),
        forall|x: Seq<ValueView>| after.contains(x) <==> (before.contains(x) || x == rv),
    ensures
        forall|x: Seq<ValueView>| after.contains(x) <==> assembled.take(r + 1).contains(x),
{
    let prev = assembled.take(r);
    let next = assembled.take(r + 1);
    assert forall|x: Seq<ValueView>| after.contains(x) <==> next.contains(x) by {
        if prev.contains(x) {
            let k = choose|k: int| 0 <= k < prev.len() && prev[k] == x;
            assert(next[k] == x);
        }
        if x == rv {
            assert(next[r] == x);
        }
        if next.contains(x) {
            let k = choose|k: int| 0 <= k < next.len() && next[k] == x;
            if k < r {
                assert(prev[k] == x);
            }
        }
    }
}

proof fn lemma_assembled_row_typed(
    data: Seq<Vec<RawValue>>,
    columns: Seq<Vec<Value>>,
    tys: Seq<TypeName>,
    q: int,
    arity: int,
)
    requires
        0 <= q < data.len(),
        columns.len() == arity,
        tys.len() == arity,
        data[q]@.len() == arity,
        forall|c: int|
            0 <= c < arity ==> (#[trigger] columns[c])@.len() == data.len() && spec_column_values(
                data,
                c,
                columns[c]@,
                tys[c],
            ),
    ensures
        spec_typed_row(Seq::new(arity as nat, |c: int| columns[c]@[q]@), spec_raw_row(data[q]), tys),
{
    let out = Seq::new(arity as nat, |c: int| columns[c]@[q]@);
    let src = spec_raw_row(data[q]);
    assert forall|c: int| 0 <= c < tys.len() implies spec_conforms(#[trigger] out[c], tys[c]) by {
        assert(spec_column_values(data, c, columns[c]@, tys[c]));
    }
    assert forall|c: int| 0 <= c < tys.len() implies (spec_direct_value(#[trigger] src[c], tys[c]) matches Some(w)
        ==> out[c] == w) by {
        assert(spec_column_values(data, c, columns[c]@, tys[c]));
    }
}

proof fn lemma_rows_typed(
    views: Seq<Seq<ValueView>>,
    assembled: Seq<Seq<ValueView>>,
    data: Seq<Seq<RawValueView>>,
    tys: Seq<TypeName>,
)
    requires
        assembled.len() == data.len(),
        forall|x: Seq<ValueView>| views.contains(x) <==> assembled.contains(x),
        forall|q: int| 0 <= q < assembled.len() ==> #[trigger] spec_typed_row(assembled[q], data[q], tys),
    ensures
        spec_rows_typed_from(views, data, tys),
{
    assert forall|i: int| 0 <= i < views.len() implies spec_typed_from_some(#[trigger] views[i], data, tys) by {
        assert(views.contains(views[i]));
        let q = choose|q: int| 0 <= q < assembled.len() && assembled[q] == views[i];
        assert(spec_typed_row(assembled[q], data[q], tys));
    }
    assert forall|q: int| 0 <= q < data.len() implies spec_typing_kept(views, #[trigger] data[q], tys) by {
        assert(assembled.contains(assembled[q]));
        let i = choose|i: int| 0 <= i < views.len() && views[i] == assembled[q];
        assert(spec_typed_row(assembled[q], data[q], tys));
        assert(spec_typed_row(views[i], data[q], tys));
    }
}

/// The declared type of column `c`, where a schema declares one.
pub open spec fn spec_declared(schema: Option<Seq<FieldDecl>>, c: int) -> Option<TypeName> {
    match schema {
        Some(s) => s[c].ty,
        None => None,
    }
}

/// Arranged rows type: each has a cell per field, and every column types.
pub open spec fn spec_table_types(data: Seq<Seq<RawValueView>>, n: nat, schema: Option<Seq<FieldDecl>>) -> bool {
    &&& forall|r: int| 0 <= r < data.len() ==> (#[trigger] data[r]).len() == n
    &&& forall|c: int| 0 <= c < n ==> spec_column_ok(#[trigger] spec_cells(data, c), spec_declared(schema, c))
}

/// A raw table a fact table is owed for: its names arrange, and the arranged
/// rows type.
pub open spec fn spec_finalize_ok(raw: RawTable, schema: Option<Seq<FieldDecl>>) -> bool {
    &&& spec_arrange_ok(raw, schema)
    &&& forall|fields: Seq<Seq<char>>, data: Seq<Seq<RawValueView>>|
        #[trigger] spec_arrangement(raw, schema, fields, data) ==> spec_table_types(data, fields.len(), schema)
}

/// Types a reader's raw table into a fact table: the field names (header
/// extraction for CSV, binding by name for a self-describing source under a
/// schema), every row's cell count, each column's type (declared, else
/// inferred) and every cell's conversion; then the rows, sorted, each once.
/// `source` names the import in messages. Every failure found at a stage is
/// reported together.
pub fn finalize(raw: RawTable, schema: Option<&[FieldDecl]>, source: &str) -> (r: Result<LoadedTable, Vec<Error>>)
    requires
        spec_rows_cover_columns(raw, schema is Some),
    ensures
        r matches Ok(t) ==> spec_finalized(raw, spec_schema(schema), t),
        r matches Ok(t) ==> spec_legal_names(spec_names(t.fields@)),
        spec_finalize_ok(raw, spec_schema(schema)) ==> r is Ok,
        r matches Err(es) ==> es@.len() > 0 && all_source(es@),
        (raw.columns is None && schema is None && raw.rows@.len() == 0) ==> r is Err,
        (spec_no_records(raw) && schema is None) ==> r is Err,
        spec_ragged(raw, schema is Some) ==> r is Err,
{
    let ghost raw0 = raw;
    let (fields, data, first_data_row) = match arrange(raw, schema, source) {
        Ok(a) => a,
        Err(es) => return Err(es),
    };
    let ghost dv = spec_raw_rows(data@);
    let ghost fv = spec_names(fields@);
    let ghost owed = spec_finalize_ok(raw0, spec_schema(schema));
    assert(fv.len() == fields@.len());
    proof {
        if owed {
            assert(spec_arrangement(raw0, spec_schema(schema), fv, dv));
            assert(spec_table_types(dv, fv.len(), spec_schema(schema)));
        }
    }
    let arity = fields.len();
    let mut errors: Vec<Error> = Vec::new();
    let mut index: usize = 0;
    while index < data.len()
        invariant
            index <= data@.len(),
            arity == fields@.len(),
            all_source(errors@),
            dv == spec_raw_rows(data@),
            owed ==> spec_table_types(dv, arity as nat, spec_schema(schema)) && errors@.len() == 0,
            errors@.len() == 0 ==> forall|i: int| 0 <= i < index ==> (#[trigger] data@[i])@.len() == arity,
        decreases data.len() - index,
    {
        proof {
            if owed {
                assert(dv[index as int].len() == arity);
            }
        }
        if data[index].len() != arity {
            let row: u64 = if (first_data_row as u64) < 0xffff_ffff_ffff_ffff - (index as u64) {
                first_data_row as u64 + index as u64
            } else {
                0xffff_ffff_ffff_ffff
            };
            let m = cat(
                &[
                    "in `",
                    source,
                    "`: row ",
                    num(row).as_str(),
                    " has ",
                    num(data[index].len() as u64).as_str(),
                    " column(s), expected ",
                    num(arity as u64).as_str(),
                ],
            );
            push_error(&mut errors, source_error(ErrorCode::SourceSchemaMismatch, m));
        }
        index += 1;
    }
    if errors.len() > 0 {
        return Err(errors);
    }
    proof {
        assert forall|i: int| 0 <= i < dv.len() implies (#[trigger] dv[i]).len() == arity by {
            assert(data@[i]@.len() == arity);
        }
        if spec_ragged(raw0, schema is Some) {
            match raw0.columns {
                Some(cs) => {
                    let r = choose|r: int| 0 <= r < raw0.rows@.len() && (#[trigger] raw0.rows@[r])@.len() != cs@.len();
                    assert(dv[r] == spec_raw_row(raw0.rows@[r]));
                },
                None => {
                    let r = choose|r: int|
                        1 <= r < raw0.rows@.len() && (#[trigger] raw0.rows@[r])@.len() != raw0.rows@[0]@.len();
                    assert(dv[r - 1] == spec_raw_row(raw0.rows@[r]));
                    assert(fv.len() == spec_raw_row(raw0.rows@[0]).len());
                },
            }
        }
    }
    let mut columns: Vec<Vec<Value>> = Vec::new();
    let ghost mut tys: Seq<TypeName> = Seq::empty();
    let mut col: usize = 0;
    while col < arity
        invariant
            col <= arity,
            arity == fields@.len(),
            fv == spec_names(fields@),
            spec_arrangement(raw0, spec_schema(schema), fv, dv),
            dv == spec_raw_rows(data@),
            forall|i: int| 0 <= i < data@.len() ==> (#[trigger] data@[i])@.len() == arity,
            all_source(errors@),
            errors@.len() == 0 ==> columns@.len() == col && tys.len() == col,
            errors@.len() == 0 ==> forall|c: int|
                0 <= c < col ==> (#[trigger] columns@[c])@.len() == data@.len() && spec_column_values(
                    data@,
                    c,
                    columns@[c]@,
                    tys[c],
                ),
            errors@.len() == 0 ==> spec_declared_respected(spec_schema(schema), tys),
            owed ==> spec_table_types(dv, arity as nat, spec_schema(schema)) && errors@.len() == 0,
        decreases arity - col,
    {
        let declared = match schema {
            Some(s) => {
                assert(spec_schema_names(s@).len() == s@.len());
                s[col].ty
            },
            None => None,
        };
        proof {
            assert forall|i: int| 0 <= i < data@.len() implies (#[trigger] data@[i])@.len() >= col + 1 by {}
        }
        proof {
            if owed {
                assert(spec_cells(spec_raw_rows(data@), col as int) =~= spec_cells(dv, col as int));
                assert(declared == spec_declared(spec_schema(schema), col as int));
                assert(spec_column_ok(spec_cells(dv, col as int), spec_declared(spec_schema(schema), col as int)));
            }
        }
        match type_column(&data, col, declared, fields[col].as_str(), first_data_row, source) {
            Ok((ty, values)) => {
                columns.push(values);
                proof {
                    let old_tys = tys;
                    tys = tys.push(ty);
                    if errors@.len() == 0 {
                        if schema is Some {
                            let sv = spec_schema(schema)->0;
                            assert(declared == sv[col as int].ty);
                            assert forall|c: int| 0 <= c < tys.len() && c < sv.len() implies ((#[trigger] sv[c]).ty matches Some(
                                d,
                            ) ==> tys[c] == d) by {
                                if c < col {
                                    assert(tys[c] == old_tys[c]);
                                } else {
                                    assert(c == col);
                                    assert(tys[c] == ty);
                                }
                            }
                        }
                    }
                }
            },
            Err(es) => append_errors(&mut errors, es),
        }
        col += 1;
    }
    if errors.len() > 0 {
        return Err(errors);
    }
    let ghost assembled: Seq<Seq<ValueView>> = Seq::new(
        data@.len(),
        |r: int| Seq::new(arity as nat, |c: int| columns@[c]@[r]@),
    );
    let mut out: Vec<Vec<Value>> = Vec::new();
    let mut r: usize = 0;
    while r < data.len()
        invariant
            r <= data@.len(),
            columns@.len() == arity,
            forall|c: int| 0 <= c < arity ==> (#[trigger] columns@[c])@.len() == data@.len(),
            assembled == Seq::new(data@.len(), |r: int| Seq::new(arity as nat, |c: int| columns@[c]@[r]@)),
            spec_strictly_sorted(spec_row_views(out@)),
            forall|x: Seq<ValueView>| spec_row_views(out@).contains(x) <==> assembled.take(r as int).contains(x),
        decreases data.len() - r,
    {
        let mut row: Vec<Value> = Vec::new();
        let mut c: usize = 0;
        while c < columns.len()
            invariant
                c <= columns@.len(),
                r < data@.len(),
                forall|k: int| 0 <= k < columns@.len() ==> (#[trigger] columns@[k])@.len() == data@.len(),
                row@.len() == c,
                forall|k: int| 0 <= k < c ==> (#[trigger] row@[k])@ == columns@[k]@[r as int]@,
            decreases columns.len() - c,
        {
            row.push(crate::ir::copy_value(&columns[c][r]));
            c += 1;
        }
        assert(spec_row_view(row) =~= assembled[r as int]);
        let ghost rv = spec_row_view(row);
        let ghost before = spec_row_views(out@);
        insert_sorted(&mut out, row);
        proof {
            lemma_take_push_contains(before, spec_row_views(out@), assembled, r as int, rv);
        }
        r += 1;
    }
    let table = LoadedTable { fields, rows: out };
    proof {
        assert(assembled.take(data@.len() as int) =~= assembled);
        assert forall|q: int| 0 <= q < assembled.len() implies #[trigger] spec_typed_row(assembled[q], dv[q], tys) by {
            lemma_assembled_row_typed(data@, columns@, tys, q, arity as int);
            assert(assembled[q] =~= Seq::new(arity as nat, |c: int| columns@[c]@[q]@));
        }
        let views = spec_row_views(table.rows@);
        lemma_rows_typed(views, assembled, dv, tys);
        assert(spec_names(table.fields@) == fv);
        assert(spec_table_from(raw0, spec_schema(schema), table, tys, dv));
    }
    Ok(table)
}

} // verus!
