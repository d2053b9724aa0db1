//! External fact sources: dispatching a data import on its path, and loading
//! the imports of a resolved program.
//!
//! A data import (`import "<path>" as rel.`) names its format by extension;
//! a URL by the extension of its path portion. Database paths and the `table`
//! selection are reserved. This build carries no reader backend, so every
//! data import it would read is refused with a message saying so; module
//! paths (`.dl`) and unknown formats are refused with their own advice.
use vstd::prelude::*;

use crate::ast::{FieldDecl, ImportKind, Program, Span, StatementKind};
use crate::error::{Error, ErrorCode};
use crate::ir::Value;
use crate::text::{chars_of, push_str, sub_string, to_owned};

pub mod formats;
pub mod table;

verus! {

/// A loaded table: its field names and its rows.
#[derive(Debug, Clone, PartialEq)]
pub struct LoadedTable {
    pub fields: Vec<String>,
    pub rows: Vec<Vec<Value>>,
}

/// The formats a reader backend would read.
#[derive(Debug, Clone, Copy, PartialEq, Eq, Structural)]
pub enum DataFormat {
    Csv,
    Jsonl,
    Parquet,
}

/// Whether `path` is an http(s) URL.
pub open spec fn spec_is_url(path: Seq<char>) -> bool {
    path.len() >= 7 && path.take(7) == "http://"@ || path.len() >= 8 && path.take(8) == "https://"@
}

/// Whether `s` starts with `prefix`.
fn starts_with(s: &[char], prefix: &str) -> (r: bool)
    ensures
        r == (s@.len() >= prefix@.len() && s@.take(prefix@.len() as int) == prefix@),
{
    let p = chars_of(prefix);
    if s.len() < p.len() {
        return false;
    }
    let mut i: usize = 0;
    while i < p.len()
        invariant
            i <= p.len() <= s.len(),
            p@ == prefix@,
            forall|j: int| 0 <= j < i ==> s@[j] == p@[j],
        decreases p.len() - i,
    {
        if s[i] != p[i] {
            assert(s@.take(p@.len() as int)[i as int] != p@[i as int]);
            return false;
        }
        i += 1;
    }
    assert(s@.take(p@.len() as int) =~= p@);
    true
}

/// Whether `path` is an http(s) URL.
pub fn is_url(path: &str) -> (r: bool)
    ensures
        r == spec_is_url(path@),
{
    let v = chars_of(path);
    proof {
        reveal_strlit("http://");
        reveal_strlit("https://");
    }
    starts_with(v.as_slice(), "http://") || starts_with(v.as_slice(), "https://")
}

/// The index of the first `?` or `#` in `s`, or its length.
pub open spec fn query_start(s: Seq<char>) -> int
    decreases s.len(),
{
    if s.len() == 0 {
        0
    } else if s[0] == '?' || s[0] == '#' {
        0
    } else {
        1 + query_start(s.drop_first())
    }
}

proof fn lemma_query_start(s: Seq<char>, i: int)
    requires
        0 <= i <= s.len(),
        forall|j: int| 0 <= j < i ==> s[j] != '?' && s[j] != '#',
    ensures
        query_start(s) == i + query_start(s.skip(i)),
        0 <= query_start(s) <= s.len(),
    decreases i,
{
    lemma_query_start_bounds(s);
    if i > 0 {
        lemma_query_start(s.drop_first(), i - 1);
        assert(s.drop_first().skip(i - 1) =~= s.skip(i));
    } else {
        assert(s.skip(0) =~= s);
    }
}

proof fn lemma_query_start_bounds(s: Seq<char>)
    ensures
        0 <= query_start(s) <= s.len(),
    decreases s.len(),
{
    if s.len() > 0 {
        lemma_query_start_bounds(s.drop_first());
    }
}

/// The path portion of a URL: everything before the query (`?`) or the
/// fragment (`#`), so the format dispatch ignores a query string.
pub fn url_path_part(url: &str) -> (r: String)
    ensures
        r@ == url@.take(query_start(url@)),
{
    let v = chars_of(url);
    let mut i: usize = 0;
    while i < v.len() && v[i] != '?' && v[i] != '#'
        invariant
            i <= v.len(),
            v@ == url@,
            forall|j: int| 0 <= j < i ==> v@[j] != '?' && v@[j] != '#',
        decreases v.len() - i,
    {
        i += 1;
    }
    proof {
        lemma_query_start(url@, i as int);
        if i < v.len() {
            assert(url@.skip(i as int)[0] == url@[i as int]);
        }
    }
    sub_string(v.as_slice(), 0, i)
}

/// The ASCII lowercase of a character.
pub open spec fn ascii_lower(c: char) -> char {
    if 'A' <= c <= 'Z' {
        ((c as u32) + 32) as char
    } else {
        c
    }
}

/// The ASCII lowercase of a character.
fn lower_char(c: char) -> (r: char)
    ensures
        r == ascii_lower(c),
{
    if 'A' <= c && c <= 'Z' {
        ((c as u8) + 32) as char
    } else {
        c
    }
}

/// The ASCII lowercase of a text.
pub open spec fn lowercase(s: Seq<char>) -> Seq<char> {
    s.map_values(|c: char| ascii_lower(c))
}

fn lower_chars(v: &[char]) -> (r: Vec<char>)
    ensures
        r@ == lowercase(v@),
{
    let mut r: Vec<char> = Vec::new();
    let mut i: usize = 0;
    while i < v.len()
        invariant
            i <= v.len(),
            r@ == lowercase(v@.take(i as int)),
        decreases v.len() - i,
    {
        r.push(lower_char(v[i]));
        i += 1;
        assert(r@ =~= lowercase(v@.take(i as int)));
    }
    assert(v@.take(i as int) =~= v@);
    r
}

/// Whether `s` ends with `suffix`.
pub open spec fn ends_with(s: Seq<char>, suffix: Seq<char>) -> bool {
    s.len() >= suffix.len() && s.skip(s.len() - suffix.len()) == suffix
}

fn chars_end_with(s: &[char], suffix: &str) -> (r: bool)
    ensures
        r == ends_with(s@, suffix@),
{
    let p = chars_of(suffix);
    if s.len() < p.len() {
        return false;
    }
    let off = s.len() - p.len();
    let mut i: usize = 0;
    while i < p.len()
        invariant
            i <= p.len(),
            off + p.len() == s.len(),
            p@ == suffix@,
            forall|j: int| 0 <= j < i ==> s@[off + j] == p@[j],
        decreases p.len() - i,
    {
        if s[off + i] != p[i] {
            assert(s@.skip(off as int)[i as int] != p@[i as int]);
            return false;
        }
        i += 1;
    }
    assert(s@.skip(off as int) =~= p@);
    true
}

/// Whether a path names a database file, whose imports are reserved.
pub open spec fn spec_has_database_extension(path: Seq<char>) -> bool {
    let lower = lowercase(path);
    ends_with(lower, ".duckdb"@) || ends_with(lower, ".db"@) || ends_with(lower, ".sqlite"@)
        || ends_with(lower, ".sqlite3"@)
}

/// Whether a path names a database file, whose imports are reserved.
pub fn has_database_extension(path: &str) -> (r: bool)
    ensures
        r == spec_has_database_extension(path@),
{
    let v = chars_of(path);
    let lower = lower_chars(v.as_slice());
    chars_end_with(lower.as_slice(), ".duckdb") || chars_end_with(lower.as_slice(), ".db")
        || chars_end_with(lower.as_slice(), ".sqlite") || chars_end_with(lower.as_slice(), ".sqlite3")
}

/// The last index of `c` in `s`, if any.
pub open spec fn last_index(s: Seq<char>, c: char) -> Option<int>
    decreases s.len(),
{
    if s.len() == 0 {
        None
    } else if s.last() == c {
        Some(s.len() - 1)
    } else {
        last_index(s.drop_last(), c)
    }
}

/// `s` without its trailing `/` characters.
pub open spec fn trim_slashes(s: Seq<char>) -> Seq<char>
    decreases s.len(),
{
    if s.len() > 0 && s.last() == '/' {
        trim_slashes(s.drop_last())
    } else {
        s
    }
}

/// The last component of a path: after the last `/`, trailing slashes ignored.
pub open spec fn file_name(path: Seq<char>) -> Seq<char> {
    let t = trim_slashes(path);
    match last_index(t, '/') {
        Some(i) => t.skip(i + 1),
        None => t,
    }
}

/// A path's extension: the text after the last `.` of its file name, where
/// that `.` is not the name's first character (`.bashrc` has none), and the
/// name is not `.` or `..`.
pub open spec fn extension(path: Seq<char>) -> Option<Seq<char>> {
    let name = file_name(path);
    if name == "."@ || name == ".."@ {
        None
    } else {
        match last_index(name, '.') {
            Some(i) => if i > 0 {
                Some(name.skip(i + 1))
            } else {
                None
            },
            None => None,
        }
    }
}

proof fn lemma_last_index(s: Seq<char>, c: char)
    ensures
        last_index(s, c) matches Some(i) ==> 0 <= i < s.len() && s[i] == c && forall|j: int|
            i < j < s.len() ==> s[j] != c,
        last_index(s, c) is None ==> forall|j: int| 0 <= j < s.len() ==> s[j] != c,
    decreases s.len(),
{
    if s.len() > 0 {
        let t = s.drop_last();
        lemma_last_index(t, c);
        assert forall|j: int| 0 <= j < t.len() implies t[j] == s[j] by {}
    }
}

/// The last index of `c` in `v`.
fn find_last(v: &[char], c: char) -> (r: Option<usize>)
    ensures
        r matches Some(i) ==> last_index(v@, c) == Some(i as int) && i < v@.len(),
        r is None ==> last_index(v@, c) is None,
{
    proof {
        lemma_last_index(v@, c);
    }
    let mut i: usize = v.len();
    assert(v@.take(i as int) =~= v@);
    while i > 0
        invariant
            i <= v.len(),
            last_index(v@, c) == last_index(v@.take(i as int), c),
        decreases i,
    {
        assert(v@.take(i as int).last() == v@[i - 1]);
        assert(v@.take(i as int).drop_last() =~= v@.take(i - 1));
        if v[i - 1] == c {
            return Some(i - 1);
        }
        i -= 1;
    }
    assert(v@.take(0) =~= Seq::<char>::empty());
    None
}

/// `s` without its trailing `/` characters, as a length.
fn trimmed_len(v: &[char]) -> (r: usize)
    ensures
        r <= v.len(),
        v@.take(r as int) == trim_slashes(v@),
{
    let mut n: usize = v.len();
    assert(v@.take(n as int) =~= v@);
    while n > 0 && v[n - 1] == '/'
        invariant
            n <= v.len(),
            trim_slashes(v@) == trim_slashes(v@.take(n as int)),
        decreases n,
    {
        assert(v@.take(n as int).drop_last() =~= v@.take(n - 1));
        n -= 1;
    }
    n
}

/// A path's extension.
pub fn path_extension(path: &[char]) -> (r: Option<Vec<char>>)
    ensures
        match extension(path@) {
            Some(e) => r matches Some(x) && x@ == e,
            None => r is None,
        },
{
    let n = trimmed_len(path);
    let t = crate::text::copy_range(path, 0, n);
    let start = match find_last(t.as_slice(), '/') {
        Some(i) => i + 1,
        None => 0,
    };
    proof {
        lemma_last_index(t@, '/');
    }
    let name = crate::text::copy_range(t.as_slice(), start, t.len());
    assert(name@ =~= file_name(path@));
    proof {
        reveal_strlit(".");
        reveal_strlit("..");
    }
    if name.len() == 1 && name[0] == '.' {
        assert(name@ =~= "."@);
        return None;
    }
    if name.len() == 2 && name[0] == '.' && name[1] == '.' {
        assert(name@ =~= ".."@);
        return None;
    }
    assert(name@ != "."@ && name@ != ".."@);
    match find_last(name.as_slice(), '.') {
        Some(i) => {
            if i > 0 {
                Some(crate::text::copy_range(name.as_slice(), i + 1, name.len()))
            } else {
                None
            }
        },
        None => None,
    }
}

/// The message refusing a reserved database import.
pub open spec fn reserved_message(path: Seq<char>) -> Seq<char> {
    "`"@ + path
        + "`: database imports are not yet implemented (the `table \"…\"` syntax is reserved)"@
}

/// The message for a module path used as data.
pub open spec fn module_path_message(path: Seq<char>) -> Seq<char> {
    "`"@ + path + "`: a `.dl` file is a module import — drop the `as` clause: `import \""@ + path
        + "\".`"@
}

/// The message for a format this build has no reader for.
pub open spec fn no_reader_message(path: Seq<char>) -> Seq<char> {
    "`"@ + path
        + "`: this build has no import support — it includes no reader for CSV, JSONL or Parquet files"@
}

/// The message for an unknown format.
pub open spec fn unsupported_message(path: Seq<char>) -> Seq<char> {
    "`"@ + path
        + "`: unsupported import format; supported: .csv, .jsonl/.ndjson, .parquet (and http(s) URLs)"@
}

/// The message for a local import path that does not exist.
pub open spec fn file_not_found_message(path: Seq<char>) -> Seq<char> {
    "`"@ + path + "`: file not found"@
}

/// "`path`" followed by `rest`.
fn quoted_path_message(path: &str, rest: &str) -> (r: String)
    ensures
        r@ == "`"@ + path@ + rest@,
{
    let mut out = to_owned("`");
    push_str(&mut out, path);
    push_str(&mut out, rest);
    out
}

/// A local import path that does not exist.
pub fn file_not_found(path: &str) -> (r: Error)
    ensures
        r.code == Some(ErrorCode::FileNotFound),
        r.kind == crate::error::ErrorKind::Source,
        r.message@ == file_not_found_message(path@),
        r.span is None,
{
    Error::new(ErrorCode::FileNotFound, quoted_path_message(path, "`: file not found"))
}

/// Which format a path names, by its extension (for a URL, the extension of
/// its path portion), compared without case.
pub enum Dispatch {
    Module,
    Format(DataFormat),
    Unknown,
}

/// The dispatch of a path.
pub open spec fn spec_dispatch(path: Seq<char>) -> Dispatch {
    let portion = if spec_is_url(path) {
        path.take(query_start(path))
    } else {
        path
    };
    match extension(portion) {
        Some(e) => if lowercase(e) == "dl"@ {
            Dispatch::Module
        } else if lowercase(e) == "csv"@ {
            Dispatch::Format(DataFormat::Csv)
        } else if lowercase(e) == "jsonl"@ || lowercase(e) == "ndjson"@ {
            Dispatch::Format(DataFormat::Jsonl)
        } else if lowercase(e) == "parquet"@ {
            Dispatch::Format(DataFormat::Parquet)
        } else {
            Dispatch::Unknown
        },
        None => Dispatch::Unknown,
    }
}

/// Whether `v` spells `s`.
fn spells(v: &[char], s: &str) -> (r: bool)
    ensures
        r == (v@ == s@),
{
    let w = chars_of(s);
    crate::text::chars_equal(v, w.as_slice())
}

/// The format a path names, or the error refusing it: a module path used as
/// data, or an unknown extension.
fn backend_for(path: &str) -> (r: Result<DataFormat, Error>)
    ensures
        match spec_dispatch(path@) {
            Dispatch::Format(f) => r == Ok::<DataFormat, Error>(f),
            Dispatch::Module => r matches Err(e) && e.code == Some(ErrorCode::UnsupportedFormat)
                && e.message@ == module_path_message(path@) && e.span is None && e.kind
                == crate::error::ErrorKind::Source,
            Dispatch::Unknown => r matches Err(e) && e.code == Some(ErrorCode::UnsupportedFormat)
                && e.message@ == unsupported_message(path@) && e.span is None && e.kind
                == crate::error::ErrorKind::Source,
        },
{
    let portion = if is_url(path) {
        url_path_part(path)
    } else {
        to_owned(path)
    };
    let chars = chars_of(portion.as_str());
    let ext = match path_extension(chars.as_slice()) {
        Some(e) => lower_chars(e.as_slice()),
        None => {
            return Err(Error::new(ErrorCode::UnsupportedFormat, unsupported_text(path)));
        },
    };
    if spells(ext.as_slice(), "dl") {
        let mut m = quoted_path_message(path, "`: a `.dl` file is a module import — drop the `as` clause: `import \"");
        push_str(&mut m, path);
        push_str(&mut m, "\".`");
        assert(m@ =~= module_path_message(path@));
        Err(Error::new(ErrorCode::UnsupportedFormat, m))
    } else if spells(ext.as_slice(), "csv") {
        Ok(DataFormat::Csv)
    } else if spells(ext.as_slice(), "jsonl") || spells(ext.as_slice(), "ndjson") {
        Ok(DataFormat::Jsonl)
    } else if spells(ext.as_slice(), "parquet") {
        Ok(DataFormat::Parquet)
    } else {
        Err(Error::new(ErrorCode::UnsupportedFormat, unsupported_text(path)))
    }
}

/// The unsupported-format message.
fn unsupported_text(path: &str) -> (r: String)
    ensures
        r@ == unsupported_message(path@),
{
    let m = quoted_path_message(
        path,
        "`: unsupported import format; supported: .csv, .jsonl/.ndjson, .parquet (and http(s) URLs)",
    );
    assert(m@ =~= unsupported_message(path@));
    m
}

/// The error a data import gets before any row is read: reserved database
/// forms first, then the format dispatch, then (this build having no reader)
/// the missing reader.
pub open spec fn spec_open_error(path: Seq<char>, table: bool) -> Seq<char> {
    if table || spec_has_database_extension(path) {
        reserved_message(path)
    } else {
        match spec_dispatch(path) {
            Dispatch::Module => module_path_message(path),
            Dispatch::Unknown => unsupported_message(path),
            Dispatch::Format(_) => no_reader_message(path),
        }
    }
}

/// The reader for one import, or the reason there is none. This build has no
/// reader backend, so a supported format is refused too.
fn open_table(path: &str, table: Option<&str>) -> (r: Error)
    ensures
        r.code == Some(ErrorCode::UnsupportedFormat),
        r.kind == crate::error::ErrorKind::Source,
        r.message@ == spec_open_error(path@, table is Some),
        r.span is None,
{
    if table.is_some() || has_database_extension(path) {
        let m = quoted_path_message(
            path,
            "`: database imports are not yet implemented (the `table \"…\"` syntax is reserved)",
        );
        return Error::new(ErrorCode::UnsupportedFormat, m);
    }
    match backend_for(path) {
        Ok(_) => {
            let m = quoted_path_message(
                path,
                "`: this build has no import support — it includes no reader for CSV, JSONL or Parquet files",
            );
            Error::new(ErrorCode::UnsupportedFormat, m)
        },
        Err(e) => e,
    }
}

/// Loads one data import: dispatch on the path, read, then type the rows
/// against `schema`. This build has no reader, so it refuses every import:
/// the reserved database forms, a module path, an unknown format, and a
/// supported one alike, each with its own message.
pub fn load_table(path: &str, table: Option<&str>, schema: Option<&[FieldDecl]>) -> (r: Result<
    LoadedTable,
    Vec<Error>,
>)
    ensures
        r matches Err(es) && es@.len() == 1 && es@[0].code == Some(ErrorCode::UnsupportedFormat)
            && es@[0].message@ == spec_open_error(path@, table is Some) && es@[0].span is None,
{
    Err(vec![open_table(path, table)])
}

/// The number of data imports among `statements`.
pub open spec fn data_import_count(statements: Seq<crate::ast::Statement>) -> nat
    decreases statements.len(),
{
    if statements.len() == 0 {
        0
    } else {
        data_import_count(statements.drop_last()) + match statements.last().kind {
            StatementKind::Import(i) => if i.kind is Data {
                1nat
            } else {
                0nat
            },
            _ => 0nat,
        }
    }
}

/// Loads every data import of a resolved program, in source order. Errors are
/// collected across all imports, each pointed at its import's path.
pub fn load_imports(program: &Program) -> (r: Result<Vec<LoadedTable>, Vec<Error>>)
    ensures
        r is Ok <==> data_import_count(program.statements@) == 0,
        r matches Ok(t) ==> t@.len() == 0,
        r matches Err(es) ==> es@.len() == data_import_count(program.statements@),
{
    match load_imports_where(program, &[]) {
        Ok(_) => Ok(Vec::new()),
        Err(es) => Err(es),
    }
}

/// [`load_imports`], reading only the data imports `wanted` selects (by
/// position among the program's data imports; a position past its end is not
/// wanted) and `None` in place of the rest. A skipped import is still checked
/// short of reading it, and fails as a read would; this build refuses every
/// data import before reading, whether wanted or not.
pub fn load_imports_where(program: &Program, wanted: &[bool]) -> (r: Result<
    Vec<Option<LoadedTable>>,
    Vec<Error>,
>)
    ensures
        r is Ok <==> data_import_count(program.statements@) == 0,
        r matches Ok(t) ==> t@.len() == 0,
        r matches Err(es) ==> es@.len() == data_import_count(program.statements@) && forall|k: int|
            0 <= k < es@.len() ==> (#[trigger] es@[k]).code == Some(ErrorCode::UnsupportedFormat)
                && es@[k].span is Some,
{
    let mut errors: Vec<Error> = Vec::new();
    let mut i: usize = 0;
    while i < program.statements.len()
        invariant
            i <= program.statements.len(),
            errors@.len() == data_import_count(program.statements@.take(i as int)),
            forall|k: int|
                0 <= k < errors@.len() ==> (#[trigger] errors@[k]).code == Some(
                    ErrorCode::UnsupportedFormat,
                ) && errors@[k].span is Some,
        decreases program.statements.len() - i,
    {
        assert(program.statements@.take(i as int + 1).drop_last() =~= program.statements@.take(i as int));
        let statement = &program.statements[i];
        if let StatementKind::Import(import) = &statement.kind {
            if let ImportKind::Data { table, .. } = &import.kind {
                let table_name = match table {
                    Some((name, _)) => Some(name.as_str()),
                    None => None,
                };
                let error = open_table(import.path.as_str(), table_name);
                errors.push(error.or_span(import.path_span));
            }
        }
        i += 1;
    }
    assert(program.statements@.take(i as int) =~= program.statements@);
    if errors.len() == 0 {
        Ok(Vec::new())
    } else {
        Err(errors)
    }
}

} // verus!
