//! Small pieces of the text formats a reader handles: JSON string literals,
//! the shape of a CSV file's first record, and SQL quoting.
use vstd::prelude::*;

use crate::error::{Error, ErrorCode};
use crate::text::{chars_of, push_str, string_of, to_owned};

verus! {

// ---------------------------------------------------------------------------
// JSON string literals
// ---------------------------------------------------------------------------

/// The value of a hexadecimal digit.
pub open spec fn hex_digit(c: char) -> Option<int> {
    if '0' <= c <= '9' {
        Some(c as int - '0' as int)
    } else if 'a' <= c <= 'f' {
        Some(c as int - 'a' as int + 10)
    } else if 'A' <= c <= 'F' {
        Some(c as int - 'A' as int + 10)
    } else {
        None
    }
}

/// The value of the four hexadecimal digits that begin `s`.
pub open spec fn hex4(s: Seq<char>) -> Option<int> {
    if s.len() < 4 {
        None
    } else {
        match (hex_digit(s[0]), hex_digit(s[1]), hex_digit(s[2]), hex_digit(s[3])) {
            (Some(a), Some(b), Some(c), Some(d)) => Some(a * 4096 + b * 256 + c * 16 + d),
            _ => None,
        }
    }
}

/// Whether `code` is a Unicode scalar value.
pub open spec fn is_scalar(code: int) -> bool {
    (0 <= code < 0xD800) || (0xE000 <= code <= 0x10FFFF)
}

/// `c` in front of an unescaping result.
pub open spec fn cons(c: char, r: Result<Seq<char>, Seq<char>>) -> Result<Seq<char>, Seq<char>> {
    match r {
        Ok(s) => Ok(seq![c] + s),
        Err(e) => Err(e),
    }
}

/// The message for a bad `\u` escape.
pub open spec fn bad_unicode_message() -> Seq<char> {
    "invalid \\u escape in JSON string"@
}

/// The message for a leading surrogate with no trailing one.
pub open spec fn unpaired_message() -> Seq<char> {
    "unpaired surrogate in JSON string"@
}

/// The message for an unknown escape.
pub open spec fn bad_escape_message(c: char) -> Seq<char> {
    "invalid JSON escape `\\"@ + seq![c] + "`"@
}

/// The single-character escapes and what they stand for.
pub open spec fn simple_escape(c: char) -> Option<char> {
    if c == '"' {
        Some('"')
    } else if c == '\\' {
        Some('\\')
    } else if c == '/' {
        Some('/')
    } else if c == 'b' {
        Some('\u{0008}')
    } else if c == 'f' {
        Some('\u{000C}')
    } else if c == 'n' {
        Some('\n')
    } else if c == 'r' {
        Some('\r')
    } else if c == 't' {
        Some('\t')
    } else {
        None
    }
}

/// Unescapes the contents of a JSON string literal (quotes removed).
pub open spec fn spec_unescape(s: Seq<char>) -> Result<Seq<char>, Seq<char>>
    decreases s.len(),
{
    if s.len() == 0 {
        Ok(Seq::empty())
    } else if s[0] != '\\' {
        cons(s[0], spec_unescape(s.drop_first()))
    } else if s.len() == 1 {
        Err(bad_escape_message(' '))
    } else if simple_escape(s[1]) is Some {
        cons(simple_escape(s[1])->0, spec_unescape(s.skip(2)))
    } else if s[1] == 'u' {
        match hex4(s.skip(2)) {
            None => Err(bad_unicode_message()),
            Some(unit) => if 0xD800 <= unit < 0xDC00 {
                if !(s.len() >= 8 && s[6] == '\\' && s[7] == 'u') {
                    Err(unpaired_message())
                } else {
                    match hex4(s.skip(8)) {
                        None => Err(bad_unicode_message()),
                        Some(low) => if !(0xDC00 <= low < 0xE000) {
                            Err(unpaired_message())
                        } else {
                            cons(
                                (0x10000 + (unit - 0xD800) * 1024 + (low - 0xDC00)) as char,
                                spec_unescape(s.skip(12)),
                            )
                        },
                    }
                }
            } else if is_scalar(unit) {
                cons(unit as char, spec_unescape(s.skip(6)))
            } else {
                Err(bad_unicode_message())
            },
        }
    } else {
        Err(bad_escape_message(s[1]))
    }
}

/// Unescapes a raw JSON string literal, quotes included.
pub open spec fn spec_unescape_json(text: Seq<char>) -> Result<Seq<char>, Seq<char>> {
    if text.len() >= 2 && text[0] == '"' && text.last() == '"' {
        spec_unescape(text.subrange(1, text.len() - 1))
    } else {
        Err("malformed JSON string `"@ + text + "`"@)
    }
}

/// The character with scalar value `code` (`char::from_u32`): `None` for a
/// surrogate or a value past `0x10FFFF`, as its documentation states.
#[verifier::external_body]
fn char_from_u32(code: u32) -> (r: Option<char>)
    ensures
        r is Some <==> is_scalar(code as int),
        r matches Some(c) ==> c as int == code as int,
{
    char::from_u32(code)
}

/// The value of a hexadecimal digit.
fn hex_digit_value(c: char) -> (r: Option<u32>)
    ensures
        match hex_digit(c) {
            Some(d) => r == Some(d as u32) && 0 <= d < 16,
            None => r is None,
        },
{
    if '0' <= c && c <= '9' {
        Some((c as u32) - ('0' as u32))
    } else if 'a' <= c && c <= 'f' {
        Some((c as u32) - ('a' as u32) + 10)
    } else if 'A' <= c && c <= 'F' {
        Some((c as u32) - ('A' as u32) + 10)
    } else {
        None
    }
}

/// The four hexadecimal digits at `v[at..]`.
fn json_hex4(v: &[char], at: usize) -> (r: Option<u32>)
    requires
        at <= v.len(),
    ensures
        match hex4(v@.skip(at as int)) {
            Some(x) => r == Some(x as u32) && 0 <= x < 0x10000,
            None => r is None,
        },
{
    if v.len() - at < 4 {
        return None;
    }
    let a = hex_digit_value(v[at]);
    let b = hex_digit_value(v[at + 1]);
    let c = hex_digit_value(v[at + 2]);
    let d = hex_digit_value(v[at + 3]);
    assert(v@.skip(at as int)[0] == v@[at as int]);
    assert(v@.skip(at as int)[1] == v@[at + 1]);
    assert(v@.skip(at as int)[2] == v@[at + 2]);
    assert(v@.skip(at as int)[3] == v@[at + 3]);
    match (a, b, c, d) {
        (Some(a), Some(b), Some(c), Some(d)) => Some(a * 4096 + b * 256 + c * 16 + d),
        _ => None,
    }
}

/// A result with `prefix` in front.
pub open spec fn prefixed(prefix: Seq<char>, r: Result<Seq<char>, Seq<char>>) -> Result<
    Seq<char>,
    Seq<char>,
> {
    match r {
        Ok(s) => Ok(prefix + s),
        Err(e) => Err(e),
    }
}

proof fn lemma_prefixed_push(prefix: Seq<char>, c: char, r: Result<Seq<char>, Seq<char>>)
    ensures
        prefixed(prefix, cons(c, r)) == prefixed(prefix.push(c), r),
{
    match r {
        Ok(s) => {
            assert(prefix + (seq![c] + s) =~= prefix.push(c) + s);
        },
        Err(_) => {},
    }
}

/// One step of unescaping at `v[i]`, where the contents run from `v[1]` to
/// `v[end - 1]`: the character produced and where the next step starts, or
/// the error.
fn unescape_step(v: &[char], i: usize, end: usize) -> (r: Result<(char, usize), String>)
    requires
        1 <= i < end,
        end < v.len(),
    ensures
        match r {
            Ok((c, k)) => i < k <= end && spec_unescape(v@.subrange(1, end as int).skip(i - 1))
                == cons(c, spec_unescape(v@.subrange(1, end as int).skip(k - 1))),
            Err(m) => spec_unescape(v@.subrange(1, end as int).skip(i - 1)) == Err::<Seq<char>, Seq<char>>(m@),
        },
{
    let ghost inner = v@.subrange(1, end as int);
    let ghost s = inner.skip(i - 1);
    assert(s[0] == v@[i as int]);
    let c = v[i];
    if c != '\\' {
        assert(s.drop_first() =~= inner.skip(i as int));
        return Ok((c, i + 1));
    }
    if i + 1 >= end {
        assert(s.len() == 1);
        return Err(bad_escape_text(' '));
    }
    let e = v[i + 1];
    assert(s[1] == e);
    let simple = if e == '"' {
        Some('"')
    } else if e == '\\' {
        Some('\\')
    } else if e == '/' {
        Some('/')
    } else if e == 'b' {
        Some('\u{0008}')
    } else if e == 'f' {
        Some('\u{000C}')
    } else if e == 'n' {
        Some('\n')
    } else if e == 'r' {
        Some('\r')
    } else if e == 't' {
        Some('\t')
    } else {
        None
    };
    assert(simple == simple_escape(e));
    if let Some(x) = simple {
        assert(s.skip(2) =~= inner.skip(i + 1));
        return Ok((x, i + 2));
    }
    if e != 'u' {
        return Err(bad_escape_text(e));
    }
    unicode_step(v, i, end)
}

/// One `\u` escape at `v[i]`, possibly a surrogate pair.
fn unicode_step(v: &[char], i: usize, end: usize) -> (r: Result<(char, usize), String>)
    requires
        1 <= i,
        i + 1 < end,
        end < v.len(),
        v@[i as int] == '\\',
        v@[i + 1] == 'u',
    ensures
        match r {
            Ok((c, k)) => i < k <= end && spec_unescape(v@.subrange(1, end as int).skip(i - 1))
                == cons(c, spec_unescape(v@.subrange(1, end as int).skip(k - 1))),
            Err(m) => spec_unescape(v@.subrange(1, end as int).skip(i - 1)) == Err::<Seq<char>, Seq<char>>(m@),
        },
{
    let ghost inner = v@.subrange(1, end as int);
    let ghost s = inner.skip(i - 1);
    assert(s[0] == '\\' && s[1] == 'u');
    assert(simple_escape('u') is None);
    assert(v@.subrange(0, end as int).skip(i + 2) =~= s.skip(2));
    let unit = match json_hex4_in(v, i + 2, end) {
        Some(u) => u,
        None => {
            return Err(bad_unicode_text());
        },
    };
    if 0xD800 <= unit && unit < 0xDC00 {
        if !(end - i >= 8 && v[i + 6] == '\\' && v[i + 7] == 'u') {
            if end - i >= 8 {
                assert(s[6] == v@[i + 6] && s[7] == v@[i + 7]);
            }
            return Err(unpaired_text());
        }
        assert(s[6] == v@[i + 6] && s[7] == v@[i + 7]);
        assert(v@.subrange(0, end as int).skip(i + 8) =~= s.skip(8));
        let low = match json_hex4_in(v, i + 8, end) {
            Some(l) => l,
            None => {
                return Err(bad_unicode_text());
            },
        };
        if !(0xDC00 <= low && low < 0xE000) {
            return Err(unpaired_text());
        }
        let code: u32 = 0x10000 + (unit - 0xD800) * 1024 + (low - 0xDC00);
        match char_from_u32(code) {
            Some(ch) => {
                assert(s.skip(12) =~= inner.skip(i + 11));
                Ok((ch, i + 12))
            },
            None => Err(bad_unicode_text()),
        }
    } else {
        match char_from_u32(unit) {
            Some(ch) => {
                assert(s.skip(6) =~= inner.skip(i + 5));
                Ok((ch, i + 6))
            },
            None => Err(bad_unicode_text()),
        }
    }
}

/// Unescapes the contents of a raw JSON string literal, quotes included.
pub fn unescape_json_string(text: &str) -> (r: Result<String, String>)
    ensures
        match spec_unescape_json(text@) {
            Ok(s) => r matches Ok(x) && x@ == s,
            Err(m) => r matches Err(x) && x@ == m,
        },
{
    let v = chars_of(text);
    if !(v.len() >= 2 && v[0] == '"' && v[v.len() - 1] == '"') {
        let mut m = to_owned("malformed JSON string `");
        crate::text::push_str(&mut m, text);
        crate::text::push_str(&mut m, "`");
        return Err(m);
    }
    let end = v.len() - 1;
    let ghost inner = v@.subrange(1, end as int);
    let mut out: Vec<char> = Vec::new();
    let mut i: usize = 1;
    assert(inner.skip(0) =~= inner);
    while i < end
        invariant
            1 <= i <= end,
            end == v.len() - 1,
            inner == v@.subrange(1, end as int),
            spec_unescape_json(text@) == spec_unescape(inner),
            spec_unescape(inner) == prefixed(out@, spec_unescape(inner.skip(i - 1))),
        decreases end - i,
    {
        match unescape_step(v.as_slice(), i, end) {
            Ok((c, k)) => {
                proof {
                    lemma_prefixed_push(out@, c, spec_unescape(inner.skip(k - 1)));
                }
                out.push(c);
                i = k;
            },
            Err(m) => {
                return Err(m);
            },
        }
    }
    assert(inner.skip(i - 1) =~= Seq::<char>::empty());
    assert(out@ + Seq::<char>::empty() =~= out@);
    Ok(string_of(out.as_slice()))
}

/// The four hexadecimal digits at `v[at..]`, not reading past `end`.
fn json_hex4_in(v: &[char], at: usize, end: usize) -> (r: Option<u32>)
    requires
        at <= end,
        end < v.len(),
    ensures
        match hex4(v@.subrange(0, end as int).skip(at as int)) {
            Some(x) => r == Some(x as u32) && 0 <= x < 0x10000,
            None => r is None,
        },
{
    let ghost w = v@.subrange(0, end as int);
    if end - at < 4 {
        assert(w.skip(at as int).len() < 4);
        return None;
    }
    let r = json_hex4(v, at);
    assert(v@.skip(at as int).take(4) =~= w.skip(at as int).take(4));
    assert(v@.skip(at as int)[0] == w.skip(at as int)[0]);
    assert(v@.skip(at as int)[1] == w.skip(at as int)[1]);
    assert(v@.skip(at as int)[2] == w.skip(at as int)[2]);
    assert(v@.skip(at as int)[3] == w.skip(at as int)[3]);
    r
}

/// The message for a bad `\u` escape.
fn bad_unicode_text() -> (r: String)
    ensures
        r@ == bad_unicode_message(),
{
    to_owned("invalid \\u escape in JSON string")
}

/// The message for a leading surrogate with no trailing one.
fn unpaired_text() -> (r: String)
    ensures
        r@ == unpaired_message(),
{
    to_owned("unpaired surrogate in JSON string")
}

/// The message for an unknown escape.
fn bad_escape_text(c: char) -> (r: String)
    ensures
        r@ == bad_escape_message(c),
{
    let mut m = to_owned("invalid JSON escape `\\");
    crate::text::push_char(&mut m, c);
    crate::text::push_str(&mut m, "`");
    assert(m@ =~= bad_escape_message(c));
    m
}

// ---------------------------------------------------------------------------
// The first record of a CSV file
// ---------------------------------------------------------------------------

/// Scans from `i` with `width` columns so far, inside quotes or not: the column
/// count of the first record, and whether its line ends in `\r\n`.
pub open spec fn spec_shape(bytes: Seq<u8>, i: int, width: int, in_quotes: bool) -> (int, bool)
    decreases bytes.len() - i,
{
    if i >= bytes.len() || i < 0 {
        (width, false)
    } else {
        let b = bytes[i];
        if b == 34u8 && !in_quotes {
            spec_shape(bytes, i + 1, width, true)
        } else if b == 34u8 && i + 1 < bytes.len() && bytes[i + 1] == 34u8 {
            spec_shape(bytes, i + 2, width, in_quotes)
        } else if b == 34u8 {
            spec_shape(bytes, i + 1, width, false)
        } else if b == 44u8 && !in_quotes {
            spec_shape(bytes, i + 1, width + 1, in_quotes)
        } else if b == 10u8 && !in_quotes {
            (width, i > 0 && bytes[i - 1] == 13u8)
        } else {
            spec_shape(bytes, i + 1, width, in_quotes)
        }
    }
}

/// The column count of a CSV file's first record (quote-aware, so embedded
/// newlines and `""` escapes do not fool it), and its row terminator as SQL
/// text: `\r\n` or `\n` (a single-record file defaults to `\n`).
pub fn first_record_shape(bytes: &[u8]) -> (r: (usize, &'static str))
    requires
        bytes.len() < usize::MAX,
    ensures
        r.0 == spec_shape(bytes@, 0, 1, false).0,
        r.1@ == (if spec_shape(bytes@, 0, 1, false).1 {
            "\\r\\n"@
        } else {
            "\\n"@
        }),
{
    let mut width: usize = 1;
    let mut in_quotes = false;
    let mut i: usize = 0;
    while i < bytes.len()
        invariant
            i <= bytes.len(),
            1 <= width <= i + 1,
            bytes.len() < usize::MAX,
            spec_shape(bytes@, 0, 1, false) == spec_shape(bytes@, i as int, width as int, in_quotes),
        decreases bytes.len() - i,
    {
        let b = bytes[i];
        if b == 34u8 && !in_quotes {
            in_quotes = true;
        } else if b == 34u8 && i + 1 < bytes.len() && bytes[i + 1] == 34u8 {
            i += 1;
        } else if b == 34u8 {
            in_quotes = false;
        } else if b == 44u8 && !in_quotes {
            width += 1;
        } else if b == 10u8 && !in_quotes {
            let crlf = i > 0 && bytes[i - 1] == 13u8;
            return (width, if crlf {
                "\\r\\n"
            } else {
                "\\n"
            });
        }
        i += 1;
    }
    (width, "\\n")
}

// ---------------------------------------------------------------------------
// SQL quoting
// ---------------------------------------------------------------------------

/// `s` with every `q` doubled.
pub open spec fn doubled(s: Seq<char>, q: char) -> Seq<char>
    decreases s.len(),
{
    if s.len() == 0 {
        Seq::empty()
    } else {
        doubled(s.drop_last(), q) + if s.last() == q {
            seq![q, q]
        } else {
            seq![s.last()]
        }
    }
}

/// `text` between `q`s, with each `q` inside doubled.
fn quote_doubling(text: &str, q: char) -> (r: String)
    ensures
        r@ == seq![q] + doubled(text@, q) + seq![q],
{
    let v = chars_of(text);
    let mut out: Vec<char> = Vec::new();
    out.push(q);
    let mut i: usize = 0;
    while i < v.len()
        invariant
            i <= v.len(),
            v@ == text@,
            out@ == seq![q] + doubled(v@.take(i as int), q),
        decreases v.len() - i,
    {
        assert(v@.take(i as int + 1).drop_last() =~= v@.take(i as int));
        if v[i] == q {
            out.push(q);
            out.push(q);
        } else {
            out.push(v[i]);
        }
        i += 1;
        assert(out@ =~= seq![q] + doubled(v@.take(i as int), q));
    }
    assert(v@.take(i as int) =~= v@);
    out.push(q);
    string_of(out.as_slice())
}

/// A single-quoted SQL string literal of `text`.
pub fn sql_string(text: &str) -> (r: String)
    ensures
        r@ == seq!['\''] + doubled(text@, '\'') + seq!['\''],
{
    quote_doubling(text, '\'')
}

/// A double-quoted SQL identifier of `name`.
pub fn sql_ident(name: &str) -> (r: String)
    ensures
        r@ == seq!['"'] + doubled(name@, '"') + seq!['"'],
{
    quote_doubling(name, '"')
}

// ---------------------------------------------------------------------------
// Parquet columns
// ---------------------------------------------------------------------------

/// How a declared temporal column's values are typed: they travel as ISO text
/// and are read as the declared type.
#[derive(Debug, Clone, Copy, PartialEq, Eq)]
pub enum TemporalColumn {
    Date,
    Timestamp,
}

/// `s` with its ASCII lowercase letters made uppercase.
pub open spec fn spec_ascii_upper(s: Seq<char>) -> Seq<char> {
    s.map_values(|c: char| if 'a' <= c <= 'z' { ((c as int) - 32) as char } else { c })
}

/// Whether `s` begins with `p`.
pub open spec fn spec_starts_with(s: Seq<char>, p: Seq<char>) -> bool {
    s.len() >= p.len() && s.subrange(0, p.len() as int) == p
}

/// The column types that arrive as they are.
pub open spec fn direct_types() -> Seq<Seq<char>> {
    seq![
        "BOOLEAN"@, "TINYINT"@, "SMALLINT"@, "INTEGER"@, "BIGINT"@, "HUGEINT"@, "UTINYINT"@,
        "USMALLINT"@, "UINTEGER"@, "UBIGINT"@, "UHUGEINT"@, "FLOAT"@, "DOUBLE"@, "VARCHAR"@,
    ]
}

/// The column types that arrive as text.
pub open spec fn text_types() -> Seq<Seq<char>> {
    seq!["DATE"@, "UUID"@, "INTERVAL"@, "JSON"@]
}

/// The double-quoted SQL identifier of `name`.
pub open spec fn spec_sql_ident(name: Seq<char>) -> Seq<char> {
    seq!['"'] + doubled(name, '"') + seq!['"']
}

/// What is selected for a column of (uppercased) type `ty`: the column itself
/// where its values map directly, a cast to `DOUBLE` for a decimal, a cast to
/// `VARCHAR` for dates, times, UUIDs, intervals and JSON; `None` for a type
/// that maps onto no value type.
pub open spec fn spec_parquet_select(name: Seq<char>, ty: Seq<char>) -> Option<Seq<char>> {
    let ident = spec_sql_ident(name);
    if direct_types().contains(ty) {
        Some(ident)
    } else if spec_starts_with(ty, "DECIMAL"@) {
        Some("CAST("@ + ident + " AS DOUBLE)"@)
    } else if text_types().contains(ty) || spec_starts_with(ty, "TIME"@) {
        Some("CAST("@ + ident + " AS VARCHAR)"@)
    } else {
        None
    }
}

/// Which temporal type a column of (uppercased) type `ty` declares.
pub open spec fn spec_temporal_column(ty: Seq<char>) -> Option<TemporalColumn> {
    if ty == "DATE"@ {
        Some(TemporalColumn::Date)
    } else if spec_starts_with(ty, "TIMESTAMP"@) {
        Some(TemporalColumn::Timestamp)
    } else {
        None
    }
}

/// The error for a column whose type maps onto no value type.
pub open spec fn spec_unsupported_column(path: Seq<char>, name: Seq<char>, ty: Seq<char>) -> Seq<char> {
    "`"@ + path + "`: column `"@ + name + "` has type "@ + ty
        + ", which does not map onto the value types (symbol/string/int/float/bool)"@
}

fn ascii_upper(v: &[char]) -> (r: Vec<char>)
    ensures
        r@ == spec_ascii_upper(v@),
{
    let mut out: Vec<char> = Vec::new();
    let mut i: usize = 0;
    while i < v.len()
        invariant
            i <= v.len(),
            out@ == spec_ascii_upper(v@.take(i as int)),
        decreases v.len() - i,
    {
        let c = v[i];
        let u = if 'a' <= c && c <= 'z' {
            match char_from_u32((c as u32) - 32) {
                Some(u) => u,
                None => c,
            }
        } else {
            c
        };
        out.push(u);
        i += 1;
        assert(out@ =~= spec_ascii_upper(v@.take(i as int)));
    }
    assert(v@.take(i as int) =~= v@);
    out
}

fn starts_with(v: &[char], p: &str) -> (r: bool)
    ensures
        r == spec_starts_with(v@, p@),
{
    let pv = chars_of(p);
    if pv.len() > v.len() {
        return false;
    }
    let mut i: usize = 0;
    while i < pv.len()
        invariant
            i <= pv.len() <= v.len(),
            pv@ == p@,
            v@.subrange(0, i as int) == pv@.take(i as int),
        decreases pv.len() - i,
    {
        if v[i] != pv[i] {
            assert(v@.subrange(0, pv@.len() as int)[i as int] != pv@[i as int]);
            return false;
        }
        i += 1;
        assert(v@.subrange(0, i as int) =~= pv@.take(i as int));
    }
    assert(pv@.take(i as int) =~= pv@);
    true
}

fn is_one_of(v: &[char], names: &[&str]) -> (r: bool)
    ensures
        r == names@.map_values(|n: &str| n@).contains(v@),
{
    let ghost all = names@.map_values(|n: &str| n@);
    let mut i: usize = 0;
    while i < names.len()
        invariant
            i <= names.len(),
            all == names@.map_values(|n: &str| n@),
            forall|j: int| 0 <= j < i ==> all[j] != v@,
        decreases names.len() - i,
    {
        let nv = chars_of(names[i]);
        if crate::text::chars_equal(v, nv.as_slice()) {
            assert(all[i as int] == v@);
            return true;
        }
        i += 1;
    }
    false
}

/// Plans the reading of one Parquet column of type `ty`: what to select for
/// it, and which temporal type, if any, its text is read as. A type that maps
/// onto no value type is an error naming the file, the column and the type.
pub fn parquet_column(path: &str, name: &str, ty: &str) -> (r: Result<(String, Option<TemporalColumn>), Error>)
    ensures
        r is Ok <==> spec_parquet_select(name@, spec_ascii_upper(ty@)) is Some,
        r matches Ok((select, temporal)) ==> select@ == spec_parquet_select(name@, spec_ascii_upper(ty@))->0
            && temporal == spec_temporal_column(spec_ascii_upper(ty@)),
        r matches Err(e) ==> e.kind == crate::error::ErrorKind::Source && e.code == Some(ErrorCode::UnsupportedColumn)
            && e.message@ == spec_unsupported_column(path@, name@, spec_ascii_upper(ty@)),
{
    let tv = chars_of(ty);
    let up = ascii_upper(tv.as_slice());
    let ident = sql_ident(name);
    let date = chars_of("DATE");
    let temporal = if crate::text::chars_equal(up.as_slice(), date.as_slice()) {
        Some(TemporalColumn::Date)
    } else if starts_with(up.as_slice(), "TIMESTAMP") {
        Some(TemporalColumn::Timestamp)
    } else {
        None
    };
    let direct = [
        "BOOLEAN", "TINYINT", "SMALLINT", "INTEGER", "BIGINT", "HUGEINT", "UTINYINT", "USMALLINT", "UINTEGER",
        "UBIGINT", "UHUGEINT", "FLOAT", "DOUBLE", "VARCHAR",
    ];
    let text = ["DATE", "UUID", "INTERVAL", "JSON"];
    proof {
        assert(direct@.map_values(|n: &str| n@) =~= direct_types());
        assert(text@.map_values(|n: &str| n@) =~= text_types());
    }
    if is_one_of(up.as_slice(), &direct) {
        return Ok((ident, temporal));
    }
    if starts_with(up.as_slice(), "DECIMAL") {
        let mut m = to_owned("CAST(");
        push_str(&mut m, ident.as_str());
        push_str(&mut m, " AS DOUBLE)");
        return Ok((m, temporal));
    }
    if is_one_of(up.as_slice(), &text) || starts_with(up.as_slice(), "TIME") {
        let mut m = to_owned("CAST(");
        push_str(&mut m, ident.as_str());
        push_str(&mut m, " AS VARCHAR)");
        return Ok((m, temporal));
    }
    let upper = string_of(up.as_slice());
    let mut m = to_owned("`");
    push_str(&mut m, path);
    push_str(&mut m, "`: column `");
    push_str(&mut m, name);
    push_str(&mut m, "` has type ");
    push_str(&mut m, upper.as_str());
    push_str(&mut m, ", which does not map onto the value types (symbol/string/int/float/bool)");
    Err(Error::new(ErrorCode::UnsupportedColumn, m))
}

} // verus!
