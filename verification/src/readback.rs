//! What the printer writes, the lexer and the parser read back: the text of a
//! ground value lexes to the tokens that spell it, and a printed ground fact
//! reads back as a fact clause of the same predicate whose arguments are the
//! same values. Output is valid input.
use vstd::prelude::*;

use crate::ir::ValueView;
use crate::lexer::{
    digits_end, is_blank, is_word_char, lemma_digits_end, lemma_token_at_advances, lemma_word_end,
    lex_from, number_end, spec_keyword, string_from, token_at, word_end, TokenView,
};
use crate::parser::{spec_atom_at, spec_closed_constant, spec_const_list, spec_constant_at, spec_fact_at, spec_facts_from, spec_term_token};
use crate::print::{spec_escape_char, spec_escaped, spec_ground_fact_text, spec_value_text, spec_values_text};
use crate::text::{decimal, is_digit, signed_decimal};

verus! {

/// A character that may follow a value in printed text.
pub open spec fn is_closer(c: char) -> bool {
    c == ',' || c == ')'
}

/// A symbol the printer writes bare and the lexer reads back as that symbol:
/// a lowercase-initial word that is no keyword.
pub open spec fn spec_plain_symbol(s: Seq<char>) -> bool {
    &&& s.len() > 0
    &&& 'a' <= s[0] <= 'z'
    &&& forall|k: int| 0 <= k < s.len() ==> is_word_char(#[trigger] s[k])
    &&& spec_keyword(s) is None
}

/// A number's text without its sign.
pub open spec fn unsigned_part(t: Seq<char>) -> Seq<char> {
    if t.len() > 0 && t[0] == '-' {
        t.drop_first()
    } else {
        t
    }
}

/// A float's text that the lexer reads back as that float: a float literal,
/// or `-` and one.
pub open spec fn spec_float_text_ok(t: Seq<char>) -> bool {
    let u = unsigned_part(t);
    u.len() > 0 && is_digit(u[0]) && number_end(u, 0) == (u.len() as int, true)
}

/// A value whose printed text reads back as itself: a symbol that is a plain
/// identifier, an int other than the most negative, a float spelled as a
/// literal; strings, bools and `absent` always.
pub open spec fn spec_readable(v: ValueView) -> bool {
    match v {
        ValueView::Symbol(s) => spec_plain_symbol(s),
        ValueView::Int(n) => i64::MIN < n <= i64::MAX,
        ValueView::Float(t) => spec_float_text_ok(t),
        ValueView::Date(_) => false,
        ValueView::Timestamp(_) => false,
        ValueView::Duration(_) => false,
        _ => true,
    }
}

/// The tokens a value's printed text lexes to: one, or a `-` and a number.
pub open spec fn spec_value_tokens(v: ValueView) -> Seq<TokenView> {
    match v {
        ValueView::Absent => seq![TokenView::Absent],
        ValueView::Symbol(s) => seq![TokenView::Ident(s)],
        ValueView::String(s) => seq![TokenView::Str(s)],
        ValueView::Int(n) => if n < 0 {
            seq![TokenView::Minus, TokenView::Int(-n)]
        } else {
            seq![TokenView::Int(n)]
        },
        ValueView::Float(t) => if t.len() > 0 && t[0] == '-' {
            seq![TokenView::Minus, TokenView::Float(t.drop_first())]
        } else {
            seq![TokenView::Float(t)]
        },
        ValueView::Bool(b) => if b {
            seq![TokenView::True]
        } else {
            seq![TokenView::False]
        },
        ValueView::Date(d) => seq![TokenView::Temporal(crate::temporal::TemporalView::Date(d))],
        ValueView::Timestamp(m) => seq![TokenView::Temporal(crate::temporal::TemporalView::Timestamp(m))],
        ValueView::Duration(u) => seq![TokenView::Temporal(crate::temporal::TemporalView::Duration(u))],
    }
}

/// Where `u` is written at `i` in `s` and followed by a non-word character,
/// the word run from inside `u` ends where `u`'s does, or at its end.
proof fn lemma_word_end_local(s: Seq<char>, i: int, u: Seq<char>, k: int)
    requires
        0 <= i,
        i + u.len() < s.len(),
        s.subrange(i, i + u.len()) == u,
        0 <= k <= u.len(),
        forall|x: int| 0 <= x < u.len() ==> is_word_char(#[trigger] u[x]),
        !is_word_char(s[i + u.len()]),
    ensures
        word_end(s, i + k) == i + u.len(),
    decreases u.len() - k,
{
    if k < u.len() {
        assert(s[i + k] == u[k]);
        lemma_word_end_local(s, i, u, k + 1);
    }
}

/// Where `u` is written at `i` in `s` and followed by a non-digit, a digit
/// run from inside `u` ends where it does in `u`.
proof fn lemma_digits_end_local(s: Seq<char>, i: int, u: Seq<char>, k: int)
    requires
        0 <= i,
        i + u.len() < s.len(),
        s.subrange(i, i + u.len()) == u,
        0 <= k <= u.len(),
        !is_digit(s[i + u.len()]),
    ensures
        digits_end(s, i + k) == i + digits_end(u, k),
    decreases u.len() - k,
{
    if k < u.len() {
        assert(s[i + k] == u[k]);
        if is_digit(u[k]) {
            lemma_digits_end_local(s, i, u, k + 1);
        }
    }
}

/// Where a number `u` is written at `i` in `s`, followed by a closer, it is
/// read there exactly as on its own.
proof fn lemma_number_end_local(s: Seq<char>, i: int, u: Seq<char>)
    requires
        0 <= i,
        i + u.len() < s.len(),
        s.subrange(i, i + u.len()) == u,
        u.len() > 0,
        is_digit(u[0]),
        number_end(u, 0).0 == u.len(),
        is_closer(s[i + u.len()]),
    ensures
        number_end(s, i) == (i + u.len(), number_end(u, 0).1),
{
    let n = u.len() as int;
    let j = i + n;
    assert forall|x: int| 0 <= x < n implies s[i + x] == #[trigger] u[x] by {}
    lemma_digits_end_local(s, i, u, 0);
    lemma_digits_end(u, 0);
    let a = digits_end(u, 0);
    let fr = a + 1 < u.len() && u[a] == '.' && is_digit(u[a + 1]);
    if fr {
        lemma_digits_end_local(s, i, u, a + 1);
        lemma_digits_end(u, a + 1);
    }
    let b = if fr {
        digits_end(u, a + 1)
    } else {
        a
    };
    if b < n && (u[b] == 'e' || u[b] == 'E') {
        let at = if b + 1 < n && (u[b + 1] == '+' || u[b + 1] == '-') {
            b + 2
        } else {
            b + 1
        };
        if at < n && is_digit(u[at]) {
            lemma_digits_end_local(s, i, u, at);
            lemma_digits_end(u, at);
        }
    }
}

/// `escaped` of a character then more is the character's escape then the
/// rest's.
proof fn lemma_escaped_front(x: char, rest: Seq<char>)
    ensures
        spec_escaped(seq![x] + rest) == spec_escape_char(x) + spec_escaped(rest),
    decreases rest.len(),
{
    if rest.len() == 0 {
        assert(seq![x] + rest =~= seq![x]);
        assert(seq![x].drop_last() =~= Seq::<char>::empty());
        assert(spec_escaped(Seq::<char>::empty()) =~= Seq::<char>::empty());
        assert(spec_escape_char(x) + spec_escaped(rest) =~= spec_escape_char(x));
    } else {
        let whole = seq![x] + rest;
        assert(whole.drop_last() =~= seq![x] + rest.drop_last());
        assert(whole.last() == rest.last());
        lemma_escaped_front(x, rest.drop_last());
        assert(spec_escape_char(x) + spec_escaped(rest.drop_last()) + spec_escape_char(rest.last())
            =~= spec_escape_char(x) + spec_escaped(rest));
    }
}

/// A string's escaped characters and the closing quote, written at `j`,
/// read back as the string.
proof fn lemma_string_reads_back(s: Seq<char>, j: int, c: Seq<char>)
    requires
        0 <= j,
        j + spec_escaped(c).len() + 1 <= s.len(),
        s.subrange(j, j + spec_escaped(c).len() + 1) == spec_escaped(c) + seq!['"'],
    ensures
        string_from(s, j) == (j + spec_escaped(c).len() + 1, c, false, true),
    decreases c.len(),
{
    let e = spec_escaped(c);
    assert forall|x: int| 0 <= x <= e.len() implies s[j + x] == #[trigger] (e + seq!['"'])[x] by {
        assert(s.subrange(j, j + e.len() + 1)[x] == s[j + x]);
    }
    if c.len() == 0 {
        assert(e =~= Seq::<char>::empty());
        assert((e + seq!['"'])[0] == '"');
        assert(s[j] == '"');
    } else {
        let x = c[0];
        let rest = c.drop_first();
        assert(c =~= seq![x] + rest);
        lemma_escaped_front(x, rest);
        let ex = spec_escape_char(x);
        let er = spec_escaped(rest);
        assert(e =~= ex + er);
        assert(s.subrange(j + ex.len(), j + ex.len() + er.len() + 1) =~= er + seq!['"']) by {
            assert forall|y: int| 0 <= y < er.len() + 1 implies #[trigger] s.subrange(
                j + ex.len(),
                j + ex.len() + er.len() + 1,
            )[y] == (er + seq!['"'])[y] by {
                assert(s[j + ex.len() + y] == (e + seq!['"'])[ex.len() + y]);
            }
        }
        lemma_string_reads_back(s, j + ex.len(), rest);
        if x == '\\' || x == '"' || x == '\n' || x == '\t' {
            assert(ex.len() == 2);
            assert((e + seq!['"'])[0] == ex[0]);
            assert((e + seq!['"'])[1] == ex[1]);
            assert(s[j] == ex[0]);
            assert(s[j + 1] == ex[1]);
        } else {
            assert(ex =~= seq![x]);
            assert((e + seq!['"'])[0] == x);
            assert(s[j] == x);
        }
    }
}

/// The value words are the keywords they spell.
proof fn lemma_value_keywords()
    ensures
        spec_keyword("absent"@) == Some(TokenView::Absent),
        spec_keyword("true"@) == Some(TokenView::True),
        spec_keyword("false"@) == Some(TokenView::False),
        "absent"@ == seq!['a', 'b', 's', 'e', 'n', 't'],
        "true"@ == seq!['t', 'r', 'u', 'e'],
        "false"@ == seq!['f', 'a', 'l', 's', 'e'],
{
    reveal_strlit("import");
    reveal_strlit("declare");
    reveal_strlit("as");
    reveal_strlit("not");
    reveal_strlit("is");
    reveal_strlit("absent");
    reveal_strlit("true");
    reveal_strlit("false");
    assert("absent"@[0] != "import"@[0]);
    assert("absent"@.len() != "declare"@.len());
    assert("absent"@.len() != "as"@.len());
    assert("absent"@.len() != "not"@.len());
    assert("absent"@.len() != "is"@.len());
    assert("true"@.len() != "import"@.len());
    assert("true"@.len() != "declare"@.len());
    assert("true"@.len() != "as"@.len());
    assert("true"@.len() != "not"@.len());
    assert("true"@.len() != "is"@.len());
    assert("true"@.len() != "absent"@.len());
    assert("false"@.len() != "import"@.len());
    assert("false"@.len() != "declare"@.len());
    assert("false"@.len() != "as"@.len());
    assert("false"@.len() != "not"@.len());
    assert("false"@.len() != "is"@.len());
    assert("false"@.len() != "absent"@.len());
    assert("false"@.len() != "true"@.len());
}

/// A lowercase-initial word written at `i`, followed by a closer, lexes as
/// its keyword or as an identifier.
proof fn lemma_lex_word(s: Seq<char>, i: int, w: Seq<char>)
    requires
        0 <= i,
        i + w.len() < s.len(),
        s.subrange(i, i + w.len()) == w,
        w.len() > 0,
        'a' <= w[0] <= 'z',
        forall|x: int| 0 <= x < w.len() ==> is_word_char(#[trigger] w[x]),
        !is_word_char(s[i + w.len()]),
    ensures
        lex_from(s, i) == (
            seq![
                match spec_keyword(w) {
                    Some(k) => k,
                    None => TokenView::Ident(w),
                },
            ] + lex_from(s, i + w.len()).0,
            lex_from(s, i + w.len()).1,
        ),
{
    lemma_word_end_local(s, i, w, 0);
    assert(s[i] == w[0]);
    lemma_token_at_advances(s, i);
    assert(s.subrange(i, word_end(s, i)) == w);
}

/// All digits run to the end.
proof fn lemma_all_digits_end(u: Seq<char>, k: int)
    requires
        0 <= k <= u.len(),
        crate::text::all_digits(u),
    ensures
        digits_end(u, k) == u.len(),
    decreases u.len() - k,
{
    if k < u.len() {
        lemma_all_digits_end(u, k + 1);
    }
}

/// A number written at `i` without a sign, followed by a closer, lexes as the
/// float it spells, or the int when it has no fraction or exponent.
proof fn lemma_lex_unsigned(s: Seq<char>, i: int, u: Seq<char>)
    requires
        0 <= i,
        i + u.len() < s.len(),
        s.subrange(i, i + u.len()) == u,
        u.len() > 0,
        is_digit(u[0]),
        number_end(u, 0).0 == u.len(),
        is_closer(s[i + u.len()]),
        !number_end(u, 0).1 ==> crate::text::digits_value(u) <= i64::MAX,
    ensures
        lex_from(s, i) == (
            seq![
                if number_end(u, 0).1 {
                    TokenView::Float(u)
                } else {
                    TokenView::Int(crate::text::digits_value(u))
                },
            ] + lex_from(s, i + u.len()).0,
            lex_from(s, i + u.len()).1,
        ),
{
    lemma_number_end_local(s, i, u);
    assert(s[i] == u[0]);
    lemma_token_at_advances(s, i);
    assert(s.subrange(i, i + u.len()) == u);
}

/// A `-` written at `i` before a digit lexes as a minus.
proof fn lemma_lex_minus(s: Seq<char>, i: int)
    requires
        0 <= i,
        i + 1 < s.len(),
        s[i] == '-',
        is_digit(s[i + 1]),
    ensures
        lex_from(s, i) == (seq![TokenView::Minus] + lex_from(s, i + 1).0, lex_from(s, i + 1).1),
{
    lemma_token_at_advances(s, i);
}

/// A non-negative int's decimal reads as an unsigned number without fraction
/// or exponent.
proof fn lemma_decimal_number(n: nat)
    ensures
        decimal(n).len() > 0,
        is_digit(decimal(n)[0]),
        number_end(decimal(n), 0) == (decimal(n).len() as int, false),
        crate::text::digits_value(decimal(n)) == n,
{
    crate::text::lemma_decimal_digits(n);
    let u = decimal(n);
    lemma_all_digits_end(u, 0);
}

/// What each value lemma assumes: `v`'s text is written at `i` in `s` and
/// followed by a closer.
pub open spec fn spec_written_at(s: Seq<char>, i: int, v: ValueView) -> bool {
    &&& 0 <= i
    &&& i + spec_value_text(v).len() < s.len()
    &&& s.subrange(i, i + spec_value_text(v).len()) == spec_value_text(v)
    &&& is_closer(s[i + spec_value_text(v).len()])
}

/// What each value lemma concludes: lexing from `i` yields `v`'s tokens, then
/// what follows its text.
pub open spec fn spec_lexes_as(s: Seq<char>, i: int, v: ValueView) -> bool {
    lex_from(s, i) == (
        spec_value_tokens(v) + lex_from(s, i + spec_value_text(v).len()).0,
        lex_from(s, i + spec_value_text(v).len()).1,
    )
}

proof fn lemma_word_value_reads_back(s: Seq<char>, i: int, v: ValueView)
    requires
        spec_readable(v),
        spec_written_at(s, i, v),
        v is Absent || v is Bool || v is Symbol,
    ensures
        spec_lexes_as(s, i, v),
{
    lemma_value_keywords();
    lemma_lex_word(s, i, spec_value_text(v));
}

proof fn lemma_string_value_reads_back(s: Seq<char>, i: int, c: Seq<char>)
    requires
        spec_written_at(s, i, ValueView::String(c)),
    ensures
        spec_lexes_as(s, i, ValueView::String(c)),
{
    let t = spec_value_text(ValueView::String(c));
    let e = spec_escaped(c);
    assert(t =~= seq!['"'] + e + seq!['"']);
    assert forall|x: int| 0 <= x < t.len() implies s[i + x] == #[trigger] t[x] by {
        assert(s.subrange(i, i + t.len())[x] == s[i + x]);
    }
    assert(s.subrange(i + 1, i + 1 + e.len() + 1) =~= e + seq!['"']) by {
        assert forall|x: int| 0 <= x < e.len() + 1 implies #[trigger] s.subrange(
            i + 1,
            i + 1 + e.len() + 1,
        )[x] == (e + seq!['"'])[x] by {
            assert(s[i + 1 + x] == t[1 + x]);
        }
    }
    lemma_string_reads_back(s, i + 1, c);
    assert(s[i] == t[0]);
    lemma_token_at_advances(s, i);
}

proof fn lemma_int_value_reads_back(s: Seq<char>, i: int, k: int)
    requires
        i64::MIN < k <= i64::MAX,
        spec_written_at(s, i, ValueView::Int(k)),
    ensures
        spec_lexes_as(s, i, ValueView::Int(k)),
{
    let t = spec_value_text(ValueView::Int(k));
    assert forall|x: int| 0 <= x < t.len() implies s[i + x] == #[trigger] t[x] by {
        assert(s.subrange(i, i + t.len())[x] == s[i + x]);
    }
    if k < 0 {
        let u = decimal((-k) as nat);
        lemma_decimal_number((-k) as nat);
        assert(t =~= seq!['-'] + u);
        assert(s[i] == t[0]);
        assert(s[i + 1] == t[1]);
        assert(s.subrange(i + 1, i + 1 + u.len()) =~= u) by {
            assert forall|x: int| 0 <= x < u.len() implies #[trigger] s.subrange(i + 1, i + 1 + u.len())[x]
                == u[x] by {
                assert(s[i + 1 + x] == t[1 + x]);
            }
        }
        lemma_lex_unsigned(s, i + 1, u);
        lemma_lex_minus(s, i);
        let rest = lex_from(s, i + t.len());
        assert(i + 1 + u.len() == i + t.len());
        assert(seq![TokenView::Minus] + (seq![TokenView::Int(-k)] + rest.0) =~= seq![
            TokenView::Minus,
            TokenView::Int(-k),
        ] + rest.0);
    } else {
        lemma_decimal_number(k as nat);
        assert(t == decimal(k as nat));
        lemma_lex_unsigned(s, i, t);
    }
}

proof fn lemma_float_value_reads_back(s: Seq<char>, i: int, f: Seq<char>)
    requires
        spec_float_text_ok(f),
        spec_written_at(s, i, ValueView::Float(f)),
    ensures
        spec_lexes_as(s, i, ValueView::Float(f)),
{
    let t = f;
    let u = unsigned_part(f);
    assert forall|x: int| 0 <= x < t.len() implies s[i + x] == #[trigger] t[x] by {
        assert(s.subrange(i, i + t.len())[x] == s[i + x]);
    }
    if f.len() > 0 && f[0] == '-' {
        assert(s[i] == t[0]);
        assert(s[i + 1] == t[1]);
        assert(u[0] == t[1]);
        assert(s.subrange(i + 1, i + 1 + u.len()) =~= u) by {
            assert forall|x: int| 0 <= x < u.len() implies #[trigger] s.subrange(i + 1, i + 1 + u.len())[x]
                == u[x] by {
                assert(s[i + 1 + x] == t[1 + x]);
            }
        }
        lemma_lex_unsigned(s, i + 1, u);
        lemma_lex_minus(s, i);
        let rest = lex_from(s, i + t.len());
        assert(u == f.drop_first());
        assert(i + 1 + u.len() == i + t.len());
        assert(seq![TokenView::Minus] + (seq![TokenView::Float(u)] + rest.0) =~= seq![
            TokenView::Minus,
            TokenView::Float(u),
        ] + rest.0);
    } else {
        assert(u == t);
        lemma_lex_unsigned(s, i, t);
    }
}

/// The printed text of a readable value, written at `i` and followed by a
/// closer, lexes to the tokens that spell it.
pub proof fn lemma_value_reads_back(s: Seq<char>, i: int, v: ValueView)
    requires
        spec_readable(v),
        spec_written_at(s, i, v),
    ensures
        spec_lexes_as(s, i, v),
{
    match v {
        ValueView::String(c) => lemma_string_value_reads_back(s, i, c),
        ValueView::Int(k) => lemma_int_value_reads_back(s, i, k),
        ValueView::Float(f) => lemma_float_value_reads_back(s, i, f),
        _ => lemma_word_value_reads_back(s, i, v),
    }
}

/// The tokens of values printed one after another: each value's tokens,
/// with a comma between two values.
pub open spec fn spec_values_tokens(vs: Seq<ValueView>) -> Seq<TokenView>
    decreases vs.len(),
{
    if vs.len() == 0 {
        seq![]
    } else if vs.len() == 1 {
        spec_value_tokens(vs[0])
    } else {
        spec_values_tokens(vs.drop_last()) + seq![TokenView::Comma] + spec_value_tokens(vs.last())
    }
}

/// A single punctuation character lexes as its token.
proof fn lemma_lex_punct(s: Seq<char>, i: int, k: TokenView)
    requires
        0 <= i < s.len(),
        (s[i] == ',' && k == TokenView::Comma) || (s[i] == '(' && k == TokenView::LParen) || (s[i] == ')'
            && k == TokenView::RParen) || (s[i] == '.' && k == TokenView::Dot),
    ensures
        lex_from(s, i) == (seq![k] + lex_from(s, i + 1).0, lex_from(s, i + 1).1),
{
    lemma_token_at_advances(s, i);
}

/// After values lexed so far come `, ` and one more value.
proof fn lemma_values_step(s: Seq<char>, i: int, front: Seq<ValueView>, last: ValueView, m: int)
    requires
        0 <= i <= m,
        m + 2 <= s.len(),
        lex_from(s, i) == (spec_values_tokens(front) + lex_from(s, m).0, lex_from(s, m).1),
        s[m] == ',',
        s[m + 1] == ' ',
        spec_readable(last),
        spec_written_at(s, m + 2, last),
    ensures
        lex_from(s, i) == (
            spec_values_tokens(front) + seq![TokenView::Comma] + spec_value_tokens(last) + lex_from(
                s,
                m + 2 + spec_value_text(last).len(),
            ).0,
            lex_from(s, m + 2 + spec_value_text(last).len()).1,
        ),
{
    lemma_lex_punct(s, m, TokenView::Comma);
    assert(is_blank(s[m + 1]));
    assert(lex_from(s, m + 1) == lex_from(s, m + 2));
    lemma_value_reads_back(s, m + 2, last);
    let rest = lex_from(s, m + 2 + spec_value_text(last).len()).0;
    assert(spec_values_tokens(front) + (seq![TokenView::Comma] + (spec_value_tokens(last) + rest))
        =~= spec_values_tokens(front) + seq![TokenView::Comma] + spec_value_tokens(last) + rest);
}

/// Printed values, written at `i` and followed by a closer, lex to their
/// tokens.
pub proof fn lemma_values_read_back(s: Seq<char>, i: int, vs: Seq<ValueView>)
    requires
        vs.len() >= 1,
        forall|k: int| 0 <= k < vs.len() ==> spec_readable(#[trigger] vs[k]),
        0 <= i,
        i + spec_values_text(vs).len() < s.len(),
        s.subrange(i, i + spec_values_text(vs).len()) == spec_values_text(vs),
        is_closer(s[i + spec_values_text(vs).len()]),
    ensures
        lex_from(s, i) == (
            spec_values_tokens(vs) + lex_from(s, i + spec_values_text(vs).len()).0,
            lex_from(s, i + spec_values_text(vs).len()).1,
        ),
    decreases vs.len(),
{
    let t = spec_values_text(vs);
    assert forall|x: int| 0 <= x < t.len() implies s[i + x] == #[trigger] t[x] by {
        assert(s.subrange(i, i + t.len())[x] == s[i + x]);
    }
    if vs.len() == 1 {
        lemma_value_reads_back(s, i, vs[0]);
    } else {
        let front = vs.drop_last();
        let last = vs.last();
        let tf = spec_values_text(front);
        let tl = spec_value_text(last);
        reveal_strlit(", ");
        assert(t =~= tf + seq![',', ' '] + tl);
        let m = i + tf.len();
        assert(s.subrange(i, m) =~= tf) by {
            assert forall|x: int| 0 <= x < tf.len() implies #[trigger] s.subrange(i, m)[x] == tf[x] by {
                assert(s[i + x] == t[x]);
            }
        }
        assert(s[m] == t[tf.len() as int]);
        assert(s[m + 1] == t[tf.len() as int + 1]);
        assert forall|k: int| 0 <= k < front.len() implies spec_readable(#[trigger] front[k]) by {
            assert(front[k] == vs[k]);
        }
        lemma_values_read_back(s, i, front);
        assert(s.subrange(m + 2, m + 2 + tl.len()) =~= tl) by {
            assert forall|x: int| 0 <= x < tl.len() implies #[trigger] s.subrange(m + 2, m + 2 + tl.len())[x]
                == tl[x] by {
                assert(s[m + 2 + x] == t[tf.len() + 2 + x]);
            }
        }
        assert(m + 2 + tl.len() == i + t.len());
        lemma_values_step(s, i, front, last, m);
    }
}

/// A ground fact as the printer writes it lexes to the predicate's name, the
/// parenthesized values' tokens, and the closing `.`, without error, where
/// the predicate's name is a plain identifier and every value is readable.
pub proof fn lemma_fact_lexes(pred: Seq<char>, vs: Seq<ValueView>)
    requires
        spec_plain_symbol(pred),
        vs.len() >= 1,
        forall|k: int| 0 <= k < vs.len() ==> spec_readable(#[trigger] vs[k]),
    ensures
        lex_from(spec_ground_fact_text(pred, vs), 0) == (
            seq![TokenView::Ident(pred), TokenView::LParen] + spec_values_tokens(vs) + seq![
                TokenView::RParen,
                TokenView::Dot,
            ],
            0nat,
        ),
{
    let s = spec_ground_fact_text(pred, vs);
    let tv = spec_values_text(vs);
    let p = pred.len() as int;
    reveal_strlit(").");
    assert(s =~= pred + seq!['('] + tv + seq![')', '.']);
    assert(s.subrange(0, p) =~= pred);
    assert(s[p] == '(');
    lemma_lex_word(s, 0, pred);
    lemma_lex_punct(s, p, TokenView::LParen);
    assert(s.subrange(p + 1, p + 1 + tv.len()) =~= tv);
    assert(s[p + 1 + tv.len()] == ')');
    lemma_values_read_back(s, p + 1, vs);
    lemma_lex_punct(s, p + 1 + tv.len(), TokenView::RParen);
    lemma_lex_punct(s, p + 2 + tv.len(), TokenView::Dot);
    assert(lex_from(s, s.len() as int) == (Seq::<TokenView>::empty(), 0nat));
    let vt = spec_values_tokens(vs);
    assert(seq![TokenView::Ident(pred)] + (seq![TokenView::LParen] + (vt + (seq![TokenView::RParen] + (seq![
        TokenView::Dot,
    ] + Seq::<TokenView>::empty())))) =~= seq![TokenView::Ident(pred), TokenView::LParen] + vt + seq![
        TokenView::RParen,
        TokenView::Dot,
    ]);
}

/// Values' tokens split at the front: the first value's tokens, a comma,
/// and the rest's.
proof fn lemma_values_tokens_front(vs: Seq<ValueView>)
    requires
        vs.len() >= 2,
    ensures
        spec_values_tokens(vs) == spec_value_tokens(vs[0]) + seq![TokenView::Comma] + spec_values_tokens(
            vs.drop_first(),
        ),
    decreases vs.len(),
{
    let front = vs.drop_last();
    if vs.len() == 2 {
        assert(front =~= seq![vs[0]]);
        assert(vs.drop_first() =~= seq![vs[1]]);
        assert(spec_values_tokens(front) == spec_value_tokens(vs[0]));
        assert(spec_values_tokens(vs.drop_first()) == spec_value_tokens(vs[1]));
        assert(vs.last() == vs[1]);
    } else {
        lemma_values_tokens_front(front);
        assert(front.drop_first() =~= vs.drop_first().drop_last());
        assert(front[0] == vs[0]);
        assert(vs.drop_first().last() == vs.last());
        assert(spec_values_tokens(vs) =~= spec_value_tokens(vs[0]) + seq![TokenView::Comma]
            + spec_values_tokens(vs.drop_first()));
    }
}

/// A readable value's tokens, followed by a `,` or a `)`, are read as that
/// constant.
proof fn lemma_value_constant(ts: Seq<TokenView>, p: int, v: ValueView)
    requires
        spec_readable(v),
        0 <= p,
        p + spec_value_tokens(v).len() < ts.len(),
        ts.subrange(p, p + spec_value_tokens(v).len()) == spec_value_tokens(v),
        ts[p + spec_value_tokens(v).len()] == TokenView::Comma || ts[p + spec_value_tokens(v).len()]
            == TokenView::RParen,
    ensures
        spec_closed_constant(ts, p) == Some((v, p + spec_value_tokens(v).len())),
{
    let vt = spec_value_tokens(v);
    assert(ts[p] == ts.subrange(p, p + vt.len())[0]);
    if vt.len() == 2 {
        assert(ts[p + 1] == ts.subrange(p, p + vt.len())[1]);
        if let ValueView::Float(t) = v {
            assert(seq!['-'] + t.drop_first() =~= t);
        }
    }
}

/// Readable values' tokens, followed by a `)`, are read as that list of
/// constants.
proof fn lemma_values_const_list(ts: Seq<TokenView>, p: int, vs: Seq<ValueView>)
    requires
        vs.len() >= 1,
        forall|k: int| 0 <= k < vs.len() ==> spec_readable(#[trigger] vs[k]),
        0 <= p,
        p + spec_values_tokens(vs).len() < ts.len(),
        ts.subrange(p, p + spec_values_tokens(vs).len()) == spec_values_tokens(vs),
        ts[p + spec_values_tokens(vs).len()] == TokenView::RParen,
    ensures
        spec_const_list(ts, p) == Some((vs, p + spec_values_tokens(vs).len())),
    decreases vs.len(),
{
    let vt = spec_values_tokens(vs);
    assert(spec_readable(vs[0]));
    if vs.len() == 1 {
        lemma_value_constant(ts, p, vs[0]);
        assert(seq![vs[0]] =~= vs);
    } else {
        lemma_values_tokens_front(vs);
        let t0 = spec_value_tokens(vs[0]);
        let rest = vs.drop_first();
        let rt = spec_values_tokens(rest);
        let e = p + t0.len();
        assert(vt =~= t0 + seq![TokenView::Comma] + rt);
        assert(ts.subrange(p, e) =~= t0) by {
            assert forall|x: int| 0 <= x < t0.len() implies #[trigger] ts.subrange(p, e)[x] == t0[x] by {
                assert(ts.subrange(p, p + vt.len())[x] == vt[x]);
            }
        }
        assert(ts[e] == TokenView::Comma) by {
            assert(ts.subrange(p, p + vt.len())[t0.len() as int] == vt[t0.len() as int]);
        }
        lemma_value_constant(ts, p, vs[0]);
        assert(ts.subrange(e + 1, e + 1 + rt.len()) =~= rt) by {
            assert forall|x: int| 0 <= x < rt.len() implies #[trigger] ts.subrange(e + 1, e + 1 + rt.len())[x]
                == rt[x] by {
                assert(ts.subrange(p, p + vt.len())[t0.len() + 1 + x] == vt[t0.len() + 1 + x]);
            }
        }
        assert forall|k: int| 0 <= k < rest.len() implies spec_readable(#[trigger] rest[k]) by {
            assert(rest[k] == vs[k + 1]);
        }
        assert(e + 1 + rt.len() == p + vt.len());
        lemma_values_const_list(ts, e + 1, rest);
        assert(seq![vs[0]] + rest =~= vs);
    }
}

/// A ground fact as the printer writes it reads back, through the lexer and
/// the parser's grammar of facts, as exactly that one fact: the same
/// predicate and the same values, where the predicate's name is a plain
/// identifier and every value is readable.
pub proof fn lemma_printed_fact_parses(pred: Seq<char>, vs: Seq<ValueView>)
    requires
        spec_plain_symbol(pred),
        vs.len() >= 1,
        forall|k: int| 0 <= k < vs.len() ==> spec_readable(#[trigger] vs[k]),
    ensures
        lex_from(spec_ground_fact_text(pred, vs), 0).1 == 0,
        spec_facts_from(lex_from(spec_ground_fact_text(pred, vs), 0).0.push(TokenView::Eof), 0) == Some(
            seq![(pred, vs)],
        ),
{
    lemma_fact_lexes(pred, vs);
    let vt = spec_values_tokens(vs);
    let ts = lex_from(spec_ground_fact_text(pred, vs), 0).0.push(TokenView::Eof);
    let n = vt.len() as int;
    assert(ts =~= seq![TokenView::Ident(pred), TokenView::LParen] + vt + seq![
        TokenView::RParen,
        TokenView::Dot,
        TokenView::Eof,
    ]);
    assert(ts.subrange(2, 2 + n) =~= vt);
    assert(ts[2 + n] == TokenView::RParen);
    lemma_values_const_list(ts, 2, vs);
    assert(spec_atom_at(ts, 0) == Some((pred, vs, 3 + n)));
    assert(ts[3 + n] == TokenView::Dot);
    assert(spec_fact_at(ts, 0) == Some((pred, vs, 4 + n)));
    assert(spec_facts_from(ts, 4 + n) == Some(Seq::<(Seq<char>, Seq<ValueView>)>::empty()));
    assert(seq![(pred, vs)] + Seq::<(Seq<char>, Seq<ValueView>)>::empty() =~= seq![(pred, vs)]);
}

} // verus!
