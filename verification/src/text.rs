//! Text primitives shared by the printer, the temporal module and the
//! diagnostics: character sequences, decimal numerals, and the few `String`
//! operations std provides that vstd does not specify.
use vstd::prelude::*;

verus! {

/// The ASCII digit for `d` (`0 <= d < 10`).
pub open spec fn digit_char(d: int) -> char {
    ((48 + d) as u32) as char
}

/// Is `c` an ASCII decimal digit?
pub open spec fn is_digit(c: char) -> bool {
    '0' <= c && c <= '9'
}

/// Is `c` an ASCII letter?
pub open spec fn is_alpha(c: char) -> bool {
    ('a' <= c && c <= 'z') || ('A' <= c && c <= 'Z')
}

/// The numeric value of an ASCII digit.
pub open spec fn digit_value(c: char) -> int {
    (c as int) - ('0' as int)
}

/// Every character of `s` is an ASCII digit.
pub open spec fn all_digits(s: Seq<char>) -> bool {
    forall|i: int| 0 <= i < s.len() ==> is_digit(#[trigger] s[i])
}

/// The value of a run of decimal digits, most significant first.
pub open spec fn digits_value(s: Seq<char>) -> int
    decreases s.len(),
{
    if s.len() == 0 {
        0
    } else {
        10 * digits_value(s.drop_last()) + digit_value(s.last())
    }
}

/// The shortest decimal numeral of `n`.
pub open spec fn decimal(n: nat) -> Seq<char>
    decreases n,
{
    if n < 10 {
        seq![digit_char(n as int)]
    } else {
        decimal(n / 10).push(digit_char((n % 10) as int))
    }
}

/// `items` joined by `, `.
pub open spec fn comma_joined(items: Seq<Seq<char>>) -> Seq<char>
    decreases items.len(),
{
    if items.len() == 0 {
        seq![]
    } else if items.len() == 1 {
        items[0]
    } else {
        comma_joined(items.drop_last()) + seq![',', ' '] + items.last()
    }
}

/// The decimal numeral of a signed integer, `-` first when negative.
pub open spec fn signed_decimal(n: int) -> Seq<char> {
    if n < 0 {
        seq!['-'] + decimal((-n) as nat)
    } else {
        decimal(n as nat)
    }
}

/// `count` copies of `c`.
pub open spec fn repeat_char(c: char, count: nat) -> Seq<char> {
    Seq::new(count, |i: int| c)
}

/// The decimal numeral of `n` left-padded with zeros to at least `width`
/// characters (what `{n:0width$}` renders for a non-negative `n`).
pub open spec fn zero_padded(n: nat, width: nat) -> Seq<char> {
    let digits = decimal(n);
    if digits.len() >= width {
        digits
    } else {
        repeat_char('0', (width - digits.len()) as nat) + digits
    }
}

/// The length of the leading run of characters of `s` satisfying `p`.
pub open spec fn leading_run(s: Seq<char>, p: spec_fn(char) -> bool) -> nat
    decreases s.len(),
{
    if s.len() == 0 || !p(s[0]) {
        0
    } else {
        1 + leading_run(s.drop_first(), p)
    }
}

pub proof fn lemma_digit_char(d: int)
    requires
        0 <= d < 10,
    ensures
        digit_char(d) as int == 48 + d,
        is_digit(digit_char(d)),
        digit_value(digit_char(d)) == d,
{
    assert(('0' as int) == 48);
    let x = (48 + d) as u32;
    assert(x as int == 48 + d);
}

pub proof fn lemma_decimal_digits(n: nat)
    ensures
        decimal(n).len() >= 1,
        all_digits(decimal(n)),
        digits_value(decimal(n)) == n,
        n < 10 ==> decimal(n).len() == 1,
        10 <= n < 100 ==> decimal(n).len() == 2,
        100 <= n < 1000 ==> decimal(n).len() == 3,
        1000 <= n < 10000 ==> decimal(n).len() == 4,
        decimal(n).len() >= 2 ==> n >= 10,
    decreases n,
{
    if n < 10 {
        lemma_digit_char(n as int);
        assert(decimal(n).drop_last() =~= Seq::<char>::empty());
        assert(digits_value(Seq::<char>::empty()) == 0);
        assert(digits_value(decimal(n)) == 10 * digits_value(decimal(n).drop_last()) + digit_value(decimal(n).last()));
    } else {
        lemma_digit_char((n % 10) as int);
        lemma_decimal_digits(n / 10);
        assert(decimal(n).drop_last() =~= decimal(n / 10));
        assert(decimal(n).last() == digit_char((n % 10) as int));
        assert(digits_value(decimal(n)) == 10 * digits_value(decimal(n / 10)) + (n % 10));
        assert(n == 10 * (n / 10) + n % 10);
        assert forall|i: int| 0 <= i < decimal(n).len() implies is_digit(#[trigger] decimal(n)[i]) by {
            if i < decimal(n / 10).len() {
                assert(decimal(n)[i] == decimal(n / 10)[i]);
            }
        }
    }
}

pub proof fn lemma_digits_value_append(a: Seq<char>, b: Seq<char>)
    ensures
        digits_value(a + b) == digits_value(a) * pow10(b.len()) + digits_value(b),
    decreases b.len(),
{
    if b.len() == 0 {
        assert(a + b =~= a);
        assert(digits_value(b) == 0);
        assert(pow10(0) == 1);
        assert(digits_value(a) * 1 == digits_value(a));
    } else {
        let bp = b.drop_last();
        lemma_digits_value_append(a, bp);
        assert((a + b).drop_last() =~= a + bp);
        assert((a + b).last() == b.last());
        let p = pow10(bp.len());
        assert(pow10(b.len()) == 10 * p);
        let va = digits_value(a);
        let vb = digits_value(bp);
        assert(digits_value(a + b) == 10 * digits_value(a + bp) + digit_value(b.last()));
        assert(digits_value(a + bp) == va * p + vb);
        assert(digits_value(b) == 10 * vb + digit_value(b.last()));
        assert(10 * (va * p + vb) == va * (10 * p) + 10 * vb) by (nonlinear_arith);
        assert(va * pow10(b.len()) == va * (10 * p));
    }
}

pub proof fn lemma_digits_value_zeros(n: nat)
    ensures
        digits_value(repeat_char('0', n)) == 0,
    decreases n,
{
    if n > 0 {
        assert(repeat_char('0', n).drop_last() =~= repeat_char('0', (n - 1) as nat));
        lemma_digits_value_zeros((n - 1) as nat);
    }
}

pub proof fn lemma_zero_padded(n: nat, width: nat)
    ensures
        all_digits(zero_padded(n, width)),
        digits_value(zero_padded(n, width)) == n,
        n < pow10(width) && width > 0 ==> zero_padded(n, width).len() == width,
{
    lemma_decimal_digits(n);
    lemma_decimal_length_bound(n, width);
    let digits = decimal(n);
    if digits.len() < width {
        let zeros = repeat_char('0', (width - digits.len()) as nat);
        lemma_digits_value_append(zeros, digits);
        lemma_digits_value_zeros((width - digits.len()) as nat);
        assert(0 * pow10(digits.len()) == 0);
        assert forall|i: int| 0 <= i < zero_padded(n, width).len() implies is_digit(#[trigger] zero_padded(n, width)[i]) by {
            if i >= zeros.len() {
                assert(zero_padded(n, width)[i] == digits[i - zeros.len()]);
            }
        }
    }
}

/// `10^n`.
pub open spec fn pow10(n: nat) -> nat
    decreases n,
{
    if n == 0 {
        1
    } else {
        10 * pow10((n - 1) as nat)
    }
}

pub proof fn lemma_decimal_length_bound(n: nat, width: nat)
    ensures
        n < pow10(width) ==> decimal(n).len() <= width || width == 0,
        pow10(width) >= 1,
    decreases n, width,
{
    if width > 0 {
        lemma_decimal_length_bound(n / 10, (width - 1) as nat);
        if n >= 10 && n < pow10(width) {
            assert(n / 10 < pow10((width - 1) as nat));
        }
    }
}

/// Appends one character (`String::push`).
#[verifier::external_body]
pub fn push_char(s: &mut String, c: char)
    ensures
        final(s)@ == old(s)@.push(c),
{
    s.push(c)
}

/// The characters of `s`, in order (`str::chars` collected).
#[verifier::external_body]
pub fn chars_of(s: &str) -> (v: Vec<char>)
    ensures
        v@ == s@,
{
    s.chars().collect()
}

/// The string spelled by `v` (`String::from_iter` over chars).
#[verifier::external_body]
pub fn string_of(v: &[char]) -> (s: String)
    ensures
        s@ == v@,
{
    v.iter().collect()
}

/// Whether two character sequences are the same.
pub fn chars_equal(a: &[char], b: &[char]) -> (r: bool)
    ensures
        r == (a@ == b@),
{
    if a.len() != b.len() {
        return false;
    }
    let mut i: usize = 0;
    while i < a.len()
        invariant
            i <= a.len() == b.len(),
            a@.take(i as int) == b@.take(i as int),
        decreases a.len() - i,
    {
        if a[i] != b[i] {
            assert(a@[i as int] != b@[i as int]);
            return false;
        }
        i += 1;
        assert(a@.take(i as int) =~= a@.take((i - 1) as int).push(a@[i - 1]));
        assert(b@.take(i as int) =~= b@.take((i - 1) as int).push(b@[i - 1]));
    }
    assert(a@ =~= a@.take(i as int));
    assert(b@ =~= b@.take(i as int));
    true
}

/// Whether two strings spell the same characters.
pub fn str_equal(a: &str, b: &str) -> (r: bool)
    ensures
        r == (a@ == b@),
{
    let va = chars_of(a);
    let vb = chars_of(b);
    chars_equal(va.as_slice(), vb.as_slice())
}

/// A copy of `s` (`str::to_string`).
pub fn to_owned(s: &str) -> (r: String)
    ensures
        r@ == s@,
{
    String::from_str(s)
}

/// Appends the characters of `v` to `s`.
pub fn push_chars(s: &mut String, v: &[char])
    ensures
        final(s)@ == old(s)@ + v@,
{
    let mut i: usize = 0;
    while i < v.len()
        invariant
            i <= v.len(),
            s@ == old(s)@ + v@.take(i as int),
        decreases v.len() - i,
    {
        push_char(s, v[i]);
        i += 1;
        assert(v@.take(i as int) =~= v@.take((i - 1) as int).push(v@[i - 1]));
    }
    assert(v@.take(v.len() as int) =~= v@);
}

/// Appends the characters of `t` to `s`.
pub fn push_str(s: &mut String, t: &str)
    ensures
        final(s)@ == old(s)@ + t@,
{
    let v = chars_of(t);
    push_chars(s, v.as_slice());
}

/// The decimal numeral of `n`, as characters.
pub fn decimal_chars(n: u64) -> (v: Vec<char>)
    ensures
        v@ == decimal(n as nat),
    decreases n,
{
    if n < 10 {
        let c = (('0' as u32) + (n as u32)) as u8 as char;
        assert(c == digit_char(n as int)) by {
            assert(('0' as u32) == 48u32);
        }
        let mut v = Vec::new();
        v.push(c);
        v
    } else {
        let mut v = decimal_chars(n / 10);
        let d = n % 10;
        let c = (('0' as u32) + (d as u32)) as u8 as char;
        assert(c == digit_char((n % 10) as int)) by {
            assert(('0' as u32) == 48u32);
        }
        v.push(c);
        v
    }
}

/// The decimal numeral of a signed integer.
pub fn signed_decimal_chars(n: i64) -> (v: Vec<char>)
    ensures
        v@ == signed_decimal(n as int),
{
    if n < 0 {
        let magnitude: u64 = if n == i64::MIN {
            9223372036854775808u64
        } else {
            (-n) as u64
        };
        let digits = decimal_chars(magnitude);
        let mut v = Vec::new();
        v.push('-');
        let mut i: usize = 0;
        while i < digits.len()
            invariant
                i <= digits.len(),
                v@ == seq!['-'] + digits@.take(i as int),
            decreases digits.len() - i,
        {
            v.push(digits[i]);
            i += 1;
            assert(digits@.take(i as int) =~= digits@.take((i - 1) as int).push(digits@[i - 1]));
        }
        assert(digits@.take(digits.len() as int) =~= digits@);
        v
    } else {
        decimal_chars(n as u64)
    }
}

/// The decimal numeral of a signed integer, as a `String` (what `i64`'s
/// `to_string` renders).
pub fn i64_text(n: i64) -> (s: String)
    ensures
        s@ == signed_decimal(n as int),
{
    let v = signed_decimal_chars(n);
    string_of(&v)
}

/// The decimal numeral of `n` left-padded with zeros to `width`.
pub fn zero_padded_chars(n: u64, width: usize) -> (v: Vec<char>)
    ensures
        v@ == zero_padded(n as nat, width as nat),
{
    let digits = decimal_chars(n);
    if digits.len() >= width {
        digits
    } else {
        let pad = width - digits.len();
        let mut v: Vec<char> = Vec::new();
        let mut i: usize = 0;
        while i < pad
            invariant
                i <= pad,
                v@ == repeat_char('0', i as nat),
            decreases pad - i,
        {
            v.push('0');
            i += 1;
            assert(v@ =~= repeat_char('0', i as nat));
        }
        let mut j: usize = 0;
        while j < digits.len()
            invariant
                j <= digits.len(),
                v@ == repeat_char('0', pad as nat) + digits@.take(j as int),
            decreases digits.len() - j,
        {
            v.push(digits[j]);
            j += 1;
            assert(digits@.take(j as int) =~= digits@.take((j - 1) as int).push(digits@[j - 1]));
        }
        assert(digits@.take(digits.len() as int) =~= digits@);
        v
    }
}


/// The length of the leading run of ASCII digits of `s`.
pub open spec fn digit_run(s: Seq<char>) -> nat
    decreases s.len(),
{
    if s.len() == 0 || !is_digit(s[0]) {
        0
    } else {
        1 + digit_run(s.drop_first())
    }
}

/// The length of the leading run of ASCII letters of `s`.
pub open spec fn alpha_run(s: Seq<char>) -> nat
    decreases s.len(),
{
    if s.len() == 0 || !is_alpha(s[0]) {
        0
    } else {
        1 + alpha_run(s.drop_first())
    }
}

/// The index of the first `c` in `s`, if any.
pub open spec fn first_index(s: Seq<char>, c: char) -> Option<int>
    decreases s.len(),
{
    if s.len() == 0 {
        None
    } else if s[0] == c {
        Some(0)
    } else {
        match first_index(s.drop_first(), c) {
            Some(i) => Some(i + 1),
            None => None,
        }
    }
}

pub proof fn lemma_digit_run(s: Seq<char>, i: int)
    requires
        0 <= i <= s.len(),
        forall|j: int| 0 <= j < i ==> is_digit(#[trigger] s[j]),
        i == s.len() || !is_digit(s[i]),
    ensures
        digit_run(s) == i,
    decreases i,
{
    if i > 0 {
        let t = s.drop_first();
        assert forall|j: int| 0 <= j < i - 1 implies is_digit(#[trigger] t[j]) by {
            assert(t[j] == s[j + 1]);
        }
        lemma_digit_run(t, i - 1);
    }
}

pub proof fn lemma_digit_run_facts(s: Seq<char>)
    ensures
        digit_run(s) <= s.len(),
        forall|j: int| 0 <= j < digit_run(s) ==> is_digit(#[trigger] s[j]),
        digit_run(s) == s.len() || !is_digit(s[digit_run(s) as int]),
    decreases s.len(),
{
    if s.len() > 0 && is_digit(s[0]) {
        let t = s.drop_first();
        lemma_digit_run_facts(t);
        assert forall|j: int| 0 <= j < digit_run(s) implies is_digit(#[trigger] s[j]) by {
            if j > 0 {
                assert(s[j] == t[j - 1]);
            }
        }
        if digit_run(s) < s.len() {
            assert(s[digit_run(s) as int] == t[digit_run(t) as int]);
        }
    }
}

pub proof fn lemma_alpha_run(s: Seq<char>, i: int)
    requires
        0 <= i <= s.len(),
        forall|j: int| 0 <= j < i ==> is_alpha(#[trigger] s[j]),
        i == s.len() || !is_alpha(s[i]),
    ensures
        alpha_run(s) == i,
    decreases i,
{
    if i > 0 {
        let t = s.drop_first();
        assert forall|j: int| 0 <= j < i - 1 implies is_alpha(#[trigger] t[j]) by {
            assert(t[j] == s[j + 1]);
        }
        lemma_alpha_run(t, i - 1);
    }
}

pub proof fn lemma_first_index(s: Seq<char>, c: char, i: int)
    requires
        0 <= i <= s.len(),
        forall|j: int| 0 <= j < i ==> #[trigger] s[j] != c,
        i == s.len() || s[i] == c,
    ensures
        first_index(s, c) == if i == s.len() {
            None
        } else {
            Some(i)
        },
    decreases i,
{
    if i > 0 {
        let t = s.drop_first();
        assert forall|j: int| 0 <= j < i - 1 implies #[trigger] t[j] != c by {
            assert(t[j] == s[j + 1]);
        }
        assert(s[0] != c);
        lemma_first_index(t, c, i - 1);
    }
}

pub proof fn lemma_first_index_facts(s: Seq<char>, c: char)
    ensures
        first_index(s, c) matches Some(i) ==> 0 <= i < s.len() && s[i] == c && forall|j: int|
            0 <= j < i ==> #[trigger] s[j] != c,
        first_index(s, c) is None ==> forall|j: int| 0 <= j < s.len() ==> #[trigger] s[j] != c,
    decreases s.len(),
{
    if s.len() > 0 && s[0] != c {
        let t = s.drop_first();
        lemma_first_index_facts(t, c);
        if let Some(i) = first_index(t, c) {
            assert forall|j: int| 0 <= j < i + 1 implies #[trigger] s[j] != c by {
                if j > 0 {
                    assert(s[j] == t[j - 1]);
                }
            }
        } else {
            assert forall|j: int| 0 <= j < s.len() implies #[trigger] s[j] != c by {
                if j > 0 {
                    assert(s[j] == t[j - 1]);
                }
            }
        }
    }
}

/// Is `c` an ASCII decimal digit?
pub fn char_is_digit(c: char) -> (r: bool)
    ensures
        r == is_digit(c),
{
    '0' <= c && c <= '9'
}

/// Is `c` an ASCII letter?
pub fn char_is_alpha(c: char) -> (r: bool)
    ensures
        r == is_alpha(c),
{
    ('a' <= c && c <= 'z') || ('A' <= c && c <= 'Z')
}

/// The length of the leading digit run of `v[from..]`.
pub fn digit_run_from(v: &[char], from: usize) -> (r: usize)
    requires
        from <= v.len(),
    ensures
        r as int == digit_run(v@.skip(from as int)),
        from + r <= v.len(),
{
    let mut i = from;
    while i < v.len() && char_is_digit(v[i])
        invariant
            from <= i <= v.len(),
            forall|j: int| from <= j < i ==> is_digit(#[trigger] v@[j]),
        decreases v.len() - i,
    {
        i += 1;
    }
    proof {
        let s = v@.skip(from as int);
        assert forall|j: int| 0 <= j < i - from implies is_digit(#[trigger] s[j]) by {
            assert(s[j] == v@[from + j]);
        }
        if i < v.len() {
            assert(s[i - from] == v@[i as int]);
        }
        lemma_digit_run(s, i - from);
    }
    i - from
}

/// The length of the leading letter run of `v[from..]`.
pub fn alpha_run_from(v: &[char], from: usize) -> (r: usize)
    requires
        from <= v.len(),
    ensures
        r as int == alpha_run(v@.skip(from as int)),
        from + r <= v.len(),
{
    let mut i = from;
    while i < v.len() && char_is_alpha(v[i])
        invariant
            from <= i <= v.len(),
            forall|j: int| from <= j < i ==> is_alpha(#[trigger] v@[j]),
        decreases v.len() - i,
    {
        i += 1;
    }
    proof {
        let s = v@.skip(from as int);
        assert forall|j: int| 0 <= j < i - from implies is_alpha(#[trigger] s[j]) by {
            assert(s[j] == v@[from + j]);
        }
        if i < v.len() {
            assert(s[i - from] == v@[i as int]);
        }
        lemma_alpha_run(s, i - from);
    }
    i - from
}

/// The index of the first `c` in `v`, if any.
pub fn find_char(v: &[char], c: char) -> (r: Option<usize>)
    ensures
        r matches Some(i) ==> first_index(v@, c) == Some(i as int),
        r is None ==> first_index(v@, c) is None,
{
    let mut i: usize = 0;
    while i < v.len() && v[i] != c
        invariant
            i <= v.len(),
            forall|j: int| 0 <= j < i ==> #[trigger] v@[j] != c,
        decreases v.len() - i,
    {
        i += 1;
    }
    proof {
        lemma_first_index(v@, c, i as int);
    }
    if i < v.len() {
        Some(i)
    } else {
        None
    }
}

/// A copy of `v[lo..hi]`.
pub fn copy_range(v: &[char], lo: usize, hi: usize) -> (r: Vec<char>)
    requires
        lo <= hi <= v.len(),
    ensures
        r@ == v@.subrange(lo as int, hi as int),
{
    let mut r: Vec<char> = Vec::new();
    let mut i = lo;
    while i < hi
        invariant
            lo <= i <= hi <= v.len(),
            r@ == v@.subrange(lo as int, i as int),
        decreases hi - i,
    {
        r.push(v[i]);
        i += 1;
        assert(r@ =~= v@.subrange(lo as int, i as int));
    }
    r
}

/// The string spelled by `v[lo..hi]`.
pub fn sub_string(v: &[char], lo: usize, hi: usize) -> (r: String)
    requires
        lo <= hi <= v.len(),
    ensures
        r@ == v@.subrange(lo as int, hi as int),
{
    let part = copy_range(v, lo, hi);
    string_of(&part)
}


pub proof fn lemma_digits_value_nonneg(s: Seq<char>)
    requires
        all_digits(s),
    ensures
        digits_value(s) >= 0,
    decreases s.len(),
{
    if s.len() > 0 {
        assert(all_digits(s.drop_last())) by {
            assert forall|i: int| 0 <= i < s.drop_last().len() implies is_digit(#[trigger] s.drop_last()[i]) by {
                assert(s.drop_last()[i] == s[i]);
            }
        }
        lemma_digits_value_nonneg(s.drop_last());
        assert(is_digit(s[s.len() - 1]));
    }
}

pub proof fn lemma_pow10_pos(n: nat)
    ensures
        pow10(n) >= 1,
    decreases n,
{
    if n > 0 {
        lemma_pow10_pos((n - 1) as nat);
    }
}

/// A digit string's value is at least the value of any of its prefixes.
pub proof fn lemma_digits_value_prefix(s: Seq<char>, k: int)
    requires
        all_digits(s),
        0 <= k <= s.len(),
    ensures
        digits_value(s) >= digits_value(s.take(k)),
{
    let a = s.take(k);
    let b = s.skip(k);
    assert(a + b =~= s);
    lemma_digits_value_append(a, b);
    assert(all_digits(a)) by {
        assert forall|i: int| 0 <= i < a.len() implies is_digit(#[trigger] a[i]) by {
            assert(a[i] == s[i]);
        }
    }
    assert(all_digits(b)) by {
        assert forall|i: int| 0 <= i < b.len() implies is_digit(#[trigger] b[i]) by {
            assert(b[i] == s[i + k]);
        }
    }
    lemma_digits_value_nonneg(a);
    lemma_digits_value_nonneg(b);
    lemma_pow10_pos(b.len());
    let va = digits_value(a);
    let p = pow10(b.len());
    assert(va * p >= va) by (nonlinear_arith)
        requires
            va >= 0,
            p >= 1,
    ;
}

/// The value of an ASCII digit.
pub fn char_digit_value(c: char) -> (r: u32)
    requires
        is_digit(c),
    ensures
        r as int == digit_value(c),
        r < 10,
{
    (c as u32) - ('0' as u32)
}


/// Unicode `White_Space`: what `char::is_whitespace` tests and `str::trim`
/// removes.
pub open spec fn is_unicode_whitespace(c: char) -> bool {
    let n = c as u32;
    (0x09 <= n <= 0x0d) || n == 0x20 || n == 0x85 || n == 0xa0 || n == 0x1680 || (0x2000 <= n
        <= 0x200a) || n == 0x2028 || n == 0x2029 || n == 0x202f || n == 0x205f || n == 0x3000
}

pub fn char_is_whitespace(c: char) -> (r: bool)
    ensures
        r == is_unicode_whitespace(c),
{
    let n = c as u32;
    (0x09 <= n && n <= 0x0d) || n == 0x20 || n == 0x85 || n == 0xa0 || n == 0x1680 || (0x2000
        <= n && n <= 0x200a) || n == 0x2028 || n == 0x2029 || n == 0x202f || n == 0x205f || n
        == 0x3000
}

/// `s` without leading whitespace.
pub open spec fn trim_start(s: Seq<char>) -> Seq<char>
    decreases s.len(),
{
    if s.len() > 0 && is_unicode_whitespace(s[0]) {
        trim_start(s.drop_first())
    } else {
        s
    }
}

/// `s` without trailing whitespace.
pub open spec fn trim_end(s: Seq<char>) -> Seq<char>
    decreases s.len(),
{
    if s.len() > 0 && is_unicode_whitespace(s.last()) {
        trim_end(s.drop_last())
    } else {
        s
    }
}

/// `s` without leading or trailing whitespace (`str::trim`).
pub open spec fn trim(s: Seq<char>) -> Seq<char> {
    trim_end(trim_start(s))
}

/// The bounds `[lo, hi)` of `v` without leading and trailing whitespace.
pub fn trim_bounds(v: &[char]) -> (r: (usize, usize))
    ensures
        r.0 <= r.1 <= v.len(),
        v@.subrange(r.0 as int, r.1 as int) == trim(v@),
{
    let mut lo: usize = 0;
    assert(v@.skip(0) =~= v@);
    while lo < v.len() && char_is_whitespace(v[lo])
        invariant
            lo <= v.len(),
            trim_start(v@) == trim_start(v@.skip(lo as int)),
        decreases v.len() - lo,
    {
        assert(v@.skip(lo as int).drop_first() =~= v@.skip(lo + 1));
        lo += 1;
    }
    let ghost started = v@.skip(lo as int);
    assert(trim_start(v@) == started);
    let mut hi: usize = v.len();
    while hi > lo && char_is_whitespace(v[hi - 1])
        invariant
            lo <= hi <= v.len(),
            started == v@.skip(lo as int),
            trim_end(started) == trim_end(v@.subrange(lo as int, hi as int)),
        decreases hi,
    {
        assert(v@.subrange(lo as int, hi as int).drop_last() =~= v@.subrange(lo as int, hi - 1));
        hi -= 1;
    }
    assert(v@.skip(lo as int) =~= v@.subrange(lo as int, v.len() as int));
    (lo, hi)
}

/// The number of UTF-8 bytes that encode `c`.
pub open spec fn utf8_len(c: char) -> nat {
    let n = c as u32;
    if n < 0x80 {
        1
    } else if n < 0x800 {
        2
    } else if n < 0x10000 {
        3
    } else {
        4
    }
}

/// The byte offset of character `k` of `s`.
pub open spec fn byte_offset(s: Seq<char>, k: int) -> nat
    decreases k,
{
    if k <= 0 {
        0
    } else {
        byte_offset(s, k - 1) + utf8_len(s[k - 1])
    }
}

pub fn char_utf8_len(c: char) -> (r: usize)
    ensures
        r == utf8_len(c),
{
    let n = c as u32;
    if n < 0x80 {
        1
    } else if n < 0x800 {
        2
    } else if n < 0x10000 {
        3
    } else {
        4
    }
}

} // verus!
