//! The lexer: source text to tokens.
//!
//! Whitespace and `%` or `#` line comments separate tokens. A lowercase-initial word
//! is an identifier or a keyword; an uppercase- or `_`-initial word is a
//! variable. Numbers are integers or decimal floats; strings are double-quoted
//! with `\"`, `\\`, `\n`, `\t` and `\r` escapes; `@` introduces a temporal
//! literal. The Prolog spellings `=<`, `\=`, `\+` and `!` are refused with the
//! spelling to use instead. A bad token is reported and skipped, so one run
//! reports every lexical error.
use vstd::prelude::*;

use crate::ast::Span;
use crate::error::Error;
use crate::temporal::{parse_temporal, Temporal};
use crate::text::{
    byte_offset, char_is_alpha, char_is_digit, chars_of, i64_text, push_str, string_of, to_owned,
    utf8_len,
};

verus! {

/// What a token is.
#[derive(Debug, Clone, PartialEq)]
pub enum TokenKind {
    Import,
    Declare,
    As,
    Not,
    Is,
    Absent,
    True,
    False,
    /// `?-`
    QuestionDash,
    /// `:-`
    ColonDash,
    Dot,
    Comma,
    Semi,
    LParen,
    RParen,
    LBrace,
    RBrace,
    Pipe,
    Colon,
    Eq,
    Ne,
    Lt,
    Le,
    Gt,
    Ge,
    Plus,
    Minus,
    Star,
    Slash,
    Int(i64),
    /// A float literal, as written.
    Float(String),
    Str(String),
    Ident(String),
    Variable(String),
    Temporal(Temporal),
    Eof,
}

/// A token and the bytes it spans.
#[derive(Debug, Clone, PartialEq)]
pub struct Token {
    pub kind: TokenKind,
    pub span: Span,
}

/// The tokens of a source, and the lexical errors found.
#[derive(Debug)]
pub struct Lexed {
    pub tokens: Vec<Token>,
    pub errors: Vec<Error>,
}

/// What a token is, as values.
pub enum TokenView {
    Import,
    Declare,
    As,
    Not,
    Is,
    Absent,
    True,
    False,
    QuestionDash,
    ColonDash,
    Dot,
    Comma,
    Semi,
    LParen,
    RParen,
    LBrace,
    RBrace,
    Pipe,
    Colon,
    Eq,
    Ne,
    Lt,
    Le,
    Gt,
    Ge,
    Plus,
    Minus,
    Star,
    Slash,
    Int(int),
    Float(Seq<char>),
    Str(Seq<char>),
    Ident(Seq<char>),
    Variable(Seq<char>),
    Temporal(crate::temporal::TemporalView),
    Eof,
}

impl View for TokenKind {
    type V = TokenView;

    open spec fn view(&self) -> TokenView {
        match self {
            TokenKind::Import => TokenView::Import,
            TokenKind::Declare => TokenView::Declare,
            TokenKind::As => TokenView::As,
            TokenKind::Not => TokenView::Not,
            TokenKind::Is => TokenView::Is,
            TokenKind::Absent => TokenView::Absent,
            TokenKind::True => TokenView::True,
            TokenKind::False => TokenView::False,
            TokenKind::QuestionDash => TokenView::QuestionDash,
            TokenKind::ColonDash => TokenView::ColonDash,
            TokenKind::Dot => TokenView::Dot,
            TokenKind::Comma => TokenView::Comma,
            TokenKind::Semi => TokenView::Semi,
            TokenKind::LParen => TokenView::LParen,
            TokenKind::RParen => TokenView::RParen,
            TokenKind::LBrace => TokenView::LBrace,
            TokenKind::RBrace => TokenView::RBrace,
            TokenKind::Pipe => TokenView::Pipe,
            TokenKind::Colon => TokenView::Colon,
            TokenKind::Eq => TokenView::Eq,
            TokenKind::Ne => TokenView::Ne,
            TokenKind::Lt => TokenView::Lt,
            TokenKind::Le => TokenView::Le,
            TokenKind::Gt => TokenView::Gt,
            TokenKind::Ge => TokenView::Ge,
            TokenKind::Plus => TokenView::Plus,
            TokenKind::Minus => TokenView::Minus,
            TokenKind::Star => TokenView::Star,
            TokenKind::Slash => TokenView::Slash,
            TokenKind::Int(n) => TokenView::Int(*n as int),
            TokenKind::Float(t) => TokenView::Float(t@),
            TokenKind::Str(t) => TokenView::Str(t@),
            TokenKind::Ident(t) => TokenView::Ident(t@),
            TokenKind::Variable(t) => TokenView::Variable(t@),
            TokenKind::Temporal(t) => TokenView::Temporal(t@),
            TokenKind::Eof => TokenView::Eof,
        }
    }
}

/// An optional token's view.
pub open spec fn kind_view(k: Option<TokenKind>) -> Option<TokenView> {
    match k {
        Some(t) => Some(t@),
        None => None,
    }
}

/// The views of tokens' kinds.
pub open spec fn token_views(tokens: Seq<Token>) -> Seq<TokenView> {
    tokens.map_values(|t: Token| t.kind@)
}

// --- The token grammar ---

/// Whitespace, which separates tokens.
pub open spec fn is_blank(c: char) -> bool {
    c == ' ' || c == '\t' || c == '\n' || c == '\r'
}

/// The end of the run of word characters from `i`.
pub open spec fn word_end(s: Seq<char>, i: int) -> int
    decreases s.len() - i,
{
    if 0 <= i < s.len() && is_word_char(s[i]) {
        word_end(s, i + 1)
    } else {
        i
    }
}

/// The end of the run of digits from `i`.
pub open spec fn digits_end(s: Seq<char>, i: int) -> int
    decreases s.len() - i,
{
    if 0 <= i < s.len() && crate::text::is_digit(s[i]) {
        digits_end(s, i + 1)
    } else {
        i
    }
}

/// The end of a line comment's text from `i`: the next newline, or the end.
pub open spec fn line_end(s: Seq<char>, i: int) -> int
    decreases s.len() - i,
{
    if 0 <= i < s.len() && s[i] != '\n' {
        line_end(s, i + 1)
    } else {
        i
    }
}

/// A character of a temporal literal after `@`: a letter, digit, `:`, `-`
/// or `+`, or a `.` followed by a digit.
pub open spec fn is_temporal_char(s: Seq<char>, i: int) -> bool {
    let c = s[i];
    ('0' <= c <= '9') || ('a' <= c <= 'z') || ('A' <= c <= 'Z') || c == ':' || c == '-' || c == '+' || (c
        == '.' && i + 1 < s.len() && '0' <= s[i + 1] <= '9')
}

/// The end of a temporal literal's text from `i`.
pub open spec fn temporal_end(s: Seq<char>, i: int) -> int
    decreases s.len() - i,
{
    if 0 <= i < s.len() && is_temporal_char(s, i) {
        temporal_end(s, i + 1)
    } else {
        i
    }
}

/// The keyword a word spells.
pub open spec fn spec_keyword(w: Seq<char>) -> Option<TokenView> {
    if w == "import"@ {
        Some(TokenView::Import)
    } else if w == "declare"@ {
        Some(TokenView::Declare)
    } else if w == "as"@ {
        Some(TokenView::As)
    } else if w == "not"@ {
        Some(TokenView::Not)
    } else if w == "is"@ {
        Some(TokenView::Is)
    } else if w == "absent"@ {
        Some(TokenView::Absent)
    } else if w == "true"@ {
        Some(TokenView::True)
    } else if w == "false"@ {
        Some(TokenView::False)
    } else {
        None
    }
}

/// The end of a number from `i` (a digit): digits, then a fraction when a
/// `.` is followed by a digit, then an exponent when an `e` or `E` (and an
/// optional sign) is followed by a digit; and whether it is a float.
pub open spec fn number_end(s: Seq<char>, i: int) -> (int, bool) {
    let a = digits_end(s, i);
    let (b, fraction) = if a + 1 < s.len() && s[a] == '.' && crate::text::is_digit(s[a + 1]) {
        (digits_end(s, a + 1), true)
    } else {
        (a, false)
    };
    if b < s.len() && (s[b] == 'e' || s[b] == 'E') {
        let at = if b + 1 < s.len() && (s[b + 1] == '+' || s[b + 1] == '-') {
            b + 2
        } else {
            b + 1
        };
        if at < s.len() && crate::text::is_digit(s[at]) {
            (digits_end(s, at), true)
        } else {
            (b, fraction)
        }
    } else {
        (b, fraction)
    }
}

/// The character an escape letter stands for in a string literal.
pub open spec fn escaped_char(e: char) -> Option<char> {
    if e == '"' {
        Some('"')
    } else if e == '\\' {
        Some('\\')
    } else if e == 'n' {
        Some('\n')
    } else if e == 't' {
        Some('\t')
    } else if e == 'r' {
        Some('\r')
    } else {
        None
    }
}

/// A string literal's body from `j` on: where scanning stops, the content
/// read, whether an unknown escape occurred, and whether the closing quote
/// was found.
pub open spec fn string_from(s: Seq<char>, j: int) -> (int, Seq<char>, bool, bool)
    decreases s.len() - j,
{
    if j < 0 || j >= s.len() {
        (s.len() as int, Seq::empty(), false, false)
    } else if s[j] == '"' {
        (j + 1, Seq::empty(), false, true)
    } else if s[j] == '\\' {
        if j + 1 >= s.len() {
            (s.len() as int, Seq::empty(), false, false)
        } else {
            let (end, rest, bad, closed) = string_from(s, j + 2);
            match escaped_char(s[j + 1]) {
                Some(c) => (end, seq![c] + rest, bad, closed),
                None => (end, rest, true, closed),
            }
        }
    } else {
        let (end, rest, bad, closed) = string_from(s, j + 1);
        (end, seq![s[j]] + rest, bad, closed)
    }
}

/// The punctuation or operator at `i`: its end and its token, or `None` for
/// a refused spelling or a character that begins none.
pub open spec fn symbol_at(s: Seq<char>, i: int) -> (int, Option<TokenView>) {
    let c = s[i];
    let next = if i + 1 < s.len() {
        Some(s[i + 1])
    } else {
        None
    };
    if c == '?' {
        if next == Some('-') {
            (i + 2, Some(TokenView::QuestionDash))
        } else {
            (i + 1, None)
        }
    } else if c == ':' {
        if next == Some('-') {
            (i + 2, Some(TokenView::ColonDash))
        } else {
            (i + 1, Some(TokenView::Colon))
        }
    } else if c == '=' {
        if next == Some('<') {
            (i + 2, None)
        } else {
            (i + 1, Some(TokenView::Eq))
        }
    } else if c == '!' {
        if next == Some('=') {
            (i + 2, Some(TokenView::Ne))
        } else {
            (i + 1, None)
        }
    } else if c == '\\' {
        if next == Some('=') || next == Some('+') {
            (i + 2, None)
        } else {
            (i + 1, None)
        }
    } else if c == '<' {
        if next == Some('=') {
            (i + 2, Some(TokenView::Le))
        } else {
            (i + 1, Some(TokenView::Lt))
        }
    } else if c == '>' {
        if next == Some('=') {
            (i + 2, Some(TokenView::Ge))
        } else {
            (i + 1, Some(TokenView::Gt))
        }
    } else {
        (
            i + 1,
            if c == '.' {
                Some(TokenView::Dot)
            } else if c == ',' {
                Some(TokenView::Comma)
            } else if c == ';' {
                Some(TokenView::Semi)
            } else if c == '(' {
                Some(TokenView::LParen)
            } else if c == ')' {
                Some(TokenView::RParen)
            } else if c == '{' {
                Some(TokenView::LBrace)
            } else if c == '}' {
                Some(TokenView::RBrace)
            } else if c == '|' {
                Some(TokenView::Pipe)
            } else if c == '+' {
                Some(TokenView::Plus)
            } else if c == '-' {
                Some(TokenView::Minus)
            } else if c == '*' {
                Some(TokenView::Star)
            } else if c == '/' {
                Some(TokenView::Slash)
            } else {
                None
            },
        )
    }
}

/// The token that starts at `i` (not whitespace, not a comment): where it
/// ends, and what it is, or `None` where it is a lexical error (which is
/// reported and skipped). A word is a variable when it starts uppercase or
/// with `_`, else a keyword or an identifier; a number is a float when it has
/// a fraction or an exponent, else an int when its value fits 64 bits; a
/// string is read with its escapes; `@` starts a temporal literal.
pub open spec fn token_at(s: Seq<char>, i: int) -> (int, Option<TokenView>) {
    let c = s[i];
    if is_word_char(c) && !crate::text::is_digit(c) {
        let e = word_end(s, i);
        let w = s.subrange(i, e);
        (
            e,
            if ('A' <= c <= 'Z') || c == '_' {
                Some(TokenView::Variable(w))
            } else {
                match spec_keyword(w) {
                    Some(k) => Some(k),
                    None => Some(TokenView::Ident(w)),
                }
            },
        )
    } else if crate::text::is_digit(c) {
        let (e, float) = number_end(s, i);
        let text = s.subrange(i, e);
        (
            e,
            if float {
                Some(TokenView::Float(text))
            } else if crate::text::digits_value(text) <= i64::MAX {
                Some(TokenView::Int(crate::text::digits_value(text)))
            } else {
                None
            },
        )
    } else if c == '"' {
        let (e, content, bad, closed) = string_from(s, i + 1);
        (
            e,
            if closed && !bad {
                Some(TokenView::Str(content))
            } else {
                None
            },
        )
    } else if c == '@' {
        let e = temporal_end(s, i + 1);
        (
            e,
            match crate::temporal::spec_parse_temporal(s.subrange(i + 1, e)) {
                Ok(t) => Some(TokenView::Temporal(t)),
                Err(_) => None,
            },
        )
    } else {
        symbol_at(s, i)
    }
}

/// The tokens of `s` from `i` on (errors skipped), and how many lexical
/// errors there are. Whitespace separates tokens, and `%` or `#` starts a
/// comment that runs to the end of its line.
pub open spec fn lex_from(s: Seq<char>, i: int) -> (Seq<TokenView>, nat)
    decreases s.len() - i,
{
    if i < 0 || i >= s.len() {
        (Seq::empty(), 0)
    } else if is_blank(s[i]) {
        lex_from(s, i + 1)
    } else if s[i] == '%' || s[i] == '#' {
        proof {
            lemma_line_end(s, i + 1);
        }
        lex_from(s, line_end(s, i + 1))
    } else {
        proof {
            lemma_token_at_advances(s, i);
        }
        let (e, t) = token_at(s, i);
        let (rest, errors) = lex_from(s, e);
        match t {
            Some(k) => (seq![k] + rest, errors),
            None => (rest, errors + 1),
        }
    }
}

pub proof fn lemma_word_end(s: Seq<char>, i: int)
    requires
        0 <= i <= s.len(),
    ensures
        i <= word_end(s, i) <= s.len(),
        forall|k: int| i <= k < word_end(s, i) ==> is_word_char(#[trigger] s[k]),
        word_end(s, i) < s.len() ==> !is_word_char(s[word_end(s, i)]),
    decreases s.len() - i,
{
    if i < s.len() && is_word_char(s[i]) {
        lemma_word_end(s, i + 1);
    }
}

pub proof fn lemma_digits_end(s: Seq<char>, i: int)
    requires
        0 <= i <= s.len(),
    ensures
        i <= digits_end(s, i) <= s.len(),
        forall|k: int| i <= k < digits_end(s, i) ==> crate::text::is_digit(#[trigger] s[k]),
        digits_end(s, i) < s.len() ==> !crate::text::is_digit(s[digits_end(s, i)]),
    decreases s.len() - i,
{
    if i < s.len() && crate::text::is_digit(s[i]) {
        lemma_digits_end(s, i + 1);
    }
}

pub proof fn lemma_line_end(s: Seq<char>, i: int)
    requires
        0 <= i <= s.len(),
    ensures
        i <= line_end(s, i) <= s.len(),
    decreases s.len() - i,
{
    if i < s.len() && s[i] != '\n' {
        lemma_line_end(s, i + 1);
    }
}

pub proof fn lemma_temporal_end(s: Seq<char>, i: int)
    requires
        0 <= i <= s.len(),
    ensures
        i <= temporal_end(s, i) <= s.len(),
    decreases s.len() - i,
{
    if i < s.len() && is_temporal_char(s, i) {
        lemma_temporal_end(s, i + 1);
    }
}

pub proof fn lemma_string_from(s: Seq<char>, j: int)
    requires
        0 <= j,
    ensures
        j < string_from(s, j).0 <= s.len() || (j >= s.len() && string_from(s, j).0 == s.len()),
    decreases s.len() - j,
{
    if j < s.len() {
        if s[j] == '"' {
        } else if s[j] == '\\' {
            if j + 1 < s.len() {
                lemma_string_from(s, j + 2);
            }
        } else {
            lemma_string_from(s, j + 1);
        }
    }
}

pub proof fn lemma_number_end(s: Seq<char>, i: int)
    requires
        0 <= i < s.len(),
        crate::text::is_digit(s[i]),
    ensures
        i < number_end(s, i).0 <= s.len(),
{
    lemma_digits_end(s, i);
    let a = digits_end(s, i);
    if a + 1 < s.len() && s[a] == '.' && crate::text::is_digit(s[a + 1]) {
        lemma_digits_end(s, a + 1);
    }
    let b = if a + 1 < s.len() && s[a] == '.' && crate::text::is_digit(s[a + 1]) {
        digits_end(s, a + 1)
    } else {
        a
    };
    if b < s.len() && (s[b] == 'e' || s[b] == 'E') {
        let at = if b + 1 < s.len() && (s[b + 1] == '+' || s[b + 1] == '-') {
            b + 2
        } else {
            b + 1
        };
        if at < s.len() && crate::text::is_digit(s[at]) {
            lemma_digits_end(s, at);
        }
    }
}

/// A token always takes at least one character, and never runs past the end.
pub proof fn lemma_token_at_advances(s: Seq<char>, i: int)
    requires
        0 <= i < s.len(),
    ensures
        i < token_at(s, i).0 <= s.len(),
{
    let c = s[i];
    if is_word_char(c) && !crate::text::is_digit(c) {
        lemma_word_end(s, i);
    } else if crate::text::is_digit(c) {
        lemma_number_end(s, i);
    } else if c == '"' {
        lemma_string_from(s, i + 1);
    } else if c == '@' {
        lemma_temporal_end(s, i + 1);
    }
}

/// The byte length of `s` (`str::len`): each character takes its UTF-8 width.
#[verifier::external_body]
fn byte_len(s: &str) -> (r: usize)
    ensures
        r == byte_offset(s@, s@.len() as int),
{
    s.len()
}

/// Byte offsets grow with the character index.
proof fn lemma_byte_offset_monotone(s: Seq<char>, j: int, k: int)
    requires
        0 <= j <= k <= s.len(),
    ensures
        byte_offset(s, j) <= byte_offset(s, k),
        byte_offset(s, k) - byte_offset(s, j) <= 4 * (k - j),
        byte_offset(s, k) - byte_offset(s, j) >= k - j,
    decreases k - j,
{
    if j < k {
        lemma_byte_offset_monotone(s, j, k - 1);
    }
}

/// The tokens are well formed: one `Eof` at the end, spans within the source
/// and in order.
pub open spec fn well_formed_tokens(tokens: Seq<Token>, len: nat) -> bool {
    &&& tokens.len() >= 1
    &&& tokens.last().kind == TokenKind::Eof
    &&& forall|i: int| 0 <= i < tokens.len() - 1 ==> tokens[i].kind != TokenKind::Eof
    &&& forall|i: int|
        0 <= i < tokens.len() ==> #[trigger] tokens[i].span.start <= tokens[i].span.end <= len
    &&& forall|i: int, j: int| 0 <= i < j < tokens.len() ==> tokens[i].span.end <= tokens[j].span.start
}

/// A character that continues a word.
pub open spec fn is_word_char(c: char) -> bool {
    ('a' <= c <= 'z') || ('A' <= c <= 'Z') || ('0' <= c <= '9') || c == '_'
}

fn word_char(c: char) -> (r: bool)
    ensures
        r == is_word_char(c),
{
    ('a' <= c && c <= 'z') || ('A' <= c && c <= 'Z') || ('0' <= c && c <= '9') || c == '_'
}

/// A character of a temporal literal after `@`.
fn temporal_char(v: &[char], i: usize) -> (r: bool)
    requires
        i < v.len(),
    ensures
        r == is_temporal_char(v@, i as int),
{
    let c = v[i];
    if ('0' <= c && c <= '9') || ('a' <= c && c <= 'z') || ('A' <= c && c <= 'Z') || c == ':'
        || c == '-' || c == '+' {
        true
    } else if c == '.' {
        i + 1 < v.len() && '0' <= v[i + 1] && v[i + 1] <= '9'
    } else {
        false
    }
}

/// The keyword a word spells, if it spells one.
fn keyword(word: &[char]) -> (r: Option<TokenKind>)
    ensures
        kind_view(r) == spec_keyword(word@),
{
    let w = string_of(word);
    let s = w.as_str();
    if crate::text::str_equal(s, "import") {
        Some(TokenKind::Import)
    } else if crate::text::str_equal(s, "declare") {
        Some(TokenKind::Declare)
    } else if crate::text::str_equal(s, "as") {
        Some(TokenKind::As)
    } else if crate::text::str_equal(s, "not") {
        Some(TokenKind::Not)
    } else if crate::text::str_equal(s, "is") {
        Some(TokenKind::Is)
    } else if crate::text::str_equal(s, "absent") {
        Some(TokenKind::Absent)
    } else if crate::text::str_equal(s, "true") {
        Some(TokenKind::True)
    } else if crate::text::str_equal(s, "false") {
        Some(TokenKind::False)
    } else {
        None
    }
}

/// The lexer's position: a character index and its byte offset.
struct Cursor {
    chars: Vec<char>,
    pos: usize,
    byte: usize,
    total: usize,
}

impl Cursor {
    spec fn ok(&self) -> bool {
        &&& self.pos <= self.chars@.len()
        &&& self.byte == byte_offset(self.chars@, self.pos as int)
        &&& self.total == byte_offset(self.chars@, self.chars@.len() as int)
    }

    /// Steps over one character.
    fn advance(&mut self)
        requires
            old(self).ok(),
            old(self).pos < old(self).chars@.len(),
        ensures
            final(self).ok(),
            final(self).chars@ == old(self).chars@,
            final(self).pos == old(self).pos + 1,
            final(self).byte > old(self).byte,
    {
        proof {
            lemma_byte_offset_monotone(self.chars@, self.pos as int + 1, self.chars@.len() as int);
        }
        let n = self.chars.len();
        let w = crate::text::char_utf8_len(self.chars[self.pos]);
        self.byte = self.byte + w;
        assert(self.pos < n);
        self.pos = self.pos + 1;
    }

    fn peek(&self, ahead: usize) -> (r: Option<char>)
        requires
            self.ok(),
        ensures
            r matches Some(c) ==> self.pos + ahead < self.chars@.len() && c == self.chars@[self.pos + ahead],
            r is None ==> self.pos + ahead >= self.chars@.len(),
    {
        if ahead < self.chars.len() - self.pos {
            Some(self.chars[self.pos + ahead])
        } else {
            None
        }
    }
}

/// A lexical error message with its byte position.
fn lex_error(message: &str, at: usize) -> (r: Error)
    ensures
        r.kind == crate::error::ErrorKind::Parse,
{
    let mut m = to_owned(message);
    push_str(&mut m, " (at byte ");
    let n = i64_text(at as i64);
    push_str(&mut m, n.as_str());
    push_str(&mut m, ")");
    Error::parse(m)
}

/// Lexes `src` into tokens, reporting every lexical error.
pub fn lex(src: &str) -> (r: Lexed)
    ensures
        well_formed_tokens(r.tokens@, byte_offset(src@, src@.len() as int)),
        forall|i: int| 0 <= i < r.errors@.len() ==> (#[trigger] r.errors@[i]).kind
            == crate::error::ErrorKind::Parse,
        token_views(r.tokens@) == lex_from(src@, 0).0.push(TokenView::Eof),
        r.errors@.len() == lex_from(src@, 0).1,
{
    let total = byte_len(src);
    let mut cur = Cursor { chars: chars_of(src), pos: 0, byte: 0, total };
    let mut tokens: Vec<Token> = Vec::new();
    let mut errors: Vec<Error> = Vec::new();
    let ghost all = lex_from(src@, 0);
    while cur.pos < cur.chars.len()
        invariant
            cur.ok(),
            cur.chars@ == src@,
            cur.total == byte_offset(src@, src@.len() as int),
            all == lex_from(src@, 0),
            token_views(tokens@) + lex_from(src@, cur.pos as int).0 == all.0,
            errors@.len() + lex_from(src@, cur.pos as int).1 == all.1,
            forall|i: int| 0 <= i < tokens@.len() ==> (#[trigger] tokens@[i]).kind != TokenKind::Eof,
            forall|i: int|
                0 <= i < tokens@.len() ==> (#[trigger] tokens@[i]).span.start <= tokens@[i].span.end
                    <= cur.byte,
            forall|i: int, j: int|
                0 <= i < j < tokens@.len() ==> tokens@[i].span.end <= tokens@[j].span.start,
            forall|i: int| 0 <= i < errors@.len() ==> (#[trigger] errors@[i]).kind
                == crate::error::ErrorKind::Parse,
        decreases cur.chars@.len() - cur.pos,
    {
        proof {
            lemma_byte_offset_monotone(src@, cur.pos as int, src@.len() as int);
        }
        let c = cur.chars[cur.pos];
        let start = cur.byte;
        let ghost p0 = cur.pos;
        let ghost before = tokens@;
        let ghost errors_before = errors@.len();
        assert(forall|i: int| 0 <= i < before.len() ==> (#[trigger] before[i]).span.end <= start);
        if c == ' ' || c == '\t' || c == '\n' || c == '\r' {
            cur.advance();
            continue;
        }
        if c == '%' || c == '#' {
            cur.advance();
            proof {
                lemma_line_end(src@, cur.pos as int);
            }
            while cur.pos < cur.chars.len() && cur.chars[cur.pos] != '\n'
                invariant
                    cur.ok(),
                    cur.chars@ == src@,
                    p0 < cur.pos,
                    start <= cur.byte,
                    line_end(src@, p0 + 1) == line_end(src@, cur.pos as int),
                decreases cur.chars@.len() - cur.pos,
            {
                cur.advance();
            }
            continue;
        }
        proof {
            lemma_token_at_advances(src@, p0 as int);
        }
        let kind: Option<TokenKind> = if word_char(c) && !char_is_digit(c) {
            let from = cur.pos;
            proof {
                lemma_word_end(src@, from as int);
            }
            while cur.pos < cur.chars.len() && word_char(cur.chars[cur.pos])
                invariant
                    cur.ok(),
                    cur.chars@ == src@,
                    p0 == from <= cur.pos,
                    start <= cur.byte,
                    word_end(src@, from as int) == word_end(src@, cur.pos as int),
                decreases cur.chars@.len() - cur.pos,
            {
                cur.advance();
            }
            let word = crate::text::copy_range(cur.chars.as_slice(), from, cur.pos);
            if ('A' <= c && c <= 'Z') || c == '_' {
                Some(TokenKind::Variable(string_of(word.as_slice())))
            } else {
                match keyword(word.as_slice()) {
                    Some(k) => Some(k),
                    None => Some(TokenKind::Ident(string_of(word.as_slice()))),
                }
            }
        } else if char_is_digit(c) {
            lex_number(&mut cur, &mut errors, start)
        } else if c == '"' {
            lex_string(&mut cur, &mut errors, start)
        } else if c == '@' {
            cur.advance();
            let from = cur.pos;
            proof {
                lemma_temporal_end(src@, from as int);
            }
            while cur.pos < cur.chars.len() && temporal_char(cur.chars.as_slice(), cur.pos)
                invariant
                    cur.ok(),
                    cur.chars@ == src@,
                    p0 < from <= cur.pos,
                    start < cur.byte,
                    temporal_end(src@, from as int) == temporal_end(src@, cur.pos as int),
                decreases cur.chars@.len() - cur.pos,
            {
                cur.advance();
            }
            let text = crate::text::sub_string(cur.chars.as_slice(), from, cur.pos);
            match parse_temporal(text.as_str()) {
                Ok(t) => Some(TokenKind::Temporal(t)),
                Err(e) => {
                    let m = e.message();
                    errors.push(lex_error(m.as_str(), start));
                    None
                },
            }
        } else {
            lex_symbol(&mut cur, &mut errors, start)
        };
        proof {
            lemma_byte_offset_monotone(src@, p0 as int, cur.pos as int);
            let (e, t) = token_at(src@, p0 as int);
            assert(cur.pos == e);
            assert(kind_view(kind) == t);
            assert(errors@.len() == errors_before + if kind is None {
                1int
            } else {
                0int
            });
        }
        if let Some(kind) = kind {
            let end = cur.byte;
            tokens.push(Token { kind, span: Span { start, end } });
            assert(tokens@ == before.push(Token { kind, span: Span { start, end } }));
            assert(token_views(tokens@) =~= token_views(before).push(kind@));
            assert forall|i: int, j: int| 0 <= i < j < tokens@.len() implies tokens@[i].span.end
                <= tokens@[j].span.start by {
                if j == tokens@.len() - 1 {
                    assert(before[i].span.end <= start);
                }
            }
        }
    }
    let end = cur.byte;
    let ghost before = tokens@;
    assert(forall|i: int| 0 <= i < before.len() ==> (#[trigger] before[i]).span.end <= end);
    tokens.push(Token { kind: TokenKind::Eof, span: Span { start: end, end } });
    assert(tokens@ == before.push(Token { kind: TokenKind::Eof, span: Span { start: end, end } }));
    assert forall|i: int, j: int| 0 <= i < j < tokens@.len() implies tokens@[i].span.end
        <= tokens@[j].span.start by {
        if j == tokens@.len() - 1 {
            assert(before[i].span.end <= end);
        }
    }
    assert(end == byte_offset(src@, src@.len() as int));
    assert(lex_from(src@, cur.pos as int).0 =~= Seq::<TokenView>::empty());
    assert(token_views(before) =~= all.0);
    assert(token_views(tokens@) =~= token_views(before).push(TokenView::Eof));
    Lexed { tokens, errors }
}

/// An integer or decimal float at the cursor.
fn lex_number(cur: &mut Cursor, errors: &mut Vec<Error>, start: usize) -> (r: Option<TokenKind>)
    requires
        old(cur).ok(),
        old(cur).pos < old(cur).chars@.len(),
        crate::text::is_digit(old(cur).chars@[old(cur).pos as int]),
        start == old(cur).byte,
        forall|i: int| 0 <= i < old(errors)@.len() ==> (#[trigger] old(errors)@[i]).kind
            == crate::error::ErrorKind::Parse,
    ensures
        final(cur).ok(),
        final(cur).chars@ == old(cur).chars@,
        final(cur).pos > old(cur).pos,
        final(cur).pos as int == token_at(old(cur).chars@, old(cur).pos as int).0,
        kind_view(r) == token_at(old(cur).chars@, old(cur).pos as int).1,
        final(errors)@.len() == old(errors)@.len() + if r is None {
            1int
        } else {
            0int
        },
        forall|i: int| 0 <= i < final(errors)@.len() ==> (#[trigger] final(errors)@[i]).kind
            == crate::error::ErrorKind::Parse,
{
    let ghost s = cur.chars@;
    let from = cur.pos;
    let mut float = false;
    proof {
        lemma_digits_end(s, from as int);
        lemma_token_at_advances(s, from as int);
    }
    while cur.pos < cur.chars.len() && char_is_digit(cur.chars[cur.pos])
        invariant
            cur.ok(),
            cur.chars@ == s,
            from <= cur.pos,
            digits_end(s, from as int) == digits_end(s, cur.pos as int),
        decreases cur.chars@.len() - cur.pos,
    {
        cur.advance();
    }
    let ghost a = cur.pos as int;
    assert(a == digits_end(s, from as int));
    if let (Some('.'), Some(d)) = (cur.peek(0), cur.peek(1)) {
        if char_is_digit(d) {
            float = true;
            cur.advance();
            let ghost f0 = cur.pos as int;
            while cur.pos < cur.chars.len() && char_is_digit(cur.chars[cur.pos])
                invariant
                    cur.ok(),
                    cur.chars@ == s,
                    from < cur.pos,
                    digits_end(s, f0) == digits_end(s, cur.pos as int),
                decreases cur.chars@.len() - cur.pos,
            {
                cur.advance();
            }
        }
    }
    let ghost b = cur.pos as int;
    if let Some(e) = cur.peek(0) {
        if e == 'e' || e == 'E' {
            let digits_at: usize = match cur.peek(1) {
                Some('+') | Some('-') => 2,
                _ => 1,
            };
            if let Some(d) = cur.peek(digits_at) {
                if char_is_digit(d) {
                    float = true;
                    let mut k: usize = 0;
                    while k < digits_at
                        invariant
                            cur.ok(),
                            cur.chars@ == s,
                            from < cur.pos,
                            k <= digits_at <= 2,
                            cur.pos == b + k,
                            cur.pos + (digits_at - k) < cur.chars@.len(),
                        decreases digits_at - k,
                    {
                        cur.advance();
                        k += 1;
                    }
                    let ghost x0 = cur.pos as int;
                    while cur.pos < cur.chars.len() && char_is_digit(cur.chars[cur.pos])
                        invariant
                            cur.ok(),
                            cur.chars@ == s,
                            from < cur.pos,
                            digits_end(s, x0) == digits_end(s, cur.pos as int),
                        decreases cur.chars@.len() - cur.pos,
                    {
                        cur.advance();
                    }
                }
            }
        }
    }
    assert(cur.pos as int == number_end(s, from as int).0);
    assert(float == number_end(s, from as int).1);
    let text = crate::text::sub_string(cur.chars.as_slice(), from, cur.pos);
    if float {
        return Some(TokenKind::Float(text));
    }
    let digits = crate::text::copy_range(cur.chars.as_slice(), from, cur.pos);
    proof {
        lemma_digits_end(s, from as int);
    }
    assert(crate::text::all_digits(digits@)) by {
        assert forall|k: int| 0 <= k < digits@.len() implies crate::text::is_digit(#[trigger] digits@[k]) by {
            assert(digits@[k] == s[from + k]);
        }
    }
    match digits_to_i64(digits.as_slice()) {
        Some(n) => Some(TokenKind::Int(n)),
        None => {
            errors.push(lex_error("integer literal out of range for a 64-bit integer", start));
            None
        },
    }
}

/// The value of a run of decimal digits, if it fits in an `i64`.
fn digits_to_i64(v: &[char]) -> (r: Option<i64>)
    requires
        crate::text::all_digits(v@),
    ensures
        r matches Some(n) ==> n as int == crate::text::digits_value(v@),
        r is None <==> crate::text::digits_value(v@) > i64::MAX,
{
    let mut n: i64 = 0;
    let mut i: usize = 0;
    while i < v.len()
        invariant
            i <= v.len(),
            crate::text::all_digits(v@),
            n >= 0,
            n as int == crate::text::digits_value(v@.take(i as int)),
        decreases v.len() - i,
    {
        assert(v@.take(i + 1).drop_last() =~= v@.take(i as int));
        assert(crate::text::is_digit(v@[i as int]));
        if !char_is_digit(v[i]) {
            return None;
        }
        let d = crate::text::char_digit_value(v[i]);
        if d >= 10 {
            return None;
        }
        if n > (i64::MAX - d as i64) / 10 {
            proof {
                assert(crate::text::digits_value(v@.take(i + 1)) == 10 * n + d);
                crate::text::lemma_digits_value_prefix(v@, i + 1);
            }
            return None;
        }
        n = n * 10 + d as i64;
        i += 1;
    }
    assert(v@.take(i as int) =~= v@);
    Some(n)
}

/// A double-quoted string at the cursor.
fn lex_string(cur: &mut Cursor, errors: &mut Vec<Error>, start: usize) -> (r: Option<TokenKind>)
    requires
        old(cur).ok(),
        old(cur).pos < old(cur).chars@.len(),
        old(cur).chars@[old(cur).pos as int] == '"',
        start == old(cur).byte,
        forall|i: int| 0 <= i < old(errors)@.len() ==> (#[trigger] old(errors)@[i]).kind
            == crate::error::ErrorKind::Parse,
    ensures
        final(cur).ok(),
        final(cur).chars@ == old(cur).chars@,
        final(cur).pos > old(cur).pos,
        final(cur).pos as int == token_at(old(cur).chars@, old(cur).pos as int).0,
        kind_view(r) == token_at(old(cur).chars@, old(cur).pos as int).1,
        final(errors)@.len() == old(errors)@.len() + if r is None {
            1int
        } else {
            0int
        },
        forall|i: int| 0 <= i < final(errors)@.len() ==> (#[trigger] final(errors)@[i]).kind
            == crate::error::ErrorKind::Parse,
{
    let ghost s = cur.chars@;
    let ghost n0 = errors@.len();
    proof {
        lemma_token_at_advances(s, cur.pos as int);
    }
    cur.advance();
    let ghost whole = string_from(s, cur.pos as int);
    assert(token_at(s, old(cur).pos as int) == (
        whole.0,
        if whole.3 && !whole.2 {
            Some(TokenView::Str(whole.1))
        } else {
            None
        },
    ));
    let mut out: Vec<char> = Vec::new();
    let mut bad_escape = false;
    loop
        invariant_except_break
            string_from(s, cur.pos as int).0 == whole.0,
            out@ + string_from(s, cur.pos as int).1 == whole.1,
            (bad_escape || string_from(s, cur.pos as int).2) == whole.2,
            string_from(s, cur.pos as int).3 == whole.3,
        invariant
            cur.ok(),
            cur.chars@ == s,
            s == old(cur).chars@,
            old(cur).pos < cur.pos,
            errors@.len() == n0,
            n0 == old(errors)@.len(),
            forall|i: int| 0 <= i < errors@.len() ==> (#[trigger] errors@[i]).kind
                == crate::error::ErrorKind::Parse,
            whole == string_from(s, old(cur).pos + 1),
            token_at(s, old(cur).pos as int) == (
                whole.0,
                if whole.3 && !whole.2 {
                    Some(TokenView::Str(whole.1))
                } else {
                    None
                },
            ),
        ensures
            cur.ok(),
            cur.chars@ == s,
            errors@.len() == n0,
            forall|i: int| 0 <= i < errors@.len() ==> (#[trigger] errors@[i]).kind
                == crate::error::ErrorKind::Parse,
            cur.pos == whole.0,
            out@ == whole.1,
            bad_escape == whole.2,
            whole.3,
        decreases cur.chars@.len() - cur.pos,
    {
        let ghost j = cur.pos as int;
        if cur.pos >= cur.chars.len() {
            errors.push(lex_error("unterminated string literal", start));
            return None;
        }
        let c = cur.chars[cur.pos];
        cur.advance();
        if c == '"' {
            assert(out@ + Seq::<char>::empty() =~= out@);
            break;
        }
        if c == '\\' {
            if cur.pos >= cur.chars.len() {
                errors.push(lex_error("unterminated string literal", start));
                return None;
            }
            let e = cur.chars[cur.pos];
            cur.advance();
            let ghost rest = string_from(s, j + 2);
            if e == '"' {
                out.push('"');
            } else if e == '\\' {
                out.push('\\');
            } else if e == 'n' {
                out.push('\n');
            } else if e == 't' {
                out.push('\t');
            } else if e == 'r' {
                out.push('\r');
            } else {
                bad_escape = true;
            }
            proof {
                match escaped_char(e) {
                    Some(x) => {
                        assert(string_from(s, j).1 == seq![x] + rest.1);
                        assert(out@.drop_last() + seq![x] + rest.1 =~= out@ + rest.1);
                    },
                    None => {},
                }
            }
        } else {
            out.push(c);
            proof {
                let rest = string_from(s, j + 1);
                assert(string_from(s, j).1 == seq![c] + rest.1);
                assert(out@.drop_last() + (seq![c] + rest.1) =~= out@ + rest.1);
            }
        }
    }
    if bad_escape {
        errors.push(lex_error("unknown escape in string literal; the escapes are \\\", \\\\, \\n, \\t and \\r", start));
        return None;
    }
    Some(TokenKind::Str(string_of(out.as_slice())))
}

/// A punctuation or operator token at the cursor, or the error for a
/// character that begins none.
fn lex_symbol(cur: &mut Cursor, errors: &mut Vec<Error>, start: usize) -> (r: Option<TokenKind>)
    requires
        old(cur).ok(),
        old(cur).pos < old(cur).chars@.len(),
        !is_word_char(old(cur).chars@[old(cur).pos as int]),
        old(cur).chars@[old(cur).pos as int] != '"',
        old(cur).chars@[old(cur).pos as int] != '@',
        start == old(cur).byte,
        forall|i: int| 0 <= i < old(errors)@.len() ==> (#[trigger] old(errors)@[i]).kind
            == crate::error::ErrorKind::Parse,
    ensures
        final(cur).ok(),
        final(cur).chars@ == old(cur).chars@,
        final(cur).pos > old(cur).pos,
        final(cur).pos as int == token_at(old(cur).chars@, old(cur).pos as int).0,
        kind_view(r) == token_at(old(cur).chars@, old(cur).pos as int).1,
        final(errors)@.len() == old(errors)@.len() + if r is None {
            1int
        } else {
            0int
        },
        forall|i: int| 0 <= i < final(errors)@.len() ==> (#[trigger] final(errors)@[i]).kind
            == crate::error::ErrorKind::Parse,
{
    let c = cur.chars[cur.pos];
    let next = cur.peek(1);
    cur.advance();
    if c == '?' {
        if matches!(next, Some('-')) {
            cur.advance();
            return Some(TokenKind::QuestionDash);
        }
        errors.push(lex_error("unexpected `?`; a query starts with `?-`", start));
        return None;
    }
    if c == ':' {
        if matches!(next, Some('-')) {
            cur.advance();
            return Some(TokenKind::ColonDash);
        }
        return Some(TokenKind::Colon);
    }
    if c == '=' {
        if matches!(next, Some('<')) {
            cur.advance();
            errors.push(lex_error("`=<` is not a comparison operator; did you mean `<=`?", start));
            return None;
        }
        return Some(TokenKind::Eq);
    }
    if c == '!' {
        if matches!(next, Some('=')) {
            cur.advance();
            return Some(TokenKind::Ne);
        }
        errors.push(lex_error("`!` is not an operator; did you mean `not`?", start));
        return None;
    }
    if c == '\\' {
        if matches!(next, Some('=')) {
            cur.advance();
            errors.push(lex_error("`\\=` is not a comparison operator; did you mean `!=`?", start));
            return None;
        }
        if matches!(next, Some('+')) {
            cur.advance();
            errors.push(lex_error("`\\+` is not an operator; did you mean `not`?", start));
            return None;
        }
        errors.push(lex_error("unexpected `\\`", start));
        return None;
    }
    if c == '<' {
        if matches!(next, Some('=')) {
            cur.advance();
            return Some(TokenKind::Le);
        }
        return Some(TokenKind::Lt);
    }
    if c == '>' {
        if matches!(next, Some('=')) {
            cur.advance();
            return Some(TokenKind::Ge);
        }
        return Some(TokenKind::Gt);
    }
    let single = if c == '.' {
        Some(TokenKind::Dot)
    } else if c == ',' {
        Some(TokenKind::Comma)
    } else if c == ';' {
        Some(TokenKind::Semi)
    } else if c == '(' {
        Some(TokenKind::LParen)
    } else if c == ')' {
        Some(TokenKind::RParen)
    } else if c == '{' {
        Some(TokenKind::LBrace)
    } else if c == '}' {
        Some(TokenKind::RBrace)
    } else if c == '|' {
        Some(TokenKind::Pipe)
    } else if c == '+' {
        Some(TokenKind::Plus)
    } else if c == '-' {
        Some(TokenKind::Minus)
    } else if c == '*' {
        Some(TokenKind::Star)
    } else if c == '/' {
        Some(TokenKind::Slash)
    } else {
        None
    };
    match single {
        Some(k) => Some(k),
        None => {
            errors.push(lex_error("unexpected character", start));
            None
        },
    }
}

// --- Reading a data cell by the literal grammar ---

/// How a data cell reads under the language's own literal grammar.
#[derive(Debug, Clone, PartialEq)]
pub enum CellClass {
    Int(i64),
    /// A float literal, as written (with its sign).
    Float(String),
    Bool(bool),
    Date(crate::temporal::Date),
    Timestamp(crate::temporal::Timestamp),
    Str,
}

/// `text` without leading and trailing whitespace.
pub fn trimmed(text: &str) -> (r: String)
    ensures
        r@ == crate::text::trim(text@),
{
    let v = chars_of(text);
    let (lo, hi) = crate::text::trim_bounds(v.as_slice());
    crate::text::sub_string(v.as_slice(), lo, hi)
}

/// The kinds of the tokens of `text` before its end marker, when it lexes
/// without error.
fn cell_tokens(text: &str) -> (r: Option<Vec<TokenKind>>)
    ensures
        r is Some <==> lex_from(text@, 0).1 == 0,
        r matches Some(ks) ==> ks@.map_values(|k: TokenKind| k@) == lex_from(text@, 0).0,
{
    let lexed = lex(text);
    if lexed.errors.len() > 0 {
        return None;
    }
    let n = lexed.tokens.len() - 1;
    let ghost views = token_views(lexed.tokens@);
    let mut kinds: Vec<TokenKind> = Vec::new();
    let mut i: usize = 0;
    while i < n
        invariant
            n + 1 == lexed.tokens@.len(),
            i <= n,
            views == token_views(lexed.tokens@),
            kinds@.len() == i,
            forall|k: int| 0 <= k < i ==> (#[trigger] kinds@[k])@ == views[k],
        decreases n - i,
    {
        let k = copy_kind(&lexed.tokens[i].kind);
        kinds.push(k);
        i += 1;
    }
    let ghost ks = lex_from(text@, 0).0;
    assert(views == ks.push(TokenView::Eof));
    assert(views.len() == lexed.tokens@.len());
    assert(ks.len() == n);
    let ghost kv = kinds@.map_values(|k: TokenKind| k@);
    assert forall|k: int| 0 <= k < ks.len() implies #[trigger] kv[k] == ks[k] by {
        assert(views[k] == ks[k]);
    }
    assert(kv =~= ks);
    Some(kinds)
}

/// A copy of a token kind.
fn copy_kind(k: &TokenKind) -> (r: TokenKind)
    ensures
        r@ == k@,
{
    match k {
        TokenKind::Import => TokenKind::Import,
        TokenKind::Declare => TokenKind::Declare,
        TokenKind::As => TokenKind::As,
        TokenKind::Not => TokenKind::Not,
        TokenKind::Is => TokenKind::Is,
        TokenKind::Absent => TokenKind::Absent,
        TokenKind::True => TokenKind::True,
        TokenKind::False => TokenKind::False,
        TokenKind::QuestionDash => TokenKind::QuestionDash,
        TokenKind::ColonDash => TokenKind::ColonDash,
        TokenKind::Dot => TokenKind::Dot,
        TokenKind::Comma => TokenKind::Comma,
        TokenKind::Semi => TokenKind::Semi,
        TokenKind::LParen => TokenKind::LParen,
        TokenKind::RParen => TokenKind::RParen,
        TokenKind::LBrace => TokenKind::LBrace,
        TokenKind::RBrace => TokenKind::RBrace,
        TokenKind::Pipe => TokenKind::Pipe,
        TokenKind::Colon => TokenKind::Colon,
        TokenKind::Eq => TokenKind::Eq,
        TokenKind::Ne => TokenKind::Ne,
        TokenKind::Lt => TokenKind::Lt,
        TokenKind::Le => TokenKind::Le,
        TokenKind::Gt => TokenKind::Gt,
        TokenKind::Ge => TokenKind::Ge,
        TokenKind::Plus => TokenKind::Plus,
        TokenKind::Minus => TokenKind::Minus,
        TokenKind::Star => TokenKind::Star,
        TokenKind::Slash => TokenKind::Slash,
        TokenKind::Int(n) => TokenKind::Int(*n),
        TokenKind::Float(t) => TokenKind::Float(to_owned(t.as_str())),
        TokenKind::Str(t) => TokenKind::Str(to_owned(t.as_str())),
        TokenKind::Ident(t) => TokenKind::Ident(to_owned(t.as_str())),
        TokenKind::Variable(t) => TokenKind::Variable(to_owned(t.as_str())),
        TokenKind::Temporal(t) => TokenKind::Temporal(*t),
        TokenKind::Eof => TokenKind::Eof,
    }
}

/// What a data cell reads as, by value.
pub enum CellClassView {
    Int(int),
    Float(Seq<char>),
    Bool(bool),
    Date(int),
    Timestamp(int),
    Str,
}

impl View for CellClass {
    type V = CellClassView;

    open spec fn view(&self) -> CellClassView {
        match self {
            CellClass::Int(n) => CellClassView::Int(*n as int),
            CellClass::Float(t) => CellClassView::Float(t@),
            CellClass::Bool(b) => CellClassView::Bool(*b),
            CellClass::Date(d) => CellClassView::Date(d@),
            CellClass::Timestamp(t) => CellClassView::Timestamp(t@),
            CellClass::Str => CellClassView::Str,
        }
    }
}

/// What a data cell reads as: an int, float or bool when it lexes, without
/// error, as exactly that literal or a `-` and a number; else a date or a
/// timestamp when its trimmed text is one; else a string.
pub open spec fn spec_classify_cell(text: Seq<char>) -> CellClassView {
    let (ks, errors) = lex_from(text, 0);
    let literal = if errors != 0 {
        None
    } else if ks.len() == 1 {
        match ks[0] {
            TokenView::Int(n) => Some(CellClassView::Int(n)),
            TokenView::Float(t) => Some(CellClassView::Float(t)),
            TokenView::True => Some(CellClassView::Bool(true)),
            TokenView::False => Some(CellClassView::Bool(false)),
            _ => None,
        }
    } else if ks.len() == 2 && ks[0] == TokenView::Minus {
        match ks[1] {
            TokenView::Int(n) => Some(CellClassView::Int(-n)),
            TokenView::Float(t) => Some(CellClassView::Float(seq!['-'] + t)),
            _ => None,
        }
    } else {
        None
    };
    match literal {
        Some(c) => c,
        None => match crate::temporal::spec_parse_date(crate::text::trim(text)) {
            Ok(d) => CellClassView::Date(d),
            Err(_) => match crate::temporal::spec_parse_timestamp(crate::text::trim(text)) {
                Ok(t) => CellClassView::Timestamp(t),
                Err(_) => CellClassView::Str,
            },
        },
    }
}

/// Classifies a data cell: an int, float or bool when it lexes as exactly that
/// literal (optionally negated), a date or timestamp when its trimmed text
/// parses as one, a string otherwise. One grammar decides both what a program
/// means by a literal and what an imported cell is.
pub fn classify_cell(text: &str) -> (r: CellClass)
    ensures
        r@ == spec_classify_cell(text@),
{
    proof {
        lemma_lex_ints_nonneg(text@, 0);
    }
    match cell_tokens(text) {
        Some(kinds) => {
            let ghost ks = lex_from(text@, 0).0;
            assert(kinds@.len() == ks.len());
            if kinds.len() == 1 {
                assert(kinds@[0]@ == ks[0]);
                match &kinds[0] {
                    TokenKind::Int(n) => return CellClass::Int(*n),
                    TokenKind::Float(t) => return CellClass::Float(to_owned(t.as_str())),
                    TokenKind::True => return CellClass::Bool(true),
                    TokenKind::False => return CellClass::Bool(false),
                    _ => {},
                }
            } else if kinds.len() == 2 {
                assert(kinds@[0]@ == ks[0]);
                assert(kinds@[1]@ == ks[1]);
                match (&kinds[0], &kinds[1]) {
                    (TokenKind::Minus, TokenKind::Int(n)) => {
                        if *n != i64::MIN {
                            return CellClass::Int(-*n);
                        }
                    },
                    (TokenKind::Minus, TokenKind::Float(t)) => {
                        let mut neg = to_owned("-");
                        push_str(&mut neg, t.as_str());
                        proof {
                            reveal_strlit("-");
                            assert(neg@ =~= seq!['-'] + t@);
                        }
                        return CellClass::Float(neg);
                    },
                    _ => {},
                }
            }
        },
        None => {},
    }
    let t = trimmed(text);
    match crate::temporal::parse_date(t.as_str()) {
        Ok(d) => return CellClass::Date(d),
        Err(_) => {},
    }
    match crate::temporal::parse_timestamp(t.as_str()) {
        Ok(ts) => return CellClass::Timestamp(ts),
        Err(_) => {},
    }
    CellClass::Str
}

/// Every int token is non-negative: the lexer reads digits only.
pub proof fn lemma_lex_ints_nonneg(s: Seq<char>, i: int)
    ensures
        forall|k: int|
            0 <= k < lex_from(s, i).0.len() ==> (#[trigger] lex_from(s, i).0[k] matches TokenView::Int(n)
                ==> 0 <= n),
    decreases s.len() - i,
{
    if 0 <= i < s.len() {
        if is_blank(s[i]) {
            lemma_lex_ints_nonneg(s, i + 1);
        } else if s[i] == '%' || s[i] == '#' {
            lemma_line_end(s, i + 1);
            lemma_lex_ints_nonneg(s, line_end(s, i + 1));
        } else {
            lemma_token_at_advances(s, i);
            let (e, t) = token_at(s, i);
            lemma_lex_ints_nonneg(s, e);
            let c = s[i];
            if crate::text::is_digit(c) && !number_end(s, i).1 {
                lemma_digits_end(s, i);
                let ne = number_end(s, i).0;
                assert(ne == digits_end(s, i));
                let run = s.subrange(i, ne);
                assert(crate::text::all_digits(run)) by {
                    assert forall|k: int| 0 <= k < run.len() implies crate::text::is_digit(#[trigger] run[k]) by {
                        assert(run[k] == s[i + k]);
                    }
                }
                crate::text::lemma_digits_value_nonneg(run);
            }
            let rest = lex_from(s, e).0;
            match t {
                Some(k) => {
                    assert forall|j: int| 0 <= j < lex_from(s, i).0.len() implies (#[trigger] lex_from(s, i).0[j] matches TokenView::Int(
                        n,
                    ) ==> 0 <= n) by {
                        if j > 0 {
                            assert(lex_from(s, i).0[j] == rest[j - 1]);
                        }
                    }
                },
                None => {},
            }
        }
    }
}

/// The symbol a text spells, when it lexes, without error, as exactly one
/// identifier.
pub open spec fn spec_classify_symbol(text: Seq<char>) -> Option<Seq<char>> {
    let (ks, errors) = lex_from(text, 0);
    if errors == 0 && ks.len() == 1 {
        match ks[0] {
            TokenView::Ident(name) => Some(name),
            _ => None,
        }
    } else {
        None
    }
}

/// The symbol a text spells, when it lexes as exactly one identifier.
pub fn classify_symbol(text: &str) -> (r: Option<String>)
    ensures
        match spec_classify_symbol(text@) {
            Some(name) => r matches Some(x) && x@ == name,
            None => r is None,
        },
{
    match cell_tokens(text) {
        Some(kinds) => {
            let ghost ks = lex_from(text@, 0).0;
            assert(kinds@.len() == ks.len());
            if kinds.len() == 1 {
                assert(kinds@[0]@ == ks[0]);
                match &kinds[0] {
                    TokenKind::Ident(name) => return Some(to_owned(name.as_str())),
                    _ => {},
                }
            }
            None
        },
        None => None,
    }
}

} // verus!
