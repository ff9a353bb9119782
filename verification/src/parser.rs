use vstd::prelude::*;
use crate::numlit::{JsonNum, is_digit};

verus! {

/// The JSON abstract syntax tree. String content keeps escape sequences
/// exactly as written in the input; object member order is preserved.
#[derive(Debug, PartialEq)]
pub enum JsonValue {
    Str(String),
    Boolean(bool),
    Num(JsonNum),
    Array(Vec<JsonValue>),
    Object(Vec<(String, JsonValue)>),
}

/// Mathematical model of a JSON tree: strings become character sequences,
/// vectors become sequences.
pub enum JsonView {
    Str(Seq<char>),
    Boolean(bool),
    Num(JsonNum),
    Array(Seq<JsonView>),
    Object(Seq<(Seq<char>, JsonView)>),
}

impl JsonValue {
    pub open spec fn view(self) -> JsonView
        decreases self, 1int, 0int,
    {
        match self {
            JsonValue::Str(s) => JsonView::Str(s@),
            JsonValue::Boolean(b) => JsonView::Boolean(b),
            JsonValue::Num(n) => JsonView::Num(n),
            JsonValue::Array(vs) => JsonView::Array(Self::view_arr(vs, vs@.len() as int)),
            JsonValue::Object(ms) => JsonView::Object(Self::view_obj(ms, ms@.len() as int)),
        }
    }

    /// Views of the first `n` elements of an array's children.
    pub open spec fn view_arr(vs: Vec<JsonValue>, n: int) -> Seq<JsonView>
        decreases vs, 0int, n,
    {
        if 0 < n <= vs@.len() {
            Self::view_arr(vs, n - 1).push(vs[n - 1].view())
        } else {
            Seq::empty()
        }
    }

    /// Views of the first `n` members of an object's member list.
    pub open spec fn view_obj(ms: Vec<(String, JsonValue)>, n: int) -> Seq<(Seq<char>, JsonView)>
        decreases ms, 0int, n,
    {
        if 0 < n <= ms@.len() {
            Self::view_obj(ms, n - 1).push((ms[n - 1].0@, ms[n - 1].1.view()))
        } else {
            Seq::empty()
        }
    }
}

/// Objects and arrays in `v` nest at most `d` levels deep.
pub open spec fn jdepth_le(v: JsonView, d: int) -> bool
    decreases v,
{
    match v {
        JsonView::Str(_) => d >= 0,
        JsonView::Boolean(_) => d >= 0,
        JsonView::Num(_) => d >= 0,
        JsonView::Array(vs) => d >= 1 && forall|i: int|
            0 <= i < vs.len() ==> jdepth_le(#[trigger] vs[i], d - 1),
        JsonView::Object(ms) => d >= 1 && forall|i: int|
            0 <= i < ms.len() ==> jdepth_le(#[trigger] (ms[i].1), d - 1),
    }
}

pub proof fn lemma_view_obj_len(ms: Vec<(String, JsonValue)>, n: int)
    requires
        0 <= n <= ms@.len(),
    ensures
        JsonValue::view_obj(ms, n).len() == n,
    decreases n,
{
    if n > 0 {
        lemma_view_obj_len(ms, n - 1);
    }
}

pub proof fn lemma_view_obj_index(ms: Vec<(String, JsonValue)>, n: int, i: int)
    requires
        0 <= i < n <= ms@.len(),
    ensures
        JsonValue::view_obj(ms, n).len() == n,
        JsonValue::view_obj(ms, n)[i] == (ms[i].0@, ms[i].1.view()),
    decreases n,
{
    lemma_view_obj_len(ms, n);
    if i < n - 1 {
        lemma_view_obj_index(ms, n - 1, i);
    } else {
        lemma_view_obj_len(ms, n - 1);
    }
}

pub proof fn lemma_view_arr_len(vs: Vec<JsonValue>, n: int)
    requires
        0 <= n <= vs@.len(),
    ensures
        JsonValue::view_arr(vs, n).len() == n,
    decreases n,
{
    if n > 0 {
        lemma_view_arr_len(vs, n - 1);
    }
}

pub proof fn lemma_view_arr_index(vs: Vec<JsonValue>, n: int, i: int)
    requires
        0 <= i < n <= vs@.len(),
    ensures
        JsonValue::view_arr(vs, n).len() == n,
        JsonValue::view_arr(vs, n)[i] == vs[i].view(),
    decreases n,
{
    lemma_view_arr_len(vs, n);
    if i < n - 1 {
        lemma_view_arr_index(vs, n - 1, i);
    } else {
        lemma_view_arr_len(vs, n - 1);
    }
}

/// What the parser expected at the position where it failed.
#[derive(Debug, PartialEq, Eq, Structural, Clone, Copy)]
pub enum ParseErrorKind {
    /// A value (object, array, string, number or boolean) was expected.
    ExpectedValue,
    /// The root value must be an object or an array.
    ExpectedRoot,
    /// A `"`-delimited object key was expected.
    ExpectedString,
    /// A `:` between an object key and its value was expected.
    ExpectedColon,
    /// An object key or `}` was expected.
    ExpectedMember,
    /// A `,` or `}` after an object member was expected.
    ExpectedCommaOrBrace,
    /// A `,` or `]` after an array element was expected.
    ExpectedCommaOrBracket,
    /// At least one decimal digit was expected.
    ExpectedDigit,
    /// The input ended inside a string literal.
    UnterminatedString,
    /// A raw control character appeared inside a string literal.
    ControlCharacter,
    /// A backslash was not followed by a valid escape sequence.
    InvalidEscape,
    /// Non-whitespace input remained after the root value.
    TrailingContent,
    /// Values were nested more deeply than the parser's recursion bound.
    TooDeep,
}

/// A parse failure: the character offset at which it was detected, and what
/// was expected there.
#[derive(Debug, PartialEq, Eq, Structural, Clone, Copy)]
pub struct ParseError {
    pub pos: usize,
    pub kind: ParseErrorKind,
}

/// The description text of each kind of parse failure.
pub open spec fn kind_description(kind: ParseErrorKind) -> Seq<char> {
    match kind {
        ParseErrorKind::ExpectedValue => "expected a JSON value"@,
        ParseErrorKind::ExpectedRoot => "expected an object or an array at the root"@,
        ParseErrorKind::ExpectedString => "expected a string"@,
        ParseErrorKind::ExpectedMember => "expected an object key or '}'"@,
        ParseErrorKind::ExpectedColon => "expected ':' after an object key"@,
        ParseErrorKind::ExpectedCommaOrBrace => "expected ',' or '}' in an object"@,
        ParseErrorKind::ExpectedCommaOrBracket => "expected ',' or ']' in an array"@,
        ParseErrorKind::ExpectedDigit => "expected a digit"@,
        ParseErrorKind::UnterminatedString => "unterminated string"@,
        ParseErrorKind::ControlCharacter => "control character inside a string"@,
        ParseErrorKind::InvalidEscape => "invalid escape sequence"@,
        ParseErrorKind::TrailingContent => "unexpected content after the root value"@,
        ParseErrorKind::TooDeep => "values nested too deeply"@,
    }
}

impl ParseError {
    /// A human-readable description of what was expected.
    pub fn describe(&self) -> (r: &'static str)
        ensures
            r@ == kind_description(self.kind),
            r@.len() > 0,
    {
        let r = match self.kind {
            ParseErrorKind::ExpectedValue => "expected a JSON value",
            ParseErrorKind::ExpectedRoot => "expected an object or an array at the root",
            ParseErrorKind::ExpectedString => "expected a string",
            ParseErrorKind::ExpectedMember => "expected an object key or '}'",
            ParseErrorKind::ExpectedColon => "expected ':' after an object key",
            ParseErrorKind::ExpectedCommaOrBrace => "expected ',' or '}' in an object",
            ParseErrorKind::ExpectedCommaOrBracket => "expected ',' or ']' in an array",
            ParseErrorKind::ExpectedDigit => "expected a digit",
            ParseErrorKind::UnterminatedString => "unterminated string",
            ParseErrorKind::ControlCharacter => "control character inside a string",
            ParseErrorKind::InvalidEscape => "invalid escape sequence",
            ParseErrorKind::TrailingContent => "unexpected content after the root value",
            ParseErrorKind::TooDeep => "values nested too deeply",
        };
        proof {
            reveal_strlit("expected an object key or '}'");
            reveal_strlit("expected a JSON value");
            reveal_strlit("expected an object or an array at the root");
            reveal_strlit("expected a string");
            reveal_strlit("expected ':' after an object key");
            reveal_strlit("expected ',' or '}' in an object");
            reveal_strlit("expected ',' or ']' in an array");
            reveal_strlit("expected a digit");
            reveal_strlit("unterminated string");
            reveal_strlit("control character inside a string");
            reveal_strlit("invalid escape sequence");
            reveal_strlit("unexpected content after the root value");
            reveal_strlit("values nested too deeply");
        }
        r
    }
}

pub open spec fn is_ws(c: char) -> bool {
    c == ' ' || c == '\t' || c == '\r' || c == '\n'
}

/// First position at or after `pos` that does not hold whitespace.
pub open spec fn ws_end(s: Seq<char>, pos: int) -> int
    decreases s.len() - pos,
{
    if 0 <= pos < s.len() && is_ws(s[pos]) {
        ws_end(s, pos + 1)
    } else {
        pos
    }
}

pub open spec fn is_control(c: char) -> bool {
    (c as u32) < 0x20 || (c as u32) == 0x7f
}

/// The single characters that may follow a backslash in a string literal.
pub open spec fn is_escapable(c: char) -> bool {
    c == '"' || c == '\\' || c == '/' || c == 'b' || c == 'f' || c == 'n' || c == 'r'
        || c == 't'
}

pub open spec fn is_hex_digit(c: char) -> bool {
    (48 <= c as u32 && c as u32 <= 57) || (97 <= c as u32 && c as u32 <= 102) || (65
        <= c as u32 && c as u32 <= 70)
}

/// Scans a string literal's body from `p` (just past the opening quote) and
/// returns the index of the closing quote. Escape sequences are checked but
/// kept verbatim; raw control characters are rejected.
pub open spec fn scan_string(s: Seq<char>, p: int) -> Result<int, (int, ParseErrorKind)>
    decreases s.len() - p,
{
    if !(0 <= p < s.len()) {
        Err((if p < 0 { p } else { s.len() as int }, ParseErrorKind::UnterminatedString))
    } else if s[p] == '"' {
        Ok(p)
    } else if s[p] == '\\' {
        if p + 1 == s.len() {
            Err((p + 1, ParseErrorKind::InvalidEscape))
        } else if is_escapable(s[p + 1]) {
            scan_string(s, p + 2)
        } else if s[p + 1] == 'u' {
            if p + 6 <= s.len() && is_hex_digit(s[p + 2]) && is_hex_digit(s[p + 3])
                && is_hex_digit(s[p + 4]) && is_hex_digit(s[p + 5]) {
                scan_string(s, p + 6)
            } else {
                Err((p + 1, ParseErrorKind::InvalidEscape))
            }
        } else {
            Err((p + 1, ParseErrorKind::InvalidEscape))
        }
    } else if is_control(s[p]) {
        Err((p, ParseErrorKind::ControlCharacter))
    } else {
        scan_string(s, p + 1)
    }
}

fn is_hex_digit_exec(c: char) -> (r: bool)
    ensures
        r == is_hex_digit(c),
{
    let u = c as u32;
    (48 <= u && u <= 57) || (97 <= u && u <= 102) || (65 <= u && u <= 70)
}

/// Finds the closing quote of the string literal whose body starts at `p0`.
fn scan_string_at(s: &str, len: usize, p0: usize) -> (r: Result<usize, ParseError>)
    requires
        len == s@.len(),
        p0 <= len,
    ensures
        match r {
            Ok(close) => scan_string(s@, p0 as int) == Ok::<int, (int, ParseErrorKind)>(
                close as int,
            ) && p0 <= close < len,
            Err(e) => scan_string(s@, p0 as int) == Err::<int, (int, ParseErrorKind)>(
                (e.pos as int, e.kind),
            ) && e.pos <= len,
        },
{
    let mut p = p0;
    loop
        invariant
            p0 <= p <= len,
            len == s@.len(),
            scan_string(s@, p0 as int) == scan_string(s@, p as int),
        decreases len - p,
    {
        if p == len {
            return Err(ParseError { pos: len, kind: ParseErrorKind::UnterminatedString });
        }
        let c = s.get_char(p);
        if c == '"' {
            return Ok(p);
        }
        if c == '\\' {
            if p + 1 == len {
                return Err(ParseError { pos: p + 1, kind: ParseErrorKind::InvalidEscape });
            }
            let e = s.get_char(p + 1);
            if e == '"' || e == '\\' || e == '/' || e == 'b' || e == 'f' || e == 'n' || e == 'r'
                || e == 't' {
                p = p + 2;
            } else if e == 'u' {
                if len - p >= 6 && is_hex_digit_exec(s.get_char(p + 2))
                    && is_hex_digit_exec(s.get_char(p + 3)) && is_hex_digit_exec(
                    s.get_char(p + 4),
                ) && is_hex_digit_exec(s.get_char(p + 5)) {
                    p = p + 6;
                } else {
                    return Err(ParseError { pos: p + 1, kind: ParseErrorKind::InvalidEscape });
                }
            } else {
                return Err(ParseError { pos: p + 1, kind: ParseErrorKind::InvalidEscape });
            }
        } else {
            let u = c as u32;
            if u < 0x20 || u == 0x7f {
                return Err(ParseError { pos: p, kind: ParseErrorKind::ControlCharacter });
            }
            p = p + 1;
        }
    }
}

/// Parses the string literal that starts at `pos` (at its opening quote);
/// returns its body, escapes kept verbatim, and the position just past the
/// closing quote.
pub open spec fn spec_parse_string(s: Seq<char>, pos: int) -> Result<
    (Seq<char>, int),
    (int, ParseErrorKind),
> {
    if 0 <= pos < s.len() && s[pos] == '"' {
        match scan_string(s, pos + 1) {
            Ok(close) => Ok((s.subrange(pos + 1, close), close + 1)),
            Err(e) => Err(e),
        }
    } else {
        Err((pos, ParseErrorKind::ExpectedString))
    }
}

fn parse_string(s: &str, len: usize, pos: usize) -> (r: Result<(String, usize), ParseError>)
    requires
        len == s@.len(),
        pos <= len,
    ensures
        match r {
            Ok((content, end)) => spec_parse_string(s@, pos as int) == Ok::<
                (Seq<char>, int),
                (int, ParseErrorKind),
            >((content@, end as int)) && pos < end <= len,
            Err(e) => spec_parse_string(s@, pos as int) == Err::<
                (Seq<char>, int),
                (int, ParseErrorKind),
            >((e.pos as int, e.kind)) && e.pos <= len,
        },
{
    if pos == len || s.get_char(pos) != '"' {
        return Err(ParseError { pos, kind: ParseErrorKind::ExpectedString });
    }
    match scan_string_at(s, len, pos + 1) {
        Ok(close) => {
            let body = s.substring_char(pos + 1, close);
            let content = String::from_str(body);
            Ok((content, close + 1))
        },
        Err(e) => Err(e),
    }
}

/// Skips the whitespace run that begins at `pos`.
pub fn skip_ws(s: &str, len: usize, pos: usize) -> (q: usize)
    requires
        len == s@.len(),
        pos <= len,
    ensures
        q == ws_end(s@, pos as int),
        pos <= q <= len,
{
    let mut q = pos;
    loop
        invariant
            pos <= q <= len,
            len == s@.len(),
            ws_end(s@, pos as int) == ws_end(s@, q as int),
        decreases len - q,
    {
        if q == len {
            return q;
        }
        let c = s.get_char(q);
        if !(c == ' ' || c == '\t' || c == '\r' || c == '\n') {
            return q;
        }
        q = q + 1;
    }
}

/// First position at or after `pos` that does not hold a decimal digit.
pub open spec fn digits_end(s: Seq<char>, pos: int) -> int
    decreases s.len() - pos,
{
    if 0 <= pos < s.len() && is_digit(s[pos]) {
        digits_end(s, pos + 1)
    } else {
        pos
    }
}

pub proof fn lemma_digits_end(s: Seq<char>, pos: int)
    requires
        0 <= pos <= s.len(),
    ensures
        pos <= digits_end(s, pos) <= s.len(),
        forall|k: int| pos <= k < digits_end(s, pos) ==> is_digit(#[trigger] s[k]),
    decreases s.len() - pos,
{
    if pos < s.len() && is_digit(s[pos]) {
        lemma_digits_end(s, pos + 1);
    }
}

/// Skips the run of decimal digits that begins at `pos`.
fn skip_digits(s: &str, len: usize, pos: usize) -> (q: usize)
    requires
        len == s@.len(),
        pos <= len,
    ensures
        q == digits_end(s@, pos as int),
        pos <= q <= len,
{
    let mut q = pos;
    loop
        invariant
            pos <= q <= len,
            len == s@.len(),
            digits_end(s@, pos as int) == digits_end(s@, q as int),
        decreases len - q,
    {
        if q == len {
            return q;
        }
        let c = s.get_char(q);
        let u = c as u32;
        if !(48 <= u && u <= 57) {
            return q;
        }
        q = q + 1;
    }
}

/// The classification of the literal whose integer digits sit at `[a, b)`,
/// fraction digits at `[c, d)` and exponent digits at `[e0, e1)`.
pub open spec fn num_of(
    s: Seq<char>,
    a: int,
    b: int,
    c: int,
    d: int,
    eneg: bool,
    e0: int,
    e1: int,
) -> JsonNum {
    let m = crate::numlit::cdv(s, a, b, c, 0, (b - a) + (d - c));
    let e = (if eneg {
        -crate::numlit::digits_val(s, e0, e1)
    } else {
        crate::numlit::digits_val(s, e0, e1)
    }) - (d - c);
    JsonNum {
        integral: crate::numlit::spec_integral(m, e),
        in_bound: crate::numlit::spec_in_bound(m, e),
    }
}

/// Parses the number literal that starts at `pos`:
/// `[-+]? digits ('.' digits)? ([eE] [-+]? digits)?`.
pub open spec fn spec_parse_number(s: Seq<char>, pos: int) -> Result<
    (JsonNum, int),
    (int, ParseErrorKind),
> {
    let a = if 0 <= pos < s.len() && (s[pos] == '-' || s[pos] == '+') {
        pos + 1
    } else {
        pos
    };
    let b = digits_end(s, a);
    if b == a {
        Err((a, ParseErrorKind::ExpectedDigit))
    } else {
        let c = if b < s.len() && s[b] == '.' {
            b + 1
        } else {
            b
        };
        let d = if c == b {
            b
        } else {
            digits_end(s, c)
        };
        if c != b && d == c {
            Err((c, ParseErrorKind::ExpectedDigit))
        } else if d < s.len() && (s[d] == 'e' || s[d] == 'E') {
            let eneg = d + 1 < s.len() && s[d + 1] == '-';
            let e0 = if d + 1 < s.len() && (s[d + 1] == '-' || s[d + 1] == '+') {
                d + 2
            } else {
                d + 1
            };
            let e1 = digits_end(s, e0);
            if e1 == e0 {
                Err((e0, ParseErrorKind::ExpectedDigit))
            } else {
                Ok((num_of(s, a, b, c, d, eneg, e0, e1), e1))
            }
        } else {
            Ok((num_of(s, a, b, c, d, false, d, d), d))
        }
    }
}

fn parse_number(s: &str, len: usize, pos: usize) -> (r: Result<(JsonNum, usize), ParseError>)
    requires
        len == s@.len(),
        pos <= len,
    ensures
        match r {
            Ok((num, end)) => spec_parse_number(s@, pos as int) == Ok::<
                (JsonNum, int),
                (int, ParseErrorKind),
            >((num, end as int)) && pos < end <= len,
            Err(e) => spec_parse_number(s@, pos as int) == Err::<
                (JsonNum, int),
                (int, ParseErrorKind),
            >((e.pos as int, e.kind)) && e.pos <= len,
        },
{
    let mut a = pos;
    if pos < len {
        let ch = s.get_char(pos);
        if ch == '-' || ch == '+' {
            a = pos + 1;
        }
    }
    proof {
        lemma_digits_end(s@, a as int);
    }
    let b = skip_digits(s, len, a);
    if b == a {
        return Err(ParseError { pos: a, kind: ParseErrorKind::ExpectedDigit });
    }
    let mut c = b;
    let mut d = b;
    if b < len && s.get_char(b) == '.' {
        c = b + 1;
        proof {
            lemma_digits_end(s@, c as int);
        }
        d = skip_digits(s, len, c);
        if d == c {
            return Err(ParseError { pos: c, kind: ParseErrorKind::ExpectedDigit });
        }
    }
    let mut eneg = false;
    let mut e0 = d;
    let mut e1 = d;
    let mut end = d;
    if d < len {
        let ch = s.get_char(d);
        if ch == 'e' || ch == 'E' {
            let mut es = d + 1;
            if d + 1 < len {
                let c2 = s.get_char(d + 1);
                if c2 == '-' || c2 == '+' {
                    es = d + 2;
                    eneg = c2 == '-';
                }
            }
            proof {
                lemma_digits_end(s@, es as int);
            }
            e0 = es;
            e1 = skip_digits(s, len, es);
            if e1 == e0 {
                return Err(ParseError { pos: e0, kind: ParseErrorKind::ExpectedDigit });
            }
            end = e1;
        }
    }
    proof {
        lemma_digits_end(s@, a as int);
        lemma_digits_end(s@, c as int);
        lemma_digits_end(s@, e0 as int);
    }
    let num = crate::numlit::classify(s, len, a, b, c, d, eneg, e0, e1);
    Ok((num, end))
}

/// Parses `true` or `false` at `pos`.
pub open spec fn spec_parse_bool(s: Seq<char>, pos: int) -> Result<
    (bool, int),
    (int, ParseErrorKind),
> {
    if 0 <= pos && pos + 4 <= s.len() && s[pos] == 't' && s[pos + 1] == 'r' && s[pos + 2] == 'u'
        && s[pos + 3] == 'e' {
        Ok((true, pos + 4))
    } else if 0 <= pos && pos + 5 <= s.len() && s[pos] == 'f' && s[pos + 1] == 'a' && s[pos + 2]
        == 'l' && s[pos + 3] == 's' && s[pos + 4] == 'e' {
        Ok((false, pos + 5))
    } else {
        Err((pos, ParseErrorKind::ExpectedValue))
    }
}

fn parse_bool(s: &str, len: usize, pos: usize) -> (r: Result<(bool, usize), ParseError>)
    requires
        len == s@.len(),
        pos <= len,
    ensures
        match r {
            Ok((bv, end)) => spec_parse_bool(s@, pos as int) == Ok::<
                (bool, int),
                (int, ParseErrorKind),
            >((bv, end as int)) && pos < end <= len,
            Err(e) => spec_parse_bool(s@, pos as int) == Err::<
                (bool, int),
                (int, ParseErrorKind),
            >((e.pos as int, e.kind)) && e.pos <= len,
        },
{
    if len - pos >= 4 && s.get_char(pos) == 't' && s.get_char(pos + 1) == 'r' && s.get_char(
        pos + 2,
    ) == 'u' && s.get_char(pos + 3) == 'e' {
        Ok((true, pos + 4))
    } else if len - pos >= 5 && s.get_char(pos) == 'f' && s.get_char(pos + 1) == 'a'
        && s.get_char(pos + 2) == 'l' && s.get_char(pos + 3) == 's' && s.get_char(pos + 4)
        == 'e' {
        Ok((false, pos + 5))
    } else {
        Err(ParseError { pos, kind: ParseErrorKind::ExpectedValue })
    }
}

/// How deeply objects and arrays may nest before the parser reports an error
/// instead of recursing further.
pub const MAX_DEPTH: usize = 500;

/// Parses a JSON value at `pos`, whitespace first. `depth` is the remaining
/// nesting budget. Only objects, arrays, strings, numbers and the booleans
/// `true` and `false` are values: in particular `null` has no mapping here
/// and is reported as a parse error.
pub open spec fn spec_parse_value(s: Seq<char>, pos: int, depth: nat) -> Result<
    (JsonView, int),
    (int, ParseErrorKind),
>
    decreases s.len() - pos, 0int,
{
    let q = ws_end(s, pos);
    if !(pos <= q <= s.len()) {
        // whitespace skipping stays in range; never taken
        Err((pos, ParseErrorKind::ExpectedValue))
    } else if q == s.len() {
        Err((q, ParseErrorKind::ExpectedValue))
    } else if s[q] == '{' {
        if depth == 0 {
            Err((q, ParseErrorKind::TooDeep))
        } else {
            match spec_parse_members(s, q + 1, (depth - 1) as nat) {
                Ok((ms, end)) => Ok((JsonView::Object(ms), end)),
                Err(e) => Err(e),
            }
        }
    } else if s[q] == '[' {
        if depth == 0 {
            Err((q, ParseErrorKind::TooDeep))
        } else {
            match spec_parse_elements(s, q + 1, (depth - 1) as nat) {
                Ok((vs, end)) => Ok((JsonView::Array(vs), end)),
                Err(e) => Err(e),
            }
        }
    } else if s[q] == '"' {
        match spec_parse_string(s, q) {
            Ok((content, end)) => Ok((JsonView::Str(content), end)),
            Err(e) => Err(e),
        }
    } else if s[q] == 't' || s[q] == 'f' {
        match spec_parse_bool(s, q) {
            Ok((bv, end)) => Ok((JsonView::Boolean(bv), end)),
            Err(e) => Err(e),
        }
    } else if s[q] == '-' || s[q] == '+' || is_digit(s[q]) {
        match spec_parse_number(s, q) {
            Ok((num, end)) => Ok((JsonView::Num(num), end)),
            Err(e) => Err(e),
        }
    } else {
        Err((q, ParseErrorKind::ExpectedValue))
    }
}

/// Parses an object's member list from just past its `{`, closing brace
/// included.
pub open spec fn spec_parse_members(s: Seq<char>, pos: int, depth: nat) -> Result<
    (Seq<(Seq<char>, JsonView)>, int),
    (int, ParseErrorKind),
>
    decreases s.len() - pos, 2int,
{
    let q = ws_end(s, pos);
    if !(pos <= q <= s.len()) {
        // never taken
        Err((pos, ParseErrorKind::ExpectedMember))
    } else if q == s.len() {
        Err((q, ParseErrorKind::ExpectedMember))
    } else if s[q] == '}' {
        Ok((Seq::empty(), q + 1))
    } else if s[q] == '"' {
        spec_parse_member_list(s, pos, depth)
    } else {
        Err((q, ParseErrorKind::ExpectedMember))
    }
}

/// Parses one or more comma-separated `key: value` members and the closing
/// brace.
pub open spec fn spec_parse_member_list(s: Seq<char>, pos: int, depth: nat) -> Result<
    (Seq<(Seq<char>, JsonView)>, int),
    (int, ParseErrorKind),
>
    decreases s.len() - pos, 1int,
{
    let q = ws_end(s, pos);
    if !(pos <= q <= s.len()) {
        // never taken
        Err((pos, ParseErrorKind::ExpectedString))
    } else {
        match spec_parse_string(s, q) {
            Err(e) => Err(e),
            Ok((key, kend)) => {
                let t = ws_end(s, kend);
                if !(kend <= t <= s.len()) {
                    // never taken
                    Err((kend, ParseErrorKind::ExpectedColon))
                } else if t == s.len() || s[t] != ':' {
                    Err((t, ParseErrorKind::ExpectedColon))
                } else if !(pos < t + 1 <= s.len()) {
                    // never taken
                    Err((t, ParseErrorKind::ExpectedColon))
                } else {
                    match spec_parse_value(s, t + 1, depth) {
                        Err(e) => Err(e),
                        Ok((v, vend)) => {
                            let r = ws_end(s, vend);
                            if !(pos < r <= s.len()) {
                                // never taken
                                Err((vend, ParseErrorKind::ExpectedCommaOrBrace))
                            } else if r == s.len() {
                                Err((r, ParseErrorKind::ExpectedCommaOrBrace))
                            } else if s[r] == ',' {
                                match spec_parse_member_list(s, r + 1, depth) {
                                    Err(e) => Err(e),
                                    Ok((rest, end)) => Ok((seq![(key, v)] + rest, end)),
                                }
                            } else if s[r] == '}' {
                                Ok((seq![(key, v)], r + 1))
                            } else {
                                Err((r, ParseErrorKind::ExpectedCommaOrBrace))
                            }
                        },
                    }
                }
            },
        }
    }
}

/// Parses an array's elements from just past its `[`, closing bracket
/// included.
pub open spec fn spec_parse_elements(s: Seq<char>, pos: int, depth: nat) -> Result<
    (Seq<JsonView>, int),
    (int, ParseErrorKind),
>
    decreases s.len() - pos, 2int,
{
    let q = ws_end(s, pos);
    if !(pos <= q <= s.len()) {
        // never taken
        Err((pos, ParseErrorKind::ExpectedValue))
    } else if q == s.len() {
        Err((q, ParseErrorKind::ExpectedValue))
    } else if s[q] == ']' {
        Ok((Seq::empty(), q + 1))
    } else {
        spec_parse_element_list(s, pos, depth)
    }
}

/// Parses one or more comma-separated array elements and the closing bracket.
pub open spec fn spec_parse_element_list(s: Seq<char>, pos: int, depth: nat) -> Result<
    (Seq<JsonView>, int),
    (int, ParseErrorKind),
>
    decreases s.len() - pos, 1int,
{
    match spec_parse_value(s, pos, depth) {
        Err(e) => Err(e),
        Ok((v, vend)) => {
            let r = ws_end(s, vend);
            if !(pos < r <= s.len()) {
                // never taken
                Err((vend, ParseErrorKind::ExpectedCommaOrBracket))
            } else if r == s.len() {
                Err((r, ParseErrorKind::ExpectedCommaOrBracket))
            } else if s[r] == ',' {
                match spec_parse_element_list(s, r + 1, depth) {
                    Err(e) => Err(e),
                    Ok((rest, end)) => Ok((seq![v] + rest, end)),
                }
            } else if s[r] == ']' {
                Ok((seq![v], r + 1))
            } else {
                Err((r, ParseErrorKind::ExpectedCommaOrBracket))
            }
        },
    }
}

/// Prepending a member shifts the member views by one.
proof fn lemma_view_obj_prepend(
    kv: (String, JsonValue),
    ms1: Vec<(String, JsonValue)>,
    ms2: Vec<(String, JsonValue)>,
    n: int,
)
    requires
        ms2@ == seq![kv] + ms1@,
        0 <= n <= ms1@.len(),
    ensures
        JsonValue::view_obj(ms2, n + 1) == seq![(kv.0@, kv.1.view())] + JsonValue::view_obj(
            ms1,
            n,
        ),
    decreases n,
{
    if n == 0 {
        assert(ms2@[0] == kv);
        assert(JsonValue::view_obj(ms2, 0) == Seq::<(Seq<char>, JsonView)>::empty());
        assert(JsonValue::view_obj(ms1, 0) == Seq::<(Seq<char>, JsonView)>::empty());
        assert(JsonValue::view_obj(ms2, 1) == JsonValue::view_obj(ms2, 0).push(
            (ms2[0].0@, ms2[0].1.view()),
        ));
        assert(JsonValue::view_obj(ms2, 1) =~= seq![(kv.0@, kv.1.view())] + JsonValue::view_obj(
            ms1,
            0,
        ));
    } else {
        lemma_view_obj_prepend(kv, ms1, ms2, n - 1);
        assert(ms2@[n] == ms1@[n - 1]);
        assert(seq![(kv.0@, kv.1.view())] + JsonValue::view_obj(ms1, n) =~= (seq![
            (kv.0@, kv.1.view()),
        ] + JsonValue::view_obj(ms1, n - 1)).push((ms1[n - 1].0@, ms1[n - 1].1.view())));
    }
}

/// Prepending an element shifts the element views by one.
proof fn lemma_view_arr_prepend(
    v0: JsonValue,
    vs1: Vec<JsonValue>,
    vs2: Vec<JsonValue>,
    n: int,
)
    requires
        vs2@ == seq![v0] + vs1@,
        0 <= n <= vs1@.len(),
    ensures
        JsonValue::view_arr(vs2, n + 1) == seq![v0.view()] + JsonValue::view_arr(vs1, n),
    decreases n,
{
    if n == 0 {
        assert(vs2@[0] == v0);
        assert(JsonValue::view_arr(vs2, 0) == Seq::<JsonView>::empty());
        assert(JsonValue::view_arr(vs1, 0) == Seq::<JsonView>::empty());
        assert(JsonValue::view_arr(vs2, 1) == JsonValue::view_arr(vs2, 0).push(vs2[0].view()));
        assert(JsonValue::view_arr(vs2, 1) =~= seq![v0.view()] + JsonValue::view_arr(vs1, 0));
    } else {
        lemma_view_arr_prepend(v0, vs1, vs2, n - 1);
        assert(vs2@[n] == vs1@[n - 1]);
        assert(seq![v0.view()] + JsonValue::view_arr(vs1, n) =~= (seq![v0.view()]
            + JsonValue::view_arr(vs1, n - 1)).push(vs1[n - 1].view()));
    }
}

fn parse_value(s: &str, len: usize, pos: usize, depth: usize) -> (r: Result<
    (JsonValue, usize),
    ParseError,
>)
    requires
        len == s@.len(),
        pos <= len,
    ensures
        match r {
            Ok((v, end)) => spec_parse_value(s@, pos as int, depth as nat) == Ok::<
                (JsonView, int),
                (int, ParseErrorKind),
            >((v.view(), end as int)) && pos < end <= len && jdepth_le(
                v.view(),
                depth as int,
            ),
            Err(e) => spec_parse_value(s@, pos as int, depth as nat) == Err::<
                (JsonView, int),
                (int, ParseErrorKind),
            >((e.pos as int, e.kind)) && e.pos <= len,
        },
    decreases len - pos, 0int,
{
    let q = skip_ws(s, len, pos);
    if q == len {
        return Err(ParseError { pos: q, kind: ParseErrorKind::ExpectedValue });
    }
    let ch = s.get_char(q);
    if ch == '{' {
        if depth == 0 {
            return Err(ParseError { pos: q, kind: ParseErrorKind::TooDeep });
        }
        match parse_members(s, len, q + 1, depth - 1) {
            Ok((ms, end)) => {
                proof {
                    lemma_view_obj_len(ms, ms@.len() as int);
                    let msv = JsonValue::view_obj(ms, ms@.len() as int);
                    assert forall|i: int| 0 <= i < msv.len() implies jdepth_le(
                        #[trigger] (msv[i].1),
                        depth - 1,
                    ) by {
                        lemma_view_obj_index(ms, ms@.len() as int, i);
                    }
                }
                Ok((JsonValue::Object(ms), end))
            },
            Err(e) => Err(e),
        }
    } else if ch == '[' {
        if depth == 0 {
            return Err(ParseError { pos: q, kind: ParseErrorKind::TooDeep });
        }
        match parse_elements(s, len, q + 1, depth - 1) {
            Ok((vs, end)) => {
                proof {
                    lemma_view_arr_len(vs, vs@.len() as int);
                    let vsv = JsonValue::view_arr(vs, vs@.len() as int);
                    assert forall|i: int| 0 <= i < vsv.len() implies jdepth_le(
                        #[trigger] (vsv[i]),
                        depth - 1,
                    ) by {
                        lemma_view_arr_index(vs, vs@.len() as int, i);
                    }
                }
                Ok((JsonValue::Array(vs), end))
            },
            Err(e) => Err(e),
        }
    } else if ch == '"' {
        match parse_string(s, len, q) {
            Ok((content, end)) => Ok((JsonValue::Str(content), end)),
            Err(e) => Err(e),
        }
    } else if ch == 't' || ch == 'f' {
        match parse_bool(s, len, q) {
            Ok((bv, end)) => Ok((JsonValue::Boolean(bv), end)),
            Err(e) => Err(e),
        }
    } else {
        let u = ch as u32;
        if ch == '-' || ch == '+' || (48 <= u && u <= 57) {
            match parse_number(s, len, q) {
                Ok((num, end)) => Ok((JsonValue::Num(num), end)),
                Err(e) => Err(e),
            }
        } else {
            Err(ParseError { pos: q, kind: ParseErrorKind::ExpectedValue })
        }
    }
}

fn parse_members(s: &str, len: usize, pos: usize, depth: usize) -> (r: Result<
    (Vec<(String, JsonValue)>, usize),
    ParseError,
>)
    requires
        len == s@.len(),
        pos <= len,
    ensures
        match r {
            Ok((ms, end)) => spec_parse_members(s@, pos as int, depth as nat) == Ok::<
                (Seq<(Seq<char>, JsonView)>, int),
                (int, ParseErrorKind),
            >((JsonValue::view_obj(ms, ms@.len() as int), end as int)) && pos < end <= len && (
            forall|k: int| 0 <= k < ms@.len() ==> jdepth_le(#[trigger] (ms[k].1.view()), depth as int)),
            Err(e) => spec_parse_members(s@, pos as int, depth as nat) == Err::<
                (Seq<(Seq<char>, JsonView)>, int),
                (int, ParseErrorKind),
            >((e.pos as int, e.kind)) && e.pos <= len,
        },
    decreases len - pos, 2int,
{
    let q = skip_ws(s, len, pos);
    if q == len {
        return Err(ParseError { pos: q, kind: ParseErrorKind::ExpectedMember });
    }
    let ch = s.get_char(q);
    if ch == '}' {
        let ms: Vec<(String, JsonValue)> = Vec::new();
        return Ok((ms, q + 1));
    }
    if ch == '"' {
        return parse_member_list(s, len, pos, depth);
    }
    Err(ParseError { pos: q, kind: ParseErrorKind::ExpectedMember })
}

fn parse_member_list(s: &str, len: usize, pos: usize, depth: usize) -> (r: Result<
    (Vec<(String, JsonValue)>, usize),
    ParseError,
>)
    requires
        len == s@.len(),
        pos <= len,
    ensures
        match r {
            Ok((ms, end)) => spec_parse_member_list(s@, pos as int, depth as nat) == Ok::<
                (Seq<(Seq<char>, JsonView)>, int),
                (int, ParseErrorKind),
            >((JsonValue::view_obj(ms, ms@.len() as int), end as int)) && pos < end <= len && (
            forall|k: int| 0 <= k < ms@.len() ==> jdepth_le(#[trigger] (ms[k].1.view()), depth as int)),
            Err(e) => spec_parse_member_list(s@, pos as int, depth as nat) == Err::<
                (Seq<(Seq<char>, JsonView)>, int),
                (int, ParseErrorKind),
            >((e.pos as int, e.kind)) && e.pos <= len,
        },
    decreases len - pos, 1int,
{
    let q = skip_ws(s, len, pos);
    match parse_string(s, len, q) {
        Err(e) => Err(e),
        Ok((key, kend)) => {
            let t = skip_ws(s, len, kend);
            if t == len || s.get_char(t) != ':' {
                return Err(ParseError { pos: t, kind: ParseErrorKind::ExpectedColon });
            }
            match parse_value(s, len, t + 1, depth) {
                Err(e) => Err(e),
                Ok((v, vend)) => {
                    let r2 = skip_ws(s, len, vend);
                    if r2 == len {
                        return Err(ParseError {
                            pos: r2,
                            kind: ParseErrorKind::ExpectedCommaOrBrace,
                        });
                    }
                    let ch = s.get_char(r2);
                    if ch == ',' {
                        match parse_member_list(s, len, r2 + 1, depth) {
                            Err(e) => Err(e),
                            Ok((rest, end)) => {
                                let ghost kv = (key, v);
                                let ghost ms1 = rest;
                                let mut ms = rest;
                                ms.insert(0, (key, v));
                                proof {
                                    assert(ms@ =~= seq![kv] + ms1@);
                                    lemma_view_obj_prepend(kv, ms1, ms, ms1@.len() as int);
                                    assert forall|k: int| 0 <= k < ms@.len() implies jdepth_le(
                                        #[trigger] (ms[k].1.view()),
                                        depth as int,
                                    ) by {
                                        if k == 0 {
                                            assert(ms@[0] == kv);
                                        } else {
                                            assert(ms@[k] == ms1@[k - 1]);
                                        }
                                    }
                                }
                                Ok((ms, end))
                            },
                        }
                    } else if ch == '}' {
                        let ghost kv = (key, v);
                        let mut ms: Vec<(String, JsonValue)> = Vec::new();
                        let ghost ms1 = ms;
                        ms.push((key, v));
                        proof {
                            assert(ms@ =~= seq![kv] + ms1@);
                            lemma_view_obj_prepend(kv, ms1, ms, 0);
                            assert(JsonValue::view_obj(ms, 1) =~= seq![(kv.0@, kv.1.view())]);
                            assert(ms@[0] == kv);
                        }
                        Ok((ms, r2 + 1))
                    } else {
                        Err(ParseError { pos: r2, kind: ParseErrorKind::ExpectedCommaOrBrace })
                    }
                },
            }
        },
    }
}

fn parse_elements(s: &str, len: usize, pos: usize, depth: usize) -> (r: Result<
    (Vec<JsonValue>, usize),
    ParseError,
>)
    requires
        len == s@.len(),
        pos <= len,
    ensures
        match r {
            Ok((vs, end)) => spec_parse_elements(s@, pos as int, depth as nat) == Ok::<
                (Seq<JsonView>, int),
                (int, ParseErrorKind),
            >((JsonValue::view_arr(vs, vs@.len() as int), end as int)) && pos < end <= len && (
            forall|k: int| 0 <= k < vs@.len() ==> jdepth_le(#[trigger] (vs[k].view()), depth as int)),
            Err(e) => spec_parse_elements(s@, pos as int, depth as nat) == Err::<
                (Seq<JsonView>, int),
                (int, ParseErrorKind),
            >((e.pos as int, e.kind)) && e.pos <= len,
        },
    decreases len - pos, 2int,
{
    let q = skip_ws(s, len, pos);
    if q == len {
        return Err(ParseError { pos: q, kind: ParseErrorKind::ExpectedValue });
    }
    let ch = s.get_char(q);
    if ch == ']' {
        let vs: Vec<JsonValue> = Vec::new();
        return Ok((vs, q + 1));
    }
    parse_element_list(s, len, pos, depth)
}

fn parse_element_list(s: &str, len: usize, pos: usize, depth: usize) -> (r: Result<
    (Vec<JsonValue>, usize),
    ParseError,
>)
    requires
        len == s@.len(),
        pos <= len,
    ensures
        match r {
            Ok((vs, end)) => spec_parse_element_list(s@, pos as int, depth as nat) == Ok::<
                (Seq<JsonView>, int),
                (int, ParseErrorKind),
            >((JsonValue::view_arr(vs, vs@.len() as int), end as int)) && pos < end <= len && (
            forall|k: int| 0 <= k < vs@.len() ==> jdepth_le(#[trigger] (vs[k].view()), depth as int)),
            Err(e) => spec_parse_element_list(s@, pos as int, depth as nat) == Err::<
                (Seq<JsonView>, int),
                (int, ParseErrorKind),
            >((e.pos as int, e.kind)) && e.pos <= len,
        },
    decreases len - pos, 1int,
{
    match parse_value(s, len, pos, depth) {
        Err(e) => Err(e),
        Ok((v, vend)) => {
            let r2 = skip_ws(s, len, vend);
            if r2 == len {
                return Err(ParseError { pos: r2, kind: ParseErrorKind::ExpectedCommaOrBracket });
            }
            let ch = s.get_char(r2);
            if ch == ',' {
                match parse_element_list(s, len, r2 + 1, depth) {
                    Err(e) => Err(e),
                    Ok((rest, end)) => {
                        let ghost v0 = v;
                        let ghost vs1 = rest;
                        let mut vs = rest;
                        vs.insert(0, v);
                        proof {
                            assert(vs@ =~= seq![v0] + vs1@);
                            lemma_view_arr_prepend(v0, vs1, vs, vs1@.len() as int);
                            assert forall|k: int| 0 <= k < vs@.len() implies jdepth_le(
                                #[trigger] (vs[k].view()),
                                depth as int,
                            ) by {
                                if k == 0 {
                                    assert(vs@[0] == v0);
                                } else {
                                    assert(vs@[k] == vs1@[k - 1]);
                                }
                            }
                        }
                        Ok((vs, end))
                    },
                }
            } else if ch == ']' {
                let ghost v0 = v;
                let mut vs: Vec<JsonValue> = Vec::new();
                let ghost vs1 = vs;
                vs.push(v);
                proof {
                    assert(vs@ =~= seq![v0] + vs1@);
                    lemma_view_arr_prepend(v0, vs1, vs, 0);
                    assert(JsonValue::view_arr(vs, 1) =~= seq![v0.view()]);
                    assert(vs@[0] == v0);
                }
                Ok((vs, r2 + 1))
            } else {
                Err(ParseError { pos: r2, kind: ParseErrorKind::ExpectedCommaOrBracket })
            }
        },
    }
}

/// Parses a whole input: whitespace, one object or array, whitespace, end.
pub open spec fn spec_parse_root(s: Seq<char>) -> Result<JsonView, (int, ParseErrorKind)> {
    let q = ws_end(s, 0);
    if !(0 <= q <= s.len()) {
        // never taken
        Err((0, ParseErrorKind::ExpectedRoot))
    } else if q == s.len() {
        Err((q, ParseErrorKind::ExpectedRoot))
    } else if s[q] == '{' || s[q] == '[' {
        match spec_parse_value(s, 0, MAX_DEPTH as nat) {
            Err(e) => Err(e),
            Ok((v, end)) => {
                let r = ws_end(s, end);
                if !(end <= r <= s.len()) {
                    // never taken
                    Err((end, ParseErrorKind::TrailingContent))
                } else if r == s.len() {
                    Ok(v)
                } else {
                    Err((r, ParseErrorKind::TrailingContent))
                }
            },
        }
    } else {
        Err((q, ParseErrorKind::ExpectedRoot))
    }
}

/// Parses a complete JSON document whose root is an object or an array.
pub fn root(s: &str) -> (r: Result<JsonValue, ParseError>)
    ensures
        match r {
            Ok(v) => spec_parse_root(s@) == Ok::<JsonView, (int, ParseErrorKind)>(v.view())
                && jdepth_le(v.view(), MAX_DEPTH as int),
            Err(e) => spec_parse_root(s@) == Err::<JsonView, (int, ParseErrorKind)>(
                (e.pos as int, e.kind),
            ) && e.pos <= s@.len(),
        },
{
    let len = s.unicode_len();
    let q = skip_ws(s, len, 0);
    if q == len {
        return Err(ParseError { pos: q, kind: ParseErrorKind::ExpectedRoot });
    }
    let ch = s.get_char(q);
    if ch == '{' || ch == '[' {
        match parse_value(s, len, 0, MAX_DEPTH) {
            Err(e) => Err(e),
            Ok((v, end)) => {
                let r2 = skip_ws(s, len, end);
                if r2 == len {
                    Ok(v)
                } else {
                    Err(ParseError { pos: r2, kind: ParseErrorKind::TrailingContent })
                }
            },
        }
    } else {
        Err(ParseError { pos: q, kind: ParseErrorKind::ExpectedRoot })
    }
}

} // verus!
