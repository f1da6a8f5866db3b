use vstd::prelude::*;
use crate::text::{chars_of, is_scalar_value};

verus! {

/// A parsed JSON value. Numbers keep their source text (a lexeme that the
/// standard float grammar accepts); converting that text into a float is left
/// to the caller.
#[derive(Debug)]
pub enum Value {
    Null,
    Bool(bool),
    Number(String),
    Str(String),
    Array(Vec<Value>),
    Object(Vec<(String, Value)>),
}

/// The mathematical model of a [`Value`].
pub enum JsonValue {
    Null,
    Bool(bool),
    Number(Seq<char>),
    Str(Seq<char>),
    Array(Seq<JsonValue>),
    Object(Seq<(Seq<char>, JsonValue)>),
}

pub open spec fn view_items(items: Seq<Value>) -> Seq<JsonValue>
    decreases items,
{
    if items.len() == 0 {
        Seq::empty()
    } else {
        view_items(items.subrange(0, items.len() - 1)).push(view_value(items[items.len() - 1]))
    }
}

pub open spec fn view_fields(fields: Seq<(String, Value)>) -> Seq<(Seq<char>, JsonValue)>
    decreases fields,
{
    if fields.len() == 0 {
        Seq::empty()
    } else {
        view_fields(fields.subrange(0, fields.len() - 1)).push(
            (fields[fields.len() - 1].0@, view_value(fields[fields.len() - 1].1)),
        )
    }
}

pub open spec fn view_value(v: Value) -> JsonValue
    decreases v,
{
    match v {
        Value::Null => JsonValue::Null,
        Value::Bool(b) => JsonValue::Bool(b),
        Value::Number(s) => JsonValue::Number(s@),
        Value::Str(s) => JsonValue::Str(s@),
        Value::Array(items) => JsonValue::Array(view_items(items@)),
        Value::Object(fields) => JsonValue::Object(view_fields(fields@)),
    }
}

impl View for Value {
    type V = JsonValue;

    open spec fn view(&self) -> JsonValue {
        view_value(*self)
    }
}

pub proof fn lemma_view_items_push(items: Seq<Value>, v: Value)
    ensures
        view_items(items.push(v)) == view_items(items).push(view_value(v)),
        view_items(items).len() == items.len(),
    decreases items.len(),
{
    assert(items.push(v).subrange(0, items.len() as int) == items);
    if items.len() > 0 {
        lemma_view_items_push(items.subrange(0, items.len() - 1), items[items.len() - 1]);
    }
}

/// The three JSON literals.
#[derive(Clone, Copy, PartialEq, Eq, Structural, Debug)]
pub enum Literal {
    True,
    False,
    Null,
}

impl Literal {
    pub open spec fn spec_text(self) -> Seq<char> {
        match self {
            Literal::True => seq!['t', 'r', 'u', 'e'],
            Literal::False => seq!['f', 'a', 'l', 's', 'e'],
            Literal::Null => seq!['n', 'u', 'l', 'l'],
        }
    }

    /// The literal's spelling, as characters.
    pub fn text(&self) -> (t: Vec<char>)
        ensures
            t@ == self.spec_text(),
    {
        match self {
            Literal::True => vec!['t', 'r', 'u', 'e'],
            Literal::False => vec!['f', 'a', 'l', 's', 'e'],
            Literal::Null => vec!['n', 'u', 'l', 'l'],
        }
    }
}

/// Why a text is not accepted.
#[derive(Debug)]
pub enum ParseError {
    /// A value was expected; carries the character found (if any).
    UnexpectedToken(Option<char>),
    /// A literal was misspelt; carries the character found in place of the expected one.
    ExpectedLiteral(Literal, Option<char>),
    /// A run of number characters that the float grammar rejects.
    InvalidNumber(String),
    ExpectedOpeningQuote,
    UnterminatedString,
    InvalidEscape(Option<char>),
    TruncatedUnicodeEscape,
    /// The four characters after `\u` are not a hexadecimal number.
    InvalidUnicodeEscape(String),
    ExpectedArraySeparator(Option<char>),
    ExpectedColon(Option<char>),
    ExpectedObjectSeparator(Option<char>),
    /// A high surrogate escape followed by a `\u` escape below `DC00`: the
    /// low-surrogate offset would be negative. No value is produced for such a text.
    SurrogateUnderflow,
}

/// The mathematical model of a [`ParseError`].
pub enum JsonError {
    UnexpectedToken(Option<char>),
    ExpectedLiteral(Literal, Option<char>),
    InvalidNumber(Seq<char>),
    ExpectedOpeningQuote,
    UnterminatedString,
    InvalidEscape(Option<char>),
    TruncatedUnicodeEscape,
    InvalidUnicodeEscape(Seq<char>),
    ExpectedArraySeparator(Option<char>),
    ExpectedColon(Option<char>),
    ExpectedObjectSeparator(Option<char>),
    SurrogateUnderflow,
}

impl View for ParseError {
    type V = JsonError;

    open spec fn view(&self) -> JsonError {
        match *self {
            ParseError::UnexpectedToken(c) => JsonError::UnexpectedToken(c),
            ParseError::ExpectedLiteral(l, c) => JsonError::ExpectedLiteral(l, c),
            ParseError::InvalidNumber(b) => JsonError::InvalidNumber(b@),
            ParseError::ExpectedOpeningQuote => JsonError::ExpectedOpeningQuote,
            ParseError::UnterminatedString => JsonError::UnterminatedString,
            ParseError::InvalidEscape(c) => JsonError::InvalidEscape(c),
            ParseError::TruncatedUnicodeEscape => JsonError::TruncatedUnicodeEscape,
            ParseError::InvalidUnicodeEscape(h) => JsonError::InvalidUnicodeEscape(h@),
            ParseError::ExpectedArraySeparator(c) => JsonError::ExpectedArraySeparator(c),
            ParseError::ExpectedColon(c) => JsonError::ExpectedColon(c),
            ParseError::ExpectedObjectSeparator(c) => JsonError::ExpectedObjectSeparator(c),
            ParseError::SurrogateUnderflow => JsonError::SurrogateUnderflow,
        }
    }
}

// ---------------------------------------------------------------------------
// Character classes

/// Unicode `White_Space`, the set that `char::is_whitespace` tests.
pub open spec fn is_ws(c: char) -> bool {
    let n = c as u32;
    ||| 0x09 <= n <= 0x0D
    ||| n == 0x20
    ||| n == 0x85
    ||| n == 0xA0
    ||| n == 0x1680
    ||| 0x2000 <= n <= 0x200A
    ||| n == 0x2028
    ||| n == 0x2029
    ||| n == 0x202F
    ||| n == 0x205F
    ||| n == 0x3000
}

pub open spec fn is_digit(c: char) -> bool {
    '0' <= c <= '9'
}

pub open spec fn is_sign(c: char) -> bool {
    c == '+' || c == '-'
}

pub open spec fn is_number_char(c: char) -> bool {
    is_digit(c) || is_sign(c) || c == '.' || c == 'e' || c == 'E'
}

fn whitespace(c: char) -> (b: bool)
    ensures
        b == is_ws(c),
{
    let n = c as u32;
    (0x09 <= n && n <= 0x0D) || n == 0x20 || n == 0x85 || n == 0xA0 || n == 0x1680 || (0x2000
        <= n && n <= 0x200A) || n == 0x2028 || n == 0x2029 || n == 0x202F || n == 0x205F || n
        == 0x3000
}

fn digit(c: char) -> (b: bool)
    ensures
        b == is_digit(c),
{
    '0' <= c && c <= '9'
}

fn number_char(c: char) -> (b: bool)
    ensures
        b == is_number_char(c),
{
    digit(c) || c == '+' || c == '-' || c == '.' || c == 'e' || c == 'E'
}

// ---------------------------------------------------------------------------
// The grammar, as spec functions over the text and a position in it

pub open spec fn peek_at(s: Seq<char>, i: int) -> Option<char> {
    if 0 <= i < s.len() {
        Some(s[i])
    } else {
        None
    }
}

/// The first position at or after `i` that does not hold whitespace.
pub open spec fn skip_ws(s: Seq<char>, i: int) -> int
    decreases s.len() - i,
{
    if 0 <= i < s.len() && is_ws(s[i]) {
        skip_ws(s, i + 1)
    } else {
        i
    }
}

pub proof fn lemma_skip_ws(s: Seq<char>, i: int)
    requires
        0 <= i <= s.len(),
    ensures
        i <= skip_ws(s, i) <= s.len(),
        skip_ws(s, i) < s.len() ==> !is_ws(s[skip_ws(s, i)]),
        forall|k: int| i <= k < skip_ws(s, i) ==> is_ws(#[trigger] s[k]),
    decreases s.len() - i,
{
    if i < s.len() && is_ws(s[i]) {
        lemma_skip_ws(s, i + 1);
    }
}

// ---------------------------------------------------------------------------
// A cursor over the characters of the input

/// The characters of a text and a read position in them.
pub struct CharCursor {
    text: Vec<char>,
    pos: usize,
}

impl CharCursor {
    #[verifier::type_invariant]
    spec fn wf(self) -> bool {
        self.pos <= self.text.len()
    }

    pub closed spec fn text(&self) -> Seq<char> {
        self.text@
    }

    pub closed spec fn pos(&self) -> int {
        self.pos as int
    }

    /// A cursor at the start of `input`.
    pub fn new(input: &str) -> (c: CharCursor)
        ensures
            c.text() == input@,
            c.pos() == 0,
    {
        CharCursor { text: chars_of(input), pos: 0 }
    }

    /// The character at the read position, if any.
    pub fn peek(&self) -> (r: Option<char>)
        ensures
            r == peek_at(self.text(), self.pos()),
    {
        proof { use_type_invariant(self); }
        if self.pos < self.text.len() {
            Some(self.text[self.pos])
        } else {
            None
        }
    }

    /// Takes the character at the read position, if any.
    pub fn next(&mut self) -> (r: Option<char>)
        ensures
            r == peek_at(old(self).text(), old(self).pos()),
            final(self).text() == old(self).text(),
            final(self).pos() == if old(self).pos() < old(self).text().len() {
                old(self).pos() + 1
            } else {
                old(self).pos()
            },
    {
        proof { use_type_invariant(&*self); }
        if self.pos < self.text.len() {
            let c = self.text[self.pos];
            self.pos = self.pos + 1;
            Some(c)
        } else {
            None
        }
    }
}

/// Moves the cursor past the whitespace at its position.
pub fn skip_whitespace(chars: &mut CharCursor)
    ensures
        final(chars).text() == old(chars).text(),
        final(chars).pos() == skip_ws(old(chars).text(), old(chars).pos()),
{
    proof { use_type_invariant(&*chars); }
    loop
        invariant
            chars.text() == old(chars).text(),
            0 <= chars.pos() <= chars.text().len(),
            skip_ws(chars.text(), chars.pos()) == skip_ws(old(chars).text(), old(chars).pos()),
        decreases chars.text().len() - chars.pos(),
    {
        match chars.peek() {
            Some(c) => {
                if whitespace(c) {
                    chars.next();
                } else {
                    return;
                }
            },
            None => {
                return;
            },
        }
    }
}

// ---------------------------------------------------------------------------
// `\u` escapes

pub open spec fn is_hex_digit(c: char) -> bool {
    ('0' <= c <= '9') || ('a' <= c <= 'f') || ('A' <= c <= 'F')
}

/// The value of a hexadecimal digit; 0 for any other character.
pub open spec fn hex_value(c: char) -> int {
    if '0' <= c <= '9' {
        c as int - '0' as int
    } else if 'a' <= c <= 'f' {
        c as int - 'a' as int + 10
    } else if 'A' <= c <= 'F' {
        c as int - 'A' as int + 10
    } else {
        0
    }
}

/// Four characters that `u32::from_str_radix(_, 16)` accepts: four hexadecimal
/// digits, or a `+` sign followed by three.
pub open spec fn is_hex4(h: Seq<char>) -> bool {
    &&& h.len() == 4
    &&& is_hex_digit(h[0]) || h[0] == '+'
    &&& is_hex_digit(h[1])
    &&& is_hex_digit(h[2])
    &&& is_hex_digit(h[3])
}

pub open spec fn hex4_value(h: Seq<char>) -> int {
    hex_value(h[0]) * 4096 + hex_value(h[1]) * 256 + hex_value(h[2]) * 16 + hex_value(h[3])
}

/// Reading the four characters of a `\u` escape at `i`: the code and the
/// position after them, or the error and the position after what was read
/// (four characters, or all that remain when fewer are left).
pub open spec fn spec_hex4(s: Seq<char>, i: int) -> Result<(int, int), (JsonError, int)> {
    if i + 4 > s.len() {
        Err((JsonError::TruncatedUnicodeEscape, s.len() as int))
    } else {
        let h = s.subrange(i, i + 4);
        if is_hex4(h) {
            Ok((hex4_value(h), i + 4))
        } else {
            Err((JsonError::InvalidUnicodeEscape(h), i + 4))
        }
    }
}

fn hex_digit(c: char) -> (r: Option<u32>)
    ensures
        r == if is_hex_digit(c) {
            Some(hex_value(c) as u32)
        } else {
            None::<u32>
        },
{
    let n = c as u32;
    if '0' <= c && c <= '9' {
        Some(n - 48)
    } else if 'a' <= c && c <= 'f' {
        Some(n - 97 + 10)
    } else if 'A' <= c && c <= 'F' {
        Some(n - 65 + 10)
    } else {
        None
    }
}

/// Reads the four characters of a `\u` escape and their hexadecimal value.
pub fn parse_hex4(chars: &mut CharCursor) -> (r: Result<u32, ParseError>)
    ensures
        final(chars).text() == old(chars).text(),
        match spec_hex4(old(chars).text(), old(chars).pos()) {
            Ok((v, p)) => r == Ok::<u32, ParseError>(v as u32) && final(chars).pos() == p,
            Err((e, p)) => r matches Err(x) && x@ == e && final(chars).pos() == p,
        },
{
    proof { use_type_invariant(&*chars); }
    let ghost t = chars.text();
    let ghost start = chars.pos();
    let mut hex = String::new();
    let mut digits: Vec<char> = Vec::new();
    let mut k: usize = 0;
    while k < 4
        invariant
            0 <= k <= 4,
            t == old(chars).text(),
            start == old(chars).pos(),
            chars.text() == t,
            0 <= start <= t.len(),
            chars.pos() == start + k,
            chars.pos() <= t.len(),
            digits@ == t.subrange(start, start + k),
            hex@ == digits@,
        decreases 4 - k,
    {
        match chars.next() {
            Some(c) => {
                hex.push(c);
                digits.push(c);
            },
            None => {
                return Err(ParseError::TruncatedUnicodeEscape);
            },
        }
        k = k + 1;
        proof { use_type_invariant(&*chars); }
    }
    let ghost h = t.subrange(start, start + 4);
    assert(digits@ == h);
    let d0 = if digits[0] == '+' {
        Some(0u32)
    } else {
        hex_digit(digits[0])
    };
    match (d0, hex_digit(digits[1]), hex_digit(digits[2]), hex_digit(digits[3])) {
        (Some(a), Some(b), Some(c), Some(d)) => Ok(a * 4096 + b * 256 + c * 16 + d),
        _ => Err(ParseError::InvalidUnicodeEscape(hex)),
    }
}

// ---------------------------------------------------------------------------
// Strings

/// The character that a one-letter escape `\e` stands for.
pub open spec fn simple_escape(e: char) -> Option<char> {
    if e == '"' {
        Some('"')
    } else if e == '\\' {
        Some('\\')
    } else if e == '/' {
        Some('/')
    } else if e == 'n' {
        Some('\n')
    } else if e == 't' {
        Some('\t')
    } else if e == 'r' {
        Some('\r')
    } else if e == 'b' {
        Some('\u{8}')
    } else if e == 'f' {
        Some('\u{c}')
    } else {
        None
    }
}

/// `out` with the character of code `c` appended, when `c` is a Unicode scalar
/// value; `out` unchanged otherwise.
pub open spec fn push_code(out: Seq<char>, c: int) -> Seq<char> {
    if is_scalar_value(c) {
        out.push((c as u32) as char)
    } else {
        out
    }
}

/// Decoding a string body from position `k` on, `out` being the characters
/// decoded before `k`: the decoded string and the position after the closing
/// quote, or the error and the position after the last character read.
pub open spec fn spec_string_body(s: Seq<char>, k: int, out: Seq<char>) -> Result<
    (Seq<char>, int),
    (JsonError, int),
>
    decreases s.len() - k,
{
    if k < 0 || k >= s.len() {
        Err((JsonError::UnterminatedString, k))
    } else if s[k] == '"' {
        Ok((out, k + 1))
    } else if s[k] == '\\' {
        if k + 1 >= s.len() {
            Err((JsonError::InvalidEscape(None), k + 1))
        } else {
            let e = s[k + 1];
            match simple_escape(e) {
                Some(d) => spec_string_body(s, k + 2, out.push(d)),
                None => if e == 'u' {
                    match spec_hex4(s, k + 2) {
                        Err(err) => Err(err),
                        Ok((code, j)) => if 0xD800 <= code <= 0xDBFF {
                            // A high surrogate: combined with a following `\u` escape, if any.
                            if j >= s.len() {
                                spec_string_body(s, j, out)
                            } else if s[j] != '\\' {
                                spec_string_body(s, j + 1, out)
                            } else if j + 1 >= s.len() {
                                spec_string_body(s, j + 1, out)
                            } else if s[j + 1] != 'u' {
                                spec_string_body(s, j + 2, out)
                            } else {
                                match spec_hex4(s, j + 2) {
                                    Err(err) => Err(err),
                                    Ok((low, m)) => if low < 0xDC00 {
                                        Err((JsonError::SurrogateUnderflow, m))
                                    } else if low <= 0xDFFF {
                                        // A low surrogate: the pair is one character.
                                        spec_string_body(
                                            s,
                                            m,
                                            push_code(
                                                out,
                                                0x10000 + (code - 0xD800) * 1024 + (low - 0xDC00),
                                            ),
                                        )
                                    } else {
                                        // Not a low surrogate: the high surrogate is dropped
                                        // and the escape stands for its own character.
                                        spec_string_body(s, m, push_code(out, low))
                                    },
                                }
                            }
                        } else {
                            spec_string_body(s, j, push_code(out, code))
                        },
                    }
                } else {
                    Err((JsonError::InvalidEscape(Some(e)), k + 2))
                },
            }
        }
    } else {
        spec_string_body(s, k + 1, out.push(s[k]))
    }
}

/// Reading a string at `i`: the decoded string and the position after it,
/// or the error and the position after the last character read.
pub open spec fn spec_string(s: Seq<char>, i: int) -> Result<(Seq<char>, int), (JsonError, int)> {
    if peek_at(s, i) != Some('"') {
        Err((JsonError::ExpectedOpeningQuote, if 0 <= i < s.len() { i + 1 } else { i }))
    } else {
        spec_string_body(s, i + 1, Seq::empty())
    }
}

fn simple_escape_exec(e: char) -> (r: Option<char>)
    ensures
        r == simple_escape(e),
{
    if e == '"' {
        Some('"')
    } else if e == '\\' {
        Some('\\')
    } else if e == '/' {
        Some('/')
    } else if e == 'n' {
        Some('\n')
    } else if e == 't' {
        Some('\t')
    } else if e == 'r' {
        Some('\r')
    } else if e == 'b' {
        Some('\u{8}')
    } else if e == 'f' {
        Some('\u{c}')
    } else {
        None
    }
}

fn is_char(c: Option<char>, expected: char) -> (b: bool)
    ensures
        b == (c == Some(expected)),
{
    match c {
        Some(x) => x == expected,
        None => false,
    }
}

/// Reads a string literal at the cursor, decoding its escapes.
pub fn parse_string(chars: &mut CharCursor) -> (r: Result<String, ParseError>)
    ensures
        final(chars).text() == old(chars).text(),
        match spec_string(old(chars).text(), old(chars).pos()) {
            Ok((v, p)) => r matches Ok(o) && o@ == v && final(chars).pos() == p,
            Err((e, p)) => r matches Err(x) && x@ == e && final(chars).pos() == p,
        },
        r is Ok ==> final(chars).pos() > old(chars).pos(),
{
    proof { use_type_invariant(&*chars); }
    let ghost t = chars.text();
    let ghost start = chars.pos();
    if !is_char(chars.next(), '"') {
        return Err(ParseError::ExpectedOpeningQuote);
    }
    let ghost target = spec_string_body(t, start + 1, Seq::empty());
    let mut out = String::new();
    loop
        invariant
            t == old(chars).text(),
            start == old(chars).pos(),
            chars.text() == t,
            0 <= chars.pos() <= t.len(),
            start < chars.pos(),
            spec_string(t, start) == target,
            spec_string_body(t, chars.pos(), out@) == target,
        decreases t.len() - chars.pos(),
    {
        proof { use_type_invariant(&*chars); }
        let ghost k = chars.pos();
        match chars.next() {
            None => {
                return Err(ParseError::UnterminatedString);
            },
            Some(c) => {
                if c == '"' {
                    return Ok(out);
                } else if c == '\\' {
                    match chars.next() {
                        None => {
                            return Err(ParseError::InvalidEscape(None));
                        },
                        Some(e) => {
                            match simple_escape_exec(e) {
                                Some(d) => {
                                    out.push(d);
                                },
                                None => {
                                    if e == 'u' {
                                        let code = parse_hex4(chars)?;
                                        if 0xD800 <= code && code <= 0xDBFF {
                                            proof { use_type_invariant(&*chars); }
                                            if is_char(chars.next(), '\\') && is_char(
                                                chars.next(),
                                                'u',
                                            ) {
                                                let low = parse_hex4(chars)?;
                                                if low < 0xDC00 {
                                                    return Err(ParseError::SurrogateUnderflow);
                                                }
                                                if low <= 0xDFFF {
                                                    let hi_bits = code - 0xD800;
                                                    assert(hi_bits << 10 == hi_bits * 1024)
                                                        by (bit_vector)
                                                        requires
                                                            hi_bits <= 0x3FF,
                                                    ;
                                                    let c = 0x10000 + (hi_bits << 10) + (low
                                                        - 0xDC00);
                                                    if let Some(ch) = char::from_u32(c) {
                                                        out.push(ch);
                                                    }
                                                } else if let Some(ch) = char::from_u32(low) {
                                                    out.push(ch);
                                                }
                                            }
                                        } else if let Some(ch) = char::from_u32(code) {
                                            out.push(ch);
                                        }
                                    } else {
                                        return Err(ParseError::InvalidEscape(Some(e)));
                                    }
                                },
                            }
                        },
                    }
                } else {
                    out.push(c);
                }
            },
        }
        proof { use_type_invariant(&*chars); }
    }
}

// ---------------------------------------------------------------------------
// Literals and numbers

/// The first index `k` at which `t[k]` differs from the character at `i + k`.
pub open spec fn literal_mismatch(s: Seq<char>, i: int, t: Seq<char>, k: int) -> Option<int>
    decreases t.len() - k,
{
    if k < 0 || k >= t.len() {
        None
    } else if peek_at(s, i + k) == Some(t[k]) {
        literal_mismatch(s, i, t, k + 1)
    } else {
        Some(k)
    }
}

/// Reading the literal `lit` at `i`, which stands for `v`.
pub open spec fn spec_literal(s: Seq<char>, i: int, lit: Literal, v: JsonValue) -> Result<
    (JsonValue, int),
    JsonError,
> {
    match literal_mismatch(s, i, lit.spec_text(), 0) {
        None => Ok((v, i + lit.spec_text().len())),
        Some(k) => Err(JsonError::ExpectedLiteral(lit, peek_at(s, i + k))),
    }
}

/// The end of the run of number characters that starts at `i`.
pub open spec fn number_end(s: Seq<char>, i: int) -> int
    decreases s.len() - i,
{
    if 0 <= i < s.len() && is_number_char(s[i]) {
        number_end(s, i + 1)
    } else {
        i
    }
}

/// The length of the run of decimal digits that starts at `i`.
pub open spec fn digit_run(b: Seq<char>, i: int) -> int
    decreases b.len() - i,
{
    if 0 <= i < b.len() && is_digit(b[i]) {
        1 + digit_run(b, i + 1)
    } else {
        0
    }
}

/// The exponent part at `q` (after the mantissa) is well formed: `e` or `E`,
/// an optional sign, then digits up to the end.
pub open spec fn is_exponent(b: Seq<char>, q: int) -> bool {
    &&& q < b.len()
    &&& (b[q] == 'e' || b[q] == 'E')
    &&& {
        let r = if q + 1 < b.len() && is_sign(b[q + 1]) {
            q + 2
        } else {
            q + 1
        };
        digit_run(b, r) > 0 && r + digit_run(b, r) == b.len()
    }
}

/// The texts that `f64::from_str` accepts, among those made of digits, signs,
/// `.`, `e` and `E`: `Sign? (Digit+ | Digit+ '.' Digit* | Digit* '.' Digit+) Exp?`
/// with `Exp ::= ('e' | 'E') Sign? Digit+`.
pub open spec fn is_float_lexeme(b: Seq<char>) -> bool {
    let a: int = if b.len() > 0 && is_sign(b[0]) {
        1
    } else {
        0
    };
    let d1 = digit_run(b, a);
    let p = a + d1;
    let has_point = p < b.len() && b[p] == '.';
    let d2 = if has_point {
        digit_run(b, p + 1)
    } else {
        0
    };
    let q = if has_point {
        p + 1 + d2
    } else {
        p
    };
    &&& d1 + d2 > 0
    &&& q == b.len() || is_exponent(b, q)
}

/// Reading a number at `i`: the run of number characters there, which must
/// form a float literal.
pub open spec fn spec_number(s: Seq<char>, i: int) -> Result<(JsonValue, int), JsonError> {
    let b = s.subrange(i, number_end(s, i));
    if is_float_lexeme(b) {
        Ok((JsonValue::Number(b), number_end(s, i)))
    } else {
        Err(JsonError::InvalidNumber(b))
    }
}

pub proof fn lemma_digit_run(b: Seq<char>, i: int)
    requires
        0 <= i <= b.len(),
    ensures
        0 <= digit_run(b, i) <= b.len() - i,
    decreases b.len() - i,
{
    if i < b.len() && is_digit(b[i]) {
        lemma_digit_run(b, i + 1);
    }
}

fn digit_run_exec(b: &Vec<char>, i: usize) -> (n: usize)
    requires
        i <= b.len(),
    ensures
        n == digit_run(b@, i as int),
        i + n <= b.len(),
{
    let mut j = i;
    proof { lemma_digit_run(b@, i as int); }
    while j < b.len() && digit(b[j])
        invariant
            i <= j <= b.len(),
            digit_run(b@, i as int) == (j - i) + digit_run(b@, j as int),
        decreases b.len() - j,
    {
        j = j + 1;
    }
    proof { lemma_digit_run(b@, i as int); }
    j - i
}

fn float_lexeme(b: &Vec<char>) -> (r: bool)
    ensures
        r == is_float_lexeme(b@),
{
    let a: usize = if b.len() > 0 && (b[0] == '+' || b[0] == '-') {
        1
    } else {
        0
    };
    let d1 = digit_run_exec(b, a);
    let p = a + d1;
    let has_point = p < b.len() && b[p] == '.';
    let d2 = if has_point {
        digit_run_exec(b, p + 1)
    } else {
        0
    };
    let q = if has_point {
        p + 1 + d2
    } else {
        p
    };
    if d1 + d2 == 0 {
        return false;
    }
    if q == b.len() {
        return true;
    }
    if !(b[q] == 'e' || b[q] == 'E') {
        return false;
    }
    let r: usize = if q + 1 < b.len() && (b[q + 1] == '+' || b[q + 1] == '-') {
        q + 2
    } else {
        q + 1
    };
    let d3 = digit_run_exec(b, r);
    d3 > 0 && r + d3 == b.len()
}

// ---------------------------------------------------------------------------
// Values, arrays and objects

/// Reading a value at `i` (after any whitespace): the value and the position after it.
pub open spec fn spec_value(s: Seq<char>, i: int) -> Result<(JsonValue, int), JsonError>
    decreases s.len() - i, 1int,
{
    if i < 0 || i > s.len() {
        Err(JsonError::UnexpectedToken(None))
    } else {
        proof { lemma_skip_ws(s, i); }
        let j = skip_ws(s, i);
        match peek_at(s, j) {
            Some(c) => if c == '"' {
                match spec_string(s, j) {
                    Ok((t, k)) => Ok((JsonValue::Str(t), k)),
                    Err((e, _)) => Err(e),
                }
            } else if c == '{' {
                spec_object(s, j)
            } else if c == '[' {
                spec_array(s, j)
            } else if c == 't' {
                spec_literal(s, j, Literal::True, JsonValue::Bool(true))
            } else if c == 'f' {
                spec_literal(s, j, Literal::False, JsonValue::Bool(false))
            } else if c == 'n' {
                spec_literal(s, j, Literal::Null, JsonValue::Null)
            } else if is_digit(c) || c == '-' {
                spec_number(s, j)
            } else {
                Err(JsonError::UnexpectedToken(Some(c)))
            },
            None => Err(JsonError::UnexpectedToken(None)),
        }
    }
}

/// Reading an array whose `[` is at `i`.
pub open spec fn spec_array(s: Seq<char>, i: int) -> Result<(JsonValue, int), JsonError>
    decreases s.len() - i, 0int,
{
    if i < 0 || i >= s.len() {
        Err(JsonError::UnexpectedToken(None))
    } else {
        proof { lemma_skip_ws(s, i + 1); }
        let k = skip_ws(s, i + 1);
        if peek_at(s, k) == Some(']') {
            Ok((JsonValue::Array(Seq::empty()), k + 1))
        } else {
            spec_elements(s, k, Seq::empty())
        }
    }
}

/// Reading the elements of an array from `k` on, `acc` holding those read before `k`.
pub open spec fn spec_elements(s: Seq<char>, k: int, acc: Seq<JsonValue>) -> Result<
    (JsonValue, int),
    JsonError,
>
    decreases s.len() - k, 2int,
{
    if k < 0 || k > s.len() {
        Err(JsonError::UnexpectedToken(None))
    } else {
        match spec_value(s, k) {
            Err(e) => Err(e),
            Ok((v, m0)) => {
                let m = skip_ws(s, m0);
                match peek_at(s, m) {
                    Some(c) => if c == ',' {
                        if k < m {
                            spec_elements(s, m + 1, acc.push(v))
                        } else {
                            Err(JsonError::ExpectedArraySeparator(Some(c)))
                        }
                    } else if c == ']' {
                        Ok((JsonValue::Array(acc.push(v)), m + 1))
                    } else {
                        Err(JsonError::ExpectedArraySeparator(Some(c)))
                    },
                    None => Err(JsonError::ExpectedArraySeparator(None)),
                }
            },
        }
    }
}

/// Reading an object whose `{` is at `i`.
pub open spec fn spec_object(s: Seq<char>, i: int) -> Result<(JsonValue, int), JsonError>
    decreases s.len() - i, 0int,
{
    if i < 0 || i >= s.len() {
        Err(JsonError::UnexpectedToken(None))
    } else {
        proof { lemma_skip_ws(s, i + 1); }
        let k = skip_ws(s, i + 1);
        if peek_at(s, k) == Some('}') {
            Ok((JsonValue::Object(Seq::empty()), k + 1))
        } else {
            spec_members(s, k, Seq::empty())
        }
    }
}

/// Reading the members of an object from `k` on, `acc` holding those read before `k`.
pub open spec fn spec_members(s: Seq<char>, k: int, acc: Seq<(Seq<char>, JsonValue)>) -> Result<
    (JsonValue, int),
    JsonError,
>
    decreases s.len() - k, 2int,
{
    if k < 0 || k > s.len() {
        Err(JsonError::UnexpectedToken(None))
    } else {
        let k1 = skip_ws(s, k);
        match spec_string(s, k1) {
            Err((e, _)) => Err(e),
            Ok((key, k2)) => {
                let k3 = skip_ws(s, k2);
                match peek_at(s, k3) {
                    Some(c) => if c == ':' {
                        if k <= k3 {
                            match spec_value(s, k3 + 1) {
                                Err(e) => Err(e),
                                Ok((v, k4)) => {
                                    let k5 = skip_ws(s, k4);
                                    match peek_at(s, k5) {
                                        Some(d) => if d == ',' {
                                            if k < k5 {
                                                spec_members(s, k5 + 1, acc.push((key, v)))
                                            } else {
                                                Err(JsonError::ExpectedObjectSeparator(Some(d)))
                                            }
                                        } else if d == '}' {
                                            Ok((JsonValue::Object(acc.push((key, v))), k5 + 1))
                                        } else {
                                            Err(JsonError::ExpectedObjectSeparator(Some(d)))
                                        },
                                        None => Err(JsonError::ExpectedObjectSeparator(None)),
                                    }
                                },
                            }
                        } else {
                            Err(JsonError::ExpectedColon(Some(c)))
                        }
                    } else {
                        Err(JsonError::ExpectedColon(Some(c)))
                    },
                    None => Err(JsonError::ExpectedColon(None)),
                }
            },
        }
    }
}

/// What parsing the whole text gives: the first value after any leading
/// whitespace; whatever follows it is not read.
pub open spec fn spec_parse(s: Seq<char>) -> Result<JsonValue, JsonError> {
    match spec_value(s, skip_ws(s, 0)) {
        Ok((v, _)) => Ok(v),
        Err(e) => Err(e),
    }
}

pub proof fn lemma_view_fields_push(fields: Seq<(String, Value)>, f: (String, Value))
    ensures
        view_fields(fields.push(f)) == view_fields(fields).push((f.0@, view_value(f.1))),
{
    assert(fields.push(f).subrange(0, fields.len() as int) == fields);
}

fn parse_literal(chars: &mut CharCursor, literal: Literal, value: Value) -> (r: Result<
    Value,
    ParseError,
>)
    ensures
        final(chars).text() == old(chars).text(),
        match spec_literal(old(chars).text(), old(chars).pos(), literal, value@) {
            Ok((v, p)) => r matches Ok(x) && x@ == v && final(chars).pos() == p,
            Err(e) => r matches Err(x) && x@ == e,
        },
{
    proof { use_type_invariant(&*chars); }
    let ghost t = chars.text();
    let ghost start = chars.pos();
    let text = literal.text();
    let mut k: usize = 0;
    while k < text.len()
        invariant
            t == old(chars).text(),
            start == old(chars).pos(),
            chars.text() == t,
            text@ == literal.spec_text(),
            0 <= k <= text.len(),
            chars.pos() == start + k,
            literal_mismatch(t, start, text@, 0) == literal_mismatch(t, start, text@, k as int),
        decreases text.len() - k,
    {
        let got = chars.next();
        if !is_char(got, text[k]) {
            return Err(ParseError::ExpectedLiteral(literal, got));
        }
        k = k + 1;
    }
    Ok(value)
}

fn parse_number(chars: &mut CharCursor) -> (r: Result<Value, ParseError>)
    ensures
        final(chars).text() == old(chars).text(),
        match spec_number(old(chars).text(), old(chars).pos()) {
            Ok((v, p)) => r matches Ok(x) && x@ == v && final(chars).pos() == p,
            Err(e) => r matches Err(x) && x@ == e,
        },
        r is Ok ==> final(chars).pos() > old(chars).pos(),
{
    proof { use_type_invariant(&*chars); }
    let ghost t = chars.text();
    let ghost start = chars.pos();
    let mut buf = String::new();
    let mut digits: Vec<char> = Vec::new();
    loop
        invariant
            t == old(chars).text(),
            start == old(chars).pos(),
            chars.text() == t,
            start <= chars.pos() <= t.len(),
            digits@ == t.subrange(start, chars.pos()),
            buf@ == digits@,
            number_end(t, chars.pos()) == number_end(t, start),
        ensures
            number_end(t, chars.pos()) == chars.pos(),
        decreases t.len() - chars.pos(),
    {
        proof { use_type_invariant(&*chars); }
        match chars.peek() {
            Some(c) => {
                if number_char(c) {
                    chars.next();
                    buf.push(c);
                    digits.push(c);
                    assert(digits@ == t.subrange(start, chars.pos()));
                } else {
                    break;
                }
            },
            None => {
                break;
            },
        }
    }
    if float_lexeme(&digits) {
        proof {
            let b = digits@;
            let a: int = if b.len() > 0 && is_sign(b[0]) { 1 } else { 0 };
            lemma_digit_run(b, a);
            let p = a + digit_run(b, a);
            if p < b.len() {
                lemma_digit_run(b, p + 1);
            }
        }
        Ok(Value::Number(buf))
    } else {
        Err(ParseError::InvalidNumber(buf))
    }
}

fn parse_value(chars: &mut CharCursor) -> (r: Result<Value, ParseError>)
    ensures
        final(chars).text() == old(chars).text(),
        match spec_value(old(chars).text(), old(chars).pos()) {
            Ok((v, p)) => r matches Ok(x) && x@ == v && final(chars).pos() == p,
            Err(e) => r matches Err(x) && x@ == e,
        },
        r is Ok ==> final(chars).pos() > old(chars).pos(),
    decreases old(chars).text().len() - old(chars).pos(), 1int,
{
    proof { use_type_invariant(&*chars); }
    let ghost t = chars.text();
    let ghost start = chars.pos();
    skip_whitespace(chars);
    proof {
        lemma_skip_ws(t, start);
        use_type_invariant(&*chars);
    }
    match chars.peek() {
        Some(c) => {
            if c == '"' {
                let text = parse_string(chars)?;
                Ok(Value::Str(text))
            } else if c == '{' {
                parse_object(chars)
            } else if c == '[' {
                parse_array(chars)
            } else if c == 't' {
                parse_literal(chars, Literal::True, Value::Bool(true))
            } else if c == 'f' {
                parse_literal(chars, Literal::False, Value::Bool(false))
            } else if c == 'n' {
                parse_literal(chars, Literal::Null, Value::Null)
            } else if digit(c) || c == '-' {
                parse_number(chars)
            } else {
                Err(ParseError::UnexpectedToken(Some(c)))
            }
        },
        None => Err(ParseError::UnexpectedToken(None)),
    }
}

fn parse_array(chars: &mut CharCursor) -> (r: Result<Value, ParseError>)
    requires
        old(chars).pos() < old(chars).text().len(),
    ensures
        final(chars).text() == old(chars).text(),
        match spec_array(old(chars).text(), old(chars).pos()) {
            Ok((v, p)) => r matches Ok(x) && x@ == v && final(chars).pos() == p,
            Err(e) => r matches Err(x) && x@ == e,
        },
        r is Ok ==> final(chars).pos() > old(chars).pos(),
    decreases old(chars).text().len() - old(chars).pos(), 0int,
{
    let ghost t = chars.text();
    let ghost start = chars.pos();
    chars.next();
    let mut items: Vec<Value> = Vec::new();
    skip_whitespace(chars);
    proof {
        lemma_skip_ws(t, start + 1);
    }
    if is_char(chars.peek(), ']') {
        chars.next();
        return Ok(Value::Array(items));
    }
    let ghost target = spec_array(t, start);
    loop
        invariant
            t == old(chars).text(),
            start == old(chars).pos(),
            chars.text() == t,
            start < chars.pos() <= t.len(),
            spec_array(t, start) == target,
            spec_elements(t, chars.pos(), view_items(items@)) == target,
        decreases t.len() - chars.pos(),
    {
        let ghost k = chars.pos();
        let v = parse_value(chars)?;
        let ghost m0 = chars.pos();
        proof { use_type_invariant(&*chars); }
        skip_whitespace(chars);
        proof {
            lemma_skip_ws(t, m0);
            lemma_view_items_push(items@, v);
        }
        items.push(v);
        match chars.next() {
            Some(c) => {
                if c == ',' {
                } else if c == ']' {
                    return Ok(Value::Array(items));
                } else {
                    return Err(ParseError::ExpectedArraySeparator(Some(c)));
                }
            },
            None => {
                return Err(ParseError::ExpectedArraySeparator(None));
            },
        }
    }
}

fn parse_object(chars: &mut CharCursor) -> (r: Result<Value, ParseError>)
    requires
        old(chars).pos() < old(chars).text().len(),
    ensures
        final(chars).text() == old(chars).text(),
        match spec_object(old(chars).text(), old(chars).pos()) {
            Ok((v, p)) => r matches Ok(x) && x@ == v && final(chars).pos() == p,
            Err(e) => r matches Err(x) && x@ == e,
        },
        r is Ok ==> final(chars).pos() > old(chars).pos(),
    decreases old(chars).text().len() - old(chars).pos(), 0int,
{
    let ghost t = chars.text();
    let ghost start = chars.pos();
    chars.next();
    let mut fields: Vec<(String, Value)> = Vec::new();
    skip_whitespace(chars);
    proof {
        lemma_skip_ws(t, start + 1);
    }
    if is_char(chars.peek(), '}') {
        chars.next();
        return Ok(Value::Object(fields));
    }
    let ghost target = spec_object(t, start);
    loop
        invariant
            t == old(chars).text(),
            start == old(chars).pos(),
            chars.text() == t,
            start < chars.pos() <= t.len(),
            spec_object(t, start) == target,
            spec_members(t, chars.pos(), view_fields(fields@)) == target,
        decreases t.len() - chars.pos(),
    {
        let ghost k = chars.pos();
        skip_whitespace(chars);
        proof { lemma_skip_ws(t, k); }
        let key = parse_string(chars)?;
        let ghost k2 = chars.pos();
        proof { use_type_invariant(&*chars); }
        skip_whitespace(chars);
        proof { lemma_skip_ws(t, k2); }
        match chars.next() {
            Some(c) => {
                if c != ':' {
                    return Err(ParseError::ExpectedColon(Some(c)));
                }
            },
            None => {
                return Err(ParseError::ExpectedColon(None));
            },
        }
        let value = parse_value(chars)?;
        let ghost k4 = chars.pos();
        proof { use_type_invariant(&*chars); }
        skip_whitespace(chars);
        proof {
            lemma_skip_ws(t, k4);
            lemma_view_fields_push(fields@, (key, value));
        }
        fields.push((key, value));
        match chars.next() {
            Some(c) => {
                if c == ',' {
                } else if c == '}' {
                    return Ok(Value::Object(fields));
                } else {
                    return Err(ParseError::ExpectedObjectSeparator(Some(c)));
                }
            },
            None => {
                return Err(ParseError::ExpectedObjectSeparator(None));
            },
        }
    }
}

/// Parses `input` in full detail: the value, or why the text is refused.
pub fn parse_detailed(input: &str) -> (r: Result<Value, ParseError>)
    ensures
        match spec_parse(input@) {
            Ok(v) => r matches Ok(x) && x@ == v,
            Err(e) => r matches Err(x) && x@ == e,
        },
{
    let mut chars = CharCursor::new(input);
    skip_whitespace(&mut chars);
    let value = parse_value(&mut chars)?;
    skip_whitespace(&mut chars);
    Ok(value)
}

// ---------------------------------------------------------------------------
// Error messages

/// The text that `format!("{:?}", c)` gives for an optional character,
/// such as `Some('x')` or `None`.
pub uninterp spec fn option_char_debug(c: Option<char>) -> Seq<char>;

/// Renders `c` with `Option<char>`'s `Debug` implementation (`format!("{:?}")`),
/// which is taken to give `option_char_debug(c)`, the same text for the same
/// `c`; of the text itself only the form of `None` (the variant's name, as the
/// derived `Debug` writes it) is claimed, not how `Some` renders a character.
#[verifier::external_body]
fn debug_option_char(c: Option<char>) -> (r: String)
    ensures
        r@ == option_char_debug(c),
        c is None ==> r@ == seq!['N', 'o', 'n', 'e'],
{
    format!("{:?}", c)
}

/// The message that reports `e`.
pub open spec fn error_message(e: JsonError) -> Seq<char> {
    match e {
        JsonError::UnexpectedToken(c) => "RJson: unexpected token "@ + option_char_debug(c),
        JsonError::ExpectedLiteral(l, c) => "RJson: expected '"@ + l.spec_text() + "', got "@
            + option_char_debug(c),
        JsonError::InvalidNumber(b) => "RJson: invalid number '"@ + b
            + "': invalid float literal"@,
        JsonError::ExpectedOpeningQuote => "RJson: expected opening '\"'"@,
        JsonError::UnterminatedString => "RJson: unterminated string"@,
        JsonError::InvalidEscape(c) => "RJson: invalid escape "@ + option_char_debug(c),
        JsonError::TruncatedUnicodeEscape => "RJson: truncated \\u escape"@,
        JsonError::InvalidUnicodeEscape(h) => "RJson: invalid \\u escape '"@ + h
            + "': invalid digit found in string"@,
        JsonError::ExpectedArraySeparator(c) => "RJson: expected ',' or ']' in array, got "@
            + option_char_debug(c),
        JsonError::ExpectedColon(c) => "RJson: expected ':' after key, got "@ + option_char_debug(
            c,
        ),
        JsonError::ExpectedObjectSeparator(c) => "RJson: expected ',' or '}' in object, got "@
            + option_char_debug(c),
        JsonError::SurrogateUnderflow => "RJson: low surrogate below DC00 after a high surrogate"@,
    }
}

fn push_all(out: &mut String, cs: &Vec<char>)
    ensures
        final(out)@ == old(out)@ + cs@,
{
    let mut i: usize = 0;
    while i < cs.len()
        invariant
            0 <= i <= cs.len(),
            out@ == old(out)@ + cs@.subrange(0, i as int),
        decreases cs.len() - i,
    {
        out.push(cs[i]);
        i = i + 1;
        assert(cs@.subrange(0, i as int) == cs@.subrange(0, i - 1).push(cs@[i - 1]));
    }
    assert(cs@.subrange(0, cs.len() as int) == cs@);
}

impl ParseError {
    /// The message that reports this error.
    pub fn message(&self) -> (m: String)
        ensures
            m@ == error_message(self@),
    {
        let mut m = String::new();
        match self {
            ParseError::UnexpectedToken(c) => {
                m.append("RJson: unexpected token ");
                m.append(debug_option_char(*c).as_str());
            },
            ParseError::ExpectedLiteral(l, c) => {
                m.append("RJson: expected '");
                push_all(&mut m, &l.text());
                m.append("', got ");
                m.append(debug_option_char(*c).as_str());
            },
            ParseError::InvalidNumber(b) => {
                m.append("RJson: invalid number '");
                m.append(b.as_str());
                m.append("': invalid float literal");
            },
            ParseError::ExpectedOpeningQuote => {
                m.append("RJson: expected opening '\"'");
            },
            ParseError::UnterminatedString => {
                m.append("RJson: unterminated string");
            },
            ParseError::InvalidEscape(c) => {
                m.append("RJson: invalid escape ");
                m.append(debug_option_char(*c).as_str());
            },
            ParseError::TruncatedUnicodeEscape => {
                m.append("RJson: truncated \\u escape");
            },
            ParseError::InvalidUnicodeEscape(h) => {
                m.append("RJson: invalid \\u escape '");
                m.append(h.as_str());
                m.append("': invalid digit found in string");
            },
            ParseError::ExpectedArraySeparator(c) => {
                m.append("RJson: expected ',' or ']' in array, got ");
                m.append(debug_option_char(*c).as_str());
            },
            ParseError::ExpectedColon(c) => {
                m.append("RJson: expected ':' after key, got ");
                m.append(debug_option_char(*c).as_str());
            },
            ParseError::ExpectedObjectSeparator(c) => {
                m.append("RJson: expected ',' or '}' in object, got ");
                m.append(debug_option_char(*c).as_str());
            },
            ParseError::SurrogateUnderflow => {
                m.append("RJson: low surrogate below DC00 after a high surrogate");
            },
        }
        m
    }
}

/// Parses the first JSON value of `input`, after any leading whitespace;
/// what follows that value is not read. On a refused text, the error is the
/// message that says why.
pub fn parse(input: &str) -> (r: Result<Value, String>)
    requires
        spec_parse(input@) != Err::<JsonValue, JsonError>(JsonError::SurrogateUnderflow),
    ensures
        match spec_parse(input@) {
            Ok(v) => r matches Ok(x) && x@ == v,
            Err(e) => r matches Err(m) && m@ == error_message(e),
        },
{
    match parse_detailed(input) {
        Ok(v) => Ok(v),
        Err(e) => Err(e.message()),
    }
}

// ---------------------------------------------------------------------------
// Reading a parsed value

/// The value of the first field named `key`, if any.
pub open spec fn lookup(fields: Seq<(Seq<char>, JsonValue)>, key: Seq<char>) -> Option<JsonValue>
    decreases fields.len(),
{
    if fields.len() == 0 {
        None
    } else if fields[0].0 == key {
        Some(fields[0].1)
    } else {
        lookup(fields.drop_first(), key)
    }
}

pub proof fn lemma_view_items_index(items: Seq<Value>)
    ensures
        view_items(items).len() == items.len(),
        forall|i: int| 0 <= i < items.len() ==> #[trigger] view_items(items)[i] == view_value(items[i]),
    decreases items.len(),
{
    if items.len() > 0 {
        lemma_view_items_index(items.subrange(0, items.len() - 1));
    }
}

pub proof fn lemma_view_fields_index(fields: Seq<(String, Value)>)
    ensures
        view_fields(fields).len() == fields.len(),
        forall|i: int|
            0 <= i < fields.len() ==> #[trigger] view_fields(fields)[i] == (
                fields[i].0@,
                view_value(fields[i].1),
            ),
    decreases fields.len(),
{
    if fields.len() > 0 {
        lemma_view_fields_index(fields.subrange(0, fields.len() - 1));
    }
}

proof fn lemma_lookup_skip(fs: Seq<(Seq<char>, JsonValue)>, key: Seq<char>, i: int)
    requires
        0 <= i <= fs.len(),
        forall|j: int| 0 <= j < i ==> fs[j].0 != key,
    ensures
        lookup(fs, key) == lookup(fs.subrange(i, fs.len() as int), key),
    decreases i,
{
    if i == 0 {
        assert(fs.subrange(0, fs.len() as int) == fs);
    } else {
        lemma_lookup_skip(fs.drop_first(), key, i - 1);
        assert(fs.drop_first().subrange(i - 1, fs.len() - 1) == fs.subrange(i, fs.len() as int));
    }
}

impl Value {
    /// The text of a string value.
    pub fn as_str(&self) -> (r: Option<&str>)
        ensures
            match self@ {
                JsonValue::Str(t) => r matches Some(x) && x@ == t,
                _ => r is None,
            },
    {
        match self {
            Value::Str(s) => Some(s.as_str()),
            _ => None,
        }
    }

    /// The truth value of a boolean value.
    pub fn as_bool(&self) -> (r: Option<bool>)
        ensures
            match self@ {
                JsonValue::Bool(b) => r == Some(b),
                _ => r is None,
            },
    {
        match self {
            Value::Bool(b) => Some(*b),
            _ => None,
        }
    }

    /// The elements of an array value.
    pub fn as_array(&self) -> (r: Option<&[Value]>)
        ensures
            match self@ {
                JsonValue::Array(vs) => r matches Some(x) && view_items(x@) == vs,
                _ => r is None,
            },
    {
        match self {
            Value::Array(items) => Some(items.as_slice()),
            _ => None,
        }
    }

    /// The value of the first field named `key` of an object value.
    pub fn get(&self, key: &str) -> (r: Option<&Value>)
        ensures
            match self@ {
                JsonValue::Object(fs) => match lookup(fs, key@) {
                    Some(v) => r matches Some(x) && x@ == v,
                    None => r is None,
                },
                _ => r is None,
            },
    {
        match self {
            Value::Object(fields) => {
                let k = key.to_owned();
                let ghost fs = view_fields(fields@);
                proof { lemma_view_fields_index(fields@); }
                let mut i: usize = 0;
                while i < fields.len()
                    invariant
                        0 <= i <= fields.len(),
                        fs == view_fields(fields@),
                        self@ == JsonValue::Object(fs),
                        fs.len() == fields.len(),
                        k@ == key@,
                        forall|j: int| 0 <= j < fields.len() ==> #[trigger] fs[j] == (
                            fields@[j].0@,
                            view_value(fields@[j].1),
                        ),
                        forall|j: int| 0 <= j < i ==> fs[j].0 != key@,
                    decreases fields.len() - i,
                {
                    if fields[i].0 == k {
                        proof {
                            lemma_lookup_skip(fs, key@, i as int);
                            assert(fs[i as int] == (fields@[i as int].0@, view_value(fields@[i as int].1)));
                            assert(fs.subrange(i as int, fs.len() as int)[0] == fs[i as int]);
                            assert(fs[i as int].0 == key@);
                            assert(lookup(fs, key@) == Some(fs[i as int].1));
                        }
                        return Some(&fields[i].1);
                    }
                    i = i + 1;
                }
                proof {
                    lemma_lookup_skip(fs, key@, i as int);
                    assert(fs.subrange(i as int, fs.len() as int).len() == 0);
                }
                None
            },
            _ => None,
        }
    }
}

// ---------------------------------------------------------------------------
// Copying values

fn copy_value(v: &Value) -> (r: Value)
    ensures
        r@ == v@,
    decreases v,
{
    match v {
        Value::Null => Value::Null,
        Value::Bool(b) => Value::Bool(*b),
        Value::Number(t) => Value::Number(t.clone()),
        Value::Str(t) => Value::Str(t.clone()),
        Value::Array(items) => {
            let mut out: Vec<Value> = Vec::new();
            let mut i: usize = 0;
            proof { lemma_view_items_index(items@); }
            while i < items.len()
                invariant
                    0 <= i <= items.len(),
                    *v == Value::Array(*items),
                    view_items(out@) == view_items(items@.subrange(0, i as int)),
                decreases items.len() - i,
            {
                proof {
                    assert(decreases_to!(*v => (*v)->Array_0));
                    assert(decreases_to!(*items => items@));
                    assert(decreases_to!(items@ => items@[i as int]));
                }
                let x = copy_value(&items[i]);
                proof {
                    lemma_view_items_push(out@, x);
                    lemma_view_items_push(items@.subrange(0, i as int), items@[i as int]);
                    assert(items@.subrange(0, i + 1) =~= items@.subrange(0, i as int).push(
                        items@[i as int],
                    ));
                }
                out.push(x);
                i = i + 1;
            }
            assert(items@.subrange(0, items.len() as int) =~= items@);
            Value::Array(out)
        },
        Value::Object(fields) => {
            let mut out: Vec<(String, Value)> = Vec::new();
            let mut i: usize = 0;
            while i < fields.len()
                invariant
                    0 <= i <= fields.len(),
                    *v == Value::Object(*fields),
                    view_fields(out@) == view_fields(fields@.subrange(0, i as int)),
                decreases fields.len() - i,
            {
                proof {
                    assert(decreases_to!(*v => (*v)->Object_0));
                    assert(decreases_to!(*fields => fields@));
                    assert(decreases_to!(fields@ => fields@[i as int]));
                    assert(decreases_to!(fields@[i as int] => fields@[i as int].1));
                }
                let x = copy_value(&fields[i].1);
                let k = fields[i].0.clone();
                proof {
                    lemma_view_fields_push(out@, (k, x));
                    lemma_view_fields_push(fields@.subrange(0, i as int), fields@[i as int]);
                    assert(fields@.subrange(0, i + 1) =~= fields@.subrange(0, i as int).push(
                        fields@[i as int],
                    ));
                }
                out.push((k, x));
                i = i + 1;
            }
            assert(fields@.subrange(0, fields.len() as int) =~= fields@);
            Value::Object(out)
        },
    }
}

impl Clone for Value {
    /// A copy with the same model.
    fn clone(&self) -> (r: Self)
        ensures
            r@ == self@,
    {
        copy_value(self)
    }
}

} // verus!
