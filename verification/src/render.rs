//! The compact JSON text of a value, written the way `serde_json` writes it,
//! and the law that reading such a text gives the value back.

use vstd::prelude::*;
use crate::rjson::{
    hex4_value, hex_value, is_digit, is_float_lexeme, is_hex4, is_hex_digit, is_number_char,
    is_ws, lemma_view_fields_index, lemma_view_items_index, literal_mismatch, number_end, peek_at,
    push_code, simple_escape, skip_ws, spec_elements, spec_hex4, spec_literal, spec_members,
    spec_parse, spec_string, spec_string_body, spec_value, view_fields, view_items, JsonError, JsonValue,
    Literal, Value,
};
use crate::text::is_scalar_value;

verus! {

/// The hexadecimal digit (lower case) for `n` in `0..16`.
pub open spec fn hex_nibble(n: int) -> char {
    seq!['0', '1', '2', '3', '4', '5', '6', '7', '8', '9', 'a', 'b', 'c', 'd', 'e', 'f'][n]
}

/// How one character of a string is written: quote, backslash and control
/// characters escaped (the short forms where JSON has one, `\u00XX` otherwise),
/// everything else as itself.
pub open spec fn escape_char(c: char) -> Seq<char> {
    if c == '"' {
        seq!['\\', '"']
    } else if c == '\\' {
        seq!['\\', '\\']
    } else if c == '\n' {
        seq!['\\', 'n']
    } else if c == '\t' {
        seq!['\\', 't']
    } else if c == '\r' {
        seq!['\\', 'r']
    } else if c == '\u{8}' {
        seq!['\\', 'b']
    } else if c == '\u{c}' {
        seq!['\\', 'f']
    } else if (c as u32) < 0x20 {
        seq!['\\', 'u', '0', '0', hex_nibble((c as u32 / 16) as int), hex_nibble((c as u32 % 16) as int)]
    } else {
        seq![c]
    }
}

pub open spec fn escape_text(t: Seq<char>) -> Seq<char>
    decreases t.len(),
{
    if t.len() == 0 {
        Seq::empty()
    } else {
        escape_char(t[0]) + escape_text(t.subrange(1, t.len() as int))
    }
}

pub open spec fn render_string(t: Seq<char>) -> Seq<char> {
    seq!['"'] + escape_text(t) + seq!['"']
}

pub open spec fn render_value(v: JsonValue) -> Seq<char>
    decreases v,
{
    match v {
        JsonValue::Null => seq!['n', 'u', 'l', 'l'],
        JsonValue::Bool(b) => if b {
            seq!['t', 'r', 'u', 'e']
        } else {
            seq!['f', 'a', 'l', 's', 'e']
        },
        JsonValue::Number(b) => b,
        JsonValue::Str(t) => render_string(t),
        JsonValue::Array(items) => seq!['['] + render_items(items) + seq![']'],
        JsonValue::Object(fields) => seq!['{'] + render_fields(fields) + seq!['}'],
    }
}

/// The elements, separated by commas.
pub open spec fn render_items(items: Seq<JsonValue>) -> Seq<char>
    decreases items,
{
    if items.len() == 0 {
        Seq::empty()
    } else if items.len() == 1 {
        render_value(items[0])
    } else {
        render_value(items[0]) + seq![','] + render_items(items.subrange(1, items.len() as int))
    }
}

/// The members `"key":value`, separated by commas.
pub open spec fn render_fields(fields: Seq<(Seq<char>, JsonValue)>) -> Seq<char>
    decreases fields,
{
    if fields.len() == 0 {
        Seq::empty()
    } else if fields.len() == 1 {
        render_string(fields[0].0) + seq![':'] + render_value(fields[0].1)
    } else {
        render_string(fields[0].0) + seq![':'] + render_value(fields[0].1) + seq![',']
            + render_fields(fields.subrange(1, fields.len() as int))
    }
}

/// A number text as JSON writers produce it: it starts with a digit or `-`,
/// is made of number characters only, and the float grammar accepts it.
pub open spec fn is_number_text(b: Seq<char>) -> bool {
    &&& b.len() > 0
    &&& is_digit(b[0]) || b[0] == '-'
    &&& forall|i: int| 0 <= i < b.len() ==> is_number_char(#[trigger] b[i])
    &&& is_float_lexeme(b)
}

/// Every number inside the value is a number text.
pub open spec fn well_formed(v: JsonValue) -> bool
    decreases v,
{
    match v {
        JsonValue::Number(b) => is_number_text(b),
        JsonValue::Array(items) => well_formed_items(items),
        JsonValue::Object(fields) => well_formed_fields(fields),
        _ => true,
    }
}

pub open spec fn well_formed_items(items: Seq<JsonValue>) -> bool
    decreases items,
{
    items.len() > 0 ==> well_formed(items[0]) && well_formed_items(
        items.subrange(1, items.len() as int),
    )
}

pub open spec fn well_formed_fields(fields: Seq<(Seq<char>, JsonValue)>) -> bool
    decreases fields,
{
    fields.len() > 0 ==> well_formed(fields[0].1) && well_formed_fields(
        fields.subrange(1, fields.len() as int),
    )
}

// ---------------------------------------------------------------------------
// Proof of the law

/// `t` stands in `s` from position `i` on.
pub open spec fn occurs_at(s: Seq<char>, i: int, t: Seq<char>) -> bool {
    0 <= i && i + t.len() <= s.len() && s.subrange(i, i + t.len()) == t
}

/// No number character stands at `p` (the end of the text counts as none).
pub open spec fn ends_number(s: Seq<char>, p: int) -> bool {
    p >= s.len() || !is_number_char(s[p])
}

proof fn lemma_occurs_split(s: Seq<char>, i: int, a: Seq<char>, b: Seq<char>)
    requires
        occurs_at(s, i, a + b),
    ensures
        occurs_at(s, i, a),
        occurs_at(s, i + a.len(), b),
{
    let whole = s.subrange(i, i + (a + b).len());
    assert forall|k: int| 0 <= k < a.len() implies #[trigger] s.subrange(i, i + a.len())[k]
        == a[k] by {
        assert(whole[k] == s[i + k]);
        assert(whole[k] == (a + b)[k]);
    }
    assert(s.subrange(i, i + a.len()) =~= a);
    assert forall|k: int| 0 <= k < b.len() implies #[trigger] s.subrange(
        i + a.len(),
        i + a.len() + b.len(),
    )[k] == b[k] by {
        assert(whole[a.len() + k] == s[i + a.len() + k]);
        assert(whole[a.len() + k] == (a + b)[a.len() + k]);
    }
    assert(s.subrange(i + a.len(), i + a.len() + b.len()) =~= b);
}

proof fn lemma_occurs_char(s: Seq<char>, i: int, c: char)
    requires
        occurs_at(s, i, seq![c]),
    ensures
        0 <= i < s.len(),
        s[i] == c,
{
    assert(s.subrange(i, i + 1)[0] == s[i]);
}

proof fn lemma_occurs_index(s: Seq<char>, i: int, t: Seq<char>, k: int)
    requires
        occurs_at(s, i, t),
        0 <= k < t.len(),
    ensures
        s[i + k] == t[k],
{
    assert(s.subrange(i, i + t.len())[k] == s[i + k]);
}

proof fn lemma_hex_nibble(n: int)
    requires
        0 <= n < 16,
    ensures
        is_hex_digit(hex_nibble(n)),
        hex_value(hex_nibble(n)) == n,
{
    if n == 0 {
    } else if n == 1 {
    } else if n == 2 {
    } else if n == 3 {
    } else if n == 4 {
    } else if n == 5 {
    } else if n == 6 {
    } else if n == 7 {
    } else if n == 8 {
    } else if n == 9 {
    } else if n == 10 {
    } else if n == 11 {
    } else if n == 12 {
    } else if n == 13 {
    } else if n == 14 {
    } else {
    }
}

/// Reading the escaped text of `t` and the closing quote gives `t` back.
proof fn lemma_string_body(s: Seq<char>, k: int, t: Seq<char>, out: Seq<char>)
    requires
        occurs_at(s, k, escape_text(t) + seq!['"']),
    ensures
        spec_string_body(s, k, out) == Ok::<(Seq<char>, int), (JsonError, int)>(
            (out + t, k + escape_text(t).len() + 1),
        ),
    decreases t.len(),
{
    if t.len() == 0 {
        assert(escape_text(t) + seq!['"'] =~= seq!['"']);
        lemma_occurs_char(s, k, '"');
        assert(out + t =~= out);
    } else {
        let c = t[0];
        let rest = t.subrange(1, t.len() as int);
        let e = escape_char(c);
        assert(escape_text(t) + seq!['"'] =~= e + (escape_text(rest) + seq!['"']));
        lemma_occurs_split(s, k, e, escape_text(rest) + seq!['"']);
        lemma_string_body(s, k + e.len(), rest, out.push(c));
        assert(out.push(c) + rest =~= out + t);
        lemma_occurs_index(s, k, e, 0);
        if e.len() > 1 {
            lemma_occurs_index(s, k, e, 1);
        }
        if c == '"' || c == '\\' || c == '\n' || c == '\t' || c == '\r' || c == '\u{8}' || c
            == '\u{c}' {
            assert(simple_escape(s[k + 1]) == Some(c));
        } else if (c as u32) < 0x20 {
            let n = (c as u32) as int;
            assert(0 <= n < 32);
            assert(0 <= n / 16 < 16);
            lemma_occurs_index(s, k, e, 2);
            lemma_occurs_index(s, k, e, 3);
            lemma_occurs_index(s, k, e, 4);
            lemma_occurs_index(s, k, e, 5);
            lemma_hex_nibble(n / 16);
            lemma_hex_nibble(n % 16);
            let h = s.subrange(k + 2, k + 6);
            assert(h =~= seq!['0', '0', hex_nibble(n / 16), hex_nibble(n % 16)]);
            assert(is_hex4(h));
            assert(hex4_value(h) == n);
            assert(spec_hex4(s, k + 2) == Ok::<(int, int), (JsonError, int)>((n, k + 6)));
            assert(is_scalar_value(n));
            vstd::utf8::char_u32_cast(c, c as u32);
            assert(push_code(out, n) == out.push(c));
        } else {
        }
    }
}

proof fn lemma_literal(s: Seq<char>, i: int, t: Seq<char>, k: int)
    requires
        occurs_at(s, i, t),
        0 <= k <= t.len(),
    ensures
        literal_mismatch(s, i, t, k) is None,
    decreases t.len() - k,
{
    if k < t.len() {
        lemma_occurs_index(s, i, t, k);
        lemma_literal(s, i, t, k + 1);
    }
}

proof fn lemma_literal_value(s: Seq<char>, i: int, lit: Literal, v: JsonValue)
    requires
        occurs_at(s, i, lit.spec_text()),
    ensures
        spec_literal(s, i, lit, v) == Ok::<(JsonValue, int), JsonError>(
            (v, i + lit.spec_text().len()),
        ),
{
    lemma_literal(s, i, lit.spec_text(), 0);
}

proof fn lemma_number_end(s: Seq<char>, j: int, n: int)
    requires
        0 <= j,
        0 <= n,
        j + n <= s.len(),
        forall|k: int| j <= k < j + n ==> is_number_char(#[trigger] s[k]),
        ends_number(s, j + n),
    ensures
        number_end(s, j) == j + n,
    decreases n,
{
    if n > 0 {
        lemma_number_end(s, j + 1, n - 1);
    }
}

/// The first character of a written value: never whitespace, never a closing
/// bracket or a separator.
proof fn lemma_first_char(v: JsonValue)
    requires
        well_formed(v),
    ensures
        render_value(v).len() > 0,
        !is_ws(render_value(v)[0]),
        render_value(v)[0] != ']' && render_value(v)[0] != '}' && render_value(v)[0] != ',',
{
    match v {
        JsonValue::Array(items) => {
            assert(render_value(v)[0] == '[');
        },
        JsonValue::Object(fields) => {
            assert(render_value(v)[0] == '{');
        },
        JsonValue::Str(t) => {
            assert(render_value(v)[0] == '"');
        },
        _ => {
        },
    }
}

proof fn lemma_items_first(items: Seq<JsonValue>)
    requires
        items.len() > 0,
        well_formed_items(items),
    ensures
        well_formed(items[0]),
        render_items(items).len() > 0,
        render_items(items)[0] == render_value(items[0])[0],
{
    lemma_first_char(items[0]);
}

proof fn lemma_dispatch_null(s: Seq<char>, i: int)
    requires
        0 <= i < s.len(),
        s[i] == 'n',
        skip_ws(s, i) == i,
    ensures
        spec_value(s, i) == spec_literal(s, i, Literal::Null, JsonValue::Null),
{
    let c = s[i];
    assert(c != '"' && c != '{' && c != '[' && c != 't' && c != 'f');
}

#[verifier::spinoff_prover]
#[verifier::rlimit(40)]
proof fn lemma_value(s: Seq<char>, i: int, v: JsonValue)
    requires
        well_formed(v),
        occurs_at(s, i, render_value(v)),
        v is Number ==> ends_number(s, i + render_value(v).len()),
    ensures
        spec_value(s, i) == Ok::<(JsonValue, int), JsonError>((v, i + render_value(v).len())),
    decreases v,
{
    let r = render_value(v);
    lemma_first_char(v);
    lemma_occurs_index(s, i, r, 0);
    assert(skip_ws(s, i) == i);
    match v {
        JsonValue::Null => {
            assert(r == Literal::Null.spec_text());
            lemma_literal_value(s, i, Literal::Null, v);
            assert(s[i] == 'n');
            assert(peek_at(s, skip_ws(s, i)) == Some('n'));
            assert(spec_literal(s, i, Literal::Null, JsonValue::Null) == Ok::<(JsonValue, int), JsonError>((v, i + 4)));
            assert(r.len() == 4);
            lemma_dispatch_null(s, i);
            assert(spec_value(s, i) == Ok::<(JsonValue, int), JsonError>((v, i + r.len())));
        },
        JsonValue::Bool(b) => {
            if b {
                assert(r == Literal::True.spec_text());
                lemma_literal_value(s, i, Literal::True, v);
                assert(s[i] == 't');
            } else {
                assert(r == Literal::False.spec_text());
                lemma_literal_value(s, i, Literal::False, v);
                assert(s[i] == 'f');
            }
        },
        JsonValue::Number(b) => {
            assert forall|k: int| i <= k < i + b.len() implies is_number_char(#[trigger] s[k]) by {
                lemma_occurs_index(s, i, b, k - i);
            }
            lemma_number_end(s, i, b.len() as int);
            assert(s.subrange(i, number_end(s, i)) == b);
        },
        JsonValue::Str(t) => {
            assert(r =~= seq!['"'] + (escape_text(t) + seq!['"']));
            lemma_occurs_split(s, i, seq!['"'], escape_text(t) + seq!['"']);
            lemma_string_body(s, i + 1, t, Seq::empty());
            assert(Seq::<char>::empty() + t =~= t);
        },
        JsonValue::Array(items) => {
            let ri = render_items(items);
            assert(r =~= seq!['['] + (ri + seq![']']));
            lemma_occurs_split(s, i, seq!['['], ri + seq![']']);
            if items.len() == 0 {
                assert(ri + seq![']'] =~= seq![']']);
                lemma_occurs_char(s, i + 1, ']');
            } else {
                lemma_items_first(items);
                lemma_occurs_index(s, i + 1, ri + seq![']'], 0);
                assert(skip_ws(s, i + 1) == i + 1);
                lemma_items(s, i + 1, items, Seq::empty());
                assert(Seq::<JsonValue>::empty() + items =~= items);
            }
        },
        JsonValue::Object(fields) => {
            let rf = render_fields(fields);
            assert(r =~= seq!['{'] + (rf + seq!['}']));
            lemma_occurs_split(s, i, seq!['{'], rf + seq!['}']);
            if fields.len() == 0 {
                assert(rf + seq!['}'] =~= seq!['}']);
                lemma_occurs_char(s, i + 1, '}');
            } else {
                lemma_fields_first(fields);
                lemma_occurs_index(s, i + 1, rf + seq!['}'], 0);
                assert(skip_ws(s, i + 1) == i + 1);
                lemma_fields(s, i + 1, fields, Seq::empty());
                assert(Seq::<(Seq<char>, JsonValue)>::empty() + fields =~= fields);
            }
        },
    }
}

proof fn lemma_items(s: Seq<char>, k: int, items: Seq<JsonValue>, acc: Seq<JsonValue>)
    requires
        items.len() > 0,
        well_formed_items(items),
        occurs_at(s, k, render_items(items) + seq![']']),
    ensures
        spec_elements(s, k, acc) == Ok::<(JsonValue, int), JsonError>(
            (JsonValue::Array(acc + items), k + render_items(items).len() + 1),
        ),
    decreases items,
{
    let v0 = items[0];
    let r0 = render_value(v0);
    lemma_first_char(v0);
    if items.len() == 1 {
        assert(render_items(items) + seq![']'] =~= r0 + seq![']']);
        lemma_occurs_split(s, k, r0, seq![']']);
        lemma_occurs_char(s, k + r0.len(), ']');
        lemma_value(s, k, v0);
        assert(acc.push(v0) =~= acc + items);
    } else {
        let rest = items.subrange(1, items.len() as int);
        let rr = render_items(rest);
        assert(render_items(items) + seq![']'] =~= r0 + (seq![','] + (rr + seq![']'])));
        lemma_occurs_split(s, k, r0, seq![','] + (rr + seq![']']));
        lemma_occurs_split(s, k + r0.len(), seq![','], rr + seq![']']);
        lemma_occurs_char(s, k + r0.len(), ',');
        lemma_value(s, k, v0);
        lemma_items(s, k + r0.len() + 1, rest, acc.push(v0));
        assert(acc.push(v0) + rest =~= acc + items);
    }
}

proof fn lemma_fields_first(fields: Seq<(Seq<char>, JsonValue)>)
    requires
        fields.len() > 0,
    ensures
        render_fields(fields).len() > 0,
        render_fields(fields)[0] == '"',
{
}

proof fn lemma_fields(
    s: Seq<char>,
    k: int,
    fields: Seq<(Seq<char>, JsonValue)>,
    acc: Seq<(Seq<char>, JsonValue)>,
)
    requires
        fields.len() > 0,
        well_formed_fields(fields),
        occurs_at(s, k, render_fields(fields) + seq!['}']),
    ensures
        spec_members(s, k, acc) == Ok::<(JsonValue, int), JsonError>(
            (JsonValue::Object(acc + fields), k + render_fields(fields).len() + 1),
        ),
    decreases fields,
{
    let key = fields[0].0;
    let v0 = fields[0].1;
    let rk = render_string(key);
    let r0 = render_value(v0);
    lemma_first_char(v0);
    let tail: Seq<char> = if fields.len() == 1 {
        seq!['}']
    } else {
        seq![','] + (render_fields(fields.subrange(1, fields.len() as int)) + seq!['}'])
    };
    assert(render_fields(fields) + seq!['}'] =~= rk + (seq![':'] + (r0 + tail)));
    lemma_occurs_split(s, k, rk, seq![':'] + (r0 + tail));
    lemma_occurs_split(s, k + rk.len(), seq![':'], r0 + tail);
    lemma_occurs_split(s, k + rk.len() + 1, r0, tail);
    lemma_occurs_char(s, k + rk.len(), ':');
    // the key
    assert(rk =~= seq!['"'] + (escape_text(key) + seq!['"']));
    lemma_occurs_split(s, k, seq!['"'], escape_text(key) + seq!['"']);
    lemma_occurs_char(s, k, '"');
    assert(skip_ws(s, k) == k);
    lemma_string_body(s, k + 1, key, Seq::empty());
    assert(Seq::<char>::empty() + key =~= key);
    assert(skip_ws(s, k + rk.len()) == k + rk.len());
    // the value
    let p = k + rk.len() + 1 + r0.len();
    lemma_occurs_index(s, p, tail, 0);
    lemma_value(s, k + rk.len() + 1, v0);
    assert(skip_ws(s, p) == p);
    if fields.len() == 1 {
        assert(acc.push((key, v0)) =~= acc + fields);
    } else {
        let rest = fields.subrange(1, fields.len() as int);
        lemma_occurs_split(s, p, seq![','], render_fields(rest) + seq!['}']);
        lemma_fields(s, p + 1, rest, acc.push((key, v0)));
        assert(acc.push((key, v0)) + rest =~= acc + fields);
    }
}

/// The text of a value, written as `serde_json` writes it, reads back as
/// that value; whatever follows it is not read (a number must not be followed
/// by a number character, which would run into it).
pub proof fn law_written_value_reads_back(v: JsonValue, rest: Seq<char>)
    requires
        well_formed(v),
        v is Number ==> (rest.len() == 0 || !is_number_char(rest[0])),
    ensures
        spec_parse(render_value(v) + rest) == Ok::<JsonValue, JsonError>(v),
{
    let r = render_value(v);
    let s = r + rest;
    assert(s.subrange(0, r.len() as int) =~= r);
    lemma_first_char(v);
    assert(s[0] == r[0]);
    assert(skip_ws(s, 0) == 0);
    if v is Number && rest.len() > 0 {
        assert(s[r.len() as int] == rest[0]);
    }
    lemma_value(s, 0, v);
}

// ---------------------------------------------------------------------------
// Writing

/// The hexadecimal digit (lower case) for `n < 16`.
fn hex_nibble_char(n: u32) -> (c: char)
    requires
        n < 16,
    ensures
        c == hex_nibble(n as int),
{
    match n {
        0 => '0',
        1 => '1',
        2 => '2',
        3 => '3',
        4 => '4',
        5 => '5',
        6 => '6',
        7 => '7',
        8 => '8',
        9 => '9',
        10 => 'a',
        11 => 'b',
        12 => 'c',
        13 => 'd',
        14 => 'e',
        _ => 'f',
    }
}

proof fn lemma_escape_text_push(t: Seq<char>, c: char)
    ensures
        escape_text(t.push(c)) == escape_text(t) + escape_char(c),
    decreases t.len(),
{
    if t.len() == 0 {
        assert(t.push(c).subrange(1, 1) =~= Seq::<char>::empty());
        assert(escape_text(t.push(c)) =~= escape_char(c) + escape_text(Seq::<char>::empty()));
        assert(escape_text(Seq::<char>::empty()) =~= Seq::<char>::empty());
        assert(escape_text(t) =~= Seq::<char>::empty());
        assert(escape_char(c) + Seq::<char>::empty() =~= escape_char(c));
        assert(Seq::<char>::empty() + escape_char(c) =~= escape_char(c));
    } else {
        let rest = t.subrange(1, t.len() as int);
        lemma_escape_text_push(rest, c);
        assert(t.push(c).subrange(1, t.len() + 1 as int) =~= rest.push(c));
        assert(t.push(c)[0] == t[0]);
        assert(escape_char(t[0]) + (escape_text(rest) + escape_char(c)) =~= (escape_char(t[0])
            + escape_text(rest)) + escape_char(c));
    }
}

/// Escapes `s` for use inside a JSON string literal, as `serde_json` does:
/// `"` and `\` with a backslash, control characters in their short form or as
/// `\u00XX`, everything else unchanged.
pub fn json_escape(s: &str) -> (r: String)
    ensures
        r@ == escape_text(s@),
{
    let cs = crate::text::chars_of(s);
    let mut out = String::new();
    let mut i: usize = 0;
    while i < cs.len()
        invariant
            0 <= i <= cs.len(),
            cs@ == s@,
            out@ == escape_text(cs@.subrange(0, i as int)),
        decreases cs.len() - i,
    {
        let c = cs[i];
        let ghost before = out@;
        if c == '"' {
            out.push('\\');
            out.push('"');
        } else if c == '\\' {
            out.push('\\');
            out.push('\\');
        } else if c == '\n' {
            out.push('\\');
            out.push('n');
        } else if c == '\t' {
            out.push('\\');
            out.push('t');
        } else if c == '\r' {
            out.push('\\');
            out.push('r');
        } else if c == '\u{8}' {
            out.push('\\');
            out.push('b');
        } else if c == '\u{c}' {
            out.push('\\');
            out.push('f');
        } else if (c as u32) < 0x20 {
            let n = c as u32;
            out.push('\\');
            out.push('u');
            out.push('0');
            out.push('0');
            out.push(hex_nibble_char(n / 16));
            out.push(hex_nibble_char(n % 16));
        } else {
            out.push(c);
        }
        proof {
            assert(out@ =~= before + escape_char(c));
            lemma_escape_text_push(cs@.subrange(0, i as int), c);
            assert(cs@.subrange(0, i + 1) =~= cs@.subrange(0, i as int).push(c));
        }
        i = i + 1;
    }
    assert(cs@.subrange(0, cs.len() as int) =~= cs@);
    out
}

proof fn lemma_render_items_push(items: Seq<JsonValue>, x: JsonValue)
    ensures
        render_items(items.push(x)) == if items.len() == 0 {
            render_value(x)
        } else {
            render_items(items) + seq![','] + render_value(x)
        },
    decreases items.len(),
{
    let s = items.push(x);
    if items.len() == 0 {
        assert(s.len() == 1);
    } else if items.len() == 1 {
        assert(s.subrange(1, 2) =~= seq![x]);
        assert(render_items(seq![x]) == render_value(x));
    } else {
        let rest = items.subrange(1, items.len() as int);
        lemma_render_items_push(rest, x);
        assert(s.subrange(1, s.len() as int) =~= rest.push(x));
        assert(render_items(items) + seq![','] + render_value(x) =~= render_value(items[0])
            + seq![','] + (render_items(rest) + seq![','] + render_value(x)));
    }
}

proof fn lemma_render_fields_push(fields: Seq<(Seq<char>, JsonValue)>, x: (Seq<char>, JsonValue))
    ensures
        render_fields(fields.push(x)) == if fields.len() == 0 {
            render_string(x.0) + seq![':'] + render_value(x.1)
        } else {
            render_fields(fields) + seq![','] + (render_string(x.0) + seq![':'] + render_value(
                x.1,
            ))
        },
    decreases fields.len(),
{
    let s = fields.push(x);
    if fields.len() == 0 {
        assert(s.len() == 1);
    } else if fields.len() == 1 {
        assert(s.subrange(1, 2) =~= seq![x]);
        assert(render_fields(seq![x]) == render_string(x.0) + seq![':'] + render_value(x.1));
    } else {
        let rest = fields.subrange(1, fields.len() as int);
        lemma_render_fields_push(rest, x);
        assert(s.subrange(1, s.len() as int) =~= rest.push(x));
        let m0 = render_string(fields[0].0) + seq![':'] + render_value(fields[0].1);
        let mx = render_string(x.0) + seq![':'] + render_value(x.1);
        assert(render_fields(fields) + seq![','] + mx =~= m0 + seq![','] + (render_fields(rest)
            + seq![','] + mx));
    }
}

fn write_string(out: &mut String, t: &str)
    ensures
        final(out)@ == old(out)@ + render_string(t@),
{
    out.push('"');
    out.append(json_escape(t).as_str());
    out.push('"');
    assert(final(out)@ =~= old(out)@ + render_string(t@));
}

fn write_value(out: &mut String, v: &Value)
    ensures
        final(out)@ == old(out)@ + render_value(v@),
    decreases v,
{
    let ghost start = out@;
    match v {
        Value::Null => {
            out.push('n');
            out.push('u');
            out.push('l');
            out.push('l');
            assert(out@ =~= start + render_value(v@));
        },
        Value::Bool(b) => {
            if *b {
                out.push('t');
                out.push('r');
                out.push('u');
                out.push('e');
            } else {
                out.push('f');
                out.push('a');
                out.push('l');
                out.push('s');
                out.push('e');
            }
            assert(out@ =~= start + render_value(v@));
        },
        Value::Number(t) => {
            out.append(t.as_str());
        },
        Value::Str(t) => {
            write_string(out, t.as_str());
        },
        Value::Array(items) => {
            let ghost vs = view_items(items@);
            proof { lemma_view_items_index(items@); }
            out.push('[');
            let mut i: usize = 0;
            while i < items.len()
                invariant
                    0 <= i <= items.len(),
                    vs == view_items(items@),
                    *v == Value::Array(*items),
                    vs.len() == items.len(),
                    forall|j: int| 0 <= j < items.len() ==> #[trigger] vs[j] == items@[j]@,
                    out@ == start + seq!['['] + render_items(vs.subrange(0, i as int)),
                decreases items.len() - i,
            {
                let ghost before = out@;
                if i > 0 {
                    out.push(',');
                }
                proof {
                    assert(decreases_to!(*v => (*v)->Array_0));
                    assert(decreases_to!(*items => items@));
                    assert(decreases_to!(items@ => items@[i as int]));
                    assert(decreases_to!(*v => items@[i as int]));
                }
                write_value(out, &items[i]);
                proof {
                    lemma_render_items_push(vs.subrange(0, i as int), vs[i as int]);
                    assert(vs.subrange(0, i + 1) =~= vs.subrange(0, i as int).push(vs[i as int]));
                    if i == 0 {
                        assert(render_items(vs.subrange(0, 0)) =~= Seq::<char>::empty());
                    }
                }
                i = i + 1;
            }
            out.push(']');
            assert(vs.subrange(0, items.len() as int) =~= vs);
            assert(out@ =~= start + render_value(v@));
        },
        Value::Object(fields) => {
            let ghost fs = view_fields(fields@);
            proof { lemma_view_fields_index(fields@); }
            out.push('{');
            let mut i: usize = 0;
            while i < fields.len()
                invariant
                    0 <= i <= fields.len(),
                    fs == view_fields(fields@),
                    *v == Value::Object(*fields),
                    fs.len() == fields.len(),
                    forall|j: int|
                        0 <= j < fields.len() ==> #[trigger] fs[j] == (
                            fields@[j].0@,
                            fields@[j].1@,
                        ),
                    out@ == start + seq!['{'] + render_fields(fs.subrange(0, i as int)),
                decreases fields.len() - i,
            {
                if i > 0 {
                    out.push(',');
                }
                let ghost mid = out@;
                write_string(out, fields[i].0.as_str());
                out.push(':');
                proof {
                    assert(decreases_to!(*v => (*v)->Object_0));
                    assert(decreases_to!(*fields => fields@));
                    assert(decreases_to!(fields@ => fields@[i as int]));
                    assert(decreases_to!(fields@[i as int] => fields@[i as int].1));
                    assert(decreases_to!(*v => fields@[i as int].1));
                }
                write_value(out, &fields[i].1);
                proof {
                    lemma_render_fields_push(fs.subrange(0, i as int), fs[i as int]);
                    assert(fs.subrange(0, i + 1) =~= fs.subrange(0, i as int).push(fs[i as int]));
                    if i == 0 {
                        assert(render_fields(fs.subrange(0, 0)) =~= Seq::<char>::empty());
                    }
                }
                i = i + 1;
            }
            out.push('}');
            assert(fs.subrange(0, fields.len() as int) =~= fs);
            assert(out@ =~= start + render_value(v@));
        },
    }
}

/// The compact JSON text of `v`, written as `serde_json` writes it.
pub fn to_json(v: &Value) -> (r: String)
    ensures
        r@ == render_value(v@),
{
    let mut out = String::new();
    write_value(&mut out, v);
    assert(out@ =~= render_value(v@));
    out
}

/// A string written as `serde_json` writes it reads back as that string,
/// whatever text follows it, and reading stops right after its closing quote.
pub proof fn law_written_string_reads_back(t: Seq<char>, rest: Seq<char>)
    ensures
        spec_string(render_string(t) + rest, 0) == Ok::<(Seq<char>, int), (JsonError, int)>(
            (t, render_string(t).len() as int),
        ),
{
    let r = render_string(t);
    let s = r + rest;
    assert(s.subrange(0, r.len() as int) =~= r);
    assert(r =~= seq!['"'] + (escape_text(t) + seq!['"']));
    lemma_occurs_split(s, 0, seq!['"'], escape_text(t) + seq!['"']);
    lemma_occurs_char(s, 0, '"');
    lemma_string_body(s, 1, t, Seq::empty());
    assert(Seq::<char>::empty() + t =~= t);
}

} // verus!
