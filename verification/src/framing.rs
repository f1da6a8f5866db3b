//! Reading depends only on the characters read: a value read from one text is
//! read the same from any text that holds the same characters at the same
//! places (shifted alike), and whitespace around a text changes nothing of
//! what parsing it gives, not even whether it stops at a low surrogate below
//! `DC00` (the one text `parse` does not take).

use vstd::prelude::*;
use crate::rjson::{
    is_float_lexeme, is_number_char, is_ws, lemma_skip_ws, literal_mismatch, number_end, peek_at,
    push_code, simple_escape, skip_ws, spec_array, spec_elements, spec_hex4, spec_literal,
    spec_members, spec_number, spec_object, spec_parse, spec_string, spec_string_body, spec_value,
    JsonError, JsonValue, Literal,
};
use crate::render::ends_number;

verus! {

/// `s2` holds the characters of `s` from `i` up to `p`, each `d` places further on.
pub open spec fn agree(s: Seq<char>, s2: Seq<char>, d: int, i: int, p: int) -> bool {
    &&& 0 <= i <= p <= s.len()
    &&& 0 <= i + d
    &&& p + d <= s2.len()
    &&& forall|k: int| i <= k < p ==> s2[k + d] == #[trigger] s[k]
}

/// What follows position `p` cannot extend a number differently in the two texts.
pub open spec fn followed_alike(s: Seq<char>, s2: Seq<char>, d: int, p: int) -> bool {
    ends_number(s2, p + d) || (p < s.len() && p + d < s2.len() && s2[p + d] == s[p])
}

proof fn lemma_frame_skip_ws(s: Seq<char>, s2: Seq<char>, d: int, i: int, p: int)
    requires
        agree(s, s2, d, i, p),
        skip_ws(s, i) < p,
    ensures
        skip_ws(s2, i + d) == skip_ws(s, i) + d,
    decreases s.len() - i,
{
    lemma_skip_ws(s, i);
    assert(s2[i + d] == s[i]);
    if is_ws(s[i]) {
        lemma_frame_skip_ws(s, s2, d, i + 1, p);
    }
}

proof fn lemma_frame_hex4(s: Seq<char>, s2: Seq<char>, d: int, i: int, p: int, v: int, j: int)
    requires
        agree(s, s2, d, i, p),
        spec_hex4(s, i) == Ok::<(int, int), (JsonError, int)>((v, j)),
        j <= p,
    ensures
        spec_hex4(s2, i + d) == Ok::<(int, int), (JsonError, int)>((v, j + d)),
{
    assert(s2.subrange(i + d, i + d + 4) =~= s.subrange(i, i + 4)) by {
        assert forall|k: int| 0 <= k < 4 implies #[trigger] s2.subrange(i + d, i + d + 4)[k]
            == s.subrange(i, i + 4)[k] by {
            assert(s2[i + k + d] == s[i + k]);
        }
    }
}

/// A string body that reads successfully ends at a closing quote after `k`.
#[verifier::spinoff_prover]
proof fn lemma_body_bounds(s: Seq<char>, k: int, out: Seq<char>, t: Seq<char>, q: int)
    requires
        0 <= k,
        spec_string_body(s, k, out) == Ok::<(Seq<char>, int), (JsonError, int)>((t, q)),
    ensures
        k < q <= s.len(),
        s[q - 1] == '"',
    decreases s.len() - k,
{
    if k >= s.len() {
    } else if s[k] == '"' {
    } else if s[k] == '\\' {
        let e = s[k + 1];
        match simple_escape(e) {
            Some(c) => {
                lemma_body_bounds(s, k + 2, out.push(c), t, q);
            },
            None => {
                let (code, j) = spec_hex4(s, k + 2)->Ok_0;
                if 0xD800 <= code <= 0xDBFF {
                    if j >= s.len() {
                        lemma_body_bounds(s, j, out, t, q);
                    } else if s[j] != '\\' {
                        lemma_body_bounds(s, j + 1, out, t, q);
                    } else if j + 1 >= s.len() {
                        lemma_body_bounds(s, j + 1, out, t, q);
                    } else if s[j + 1] != 'u' {
                        lemma_body_bounds(s, j + 2, out, t, q);
                    } else {
                        let (low, m) = spec_hex4(s, j + 2)->Ok_0;
                        if low <= 0xDFFF {
                            lemma_body_bounds(
                                s,
                                m,
                                push_code(out, 0x10000 + (code - 0xD800) * 1024 + (low - 0xDC00)),
                                t,
                                q,
                            );
                        } else {
                            lemma_body_bounds(s, m, push_code(out, low), t, q);
                        }
                    }
                } else {
                    lemma_body_bounds(s, j, push_code(out, code), t, q);
                }
            },
        }
    } else {
        lemma_body_bounds(s, k + 1, out.push(s[k]), t, q);
    }
}

#[verifier::spinoff_prover]
proof fn lemma_frame_body(
    s: Seq<char>,
    s2: Seq<char>,
    d: int,
    k: int,
    out: Seq<char>,
    t: Seq<char>,
    q: int,
    p: int,
)
    requires
        spec_string_body(s, k, out) == Ok::<(Seq<char>, int), (JsonError, int)>((t, q)),
        agree(s, s2, d, k, p),
        q <= p,
    ensures
        spec_string_body(s2, k + d, out) == Ok::<(Seq<char>, int), (JsonError, int)>((t, q + d)),
    decreases s.len() - k,
{
    lemma_body_bounds(s, k, out, t, q);
    assert(s2[k + d] == s[k]);
    if s[k] == '"' {
    } else if s[k] == '\\' {
        assert(s2[k + 1 + d] == s[k + 1]);
        let e = s[k + 1];
        match simple_escape(e) {
            Some(c) => {
                lemma_frame_body(s, s2, d, k + 2, out.push(c), t, q, p);
            },
            None => {
                let (code, j) = spec_hex4(s, k + 2)->Ok_0;
                lemma_frame_hex4(s, s2, d, k + 2, p, code, j);
                if 0xD800 <= code <= 0xDBFF {
                    if j >= s.len() {
                        lemma_body_bounds(s, j, out, t, q);
                    } else if s[j] != '\\' {
                        lemma_body_bounds(s, j + 1, out, t, q);
                        assert(s2[j + d] == s[j]);
                        lemma_frame_body(s, s2, d, j + 1, out, t, q, p);
                    } else if j + 1 >= s.len() {
                        lemma_body_bounds(s, j + 1, out, t, q);
                    } else if s[j + 1] != 'u' {
                        lemma_body_bounds(s, j + 2, out, t, q);
                        assert(s2[j + d] == s[j]);
                        assert(s2[j + 1 + d] == s[j + 1]);
                        lemma_frame_body(s, s2, d, j + 2, out, t, q, p);
                    } else {
                        assert(s2[j + d] == s[j]);
                        assert(s2[j + 1 + d] == s[j + 1]);
                        let (low, m) = spec_hex4(s, j + 2)->Ok_0;
                        lemma_frame_hex4(s, s2, d, j + 2, p, low, m);
                        if low <= 0xDFFF {
                            let o2 = push_code(out, 0x10000 + (code - 0xD800) * 1024 + (low - 0xDC00));
                            lemma_body_bounds(s, m, o2, t, q);
                            lemma_frame_body(s, s2, d, m, o2, t, q, p);
                        } else {
                            lemma_body_bounds(s, m, push_code(out, low), t, q);
                            lemma_frame_body(s, s2, d, m, push_code(out, low), t, q, p);
                        }
                    }
                } else {
                    lemma_body_bounds(s, j, push_code(out, code), t, q);
                    lemma_frame_body(s, s2, d, j, push_code(out, code), t, q, p);
                }
            },
        }
    } else {
        lemma_body_bounds(s, k + 1, out.push(s[k]), t, q);
        lemma_frame_body(s, s2, d, k + 1, out.push(s[k]), t, q, p);
    }
}

// ---------------------------------------------------------------------------
// Literals and numbers

proof fn lemma_literal_matches(s: Seq<char>, i: int, t: Seq<char>, k: int)
    requires
        0 <= k <= t.len(),
        literal_mismatch(s, i, t, k) is None,
    ensures
        forall|k2: int| k <= k2 < t.len() ==> peek_at(s, i + k2) == Some(#[trigger] t[k2]),
    decreases t.len() - k,
{
    if k < t.len() {
        lemma_literal_matches(s, i, t, k + 1);
    }
}

proof fn lemma_frame_literal(s: Seq<char>, s2: Seq<char>, d: int, i: int, t: Seq<char>, k: int, p: int)
    requires
        0 <= k <= t.len(),
        literal_mismatch(s, i, t, k) is None,
        agree(s, s2, d, i, p),
        i + t.len() <= p,
    ensures
        literal_mismatch(s2, i + d, t, k) is None,
    decreases t.len() - k,
{
    if k < t.len() {
        assert(s2[i + k + d] == s[i + k]);
        lemma_frame_literal(s, s2, d, i, t, k + 1, p);
    }
}

proof fn lemma_number_run(s: Seq<char>, j: int)
    requires
        0 <= j <= s.len(),
    ensures
        j <= number_end(s, j) <= s.len(),
        forall|k: int| j <= k < number_end(s, j) ==> is_number_char(#[trigger] s[k]),
        number_end(s, j) < s.len() ==> !is_number_char(s[number_end(s, j)]),
    decreases s.len() - j,
{
    if j < s.len() && is_number_char(s[j]) {
        lemma_number_run(s, j + 1);
    }
}

proof fn lemma_frame_number_end(s: Seq<char>, s2: Seq<char>, d: int, j: int, p: int)
    requires
        agree(s, s2, d, j, p),
        number_end(s, j) <= p,
        followed_alike(s, s2, d, number_end(s, j)),
    ensures
        number_end(s2, j + d) == number_end(s, j) + d,
    decreases s.len() - j,
{
    lemma_number_run(s, j);
    let e = number_end(s, j);
    if j < e {
        assert(s2[j + d] == s[j]);
        lemma_frame_number_end(s, s2, d, j + 1, p);
    } else {
        if j + d < s2.len() && s2[j + d] == s[j] && j < s.len() {
            assert(!is_number_char(s[j]));
        }
    }
}

// ---------------------------------------------------------------------------
// Where a value that reads successfully ends

#[verifier::spinoff_prover]
proof fn lemma_value_bounds(s: Seq<char>, i: int, v: JsonValue, p: int)
    requires
        0 <= i <= s.len(),
        spec_value(s, i) == Ok::<(JsonValue, int), JsonError>((v, p)),
    ensures
        i <= skip_ws(s, i) < p <= s.len(),
        !is_ws(s[p - 1]),
    decreases s.len() - i, 1int,
{
    lemma_skip_ws(s, i);
    let j = skip_ws(s, i);
    let c = s[j];
    if c == '"' {
        let (t, q) = spec_string(s, j)->Ok_0;
        lemma_body_bounds(s, j + 1, Seq::empty(), t, q);
    } else if c == '{' {
        lemma_object_bounds(s, j, v, p);
    } else if c == '[' {
        lemma_array_bounds(s, j, v, p);
    } else if c == 't' || c == 'f' || c == 'n' {
        let lit = if c == 't' {
            Literal::True
        } else if c == 'f' {
            Literal::False
        } else {
            Literal::Null
        };
        let t = lit.spec_text();
        lemma_literal_matches(s, j, t, 0);
        assert(peek_at(s, j + t.len() - 1) == Some(t[t.len() - 1]));
    } else {
        let e = number_end(s, j);
        lemma_number_run(s, j);
        let b = s.subrange(j, e);
        if e == j {
            assert(b.len() == 0);
            assert(!is_float_lexeme(b));
        }
        assert(is_number_char(s[e - 1]));
    }
}

#[verifier::spinoff_prover]
proof fn lemma_array_bounds(s: Seq<char>, i: int, v: JsonValue, p: int)
    requires
        0 <= i < s.len(),
        spec_array(s, i) == Ok::<(JsonValue, int), JsonError>((v, p)),
    ensures
        i < p <= s.len(),
        s[p - 1] == ']',
    decreases s.len() - i, 0int,
{
    lemma_skip_ws(s, i + 1);
    let k = skip_ws(s, i + 1);
    if peek_at(s, k) != Some(']') {
        lemma_elements_bounds(s, k, Seq::empty(), v, p);
    }
}

#[verifier::spinoff_prover]
proof fn lemma_elements_bounds(s: Seq<char>, k: int, acc: Seq<JsonValue>, v: JsonValue, p: int)
    requires
        0 <= k <= s.len(),
        spec_elements(s, k, acc) == Ok::<(JsonValue, int), JsonError>((v, p)),
    ensures
        k < p <= s.len(),
        s[p - 1] == ']',
    decreases s.len() - k, 2int,
{
    let (v0, m0) = spec_value(s, k)->Ok_0;
    lemma_value_bounds(s, k, v0, m0);
    lemma_skip_ws(s, m0);
    let m = skip_ws(s, m0);
    if s[m] == ',' {
        lemma_elements_bounds(s, m + 1, acc.push(v0), v, p);
    }
}

#[verifier::spinoff_prover]
proof fn lemma_object_bounds(s: Seq<char>, i: int, v: JsonValue, p: int)
    requires
        0 <= i < s.len(),
        spec_object(s, i) == Ok::<(JsonValue, int), JsonError>((v, p)),
    ensures
        i < p <= s.len(),
        s[p - 1] == '}',
    decreases s.len() - i, 0int,
{
    lemma_skip_ws(s, i + 1);
    let k = skip_ws(s, i + 1);
    if peek_at(s, k) != Some('}') {
        lemma_members_bounds(s, k, Seq::empty(), v, p);
    }
}

#[verifier::spinoff_prover]
proof fn lemma_members_bounds(
    s: Seq<char>,
    k: int,
    acc: Seq<(Seq<char>, JsonValue)>,
    v: JsonValue,
    p: int,
)
    requires
        0 <= k <= s.len(),
        spec_members(s, k, acc) == Ok::<(JsonValue, int), JsonError>((v, p)),
    ensures
        k < p <= s.len(),
        s[p - 1] == '}',
    decreases s.len() - k, 2int,
{
    lemma_skip_ws(s, k);
    let k1 = skip_ws(s, k);
    let (key, k2) = spec_string(s, k1)->Ok_0;
    lemma_body_bounds(s, k1 + 1, Seq::empty(), key, k2);
    lemma_skip_ws(s, k2);
    let k3 = skip_ws(s, k2);
    let (v0, k4) = spec_value(s, k3 + 1)->Ok_0;
    lemma_value_bounds(s, k3 + 1, v0, k4);
    lemma_skip_ws(s, k4);
    let k5 = skip_ws(s, k4);
    if s[k5] == ',' {
        lemma_members_bounds(s, k5 + 1, acc.push((key, v0)), v, p);
    }
}

// ---------------------------------------------------------------------------
// A value read from one text is read the same from another that agrees with it

proof fn lemma_frame_string(s: Seq<char>, s2: Seq<char>, d: int, j: int, t: Seq<char>, q: int, p: int)
    requires
        spec_string(s, j) == Ok::<(Seq<char>, int), (JsonError, int)>((t, q)),
        agree(s, s2, d, j, p),
        q <= p,
    ensures
        spec_string(s2, j + d) == Ok::<(Seq<char>, int), (JsonError, int)>((t, q + d)),
{
    lemma_body_bounds(s, j + 1, Seq::empty(), t, q);
    assert(s2[j + d] == s[j]);
    lemma_frame_body(s, s2, d, j + 1, Seq::empty(), t, q, p);
}

proof fn lemma_frame_number(s: Seq<char>, s2: Seq<char>, d: int, j: int, v: JsonValue, p: int)
    requires
        spec_number(s, j) == Ok::<(JsonValue, int), JsonError>((v, p)),
        agree(s, s2, d, j, p),
        followed_alike(s, s2, d, p),
    ensures
        spec_number(s2, j + d) == Ok::<(JsonValue, int), JsonError>((v, p + d)),
{
    lemma_frame_number_end(s, s2, d, j, p);
    assert(s2.subrange(j + d, p + d) =~= s.subrange(j, p)) by {
        assert forall|k: int| 0 <= k < p - j implies #[trigger] s2.subrange(j + d, p + d)[k]
            == s.subrange(j, p)[k] by {
            assert(s2[j + k + d] == s[j + k]);
        }
    }
}

proof fn lemma_frame_literal_value(
    s: Seq<char>,
    s2: Seq<char>,
    d: int,
    j: int,
    lit: Literal,
    v: JsonValue,
    p: int,
)
    requires
        spec_literal(s, j, lit, v) == Ok::<(JsonValue, int), JsonError>((v, p)),
        agree(s, s2, d, j, p),
    ensures
        spec_literal(s2, j + d, lit, v) == Ok::<(JsonValue, int), JsonError>((v, p + d)),
{
    lemma_frame_literal(s, s2, d, j, lit.spec_text(), 0, p);
}

#[verifier::spinoff_prover]
proof fn lemma_frame_value(s: Seq<char>, s2: Seq<char>, d: int, i: int, v: JsonValue, p: int)
    requires
        0 <= i <= s.len(),
        spec_value(s, i) == Ok::<(JsonValue, int), JsonError>((v, p)),
        agree(s, s2, d, i, p),
        followed_alike(s, s2, d, p),
    ensures
        spec_value(s2, i + d) == Ok::<(JsonValue, int), JsonError>((v, p + d)),
    decreases s.len() - i, 1int,
{
    lemma_value_bounds(s, i, v, p);
    lemma_skip_ws(s, i);
    let j = skip_ws(s, i);
    lemma_frame_skip_ws(s, s2, d, i, p);
    assert(s2[j + d] == s[j]);
    assert(peek_at(s2, j + d) == peek_at(s, j));
    let c = s[j];
    if c == '"' {
        let (t, q) = spec_string(s, j)->Ok_0;
        lemma_frame_string(s, s2, d, j, t, q, p);
    } else if c == '{' {
        lemma_frame_object(s, s2, d, j, v, p);
    } else if c == '[' {
        lemma_frame_array(s, s2, d, j, v, p);
    } else if c == 't' {
        lemma_frame_literal_value(s, s2, d, j, Literal::True, JsonValue::Bool(true), p);
    } else if c == 'f' {
        lemma_frame_literal_value(s, s2, d, j, Literal::False, JsonValue::Bool(false), p);
    } else if c == 'n' {
        lemma_frame_literal_value(s, s2, d, j, Literal::Null, JsonValue::Null, p);
    } else {
        lemma_frame_number(s, s2, d, j, v, p);
    }
}

#[verifier::spinoff_prover]
proof fn lemma_frame_array(s: Seq<char>, s2: Seq<char>, d: int, i: int, v: JsonValue, p: int)
    requires
        0 <= i < s.len(),
        spec_array(s, i) == Ok::<(JsonValue, int), JsonError>((v, p)),
        agree(s, s2, d, i, p),
    ensures
        spec_array(s2, i + d) == Ok::<(JsonValue, int), JsonError>((v, p + d)),
    decreases s.len() - i, 0int,
{
    lemma_array_bounds(s, i, v, p);
    lemma_skip_ws(s, i + 1);
    let k = skip_ws(s, i + 1);
    if peek_at(s, k) == Some(']') {
        lemma_frame_skip_ws(s, s2, d, i + 1, p);
        assert(s2[k + d] == s[k]);
    } else {
        lemma_elements_bounds(s, k, Seq::empty(), v, p);
        lemma_frame_skip_ws(s, s2, d, i + 1, p);
        assert(s2[k + d] == s[k]);
        lemma_frame_elements(s, s2, d, k, Seq::empty(), v, p);
    }
}

#[verifier::spinoff_prover]
proof fn lemma_frame_elements(
    s: Seq<char>,
    s2: Seq<char>,
    d: int,
    k: int,
    acc: Seq<JsonValue>,
    v: JsonValue,
    p: int,
)
    requires
        0 <= k <= s.len(),
        spec_elements(s, k, acc) == Ok::<(JsonValue, int), JsonError>((v, p)),
        agree(s, s2, d, k, p),
    ensures
        spec_elements(s2, k + d, acc) == Ok::<(JsonValue, int), JsonError>((v, p + d)),
    decreases s.len() - k, 2int,
{
    lemma_elements_bounds(s, k, acc, v, p);
    let (v0, m0) = spec_value(s, k)->Ok_0;
    lemma_value_bounds(s, k, v0, m0);
    lemma_skip_ws(s, m0);
    let m = skip_ws(s, m0);
    if s[m] == ',' {
        lemma_elements_bounds(s, m + 1, acc.push(v0), v, p);
    }
    assert(s2[m0 + d] == s[m0]);
    lemma_frame_value(s, s2, d, k, v0, m0);
    lemma_frame_skip_ws(s, s2, d, m0, p);
    assert(s2[m + d] == s[m]);
    if s[m] == ',' {
        lemma_frame_elements(s, s2, d, m + 1, acc.push(v0), v, p);
    }
}

#[verifier::spinoff_prover]
proof fn lemma_frame_object(s: Seq<char>, s2: Seq<char>, d: int, i: int, v: JsonValue, p: int)
    requires
        0 <= i < s.len(),
        spec_object(s, i) == Ok::<(JsonValue, int), JsonError>((v, p)),
        agree(s, s2, d, i, p),
    ensures
        spec_object(s2, i + d) == Ok::<(JsonValue, int), JsonError>((v, p + d)),
    decreases s.len() - i, 0int,
{
    lemma_object_bounds(s, i, v, p);
    lemma_skip_ws(s, i + 1);
    let k = skip_ws(s, i + 1);
    if peek_at(s, k) == Some('}') {
        lemma_frame_skip_ws(s, s2, d, i + 1, p);
        assert(s2[k + d] == s[k]);
    } else {
        lemma_members_bounds(s, k, Seq::empty(), v, p);
        lemma_frame_skip_ws(s, s2, d, i + 1, p);
        assert(s2[k + d] == s[k]);
        lemma_frame_members(s, s2, d, k, Seq::empty(), v, p);
    }
}

/// The parts of one object member (`key : value` and what follows) read alike
/// in both texts.
#[verifier::spinoff_prover]
proof fn lemma_frame_member_parts(
    s: Seq<char>,
    s2: Seq<char>,
    d: int,
    k: int,
    key: Seq<char>,
    k2: int,
    v0: JsonValue,
    k4: int,
    p: int,
)
    requires
        0 <= k <= s.len(),
        agree(s, s2, d, k, p),
        spec_string(s, skip_ws(s, k)) == Ok::<(Seq<char>, int), (JsonError, int)>((key, k2)),
        skip_ws(s, k2) < p,
        spec_value(s, skip_ws(s, k2) + 1) == Ok::<(JsonValue, int), JsonError>((v0, k4)),
        skip_ws(s, k4) < p,
    ensures
        skip_ws(s2, k + d) == skip_ws(s, k) + d,
        spec_string(s2, skip_ws(s, k) + d) == Ok::<(Seq<char>, int), (JsonError, int)>((key, k2 + d)),
        skip_ws(s2, k2 + d) == skip_ws(s, k2) + d,
        peek_at(s2, skip_ws(s, k2) + d) == peek_at(s, skip_ws(s, k2)),
        spec_value(s2, skip_ws(s, k2) + 1 + d) == Ok::<(JsonValue, int), JsonError>((v0, k4 + d)),
        skip_ws(s2, k4 + d) == skip_ws(s, k4) + d,
        peek_at(s2, skip_ws(s, k4) + d) == peek_at(s, skip_ws(s, k4)),
    decreases s.len() - k, 1int,
{
    lemma_skip_ws(s, k);
    let k1 = skip_ws(s, k);
    assert(k1 < k2) by {
        lemma_body_bounds(s, k1 + 1, Seq::empty(), key, k2);
    }
    lemma_skip_ws(s, k2);
    let k3 = skip_ws(s, k2);
    lemma_value_bounds(s, k3 + 1, v0, k4);
    lemma_skip_ws(s, k4);
    let k5 = skip_ws(s, k4);
    lemma_frame_skip_ws(s, s2, d, k, p);
    lemma_frame_string(s, s2, d, k1, key, k2, p);
    lemma_frame_skip_ws(s, s2, d, k2, p);
    assert(s2[k3 + d] == s[k3]);
    assert(s2[k4 + d] == s[k4]);
    lemma_frame_value(s, s2, d, k3 + 1, v0, k4);
    lemma_frame_skip_ws(s, s2, d, k4, p);
    assert(s2[k5 + d] == s[k5]);
}

/// One step of reading the members of an object, once its first member has been read.
#[verifier::spinoff_prover]
proof fn lemma_members_step(
    s: Seq<char>,
    k: int,
    acc: Seq<(Seq<char>, JsonValue)>,
    key: Seq<char>,
    k2: int,
    v0: JsonValue,
    k4: int,
)
    requires
        0 <= k <= s.len(),
        spec_string(s, skip_ws(s, k)) == Ok::<(Seq<char>, int), (JsonError, int)>((key, k2)),
        peek_at(s, skip_ws(s, k2)) == Some(':'),
        k <= skip_ws(s, k2),
        spec_value(s, skip_ws(s, k2) + 1) == Ok::<(JsonValue, int), JsonError>((v0, k4)),
        peek_at(s, skip_ws(s, k4)) == Some(','),
        k < skip_ws(s, k4),
    ensures
        spec_members(s, k, acc) == spec_members(s, skip_ws(s, k4) + 1, acc.push((key, v0))),
{
}

#[verifier::spinoff_prover]
proof fn lemma_frame_members(
    s: Seq<char>,
    s2: Seq<char>,
    d: int,
    k: int,
    acc: Seq<(Seq<char>, JsonValue)>,
    v: JsonValue,
    p: int,
)
    requires
        0 <= k <= s.len(),
        spec_members(s, k, acc) == Ok::<(JsonValue, int), JsonError>((v, p)),
        agree(s, s2, d, k, p),
    ensures
        spec_members(s2, k + d, acc) == Ok::<(JsonValue, int), JsonError>((v, p + d)),
    decreases s.len() - k, 2int,
{
    lemma_members_bounds(s, k, acc, v, p);
    lemma_skip_ws(s, k);
    let k1 = skip_ws(s, k);
    let (key, k2) = spec_string(s, k1)->Ok_0;
    lemma_body_bounds(s, k1 + 1, Seq::empty(), key, k2);
    lemma_skip_ws(s, k2);
    let k3 = skip_ws(s, k2);
    let (v0, k4) = spec_value(s, k3 + 1)->Ok_0;
    lemma_value_bounds(s, k3 + 1, v0, k4);
    lemma_skip_ws(s, k4);
    let k5 = skip_ws(s, k4);
    if s[k5] == ',' {
        lemma_members_bounds(s, k5 + 1, acc.push((key, v0)), v, p);
    }
    lemma_frame_member_parts(s, s2, d, k, key, k2, v0, k4, p);
    if s[k5] == ',' {
        lemma_members_step(s, k, acc, key, k2, v0, k4);
        lemma_members_step(s2, k + d, acc, key, k2 + d, v0, k4 + d);
        lemma_frame_members(s, s2, d, k5 + 1, acc.push((key, v0)), v, p);
    }
}

// ---------------------------------------------------------------------------
// Whitespace around a text

/// Every character of `w` is whitespace.
pub open spec fn all_ws(w: Seq<char>) -> bool {
    forall|k: int| 0 <= k < w.len() ==> is_ws(#[trigger] w[k])
}

proof fn lemma_skip_ws_run(s: Seq<char>, i: int, e: int)
    requires
        0 <= i <= e <= s.len(),
        forall|k: int| i <= k < e ==> is_ws(#[trigger] s[k]),
    ensures
        skip_ws(s, i) == skip_ws(s, e),
    decreases e - i,
{
    if i < e {
        lemma_skip_ws_run(s, i + 1, e);
    }
}

/// `s2` is `s` set `d` characters in, with nothing but whitespace after it.
spec fn padded(s: Seq<char>, s2: Seq<char>, d: int) -> bool {
    &&& 0 <= d
    &&& d + s.len() <= s2.len()
    &&& forall|k: int| 0 <= k < s.len() ==> s2[k + d] == #[trigger] s[k]
    &&& forall|k: int| d + s.len() <= k < s2.len() ==> is_ws(#[trigger] s2[k])
}

/// Reading a string body stopped at a low surrogate below `DC00`.
spec fn body_underflows(r: Result<(Seq<char>, int), (JsonError, int)>) -> bool {
    r is Err && r->Err_0.0 == JsonError::SurrogateUnderflow
}

/// Reading stopped at a low surrogate below `DC00`.
spec fn underflows(r: Result<(JsonValue, int), JsonError>) -> bool {
    r == Err::<(JsonValue, int), JsonError>(JsonError::SurrogateUnderflow)
}

proof fn lemma_padded_agree(s: Seq<char>, s2: Seq<char>, d: int, i: int, p: int)
    requires
        padded(s, s2, d),
        0 <= i <= p <= s.len(),
    ensures
        agree(s, s2, d, i, p),
{
}

proof fn lemma_padded_followed(s: Seq<char>, s2: Seq<char>, d: int, p: int)
    requires
        padded(s, s2, d),
        0 <= p <= s.len(),
    ensures
        followed_alike(s, s2, d, p),
{
    if p < s.len() {
        assert(s2[p + d] == s[p]);
    } else if p + d < s2.len() {
        assert(is_ws(s2[p + d]));
    }
}

/// Past the end of `s`, the padded text holds only whitespace.
proof fn lemma_pad_tail(s: Seq<char>, s2: Seq<char>, d: int, i: int)
    requires
        padded(s, s2, d),
        0 <= i <= s.len(),
        skip_ws(s, i) == s.len(),
    ensures
        skip_ws(s2, i + d) == s2.len(),
{
    lemma_skip_ws(s, i);
    assert forall|k: int| i + d <= k < s2.len() implies is_ws(#[trigger] s2[k]) by {
        if k < d + s.len() {
            assert(s2[(k - d) + d] == s[k - d]);
        }
    }
    lemma_skip_ws_run(s2, i + d, s2.len() as int);
}

proof fn lemma_pad_skip(s: Seq<char>, s2: Seq<char>, d: int, i: int)
    requires
        padded(s, s2, d),
        0 <= i <= s.len(),
        skip_ws(s, i) < s.len(),
    ensures
        skip_ws(s2, i + d) == skip_ws(s, i) + d,
        s2[skip_ws(s, i) + d] == s[skip_ws(s, i)],
{
    lemma_skip_ws(s, i);
    lemma_frame_skip_ws(s, s2, d, i, s.len() as int);
}

/// A `\u` escape reads alike in the text and in the padded text.
proof fn lemma_pad_hex4(s: Seq<char>, s2: Seq<char>, d: int, i: int)
    requires
        padded(s, s2, d),
        0 <= i <= s.len(),
    ensures
        (spec_hex4(s2, i + d) is Ok) == (spec_hex4(s, i) is Ok),
        spec_hex4(s, i) matches Ok((v, j)) ==> spec_hex4(s2, i + d) == Ok::<(int, int), (
            JsonError,
            int,
        )>((v, j + d)),
{
    if i + 4 <= s.len() {
        assert(s2.subrange(i + d, i + d + 4) =~= s.subrange(i, i + 4)) by {
            assert forall|k: int| 0 <= k < 4 implies #[trigger] s2.subrange(i + d, i + d + 4)[k]
                == s.subrange(i, i + 4)[k] by {
                assert(s2[i + k + d] == s[i + k]);
            }
        }
    } else if i + d + 4 <= s2.len() {
        let h2 = s2.subrange(i + d, i + d + 4);
        assert(h2[3] == s2[i + d + 3]);
        assert(is_ws(s2[i + d + 3]));
    }
}

/// A string body read over whitespace alone never stops at a low surrogate.
proof fn lemma_ws_body(s2: Seq<char>, m: int, out: Seq<char>)
    requires
        0 <= m,
        forall|k: int| m <= k < s2.len() ==> is_ws(#[trigger] s2[k]),
    ensures
        !body_underflows(spec_string_body(s2, m, out)),
    decreases s2.len() - m,
{
    if m < s2.len() {
        assert(is_ws(s2[m]));
        lemma_ws_body(s2, m + 1, out.push(s2[m]));
    }
}

/// A string body stops at a low surrogate below `DC00` in the padded text
/// exactly when it does in the text.
#[verifier::spinoff_prover]
proof fn lemma_pad_body(s: Seq<char>, s2: Seq<char>, d: int, k: int, out: Seq<char>)
    requires
        padded(s, s2, d),
        0 <= k <= s.len(),
    ensures
        body_underflows(spec_string_body(s2, k + d, out)) == body_underflows(
            spec_string_body(s, k, out),
        ),
    decreases s.len() - k, 1int,
{
    let n = s.len() as int;
    if k == n {
        lemma_ws_body(s2, k + d, out);
    } else {
        assert(s2[k + d] == s[k]);
        if s[k] == '"' {
        } else if s[k] == '\\' {
            if k + 1 >= n {
                if k + 1 + d < s2.len() {
                    assert(is_ws(s2[k + 1 + d]));
                }
            } else {
                assert(s2[k + 1 + d] == s[k + 1]);
                let e = s[k + 1];
                match simple_escape(e) {
                    Some(c) => {
                        lemma_pad_body(s, s2, d, k + 2, out.push(c));
                    },
                    None => {
                        if e == 'u' {
                            lemma_pad_hex4(s, s2, d, k + 2);
                            if spec_hex4(s, k + 2) is Ok {
                                let (code, j) = spec_hex4(s, k + 2)->Ok_0;
                                lemma_pad_body_high(s, s2, d, k, out, code, j);
                            }
                        }
                    },
                }
            }
        } else {
            lemma_pad_body(s, s2, d, k + 1, out.push(s[k]));
        }
    }
}

/// The part of `lemma_pad_body` after a `\u` escape at `k` read as `code`.
#[verifier::spinoff_prover]
proof fn lemma_pad_body_high(
    s: Seq<char>,
    s2: Seq<char>,
    d: int,
    k: int,
    out: Seq<char>,
    code: int,
    j: int,
)
    requires
        padded(s, s2, d),
        0 <= k,
        k + 1 < s.len(),
        s[k] == '\\',
        s[k + 1] == 'u',
        spec_hex4(s, k + 2) == Ok::<(int, int), (JsonError, int)>((code, j)),
        spec_hex4(s2, k + 2 + d) == Ok::<(int, int), (JsonError, int)>((code, j + d)),
    ensures
        body_underflows(spec_string_body(s2, k + d, out)) == body_underflows(
            spec_string_body(s, k, out),
        ),
    decreases s.len() - k, 0int,
{
    let n = s.len() as int;
    assert(s2[k + d] == s[k]);
    assert(s2[k + 1 + d] == s[k + 1]);
    assert(simple_escape('u') is None);
    assert(j == k + 6);
    if 0xD800 <= code <= 0xDBFF {
        if j >= n {
            assert(spec_string_body(s, j, out) is Err);
            if j + d < s2.len() {
                assert(is_ws(s2[j + d]));
                lemma_ws_body(s2, j + d + 1, out);
                assert(body_underflows(spec_string_body(s2, k + d, out)) == body_underflows(
                    spec_string_body(s, k, out),
                ));
            }
        } else {
            assert(s2[j + d] == s[j]);
            if s[j] != '\\' {
                lemma_pad_body(s, s2, d, j + 1, out);
                assert(body_underflows(spec_string_body(s2, k + d, out)) == body_underflows(
                    spec_string_body(s, k, out),
                ));
            } else if j + 1 >= n {
                if j + 1 + d < s2.len() {
                    assert(is_ws(s2[j + 1 + d]));
                    lemma_ws_body(s2, j + 2 + d, out);
                }
            } else {
                assert(s2[j + 1 + d] == s[j + 1]);
                if s[j + 1] != 'u' {
                    lemma_pad_body(s, s2, d, j + 2, out);
                    assert(body_underflows(spec_string_body(s2, k + d, out)) == body_underflows(
                        spec_string_body(s, k, out),
                    ));
                } else {
                    lemma_pad_hex4(s, s2, d, j + 2);
                    if spec_hex4(s, j + 2) is Ok {
                        let (low, m) = spec_hex4(s, j + 2)->Ok_0;
                        if low < 0xDC00 {
                        } else if low <= 0xDFFF {
                            lemma_pad_body(
                                s,
                                s2,
                                d,
                                m,
                                push_code(out, 0x10000 + (code - 0xD800) * 1024 + (low - 0xDC00)),
                            );
                        } else {
                            lemma_pad_body(s, s2, d, m, push_code(out, low));
                        }
                    }
                }
            }
        }
    } else {
        lemma_pad_body(s, s2, d, j, push_code(out, code));
        assert(body_underflows(spec_string_body(s2, k + d, out)) == body_underflows(
            spec_string_body(s, k, out),
        ));
    }
}

/// A value read from the padded text is read alike from the text itself.
#[verifier::spinoff_prover]
proof fn lemma_pad_value_back(s: Seq<char>, s2: Seq<char>, d: int, i: int, v: JsonValue, p2: int)
    requires
        padded(s, s2, d),
        0 <= i <= s.len(),
        spec_value(s2, i + d) == Ok::<(JsonValue, int), JsonError>((v, p2)),
    ensures
        spec_value(s, i) == Ok::<(JsonValue, int), JsonError>((v, p2 - d)),
{
    let n = s.len() as int;
    lemma_value_bounds(s2, i + d, v, p2);
    if p2 > d + n {
        assert(is_ws(s2[p2 - 1]));
    }
    if p2 - d < n {
        assert(s2[p2 - d + d] == s[p2 - d]);
    }
    assert forall|k: int| i + d <= k < p2 implies s[k + -d] == #[trigger] s2[k] by {
        assert(s2[(k - d) + d] == s[k - d]);
    }
    lemma_frame_value(s2, s, -d, i + d, v, p2);
}

/// A string read from the padded text is read alike from the text itself.
#[verifier::spinoff_prover]
proof fn lemma_pad_string(s: Seq<char>, s2: Seq<char>, d: int, j: int)
    requires
        padded(s, s2, d),
        0 <= j < s.len(),
    ensures
        body_underflows(spec_string(s2, j + d)) == body_underflows(spec_string(s, j)),
        (spec_string(s2, j + d) is Ok) == (spec_string(s, j) is Ok),
        spec_string(s, j) matches Ok((t, q)) ==> spec_string(s2, j + d) == Ok::<
            (Seq<char>, int),
            (JsonError, int),
        >((t, q + d)),
{
    let n = s.len() as int;
    assert(s2[j + d] == s[j]);
    if s[j] == '"' {
        lemma_pad_body(s, s2, d, j + 1, Seq::empty());
        if spec_string(s, j) is Ok {
            let (t, q) = spec_string(s, j)->Ok_0;
            lemma_body_bounds(s, j + 1, Seq::empty(), t, q);
            lemma_padded_agree(s, s2, d, j, n);
            lemma_frame_string(s, s2, d, j, t, q, n);
        }
        if spec_string(s2, j + d) is Ok {
            let (t, q2) = spec_string(s2, j + d)->Ok_0;
            lemma_body_bounds(s2, j + d + 1, Seq::empty(), t, q2);
            if q2 > d + n {
                assert(is_ws(s2[q2 - 1]));
            }
            assert forall|k: int| j + d <= k < q2 implies s[k + -d] == #[trigger] s2[k] by {
                assert(s2[(k - d) + d] == s[k - d]);
            }
            lemma_frame_string(s2, s, -d, j + d, t, q2, q2);
        }
    }
}

/// Reading a value stops at a low surrogate below `DC00` in the padded text
/// exactly when it does in the text.
#[verifier::spinoff_prover]
proof fn lemma_pad_value(s: Seq<char>, s2: Seq<char>, d: int, i: int)
    requires
        padded(s, s2, d),
        0 <= i <= s.len(),
    ensures
        underflows(spec_value(s2, i + d)) == underflows(spec_value(s, i)),
    decreases s.len() - i, 1int,
{
    lemma_skip_ws(s, i);
    let j = skip_ws(s, i);
    if j == s.len() {
        lemma_pad_tail(s, s2, d, i);
    } else {
        lemma_pad_skip(s, s2, d, i);
        let c = s[j];
        if c == '"' {
            lemma_pad_string(s, s2, d, j);
        } else if c == '{' {
            lemma_pad_object(s, s2, d, j);
        } else if c == '[' {
            lemma_pad_array(s, s2, d, j);
        }
    }
}

#[verifier::spinoff_prover]
proof fn lemma_pad_array(s: Seq<char>, s2: Seq<char>, d: int, i: int)
    requires
        padded(s, s2, d),
        0 <= i < s.len(),
    ensures
        underflows(spec_array(s2, i + d)) == underflows(spec_array(s, i)),
    decreases s.len() - i, 0int,
{
    lemma_skip_ws(s, i + 1);
    let k = skip_ws(s, i + 1);
    if k == s.len() {
        lemma_pad_tail(s, s2, d, i + 1);
        assert(skip_ws(s, s.len() as int) == s.len());
        assert(skip_ws(s2, s2.len() as int) == s2.len());
        assert(spec_value(s, k) is Err);
        assert(spec_value(s2, s2.len() as int) is Err);
    } else {
        lemma_pad_skip(s, s2, d, i + 1);
        if s[k] != ']' {
            lemma_pad_elements(s, s2, d, k, Seq::empty());
        }
    }
}

#[verifier::spinoff_prover]
proof fn lemma_pad_elements(s: Seq<char>, s2: Seq<char>, d: int, k: int, acc: Seq<JsonValue>)
    requires
        padded(s, s2, d),
        0 <= k <= s.len(),
    ensures
        underflows(spec_elements(s2, k + d, acc)) == underflows(spec_elements(s, k, acc)),
    decreases s.len() - k, 2int,
{
    lemma_pad_value(s, s2, d, k);
    if spec_value(s2, k + d) is Ok {
        let (v2, p2) = spec_value(s2, k + d)->Ok_0;
        lemma_pad_value_back(s, s2, d, k, v2, p2);
    }
    if spec_value(s, k) is Ok {
        let (v, m0) = spec_value(s, k)->Ok_0;
        lemma_value_bounds(s, k, v, m0);
        lemma_padded_agree(s, s2, d, k, m0);
        lemma_padded_followed(s, s2, d, m0);
        lemma_frame_value(s, s2, d, k, v, m0);
        lemma_skip_ws(s, m0);
        let m = skip_ws(s, m0);
        if m == s.len() {
            lemma_pad_tail(s, s2, d, m0);
        } else {
            lemma_pad_skip(s, s2, d, m0);
            if s[m] == ',' && k < m {
                lemma_pad_elements(s, s2, d, m + 1, acc.push(v));
            }
        }
    }
}

#[verifier::spinoff_prover]
proof fn lemma_pad_object(s: Seq<char>, s2: Seq<char>, d: int, i: int)
    requires
        padded(s, s2, d),
        0 <= i < s.len(),
    ensures
        underflows(spec_object(s2, i + d)) == underflows(spec_object(s, i)),
    decreases s.len() - i, 0int,
{
    lemma_skip_ws(s, i + 1);
    let k = skip_ws(s, i + 1);
    if k == s.len() {
        lemma_pad_tail(s, s2, d, i + 1);
        assert(skip_ws(s, s.len() as int) == s.len());
        assert(skip_ws(s2, s2.len() as int) == s2.len());
        assert(spec_string(s, k) is Err);
        assert(spec_string(s2, s2.len() as int) is Err);
    } else {
        lemma_pad_skip(s, s2, d, i + 1);
        if s[k] != '}' {
            lemma_pad_members(s, s2, d, k, Seq::empty());
        }
    }
}

#[verifier::spinoff_prover]
proof fn lemma_pad_members(
    s: Seq<char>,
    s2: Seq<char>,
    d: int,
    k: int,
    acc: Seq<(Seq<char>, JsonValue)>,
)
    requires
        padded(s, s2, d),
        0 <= k <= s.len(),
    ensures
        underflows(spec_members(s2, k + d, acc)) == underflows(spec_members(s, k, acc)),
    decreases s.len() - k, 2int,
{
    let n = s.len() as int;
    lemma_skip_ws(s, k);
    let k1 = skip_ws(s, k);
    if k1 == n {
        lemma_pad_tail(s, s2, d, k);
        assert(spec_string(s, k1) is Err);
        assert(spec_string(s2, s2.len() as int) is Err);
    } else {
        lemma_pad_skip(s, s2, d, k);
        lemma_pad_string(s, s2, d, k1);
        if spec_string(s, k1) is Ok {
            let (key, k2) = spec_string(s, k1)->Ok_0;
            lemma_body_bounds(s, k1 + 1, Seq::empty(), key, k2);
            lemma_skip_ws(s, k2);
            let k3 = skip_ws(s, k2);
            if k3 == n {
                lemma_pad_tail(s, s2, d, k2);
            } else {
                lemma_pad_skip(s, s2, d, k2);
                if s[k3] == ':' && k <= k3 {
                    lemma_members_after_colon(s, k, acc, key, k2);
                    lemma_members_after_colon(s2, k + d, acc, key, k2 + d);
                    lemma_pad_member_value(s, s2, d, k, acc, key, k3);
                }
            }
        }
    }
}

/// What reading the members of an object from `k` gives once the colon of
/// its first member stands at `k3`, `key` being that member's key.
spec fn members_after_colon(
    x: Seq<char>,
    k: int,
    acc: Seq<(Seq<char>, JsonValue)>,
    key: Seq<char>,
    k3: int,
) -> Result<(JsonValue, int), JsonError> {
    match spec_value(x, k3 + 1) {
        Err(e) => Err(e),
        Ok((v, k4)) => {
            let k5 = skip_ws(x, k4);
            match peek_at(x, k5) {
                Some(c) => if c == ',' {
                    if k < k5 {
                        spec_members(x, k5 + 1, acc.push((key, v)))
                    } else {
                        Err(JsonError::ExpectedObjectSeparator(Some(c)))
                    }
                } else if c == '}' {
                    Ok((JsonValue::Object(acc.push((key, v))), k5 + 1))
                } else {
                    Err(JsonError::ExpectedObjectSeparator(Some(c)))
                },
                None => Err(JsonError::ExpectedObjectSeparator(None)),
            }
        },
    }
}

proof fn lemma_members_after_colon(
    x: Seq<char>,
    k: int,
    acc: Seq<(Seq<char>, JsonValue)>,
    key: Seq<char>,
    k2: int,
)
    requires
        0 <= k <= x.len(),
        spec_string(x, skip_ws(x, k)) == Ok::<(Seq<char>, int), (JsonError, int)>((key, k2)),
        peek_at(x, skip_ws(x, k2)) == Some(':'),
        k <= skip_ws(x, k2),
    ensures
        spec_members(x, k, acc) == members_after_colon(x, k, acc, key, skip_ws(x, k2)),
{
}

/// The part of `lemma_pad_members` from the value of a member on.
#[verifier::spinoff_prover]
proof fn lemma_pad_member_value(
    s: Seq<char>,
    s2: Seq<char>,
    d: int,
    k: int,
    acc: Seq<(Seq<char>, JsonValue)>,
    key: Seq<char>,
    k3: int,
)
    requires
        padded(s, s2, d),
        0 <= k <= k3 < s.len(),
    ensures
        underflows(members_after_colon(s2, k + d, acc, key, k3 + d)) == underflows(
            members_after_colon(s, k, acc, key, k3),
        ),
    decreases s.len() - k, 1int,
{
    let n = s.len() as int;
    lemma_pad_value(s, s2, d, k3 + 1);
    if spec_value(s2, k3 + 1 + d) is Ok {
        let (v2, p2) = spec_value(s2, k3 + 1 + d)->Ok_0;
        lemma_pad_value_back(s, s2, d, k3 + 1, v2, p2);
    }
    if spec_value(s, k3 + 1) is Ok {
        let (v, k4) = spec_value(s, k3 + 1)->Ok_0;
        lemma_value_bounds(s, k3 + 1, v, k4);
        lemma_padded_agree(s, s2, d, k3 + 1, k4);
        lemma_padded_followed(s, s2, d, k4);
        lemma_frame_value(s, s2, d, k3 + 1, v, k4);
        lemma_skip_ws(s, k4);
        let k5 = skip_ws(s, k4);
        if k5 == n {
            lemma_pad_tail(s, s2, d, k4);
        } else {
            lemma_pad_skip(s, s2, d, k4);
            if s[k5] == ',' && k < k5 {
                lemma_pad_members(s, s2, d, k5 + 1, acc.push((key, v)));
            }
        }
    }
}

/// Whitespace before and after a text changes nothing of what parsing it
/// gives: the padded text parses exactly when the text does, and then to the
/// same value; and it stops at a low surrogate below `DC00` exactly when the
/// text does.
#[verifier::spinoff_prover]
pub proof fn law_whitespace_around_is_ignored(a: Seq<char>, s: Seq<char>, b: Seq<char>)
    requires
        all_ws(a),
        all_ws(b),
    ensures
        (spec_parse(a + s + b) is Ok) == (spec_parse(s) is Ok),
        spec_parse(s) is Ok ==> spec_parse(a + s + b) == spec_parse(s),
        (spec_parse(a + s + b) == Err::<JsonValue, JsonError>(JsonError::SurrogateUnderflow)) == (
        spec_parse(s) == Err::<JsonValue, JsonError>(JsonError::SurrogateUnderflow)),
{
    let s2 = a + s + b;
    let d = a.len() as int;
    let n = s.len() as int;
    assert forall|k: int| 0 <= k < n implies s2[k + d] == #[trigger] s[k] by {
        assert((a + s)[k + d] == s[k]);
    }
    assert forall|k: int| 0 <= k < d implies is_ws(#[trigger] s2[k]) by {
        assert(s2[k] == a[k]);
    }
    assert forall|k: int| d + n <= k < s2.len() implies is_ws(#[trigger] s2[k]) by {
        assert(s2[k] == b[k - d - n]);
    }
    assert(padded(s, s2, d));
    lemma_skip_ws(s, 0);
    let j = skip_ws(s, 0);
    lemma_skip_ws_run(s2, 0, d);
    if j == n {
        lemma_pad_tail(s, s2, d, 0);
        assert(skip_ws(s2, s2.len() as int) == s2.len());
    } else {
        lemma_pad_skip(s, s2, d, 0);
        lemma_pad_value(s, s2, d, j);
        if spec_value(s, j) is Ok {
            let (v, p) = spec_value(s, j)->Ok_0;
            lemma_value_bounds(s, j, v, p);
            lemma_padded_agree(s, s2, d, j, p);
            lemma_padded_followed(s, s2, d, p);
            lemma_frame_value(s, s2, d, j, v, p);
        }
        if spec_value(s2, j + d) is Ok {
            let (v2, p2) = spec_value(s2, j + d)->Ok_0;
            lemma_pad_value_back(s, s2, d, j, v2, p2);
        }
    }
}

} // verus!
