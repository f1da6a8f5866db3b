//! Whether a new repository may be created, judged from the free space measured
//! on the volume that holds the repositories.

use vstd::prelude::*;
use crate::text::chars_of;

verus! {

/// The verdict on a repository-creation request, with the figures it rests on.
#[derive(Clone, Copy, Debug)]
pub struct CapacityDecision {
    pub allowed: bool,
    pub free_bytes: u64,
    pub min_free_bytes: u64,
}

/// The minimum free space, in MiB, when no usable setting is given.
pub const DEFAULT_MIN_FREE_MB: u64 = 1024;

/// Bytes in one MiB.
pub const BYTES_PER_MB: u64 = 1048576;

pub open spec fn is_decimal_digit(c: char) -> bool {
    '0' <= c <= '9'
}

/// The number that a sequence of decimal digits spells.
pub open spec fn digits_value(d: Seq<char>) -> int
    decreases d.len(),
{
    if d.len() == 0 {
        0
    } else {
        digits_value(d.drop_last()) * 10 + (d.last() as int - '0' as int)
    }
}

pub open spec fn all_decimal(d: Seq<char>) -> bool {
    forall|i: int| 0 <= i < d.len() ==> is_decimal_digit(#[trigger] d[i])
}

/// What `u64::from_str` gives: an optional `+` sign followed by one or more
/// decimal digits whose value fits in 64 bits; nothing else is accepted.
pub open spec fn spec_parse_u64(s: Seq<char>) -> Option<int> {
    let d = if s.len() > 0 && s[0] == '+' {
        s.drop_first()
    } else {
        s
    };
    if d.len() > 0 && all_decimal(d) && digits_value(d) <= u64::MAX {
        Some(digits_value(d))
    } else {
        None
    }
}

/// The minimum free space in MiB that a setting asks for: its value when it
/// reads as a `u64`, the default otherwise.
pub open spec fn setting_megabytes(setting: Option<&str>) -> int {
    match setting {
        Some(t) => match spec_parse_u64(t@) {
            Some(v) => v,
            None => DEFAULT_MIN_FREE_MB as int,
        },
        None => DEFAULT_MIN_FREE_MB as int,
    }
}

proof fn lemma_digits_value_nonneg(d: Seq<char>)
    requires
        forall|i: int| 0 <= i < d.len() ==> is_decimal_digit(#[trigger] d[i]),
    ensures
        digits_value(d) >= 0,
    decreases d.len(),
{
    if d.len() > 0 {
        lemma_digits_value_nonneg(d.drop_last());
    }
}

proof fn lemma_digits_value_prefix(d: Seq<char>, i: int)
    requires
        0 <= i <= d.len(),
        forall|j: int| 0 <= j < d.len() ==> is_decimal_digit(#[trigger] d[j]),
    ensures
        digits_value(d.take(i)) <= digits_value(d),
    decreases d.len() - i,
{
    if i < d.len() {
        lemma_digits_value_prefix(d, i + 1);
        assert(d.take(i + 1).drop_last() == d.take(i));
        lemma_digits_value_nonneg(d.take(i));
    } else {
        assert(d.take(i) == d);
    }
}

/// Reads a decimal `u64` as `u64::from_str` does.
#[verifier::loop_isolation(false)]
pub fn parse_u64(s: &str) -> (r: Option<u64>)
    ensures
        match spec_parse_u64(s@) {
            Some(v) => r matches Some(x) && x == v,
            None => r is None,
        },
{
    let cs = chars_of(s);
    let start: usize = if cs.len() > 0 && cs[0] == '+' {
        1
    } else {
        0
    };
    let ghost d = if cs@.len() > 0 && cs@[0] == '+' {
        cs@.drop_first()
    } else {
        cs@
    };
    assert(d == cs@.subrange(start as int, cs@.len() as int));
    assert(d == (if s@.len() > 0 && s@[0] == '+' { s@.drop_first() } else { s@ }));
    if start >= cs.len() {
        return None;
    }
    let mut value: u64 = 0;
    let mut i: usize = start;
    while i < cs.len()
        invariant
            start <= i <= cs.len(),
            d == cs@.subrange(start as int, cs@.len() as int),
            d.len() > 0,
            forall|j: int| 0 <= j < i - start ==> is_decimal_digit(#[trigger] d[j]),
            value == digits_value(d.take(i - start)),
        decreases cs.len() - i,
    {
        let c = cs[i];
        if !('0' <= c && c <= '9') {
            assert(!is_decimal_digit(d[i - start]));
            assert(!all_decimal(d));
            assert(spec_parse_u64(s@) is None);
            return None;
        }
        let digit = (c as u32 - 48) as u64;
        assert(d.take(i - start + 1).drop_last() == d.take(i - start));
        match value.checked_mul(10) {
            Some(m) => match m.checked_add(digit) {
                Some(n) => {
                    value = n;
                },
                None => {
                    proof {
                        let k = (i - start + 1) as int;
                        assert(d.take(k).last() == c);
                        assert(digits_value(d.take(k)) > u64::MAX);
                        overflow_means_none(d, k);
                    }
                    assert(spec_parse_u64(s@) is None);
                    return None;
                },
            },
            None => {
                proof {
                    let k = (i - start + 1) as int;
                    lemma_digits_value_nonneg(d.take(i - start));
                    assert(d.take(k).last() == c);
                    assert(digits_value(d.take(k)) > u64::MAX);
                    overflow_means_none(d, k);
                }
                assert(spec_parse_u64(s@) is None);
                return None;
            },
        }
        i = i + 1;
    }
    assert(d.take(d.len() as int) == d);
    Some(value)
}

/// When a prefix of digits already exceeds `u64::MAX`, the text does not read as a `u64`.
proof fn overflow_means_none(d: Seq<char>, i: int)
    requires
        0 < i <= d.len(),
        forall|j: int| 0 <= j < i ==> is_decimal_digit(#[trigger] d[j]),
        digits_value(d.take(i)) > u64::MAX,
    ensures
        !(all_decimal(d) && digits_value(d) <= u64::MAX),
{
    if all_decimal(d) {
        lemma_digits_value_prefix(d, i);
    }
}

/// The minimum free space in bytes that `setting` asks for (in MiB; the
/// default when absent or unreadable). `None` when the byte count does not fit
/// in a `u64`.
pub fn min_free_bytes(setting: Option<&str>) -> (r: Option<u64>)
    ensures
        r == if setting_megabytes(setting) * BYTES_PER_MB <= u64::MAX {
            Some((setting_megabytes(setting) * BYTES_PER_MB) as u64)
        } else {
            None::<u64>
        },
{
    let mb = match setting {
        Some(t) => {
            let parsed = parse_u64(t);
            match parsed {
                Some(v) => {
                    assert(spec_parse_u64(t@) == Some(v as int));
                    v
                },
                None => DEFAULT_MIN_FREE_MB,
            }
        },
        None => DEFAULT_MIN_FREE_MB,
    };
    assert(mb == setting_megabytes(setting));
    mb.checked_mul(BYTES_PER_MB)
}

/// The verdict for a measured free space: allowed exactly when the
/// measurement succeeded and exceeds the minimum. A failed measurement
/// (`None`) is refused, and reported as zero free bytes.
pub fn decide(free_space: Option<u64>, min_free_bytes: u64) -> (d: CapacityDecision)
    ensures
        d.min_free_bytes == min_free_bytes,
        match free_space {
            Some(free) => d.allowed == (free > min_free_bytes) && d.free_bytes == free,
            None => !d.allowed && d.free_bytes == 0,
        },
{
    match free_space {
        Some(free) => CapacityDecision { allowed: free > min_free_bytes, free_bytes: free, min_free_bytes },
        None => CapacityDecision { allowed: false, free_bytes: 0, min_free_bytes },
    }
}

} // verus!
