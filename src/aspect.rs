//! Reading an aspect ratio written `W:H`.
use vstd::prelude::*;

use crate::fixed::{div_spec, ONE};
use crate::fixed;

verus! {

pub open spec fn is_digit(b: u8) -> bool {
    48 <= b <= 57
}

/// The decimal value of a string of digits.
pub open spec fn digits_value(s: Seq<u8>) -> int
    decreases s.len(),
{
    if s.len() == 0 {
        0
    } else {
        digits_value(s.drop_last()) * 10 + (s.last() - 48)
    }
}

/// One to six decimal digits.
pub open spec fn is_number(s: Seq<u8>) -> bool {
    1 <= s.len() <= 6 && forall|i: int| 0 <= i < s.len() ==> is_digit(#[trigger] s[i])
}

/// `t` is two numbers joined by a decimal point at `k`.
pub open spec fn point_at(t: Seq<u8>, k: int) -> bool {
    0 <= k < t.len() && t[k] == 46 && is_number(t.take(k)) && is_number(t.skip(k + 1))
}

/// A number with up to six digits before and after an optional decimal point.
pub open spec fn is_decimal(t: Seq<u8>) -> bool {
    is_number(t) || exists|k: int| point_at(t, k)
}

/// The scalar a decimal stands for, in raw units.
pub open spec fn decimal_raw(t: Seq<u8>) -> int {
    if is_number(t) {
        digits_value(t) * ONE
    } else {
        let k = choose|k: int| point_at(t, k);
        digits_value(t.take(k)) * ONE + digits_value(t.skip(k + 1)) * pow10(
            (6 - (t.len() - k - 1)) as nat,
        )
    }
}

/// `s` is two decimals joined by a colon at `k`.
pub open spec fn colon_at(s: Seq<u8>, k: int) -> bool {
    0 <= k < s.len() && s[k] == 58 && is_decimal(s.take(k)) && is_decimal(s.skip(k + 1))
}

/// The ratio written by `s` with its colon at `k`.
pub open spec fn ratio_at(s: Seq<u8>, k: int) -> int {
    div_spec(decimal_raw(s.take(k)), decimal_raw(s.skip(k + 1)))
}

/// A decimal holds no colon.
proof fn lemma_decimal_has_no_colon(t: Seq<u8>, i: int)
    requires
        is_decimal(t),
        0 <= i < t.len(),
    ensures
        t[i] != 58,
{
    if !is_number(t) {
        let k = choose|k: int| point_at(t, k);
        if i < k {
            assert(t.take(k)[i] == t[i]);
        } else if i > k {
            assert(t.skip(k + 1)[i - k - 1] == t[i]);
        }
    }
}

/// `10^(6 - n)` for a fraction of `n` digits.
fn fraction_scale(n: usize) -> (r: i64)
    requires
        1 <= n <= 6,
    ensures
        r == pow10((6 - n) as nat),
        1 <= r <= 100_000,
{
    reveal_with_fuel(pow10, 6);
    if n == 1 {
        100_000
    } else if n == 2 {
        10_000
    } else if n == 3 {
        1000
    } else if n == 4 {
        100
    } else if n == 5 {
        10
    } else {
        1
    }
}

/// The scalar written by `s[lo..hi]`, if it is a decimal.
fn parse_decimal(s: &[u8], lo: usize, hi: usize) -> (r: Option<i64>)
    requires
        lo <= hi <= s@.len(),
    ensures
        r is Some <==> is_decimal(s@.subrange(lo as int, hi as int)),
        r is Some ==> r.unwrap() == decimal_raw(s@.subrange(lo as int, hi as int)),
        r is Some ==> 0 <= r.unwrap() < 1_000_000_000_000,
{
    let ghost t = s@.subrange(lo as int, hi as int);
    let mut p = lo;
    while p < hi && s[p] != 46
        invariant
            lo <= p <= hi <= s@.len(),
            forall|m: int| lo <= m < p ==> s@[m] != 46,
        decreases hi - p,
    {
        p += 1;
    }
    proof {
        assert forall|k2: int| point_at(t, k2) implies k2 == p - lo by {
            if k2 > p - lo {
                assert(t.take(k2)[p - lo] == s@[p as int]);
            } else if k2 < p - lo {
                assert(t[k2] == s@[lo + k2]);
            }
        }
    }
    if p == hi {
        proof {
            assert forall|k2: int| !point_at(t, k2) by {
                if 0 <= k2 < t.len() {
                    assert(t[k2] == s@[lo + k2]);
                }
            }
        }
        match parse_number(s, lo, hi) {
            Some(v) => {
                proof {
                    lemma_digits_bound(t);
                    lemma_pow10_mono(t.len(), 6);
                    reveal_with_fuel(pow10, 7);
                }
                Some(v * ONE)
            },
            None => None,
        }
    } else {
        proof {
            assert(t[p - lo] == 46);
            assert(!is_digit(t[p - lo]));
            assert(s@.subrange(lo as int, p as int) == t.take(p - lo));
            assert(s@.subrange(p + 1, hi as int) == t.skip(p - lo + 1));
        }
        let ip = parse_number(s, lo, p);
        let fp = parse_number(s, p + 1, hi);
        match (ip, fp) {
            (Some(a), Some(b)) => {
                let scale = fraction_scale(hi - p - 1);
                proof {
                    assert(point_at(t, p - lo));
                    lemma_digits_bound(t.take(p - lo));
                    lemma_digits_bound(t.skip(p - lo + 1));
                    lemma_pow10_mono(t.take(p - lo).len(), 6);
                    lemma_pow10_mono(t.skip(p - lo + 1).len(), 6);
                    reveal_with_fuel(pow10, 7);
                    assert(pow10(6) == 1000000);
                    lemma_pow10_add((hi - p - 1) as nat, (6 - (hi - p - 1)) as nat);
                    assert(((hi - p - 1) + (6 - (hi - p - 1))) as nat == 6);
                    assert(b * scale < 1_000_000) by (nonlinear_arith)
                        requires
                            0 <= b < pow10((hi - p - 1) as nat),
                            scale == pow10((6 - (hi - p - 1)) as nat),
                            scale >= 1,
                            pow10((hi - p - 1) as nat) * pow10((6 - (hi - p - 1)) as nat)
                                == 1_000_000,
                    ;
                }
                Some(a * ONE + b * scale)
            },
            _ => None,
        }
    }
}

proof fn lemma_digits_bound(s: Seq<u8>)
    requires
        forall|i: int| 0 <= i < s.len() ==> is_digit(#[trigger] s[i]),
    ensures
        0 <= digits_value(s) < pow10(s.len()),
    decreases s.len(),
{
    if s.len() > 0 {
        assert(is_digit(s[s.len() - 1]));
        lemma_digits_bound(s.drop_last());
    }
}

pub open spec fn pow10(n: nat) -> int
    decreases n,
{
    if n == 0 {
        1
    } else {
        10 * pow10((n - 1) as nat)
    }
}

/// The value of the digits `s[lo..hi]`, if they form a number.
fn parse_number(s: &[u8], lo: usize, hi: usize) -> (r: Option<i64>)
    requires
        lo <= hi <= s@.len(),
    ensures
        r is Some <==> is_number(s@.subrange(lo as int, hi as int)),
        r is Some ==> r.unwrap() == digits_value(s@.subrange(lo as int, hi as int)),
{
    if hi - lo < 1 || hi - lo > 6 {
        return None;
    }
    let mut v: i64 = 0;
    let mut i = lo;
    while i < hi
        invariant
            lo <= i <= hi <= s@.len(),
            hi - lo <= 6,
            forall|m: int| lo <= m < i ==> is_digit(#[trigger] s@[m]),
            v == digits_value(s@.subrange(lo as int, i as int)),
            0 <= v < pow10((i - lo) as nat),
        decreases hi - i,
    {
        if s[i] < 48 || s[i] > 57 {
            proof {
                assert(s@.subrange(lo as int, hi as int)[i - lo] == s@[i as int]);
            }
            return None;
        }
        proof {
            assert(s@.subrange(lo as int, i + 1).drop_last() == s@.subrange(lo as int, i as int));
            assert(pow10((i + 1 - lo) as nat) == 10 * pow10((i - lo) as nat));
            reveal_with_fuel(pow10, 6);
            assert(pow10(5) == 100000);
            if i - lo < 5 {
                assert(pow10((i - lo) as nat) <= pow10(5)) by {
                    lemma_pow10_mono((i - lo) as nat, 5);
                }
            } else {
                assert((i - lo) as nat == 5);
            }
        }
        v = v * 10 + (s[i] - 48) as i64;
        i += 1;
    }
    proof {
        assert forall|m: int| 0 <= m < hi - lo implies is_digit(#[trigger] s@.subrange(lo as int, hi as int)[m]) by {
            assert(s@.subrange(lo as int, hi as int)[m] == s@[lo + m]);
        }
    }
    Some(v)
}

proof fn lemma_pow10_add(a: nat, b: nat)
    ensures
        pow10(a + b) == pow10(a) * pow10(b),
    decreases a,
{
    if a > 0 {
        lemma_pow10_add((a - 1) as nat, b);
        assert(((a - 1) + b) as nat + 1 == a + b);
        assert(pow10(a + b) == 10 * pow10(((a - 1) + b) as nat));
        assert(10 * (pow10((a - 1) as nat) * pow10(b)) == (10 * pow10((a - 1) as nat)) * pow10(b))
            by (nonlinear_arith);
    }
}

proof fn lemma_pow10_mono(a: nat, b: nat)
    requires
        a <= b,
    ensures
        pow10(a) <= pow10(b),
        pow10(a) >= 1,
    decreases b,
{
    if b > 0 && a < b {
        lemma_pow10_mono(a, (b - 1) as nat);
    } else if a > 0 {
        lemma_pow10_mono((a - 1) as nat, (a - 1) as nat);
    }
}

/// Read `W:H`, each side one to six digits with an optional decimal point
/// followed by one to six more (`16:9`, `1.85:1`), `H` not zero, as the
/// scalar `W / H`; anything else gives `None`.
pub fn parse_aspect_ratio(s: &[u8]) -> (r: Option<i64>)
    ensures
        r is Some <==> exists|k: int| colon_at(s@, k) && decimal_raw(s@.skip(k + 1)) > 0,
        forall|k: int| colon_at(s@, k) && decimal_raw(s@.skip(k + 1)) > 0 ==> r == Some(
            ratio_at(s@, k) as i64,
        ),
{
    let mut k: usize = 0;
    while k < s.len() && s[k] != 58
        invariant
            k <= s@.len(),
            forall|m: int| 0 <= m < k ==> s@[m] != 58,
        decreases s@.len() - k,
    {
        k += 1;
    }
    proof {
        assert forall|k2: int| colon_at(s@, k2) implies k2 == k by {
            if k2 > k {
                assert(s@.take(k2)[k as int] == s@[k as int]);
                lemma_decimal_has_no_colon(s@.take(k2), k as int);
            }
        }
    }
    if k == s.len() {
        return None;
    }
    assert(s@[k as int] == 58);
    assert(s@.subrange(0, k as int) == s@.take(k as int));
    assert(s@.subrange(k + 1, s@.len() as int) == s@.skip(k + 1));
    let num = parse_decimal(s, 0, k);
    let den = parse_decimal(s, k + 1, s.len());
    match (num, den) {
        (Some(n), Some(d)) => {
            if d == 0 {
                return None;
            }
            assert(colon_at(s@, k as int));
            Some(fixed::div(n, d))
        },
        _ => None,
    }
}

} // verus!
