//! Decimal text of integers, expiration arithmetic, and the value
//! transcoding used by the executor.

use vstd::prelude::*;
use crate::error::Expiration;

pub mod common;
pub mod string;

verus! {

/// Is `b` an ASCII decimal digit?
pub open spec fn is_digit(b: u8) -> bool {
    48 <= b <= 57
}

/// Are all bytes of `s` ASCII decimal digits?
pub open spec fn all_digits(s: Seq<u8>) -> bool {
    forall|i: int| 0 <= i < s.len() ==> is_digit(#[trigger] s[i])
}

/// The number denoted by a digit string (most significant first).
pub open spec fn dec_val(s: Seq<u8>) -> int
    decreases s.len(),
{
    if s.len() == 0 {
        0
    } else {
        dec_val(s.drop_last()) * 10 + (s.last() - 48)
    }
}

/// The canonical decimal digits of `n`: no sign, no leading zero.
pub open spec fn dec_digits(n: nat) -> Seq<u8>
    decreases n,
{
    if n < 10 {
        seq![(48 + n) as u8]
    } else {
        dec_digits(n / 10).push((48 + n % 10) as u8)
    }
}

/// The canonical decimal text of a signed 64-bit integer.
pub open spec fn fmt_i64(i: i64) -> Seq<u8> {
    if i >= 0 {
        dec_digits(i as nat)
    } else {
        seq![45u8] + dec_digits((-(i as int)) as nat)
    }
}

/// `dec_digits` really is the canonical representation of `n`.
pub proof fn lemma_dec_digits(n: nat)
    ensures
        all_digits(dec_digits(n)),
        dec_digits(n).len() >= 1,
        dec_val(dec_digits(n)) == n,
        dec_digits(n)[0] != 48 || n < 10,
    decreases n,
{
    if n < 10 {
        let s = dec_digits(n);
        assert(s =~= seq![(48 + n) as u8]);
        assert(s.drop_last() =~= Seq::<u8>::empty());
        assert(dec_val(Seq::<u8>::empty()) == 0);
        assert(dec_val(s) == dec_val(s.drop_last()) * 10 + (s.last() - 48));
    } else {
        lemma_dec_digits(n / 10);
        let d = dec_digits(n / 10);
        let whole = d.push((48 + n % 10) as u8);
        assert(whole.drop_last() =~= d);
        assert(whole.last() == (48 + n % 10) as u8);
        assert(dec_val(whole) == dec_val(d) * 10 + n % 10);
        assert(dec_val(d) * 10 + n % 10 == n) by {
            assert(n / 10 * 10 + n % 10 == n) by (nonlinear_arith);
        }
        assert(all_digits(whole)) by {
            assert(forall|i: int| 0 <= i < d.len() ==> whole[i] == #[trigger] d[i]);
        }
        assert(whole[0] == d[0]);
    }
}

/// Appending one digit multiplies the value by ten and adds the digit.
pub proof fn lemma_dec_val_push(s: Seq<u8>, b: u8)
    ensures
        dec_val(s.push(b)) == dec_val(s) * 10 + (b - 48),
{
    assert(s.push(b).drop_last() =~= s);
    assert(s.push(b).last() == b);
}

/// A digit string's value only grows as more digits are read.
pub proof fn lemma_dec_val_prefix_le(s: Seq<u8>, i: int, j: int)
    requires
        all_digits(s),
        0 <= i <= j <= s.len(),
    ensures
        dec_val(s.subrange(0, i)) <= dec_val(s.subrange(0, j)),
    decreases j - i,
{
    if i < j {
        let p = s.subrange(0, j - 1);
        let q = s.subrange(0, j);
        assert(q.drop_last() =~= p);
        assert(all_digits(p)) by {
            assert(forall|k: int| 0 <= k < p.len() ==> p[k] == #[trigger] s[k]);
        }
        lemma_dec_val_nonneg(p);
        assert(is_digit(q.last())) by {
            assert(q.last() == s[j - 1]);
        }
        assert(dec_val(q) >= dec_val(p)) by {
            assert(dec_val(q) == dec_val(p) * 10 + (q.last() - 48));
            assert(dec_val(p) * 10 >= dec_val(p)) by (nonlinear_arith)
                requires dec_val(p) >= 0;
        }
        lemma_dec_val_prefix_le(s, i, j - 1);
    }
}

/// The value of a digit string is never negative.
pub proof fn lemma_dec_val_nonneg(s: Seq<u8>)
    requires
        all_digits(s),
    ensures
        dec_val(s) >= 0,
    decreases s.len(),
{
    if s.len() > 0 {
        assert(all_digits(s.drop_last())) by {
            assert(forall|i: int|
                0 <= i < s.len() - 1 ==> s.drop_last()[i] == #[trigger] s[i]);
        }
        lemma_dec_val_nonneg(s.drop_last());
        assert(dec_val(s.drop_last()) * 10 >= 0) by (nonlinear_arith)
            requires dec_val(s.drop_last()) >= 0;
    }
}

/// Read an unsigned decimal from `s[from..]`. `None` when the range is
/// empty, holds a non-digit, or the value does not fit in `u64`.
pub fn parse_digits_u64(s: &[u8], from: usize) -> (r: Option<u64>)
    requires
        from <= s@.len(),
    ensures
        match r {
            Some(v) => {
                &&& s@.len() > from
                &&& all_digits(s@.skip(from as int))
                &&& v == dec_val(s@.skip(from as int))
            },
            None => {
                let d = s@.skip(from as int);
                d.len() == 0 || !all_digits(d) || dec_val(d) > u64::MAX
            },
        },
{
    let ghost whole = s@.skip(from as int);
    let n = s.len();
    if from >= n {
        return None;
    }
    let mut val: u64 = 0;
    let mut i: usize = from;
    while i < n
        invariant
            from <= i <= n,
            n == s@.len(),
            whole == s@.skip(from as int),
            all_digits(whole.subrange(0, i - from)),
            val == dec_val(whole.subrange(0, i - from)),
        decreases n - i,
    {
        let b = s[i];
        if b < 48 || b > 57 {
            assert(!all_digits(whole)) by {
                assert(whole[i - from] == b);
            }
            return None;
        }
        let d = (b - 48) as u64;
        let ghost prefix = whole.subrange(0, i - from);
        let ghost next = whole.subrange(0, i + 1 - from);
        proof {
            assert(next =~= prefix.push(b));
            lemma_dec_val_push(prefix, b);
            assert(all_digits(next));
        }
        if val > (u64::MAX - d) / 10 {
            // The running value would pass `u64::MAX`; the whole string is
            // then out of range as well.
            proof {
                assert(dec_val(next) > u64::MAX) by {
                    assert(dec_val(next) == val * 10 + d);
                    assert(val * 10 + d > u64::MAX) by (nonlinear_arith)
                        requires
                            val > (u64::MAX - d) / 10,
                            0 <= d <= 9,
                            val <= u64::MAX;
                }
                if all_digits(whole) {
                    lemma_dec_val_prefix_le(whole, i + 1 - from, whole.len() as int);
                    assert(whole.subrange(0, whole.len() as int) =~= whole);
                }
            }
            return None;
        }
        proof {
            assert(val * 10 + d <= u64::MAX) by (nonlinear_arith)
                requires
                    val <= (u64::MAX - d) / 10,
                    0 <= d <= 9;
        }
        val = val * 10 + d;
        i = i + 1;
    }
    proof {
        assert(whole.subrange(0, n - from) =~= whole);
    }
    Some(val)
}

/// What a signed decimal string denotes as an `i64`, if anything:
/// an optional leading minus sign, then digits, value in range.
pub open spec fn i64_text_val(s: Seq<u8>) -> Option<i64> {
    if s.len() >= 2 && s[0] == 45 {
        let mag = dec_val(s.skip(1));
        if all_digits(s.skip(1)) && mag <= 0x8000_0000_0000_0000 {
            Some((-mag) as i64)
        } else {
            None
        }
    } else if s.len() >= 1 && all_digits(s) && dec_val(s) <= i64::MAX {
        Some(dec_val(s) as i64)
    } else {
        None
    }
}

/// Parse a signed decimal integer out of `s`.
pub fn parse_i64_text(s: &[u8]) -> (r: Option<i64>)
    ensures
        r == i64_text_val(s@),
{
    let n = s.len();
    if n >= 2 && s[0] == 45 {
        match parse_digits_u64(s, 1) {
            Some(v) => {
                if v <= 0x8000_0000_0000_0000 {
                    if v == 0x8000_0000_0000_0000 {
                        Some(i64::MIN)
                    } else {
                        Some(-(v as i64))
                    }
                } else {
                    None
                }
            },
            None => {
                proof {
                    if all_digits(s@.skip(1)) && dec_val(s@.skip(1)) <= 0x8000_0000_0000_0000 {
                        assert(dec_val(s@.skip(1)) <= u64::MAX);
                    }
                }
                None
            },
        }
    } else {
        match parse_digits_u64(s, 0) {
            Some(v) => {
                proof {
                    assert(s@.skip(0) =~= s@);
                }
                if v <= i64::MAX as u64 {
                    Some(v as i64)
                } else {
                    None
                }
            },
            None => {
                proof {
                    assert(s@.skip(0) =~= s@);
                    if s@.len() >= 1 && all_digits(s@) && dec_val(s@) <= i64::MAX {
                        assert(dec_val(s@) <= u64::MAX);
                    }
                }
                None
            },
        }
    }
}

/// The absolute deadline in milliseconds that an expiration option names,
/// as plain integer arithmetic.
pub open spec fn deadline_of(exp: Expiration, now_ms: u64) -> int {
    match exp {
        Expiration::EX(s) => now_ms + s * 1000,
        Expiration::PX(ms) => now_ms + ms,
        Expiration::EXAT(s) => s * 1000,
        Expiration::PXAT(ms) => ms as int,
    }
}

/// The absolute deadline of an expiration option, given the cached clock.
/// The caller keeps the result inside `u64`.
pub fn calculate_expiration_timestamp_ms(expiration: &Expiration, now_ms: u64) -> (r: u64)
    requires
        deadline_of(*expiration, now_ms) <= u64::MAX,
    ensures
        r == deadline_of(*expiration, now_ms),
{
    match expiration {
        Expiration::PX(ms) => now_ms + ms,
        Expiration::EX(s) => now_ms + s * 1000,
        Expiration::EXAT(s) => s * 1000,
        Expiration::PXAT(ms) => *ms,
    }
}

/// As `calculate_expiration_timestamp_ms`, but reporting a deadline that
/// does not fit in the clock's 64 bits instead of requiring it away.
pub fn checked_expiration_timestamp_ms(expiration: &Expiration, now_ms: u64) -> (r: Option<u64>)
    ensures
        match r {
            Some(v) => v == deadline_of(*expiration, now_ms) && deadline_of(
                *expiration,
                now_ms,
            ) <= u64::MAX,
            None => deadline_of(*expiration, now_ms) > u64::MAX,
        },
{
    match expiration {
        Expiration::PX(ms) => now_ms.checked_add(*ms),
        Expiration::EX(s) => match s.checked_mul(1000) {
            Some(scaled) => now_ms.checked_add(scaled),
            None => {
                proof {
                    assert(*s * 1000 > u64::MAX ==> now_ms + *s * 1000 > u64::MAX);
                }
                None
            },
        },
        Expiration::EXAT(s) => s.checked_mul(1000),
        Expiration::PXAT(ms) => Some(*ms),
    }
}

/// What a signed decimal string with an optional leading plus denotes
/// as an `i64`, if anything: `['+' | '-'] digit+`, value in range.
pub open spec fn i64_relaxed_text_val(s: Seq<u8>) -> Option<i64> {
    if s.len() >= 2 && s[0] == 43 {
        let mag = dec_val(s.skip(1));
        if all_digits(s.skip(1)) && mag <= i64::MAX {
            Some(mag as i64)
        } else {
            None
        }
    } else {
        i64_text_val(s)
    }
}

/// Relies on `lexical_core::parse::<i64>`: a validating parse of the
/// whole byte string — an optional `+` or `-` sign, then one or more
/// decimal digits — rejecting empty input, stray bytes, and values out
/// of the 64-bit range.
#[verifier::external_body]
pub fn bytes_to_i64_fast(b: &Vec<u8>) -> (r: Option<i64>)
    ensures
        r == i64_relaxed_text_val(b@),
{
    lexical_core::parse::<i64>(b.as_slice()).ok()
}

/// Relies on `itoa::Buffer::format::<i64>`: the canonical decimal text of
/// the integer, a minus sign first when it is negative.
#[verifier::external_body]
pub fn parse_int_from_bytes(i: i64) -> (r: Vec<u8>)
    ensures
        r@ == fmt_i64(i),
{
    let mut buffer = itoa::Buffer::new();
    let printed = buffer.format(i);
    printed.as_bytes().to_vec()
}

} // verus!
