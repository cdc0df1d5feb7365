//! Base-10 signed integers as byte strings: the representation INCR reads and
//! writes. `parse_int_spec` fixes which byte strings denote an in-range
//! integer, `dec_str` fixes the canonical rendering, and the executable
//! `parse_i64` / `format_i64` are proved against them.

use vstd::prelude::*;

verus! {

/// ASCII digit `'0'..='9'`.
pub open spec fn is_digit(b: u8) -> bool {
    48 <= b && b <= 57
}

/// Numeric value of an ASCII digit byte.
pub open spec fn digit_val(b: u8) -> int {
    b as int - 48
}

/// Value of a run of digit bytes, most significant first.
pub open spec fn dec_val(s: Seq<u8>) -> int
    decreases s.len(),
{
    if s.len() == 0 {
        0
    } else {
        dec_val(s.drop_last()) * 10 + digit_val(s.last())
    }
}

pub open spec fn all_digits(s: Seq<u8>) -> bool {
    forall|i: int| 0 <= i < s.len() ==> is_digit(s[i])
}

/// The digit run of an integer literal: everything after an optional sign.
pub open spec fn digits_part(s: Seq<u8>) -> Seq<u8> {
    if s.len() > 0 && (s[0] == 43 || s[0] == 45) {
        s.skip(1)
    } else {
        s
    }
}

/// An optional `+`/`-` sign followed by at least one digit.
pub open spec fn is_int_literal(s: Seq<u8>) -> bool {
    digits_part(s).len() > 0 && all_digits(digits_part(s))
}

/// The (unbounded) integer a well-formed literal denotes.
pub open spec fn int_val(s: Seq<u8>) -> int {
    if s.len() > 0 && s[0] == 45 {
        -dec_val(digits_part(s))
    } else {
        dec_val(digits_part(s))
    }
}

/// What parsing a byte string as a signed 64-bit integer yields: the denoted
/// value when the string is a well-formed literal and the value fits, nothing
/// otherwise (malformed text and out-of-range values fail alike).
pub open spec fn parse_int_spec(s: Seq<u8>) -> Option<int> {
    if is_int_literal(s) && i64::MIN <= int_val(s) && int_val(s) <= i64::MAX {
        Some(int_val(s))
    } else {
        None
    }
}

/// Canonical digit string of `n >= 0`, no sign, no leading zero except for 0.
pub open spec fn dec_str_nat(n: int) -> Seq<u8>
    recommends
        n >= 0,
    decreases n,
{
    if n < 10 {
        seq![(48 + n) as u8]
    } else {
        dec_str_nat(n / 10).push((48 + n % 10) as u8)
    }
}

/// Canonical decimal rendering of an integer: `-` followed by the digit
/// string of the magnitude when negative.
pub open spec fn dec_str(n: int) -> Seq<u8> {
    if n < 0 {
        seq![45u8] + dec_str_nat(-n)
    } else {
        dec_str_nat(n)
    }
}

proof fn lemma_dec_val_nonneg(s: Seq<u8>)
    requires
        all_digits(s),
    ensures
        dec_val(s) >= 0,
    decreases s.len(),
{
    if s.len() > 0 {
        assert(all_digits(s.drop_last()));
        lemma_dec_val_nonneg(s.drop_last());
    }
}

/// The canonical digit string of `n` really is a digit run denoting `n`.
proof fn lemma_dec_str_nat(n: int)
    requires
        n >= 0,
    ensures
        all_digits(dec_str_nat(n)),
        dec_str_nat(n).len() >= 1,
        dec_val(dec_str_nat(n)) == n,
        is_digit(dec_str_nat(n)[0]),
    decreases n,
{
    if n < 10 {
        let s = dec_str_nat(n);
        assert(s =~= seq![(48 + n) as u8]);
        assert(s.drop_last() =~= Seq::<u8>::empty());
        assert(dec_val(s) == dec_val(s.drop_last()) * 10 + digit_val(s.last()));
        assert(dec_val(s) == n);
    } else {
        lemma_dec_str_nat(n / 10);
        let p = dec_str_nat(n / 10);
        let s = dec_str_nat(n);
        let d: u8 = (48 + n % 10) as u8;
        assert(s == p.push(d));
        assert(s.drop_last() =~= p);
        assert(s.last() == d);
        assert(dec_val(s) == dec_val(p) * 10 + digit_val(d));
        assert(n == 10 * (n / 10) + n % 10);
        assert(forall|i: int| 0 <= i < s.len() ==> is_digit(#[trigger] s[i])) by {
            assert(forall|i: int| 0 <= i < p.len() ==> s[i] == p[i]);
        }
    }
}

/// Round trip: the canonical rendering of any 64-bit value parses back to it.
pub proof fn lemma_parse_dec_str(n: int)
    requires
        i64::MIN <= n <= i64::MAX,
    ensures
        parse_int_spec(dec_str(n)) == Some(n),
{
    if n >= 0 {
        lemma_dec_str_nat(n);
        let s = dec_str(n);
        assert(s == dec_str_nat(n));
        assert(is_digit(s[0]));
        assert(digits_part(s) == s);
        assert(int_val(s) == n);
    } else {
        lemma_dec_str_nat(-n);
        let s = dec_str(n);
        assert(s == seq![45u8] + dec_str_nat(-n));
        assert(s[0] == 45);
        assert(digits_part(s) =~= dec_str_nat(-n));
        assert(dec_val(digits_part(s)) == -n);
        assert(int_val(s) == n);
    }
}

/// Parses a byte string as a signed base-10 64-bit integer, per
/// `parse_int_spec`: optional sign, one or more digits, value within range.
pub fn parse_i64(s: &[u8]) -> (r: Option<i64>)
    ensures
        (r is Some) == (parse_int_spec(s@) is Some),
        r matches Some(n) ==> parse_int_spec(s@) == Some(n as int),
{
    let len = s.len();
    let mut start: usize = 0;
    let mut neg = false;
    if len > 0 && (s[0] == 43 || s[0] == 45) {
        neg = s[0] == 45;
        start = 1;
    }
    if start >= len {
        // no digits at all
        return None;
    }
    let ghost digits = s@.skip(start as int);
    proof {
        assert(digits == digits_part(s@));
        assert(digits.len() > 0);
    }
    // Magnitude, saturated just above the largest magnitude of any i64
    // (2^63): once the true value exceeds 2^63 the literal is out of range
    // whatever the remaining digits are, so the exact value no longer
    // matters.
    let mut acc: u64 = 0;
    let mut i: usize = start;
    while i < len
        invariant
            start <= i <= len,
            len == s@.len(),
            digits == s@.skip(start as int),
            digits == digits_part(s@),
            neg == (s@.len() > 0 && s@[0] == 45),
            all_digits(digits.take(i - start)),
            dec_val(digits.take(i - start)) <= 9223372036854775808 ==> acc == dec_val(
                digits.take(i - start),
            ),
            dec_val(digits.take(i - start)) > 9223372036854775808 ==> acc
                == 9223372036854775809u64,
        decreases len - i,
    {
        let b = s[i];
        if b < 48 || b > 57 {
            proof {
                assert(digits[i - start] == b);
                assert(!is_digit(digits[i - start]));
                assert(!all_digits(digits_part(s@)));
            }
            return None;
        }
        let d = (b - 48) as u64;
        let ghost j = i as int - start;
        proof {
            assert(digits.take(j + 1).drop_last() =~= digits.take(j));
            assert(digits.take(j + 1).last() == digits[j]);
            assert(digits[j] == b);
            assert(dec_val(digits.take(j + 1)) == dec_val(digits.take(j)) * 10 + digit_val(b));
            assert(forall|k: int|
                0 <= k < j + 1 ==> is_digit(#[trigger] digits.take(j + 1)[k])) by {
                assert(forall|k: int| 0 <= k < j ==> digits.take(j + 1)[k] == digits.take(j)[k]);
            }
        }
        if acc <= 922337203685477580 {
            acc = acc * 10 + d;
        } else {
            acc = 9223372036854775809;
        }
        i += 1;
    }
    proof {
        assert(digits.take(len - start) =~= digits);
        assert(is_int_literal(s@));
        lemma_dec_val_nonneg(digits);
        if neg {
            assert(s@[0] == 45);
            assert(int_val(s@) == -dec_val(digits));
        } else {
            assert(!(s@.len() > 0 && s@[0] == 45));
            assert(int_val(s@) == dec_val(digits));
        }
    }
    if neg {
        if acc <= 9223372036854775807 {
            Some(-(acc as i64))
        } else if acc == 9223372036854775808 {
            Some(i64::MIN)
        } else {
            None
        }
    } else {
        if acc <= 9223372036854775807 {
            Some(acc as i64)
        } else {
            None
        }
    }
}

/// Renders `n` as its canonical decimal byte string, per `dec_str`.
/// The smallest 64-bit value is excluded: its magnitude has no 64-bit
/// representation, and no caller ever renders it (an increment's result is
/// always above it).
pub fn format_i64(n: i64) -> (r: Vec<u8>)
    requires
        n > i64::MIN,
    ensures
        r@ == dec_str(n as int),
{
    let neg = n < 0;
    let mut m: u64 = if neg {
        (-n) as u64
    } else {
        n as u64
    };
    let ghost mag = m as int;
    let mut out: Vec<u8> = Vec::new();
    if m == 0 {
        out.push(48);
        proof {
            assert(dec_str_nat(0) =~= seq![48u8]);
            assert(out@ =~= seq![48u8]);
        }
    }
    while m > 0
        invariant
            m >= 0,
            m > 0 ==> dec_str_nat(mag) == dec_str_nat(m as int) + out@,
            m == 0 ==> dec_str_nat(mag) == out@,
        decreases m,
    {
        let ghost m0 = m as int;
        let d: u8 = (m % 10) as u8 + 48;
        out.insert(0, d);
        m = m / 10;
        proof {
            assert(d == (48 + m0 % 10) as u8);
            assert(out@ =~= seq![d] + out@.skip(1));
            if m0 < 10 {
                assert(dec_str_nat(m0) == seq![(48 + m0) as u8]);
                assert(m0 % 10 == m0);
                assert(dec_str_nat(mag) =~= dec_str_nat(m0) + out@.skip(1));
                assert(dec_str_nat(mag) =~= out@);
            } else {
                assert(dec_str_nat(m0) == dec_str_nat(m0 / 10).push(d));
                assert(dec_str_nat(m0) =~= dec_str_nat(m0 / 10) + seq![d]);
                assert(dec_str_nat(mag) =~= dec_str_nat(m0 / 10) + out@);
            }
        }
    }
    if neg {
        out.insert(0, 45);
        proof {
            assert(out@ =~= seq![45u8] + out@.skip(1));
            assert(dec_str(n as int) == seq![45u8] + dec_str_nat(mag));
            assert(out@ =~= dec_str(n as int));
        }
    }
    out
}

} // verus!
