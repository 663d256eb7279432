//! Decimal text for 64-bit integers, over byte sequences.
//!
//! The wire protocol carries integers and lengths as decimal text, and the
//! store interprets stored byte strings as signed 64-bit counters. Both
//! directions are verified against one pair of spec functions: `digits_val`
//! (the value of a digit string) and `decimal_nat` (the canonical digit
//! string of a value).

use vstd::prelude::*;
use vstd::slice::*;

verus! {

/// An ASCII decimal digit.
pub open spec fn is_digit(b: u8) -> bool {
    48 <= b <= 57
}

/// Every byte of `s` is an ASCII decimal digit.
pub open spec fn all_digits(s: Seq<u8>) -> bool {
    forall|i: int| 0 <= i < s.len() ==> is_digit(#[trigger] s[i])
}

/// The value of a digit string, most significant digit first.
pub open spec fn digits_val(s: Seq<u8>) -> int
    decreases s.len(),
{
    if s.len() == 0 {
        0
    } else {
        digits_val(s.drop_last()) * 10 + (s.last() - 48)
    }
}

/// What parsing a signed 64-bit integer from decimal text accepts: an
/// optional leading sign, then one or more digits, and a value in range.
pub open spec fn parse_i64_spec(s: Seq<u8>) -> Option<i64> {
    let mag = if s.len() > 0 && (s[0] == 43 || s[0] == 45) {
        s.skip(1)
    } else {
        s
    };
    let neg = s.len() > 0 && s[0] == 45;
    if mag.len() == 0 || !all_digits(mag) {
        None
    } else {
        let v = if neg {
            -digits_val(mag)
        } else {
            digits_val(mag)
        };
        if i64::MIN <= v <= i64::MAX {
            Some(v as i64)
        } else {
            None
        }
    }
}

/// What parsing an unsigned 64-bit integer from decimal text accepts: an
/// optional leading plus, then one or more digits, and a value in range.
pub open spec fn parse_u64_spec(s: Seq<u8>) -> Option<u64> {
    let mag = if s.len() > 0 && s[0] == 43 {
        s.skip(1)
    } else {
        s
    };
    if mag.len() == 0 || !all_digits(mag) {
        None
    } else if digits_val(mag) <= u64::MAX {
        Some(digits_val(mag) as u64)
    } else {
        None
    }
}

/// The canonical digit string of a nonnegative value.
pub open spec fn decimal_nat(n: nat) -> Seq<u8>
    decreases n,
{
    if n < 10 {
        seq![(48 + n) as u8]
    } else {
        decimal_nat(n / 10).push((48 + n % 10) as u8)
    }
}

/// The canonical decimal text of a signed value: a minus sign for negative
/// values, then the digits of the magnitude.
pub open spec fn decimal_i64(n: int) -> Seq<u8> {
    if n < 0 {
        seq![45u8] + decimal_nat((-n) as nat)
    } else {
        decimal_nat(n as nat)
    }
}

pub proof fn lemma_digits_val_nonneg(s: Seq<u8>)
    requires
        all_digits(s),
    ensures
        0 <= digits_val(s),
    decreases s.len(),
{
    if s.len() > 0 {
        assert forall|i: int| 0 <= i < s.drop_last().len() implies is_digit(
            #[trigger] s.drop_last()[i],
        ) by {
            assert(s.drop_last()[i] == s[i]);
        }
        lemma_digits_val_nonneg(s.drop_last());
    }
}

pub proof fn lemma_digits_val_take_step(s: Seq<u8>, j: int)
    requires
        0 <= j < s.len(),
    ensures
        digits_val(s.take(j + 1)) == digits_val(s.take(j)) * 10 + (s[j] - 48),
{
    assert(s.take(j + 1).drop_last() =~= s.take(j));
    assert(s.take(j + 1).last() == s[j]);
}

pub proof fn lemma_digits_val_take_mono(s: Seq<u8>, j: int)
    requires
        all_digits(s),
        0 <= j <= s.len(),
    ensures
        digits_val(s.take(j)) <= digits_val(s),
    decreases s.len() - j,
{
    if j < s.len() {
        lemma_digits_val_take_step(s, j);
        assert forall|i: int| 0 <= i < s.take(j).len() implies is_digit(
            #[trigger] s.take(j)[i],
        ) by {
            assert(s.take(j)[i] == s[i]);
        }
        lemma_digits_val_nonneg(s.take(j));
        lemma_digits_val_take_mono(s, j + 1);
    } else {
        assert(s.take(j) =~= s);
    }
}

/// Parse a signed 64-bit integer from decimal text.
pub fn parse_i64(s: &[u8]) -> (r: Option<i64>)
    ensures
        r == parse_i64_spec(s@),
{
    let n = s.len();
    let mut start: usize = 0;
    let mut neg: bool = false;
    if n > 0 {
        let c0 = *slice_index_get(s, 0);
        if c0 == 43 || c0 == 45 {
            neg = c0 == 45;
            start = 1;
        }
    }
    if start >= n {
        return None;
    }
    let ghost mag: Seq<u8> = if start == 1 {
        s@.skip(1)
    } else {
        s@
    };
    proof {
        assert(s@.skip(0) =~= s@);
        assert(mag == s@.skip(start as int));
    }
    let mut acc: u128 = 0;
    let mut j: usize = start;
    while j < n
        invariant
            start <= j <= n,
            n == s@.len(),
            start <= 1,
            start == 0 ==> mag == s@,
            start == 1 ==> mag == s@.skip(1),
            mag.len() == n - start,
            mag.len() >= 1,
            (start == 1) <==> (n > 0 && (s@[0] == 43 || s@[0] == 45)),
            neg <==> (n > 0 && s@[0] == 45),
            all_digits(mag.take(j - start)),
            acc == digits_val(mag.take(j - start)),
            acc <= u64::MAX,
        decreases n - j,
    {
        let c = *slice_index_get(s, j);
        proof {
            assert(mag[j - start] == s@[j as int]);
        }
        if c < 48 || c > 57 {
            assert(!is_digit(mag[j - start]));
            return None;
        }
        let d = (c - 48) as u128;
        proof {
            lemma_digits_val_take_step(mag, j - start);
        }
        let acc2 = acc * 10 + d;
        assert(acc2 == digits_val(mag.take(j + 1 - start)));
        if acc2 > 0xFFFF_FFFF_FFFF_FFFF {
            proof {
                if all_digits(mag) {
                    lemma_digits_val_take_mono(mag, j + 1 - start);
                }
            }
            return None;
        }
        proof {
            assert forall|i: int| 0 <= i < mag.take(j + 1 - start).len() implies is_digit(
                #[trigger] mag.take(j + 1 - start)[i],
            ) by {
                if i < j - start {
                    assert(mag.take(j + 1 - start)[i] == mag.take(j - start)[i]);
                } else {
                    assert(mag.take(j + 1 - start)[i] == mag[j - start]);
                }
            }
        }
        acc = acc2;
        j = j + 1;
    }
    proof {
        assert(mag.take(n - start) =~= mag);
    }
    if neg {
        if acc <= 9223372036854775807 {
            Some(-(acc as i64))
        } else if acc == 9223372036854775808 {
            Some(i64::MIN)
        } else {
            None
        }
    } else {
        if acc <= 9223372036854775807 {
            Some(acc as i64)
        } else {
            None
        }
    }
}

/// Parse an unsigned 64-bit integer from decimal text.
pub fn parse_u64(s: &[u8]) -> (r: Option<u64>)
    ensures
        r == parse_u64_spec(s@),
{
    let n = s.len();
    let mut start: usize = 0;
    if n > 0 {
        let c0 = *slice_index_get(s, 0);
        if c0 == 43 {
            start = 1;
        }
    }
    if start >= n {
        return None;
    }
    let ghost mag: Seq<u8> = if start == 1 {
        s@.skip(1)
    } else {
        s@
    };
    proof {
        assert(s@.skip(0) =~= s@);
        assert(mag == s@.skip(start as int));
    }
    let mut acc: u128 = 0;
    let mut j: usize = start;
    while j < n
        invariant
            start <= j <= n,
            n == s@.len(),
            start <= 1,
            start == 0 ==> mag == s@,
            start == 1 ==> mag == s@.skip(1),
            mag.len() == n - start,
            mag.len() >= 1,
            (start == 1) <==> (n > 0 && s@[0] == 43),
            all_digits(mag.take(j - start)),
            acc == digits_val(mag.take(j - start)),
            acc <= u64::MAX,
        decreases n - j,
    {
        let c = *slice_index_get(s, j);
        proof {
            assert(mag[j - start] == s@[j as int]);
        }
        if c < 48 || c > 57 {
            assert(!is_digit(mag[j - start]));
            return None;
        }
        let d = (c - 48) as u128;
        proof {
            lemma_digits_val_take_step(mag, j - start);
        }
        let acc2 = acc * 10 + d;
        assert(acc2 == digits_val(mag.take(j + 1 - start)));
        if acc2 > 0xFFFF_FFFF_FFFF_FFFF {
            proof {
                if all_digits(mag) {
                    lemma_digits_val_take_mono(mag, j + 1 - start);
                }
            }
            return None;
        }
        proof {
            assert forall|i: int| 0 <= i < mag.take(j + 1 - start).len() implies is_digit(
                #[trigger] mag.take(j + 1 - start)[i],
            ) by {
                if i < j - start {
                    assert(mag.take(j + 1 - start)[i] == mag.take(j - start)[i]);
                } else {
                    assert(mag.take(j + 1 - start)[i] == mag[j - start]);
                }
            }
        }
        acc = acc2;
        j = j + 1;
    }
    proof {
        assert(mag.take(n - start) =~= mag);
    }
    Some(acc as u64)
}

fn push_decimal_u64(out: &mut Vec<u8>, m: u64)
    ensures
        final(out)@ == old(out)@ + decimal_nat(m as nat),
    decreases m,
{
    if m < 10 {
        out.push((m as u8) + 48);
        proof {
            assert(out@ =~= old(out)@ + decimal_nat(m as nat));
        }
    } else {
        push_decimal_u64(out, m / 10);
        out.push(((m % 10) as u8) + 48);
        proof {
            assert(out@ =~= old(out)@ + decimal_nat(m as nat));
        }
    }
}

/// The canonical decimal text of an unsigned 64-bit value.
pub fn format_u64(m: u64) -> (r: Vec<u8>)
    ensures
        r@ == decimal_nat(m as nat),
{
    let mut v: Vec<u8> = Vec::new();
    push_decimal_u64(&mut v, m);
    proof {
        assert(v@ =~= decimal_nat(m as nat));
    }
    v
}

/// The canonical decimal text of a signed 64-bit value.
pub fn format_i64(n: i64) -> (r: Vec<u8>)
    ensures
        r@ == decimal_i64(n as int),
{
    let mut v: Vec<u8> = Vec::new();
    if n >= 0 {
        push_decimal_u64(&mut v, n as u64);
        proof {
            assert(v@ =~= decimal_i64(n as int));
        }
    } else {
        v.push(45);
        let m: u64 = if n == i64::MIN {
            9223372036854775808u64
        } else {
            (-n) as u64
        };
        push_decimal_u64(&mut v, m);
        proof {
            assert(v@ =~= decimal_i64(n as int));
        }
    }
    v
}

pub proof fn lemma_decimal_nat_digits(n: nat)
    ensures
        all_digits(decimal_nat(n)),
        decimal_nat(n).len() >= 1,
        digits_val(decimal_nat(n)) == n,
        is_digit(decimal_nat(n)[0]),
    decreases n,
{
    if n < 10 {
        assert(decimal_nat(n).drop_last() =~= Seq::<u8>::empty());
        assert(digits_val(Seq::<u8>::empty()) == 0);
    } else {
        lemma_decimal_nat_digits(n / 10);
        let s = decimal_nat(n / 10);
        let d = (48 + n % 10) as u8;
        assert(decimal_nat(n) == s.push(d));
        assert(s.push(d).drop_last() =~= s);
        assert(s.push(d).last() == d);
        assert forall|i: int| 0 <= i < s.push(d).len() implies is_digit(#[trigger] s.push(d)[i]) by {
            if i < s.len() {
                assert(s.push(d)[i] == s[i]);
            } else {
                assert(s.push(d)[i] == d);
            }
        }
        assert(digits_val(s.push(d)) == digits_val(s) * 10 + (d - 48));
        assert(digits_val(decimal_nat(n)) == (n / 10) * 10 + n % 10);
        assert((n / 10) * 10 + n % 10 == n) by (nonlinear_arith);
    }
}

pub proof fn lemma_parse_decimal_i64(n: int)
    requires
        i64::MIN <= n <= i64::MAX,
    ensures
        parse_i64_spec(decimal_i64(n)) == Some(n as i64),
{
    if n >= 0 {
        lemma_decimal_nat_digits(n as nat);
        let s = decimal_i64(n);
        assert(s == decimal_nat(n as nat));
        assert(is_digit(s[0]));
        assert(s[0] != 43 && s[0] != 45);
        assert(digits_val(s) == n);
    } else {
        lemma_decimal_nat_digits((-n) as nat);
        let s = decimal_i64(n);
        assert(s == seq![45u8] + decimal_nat((-n) as nat));
        assert(s[0] == 45);
        assert(s.skip(1) =~= decimal_nat((-n) as nat));
        assert(digits_val(s.skip(1)) == -n);
    }
}

/// Every byte of a decimal rendering is a digit or a leading minus sign.
pub proof fn lemma_decimal_i64_bytes(n: int)
    requires
        i64::MIN <= n <= i64::MAX,
    ensures
        decimal_i64(n).len() >= 1,
        forall|i: int|
            0 <= i < decimal_i64(n).len() ==> (#[trigger] decimal_i64(n)[i] == 45 || is_digit(
                decimal_i64(n)[i],
            )),
{
    let s = decimal_i64(n);
    if n >= 0 {
        lemma_decimal_nat_digits(n as nat);
    } else {
        lemma_decimal_nat_digits((-n) as nat);
        assert forall|i: int| 0 <= i < s.len() implies (#[trigger] s[i] == 45 || is_digit(
            s[i],
        )) by {
            if i >= 1 {
                assert(s[i] == decimal_nat((-n) as nat)[i - 1]);
            }
        }
    }
}

} // verus!
