//! Decimal text of integers, as the wire protocol writes and reads them.

use vstd::prelude::*;

verus! {

pub open spec fn is_digit(b: u8) -> bool {
    48 <= b && b <= 57
}

pub open spec fn all_digits(s: Seq<u8>) -> bool {
    forall|i: int| 0 <= i < s.len() ==> is_digit(#[trigger] s[i])
}

/// Value of a digit string, most significant digit first.
pub open spec fn digits_val(s: Seq<u8>) -> int
    decreases s.len(),
{
    if s.len() == 0 {
        0
    } else {
        digits_val(s.drop_last()) * 10 + (s.last() - 48)
    }
}

/// Canonical digits of a nonnegative integer, no leading zeros.
pub open spec fn dec_digits(n: nat) -> Seq<u8>
    decreases n,
{
    if n < 10 {
        seq![(48 + n) as u8]
    } else {
        dec_digits(n / 10).push((48 + n % 10) as u8)
    }
}

/// Canonical decimal text of an integer: optional minus sign, then digits.
pub open spec fn dec_int(i: int) -> Seq<u8> {
    if i < 0 {
        seq![45u8] + dec_digits((-i) as nat)
    } else {
        dec_digits(i as nat)
    }
}

/// The digit part of a decimal text: everything after an optional sign.
pub open spec fn num_body(s: Seq<u8>) -> Seq<u8> {
    if s.len() > 0 && (s[0] == 43 || s[0] == 45) {
        s.drop_first()
    } else {
        s
    }
}

pub open spec fn num_neg(s: Seq<u8>) -> bool {
    s.len() > 0 && s[0] == 45
}

/// The integer a decimal text denotes, ignoring validity.
pub open spec fn text_value(s: Seq<u8>) -> int {
    if num_neg(s) {
        -digits_val(num_body(s))
    } else {
        digits_val(num_body(s))
    }
}

/// The texts that parse as an `i64`: optional sign, one or more digits, in range.
pub open spec fn i64_text_valid(s: Seq<u8>) -> bool {
    &&& num_body(s).len() > 0
    &&& all_digits(num_body(s))
    &&& i64::MIN <= text_value(s) <= i64::MAX
}

/// The texts that parse as a `u64`: an optional plus sign only, digits, in range.
pub open spec fn u64_text_valid(s: Seq<u8>) -> bool {
    &&& num_body(s).len() > 0
    &&& all_digits(num_body(s))
    &&& !num_neg(s)
    &&& text_value(s) <= u64::MAX
}

pub proof fn lemma_digits_val_nonneg(s: Seq<u8>)
    requires
        all_digits(s),
    ensures
        digits_val(s) >= 0,
    decreases s.len(),
{
    if s.len() > 0 {
        assert(all_digits(s.drop_last()));
        lemma_digits_val_nonneg(s.drop_last());
    }
}

/// Appending a digit multiplies the value by ten and adds the digit.
pub proof fn lemma_digits_val_push(s: Seq<u8>, d: u8)
    ensures
        digits_val(s.push(d)) == digits_val(s) * 10 + (d - 48),
{
    assert(s.push(d).drop_last() =~= s);
    assert(s.push(d).last() == d);
}

/// The canonical digits of `n` are digits, are nonempty, and denote `n`.
pub proof fn lemma_dec_digits(n: nat)
    ensures
        all_digits(dec_digits(n)),
        dec_digits(n).len() >= 1,
        digits_val(dec_digits(n)) == n,
    decreases n,
{
    if n < 10 {
        assert(digits_val(dec_digits(n)) == digits_val(Seq::<u8>::empty()) * 10 + n) by {
            assert(dec_digits(n).drop_last() =~= Seq::<u8>::empty());
        }
    } else {
        lemma_dec_digits(n / 10);
        lemma_digits_val_push(dec_digits(n / 10), (48 + n % 10) as u8);
    }
}

/// Reading more digits can only move the value further from zero.
pub proof fn lemma_digits_val_prefix(s: Seq<u8>, k: int)
    requires
        all_digits(s),
        0 <= k <= s.len(),
    ensures
        digits_val(s) >= digits_val(s.subrange(0, k)),
    decreases s.len() - k,
{
    if k == s.len() {
        assert(s.subrange(0, k) =~= s);
    } else {
        let p = s.subrange(0, k);
        let q = s.subrange(0, k + 1);
        assert(q =~= p.push(s[k]));
        lemma_digits_val_push(p, s[k]);
        assert(all_digits(p));
        lemma_digits_val_nonneg(p);
        lemma_digits_val_prefix(s, k + 1);
    }
}

/// The canonical text of an in-range integer is valid and denotes it.
pub proof fn lemma_dec_int_valid(i: int)
    requires
        i64::MIN <= i <= i64::MAX,
    ensures
        i64_text_valid(dec_int(i)),
        text_value(dec_int(i)) == i,
{
    if i < 0 {
        let s = seq![45u8] + dec_digits((-i) as nat);
        lemma_dec_digits((-i) as nat);
        assert(s[0] == 45);
        assert(num_body(s) =~= dec_digits((-i) as nat));
        assert(num_neg(s));
    } else {
        let s = dec_digits(i as nat);
        lemma_dec_digits(i as nat);
        assert(is_digit(s[0]));
        assert(num_body(s) =~= s);
        assert(!num_neg(s));
    }
}

/// Decimal text never holds a carriage return or line feed.
pub proof fn lemma_dec_int_no_crlf(i: int)
    ensures
        forall|j: int| 0 <= j < dec_int(i).len() ==> #[trigger] dec_int(i)[j] != 13 && dec_int(i)[j] != 10,
{
    if i < 0 {
        lemma_dec_digits((-i) as nat);
        assert forall|j: int| 0 <= j < dec_int(i).len() implies #[trigger] dec_int(i)[j] != 13
            && dec_int(i)[j] != 10 by {
            if j > 0 {
                assert(dec_int(i)[j] == dec_digits((-i) as nat)[j - 1]);
                assert(is_digit(dec_digits((-i) as nat)[j - 1]));
            }
        }
    } else {
        lemma_dec_digits(i as nat);
        assert forall|j: int| 0 <= j < dec_int(i).len() implies #[trigger] dec_int(i)[j] != 13
            && dec_int(i)[j] != 10 by {
            assert(is_digit(dec_digits(i as nat)[j]));
        }
    }
}

/// Parse a decimal text as an `i64`, exactly when `i64_text_valid` holds of it.
pub fn parse_i64_text(s: &Vec<u8>) -> (r: Option<i64>)
    ensures
        match r {
            Some(v) => i64_text_valid(s@) && v as int == text_value(s@),
            None => !i64_text_valid(s@),
        },
{
    let n = s.len();
    if n == 0 {
        return None;
    }
    let mut idx: usize = 0;
    let mut neg: bool = false;
    let b0 = s[0];
    if b0 == 43 {
        idx = 1;
    } else if b0 == 45 {
        neg = true;
        idx = 1;
    }
    assert(num_body(s@) =~= s@.subrange(idx as int, n as int));
    assert(num_neg(s@) == neg);
    if idx >= n {
        return None;
    }
    let limit: u64 = if neg {
        9223372036854775808
    } else {
        9223372036854775807
    };
    let ghost body = s@.subrange(idx as int, n as int);
    let mut acc: u64 = 0;
    let mut i: usize = idx;
    while i < n
        invariant
            idx <= i <= n,
            n == s@.len(),
            body == s@.subrange(idx as int, n as int),
            num_body(s@) == body,
            num_neg(s@) == neg,
            body.len() > 0,
            limit == if neg { 9223372036854775808u64 } else { 9223372036854775807u64 },
            all_digits(body.subrange(0, i - idx)),
            acc as int == digits_val(body.subrange(0, i - idx)),
            acc <= limit,
        decreases n - i,
    {
        let b = s[i];
        assert(body[i - idx] == b);
        if b < 48 || b > 57 {
            assert(!is_digit(body[i - idx]));
            return None;
        }
        let d = (b - 48) as u64;
        let ghost p = body.subrange(0, i - idx);
        let ghost q = body.subrange(0, i + 1 - idx);
        assert(q =~= p.push(b));
        proof {
            lemma_digits_val_push(p, b);
        }
        if acc > (limit - d) / 10 {
            // The digits read so far already leave the 64-bit range; more
            // digits can only move the value further out.
            proof {
                assert(acc * 10 + d > limit) by {
                    assert(acc >= (limit - d) / 10 + 1);
                    assert(((limit - d) / 10 + 1) * 10 == ((limit - d) / 10) * 10 + 10);
                    assert(((limit - d) / 10) * 10 + (limit - d) % 10 == limit - d);
                };
                if all_digits(body) {
                    lemma_digits_val_prefix(body, i + 1 - idx);
                    assert(digits_val(body) >= digits_val(q));
                    assert(digits_val(q) > limit);
                }
            }
            return None;
        }
        proof {
            assert(acc * 10 + d <= limit) by {
                assert(acc <= (limit - d) / 10);
                assert(acc * 10 <= ((limit - d) / 10) * 10);
                assert(((limit - d) / 10) * 10 + (limit - d) % 10 == limit - d);
            };
        }
        acc = acc * 10 + d;
        i = i + 1;
    }
    assert(body.subrange(0, i - idx) =~= body);
    if neg {
        if acc == 9223372036854775808 {
            Some(i64::MIN)
        } else {
            Some(-(acc as i64))
        }
    } else {
        Some(acc as i64)
    }
}

/// Parse a decimal text as a `u64`, exactly when `u64_text_valid` holds of it.
pub fn parse_u64_text(s: &Vec<u8>) -> (r: Option<u64>)
    ensures
        match r {
            Some(v) => u64_text_valid(s@) && v as int == text_value(s@),
            None => !u64_text_valid(s@),
        },
{
    let n = s.len();
    if n == 0 {
        return None;
    }
    let mut idx: usize = 0;
    let b0 = s[0];
    if b0 == 45 {
        return None;
    }
    if b0 == 43 {
        idx = 1;
    }
    assert(num_body(s@) =~= s@.subrange(idx as int, n as int));
    assert(!num_neg(s@));
    if idx >= n {
        return None;
    }
    let limit: u64 = 18446744073709551615;
    let ghost body = s@.subrange(idx as int, n as int);
    let mut acc: u64 = 0;
    let mut i: usize = idx;
    while i < n
        invariant
            idx <= i <= n,
            n == s@.len(),
            body == s@.subrange(idx as int, n as int),
            num_body(s@) == body,
            !num_neg(s@),
            body.len() > 0,
            limit == 18446744073709551615u64,
            all_digits(body.subrange(0, i - idx)),
            acc as int == digits_val(body.subrange(0, i - idx)),
            acc <= limit,
        decreases n - i,
    {
        let b = s[i];
        assert(body[i - idx] == b);
        if b < 48 || b > 57 {
            assert(!is_digit(body[i - idx]));
            return None;
        }
        let d = (b - 48) as u64;
        let ghost p = body.subrange(0, i - idx);
        let ghost q = body.subrange(0, i + 1 - idx);
        assert(q =~= p.push(b));
        proof {
            lemma_digits_val_push(p, b);
        }
        if acc > (limit - d) / 10 {
            proof {
                assert(acc * 10 + d > limit) by {
                    assert(acc >= (limit - d) / 10 + 1);
                    assert(((limit - d) / 10 + 1) * 10 == ((limit - d) / 10) * 10 + 10);
                    assert(((limit - d) / 10) * 10 + (limit - d) % 10 == limit - d);
                };
                if all_digits(body) {
                    lemma_digits_val_prefix(body, i + 1 - idx);
                }
            }
            return None;
        }
        proof {
            assert(acc * 10 + d <= limit) by {
                assert(acc <= (limit - d) / 10);
                assert(acc * 10 <= ((limit - d) / 10) * 10);
                assert(((limit - d) / 10) * 10 + (limit - d) % 10 == limit - d);
            };
        }
        acc = acc * 10 + d;
        i = i + 1;
    }
    assert(body.subrange(0, i - idx) =~= body);
    Some(acc)
}

/// Write the canonical digits of `n`.
pub fn fmt_u64(n: u64) -> (r: Vec<u8>)
    ensures
        r@ == dec_digits(n as nat),
    decreases n,
{
    if n < 10 {
        let mut v: Vec<u8> = Vec::new();
        v.push(48 + n as u8);
        assert(v@ =~= dec_digits(n as nat));
        v
    } else {
        let mut v = fmt_u64(n / 10);
        v.push(48 + (n % 10) as u8);
        assert(v@ =~= dec_digits(n as nat));
        v
    }
}

/// Write the canonical decimal text of `i`.
pub fn fmt_i64(i: i64) -> (r: Vec<u8>)
    ensures
        r@ == dec_int(i as int),
{
    if i >= 0 {
        fmt_u64(i as u64)
    } else {
        let m: u64 = ((-1 - i) as u64) + 1;
        assert(m as int == -(i as int));
        let mut v: Vec<u8> = Vec::new();
        v.push(45);
        let mut d = fmt_u64(m);
        v.append(&mut d);
        assert(v@ =~= dec_int(i as int));
        v
    }
}

/// Write the canonical decimal text of a length.
pub fn fmt_usize(n: usize) -> (r: Vec<u8>)
    ensures
        r@ == dec_int(n as int),
{
    fmt_u64(n as u64)
}

} // verus!
