//! Decimal integers as they appear in protocol headers and integer replies.
//!
//! `decimal_text` is the one canonical rendering of an integer; `decimal_value`
//! is the more tolerant reading that a decoder applies to a header line.

use vstd::prelude::*;

verus! {

/// The byte of the minus sign.
pub const MINUS: u8 = 45;

/// The byte of the plus sign.
pub const PLUS: u8 = 43;

/// The byte of the digit zero.
pub const ZERO: u8 = 48;

/// The byte of the digit nine.
pub const NINE: u8 = 57;

pub open spec fn is_digit(b: u8) -> bool {
    ZERO <= b <= NINE
}

pub open spec fn all_digits(s: Seq<u8>) -> bool {
    forall|i: int| 0 <= i < s.len() ==> is_digit(#[trigger] s[i])
}

/// The digits of `n`, most significant first, with no leading zero
/// (zero itself is the single digit `0`).
pub open spec fn digits_of(n: nat) -> Seq<u8>
    decreases n,
{
    if n < 10 {
        seq![(ZERO + n) as u8]
    } else {
        digits_of(n / 10).push((ZERO + n % 10) as u8)
    }
}

/// The canonical text of an integer: a minus sign for negative numbers,
/// then the digits of its magnitude.
pub open spec fn decimal_text(i: int) -> Seq<u8> {
    if i < 0 {
        seq![MINUS] + digits_of((-i) as nat)
    } else {
        digits_of(i as nat)
    }
}

/// The number that a run of digits denotes; leading zeros are allowed.
pub open spec fn digits_value(s: Seq<u8>) -> nat
    decreases s.len(),
{
    if s.len() == 0 {
        0
    } else {
        digits_value(s.drop_last()) * 10 + (s.last() - ZERO) as nat
    }
}

pub open spec fn has_sign(s: Seq<u8>) -> bool {
    s.len() > 0 && (s[0] == MINUS || s[0] == PLUS)
}

/// The 64-bit signed integer that `s` denotes, if any: an optional sign,
/// then at least one digit, with a value that fits in 64 bits. Anything
/// else, including surrounding white space, denotes nothing.
pub open spec fn decimal_value(s: Seq<u8>) -> Option<int> {
    let body = if has_sign(s) { s.skip(1) } else { s };
    let magnitude = digits_value(body) as int;
    let value = if has_sign(s) && s[0] == MINUS { -magnitude } else { magnitude };
    if body.len() > 0 && all_digits(body) && i64::MIN <= value <= i64::MAX {
        Some(value)
    } else {
        None
    }
}

/// Whether `s` is the canonical text of the integer it denotes.
pub open spec fn is_canonical_decimal(s: Seq<u8>) -> bool {
    decimal_value(s) matches Some(v) && decimal_text(v) == s
}

pub proof fn lemma_digits_of(n: nat)
    ensures
        digits_of(n).len() >= 1,
        all_digits(digits_of(n)),
        digits_value(digits_of(n)) == n,
    decreases n,
{
    let d = digits_of(n);
    if n >= 10 {
        lemma_digits_of(n / 10);
        assert(d.drop_last() =~= digits_of(n / 10));
        assert(d.last() == (ZERO + n % 10) as u8);
        assert forall|i: int| 0 <= i < d.len() implies is_digit(#[trigger] d[i]) by {
            if i < d.len() - 1 {
                assert(d[i] == digits_of(n / 10)[i]);
            }
        }
    } else {
        assert(d.drop_last() =~= Seq::<u8>::empty());
        assert(digits_value(d.drop_last()) == 0);
        assert(d.last() == (ZERO + n) as u8);
    }
}

/// Reading the canonical text of a 64-bit integer gives the integer back.
pub proof fn lemma_decimal_text_value(i: int)
    requires
        i64::MIN <= i <= i64::MAX,
    ensures
        decimal_value(decimal_text(i)) == Some(i),
        is_canonical_decimal(decimal_text(i)),
{
    let t = decimal_text(i);
    if i < 0 {
        lemma_digits_of((-i) as nat);
        assert(t.skip(1) =~= digits_of((-i) as nat));
    } else {
        lemma_digits_of(i as nat);
        assert(is_digit(t[0]));
    }
}

pub proof fn lemma_digits_value_prefix(s: Seq<u8>, k: int)
    requires
        all_digits(s),
        0 <= k <= s.len(),
    ensures
        digits_value(s.take(k)) <= digits_value(s),
    decreases s.len(),
{
    if k < s.len() {
        lemma_digits_value_prefix(s.drop_last(), k);
        assert(s.drop_last().take(k) =~= s.take(k));
        assert(is_digit(s.last()));
    } else {
        assert(s.take(k) =~= s);
    }
}

fn push_digits(n: u64, out: &mut Vec<u8>)
    ensures
        final(out)@ == old(out)@ + digits_of(n as nat),
    decreases n,
{
    if n >= 10 {
        push_digits(n / 10, out);
    }
    out.push(ZERO + (n % 10) as u8);
    assert(out@ =~= old(out)@ + digits_of(n as nat));
}

/// Appends the canonical text of `n` to `out`.
pub fn push_decimal(n: i64, out: &mut Vec<u8>)
    ensures
        final(out)@ == old(out)@ + decimal_text(n as int),
{
    if n < 0 {
        out.push(MINUS);
        let magnitude: u64 = (-(n + 1)) as u64 + 1;
        push_digits(magnitude, out);
        assert(out@ =~= old(out)@ + decimal_text(n as int));
    } else {
        push_digits(n as u64, out);
    }
}

/// Appends the canonical text of a length or count to `out`.
pub fn push_length(n: usize, out: &mut Vec<u8>)
    ensures
        final(out)@ == old(out)@ + decimal_text(n as int),
{
    push_digits(n as u64, out);
}

/// Reads `s` as a 64-bit signed decimal integer.
pub fn parse_decimal(s: &[u8]) -> (r: Option<i64>)
    ensures
        decimal_value(s@) == match r {
            Some(v) => Some(v as int),
            None => None,
        },
{
    let n = s.len();
    if n == 0 {
        return None;
    }
    let negative = s[0] == MINUS;
    let start: usize = if negative || s[0] == PLUS { 1 } else { 0 };
    if start == n {
        return None;
    }
    let limit: u64 = if negative { 9223372036854775808 } else { 9223372036854775807 };
    let ghost body = s@.skip(start as int);
    assert(has_sign(s@) <==> start == 1);
    assert(!has_sign(s@) ==> body =~= s@);
    assert(body.take(0) =~= Seq::<u8>::empty());
    let mut acc: u64 = 0;
    let mut i: usize = start;
    while i < n
        invariant
            start <= i <= n,
            n == s.len(),
            body == (if has_sign(s@) { s@.skip(1) } else { s@ }),
            body.len() == n - start,
            negative == (has_sign(s@) && s@[0] == MINUS),
            limit == (if negative { 9223372036854775808u64 } else { 9223372036854775807u64 }),
            all_digits(body.take(i - start)),
            acc == digits_value(body.take(i - start)),
            acc <= limit,
        decreases n - i,
    {
        let b = s[i];
        if b < ZERO || b > NINE {
            assert(!is_digit(body[i - start]));
            assert(!all_digits(body));
            return None;
        }
        let d: u64 = (b - ZERO) as u64;
        proof {
            let next = body.take(i - start + 1);
            assert(next.drop_last() =~= body.take(i - start));
            assert(next.last() == b);
            assert(digits_value(next) == acc * 10 + d);
            assert forall|j: int| 0 <= j < next.len() implies is_digit(#[trigger] next[j]) by {
                if j < i - start {
                    assert(next[j] == body.take(i - start)[j]);
                }
            }
        }
        if acc > (limit - d) / 10 {
            proof {
                if all_digits(body) {
                    lemma_digits_value_prefix(body, i - start + 1);
                }
            }
            return None;
        }
        acc = acc * 10 + d;
        i += 1;
    }
    assert(body.take(n - start) =~= body);
    if negative {
        if acc == 9223372036854775808 {
            Some(i64::MIN)
        } else {
            Some(-(acc as i64))
        }
    } else {
        Some(acc as i64)
    }
}

} // verus!
