//! Decimal numerals as byte strings: how the protocol writes lengths,
//! integers, stream ids and time-outs.

use vstd::prelude::*;

verus! {

/// Whether `b` is one of the ASCII digits `0` to `9`.
pub open spec fn is_digit_byte(b: u8) -> bool {
    48 <= b <= 57
}

/// Whether every byte of `s` is an ASCII digit.
pub open spec fn all_digits(s: Seq<u8>) -> bool {
    forall|i: int| 0 <= i < s.len() ==> is_digit_byte(#[trigger] s[i])
}

/// The shortest decimal numeral of `n`, most significant digit first.
pub open spec fn decimal(n: nat) -> Seq<u8>
    decreases n,
{
    if n < 10 {
        seq![(48 + n) as u8]
    } else {
        decimal(n / 10).push((48 + n % 10) as u8)
    }
}

/// The decimal numeral of `n`, with a leading minus sign when it is negative.
pub open spec fn signed_decimal(n: int) -> Seq<u8> {
    if n < 0 {
        seq![45u8] + decimal((-n) as nat)
    } else {
        decimal(n as nat)
    }
}

/// The number that a string of digits denotes; leading zeros are allowed and
/// the empty string denotes zero.
pub open spec fn decimal_value(s: Seq<u8>) -> nat
    decreases s.len(),
{
    if s.len() == 0 {
        0
    } else {
        (decimal_value(s.drop_last()) * 10 + (s.last() - 48)) as nat
    }
}

/// A numeral is canonical when it is non-empty, all digits, and has no
/// superfluous leading zero.
pub open spec fn is_canonical_numeral(s: Seq<u8>) -> bool {
    &&& s.len() > 0
    &&& all_digits(s)
    &&& (s.len() > 1 ==> s[0] != 48)
}

/// `decimal` writes only digits, at least one of them, and never a
/// superfluous leading zero.
pub proof fn lemma_decimal_shape(n: nat)
    ensures
        is_canonical_numeral(decimal(n)),
        n >= 10 ==> decimal(n)[0] != 48,
        n < 10 ==> decimal(n).len() == 1,
    decreases n,
{
    if n >= 10 {
        lemma_decimal_shape(n / 10);
        let head = decimal(n / 10);
        assert(decimal(n)[0] == head[0]);
        if n / 10 < 10 {
            assert(head[0] == (48 + n / 10) as u8);
        }
    }
}

/// Reading back what `decimal` wrote gives the number again.
pub proof fn lemma_decimal_round_trip(n: nat)
    ensures
        decimal_value(decimal(n)) == n,
    decreases n,
{
    if n < 10 {
        let s = decimal(n);
        assert(s.drop_last() =~= Seq::<u8>::empty());
        assert(decimal_value(s.drop_last()) == 0);
    } else {
        lemma_decimal_round_trip(n / 10);
        let s = decimal(n);
        assert(s.drop_last() =~= decimal(n / 10));
    }
}

/// A string of digits with a non-zero first digit denotes a number at least
/// as large as ten to the power of its length minus one; in particular a
/// canonical numeral of more than one digit denotes at least ten.
pub proof fn lemma_value_lower_bound(s: Seq<u8>)
    requires
        all_digits(s),
        s.len() > 0,
        s[0] != 48,
    ensures
        decimal_value(s) >= 1,
        s.len() > 1 ==> decimal_value(s) >= 10,
    decreases s.len(),
{
    if s.len() == 1 {
        assert(s.drop_last() =~= Seq::<u8>::empty());
        assert(decimal_value(s.drop_last()) == 0);
    } else {
        let head = s.drop_last();
        assert(head[0] == s[0]);
        lemma_value_lower_bound(head);
    }
}

/// Writing the number that a canonical numeral denotes gives the numeral
/// again.
pub proof fn lemma_canonical_round_trip(s: Seq<u8>)
    requires
        is_canonical_numeral(s),
    ensures
        decimal(decimal_value(s)) == s,
    decreases s.len(),
{
    if s.len() == 1 {
        assert(s.drop_last() =~= Seq::<u8>::empty());
        assert(decimal_value(s.drop_last()) == 0);
        assert(decimal(decimal_value(s)) =~= s);
    } else {
        let head = s.drop_last();
        assert(head[0] == s[0]);
        assert(is_canonical_numeral(head));
        lemma_canonical_round_trip(head);
        lemma_value_lower_bound(head);
        let v = decimal_value(s);
        let d = (s.last() - 48) as nat;
        assert(v == decimal_value(head) * 10 + d);
        assert(v / 10 == decimal_value(head));
        assert(v % 10 == d);
        assert(decimal(v) =~= s);
    }
}

/// A prefix of a string of digits denotes no more than the whole string.
pub proof fn lemma_prefix_value(s: Seq<u8>, k: int)
    requires
        all_digits(s),
        0 <= k <= s.len(),
    ensures
        decimal_value(s.take(k)) <= decimal_value(s),
    decreases s.len() - k,
{
    if k == s.len() {
        assert(s.take(k) =~= s);
    } else {
        lemma_prefix_value(s, k + 1);
        let longer = s.take(k + 1);
        assert(longer.drop_last() =~= s.take(k));
        assert(is_digit_byte(s[k]));
        assert(longer.last() == s[k]);
    }
}

/// Reads a string of digits as a number.
///
/// The result is `Some` exactly when `s` is non-empty, holds only digits and
/// denotes a number that fits in 64 bits.
pub fn parse_decimal(s: &[u8]) -> (res: Option<u64>)
    ensures
        res is Some <==> s@.len() > 0 && all_digits(s@) && decimal_value(s@) <= u64::MAX,
        res is Some ==> res->Some_0 == decimal_value(s@),
{
    if s.len() == 0 {
        return None;
    }
    let mut acc: u64 = 0;
    let mut i: usize = 0;
    while i < s.len()
        invariant
            i <= s.len(),
            all_digits(s@.take(i as int)),
            acc == decimal_value(s@.take(i as int)),
        decreases s.len() - i,
    {
        let b: u8 = s[i];
        if b < 48 || b > 57 {
            assert(!is_digit_byte(s@[i as int]));
            return None;
        }
        let d: u64 = (b - 48) as u64;
        proof {
            let longer = s@.take(i + 1);
            assert(longer.drop_last() =~= s@.take(i as int));
            assert(longer.last() == b);
            assert forall|j: int| 0 <= j < longer.len() implies is_digit_byte(#[trigger] longer[j]) by {
                if j < i {
                    assert(longer[j] == s@.take(i as int)[j]);
                }
            }
        }
        if acc > (u64::MAX - d) / 10 {
            proof {
                if all_digits(s@) {
                    lemma_prefix_value(s@, i + 1);
                }
            }
            return None;
        }
        acc = acc * 10 + d;
        i += 1;
    }
    assert(s@.take(i as int) =~= s@);
    Some(acc)
}

/// The number that a numeral with an optional leading minus sign denotes, or
/// `None` where it is not such a numeral.
pub open spec fn signed_value(s: Seq<u8>) -> Option<int> {
    if s.len() > 0 && s[0] == 45 {
        let digits = s.skip(1);
        if digits.len() > 0 && all_digits(digits) {
            Some(-(decimal_value(digits) as int))
        } else {
            None
        }
    } else if s.len() > 0 && all_digits(s) {
        Some(decimal_value(s) as int)
    } else {
        None
    }
}

/// The 64-bit integer that a signed numeral denotes, or `None` where it is
/// no numeral or does not fit.
pub open spec fn i64_value(s: Seq<u8>) -> Option<i64> {
    match signed_value(s) {
        Some(n) => if i64::MIN <= n <= i64::MAX {
            Some(n as i64)
        } else {
            None
        },
        None => None,
    }
}

/// Reads a numeral with an optional leading minus sign as a 64-bit integer.
pub fn parse_signed_decimal(s: &[u8]) -> (res: Option<i64>)
    ensures
        res == i64_value(s@),
{
    if s.len() == 0 {
        return None;
    }
    if s[0] == 45u8 {
        let digits = vstd::slice::slice_subrange(s, 1, s.len());
        assert(digits@ =~= s@.skip(1));
        match parse_decimal(digits) {
            Some(magnitude) => {
                if magnitude > 0x8000_0000_0000_0000u64 {
                    None
                } else if magnitude == 0x8000_0000_0000_0000u64 {
                    Some(i64::MIN)
                } else {
                    Some(-(magnitude as i64))
                }
            },
            None => None,
        }
    } else {
        match parse_decimal(s) {
            Some(magnitude) => {
                if magnitude > 0x7fff_ffff_ffff_ffffu64 {
                    None
                } else {
                    Some(magnitude as i64)
                }
            },
            None => None,
        }
    }
}

/// Reading back what `signed_decimal` wrote gives the number again.
pub proof fn lemma_signed_round_trip(n: int)
    ensures
        signed_value(signed_decimal(n)) == Some(n),
{
    if n < 0 {
        let m = (-n) as nat;
        lemma_decimal_shape(m);
        lemma_decimal_round_trip(m);
        assert(signed_decimal(n).skip(1) =~= decimal(m));
    } else {
        lemma_decimal_shape(n as nat);
        lemma_decimal_round_trip(n as nat);
        assert(decimal(n as nat)[0] != 45);
    }
}

/// Appends the decimal numeral of `n` to `out`.
pub fn push_decimal(out: &mut Vec<u8>, n: u64)
    ensures
        final(out)@ == old(out)@ + decimal(n as nat),
    decreases n,
{
    if n >= 10 {
        push_decimal(out, n / 10);
    }
    let digit: u8 = (n % 10) as u8;
    out.push(48 + digit);
    assert(final(out)@ =~= old(out)@ + decimal(n as nat));
}

/// Appends the decimal numeral of `n` to `out`, with its sign.
pub fn push_signed_decimal(out: &mut Vec<u8>, n: i64)
    ensures
        final(out)@ == old(out)@ + signed_decimal(n as int),
{
    if n < 0 {
        out.push(45u8);
        let magnitude: u64 = ((-(n + 1)) as u64) + 1;
        push_decimal(out, magnitude);
        assert(final(out)@ =~= old(out)@ + signed_decimal(n as int));
    } else {
        push_decimal(out, n as u64);
    }
}

} // verus!
