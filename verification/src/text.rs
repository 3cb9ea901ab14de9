//! Byte strings: the protocol's strings are sequences of bytes, compared
//! byte for byte, with command words matched without regard to ASCII case.

use vstd::prelude::*;
use vstd::string::StringSliceAdditionalSpecFns;

verus! {

/// The bytes of a piece of text.
pub open spec fn text(s: &str) -> Seq<u8> {
    s.spec_bytes()
}

/// The bytes of a piece of text, as a vector of its own.
pub fn bytes_of(s: &str) -> (res: Vec<u8>)
    ensures
        res@ == text(s),
{
    vstd::slice::slice_to_vec(s.as_bytes())
}

/// Whether two byte strings are the same.
pub fn bytes_eq(a: &[u8], b: &[u8]) -> (res: bool)
    ensures
        res == (a@ == b@),
{
    if a.len() != b.len() {
        return false;
    }
    let mut i: usize = 0;
    while i < a.len()
        invariant
            i <= a.len(),
            a.len() == b.len(),
            forall|j: int| 0 <= j < i ==> a@[j] == b@[j],
        decreases a.len() - i,
    {
        if a[i] != b[i] {
            return false;
        }
        i += 1;
    }
    assert(a@ =~= b@);
    true
}

/// Whether a byte string is a given piece of text.
pub fn is_text(a: &[u8], s: &str) -> (res: bool)
    ensures
        res == (a@ == text(s)),
{
    bytes_eq(a, s.as_bytes())
}

/// A byte with an ASCII lower-case letter turned into its upper-case form.
pub open spec fn upper_byte(b: u8) -> u8 {
    if 97 <= b <= 122 {
        (b - 32) as u8
    } else {
        b
    }
}

/// A byte string with its ASCII letters in upper case.
pub open spec fn upper(s: Seq<u8>) -> Seq<u8> {
    Seq::new(s.len(), |i: int| upper_byte(s[i]))
}

/// Turns the ASCII letters of a byte string into upper case.
pub fn to_upper(s: &[u8]) -> (res: Vec<u8>)
    ensures
        res@ == upper(s@),
{
    let mut res: Vec<u8> = Vec::new();
    let mut i: usize = 0;
    while i < s.len()
        invariant
            i <= s.len(),
            res@ == upper(s@.take(i as int)),
        decreases s.len() - i,
    {
        let b: u8 = s[i];
        let c: u8 = if b >= 97 && b <= 122 {
            b - 32
        } else {
            b
        };
        res.push(c);
        i += 1;
        assert(res@ =~= upper(s@.take(i as int)));
    }
    assert(s@.take(i as int) =~= s@);
    res
}

/// Appends a copy of `part` to `out`.
pub fn push_bytes(out: &mut Vec<u8>, part: &[u8])
    ensures
        final(out)@ == old(out)@ + part@,
{
    out.extend_from_slice(part);
}

/// Appends a piece of text to `out`.
pub fn push_text(out: &mut Vec<u8>, s: &str)
    ensures
        final(out)@ == old(out)@ + text(s),
{
    out.extend_from_slice(s.as_bytes());
}

/// The place of the first byte `b` in `s`, or the length of `s` where there
/// is none.
pub open spec fn position_of(s: Seq<u8>, b: u8) -> int
    decreases s.len(),
{
    if s.len() == 0 {
        0
    } else {
        let before = position_of(s.drop_last(), b);
        if before < s.len() - 1 {
            before
        } else if s.last() == b {
            s.len() - 1
        } else {
            s.len() as int
        }
    }
}

/// A byte found within a front part is found at the same place in the
/// whole.
proof fn lemma_position_of_grows(s: Seq<u8>, b: u8, k: int)
    requires
        0 <= k <= s.len(),
        position_of(s.take(k), b) < k,
    ensures
        position_of(s, b) == position_of(s.take(k), b),
    decreases s.len() - k,
{
    if k == s.len() {
        assert(s.take(k) =~= s);
    } else {
        assert(s.take(k + 1).drop_last() =~= s.take(k));
        lemma_position_of_grows(s, b, k + 1);
    }
}

/// Finds the first byte `b` in `s`.
pub fn find_byte(s: &[u8], b: u8) -> (i: usize)
    ensures
        i == position_of(s@, b),
        i <= s@.len(),
{
    let mut i: usize = 0;
    assert(s@.take(0) =~= Seq::<u8>::empty());
    while i < s.len()
        invariant
            i <= s.len(),
            position_of(s@.take(i as int), b) == i,
        decreases s.len() - i,
    {
        proof {
            assert(s@.take(i + 1).drop_last() =~= s@.take(i as int));
            assert(s@.take(i + 1).last() == s@[i as int]);
        }
        if s[i] == b {
            proof {
                lemma_position_of_grows(s@, b, i + 1);
            }
            return i;
        }
        i += 1;
    }
    assert(s@.take(i as int) =~= s@);
    i
}

/// The contents of a run of strings in memory.
pub open spec fn byte_strings(items: Seq<Vec<u8>>) -> Seq<Seq<u8>> {
    Seq::new(items.len(), |i: int| items[i]@)
}

} // verus!
