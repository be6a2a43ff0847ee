//! The shape of a textual decimal number, and the byte-level helpers that the
//! rounder and the generator share: an optional leading minus sign, one or
//! more integer digits, and optionally a radix point followed by fractional
//! digits.

use vstd::prelude::*;

verus! {

/// `b` is an ASCII decimal digit.
pub open spec fn is_digit(b: u8) -> bool {
    '0' as u8 <= b && b <= '9' as u8
}

/// `b` may appear in a decimal string: a digit, the radix point, or the sign.
pub open spec fn is_decimal_byte(b: u8) -> bool {
    is_digit(b) || b == '.' as u8 || b == '-' as u8
}

/// Length of the optional leading minus sign.
pub open spec fn sign_len(s: Seq<u8>) -> int {
    if s.len() > 0 && s[0] == '-' as u8 {
        1
    } else {
        0
    }
}

/// `s` is an optional minus sign, then one or more integer digits, and — when
/// `p < s.len()` — a radix point at index `p` followed by only digits.
/// `p == s.len()` means there is no radix point.
pub open spec fn decimal_shape(s: Seq<u8>, p: int) -> bool {
    &&& sign_len(s) < p <= s.len()
    &&& (forall|i: int| sign_len(s) <= i < p ==> is_digit(#[trigger] s[i]))
    &&& (p < s.len() ==> s[p] == '.' as u8)
    &&& (forall|i: int| p < i < s.len() ==> is_digit(#[trigger] s[i]))
}

/// `s` is a well-formed decimal string.
pub open spec fn wf_decimal(s: Seq<u8>) -> bool {
    exists|p: int| decimal_shape(s, p)
}

/// The index of the radix point of a well-formed decimal string, or its
/// length when it has none.
pub open spec fn point_of(s: Seq<u8>) -> int {
    choose|p: int| decimal_shape(s, p)
}

/// At most one index can carry the shape: the radix point is unique.
pub proof fn lemma_shape_unique(s: Seq<u8>, p1: int, p2: int)
    requires
        decimal_shape(s, p1),
        decimal_shape(s, p2),
    ensures
        p1 == p2,
{
    if p1 < p2 {
        assert(is_digit(s[p1]));
    }
    if p2 < p1 {
        assert(is_digit(s[p2]));
    }
}

/// Every byte of a well-formed decimal string is a digit, the point, or the
/// sign; in particular each one is ASCII.
pub proof fn lemma_wf_bytes(s: Seq<u8>)
    requires
        wf_decimal(s),
    ensures
        forall|i: int| 0 <= i < s.len() ==> is_decimal_byte(#[trigger] s[i]) && s[i] < 128,
{
    let p = choose|q: int| decimal_shape(s, q);
    assert forall|i: int| 0 <= i < s.len() implies is_decimal_byte(#[trigger] s[i]) && s[i]
        < 128 by {
        if i < sign_len(s) {
            assert(s[i] == '-' as u8);
        } else if i == p {
            assert(s[i] == '.' as u8);
        } else {
            assert(is_digit(s[i]));
        }
    }
}

/// `n` zero digits.
pub open spec fn zeros(n: nat) -> Seq<u8> {
    Seq::new(n, |i: int| '0' as u8)
}

/// The number of trailing '9' digits of `s`.
pub open spec fn trailing_nines(s: Seq<u8>) -> int
    decreases s.len(),
{
    if s.len() > 0 && s[s.len() - 1] == '9' as u8 {
        1 + trailing_nines(s.drop_last())
    } else {
        0
    }
}

/// A maximal run of `k` trailing nines pins `trailing_nines` down.
pub proof fn lemma_trailing_nines_is(s: Seq<u8>, k: int)
    requires
        0 <= k <= s.len(),
        forall|j: int| s.len() - k <= j < s.len() ==> s[j] == '9' as u8,
        k < s.len() ==> s[s.len() - k - 1] != '9' as u8,
    ensures
        trailing_nines(s) == k,
    decreases s.len(),
{
    if k == 0 {
        if s.len() > 0 {
            assert(s[s.len() - 1] != '9' as u8);
        }
    } else {
        assert(s[s.len() - 1] == '9' as u8);
        let t = s.drop_last();
        assert forall|j: int| t.len() - (k - 1) <= j < t.len() implies t[j] == '9' as u8 by {
            assert(t[j] == s[j]);
        }
        lemma_trailing_nines_is(t, k - 1);
    }
}

/// The run counted by `trailing_nines` is maximal.
pub proof fn lemma_trailing_nines_props(s: Seq<u8>)
    ensures
        0 <= trailing_nines(s) <= s.len(),
        forall|j: int| s.len() - trailing_nines(s) <= j < s.len() ==> s[j] == '9' as u8,
        trailing_nines(s) < s.len() ==> s[s.len() - trailing_nines(s) - 1] != '9' as u8,
    decreases s.len(),
{
    if s.len() > 0 && s[s.len() - 1] == '9' as u8 {
        let t = s.drop_last();
        lemma_trailing_nines_props(t);
        assert forall|j: int| s.len() - trailing_nines(s) <= j < s.len() implies s[j]
            == '9' as u8 by {
            if j < s.len() - 1 {
                assert(t[j] == s[j]);
            }
        }
        if trailing_nines(s) < s.len() {
            assert(t[t.len() - trailing_nines(t) - 1] == s[s.len() - trailing_nines(s) - 1]);
        }
    }
}

/// The bytes with the same code points as an ASCII character sequence.
pub open spec fn ascii_view(s: Seq<char>) -> Seq<u8> {
    Seq::new(s.len(), |i: int| s[i] as u8)
}

/// The characters with the same code points as a sequence of ASCII bytes.
pub open spec fn char_view(s: Seq<u8>) -> Seq<char> {
    Seq::new(s.len(), |i: int| s[i] as char)
}

/// Relies on `String::from_utf8`: bytes below 128 are valid UTF-8 and decode
/// one-for-one to the characters with the same code points.
#[verifier::external_body]
pub(crate) fn ascii_to_string(bytes: Vec<u8>) -> (r: String)
    requires
        forall|i: int| 0 <= i < bytes@.len() ==> bytes@[i] < 128,
    ensures
        r@ == char_view(bytes@),
{
    match String::from_utf8(bytes) {
        Ok(s) => s,
        Err(_) => String::new(),
    }
}

} // verus!
