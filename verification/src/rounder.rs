//! String-based decimal rounding: the fractional part of a textual decimal
//! number is cut to a requested number of digits by inspecting the single
//! digit after the cut, with a selectable tie policy and a carry that walks
//! left across runs of '9' digits, across the radix point, and past the
//! leading digit when the whole value overflows.

use vstd::prelude::*;

use crate::decimal::ascii_to_string;
use crate::decimal::ascii_view;
use crate::decimal::char_view;
use crate::decimal::decimal_shape;
use crate::decimal::is_digit;
use crate::decimal::lemma_shape_unique;
use crate::decimal::lemma_trailing_nines_is;
use crate::decimal::lemma_wf_bytes;
use crate::decimal::point_of;
use crate::decimal::sign_len;
use crate::decimal::trailing_nines;
use crate::decimal::wf_decimal;
use crate::decimal::zeros;

verus! {

/// How a tie — an inspected digit of exactly '5' — is resolved.
#[derive(Clone, Copy, Debug)]
pub enum Policy {
    /// Round half to the nearest even kept digit.
    ToEven,
    /// Round half away from zero: always up in magnitude.
    AwayFromZero,
}

/// Whether the kept digit `x` is incremented, given that the inspected digit
/// `ch` was at least '5'. `AwayFromZero` always increments. `ToEven` treats a
/// bare '5' whose carry consumed no nonzero digit (`carried` is false) and
/// whose kept digit is even as an exact tie resolved toward the even
/// neighbor, and increments in every other case.
pub open spec fn bumps(policy: Policy, ch: u8, x: u8, carried: bool) -> bool {
    match policy {
        Policy::ToEven => ch > '5' as u8 || x % 2 == 1 || carried,
        Policy::AwayFromZero => true,
    }
}

/// The kept digit after the rounding decision.
pub open spec fn bumped(x: u8, up: bool) -> u8 {
    if up {
        (x + 1) as u8
    } else {
        x
    }
}

/// The increment with carry on `kept`, the input cut right after the `pr`-th
/// fractional digit (right after the radix point at `p` when `pr == 0`).
/// The carry turns trailing '9' digits into '0' and moves left; when it
/// crosses the point it continues through the integer digits; when every
/// digit was consumed a new leading '1' appears after the optional sign.
pub open spec fn bump_spec(kept: Seq<u8>, p: int, pr: int, ch: u8, policy: Policy) -> Seq<u8> {
    let fracd = kept.subrange(p + 1, kept.len() as int);
    let f9 = trailing_nines(fracd);
    if f9 < pr {
        let x = fracd[pr - 1 - f9];
        kept.subrange(0, p + pr - f9) + seq![bumped(x, bumps(policy, ch, x, f9 > 0))] + zeros(
            f9 as nat,
        )
    } else {
        let off = sign_len(kept);
        let intd = kept.subrange(off, p);
        let i9 = trailing_nines(intd);
        if i9 < intd.len() {
            let x = intd[intd.len() - 1 - i9];
            kept.subrange(0, p - 1 - i9) + seq![
                bumped(x, bumps(policy, ch, x, f9 > 0 || i9 > 0)),
            ] + zeros(i9 as nat) + seq!['.' as u8] + zeros(pr as nat)
        } else {
            kept.subrange(0, off) + seq!['1' as u8] + zeros(i9 as nat) + seq!['.' as u8] + zeros(
                pr as nat,
            )
        }
    }
}

/// Removes the radix point when no fractional digit is kept after it.
pub open spec fn strip_point(t: Seq<u8>, pr: int) -> Seq<u8> {
    if pr == 0 {
        t.drop_last()
    } else {
        t
    }
}

/// What rounding a well-formed decimal string to `pr` fractional digits
/// returns. Without a radix point the input is padded with a point and `pr`
/// zero digits. With one, too few fractional digits are padded with zeros;
/// otherwise the string is cut right after the `pr`-th fractional digit and
/// the single inspected digit after the cut decides: below '5' the cut
/// stands, at '5' or above the last kept digit is incremented with carry,
/// ties resolved by the policy. A lone trailing point (only when `pr == 0`)
/// is removed.
pub open spec fn sround_spec(s: Seq<u8>, pr: int, policy: Policy) -> Seq<u8> {
    let p = point_of(s);
    if p == s.len() {
        s + seq!['.' as u8] + zeros(pr as nat)
    } else {
        let frac = s.len() - p - 1;
        if frac <= pr {
            strip_point(s + zeros((pr - frac) as nat), pr)
        } else {
            let kept = s.subrange(0, p + pr + 1);
            let ch = s[p + pr + 1];
            if ch < '5' as u8 {
                strip_point(kept, pr)
            } else {
                strip_point(bump_spec(kept, p, pr, ch, policy), pr)
            }
        }
    }
}

/// The tie decision on the kept digit `x` once the inspected digit `ch` was
/// at least '5'; `carried` says whether the carry consumed any '9' digit.
fn should_round_up(policy: &Policy, ch: u8, x: u8, carried: bool) -> (b: bool)
    ensures
        b == bumps(*policy, ch, x, carried),
{
    match policy {
        Policy::ToEven => ch > '5' as u8 || x % 2 == 1 || carried,
        Policy::AwayFromZero => true,
    }
}

/// Whether the bytes of `v` form a well-formed decimal string: an optional
/// minus sign, one or more integer digits, and optionally a radix point
/// followed by digits.
pub fn is_decimal_bytes(v: &Vec<u8>) -> (b: bool)
    ensures
        b == wf_decimal(v@),
{
    let n = v.len();
    let off: usize = if n > 0 && v[0] == '-' as u8 {
        1
    } else {
        0
    };
    proof {
        assert(off as int == sign_len(v@));
    }
    let mut i: usize = off;
    while i < n && v[i] >= '0' as u8 && v[i] <= '9' as u8
        invariant
            off <= i <= n,
            n == v@.len(),
            forall|j: int| off <= j < i ==> is_digit(#[trigger] v@[j]),
        decreases n - i,
    {
        i += 1;
    }
    if i == off {
        // No integer digit at all.
        proof {
            assert forall|p: int| !decimal_shape(v@, p) by {
                if decimal_shape(v@, p) {
                    assert(is_digit(v@[off as int]));
                }
            }
        }
        return false;
    }
    if i == n {
        proof {
            assert(decimal_shape(v@, n as int));
        }
        return true;
    }
    if v[i] != '.' as u8 {
        // A byte that is neither digit, sign, nor the point.
        proof {
            assert forall|p: int| !decimal_shape(v@, p) by {
                if decimal_shape(v@, p) {
                    if i < p {
                        assert(is_digit(v@[i as int]));
                    } else if p < i {
                        assert(is_digit(v@[i as int]));
                    }
                }
            }
        }
        return false;
    }
    let mut j: usize = i + 1;
    while j < n && v[j] >= '0' as u8 && v[j] <= '9' as u8
        invariant
            i + 1 <= j <= n,
            n == v@.len(),
            forall|k: int| i < k < j ==> is_digit(#[trigger] v@[k]),
        decreases n - j,
    {
        j += 1;
    }
    if j == n {
        proof {
            assert(decimal_shape(v@, i as int));
        }
        return true;
    }
    // A second point, or a stray byte, in the fractional part.
    proof {
        assert(!is_digit(v@[j as int]));
        assert forall|p: int| !decimal_shape(v@, p) by {
            if decimal_shape(v@, p) {
                if p == i {
                    assert(is_digit(v@[j as int]));
                } else if i < p {
                    assert(is_digit(v@[i as int]));
                } else {
                    assert(is_digit(v@[i as int]));
                }
            }
        }
    }
    false
}

/// Whether `s` is a well-formed decimal string, as the rounder's contract
/// demands of its input.
pub fn is_decimal(s: &str) -> (b: bool)
    ensures
        b == (vstd::utf8::is_ascii_chars(s@) && wf_decimal(ascii_view(s@))),
{
    if !s.is_ascii() {
        return false;
    }
    let bytes = s.as_bytes_vec();
    proof {
        vstd::utf8::is_ascii_chars_encode_utf8(s@);
        assert(bytes@ =~= ascii_view(s@));
    }
    is_decimal_bytes(&bytes)
}

/// The index of the radix point of the well-formed decimal string `s`, or
/// its length when it has none.
fn find_point(s: &Vec<u8>) -> (pos: usize)
    requires
        wf_decimal(s@),
    ensures
        pos == point_of(s@),
        decimal_shape(s@, pos as int),
{
    let ghost p = point_of(s@);
    proof {
        assert(decimal_shape(s@, p));
    }
    let n = s.len();
    let mut pos: usize = 0;
    while pos < n && s[pos] != '.' as u8
        invariant
            pos <= n,
            n == s@.len(),
            forall|i: int| 0 <= i < pos ==> s@[i] != '.' as u8,
        decreases n - pos,
    {
        pos += 1;
    }
    proof {
        if pos < n {
            if pos < p {
                assert(pos >= sign_len(s@)) by {
                    if pos < sign_len(s@) {
                        assert(s@[0] == '-' as u8);
                    }
                }
                assert(is_digit(s@[pos as int]));
                assert(false);
            }
            if p < pos {
                assert(s@[p] == '.' as u8);
                assert(false);
            }
        } else {
            if p < s@.len() {
                assert(s@[p] == '.' as u8);
                assert(false);
            }
        }
        assert(pos == p);
    }
    pos
}

/// Appends `k` zero digits.
fn push_zeros(v: &mut Vec<u8>, k: usize)
    ensures
        final(v)@ == old(v)@ + zeros(k as nat),
{
    let mut i: usize = 0;
    while i < k
        invariant
            i <= k,
            v@ == old(v)@ + zeros(i as nat),
        decreases k - i,
    {
        v.push('0' as u8);
        proof {
            assert(v@ =~= old(v)@ + zeros((i + 1) as nat));
        }
        i += 1;
    }
}

/// Performs the increment with carry on the cut string held in `out`, whose
/// radix point sits at `pos` and whose fractional part holds exactly `pr`
/// digits; the inspected digit `ch` was at least '5'.
#[verifier::rlimit(100)]
fn bump_bytes(out: &mut Vec<u8>, pos: usize, pr: usize, ch: u8, policy: &Policy)
    requires
        decimal_shape(old(out)@, pos as int),
        old(out)@.len() == pos + pr + 1,
    ensures
        final(out)@ == bump_spec(old(out)@, pos as int, pr as int, ch, *policy),
{
    let ghost kept = old(out)@;
    let ghost fracd = kept.subrange(pos + 1, kept.len() as int);
    let total = out.len();
    // Count the trailing '9' digits of the kept fractional part.
    let mut f9: usize = 0;
    while f9 < pr && out[pos + pr - f9] == '9' as u8
        invariant
            f9 <= pr,
            out@ == kept,
            pos + pr + 1 <= usize::MAX,
            kept.len() == pos + pr + 1,
            fracd == kept.subrange(pos + 1, kept.len() as int),
            forall|j: int| pr - f9 <= j < pr ==> fracd[j] == '9' as u8,
        decreases pr - f9,
    {
        f9 += 1;
    }
    proof {
        lemma_trailing_nines_is(fracd, f9 as int);
    }
    if f9 < pr {
        // The carry stops inside the fractional part.
        let x = out[pos + pr - f9];
        proof {
            assert(x == fracd[pr - 1 - f9]);
            assert(is_digit(x));
            assert(x != '9' as u8);
        }
        let up = should_round_up(policy, ch, x, f9 > 0);
        out.truncate(pos + pr - f9);
        out.push(if up {
            x + 1
        } else {
            x
        });
        proof {
            assert(out@ =~= kept.subrange(0, pos + pr - f9) + seq![
                bumped(x, bumps(*policy, ch, x, f9 > 0)),
            ]);
        }
        push_zeros(out, f9);
    } else {
        // Every kept fractional digit was a '9': cross the radix point.
        let off: usize = if out[0] == '-' as u8 {
            1
        } else {
            0
        };
        proof {
            assert(off as int == sign_len(kept));
        }
        let ghost intd = kept.subrange(off as int, pos as int);
        let mut i9: usize = 0;
        while i9 < pos - off && out[pos - 1 - i9] == '9' as u8
            invariant
                i9 <= pos - off,
                off as int == sign_len(kept),
                off <= pos,
                out@ == kept,
                kept.len() == pos + pr + 1,
                decimal_shape(kept, pos as int),
                intd == kept.subrange(off as int, pos as int),
                forall|j: int| pos - off - i9 <= j < pos - off ==> intd[j] == '9' as u8,
            decreases pos - off - i9,
        {
            i9 += 1;
        }
        proof {
            lemma_trailing_nines_is(intd, i9 as int);
        }
        if i9 < pos - off {
            // The carry stops at an integer digit.
            let x = out[pos - 1 - i9];
            proof {
                assert(x == intd[intd.len() - 1 - i9]);
                assert(is_digit(x));
                assert(x != '9' as u8);
            }
            let up = should_round_up(policy, ch, x, f9 > 0 || i9 > 0);
            out.truncate(pos - 1 - i9);
            out.push(if up {
                x + 1
            } else {
                x
            });
            proof {
                assert(out@ =~= kept.subrange(0, pos - 1 - i9) + seq![
                    bumped(x, bumps(*policy, ch, x, f9 > 0 || i9 > 0)),
                ]);
            }
            push_zeros(out, i9);
            out.push('.' as u8);
            proof {
                assert(out@ =~= kept.subrange(0, pos - 1 - i9) + seq![
                    bumped(x, bumps(*policy, ch, x, f9 > 0 || i9 > 0)),
                ] + zeros(i9 as nat) + seq!['.' as u8]);
            }
            push_zeros(out, pr);
        } else {
            // The whole magnitude was consumed: prepend a fresh '1'.
            out.truncate(off);
            out.push('1' as u8);
            proof {
                assert(out@ =~= kept.subrange(0, off as int) + seq!['1' as u8]);
            }
            push_zeros(out, pos - off);
            out.push('.' as u8);
            proof {
                assert(intd.len() == pos - off);
                assert(out@ =~= kept.subrange(0, off as int) + seq!['1' as u8] + zeros(
                    (pos - off) as nat,
                ) + seq!['.' as u8]);
            }
            push_zeros(out, pr);
        }
    }
}

/// The carry's result is again a decimal string whose radix point is
/// followed by exactly `pr` digits.
#[verifier::rlimit(60)]
proof fn lemma_bump_shape(kept: Seq<u8>, p: int, pr: int, ch: u8, policy: Policy)
    requires
        decimal_shape(kept, p),
        kept.len() == p + pr + 1,
        0 <= pr,
    ensures
        ({
            let r = bump_spec(kept, p, pr, ch, policy);
            &&& r.len() >= pr + 2
            &&& decimal_shape(r, r.len() - pr - 1)
            &&& r[r.len() - pr - 1] == '.' as u8
        }),
{
    let r = bump_spec(kept, p, pr, ch, policy);
    let fracd = kept.subrange(p + 1, kept.len() as int);
    let f9 = trailing_nines(fracd);
    crate::decimal::lemma_trailing_nines_props(fracd);
    assert(fracd.len() == pr);
    assert forall|j: int| 0 <= j < pr implies is_digit(fracd[j]) by {
        assert(fracd[j] == kept[p + 1 + j]);
    }
    if f9 < pr {
        let x = fracd[pr - 1 - f9];
        let d = bumped(x, bumps(policy, ch, x, f9 > 0));
        assert(x != '9' as u8);
        assert(is_digit(d));
        let q = r.len() - pr - 1;
        assert(r.len() == p + pr + 1);
        assert(r[0] == kept[0]);
        assert(sign_len(r) == sign_len(kept));
        assert(r[p] == kept[p]);
        assert forall|i: int| sign_len(r) <= i < q implies is_digit(r[i]) by {
            assert(r[i] == kept[i]);
        }
        assert forall|i: int| q < i < r.len() implies is_digit(r[i]) by {
            if i < p + pr - f9 {
                assert(r[i] == kept[i]);
                assert(kept[i] == fracd[i - p - 1]);
            } else if i == p + pr - f9 {
                assert(r[i] == d);
            } else {
                assert(r[i] == '0' as u8);
            }
        }
        assert(decimal_shape(r, q));
    } else {
        let off = sign_len(kept);
        let intd = kept.subrange(off, p);
        let i9 = trailing_nines(intd);
        crate::decimal::lemma_trailing_nines_props(intd);
        assert(intd.len() == p - off);
        assert forall|j: int| 0 <= j < intd.len() implies is_digit(intd[j]) by {
            assert(intd[j] == kept[off + j]);
        }
        if i9 < intd.len() {
            let x = intd[intd.len() - 1 - i9];
            let d = bumped(x, bumps(policy, ch, x, f9 > 0 || i9 > 0));
            assert(x != '9' as u8);
            assert(is_digit(d));
            let q = r.len() - pr - 1;
            assert(r.len() == p + pr + 1);
            assert(q == p);
            assert(sign_len(r) == off) by {
                if off == 1 {
                    assert(r[0] == kept[0]);
                } else {
                    if p - 1 - i9 > 0 {
                        assert(r[0] == kept[0]);
                        assert(is_digit(kept[0]));
                    } else {
                        assert(r[0] == d);
                    }
                }
            }
            assert(r[q] == '.' as u8);
            assert forall|i: int| sign_len(r) <= i < q implies is_digit(r[i]) by {
                if i < p - 1 - i9 {
                    assert(r[i] == kept[i]);
                } else if i == p - 1 - i9 {
                    assert(r[i] == d);
                } else {
                    assert(r[i] == '0' as u8);
                }
            }
            assert forall|i: int| q < i < r.len() implies is_digit(r[i]) by {
                assert(r[i] == '0' as u8);
            }
            assert(decimal_shape(r, q));
        } else {
            let q = r.len() - pr - 1;
            assert(r.len() == p + pr + 2);
            assert(q == p + 1);
            assert(sign_len(r) == off) by {
                if off == 1 {
                    assert(r[0] == kept[0]);
                } else {
                    assert(r[0] == '1' as u8);
                }
            }
            assert(r[q] == '.' as u8);
            assert forall|i: int| sign_len(r) <= i < q implies is_digit(r[i]) by {
                if i == off {
                    assert(r[i] == '1' as u8);
                } else {
                    assert(r[i] == '0' as u8);
                }
            }
            assert forall|i: int| q < i < r.len() implies is_digit(r[i]) by {
                assert(r[i] == '0' as u8);
            }
            assert(decimal_shape(r, q));
        }
    }
}

/// Rounding a well-formed decimal string yields a well-formed decimal
/// string, and — from one fractional digit up — one whose radix point is
/// followed by exactly `pr` digits.
#[verifier::rlimit(60)]
pub proof fn lemma_sround_shape(s: Seq<u8>, pr: int, policy: Policy)
    requires
        wf_decimal(s),
        0 <= pr,
    ensures
        ({
            let r = sround_spec(s, pr, policy);
            &&& wf_decimal(r)
            &&& (pr >= 1 ==> decimal_shape(r, r.len() - pr - 1))
        }),
{
    let r = sround_spec(s, pr, policy);
    let p = point_of(s);
    assert(decimal_shape(s, p));
    if p == s.len() {
        assert(r[0] == s[0]);
        assert(sign_len(r) == sign_len(s));
        assert(r[p] == '.' as u8);
        assert forall|i: int| sign_len(r) <= i < p implies is_digit(r[i]) by {
            assert(r[i] == s[i]);
        }
        assert forall|i: int| p < i < r.len() implies is_digit(r[i]) by {
            assert(r[i] == '0' as u8);
        }
        assert(decimal_shape(r, p));
        assert(p == r.len() - pr - 1);
    } else {
        let frac = s.len() - p - 1;
        if frac <= pr {
            let t = s + zeros((pr - frac) as nat);
            assert(t[0] == s[0]);
            assert(sign_len(t) == sign_len(s));
            assert(t[p] == '.' as u8);
            assert forall|i: int| sign_len(t) <= i < p implies is_digit(t[i]) by {
                assert(t[i] == s[i]);
            }
            assert forall|i: int| p < i < t.len() implies is_digit(t[i]) by {
                if i < s.len() {
                    assert(t[i] == s[i]);
                } else {
                    assert(t[i] == '0' as u8);
                }
            }
            assert(decimal_shape(t, p));
            if pr == 0 {
                assert(frac == 0);
                assert(r == t.drop_last());
                assert(r.len() == p);
                assert(r[0] == s[0]);
                assert(sign_len(r) == sign_len(s));
                assert forall|i: int| sign_len(r) <= i < p implies is_digit(r[i]) by {
                    assert(r[i] == s[i]);
                }
                assert(decimal_shape(r, p));
            } else {
                assert(decimal_shape(r, r.len() - pr - 1));
            }
        } else {
            let kept = s.subrange(0, p + pr + 1);
            let ch = s[p + pr + 1];
            assert(kept[0] == s[0]);
            assert(sign_len(kept) == sign_len(s));
            assert(decimal_shape(kept, p));
            if ch < '5' as u8 {
                if pr == 0 {
                    assert(r == kept.drop_last());
                    assert(r.len() == p);
                    assert(r[0] == s[0]);
                    assert(sign_len(r) == sign_len(s));
                    assert forall|i: int| sign_len(r) <= i < p implies is_digit(r[i]) by {
                        assert(r[i] == s[i]);
                    }
                    assert(decimal_shape(r, p));
                } else {
                    assert(decimal_shape(r, r.len() - pr - 1));
                }
            } else {
                lemma_bump_shape(kept, p, pr, ch, policy);
                let b = bump_spec(kept, p, pr, ch, policy);
                if pr == 0 {
                    assert(r == b.drop_last());
                    assert(b[b.len() - 1] == '.' as u8);
                    assert(decimal_shape(b, b.len() - 1));
                    assert(r.len() == b.len() - 1);
                    assert(r[0] == b[0]);
                    assert(sign_len(r) == sign_len(b));
                    assert forall|i: int| sign_len(r) <= i < r.len() implies is_digit(r[i]) by {
                        assert(r[i] == b[i]);
                    }
                    assert(decimal_shape(r, r.len() as int));
                } else {
                    assert(decimal_shape(r, r.len() - pr - 1));
                }
            }
        }
    }
}

/// For a decimal string with no radix point, rounding only pads: the result
/// is the input followed by a radix point and `pr` zero digits, whatever the
/// policy.
pub proof fn lemma_round_pads(s: Seq<u8>, pr: int, policy: Policy)
    requires
        wf_decimal(s),
        0 <= pr,
        forall|i: int| 0 <= i < s.len() ==> s[i] != '.' as u8,
    ensures
        sround_spec(s, pr, policy) == s + seq!['.' as u8] + zeros(pr as nat),
{
    let p = point_of(s);
    assert(decimal_shape(s, p));
    if p < s.len() {
        assert(s[p] == '.' as u8);
    }
}

/// Rounding is idempotent from one kept fractional digit up: rounding the
/// result again at the same precision and policy returns it unchanged.
pub proof fn lemma_round_idempotent(s: Seq<u8>, pr: int, policy: Policy)
    requires
        wf_decimal(s),
        1 <= pr,
    ensures
        sround_spec(sround_spec(s, pr, policy), pr, policy) == sround_spec(s, pr, policy),
{
    let r = sround_spec(s, pr, policy);
    lemma_sround_shape(s, pr, policy);
    let q = r.len() - pr - 1;
    assert(decimal_shape(r, q));
    assert(decimal_shape(r, point_of(r)));
    lemma_shape_unique(r, point_of(r), q);
    assert(sround_spec(r, pr, policy) == r + zeros(0));
    assert(r + zeros(0) =~= r);
}

/// Rounds the well-formed decimal string `s` to `pr` fractional digits by
/// digit manipulation alone, as `sround_spec` states.
pub fn sround_bytes(s: &Vec<u8>, pr: usize, policy: &Policy) -> (r: Vec<u8>)
    requires
        wf_decimal(s@),
    ensures
        r@ == sround_spec(s@, pr as int, *policy),
{
    let pos = find_point(s);
    let ghost p = pos as int;
    let n = s.len();
    // Working copy.
    let mut out: Vec<u8> = Vec::new();
    let mut i: usize = 0;
    while i < n
        invariant
            i <= n,
            n == s@.len(),
            out@ == s@.subrange(0, i as int),
        decreases n - i,
    {
        out.push(s[i]);
        proof {
            assert(out@ =~= s@.subrange(0, i + 1));
        }
        i += 1;
    }
    proof {
        assert(out@ =~= s@);
    }
    if pos == n {
        // No radix point: append one and `pr` zero digits.
        out.push('.' as u8);
        push_zeros(&mut out, pr);
        return out;
    }
    let frac = n - pos - 1;
    if frac <= pr {
        // Too few fractional digits: pad with zeros.
        push_zeros(&mut out, pr - frac);
        if pr == 0 {
            // `frac == 0`: the input ends with its radix point; remove it.
            let _ = out.pop();
        }
        proof {
            assert(out@ =~= strip_point(s@ + zeros((pr - frac) as nat), pr as int));
        }
        return out;
    }
    // More fractional digits than wanted: cut after the `pr`-th one and
    // inspect the digit right after the cut.
    let ch = s[pos + pr + 1];
    out.truncate(pos + pr + 1);
    let ghost kept = s@.subrange(0, p + pr + 1);
    if ch >= '5' as u8 {
        proof {
            assert(decimal_shape(kept, p)) by {
                assert(sign_len(kept) == sign_len(s@));
            }
        }
        bump_bytes(&mut out, pos, pr, ch, policy);
    }
    if pr == 0 {
        // The kept fractional part is empty: remove the radix point.
        let _ = out.pop();
    }
    proof {
        if ch < '5' as u8 {
            assert(out@ =~= strip_point(kept, pr as int));
        } else {
            assert(out@ =~= strip_point(bump_spec(kept, p, pr as int, ch, *policy), pr as int));
        }
    }
    out
}

/// Rounds the fractional part of the decimal string `n` to `pr` digits.
///
/// `n` must be well formed, and its last digit is taken as a faithful
/// one-digit lookahead: the digit right after the cut alone decides the
/// rounding, so the tail of `n` must itself already be rounded to that one
/// extra digit for the result to be the true nearest value.
pub fn str_sround(n: &str, pr: usize, policy: &Policy) -> (r: String)
    requires
        vstd::utf8::is_ascii_chars(n@),
        wf_decimal(ascii_view(n@)),
    ensures
        r@ == char_view(sround_spec(ascii_view(n@), pr as int, *policy)),
{
    let bytes = n.as_bytes_vec();
    proof {
        vstd::utf8::is_ascii_chars_encode_utf8(n@);
        assert(bytes@ =~= ascii_view(n@));
    }
    let out = sround_bytes(&bytes, pr, policy);
    proof {
        lemma_sround_shape(bytes@, pr as int, *policy);
        lemma_wf_bytes(out@);
    }
    ascii_to_string(out)
}

} // verus!
