//! Boundary-value generation: a depth-first enumeration of decimal strings
//! that land just below ('4') and exactly on ('5') the half-way point of the
//! last kept fractional digit, for every digit prefix reachable by
//! incrementing from zero, up to a configured depth.
//!
//! The enumeration state is a digit buffer `base` that always ends in a step
//! marker: 'a' before the '4' probe is emitted, 'b' before the '5' probe.
//! After the '5' probe the buffer either grows by one digit position (below
//! the maximum depth) or backtracks: trailing '9' digits are dropped and the
//! first incrementable digit is advanced, and when none is left the
//! enumeration is finished.

use vstd::prelude::*;

use crate::decimal::ascii_view;
use crate::decimal::char_view;
use crate::decimal::decimal_shape;
use crate::decimal::is_digit;
use crate::decimal::lemma_trailing_nines_is;
use crate::decimal::sign_len;
use crate::decimal::trailing_nines;
use crate::decimal::wf_decimal;

verus! {

/// The enumeration cursor: `base` is the working buffer (optional sign,
/// "0.", the fractional digits built so far, and the step marker),
/// `precision` counts the fractional positions including the marker's, and
/// `max` is the configured depth.
pub struct RoundTestIter {
    pub base: Vec<u8>,
    pub precision: usize,
    pub max: usize,
}

/// The fractional digits of an active buffer: what stands between "0." and
/// the step marker.
pub open spec fn frac_digits(b: Seq<u8>) -> Seq<u8> {
    b.subrange(sign_len(b) + 2, b.len() - 1)
}

/// `m` nine digits.
pub open spec fn nines(m: nat) -> Seq<u8> {
    Seq::new(m, |i: int| '9' as u8)
}

/// 11 to the `n`-th power.
pub open spec fn pow11(n: nat) -> nat
    decreases n,
{
    if n == 0 {
        1
    } else {
        11 * pow11((n - 1) as nat)
    }
}

/// The weight of the first position of `ds`: a present digit `d` counts
/// `'9' - d` (how far it can still be incremented), an absent position 10.
pub open spec fn coef(ds: Seq<u8>) -> nat {
    if ds.len() == 0 {
        10
    } else if is_digit(ds[0]) {
        ('9' as u8 - ds[0]) as nat
    } else {
        0
    }
}

/// The work remaining under the fractional digits `ds`, over `slots`
/// positions in all: position weights fall by a factor of 11 from left to
/// right, so that advancing any digit outweighs refilling everything to its
/// right.
pub open spec fn wsum(ds: Seq<u8>, slots: nat) -> nat
    decreases slots,
{
    if slots == 0 {
        0
    } else {
        coef(ds) * pow11((slots - 1) as nat) + wsum(
            if ds.len() == 0 {
                ds
            } else {
                ds.drop_first()
            },
            (slots - 1) as nat,
        )
    }
}

impl RoundTestIter {
    /// The buffer still ends in a step marker and more probes will come.
    pub open spec fn active(self) -> bool {
        let b = self.base@;
        let off = sign_len(b);
        &&& b.len() >= off + 3
        &&& b[off] == '0' as u8
        &&& b[off + 1] == '.' as u8
        &&& (forall|i: int| off + 2 <= i < b.len() - 1 ==> is_digit(#[trigger] b[i]))
        &&& (b[b.len() - 1] == 'a' as u8 || b[b.len() - 1] == 'b' as u8)
        &&& self.precision == b.len() - off - 2
        &&& 1 <= self.precision <= self.max
    }

    /// Every probe was emitted: the buffer is down to the integer "0" and
    /// `next` returns nothing, leaving the state as it is.
    pub open spec fn finished(self) -> bool {
        let b = self.base@;
        let off = sign_len(b);
        &&& b.len() == off + 1
        &&& b[off] == '0' as u8
    }

    pub open spec fn wf(self) -> bool {
        self.active() || self.finished()
    }
}

/// How much of the enumeration is left. Each call of `next` that emits a
/// pair strictly decreases this measure, so any finite depth yields a finite
/// sequence: the enumeration terminates.
pub open spec fn gen_measure(it: RoundTestIter) -> nat {
    if it.active() {
        let b = it.base@;
        (if b[b.len() - 1] == 'a' as u8 {
            2nat
        } else {
            1nat
        }) + 2 * wsum(frac_digits(b), (it.max - 1) as nat)
    } else {
        0
    }
}

/// The emitted decimal string: the buffer with its step marker replaced by
/// the probe digit, '4' for marker 'a' and '5' for marker 'b'.
pub open spec fn emitted(b: Seq<u8>) -> Seq<u8> {
    b.drop_last().push(
        if b[b.len() - 1] == 'a' as u8 {
            '4' as u8
        } else {
            '5' as u8
        },
    )
}

/// Every emitted pair probes a rounding boundary: `v` is "0." (optionally
/// signed), then exactly `p` fractional digits, then a single '4' or '5' —
/// the digit right after the kept precision — and `p` stays below the depth.
pub open spec fn boundary_case(v: Seq<char>, p: int, max: int) -> bool {
    let b = ascii_view(v);
    let off = sign_len(b);
    &&& 0 <= p < max
    &&& b.len() == off + 3 + p
    &&& b[off] == '0' as u8
    &&& b[off + 1] == '.' as u8
    &&& (forall|i: int| off + 2 <= i < b.len() - 1 ==> is_digit(#[trigger] b[i]))
    &&& (b[b.len() - 1] == '4' as u8 || b[b.len() - 1] == '5' as u8)
}

pub proof fn lemma_pow11_pos(n: nat)
    ensures
        pow11(n) >= 1,
    decreases n,
{
    if n > 0 {
        lemma_pow11_pos((n - 1) as nat);
    }
}

/// With every position absent the weight is one short of the next power.
proof fn lemma_wsum_empty(slots: nat)
    ensures
        wsum(Seq::<u8>::empty(), slots) + 1 == pow11(slots),
    decreases slots,
{
    if slots > 0 {
        lemma_wsum_empty((slots - 1) as nat);
        lemma_pow11_pos((slots - 1) as nat);
    }
}

/// A buffer of nothing but nines has no work left in its filled positions.
proof fn lemma_wsum_nines(ds: Seq<u8>, slots: nat)
    requires
        ds.len() == slots,
        forall|i: int| 0 <= i < ds.len() ==> ds[i] == '9' as u8,
    ensures
        wsum(ds, slots) == 0,
    decreases slots,
{
    if slots > 0 {
        assert(coef(ds) == 0);
        lemma_wsum_nines(ds.drop_first(), (slots - 1) as nat);
    }
}

/// Filling one more position with digit `x` lowers the weight by at least
/// that position's power.
proof fn lemma_wsum_push(ds: Seq<u8>, x: u8, slots: nat)
    requires
        ds.len() < slots,
        is_digit(x),
    ensures
        wsum(ds.push(x), slots) + (1 + (x - '0' as u8) as nat) * pow11(
            (slots - ds.len() - 1) as nat,
        ) == wsum(ds, slots),
    decreases ds.len(),
{
    let p1 = pow11((slots - 1) as nat);
    if ds.len() == 0 {
        assert(ds.push(x).drop_first() =~= Seq::<u8>::empty());
        assert(ds =~= Seq::<u8>::empty());
        let a = ('9' as u8 - x) as nat;
        let c = (1 + (x - '0' as u8) as nat) as nat;
        assert(coef(ds.push(x)) == a);
        assert(a + c == 10);
        assert(a * p1 + c * p1 == 10 * p1) by (nonlinear_arith)
            requires
                a + c == 10,
        ;
    } else {
        lemma_wsum_push(ds.drop_first(), x, (slots - 1) as nat);
        assert(ds.push(x).drop_first() =~= ds.drop_first().push(x));
        assert(coef(ds.push(x)) == coef(ds));
    }
}

/// The backtracking step: dropping a maximal run of `m` trailing nines and
/// advancing the digit to its left costs exactly one unit of weight.
proof fn lemma_wsum_backtrack(e: Seq<u8>, x: u8, m: nat, slots: nat)
    requires
        e.len() + 1 + m == slots,
        is_digit(x),
        x != '9' as u8,
    ensures
        wsum(e.push((x + 1) as u8), slots) + 1 == wsum(e.push(x) + nines(m), slots),
    decreases e.len(),
{
    if e.len() == 0 {
        let p1 = pow11(m);
        assert((slots - 1) as nat == m);
        assert(e.push((x + 1) as u8).drop_first() =~= Seq::<u8>::empty());
        assert((e.push(x) + nines(m)).drop_first() =~= nines(m));
        lemma_wsum_empty(m);
        lemma_wsum_nines(nines(m), m);
        let a = ('9' as u8 - (x + 1)) as nat;
        assert(coef(e.push((x + 1) as u8)) == a);
        assert(coef(e.push(x) + nines(m)) == a + 1);
        assert(a * p1 + p1 == (a + 1) * p1) by (nonlinear_arith);
    } else {
        lemma_wsum_backtrack(e.drop_first(), x, m, (slots - 1) as nat);
        assert(e.push((x + 1) as u8).drop_first() =~= e.drop_first().push((x + 1) as u8));
        assert((e.push(x) + nines(m)).drop_first() =~= e.drop_first().push(x) + nines(m));
        assert(coef(e.push((x + 1) as u8)) == coef(e.push(x) + nines(m)));
    }
}

impl RoundTestIter {
    /// A fresh cursor for depth `max`, probing negative values when
    /// `negative` is set: the first probe position is the first fractional
    /// digit of "0." (or "-0.").
    pub fn new(max: usize, negative: bool) -> (it: RoundTestIter)
        requires
            1 <= max <= 14,
        ensures
            it.active(),
            it.max == max,
            it.precision == 1,
            it.base@ == (if negative {
                seq!['-' as u8, '0' as u8, '.' as u8, 'a' as u8]
            } else {
                seq!['0' as u8, '.' as u8, 'a' as u8]
            }),
    {
        let mut base: Vec<u8> = Vec::new();
        if negative {
            base.push('-' as u8);
        }
        base.push('0' as u8);
        base.push('.' as u8);
        base.push('a' as u8);
        let it = RoundTestIter { base, precision: 1, max };
        proof {
            if negative {
                assert(it.base@ =~= seq!['-' as u8, '0' as u8, '.' as u8, 'a' as u8]);
                assert(sign_len(it.base@) == 1);
            } else {
                assert(it.base@ =~= seq!['0' as u8, '.' as u8, 'a' as u8]);
                assert(sign_len(it.base@) == 0);
            }
        }
        it
    }

    /// The next boundary pair: the probe value and the precision it targets
    /// (one less than the probe's own digit count). Marker 'a' advances to
    /// 'b' in place; after 'b' the buffer grows one position while below the
    /// depth, and otherwise backtracks across trailing nines, finishing when
    /// none but nines are left. `gen_measure` strictly decreases with every
    /// emitted pair, so the sequence is finite.
    #[verifier::rlimit(100)]
    pub fn next(&mut self) -> (r: Option<(String, usize)>)
        requires
            old(self).wf(),
        ensures
            final(self).wf(),
            final(self).max == old(self).max,
            r is None <==> old(self).finished(),
            old(self).finished() ==> *final(self) == *old(self),
            r matches Some(v) ==> ({
                &&& v.0@ == char_view(emitted(old(self).base@))
                &&& wf_decimal(ascii_view(v.0@))
                &&& v.1 == old(self).precision - 1
                &&& boundary_case(v.0@, v.1 as int, old(self).max as int)
                &&& gen_measure(*final(self)) < gen_measure(*old(self))
            }),
            (old(self).active() && old(self).base@.last() == 'a' as u8) ==> (final(self).base@
                == old(self).base@.drop_last().push('b' as u8) && final(self).precision == old(
                self,
            ).precision),
            (old(self).active() && old(self).base@.last() == 'b' as u8 && old(self).precision
                < old(self).max) ==> (final(self).base@ == old(self).base@.drop_last().push(
                '0' as u8,
            ).push('a' as u8) && final(self).precision == old(self).precision + 1),
            (old(self).active() && old(self).base@.last() == 'b' as u8 && old(self).precision
                == old(self).max) ==> ({
                let b = old(self).base@;
                let ds = frac_digits(b);
                let f9 = trailing_nines(ds);
                if f9 < ds.len() {
                    &&& final(self).base@ == b.subrange(0, b.len() - 2 - f9).push(
                        (ds[ds.len() - 1 - f9] + 1) as u8,
                    ).push('a' as u8)
                    &&& final(self).precision == old(self).max - f9
                } else {
                    &&& final(self).base@ == b.subrange(0, sign_len(b) + 1)
                    &&& final(self).precision == 0
                }
            }),
    {
        let len = self.base.len();
        let last = self.base[len - 1];
        if last != 'a' as u8 && last != 'b' as u8 {
            proof {
                assert(old(self).finished());
            }
            return None;
        }
        proof {
            assert(old(self).active());
        }
        let ghost b0 = self.base@;
        let ghost off0 = sign_len(b0);
        // Render the probe value: the buffer with the marker replaced.
        let mut value: Vec<u8> = Vec::new();
        let mut i: usize = 0;
        while i < len - 1
            invariant
                i <= len - 1,
                *self == *old(self),
                len == self.base@.len(),
                value@ == self.base@.subrange(0, i as int),
            decreases len - 1 - i,
        {
            value.push(self.base[i]);
            proof {
                assert(value@ =~= self.base@.subrange(0, i + 1));
            }
            i += 1;
        }
        value.push(
            if last == 'a' as u8 {
                '4' as u8
            } else {
                '5' as u8
            },
        );
        proof {
            assert(value@ =~= emitted(b0));
            assert forall|j: int| 0 <= j < value@.len() implies value@[j] < 128 by {
                if j < off0 {
                    assert(value@[j] == '-' as u8);
                } else if j == off0 {
                    assert(value@[j] == '0' as u8);
                } else if j == off0 + 1 {
                    assert(value@[j] == '.' as u8);
                } else if j < value@.len() - 1 {
                    assert(is_digit(value@[j]));
                }
            }
        }
        let ghost vb = value@;
        let s = crate::decimal::ascii_to_string(value);
        let out_prec = self.precision - 1;
        proof {
            // The emitted value is itself a well-formed decimal string with
            // its point right after the integer '0'.
            assert(ascii_view(char_view(vb)) =~= vb);
            assert(decimal_shape(vb, off0 + 1)) by {
                assert(vb[0] == b0[0]);
                assert(sign_len(vb) == off0);
                assert forall|j: int| off0 + 1 < j < vb.len() implies is_digit(vb[j]) by {
                    if j < vb.len() - 1 {
                        assert(vb[j] == b0[j]);
                    }
                }
            }
            assert(boundary_case(char_view(vb), out_prec as int, old(self).max as int)) by {
                assert(sign_len(vb) == off0);
            }
        }
        if last == 'a' as u8 {
            // The '4' probe: advance the marker to 'b' in place.
            let _ = self.base.pop();
            self.base.push('b' as u8);
            proof {
                assert(self.base@ =~= b0.drop_last().push('b' as u8));
                assert(sign_len(self.base@) == off0);
                assert forall|j: int|
                    off0 + 2 <= j < self.base@.len() - 1 implies is_digit(self.base@[j]) by {
                    assert(self.base@[j] == b0[j]);
                }
                assert(self.active());
                assert(frac_digits(self.base@) =~= frac_digits(b0));
            }
            return Some((s, out_prec));
        }
        // The '5' probe was emitted.
        let _ = self.base.pop();
        proof {
            assert(self.base@ =~= b0.drop_last());
        }
        if self.precision < self.max {
            // Grow by one digit position, probing it from '4' again.
            self.base.push('0' as u8);
            self.base.push('a' as u8);
            self.precision = self.precision + 1;
            proof {
                assert(self.base@ =~= b0.drop_last().push('0' as u8).push('a' as u8));
                assert(sign_len(self.base@) == off0);
                assert forall|j: int|
                    off0 + 2 <= j < self.base@.len() - 1 implies is_digit(self.base@[j]) by {
                    if j < b0.len() - 1 {
                        assert(self.base@[j] == b0[j]);
                    } else {
                        assert(self.base@[j] == '0' as u8);
                    }
                }
                assert(self.active());
                let ds = frac_digits(b0);
                let slots = (old(self).max - 1) as nat;
                assert(ds.len() < slots);
                lemma_wsum_push(ds, '0' as u8, slots);
                lemma_pow11_pos((slots - ds.len() - 1) as nat);
                assert(frac_digits(self.base@) =~= ds.push('0' as u8));
                assert(wsum(ds.push('0' as u8), slots) + 1 * pow11((slots - ds.len() - 1) as nat)
                    == wsum(ds, slots));
                assert(gen_measure(*old(self)) == 1 + 2 * wsum(ds, slots));
                assert(gen_measure(*self) == 2 + 2 * wsum(ds.push('0' as u8), slots));
                assert(gen_measure(*self) < gen_measure(*old(self)));
            }
            return Some((s, out_prec));
        }
        // At the depth: backtrack across trailing nines.
        let blen = len - 1;
        let off: usize = if self.base[0] == '-' as u8 {
            1
        } else {
            0
        };
        let k = blen - off - 2;
        let ghost ds = frac_digits(b0);
        proof {
            assert(off == off0);
            assert(ds =~= self.base@.subrange(off0 + 2, blen as int));
            assert(ds.len() == k);
        }
        let mut f9: usize = 0;
        while f9 < k && self.base[blen - 1 - f9] == '9' as u8
            invariant
                f9 <= k,
                self.base@ == b0.drop_last(),
                self.precision == old(self).precision,
                self.max == old(self).max,
                blen == self.base@.len(),
                off == sign_len(self.base@) == sign_len(b0),
                k == blen - off - 2,
                ds == self.base@.subrange(off + 2, blen as int),
                forall|j: int| k - f9 <= j < k ==> ds[j] == '9' as u8,
            decreases k - f9,
        {
            proof {
                assert(self.base@[blen - 1 - f9] == ds[k - 1 - f9]);
            }
            f9 += 1;
        }
        proof {
            if f9 < k {
                assert(self.base@[blen - 1 - f9] == ds[k - 1 - f9]);
            }
            lemma_trailing_nines_is(ds, f9 as int);
        }
        if f9 < k {
            // Advance the rightmost digit below '9' and probe afresh.
            let x = self.base[blen - 1 - f9];
            proof {
                assert(x == ds[k - 1 - f9]);
                assert(is_digit(x));
                assert(x != '9' as u8);
            }
            self.base.truncate(blen - 1 - f9);
            self.base.push(x + 1);
            self.base.push('a' as u8);
            self.precision = self.precision - 1 - f9 + 1;
            proof {
                assert(self.base@ =~= b0.subrange(0, b0.len() - 2 - f9).push((x + 1) as u8).push(
                    'a' as u8,
                ));
                assert(sign_len(self.base@) == off0) by {
                    assert(self.base@[0] == b0[0]);
                }
                assert forall|j: int|
                    off0 + 2 <= j < self.base@.len() - 1 implies is_digit(self.base@[j]) by {
                    if j < blen - 1 - f9 {
                        assert(self.base@[j] == b0[j]);
                    } else {
                        assert(self.base@[j] == (x + 1) as u8);
                    }
                }
                assert(self.active());
                // The measure falls: one unit is paid for the backtrack.
                let slots = (old(self).max - 1) as nat;
                let e = ds.subrange(0, k - 1 - f9);
                assert(ds =~= e.push(x) + nines(f9 as nat));
                lemma_wsum_backtrack(e, x, f9 as nat, slots);
                assert(frac_digits(self.base@) =~= e.push((x + 1) as u8));
                assert(b0 == old(self).base@);
                assert(old(self).active());
                assert(gen_measure(*old(self)) == 1 + 2 * wsum(ds, slots));
                assert(wsum(frac_digits(self.base@), slots) + 1 == wsum(ds, slots));
                assert(gen_measure(*self) == 2 + 2 * wsum(frac_digits(self.base@), slots));
                assert(gen_measure(*self) < gen_measure(*old(self)));
            }
            Some((s, out_prec))
        } else {
            // Nothing but nines: every probe is exhausted.
            self.base.truncate(off + 1);
            self.precision = 0;
            proof {
                assert(self.base@ =~= b0.subrange(0, off0 + 1));
                assert(self.base@[0] == b0[0]);
                assert(sign_len(self.base@) == off0);
                assert(self.base@[off0] == b0[off0]);
                assert(self.finished());
                assert(gen_measure(*self) == 0);
                assert(gen_measure(*old(self)) >= 1);
            }
            Some((s, out_prec))
        }
    }
}

} // verus!
