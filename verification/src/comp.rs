//! The approximate-comparison capability of key types.
//!
//! A key type is approximately comparable when it can measure a non-negative
//! `fuzziness` against another key and decide a match under a tolerance. Both
//! values are IEEE single-precision numbers carried as bit patterns; the match
//! test is the strict IEEE `<` of `float_bits`.
//!
//! The one key type whose fuzziness is computed here is `i16`: the absolute
//! difference of two shorts is below 2^16, every integer in that range has an
//! exact single-precision encoding, and that encoding is constructed by
//! integer arithmetic alone. Vector keys, whose fuzziness needs
//! floating-point arithmetic, implement this trait outside the verified core
//! and hand their fuzziness in as a bit pattern.

use vstd::arithmetic::power2::{lemma_pow2_adds, lemma_pow2_strictly_increases, pow2};
use vstd::prelude::*;

use crate::float_bits::{float_lt, lt_bits};

verus! {

/// The exponent of the highest power of two not above `n` (zero for `n <= 1`).
pub open spec fn floor_log2(n: nat) -> nat
    decreases n,
{
    if n <= 1 {
        0
    } else {
        1 + floor_log2((n / 2) as nat)
    }
}

/// `floor_log2(n)` is the unique `p` with `pow2(p) <= n < pow2(p + 1)`.
proof fn lemma_floor_log2_unique(n: nat, p: nat)
    requires
        pow2(p) <= n < pow2(p + 1),
    ensures
        floor_log2(n) == p,
    decreases p,
{
    vstd::arithmetic::power2::lemma_pow2_unfold(p + 1);
    if p == 0 {
        assert(pow2(1) == 2) by {
            vstd::arithmetic::power2::lemma2_to64();
        }
    } else {
        vstd::arithmetic::power2::lemma_pow2_unfold(p);
        assert(pow2((p - 1) as nat) <= n / 2 < pow2(p));
        lemma_floor_log2_unique((n / 2) as nat, (p - 1) as nat);
        assert(n >= 2);
    }
}

/// The exact IEEE single-precision encoding of a small natural number:
/// biased exponent `127 + floor_log2(d)`, mantissa the remaining digits.
/// Exact (and below the NaN range) for every `d` below 2^24.
pub open spec fn small_int_bits(d: nat) -> u32 {
    if d == 0 {
        0
    } else {
        let p = floor_log2(d);
        ((127 + p) * 0x80_0000 + (d - pow2(p)) * pow2((23 - p) as nat)) as u32
    }
}

/// Encodes a natural number below 2^24 as its IEEE bit pattern.
pub fn small_int_to_bits(d: u32) -> (r: u32)
    requires
        d < 0x100_0000,
    ensures
        r == small_int_bits(d as nat),
{
    if d == 0 {
        return 0;
    }
    let mut p: u32 = 0;
    let mut pow: u32 = 1;
    assert(pow2(0) == 1) by {
        vstd::arithmetic::power2::lemma2_to64();
    }
    while pow <= d / 2
        invariant
            1 <= pow,
            pow == pow2(p as nat),
            pow <= d,
            d < 0x100_0000,
            p <= 23,
        decreases d - pow,
    {
        proof {
            vstd::arithmetic::power2::lemma_pow2_unfold(p as nat + 1);
            if p >= 23 {
                lemma_pow2_strictly_increases(23, p as nat + 1);
                assert(pow2(23) == 0x80_0000) by {
                    vstd::arithmetic::power2::lemma2_to64();
                }
            }
        }
        pow = pow * 2;
        p = p + 1;
    }
    proof {
        vstd::arithmetic::power2::lemma_pow2_unfold(p as nat + 1);
        lemma_floor_log2_unique(d as nat, p as nat);
        if p > 23 {
            lemma_pow2_strictly_increases(23, p as nat);
            assert(pow2(23) == 0x80_0000) by {
                vstd::arithmetic::power2::lemma2_to64();
            }
        }
        lemma_pow2_adds(p as nat, (23 - p) as nat);
        assert(pow2(23) == 0x80_0000) by {
            vstd::arithmetic::power2::lemma2_to64();
        }
        vstd::arithmetic::div_mod::lemma_div_multiples_vanish(
            pow2((23 - p) as nat) as int,
            pow as int,
        );
        vstd::arithmetic::power2::lemma_pow2_pos((23 - p) as nat);
    }
    let scale: u32 = 0x80_0000 / pow;
    assert(scale == pow2((23 - p) as nat));
    assert((d - pow) * scale < pow * scale) by (nonlinear_arith)
        requires
            d - pow < pow,
            scale > 0,
    ;
    let mantissa: u32 = (d - pow) * scale;
    (127 + p) * 0x80_0000 + mantissa
}

/// `pow2(floor_log2(n))` brackets `n` from below, `pow2(floor_log2(n) + 1)`
/// from above.
proof fn lemma_floor_log2_brackets(n: nat)
    requires
        n >= 1,
    ensures
        pow2(floor_log2(n)) <= n < pow2(floor_log2(n) + 1),
    decreases n,
{
    vstd::arithmetic::power2::lemma_pow2_unfold(floor_log2(n) + 1);
    if n <= 1 {
        assert(pow2(0) == 1 && pow2(1) == 2) by {
            vstd::arithmetic::power2::lemma2_to64();
        }
    } else {
        lemma_floor_log2_brackets((n / 2) as nat);
        vstd::arithmetic::power2::lemma_pow2_unfold(floor_log2(n));
    }
}

/// The small-integer encoding stays far below the sign bit and the NaN range,
/// and is zero exactly on zero.
pub proof fn lemma_small_int_bits_range(d: nat)
    requires
        d < 0x100_0000,
    ensures
        !crate::float_bits::is_neg(small_int_bits(d)),
        !crate::float_bits::is_nan_bits(small_int_bits(d)),
        small_int_bits(d) == 0 <==> d == 0,
        d != 0 ==> float_lt(crate::float_bits::ZERO_BITS, small_int_bits(d)),
{
    if d != 0 {
        let p = floor_log2(d);
        lemma_floor_log2_brackets(d);
        if p >= 24 {
            if p > 24 {
                lemma_pow2_strictly_increases(24, p);
            }
            assert(pow2(24) == 0x100_0000) by {
                vstd::arithmetic::power2::lemma2_to64();
            }
            assert(false);
        }
        lemma_pow2_adds(p, (23 - p) as nat);
        assert(pow2(23) == 0x80_0000) by {
            vstd::arithmetic::power2::lemma2_to64();
        }
        vstd::arithmetic::power2::lemma_pow2_unfold(p + 1);
        vstd::arithmetic::power2::lemma_pow2_pos((23 - p) as nat);
        assert((d - pow2(p)) * pow2((23 - p) as nat) < pow2(p) * pow2((23 - p) as nat))
            by (nonlinear_arith)
            requires
                d - pow2(p) < pow2(p),
                pow2((23 - p) as nat) > 0,
        ;
    }
}

/// For nonzero `d` below 2^24, the encoding decomposes into exponent and
/// mantissa parts with the expected bounds.
proof fn lemma_small_int_bits_parts(d: nat)
    requires
        1 <= d < 0x100_0000,
    ensures
        floor_log2(d) <= 23,
        pow2(floor_log2(d)) <= d < pow2(floor_log2(d) + 1),
        (d - pow2(floor_log2(d))) * pow2((23 - floor_log2(d)) as nat) < pow2(23),
        small_int_bits(d) == (127 + floor_log2(d)) * 0x80_0000 + (d - pow2(floor_log2(d))) * pow2(
            (23 - floor_log2(d)) as nat,
        ),
        pow2(23) == 0x80_0000,
{
    let p = floor_log2(d);
    lemma_floor_log2_brackets(d);
    assert(pow2(23) == 0x80_0000 && pow2(24) == 0x100_0000) by {
        vstd::arithmetic::power2::lemma2_to64();
    }
    if p >= 24 {
        if p > 24 {
            lemma_pow2_strictly_increases(24, p);
        }
        assert(false);
    }
    vstd::arithmetic::power2::lemma_pow2_unfold(p + 1);
    vstd::arithmetic::power2::lemma_pow2_pos((23 - p) as nat);
    lemma_pow2_adds(p, (23 - p) as nat);
    assert((d - pow2(p)) * pow2((23 - p) as nat) < pow2(p) * pow2((23 - p) as nat))
        by (nonlinear_arith)
        requires
            d - pow2(p) < pow2(p),
            pow2((23 - p) as nat) > 0,
    ;
}

/// The encoding is strictly monotone on naturals below 2^24.
proof fn lemma_small_int_bits_increases(d1: nat, d2: nat)
    requires
        d1 < d2 < 0x100_0000,
    ensures
        small_int_bits(d1) < small_int_bits(d2),
{
    lemma_small_int_bits_parts(d2);
    let p2 = floor_log2(d2);
    if d1 == 0 {
        assert(small_int_bits(d1) == 0);
        assert(small_int_bits(d2) >= (127 + p2) * 0x80_0000 > 0);
    } else {
        lemma_small_int_bits_parts(d1);
        let p1 = floor_log2(d1);
        if p1 > p2 {
            if p2 + 1 < p1 {
                lemma_pow2_strictly_increases(p2 + 1, p1);
            }
            assert(pow2(p1) <= d1 && d2 < pow2(p2 + 1));
            assert(false);
        }
        if p1 == p2 {
            vstd::arithmetic::power2::lemma_pow2_pos((23 - p1) as nat);
            assert((d1 - pow2(p1)) * pow2((23 - p1) as nat) < (d2 - pow2(p1)) * pow2(
                (23 - p1) as nat,
            )) by (nonlinear_arith)
                requires
                    d1 - pow2(p1) < d2 - pow2(p1),
                    pow2((23 - p1) as nat) > 0,
            ;
        } else {
            assert(small_int_bits(d1) < (127 + p1) * 0x80_0000 + 0x80_0000);
            assert((128 + p1) * 0x80_0000 <= (127 + p2) * 0x80_0000);
        }
    }
}

/// The IEEE order of two encoded naturals is the integer order: the encoding
/// is exact, so comparing fuzziness values compares distances.
pub proof fn lemma_small_int_bits_monotone(d1: nat, d2: nat)
    requires
        d1 < 0x100_0000,
        d2 < 0x100_0000,
    ensures
        float_lt(small_int_bits(d1), small_int_bits(d2)) <==> d1 < d2,
{
    lemma_small_int_bits_range(d1);
    lemma_small_int_bits_range(d2);
    if d1 < d2 {
        lemma_small_int_bits_increases(d1, d2);
    } else if d2 < d1 {
        lemma_small_int_bits_increases(d2, d1);
    }
}

/// Short keys match under an encoded integer tolerance exactly when their
/// integer distance is below it.
pub proof fn lemma_short_matches_iff(a: i16, b: i16, t: u32)
    requires
        t < 0x100_0000,
    ensures
        float_lt(a.spec_fuzziness(b), small_int_bits(t as nat)) <==> (if a >= b {
            a - b
        } else {
            b - a
        }) < t,
{
    let d: nat = if a >= b {
        (a - b) as nat
    } else {
        (b - a) as nat
    };
    lemma_small_int_bits_monotone(d, t as nat);
}

/// A key type that can quantify how far it is from another key of the same
/// type, and decide a match under a per-comparison tolerance. Fuzziness and
/// tolerance are IEEE single-precision values carried as bit patterns.
pub trait ApproxComparable: Sized {
    /// The fuzziness between the two keys, as a bit pattern.
    spec fn spec_fuzziness(self, instore: Self) -> u32;

    /// Computes the fuzziness between `self` and `instore`.
    fn fuzziness(&self, instore: &Self) -> (r: u32)
        ensures
            r == self.spec_fuzziness(*instore),
    ;

    /// True iff the fuzziness between the keys is strictly below `tolerance`
    /// in the IEEE order (so a NaN fuzziness never matches).
    fn roughly_matches(&self, instore: &Self, tolerance: u32) -> (r: bool)
        ensures
            r == float_lt(self.spec_fuzziness(*instore), tolerance),
    {
        let f = self.fuzziness(instore);
        lt_bits(f, tolerance)
    }
}

/// Self-similarity: a short key has zero fuzziness to itself.
pub proof fn lemma_short_self_fuzziness_zero(x: i16)
    ensures
        x.spec_fuzziness(x) == crate::float_bits::ZERO_BITS,
{
}

/// The fuzziness between two shorts is symmetric, non-negative, and never
/// NaN — the soundness a nearest-match scan over short keys relies on.
pub proof fn lemma_short_fuzziness_sound(a: i16, b: i16)
    ensures
        a.spec_fuzziness(b) == b.spec_fuzziness(a),
        !crate::float_bits::is_neg(a.spec_fuzziness(b)),
        !crate::float_bits::is_nan_bits(a.spec_fuzziness(b)),
        !float_lt(a.spec_fuzziness(b), crate::float_bits::ZERO_BITS),
{
    let d: nat = if a >= b {
        (a - b) as nat
    } else {
        (b - a) as nat
    };
    lemma_small_int_bits_range(d);
}

impl ApproxComparable for i16 {
    /// The encoding of the absolute difference, which is exact for shorts.
    open spec fn spec_fuzziness(self, instore: i16) -> u32 {
        small_int_bits(
            if self >= instore {
                (self - instore) as nat
            } else {
                (instore - self) as nat
            },
        )
    }

    fn fuzziness(&self, instore: &i16) -> (r: u32) {
        let a: i32 = *self as i32;
        let b: i32 = *instore as i32;
        let d: u32 = if a >= b {
            (a - b) as u32
        } else {
            (b - a) as u32
        };
        small_int_to_bits(d)
    }
}

} // verus!
