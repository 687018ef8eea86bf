//! The radices of trie nodes, and division by them with multiply-shift.
//!
//! For a divisor `d` that is not a power of two, `x / d` is computed as
//! `(x + hi(x * m)) >> s` where `2^64 + m` approximates `2^(64 + s) / d`
//! (`hi` taking the upper 64 bits of the 128-bit product). The constants of
//! 5, 13 and 17 are rounded up and give `x / d` exactly; those of 3, 7 and 11
//! are rounded down and come out one short for multiples of `d`, which the
//! remainder shows and a last step corrects.

use vstd::arithmetic::div_mod::{
    lemma_div_denominator, lemma_fundamental_div_mod, lemma_fundamental_div_mod_converse,
};
use vstd::prelude::*;

verus! {

#[derive(Clone, Copy, Debug, PartialEq, Eq, Structural)]
pub enum Divisor {
    _1,
    _2,
    _3,
    _4,
    _5,
    _7,
    _8,
    _11,
    _13,
    _16,
    _17,
}

pub open spec fn divisor_value(d: Divisor) -> int {
    match d {
        Divisor::_1 => 1,
        Divisor::_2 => 2,
        Divisor::_3 => 3,
        Divisor::_4 => 4,
        Divisor::_5 => 5,
        Divisor::_7 => 7,
        Divisor::_8 => 8,
        Divisor::_11 => 11,
        Divisor::_13 => 13,
        Divisor::_16 => 16,
        Divisor::_17 => 17,
    }
}

pub open spec fn is_pow2(d: Divisor) -> bool {
    d == Divisor::_1 || d == Divisor::_2 || d == Divisor::_4 || d == Divisor::_8 || d
        == Divisor::_16
}

/// The low 64 bits of the multiplier, and the shift, for a divisor that is
/// not a power of two.
pub open spec fn magic(d: Divisor) -> (int, int) {
    match d {
        Divisor::_3 => (0x5555_5555_5555_5555, 4),
        Divisor::_5 => (0x9999_9999_9999_999a, 8),
        Divisor::_7 => (0x2492_4924_9249_2492, 8),
        Divisor::_11 => (0x745d_1745_d174_5d17, 16),
        Divisor::_13 => (0x3b13_b13b_13b1_3b14, 16),
        _ => (0xe1e1_e1e1_e1e1_e1e2, 32),
    }
}

/// Whether `x` can be divided by `d` without the sum overflowing.
pub open spec fn apply_ok(d: Divisor, x: u64) -> bool {
    is_pow2(d) || x + (x * magic(d).0) / 0x1_0000_0000_0000_0000int <= u64::MAX
}

/// The multiplier is rounded down: multiples of the divisor come out one short.
pub open spec fn rounded_down(d: Divisor) -> bool {
    d == Divisor::_3 || d == Divisor::_7 || d == Divisor::_11
}

/// The quotient the multiply-shift computes.
pub open spec fn spec_quotient(d: Divisor, x: int) -> int {
    if !is_pow2(d) && rounded_down(d) && x % divisor_value(d) == 0 && x > 0 {
        x / divisor_value(d) - 1
    } else {
        x / divisor_value(d)
    }
}

impl Divisor {
    pub fn value(self) -> (r: u64)
        ensures
            r == divisor_value(self),
    {
        match self {
            Divisor::_1 => 1,
            Divisor::_2 => 2,
            Divisor::_3 => 3,
            Divisor::_4 => 4,
            Divisor::_5 => 5,
            Divisor::_7 => 7,
            Divisor::_8 => 8,
            Divisor::_11 => 11,
            Divisor::_13 => 13,
            Divisor::_16 => 16,
            Divisor::_17 => 17,
        }
    }

    pub fn is_power_of_two(self) -> (r: bool)
        ensures
            r == is_pow2(self),
    {
        match self {
            Divisor::_1 | Divisor::_2 | Divisor::_4 | Divisor::_8 | Divisor::_16 => true,
            _ => false,
        }
    }

    /// The quotient and remainder of `dividend` by the divisor.
    pub fn apply(self, dividend: u64) -> (r: (u64, u8))
        requires
            apply_ok(self, dividend),
        ensures
            r.0 == (dividend as int) / divisor_value(self),
            r.1 == (dividend as int) % divisor_value(self),
    {
        if let Divisor::_1 = self {
            return (dividend, 0);
        }
        let d = self.value();
        if self.is_power_of_two() {
            return (dividend / d, (dividend % d) as u8);
        }
        let (lo, sh): (u64, u64) = match self {
            Divisor::_3 => (0x5555_5555_5555_5555, 4),
            Divisor::_5 => (0x9999_9999_9999_999a, 8),
            Divisor::_7 => (0x2492_4924_9249_2492, 8),
            Divisor::_11 => (0x745d_1745_d174_5d17, 16),
            Divisor::_13 => (0x3b13_b13b_13b1_3b14, 16),
            _ => (0xe1e1_e1e1_e1e1_e1e2, 32),
        };
        let prod = dividend as u128 * lo as u128;
        let hi = (prod / 0x1_0000_0000_0000_0000u128) as u64;
        let quotient = (dividend + hi) / sh;
        proof {
            lemma_magic_quotient(self, dividend as int);
        }
        let remainder = dividend - d * quotient;
        proof {
            let x = dividend as int;
            let n = d as int;
            lemma_fundamental_div_mod(x, n);
            if rounded_down(self) && x % n == 0 && x > 0 {
                assert(remainder == n) by (nonlinear_arith)
                    requires
                        remainder == x - n * (x / n - 1),
                        x == n * (x / n) + x % n,
                        x % n == 0,
                ;
            } else {
                assert(remainder == x % n) by (nonlinear_arith)
                    requires
                        remainder == x - n * (x / n),
                        x == n * (x / n) + x % n,
                ;
                assert(x % n < n);
            }
        }
        if remainder == d {
            // A multiple of a divisor whose multiplier is rounded down comes
            // out one short.
            return (quotient + 1, 0);
        }
        (quotient, remainder as u8)
    }
}

/// The multiply-shift quotient is `spec_quotient`.
proof fn lemma_magic_quotient(d: Divisor, x: int)
    requires
        !is_pow2(d),
        0 <= x <= u64::MAX,
    ensures
        ({
            let (lo, sh) = magic(d);
            (x + (x * lo) / 0x1_0000_0000_0000_0000) / sh == spec_quotient(d, x)
        }),
        0 <= x - divisor_value(d) * spec_quotient(d, x) <= divisor_value(d),
{
    let (lo, sh) = magic(d);
    let n = divisor_value(d);
    let b = 0x1_0000_0000_0000_0000int;
    let cp = b + lo;
    let p = b * sh;
    // The sum is the upper half of x * (2^64 + lo), then shifted.
    assert(x * cp == x * b + x * lo) by (nonlinear_arith)
        requires
            cp == b + lo,
    ;
    lemma_fundamental_div_mod(x * lo, b);
    assert(x + (x * lo) / b == (x * cp) / b) by {
        let q = (x * lo) / b;
        let t = (x * lo) % b;
        assert(x * cp == (x + q) * b + t) by (nonlinear_arith)
            requires
                x * cp == x * b + x * lo,
                x * lo == b * q + t,
        ;
        lemma_fundamental_div_mod_converse(x * cp, b, x + q, t);
    }
    lemma_div_denominator(x * cp, b, sh);
    let e = cp * n - p;
    let (q0, r0) = (x / n, x % n);
    lemma_fundamental_div_mod(x, n);
    let t = q0 * e + r0 * cp;
    assert(x * cp == q0 * p + t) by (nonlinear_arith)
        requires
            x == n * q0 + r0,
            e == cp * n - p,
            t == q0 * e + r0 * cp,
    ;
    assert(0 <= r0 < n);
    assert(0 <= q0 && q0 * n <= x) by (nonlinear_arith)
        requires
            x == n * q0 + r0,
            0 <= r0 < n,
            0 <= x,
            n > 0,
    ;
    assert(e == match d {
        Divisor::_3 => -1int,
        Divisor::_7 => -2int,
        Divisor::_11 => -3int,
        Divisor::_5 => 2int,
        Divisor::_13 => 4int,
        _ => 2int,
    });
    assert(q0 * n + r0 <= 0xffff_ffff_ffff_ffff);
    assert((n - 1) * cp == p + e - cp) by (nonlinear_arith)
        requires
            e == cp * n - p,
    ;
    if rounded_down(d) {
        if r0 == 0 {
            if x > 0 {
                assert(q0 >= 1) by (nonlinear_arith)
                    requires
                        x == n * q0 + r0,
                        r0 == 0,
                        x > 0,
                        n > 0,
                ;
                assert((-e) * q0 <= q0 * n) by (nonlinear_arith)
                    requires
                        0 < -e < n,
                        q0 >= 0,
                ;
                assert(-p <= t < 0) by (nonlinear_arith)
                    requires
                        t == q0 * e,
                        1 <= q0,
                        (-e) * q0 <= q0 * n,
                        q0 * n <= 0xffff_ffff_ffff_ffff,
                        e < 0,
                        p >= 0x4_0000_0000_0000_0000,
                ;
                assert(x * cp == (q0 - 1) * p + (t + p)) by (nonlinear_arith)
                    requires
                        x * cp == q0 * p + t,
                ;
                lemma_fundamental_div_mod_converse(x * cp, p, q0 - 1, t + p);
            } else {
                assert(q0 == 0) by (nonlinear_arith)
                    requires
                        x == n * q0 + r0,
                        r0 == 0,
                        x == 0,
                        n > 0,
                ;
                assert(x * cp == 0 * p + 0) by (nonlinear_arith)
                    requires
                        x == 0,
                ;
                lemma_fundamental_div_mod_converse(x * cp, p, 0, 0);
            }
        } else {
            assert((-e) * q0 <= q0 * n) by (nonlinear_arith)
                requires
                    0 < -e < n,
                    q0 >= 0,
            ;
            assert(r0 * cp >= cp && r0 * cp <= (n - 1) * cp) by (nonlinear_arith)
                requires
                    1 <= r0 < n,
                    cp > 0,
            ;
            let m = (-e) * q0;
            assert(q0 * e == -m) by (nonlinear_arith)
                requires
                    m == (-e) * q0,
            ;
            assert(0 <= m) by (nonlinear_arith)
                requires
                    m == (-e) * q0,
                    -e > 0,
                    q0 >= 0,
            ;
            assert(0 <= t < p);
            lemma_fundamental_div_mod_converse(x * cp, p, q0, t);
        }
    } else {
        assert(e * q0 <= 4 * q0 && 5 * q0 <= q0 * n) by (nonlinear_arith)
            requires
                0 < e <= 4,
                n >= 5,
                q0 >= 0,
        ;
        assert(r0 * cp >= 0 && r0 * cp <= (n - 1) * cp) by (nonlinear_arith)
            requires
                0 <= r0 < n,
                cp > 0,
        ;
        assert(0 <= t < p) by (nonlinear_arith)
            requires
                t == q0 * e + r0 * cp,
                r0 * cp >= 0,
                r0 * cp <= (n - 1) * cp,
                (n - 1) * cp == p + e - cp,
                e * q0 <= 4 * q0,
                5 * q0 <= q0 * n,
                q0 * n <= 0xffff_ffff_ffff_ffff,
                0 < e <= 4,
                q0 >= 0,
                cp >= 0x1_0000_0000_0000_0000,
        ;
        lemma_fundamental_div_mod_converse(x * cp, p, q0, t);
    }
}

} // verus!
