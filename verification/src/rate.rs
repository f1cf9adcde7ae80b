//! Speeds as exact fractions, and sums that stop at the largest number.

use vstd::prelude::*;

verus! {

/// A sum of tokens, bytes or milliseconds; beyond the largest number it stays there.
pub open spec fn clip(x: int) -> u64 {
    if x > u64::MAX {
        u64::MAX
    } else if x < 0 {
        0
    } else {
        x as u64
    }
}

/// What fits stays as it is; what is too large becomes the largest, what is negative zero.
pub proof fn law_clip_keeps_what_fits(x: int)
    ensures
        0 <= x <= 0xffff_ffff_ffff_ffff ==> clip(x) == x,
        x > 0xffff_ffff_ffff_ffff ==> clip(x) == 0xffff_ffff_ffff_ffff,
        x < 0 ==> clip(x) == 0,
{
}

/// A speed is faster than another where its tokens over its time are more.
pub proof fn law_faster_goes_by_the_quotient(a: Rate, b: Rate)
    requires
        a.ms > 0,
        b.ms > 0,
    ensures
        a.faster(b) <==> a.tokens * b.ms > b.tokens * a.ms,
        a.tokens > 0 ==> a.faster(Rate::none()),
        a.positive() <==> a.tokens > 0,
{
}

/// A signed number moved into the range of the type.
pub open spec fn clip_signed(x: int) -> i64 {
    if x > i64::MAX {
        i64::MAX
    } else if x < i64::MIN {
        i64::MIN
    } else {
        x as i64
    }
}

/// Moves a signed number into the range of the type.
pub fn clipped_signed(x: i128) -> (r: i64)
    ensures
        r == clip_signed(x as int),
{
    if x > 0x7fff_ffff_ffff_ffff {
        0x7fff_ffff_ffff_ffff
    } else if x < -0x8000_0000_0000_0000 {
        -0x8000_0000_0000_0000
    } else {
        x as i64
    }
}

/// Moves a size into the range of the type.
pub fn clipped(x: u128) -> (r: u64)
    ensures
        r == clip(x as int),
{
    if x > 0xffff_ffff_ffff_ffff {
        0xffff_ffff_ffff_ffff
    } else {
        x as u64
    }
}

/// A product over a divisor, rounded down, and the remainder, where the product itself need
/// not fit.
fn scaled(a: u128, n: u128, d: u128) -> (r: (u128, u128))
    requires
        n <= d,
        0 < d <= 0x1000_0000_0000_0000_0000_0000_0000_0000,
    ensures
        a * n == r.0 * d + r.1,
        r.1 < d,
        r.0 <= a,
    decreases a,
{
    if a == 0 {
        assert(0 * n == 0 && 0 * d == 0) by (nonlinear_arith);
        return (0, 0);
    }
    let (q, m) = scaled(a / 2, n, d);
    let bit: u128 = a % 2;
    let t: u128 = 2 * m + (if bit == 1 {
        n
    } else {
        0
    });
    proof {
        assert(a * n == 2 * (q * d + m) + bit * n) by (nonlinear_arith)
            requires
                a == 2 * (a / 2) + bit,
                (a / 2) * n == q * d + m,
        ;
        assert(2 * (q * d) == (2 * q) * d) by (nonlinear_arith);
        assert(bit * n == (if bit == 1 { n as int } else { 0 })) by (nonlinear_arith)
            requires
                bit == 0 || bit == 1,
        ;
        assert((2 * q + 1) * d == (2 * q) * d + d && (2 * q + 2) * d == (2 * q) * d + 2 * d)
            by (nonlinear_arith);
        assert(a * n <= a * d) by (nonlinear_arith)
            requires
                n <= d,
                a >= 0,
        ;
    }
    if t >= 2 * d {
        proof {
            assert(2 * q + 2 <= a) by (nonlinear_arith)
                requires
                    (2 * q + 2) * d <= a * d,
                    d > 0,
            ;
        }
        (2 * q + 2, t - 2 * d)
    } else if t >= d {
        proof {
            assert(2 * q + 1 <= a) by (nonlinear_arith)
                requires
                    (2 * q + 1) * d <= a * d,
                    d > 0,
            ;
        }
        (2 * q + 1, t - d)
    } else {
        (2 * q, t)
    }
}

/// A product over a divisor, rounded down, where the product itself need not fit.
pub fn mul_div(a: u128, n: u128, d: u128) -> (r: u128)
    requires
        n <= d,
        0 < d <= 0x1000_0000_0000_0000_0000_0000_0000_0000,
    ensures
        r == (a * n) / (d as int),
        r <= a,
{
    let (q, m) = scaled(a, n, d);
    proof {
        assert((a * n) / (d as int) == q) by (nonlinear_arith)
            requires
                a * n == q * d + m,
                0 <= m < d,
        ;
    }
    q
}

/// A number of tokens over a time. Over no time the speed is zero.
#[derive(Clone, Copy, Debug, PartialEq, Eq, Structural)]
pub struct Rate {
    /// What was produced.
    pub tokens: u64,
    /// In how many milliseconds.
    pub ms: u64,
}

impl Rate {
    /// No speed.
    pub open spec fn none() -> Rate {
        Rate { tokens: 0, ms: 0 }
    }

    /// `self` is strictly faster than `other`.
    pub open spec fn faster(self, other: Rate) -> bool {
        if self.ms == 0 {
            false
        } else if other.ms == 0 {
            self.tokens > 0
        } else {
            self.tokens * other.ms > other.tokens * self.ms
        }
    }

    /// The speed is not zero.
    pub open spec fn positive(self) -> bool {
        self.ms > 0 && self.tokens > 0
    }

    /// No speed.
    pub fn zero() -> (r: Rate)
        ensures
            r == Self::none(),
    {
        Rate { tokens: 0, ms: 0 }
    }

    /// Whether the speed is not zero.
    pub fn is_positive(&self) -> (r: bool)
        ensures
            r == self.positive(),
    {
        self.ms > 0 && self.tokens > 0
    }

    /// Whether `self` is strictly faster than `other`.
    pub fn is_faster(&self, other: &Rate) -> (r: bool)
        ensures
            r == self.faster(*other),
    {
        if self.ms == 0 {
            false
        } else if other.ms == 0 {
            self.tokens > 0
        } else {
            proof {
                assert(self.tokens * other.ms <= 0xffff_ffff_ffff_ffff * 0xffff_ffff_ffff_ffff)
                    by (nonlinear_arith)
                    requires
                        0 <= self.tokens <= 0xffff_ffff_ffff_ffff,
                        0 <= other.ms <= 0xffff_ffff_ffff_ffff,
                ;
                assert(other.tokens * self.ms <= 0xffff_ffff_ffff_ffff * 0xffff_ffff_ffff_ffff)
                    by (nonlinear_arith)
                    requires
                        0 <= other.tokens <= 0xffff_ffff_ffff_ffff,
                        0 <= self.ms <= 0xffff_ffff_ffff_ffff,
                ;
            }
            self.tokens as u128 * other.ms as u128 > other.tokens as u128 * self.ms as u128
        }
    }
}

/// Being faster is a strict weak order: no speed is faster than itself, and both being
/// faster and not being faster carry over.
pub proof fn law_faster_is_an_order(a: Rate, b: Rate, c: Rate)
    ensures
        !a.faster(a),
        a.faster(b) ==> !b.faster(a),
        a.faster(b) && b.faster(c) ==> a.faster(c),
        !a.faster(b) && !b.faster(c) ==> !a.faster(c),
{
    if a.faster(b) && b.ms != 0 {
        assert(!b.faster(a)) by (nonlinear_arith)
            requires
                a.tokens * b.ms > b.tokens * a.ms,
                b.ms != 0,
                a.ms != 0,
        ;
    }
    if a.faster(b) && b.faster(c) {
        if c.ms == 0 {
            assert(a.tokens > 0) by (nonlinear_arith)
                requires
                    a.tokens * b.ms > b.tokens * a.ms,
                    b.tokens * a.ms >= 0,
                    a.tokens >= 0,
            ;
        } else {
            assert(a.tokens * c.ms > c.tokens * a.ms) by (nonlinear_arith)
                requires
                    a.tokens * b.ms > b.tokens * a.ms,
                    b.tokens * c.ms > c.tokens * b.ms,
                    a.ms > 0,
                    b.ms > 0,
                    c.ms > 0,
                    a.tokens >= 0,
                    b.tokens >= 0,
                    c.tokens >= 0,
            ;
        }
    }
    if !a.faster(b) && !b.faster(c) && a.ms != 0 {
        if b.ms == 0 {
            assert(a.tokens == 0);
            if c.ms != 0 {
                assert(!(a.tokens * c.ms > c.tokens * a.ms)) by (nonlinear_arith)
                    requires
                        a.tokens == 0,
                        c.tokens >= 0,
                        a.ms >= 0,
                ;
            }
        } else if c.ms == 0 {
            assert(b.tokens == 0);
            assert(a.tokens == 0) by (nonlinear_arith)
                requires
                    !(a.tokens * b.ms > b.tokens * a.ms),
                    b.tokens == 0,
                    b.ms > 0,
                    a.tokens >= 0,
            ;
        } else {
            assert(!(a.tokens * c.ms > c.tokens * a.ms)) by (nonlinear_arith)
                requires
                    !(a.tokens * b.ms > b.tokens * a.ms),
                    !(b.tokens * c.ms > c.tokens * b.ms),
                    a.ms > 0,
                    b.ms > 0,
                    c.ms > 0,
                    a.tokens >= 0,
                    b.tokens >= 0,
                    c.tokens >= 0,
            ;
        }
    }
}

} // verus!
