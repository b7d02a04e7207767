//! Double-precision numbers, carried as their bit patterns.
//!
//! The library holds coordinates, distances and telemetry values without doing
//! arithmetic on them. It tells whether one is a number and which of two is
//! smaller, and that can be read off the bits.

use vstd::arithmetic::power2::{
    lemma2_to64, lemma2_to64_rest, lemma_pow2_pos, lemma_pow2_strictly_increases, lemma_pow2_unfold, pow2,
};
use vstd::bits::{lemma_u64_shl_is_mul, lemma_u64_shr_is_div};
use vstd::prelude::*;

verus! {

/// A number in IEEE 754 binary64 form. Two values are equal as values of this
/// type where their bits are.
#[derive(Debug, Clone, Copy, PartialEq, Eq, Hash, Structural)]
pub struct Double {
    pub bits: u64,
}

/// The bits without the sign.
pub open spec fn magnitude(d: Double) -> int {
    if d.bits < 0x8000_0000_0000_0000 {
        d.bits as int
    } else {
        d.bits - 0x8000_0000_0000_0000
    }
}

impl Double {
    /// The bits stand for no number.
    pub open spec fn nan(self) -> bool {
        magnitude(self) > 0x7ff0_0000_0000_0000
    }

    /// A place on the line of integers that lies as the number does among the
    /// numbers; zero and negative zero share one.
    pub open spec fn rank(self) -> int {
        if self.bits < 0x8000_0000_0000_0000 {
            magnitude(self)
        } else {
            -magnitude(self)
        }
    }

    /// Both are numbers, and the first is smaller.
    pub open spec fn less(self, other: Double) -> bool {
        !self.nan() && !other.nan() && self.rank() < other.rank()
    }

    /// Both are numbers, and they are equal.
    pub open spec fn same(self, other: Double) -> bool {
        !self.nan() && !other.nan() && self.rank() == other.rank()
    }

    pub fn from_bits(bits: u64) -> (d: Double)
        ensures
            d.bits == bits,
    {
        Double { bits }
    }

    pub open spec fn zero_spec() -> Double {
        Double { bits: 0 }
    }

    pub open spec fn one_spec() -> Double {
        Double { bits: 0x3ff0_0000_0000_0000 }
    }

    /// The pattern of the quiet not-a-number.
    pub open spec fn nan_spec() -> Double {
        Double { bits: 0x7ff8_0000_0000_0000 }
    }

    pub fn zero() -> (d: Double)
        ensures
            d == Double::zero_spec(),
    {
        Double { bits: 0 }
    }

    pub fn one() -> (d: Double)
        ensures
            d == Double::one_spec(),
    {
        Double { bits: 0x3ff0_0000_0000_0000 }
    }

    pub fn not_a_number() -> (d: Double)
        ensures
            d == Double::nan_spec(),
            d.nan(),
    {
        Double { bits: 0x7ff8_0000_0000_0000 }
    }

    pub fn is_nan(self) -> (b: bool)
        ensures
            b == self.nan(),
    {
        if self.bits < 0x8000_0000_0000_0000 {
            self.bits > 0x7ff0_0000_0000_0000
        } else {
            self.bits - 0x8000_0000_0000_0000 > 0x7ff0_0000_0000_0000
        }
    }

    /// Zero, of either sign.
    pub fn is_zero(self) -> (b: bool)
        ensures
            b == self.same(Double::zero_spec()),
    {
        self.bits == 0 || self.bits == 0x8000_0000_0000_0000
    }

    /// The place of the bits among the numbers.
    pub fn rank_value(self) -> (r: i64)
        ensures
            r == self.rank(),
    {
        if self.bits < 0x8000_0000_0000_0000 {
            self.bits as i64
        } else {
            0 - ((self.bits - 0x8000_0000_0000_0000) as i64)
        }
    }

    /// Is this a smaller number than the other?
    pub fn lt(self, other: Double) -> (b: bool)
        ensures
            b == self.less(other),
    {
        !self.is_nan() && !other.is_nan() && self.rank_value() < other.rank_value()
    }

    /// Is this the same number as the other?
    pub fn eq_value(self, other: Double) -> (b: bool)
        ensures
            b == self.same(other),
    {
        !self.is_nan() && !other.is_nan() && self.rank_value() == other.rank_value()
    }

    /// The exponent field.
    pub open spec fn exponent(self) -> int {
        magnitude(self) / 0x10_0000_0000_0000
    }

    /// The significand of a number that is not below the normal range.
    pub open spec fn significand(self) -> int {
        0x10_0000_0000_0000 + magnitude(self) % 0x10_0000_0000_0000
    }

    /// The whole part of the number without its sign, where it is below two to
    /// the sixty-third.
    pub open spec fn whole_magnitude(self) -> int {
        if self.exponent() < 1023 {
            0
        } else if self.exponent() < 1075 {
            self.significand() / pow2((1075 - self.exponent()) as nat) as int
        } else {
            self.significand() * pow2((self.exponent() - 1075) as nat)
        }
    }

    /// The number rounded toward zero: zero for what is no number, the ends of
    /// the range for what lies outside it.
    pub open spec fn whole(self) -> int {
        let negative = self.bits >= 0x8000_0000_0000_0000;
        if self.nan() {
            0
        } else if self.exponent() >= 1086 {
            if negative {
                i64::MIN as int
            } else {
                i64::MAX as int
            }
        } else if negative {
            -self.whole_magnitude()
        } else {
            self.whole_magnitude()
        }
    }

    /// The number rounded toward zero, held to the range of the result.
    pub fn to_whole(self) -> (n: i64)
        ensures
            n == self.whole(),
    {
        if self.is_nan() {
            return 0;
        }
        let negative = self.bits >= 0x8000_0000_0000_0000;
        let m: u64 = if negative {
            self.bits - 0x8000_0000_0000_0000
        } else {
            self.bits
        };
        let e: u64 = m / 0x10_0000_0000_0000;
        let sig: u64 = 0x10_0000_0000_0000 + m % 0x10_0000_0000_0000;
        if e >= 1086 {
            return if negative {
                i64::MIN
            } else {
                i64::MAX
            };
        }
        let w: u64 = if e < 1023 {
            0
        } else if e < 1075 {
            proof {
                lemma_u64_shr_is_div(sig, (1075 - e) as u64);
                lemma_pow2_pos((1075 - e) as nat);
                assert(sig as int / pow2((1075 - e) as nat) as int <= sig) by (nonlinear_arith)
                    requires
                        pow2((1075 - e) as nat) > 0,
                ;
            }
            sig >> (1075 - e)
        } else {
            proof {
                lemma2_to64();
                lemma_pow2_bound((e - 1075) as nat);
                assert(sig * pow2((e - 1075) as nat) <= 0x1f_ffff_ffff_ffff * 1024)
                    by (nonlinear_arith)
                    requires
                        0 <= sig <= 0x1f_ffff_ffff_ffff,
                        0 <= pow2((e - 1075) as nat) <= 1024,
                ;
                lemma_u64_shl_is_mul(sig, (e - 1075) as u64);
            }
            sig << (e - 1075)
        };
        if negative {
            0 - (w as i64)
        } else {
            w as i64
        }
    }
}

proof fn lemma_pow2_bound(k: nat)
    requires
        k <= 10,
    ensures
        1 <= pow2(k) <= 1024,
{
    lemma2_to64();
    lemma_pow2_pos(k);
    if k < 10 {
        lemma_pow2_strictly_increases(k, 10);
    }
}

/// A whole number shifted left until its leading bit is that of a significand,
/// with the exponent that makes up for it.
pub open spec fn normalised(m: int, e: int) -> (int, int)
    decreases 0x20_0000_0000_0000 - m,
{
    if m <= 0 || m >= 0x10_0000_0000_0000 {
        (m, e)
    } else {
        normalised(2 * m, e - 1)
    }
}

/// The bits of a whole number that is not negative, below two to the
/// fifty-third.
pub open spec fn whole_bits(n: int) -> int {
    if n == 0 {
        0
    } else {
        let (m, e) = normalised(n, 1075);
        e * 0x10_0000_0000_0000 + (m - 0x10_0000_0000_0000)
    }
}

/// A whole number as a double.
pub open spec fn whole_double(n: int) -> Double {
    if n >= 0 {
        Double { bits: whole_bits(n) as u64 }
    } else {
        Double { bits: (0x8000_0000_0000_0000 + whole_bits(-n)) as u64 }
    }
}

/// What shifting keeps: the number is the significand over a power of two.
proof fn lemma_normalised(n: int, m: int, e: int)
    requires
        0 < n < 0x20_0000_0000_0000,
        1023 <= e <= 1075,
        m == n * pow2((1075 - e) as nat),
        0 < m < 0x20_0000_0000_0000,
    ensures
        ({
            let (m1, e1) = normalised(m, e);
            &&& 0x10_0000_0000_0000 <= m1 < 0x20_0000_0000_0000
            &&& 1023 <= e1 <= 1075
            &&& m1 == n * pow2((1075 - e1) as nat)
        }),
    decreases 0x20_0000_0000_0000 - m,
{
    if m < 0x10_0000_0000_0000 {
        let k = (1075 - e) as nat;
        lemma2_to64_rest();
        if k >= 52 {
            assert(k == 52);
            assert(m >= 0x10_0000_0000_0000) by (nonlinear_arith)
                requires
                    m == n * pow2(k),
                    n >= 1,
                    pow2(k) == 0x10_0000_0000_0000,
            ;
        }
        lemma_pow2_unfold((k + 1) as nat);
        assert(2 * m == n * pow2((k + 1) as nat)) by (nonlinear_arith)
            requires
                m == n * pow2(k),
                pow2((k + 1) as nat) == 2 * pow2(k),
        ;
        lemma_normalised(n, 2 * m, e - 1);
    }
}

/// A whole number below two to the fifty-third comes back out of its double.
pub proof fn law_whole_round_trip(n: int)
    requires
        -0x20_0000_0000_0000 < n < 0x20_0000_0000_0000,
    ensures
        whole_double(n).whole() == n,
        !whole_double(n).nan(),
{
    let a = if n >= 0 {
        n
    } else {
        -n
    };
    if a > 0 {
        lemma2_to64();
        assert(a * pow2(0) == a);
        lemma_normalised(a, a, 1075);
        let (m, e) = normalised(a, 1075);
        let bits = whole_bits(a);
        assert(bits / 0x10_0000_0000_0000 == e && bits % 0x10_0000_0000_0000 == m
            - 0x10_0000_0000_0000) by (nonlinear_arith)
            requires
                bits == e * 0x10_0000_0000_0000 + (m - 0x10_0000_0000_0000),
                0x10_0000_0000_0000 <= m < 0x20_0000_0000_0000,
        ;
        let p = pow2((1075 - e) as nat);
        lemma_pow2_pos((1075 - e) as nat);
        assert(m / p as int == a) by (nonlinear_arith)
            requires
                m == a * p,
                p > 0,
        ;
        if e == 1075 {
            assert(p == 1);
        }
    }
}

impl Double {
    /// A whole number as a double.
    pub fn from_whole(n: i64) -> (d: Double)
        requires
            -0x20_0000_0000_0000 < n < 0x20_0000_0000_0000,
        ensures
            d == whole_double(n as int),
    {
        if n == 0 {
            return Double { bits: 0 };
        }
        let a: u64 = if n >= 0 {
            n as u64
        } else {
            (0 - n) as u64
        };
        let mut m: u64 = a;
        let mut e: u64 = 1075;
        proof {
            lemma2_to64();
            assert(a * pow2(0) == a);
            lemma_normalised(a as int, a as int, 1075);
        }
        while m < 0x10_0000_0000_0000
            invariant
                0 < m < 0x20_0000_0000_0000,
                0 < a < 0x20_0000_0000_0000,
                1023 <= e <= 1075,
                m == a * pow2((1075 - e) as nat),
                normalised(a as int, 1075) == normalised(m as int, e as int),
            decreases 0x20_0000_0000_0000 - m,
        {
            proof {
                lemma_normalised(a as int, m as int, e as int);
                let (m1, e1) = normalised(m as int, e as int);
                lemma_exponent_falls(2 * m as int, e - 1);
                lemma_pow2_unfold((1076 - e) as nat);
                assert(2 * m == a * pow2((1076 - e) as nat)) by (nonlinear_arith)
                    requires
                        m == a * pow2((1075 - e) as nat),
                        pow2((1076 - e) as nat) == 2 * pow2((1075 - e) as nat),
                ;
            }
            m = 2 * m;
            e = e - 1;
        }
        let bits: u64 = e * 0x10_0000_0000_0000 + (m - 0x10_0000_0000_0000);
        if n >= 0 {
            Double { bits }
        } else {
            Double { bits: 0x8000_0000_0000_0000 + bits }
        }
    }
}

proof fn lemma_exponent_falls(m: int, e: int)
    ensures
        normalised(m, e).1 <= e,
    decreases 0x20_0000_0000_0000 - m,
{
    if 0 < m < 0x10_0000_0000_0000 {
        lemma_exponent_falls(2 * m, e - 1);
    }
}

/// Between one and two to the fifty-second a number is rounded toward zero: its whole
/// part times the weight of its lowest bit is not above it, and one more is. Below one
/// it comes to zero, and from two to the sixty-third on to the end of the range. A sign
/// carries over.
pub proof fn law_numbers_are_rounded_toward_zero(d: Double)
    requires
        !d.nan(),
        d.bits < 0x8000_0000_0000_0000,
    ensures
        ({
            let e = d.bits as int / 0x10_0000_0000_0000;
            let m = 0x10_0000_0000_0000 + d.bits as int % 0x10_0000_0000_0000;
            &&& e < 1023 ==> d.whole() == 0
            &&& 1023 <= e < 1075 ==> d.whole() * pow2((1075 - e) as nat) <= m < (d.whole() + 1)
                * pow2((1075 - e) as nat)
            &&& 1075 <= e < 1086 ==> d.whole() == m * pow2((e - 1075) as nat)
            &&& e >= 1086 ==> d.whole() == i64::MAX
            &&& e < 1086 ==> (Double {
                bits: (d.bits + 0x8000_0000_0000_0000) as u64,
            }).whole() == -d.whole()
            &&& e >= 1086 ==> (Double {
                bits: (d.bits + 0x8000_0000_0000_0000) as u64,
            }).whole() == i64::MIN
        }),
{
    let e = d.bits as int / 0x10_0000_0000_0000;
    let m = 0x10_0000_0000_0000 + d.bits as int % 0x10_0000_0000_0000;
    let n = Double { bits: (d.bits + 0x8000_0000_0000_0000) as u64 };
    assert(magnitude(d) == d.bits && magnitude(n) == d.bits);
    assert(d.exponent() == e && n.exponent() == e);
    assert(d.significand() == m && n.significand() == m);
    if 1023 <= e < 1075 {
        let p = pow2((1075 - e) as nat) as int;
        lemma_pow2_pos((1075 - e) as nat);
        vstd::arithmetic::div_mod::lemma_fundamental_div_mod(m, p);
        vstd::arithmetic::div_mod::lemma_mod_bound(m, p);
        let q = m / p;
        assert(p * q == q * p) by (nonlinear_arith);
        assert((q + 1) * p == q * p + p) by (nonlinear_arith);
    }
}

} // verus!
