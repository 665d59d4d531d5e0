//! Latencies in milliseconds, kept as the bits of an IEEE 754 binary64 number.
//!
//! The bits are what travels in and out of the bridge. Comparing and rounding
//! are done on them with integers, and are stated over the number that they
//! encode.

use vstd::prelude::*;

verus! {

/// A number of milliseconds, as the bits of a binary64 number.
///
/// `==` in executable code compares the numbers: the two zeros are equal, and what
/// is no number equals nothing. In contracts `==` compares the bits.
#[derive(Debug, Clone, Copy)]
pub struct Millis {
    pub bits: u64,
}

impl PartialEq for Millis {
    fn eq(&self, other: &Millis) -> (r: bool) {
        let a: u64 = self.bits % SIGN_BIT;
        let b: u64 = other.bits % SIGN_BIT;
        proof {
            lemma_units_follow_magnitude(a as int, b as int);
            lemma_units_follow_magnitude(b as int, a as int);
            lemma_units_follow_magnitude(0, a as int);
            lemma_units_follow_magnitude(0, b as int);
        }
        !self.is_nan() && !other.is_nan() && (self.bits == other.bits || (a == 0 && b == 0))
    }
}

impl vstd::std_specs::cmp::PartialEqSpecImpl for Millis {
    open spec fn obeys_eq_spec() -> bool {
        true
    }

    open spec fn eq_spec(&self, other: &Millis) -> bool {
        self.same_number(*other)
    }
}

/// Magnitude bits of infinity; larger ones encode no number.
pub const INFINITY_BITS: u64 = 0x7ff0_0000_0000_0000;

/// The sign bit.
pub const SIGN_BIT: u64 = 0x8000_0000_0000_0000;

/// The lowest bit of the exponent.
pub const EXPONENT_UNIT: u64 = 0x10_0000_0000_0000;

/// The absolute value that the magnitude bits `mag` encode, in units of 2^-1074,
/// the smallest positive number of the format.
pub open spec fn abs_units(mag: int) -> nat {
    let exponent = mag / EXPONENT_UNIT as int;
    let fraction = mag % EXPONENT_UNIT as int;
    if exponent == 0 {
        fraction as nat
    } else {
        ((EXPONENT_UNIT + fraction) as nat) * vstd::arithmetic::power2::pow2((exponent - 1) as nat)
    }
}

/// One millisecond in units of 2^-1074.
pub open spec fn one() -> nat {
    vstd::arithmetic::power2::pow2(1074)
}

/// 2^53: whole numbers below it are binary64 numbers.
pub const EXACT_LIMIT: u64 = 0x20_0000_0000_0000;

/// How far the binary64 numbers around `n` lie apart, where `n` is a whole number.
/// Below the limit every whole number counts.
pub open spec fn step_of(n: nat) -> nat
    decreases n,
{
    if n < EXACT_LIMIT {
        1
    } else {
        2 * step_of(n / 2)
    }
}

/// The multiple of `step` that is nearest to `n`; halves go to the even one.
pub open spec fn nearest_multiple(n: nat, step: nat) -> nat {
    let down = n / step;
    if 2 * (n % step) > step || (2 * (n % step) == step && down % 2 == 1) {
        (down + 1) * step
    } else {
        down * step
    }
}

/// The binary64 number that is nearest to the whole number `n`; halves go to the
/// even one.
pub open spec fn nearest_number(n: int) -> int {
    if n < 0 {
        -(nearest_multiple((-n) as nat, step_of((-n) as nat)) as int)
    } else {
        nearest_multiple(n as nat, step_of(n as nat)) as int
    }
}

impl Millis {
    /// Whether `self` is what the whole number `n` becomes as a binary64 number.
    pub open spec fn stands_for(self, n: int) -> bool {
        &&& !self.is_nan_spec()
        &&& self.units() == nearest_number(n) * one()
        &&& n == 0 ==> self.bits == 0
    }

    /// What the whole number `n` becomes as a binary64 number.
    pub open spec fn of_integer(n: int) -> Millis {
        choose|m: Millis| m.stands_for(n)
    }

    /// The bits without the sign.
    pub open spec fn magnitude(self) -> int {
        self.bits as int % SIGN_BIT as int
    }

    /// Whether the sign bit is set.
    pub open spec fn is_negative(self) -> bool {
        self.bits >= SIGN_BIT
    }

    /// Whether the bits encode no number.
    pub open spec fn is_nan_spec(self) -> bool {
        self.magnitude() > INFINITY_BITS
    }

    /// The encoded number in units of 2^-1074. Infinity is larger than every
    /// finite number.
    pub open spec fn units(self) -> int {
        if self.is_negative() {
            -(abs_units(self.magnitude()) as int)
        } else {
            abs_units(self.magnitude()) as int
        }
    }

    /// Whether the two are the same number.
    pub open spec fn same_number(self, other: Millis) -> bool {
        !self.is_nan_spec() && !other.is_nan_spec() && self.units() == other.units()
    }

    /// The same number with the positive one of the two zeros.
    pub open spec fn unsigned_zero_spec(self) -> Millis {
        if self.bits == SIGN_BIT {
            Millis { bits: 0 }
        } else {
            self
        }
    }

    /// Whether `self` is the larger of two numbers.
    pub open spec fn exceeds_spec(self, other: Millis) -> bool {
        !self.is_nan_spec() && !other.is_nan_spec() && self.units() > other.units()
    }

    /// The nearest whole number of milliseconds; halves go away from zero.
    pub open spec fn nearest(self) -> int {
        let abs = (2 * abs_units(self.magnitude()) + one()) / (2 * one());
        if self.is_negative() {
            -(abs as int)
        } else {
            abs as int
        }
    }

    /// `nearest`, held to the range of `i64`; 0 where there is no number.
    pub open spec fn rounded_spec(self) -> int {
        if self.is_nan_spec() {
            0
        } else if self.nearest() > i64::MAX {
            i64::MAX as int
        } else if self.nearest() < i64::MIN {
            i64::MIN as int
        } else {
            self.nearest()
        }
    }

    /// The number of milliseconds with these bits.
    pub fn from_bits(bits: u64) -> (m: Self)
        ensures
            m.bits == bits,
    {
        Millis { bits }
    }

    /// The whole number `n` as a binary64 number: the nearest one, and of two that
    /// are equally near the even one.
    pub fn from_integer(n: i64) -> (m: Self)
        ensures
            m.stands_for(n as int),
            m == Millis::of_integer(n as int),
    {
        if n == 0 {
            let m: Millis = Millis { bits: 0 };
            proof {
                assert(nearest_number(0) == 0);
                lemma_integer_is_one_number(m, 0);
            }
            return m;
        }
        let size: u64 = if n < 0 {
            (-(n as i128)) as u64
        } else {
            n as u64
        };
        let mag: u64 = whole_bits(size);
        let m: Millis = if n < 0 {
            Millis { bits: SIGN_BIT + mag }
        } else {
            Millis { bits: mag }
        };
        proof {
            lemma_units_follow_magnitude(0, mag as int);
            assert(-(nearest_multiple(size as nat, step_of(size as nat)) * one()) == (-(
            nearest_multiple(size as nat, step_of(size as nat)) as int)) * one())
                by (nonlinear_arith);
            lemma_integer_is_one_number(m, n as int);
        }
        m
    }

    /// The bits of the number.
    pub fn to_bits(self) -> (bits: u64)
        ensures
            bits == self.bits,
    {
        self.bits
    }

    /// Whether the bits encode no number.
    pub fn is_nan(self) -> (r: bool)
        ensures
            r == self.is_nan_spec(),
    {
        self.bits % SIGN_BIT > INFINITY_BITS
    }

    /// The same number with the positive one of the two zeros.
    pub fn unsigned_zero(self) -> (m: Self)
        ensures
            m == self.unsigned_zero_spec(),
            !self.is_nan_spec() ==> m.same_number(self),
    {
        proof {
            lemma_units_follow_magnitude(0, 0);
        }
        if self.bits == SIGN_BIT {
            Millis { bits: 0 }
        } else {
            self
        }
    }

    /// Whether `self > other` as numbers. Always false where one of them is none.
    pub fn exceeds(self, other: Millis) -> (r: bool)
        ensures
            r == self.exceeds_spec(other),
    {
        let a: u64 = self.bits % SIGN_BIT;
        let b: u64 = other.bits % SIGN_BIT;
        proof {
            lemma_units_follow_magnitude(a as int, b as int);
            lemma_units_follow_magnitude(b as int, a as int);
            lemma_units_follow_magnitude(0, a as int);
            lemma_units_follow_magnitude(0, b as int);
        }
        if self.is_nan() || other.is_nan() {
            false
        } else if self.bits < SIGN_BIT {
            if other.bits < SIGN_BIT {
                a > b
            } else {
                a > 0 || b > 0
            }
        } else {
            other.bits >= SIGN_BIT && a < b
        }
    }

    /// The nearest whole number of milliseconds; halves go away from zero.
    ///
    /// A number outside the range of `i64` gives the nearer end of the range.
    pub fn rounded(self) -> (r: i64)
        ensures
            r == self.rounded_spec(),
    {
        if self.is_nan() {
            return 0;
        }
        let mag: u64 = self.bits % SIGN_BIT;
        let negative: bool = self.bits >= SIGN_BIT;
        let exponent: u64 = mag / EXPONENT_UNIT;
        let fraction: u64 = mag % EXPONENT_UNIT;
        if exponent >= 1086 {
            proof {
                lemma_large(mag as int);
            }
            return if negative {
                i64::MIN
            } else {
                i64::MAX
            };
        }
        let whole: u64 = if exponent >= 1075 {
            proof {
                lemma_shift_up(mag as int);
                vstd::bits::lemma_u64_shl_is_mul(
                    (EXPONENT_UNIT + fraction) as u64,
                    (exponent - 1075) as u64,
                );
            }
            (EXPONENT_UNIT + fraction) << (exponent - 1075)
        } else if exponent > 1020 {
            let down: u64 = 1075 - exponent;
            proof {
                lemma_shift_down(mag as int);
                vstd::arithmetic::power2::lemma_pow2_strictly_increases(
                    (down - 1) as nat,
                    54,
                );
                vstd::arithmetic::power2::lemma2_to64_rest();
                vstd::bits::lemma_u64_shl_is_mul(1, (down - 1) as u64);
                vstd::bits::lemma_u64_shr_is_div(
                    (EXPONENT_UNIT + fraction + (1u64 << (down - 1) as u64)) as u64,
                    down,
                );
            }
            (EXPONENT_UNIT + fraction + (1u64 << (down - 1))) >> down
        } else {
            proof {
                lemma_small(mag as int);
            }
            0
        };
        if negative {
            -(whole as i64)
        } else {
            whole as i64
        }
    }
}

/// The magnitude bits of the binary64 number nearest to `n`, which is not 0.
fn whole_bits(n: u64) -> (mag: u64)
    requires
        0 < n <= SIGN_BIT,
    ensures
        0 < mag < INFINITY_BITS,
        abs_units(mag as int) == nearest_multiple(n as nat, step_of(n as nat)) * one(),
{
    proof {
        vstd::arithmetic::power2::lemma2_to64();
        vstd::arithmetic::power2::lemma2_to64_rest();
    }
    if n < EXACT_LIMIT {
        let mut m: u64 = n;
        let mut s: u64 = 0;
        while m < EXPONENT_UNIT
            invariant
                0 < n,
                s <= 52,
                0 < m < EXACT_LIMIT,
                m == n * vstd::arithmetic::power2::pow2(s as nat),
                vstd::arithmetic::power2::pow2(52) == EXPONENT_UNIT,
            decreases EXACT_LIMIT - m,
        {
            proof {
                let p = vstd::arithmetic::power2::pow2(s as nat);
                assert(n * p >= p) by (nonlinear_arith)
                    requires
                        n >= 1,
                        p >= 0,
                ;
                assert(s < 52);
                vstd::arithmetic::power2::lemma_pow2_unfold((s + 1) as nat);
                assert(n * (2 * p) == 2 * (n * p)) by (nonlinear_arith);
            }
            m = m * 2;
            s = s + 1;
        }
        proof {
            lemma_encoded(m as int, 1075 - s);
            vstd::arithmetic::power2::lemma_pow2_adds(s as nat, (1074 - s) as nat);
            let p = vstd::arithmetic::power2::pow2(s as nat);
            let q = vstd::arithmetic::power2::pow2((1074 - s) as nat);
            assert((n * p) * q == n * (p * q)) by (nonlinear_arith);
            assert(nearest_multiple(n as nat, 1) == n);
        }
        return (1075 - s) * EXPONENT_UNIT + (m - EXPONENT_UNIT);
    }
    let mut q: u64 = n;
    let mut step: u64 = 1;
    let mut k: u64 = 0;
    while q >= EXACT_LIMIT
        invariant
            n <= SIGN_BIT,
            q == n / step,
            0 < step,
            k <= 11,
            k > 0 ==> q >= EXPONENT_UNIT,
            q < EXACT_LIMIT ==> k > 0,
            step == vstd::arithmetic::power2::pow2(k as nat),
            step_of(n as nat) == step * step_of(q as nat),
            vstd::arithmetic::power2::pow2(11) == 0x800,
        decreases q,
    {
        proof {
            if k == 11 {
                assert(n / 0x800 < EXACT_LIMIT) by (nonlinear_arith)
                    requires
                        n <= 0x8000_0000_0000_0000,
                ;
            }
            let p = vstd::arithmetic::power2::pow2(k as nat);
            if k < 10 {
                vstd::arithmetic::power2::lemma_pow2_strictly_increases(k as nat, 10);
            }
            vstd::arithmetic::power2::lemma2_to64();
            vstd::arithmetic::power2::lemma_pow2_unfold((k + 1) as nat);
            vstd::arithmetic::div_mod::lemma_div_denominator(n as int, step as int, 2);
            let rest = step_of((q / 2) as nat);
            assert(step * (2 * rest) == (step * 2) * rest) by (nonlinear_arith);
        }
        q = q / 2;
        step = step * 2;
        k = k + 1;
    }
    let rest: u64 = n % step;
    let up: bool = 2 * rest > step || (2 * rest == step && q % 2 == 1);
    let m: u64 = if up {
        q + 1
    } else {
        q
    };
    proof {
        let one = one();
        let last = step_of(q as nat);
        assert(step * last == step) by (nonlinear_arith)
            requires
                last == 1,
        ;
        assert(nearest_multiple(n as nat, step as nat) == m * step);
        vstd::arithmetic::power2::lemma_pow2_adds(k as nat, 1074);
        assert((m * step) * one == m * (step * one)) by (nonlinear_arith);
        if m == EXACT_LIMIT {
            lemma_encoded(EXPONENT_UNIT as int, 1076 + k);
            let p = vstd::arithmetic::power2::pow2((k + 1074) as nat);
            vstd::arithmetic::power2::lemma_pow2_unfold((k + 1075) as nat);
            assert(0x10_0000_0000_0000 * (2 * p) == 0x20_0000_0000_0000 * p) by (nonlinear_arith);
        } else {
            lemma_encoded(m as int, 1075 + k);
        }
    }
    if m == EXACT_LIMIT {
        (1076 + k) * EXPONENT_UNIT
    } else {
        (1075 + k) * EXPONENT_UNIT + (m - EXPONENT_UNIT)
    }
}

/// The number that a significand of 53 bits and an exponent encode.
proof fn lemma_encoded(m: int, exponent: int)
    requires
        EXPONENT_UNIT <= m < EXACT_LIMIT,
        0 < exponent,
    ensures
        abs_units(exponent * EXPONENT_UNIT + (m - EXPONENT_UNIT)) == m
            * vstd::arithmetic::power2::pow2((exponent - 1) as nat),
{
    vstd::arithmetic::div_mod::lemma_fundamental_div_mod_converse(
        exponent * EXPONENT_UNIT + (m - EXPONENT_UNIT),
        EXPONENT_UNIT as int,
        exponent,
        m - EXPONENT_UNIT,
    );
}

/// Only one value stands for a whole number.
proof fn lemma_integer_is_one_number(m: Millis, n: int)
    requires
        m.stands_for(n),
        n == 0 || m.units() != 0,
    ensures
        m == Millis::of_integer(n),
{
    let o = Millis::of_integer(n);
    assert(o.stands_for(n));
    lemma_units_follow_magnitude(m.magnitude(), o.magnitude());
    lemma_units_follow_magnitude(o.magnitude(), m.magnitude());
}

/// The order of magnitude bits is that of the numbers that they encode.
pub proof fn lemma_units_follow_magnitude(a: int, b: int)
    requires
        0 <= a,
        0 <= b,
    ensures
        a < b <==> abs_units(a) < abs_units(b),
{
    if a < b {
        lemma_units_grow(a, b);
    } else if b < a {
        lemma_units_grow(b, a);
    }
}

/// Larger magnitude bits encode a larger number.
proof fn lemma_units_grow(a: int, b: int)
    requires
        0 <= a < b,
    ensures
        abs_units(a) < abs_units(b),
{
    broadcast use vstd::arithmetic::power2::lemma_pow2_pos;

    let unit = EXPONENT_UNIT as int;
    let ea = a / unit;
    let eb = b / unit;
    let fa = a % unit;
    let fb = b % unit;
    assert(ea <= eb);
    vstd::arithmetic::power2::lemma2_to64();
    if ea == eb {
        if ea > 0 {
            let p = vstd::arithmetic::power2::pow2((ea - 1) as nat);
            assert((unit + fa) * p < (unit + fb) * p) by (nonlinear_arith)
                requires
                    fa < fb,
                    p > 0,
            ;
        }
    } else if ea == 0 {
        let p = vstd::arithmetic::power2::pow2((eb - 1) as nat);
        assert((unit + fb) * p >= unit) by (nonlinear_arith)
            requires
                fb >= 0,
                unit > 0,
                p >= 1,
        ;
    } else {
        let p = vstd::arithmetic::power2::pow2((ea - 1) as nat);
        let q = vstd::arithmetic::power2::pow2((eb - 1) as nat);
        vstd::arithmetic::power2::lemma_pow2_unfold(ea as nat);
        if ea < eb - 1 {
            vstd::arithmetic::power2::lemma_pow2_strictly_increases(ea as nat, (eb - 1) as nat);
        }
        assert((unit + fa) * p < (unit + fb) * q) by (nonlinear_arith)
            requires
                0 <= fa < unit,
                fb >= 0,
                p > 0,
                q >= 2 * p,
        ;
    }
}

/// Numbers of 2^63 and more.
proof fn lemma_large(mag: int)
    requires
        mag / EXPONENT_UNIT as int >= 1086,
    ensures
        (2 * abs_units(mag) + one()) / (2 * one()) >= 0x8000_0000_0000_0000,
{
    let m = EXPONENT_UNIT + mag % EXPONENT_UNIT as int;
    let e = mag / EXPONENT_UNIT as int;
    let p = vstd::arithmetic::power2::pow2((e - 1) as nat);
    let high = vstd::arithmetic::power2::pow2(1085);
    vstd::arithmetic::power2::lemma_pow2_pos(1074);
    if e > 1086 {
        vstd::arithmetic::power2::lemma_pow2_strictly_increases(1085, (e - 1) as nat);
    }
    vstd::arithmetic::power2::lemma_pow2_adds(11, 1074);
    vstd::arithmetic::power2::lemma2_to64();
    let o = one() as int;
    assert(m * p >= 0x8000_0000_0000_0000 * o) by (nonlinear_arith)
        requires
            m >= 0x10_0000_0000_0000,
            p >= high,
            high == 0x800 * o,
            o > 0,
    ;
    assert((2 * (m * p) + o) / (2 * o) >= 0x8000_0000_0000_0000) by {
        vstd::arithmetic::div_mod::lemma_div_is_ordered(
            0x8000_0000_0000_0000 * (2 * o),
            2 * (m * p) + o,
            2 * o,
        );
        vstd::arithmetic::div_mod::lemma_div_by_multiple(0x8000_0000_0000_0000, 2 * o);
    }
}

/// Numbers without a fraction, under 2^63.
proof fn lemma_shift_up(mag: int)
    requires
        1075 <= mag / EXPONENT_UNIT as int <= 1085,
    ensures
        (2 * abs_units(mag) + one()) / (2 * one()) == (EXPONENT_UNIT + mag % EXPONENT_UNIT as int)
            * vstd::arithmetic::power2::pow2((mag / EXPONENT_UNIT as int - 1075) as nat),
        (EXPONENT_UNIT + mag % EXPONENT_UNIT as int) * vstd::arithmetic::power2::pow2(
            (mag / EXPONENT_UNIT as int - 1075) as nat,
        ) < 0x8000_0000_0000_0000,
{
    let m = EXPONENT_UNIT + mag % EXPONENT_UNIT as int;
    let up = (mag / EXPONENT_UNIT as int - 1075) as nat;
    let p = vstd::arithmetic::power2::pow2(up);
    let o = one() as int;
    vstd::arithmetic::power2::lemma_pow2_pos(1074);
    vstd::arithmetic::power2::lemma_pow2_adds(up, 1074);
    vstd::arithmetic::power2::lemma2_to64();
    if up < 10 {
        vstd::arithmetic::power2::lemma_pow2_strictly_increases(up, 10);
    }
    assert(m * p < 0x8000_0000_0000_0000) by (nonlinear_arith)
        requires
            0 <= m < 0x20_0000_0000_0000,
            0 <= p <= 0x400,
    ;
    assert(2 * (m * (p * o)) + o == (m * p) * (2 * o) + o) by (nonlinear_arith);
    vstd::arithmetic::div_mod::lemma_fundamental_div_mod_converse(
        2 * (m * (p * o)) + o,
        2 * o,
        m * p,
        o,
    );
}

/// Numbers with a fraction.
proof fn lemma_shift_down(mag: int)
    requires
        1 <= mag / EXPONENT_UNIT as int <= 1074,
    ensures
        (2 * abs_units(mag) + one()) / (2 * one()) == (EXPONENT_UNIT + mag % EXPONENT_UNIT as int
            + vstd::arithmetic::power2::pow2((1074 - mag / EXPONENT_UNIT as int) as nat))
            / vstd::arithmetic::power2::pow2((1075 - mag / EXPONENT_UNIT as int) as nat) as int,
{
    let m = EXPONENT_UNIT + mag % EXPONENT_UNIT as int;
    let e = mag / EXPONENT_UNIT as int;
    let down = (1075 - e) as nat;
    let p = vstd::arithmetic::power2::pow2((e - 1) as nat) as int;
    let d = vstd::arithmetic::power2::pow2(down) as int;
    let h = vstd::arithmetic::power2::pow2((down - 1) as nat) as int;
    vstd::arithmetic::power2::lemma_pow2_pos((e - 1) as nat);
    vstd::arithmetic::power2::lemma_pow2_pos((down - 1) as nat);
    vstd::arithmetic::power2::lemma_pow2_unfold(down);
    vstd::arithmetic::power2::lemma_pow2_adds((e - 1) as nat, down);
    assert(one() == p * d);
    assert(2 * (m * p) + p * d == (2 * p) * (m + h)) by (nonlinear_arith)
        requires
            d == 2 * h,
    ;
    assert(2 * (p * d) == (2 * p) * d) by (nonlinear_arith);
    vstd::arithmetic::div_mod::lemma_div_multiples_vanish_quotient(2 * p, m + h, d);
}

/// Numbers far below one half.
proof fn lemma_small(mag: int)
    requires
        0 <= mag / EXPONENT_UNIT as int <= 1020,
    ensures
        (2 * abs_units(mag) + one()) / (2 * one()) == 0,
{
    let e = mag / EXPONENT_UNIT as int;
    let m = EXPONENT_UNIT + mag % EXPONENT_UNIT as int;
    vstd::arithmetic::power2::lemma_pow2_pos(1074);
    vstd::arithmetic::power2::lemma2_to64_rest();
    if e == 0 {
        vstd::arithmetic::power2::lemma_pow2_strictly_increases(60, 1074);
        vstd::arithmetic::div_mod::lemma_basic_div(
            (2 * abs_units(mag) + one()) as int,
            2 * one() as int,
        );
    } else {
        lemma_shift_down(mag);
        let h = vstd::arithmetic::power2::pow2((1074 - e) as nat) as int;
        vstd::arithmetic::power2::lemma_pow2_unfold((1075 - e) as nat);
        if e < 1020 {
            vstd::arithmetic::power2::lemma_pow2_strictly_increases(54, (1074 - e) as nat);
        }
        vstd::arithmetic::div_mod::lemma_basic_div(m + h, 2 * h);
    }
}

/// The number that a sign, an exponent and a fraction encode. The largest exponent
/// stands for infinity, and encodes no number where the fraction is not 0.
pub proof fn bits_encode_their_number(m: Millis, negative: bool, exponent: int, fraction: int)
    requires
        0 <= exponent <= 2047,
        0 <= fraction < 0x10_0000_0000_0000,
        m.bits == (if negative {
            0x8000_0000_0000_0000int
        } else {
            0int
        }) + exponent * 0x10_0000_0000_0000 + fraction,
    ensures
        m.is_nan_spec() <==> exponent == 2047 && fraction > 0,
        ({
            let size = if exponent == 0 {
                fraction
            } else {
                (0x10_0000_0000_0000 + fraction) * vstd::arithmetic::power2::pow2(
                    (exponent - 1) as nat,
                )
            };
            m.units() == if negative {
                -size
            } else {
                size
            }
        }),
{
    assert(m.magnitude() == exponent * 0x10_0000_0000_0000 + fraction);
    vstd::arithmetic::div_mod::lemma_fundamental_div_mod_converse(
        m.magnitude(),
        0x10_0000_0000_0000,
        exponent,
        fraction,
    );
}

/// Two latencies that are numbers are the same number, or the one exceeds the other;
/// what is no number neither exceeds nor equals anything.
pub proof fn latencies_are_ordered_as_numbers(a: Millis, b: Millis)
    ensures
        a.magnitude() == a.bits as int % 0x8000_0000_0000_0000,
        a.is_nan_spec() <==> a.bits as int % 0x8000_0000_0000_0000 > 0x7ff0_0000_0000_0000,
        a.is_nan_spec() || b.is_nan_spec() ==> !a.exceeds_spec(b) && !a.same_number(b),
        !a.is_nan_spec() && !b.is_nan_spec() ==> {
            &&& a.exceeds_spec(b) <==> a.units() > b.units()
            &&& b.exceeds_spec(a) <==> a.units() < b.units()
            &&& a.same_number(b) <==> a.units() == b.units()
        },
{
}

/// Latencies are equal exactly where they are the same number.
pub proof fn latencies_are_equal_as_numbers(a: Millis, b: Millis)
    ensures
        vstd::std_specs::cmp::PartialEqSpec::eq_spec(&a, &b) <==> !a.is_nan_spec()
            && !b.is_nan_spec() && a.units() == b.units(),
{
}

/// Rounding gives a whole number of milliseconds at most one half away, and of two
/// equally near ones the one further from zero. A number beyond 64 bits gives the end
/// of the range, and what is no number gives 0.
pub proof fn rounding_gives_the_nearest_whole_number(m: Millis)
    ensures
        m.is_nan_spec() ==> m.rounded_spec() == 0,
        !m.is_nan_spec() ==> ({
            let r = m.rounded_spec();
            let one = vstd::arithmetic::power2::pow2(1074) as int;
            let off = 2 * (r * one) - 2 * m.units();
            &&& -0x8000_0000_0000_0000 <= r <= 0x7fff_ffff_ffff_ffff
            &&& r < 0x7fff_ffff_ffff_ffff ==> off >= -one
            &&& r > -0x8000_0000_0000_0000 ==> off <= one
            &&& -0x8000_0000_0000_0000 < r < 0x7fff_ffff_ffff_ffff ==> (off == one ==> m.units()
                > 0) && (off == -one ==> m.units() < 0)
        }),
{
    if !m.is_nan_spec() {
        let a = abs_units(m.magnitude()) as int;
        let o = one() as int;
        vstd::arithmetic::power2::lemma_pow2_pos(1074);
        let q = (2 * a + o) / (2 * o);
        vstd::arithmetic::div_mod::lemma_fundamental_div_mod(2 * a + o, 2 * o);
        vstd::arithmetic::div_mod::lemma_mod_bound(2 * a + o, 2 * o);
        let rest = (2 * a + o) % (2 * o);
        assert((2 * o) * q == 2 * (q * o)) by (nonlinear_arith);
        assert((q >= 1 ==> q * o >= o) && (q == 0 ==> q * o == 0) && (q <= -1 ==> q * o <= -o))
            by (nonlinear_arith)
            requires
                o > 0,
        ;
        let r = m.rounded_spec();
        if m.nearest() > i64::MAX {
            assert(q * o >= r * o) by (nonlinear_arith)
                requires
                    q >= r,
                    o > 0,
            ;
        } else if m.nearest() < i64::MIN {
            assert(q * o >= -(r * o)) by (nonlinear_arith)
                requires
                    q >= -r,
                    o > 0,
            ;
        } else if m.is_negative() {
            assert(r * o == -(q * o)) by (nonlinear_arith)
                requires
                    r == -q,
            ;
        }
        assert(2 * a - o < 2 * (q * o) <= 2 * a + o);
    }
}

/// A whole number below 2^53 is kept as it is.
pub proof fn small_integers_are_exact(m: Millis, n: int)
    requires
        m.stands_for(n),
        -0x20_0000_0000_0000 < n < 0x20_0000_0000_0000,
    ensures
        m.units() == n * vstd::arithmetic::power2::pow2(1074),
{
    let size = if n < 0 {
        (-n) as nat
    } else {
        n as nat
    };
    assert(step_of(size) == 1);
    assert(size / 1 == size && size % 1 == 0);
}

/// A larger whole number, of 53 + `k` bits, becomes the nearest multiple of 2^`k`; of
/// two equally near ones the one with the even factor. That factor is handed back.
pub proof fn large_integers_keep_53_bits(m: Millis, n: int, k: nat) -> (factor: int)
    requires
        m.stands_for(n),
        ({
            let size = if n < 0 {
                -n
            } else {
                n
            };
            vstd::arithmetic::power2::pow2(52 + k) <= size < vstd::arithmetic::power2::pow2(53 + k)
        }),
    ensures
        ({
            let step = vstd::arithmetic::power2::pow2(k) as int;
            let off = 2 * (factor * step) - 2 * n;
            &&& m.units() == (factor * step) * vstd::arithmetic::power2::pow2(1074)
            &&& -step <= off <= step
            &&& (off == step || off == -step) ==> factor % 2 == 0
        }),
{
    let size = if n < 0 {
        (-n) as nat
    } else {
        n as nat
    };
    lemma_step_of(size, k);
    let step = vstd::arithmetic::power2::pow2(k) as int;
    vstd::arithmetic::power2::lemma_pow2_pos(k);
    let down = size as int / step;
    vstd::arithmetic::div_mod::lemma_fundamental_div_mod(size as int, step);
    vstd::arithmetic::div_mod::lemma_mod_bound(size as int, step);
    assert(step * down == down * step) by (nonlinear_arith);
    assert((down + 1) * step == down * step + step) by (nonlinear_arith);
    let whole = nearest_multiple(size, step as nat) as int;
    let q = if whole == down * step {
        down
    } else {
        down + 1
    };
    assert(whole == q * step);
    assert((-q) * step == -(q * step)) by (nonlinear_arith);
    if step == 1 {
        assert(size as int % 1 == 0);
    }
    if n < 0 {
        -q
    } else {
        q
    }
}

/// How far binary64 numbers of 53 + `k` bits lie apart.
proof fn lemma_step_of(n: nat, k: nat)
    requires
        vstd::arithmetic::power2::pow2(52 + k) <= n < vstd::arithmetic::power2::pow2(53 + k),
    ensures
        step_of(n) == vstd::arithmetic::power2::pow2(k),
    decreases k,
{
    vstd::arithmetic::power2::lemma2_to64();
    vstd::arithmetic::power2::lemma2_to64_rest();
    if k > 0 {
        vstd::arithmetic::power2::lemma_pow2_unfold(52 + k);
        vstd::arithmetic::power2::lemma_pow2_unfold(53 + k);
        vstd::arithmetic::power2::lemma_pow2_unfold(k);
        if k > 1 {
            vstd::arithmetic::power2::lemma_pow2_strictly_increases(53, 52 + k);
        }
        assert((52 + (k - 1) as nat) as nat == (52 + k - 1) as nat);
        lemma_step_of(n / 2, (k - 1) as nat);
    }
}

/// Dropping the sign of zero keeps every number and all other bits.
pub proof fn only_negative_zero_changes(m: Millis)
    ensures
        m.bits != 0x8000_0000_0000_0000 ==> m.unsigned_zero_spec().bits == m.bits,
        m.bits == 0x8000_0000_0000_0000 ==> m.unsigned_zero_spec().bits == 0,
        m.unsigned_zero_spec().units() == m.units(),
{
}

} // verus!
