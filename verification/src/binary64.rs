//! The arithmetic of IEEE 754 binary64 on values that are not negative, in
//! integers.
//!
//! Every finite value is a multiple of the smallest one, 2^-1074, so a value is
//! modelled by how many of those it is.

use vstd::arithmetic::power2::*;
use vstd::prelude::*;

use crate::text;
use crate::text::decimal_text;

verus! {

/// How many of the smallest value make one.
pub open spec fn one() -> nat {
    pow2(1074)
}

/// The integer nearest to `n / d`; of two equally near, the even one.
pub open spec fn half_even(n: nat, d: nat) -> nat {
    let floor = n / d;
    let rest = n % d;
    if 2 * rest < d || (2 * rest == d && floor % 2 == 0) {
        floor
    } else {
        floor + 1
    }
}

/// The distance between the values next to `n / d`: the power of two that
/// leaves a significand below 2^53.
pub open spec fn spacing(n: nat, d: nat) -> nat
    decreases n - d,
{
    if d == 0 || n < 0x20_0000_0000_0000 * d {
        1
    } else {
        2 * spacing(n, 2 * d)
    }
}

/// The value nearest to `n / d`; of two equally near, the one whose significand
/// is even.
pub open spec fn nearest(n: nat, d: nat) -> nat {
    half_even(n, d * spacing(n, d)) * spacing(n, d)
}

/// The value of an integer.
pub open spec fn of_integer(n: nat) -> nat {
    nearest(n * one(), 1)
}

/// The value of the quotient of two values.
pub open spec fn quotient(a: nat, b: nat) -> nat {
    nearest(a * one(), b)
}

/// The value of the product of a value and a small integer.
pub open spec fn times(a: nat, n: nat) -> nat {
    nearest(a * n, 1)
}

/// The value that the bits of a finite number that is not negative stand for.
pub open spec fn of_bits(bits: u64) -> nat {
    let fraction = (bits % 0x10_0000_0000_0000) as nat;
    let exponent = bits_exponent(bits);
    if exponent == 0 {
        fraction
    } else {
        (0x10_0000_0000_0000 + fraction) * pow2((exponent - 1) as nat)
    }
}

/// The exponent field of the bits of a number; 2047 stands for infinities and
/// for what is not a number.
pub open spec fn bits_exponent(bits: u64) -> nat {
    ((bits / 0x10_0000_0000_0000) % 2048) as nat
}

/// Whether the sign bit is set.
pub open spec fn bits_negative(bits: u64) -> bool {
    bits >= 0x8000_0000_0000_0000
}

/// The first value that no finite number has.
pub open spec fn overflow() -> nat {
    pow2(2098)
}

/// A value with one decimal, rounded to even on its exact decimal expansion.
pub open spec fn tenths_text(value: nat) -> Seq<char> {
    let tenths = half_even(value * 10, one());
    text::decimal(tenths / 10) + "."@ + seq![text::digit(tenths % 10)]
}

// ------------------------------------------------------------------- rounding

proof fn lemma_common_factor(n: nat, d: nat, c: nat)
    requires
        d > 0,
        c > 0,
    ensures
        half_even(n * c, d * c) == half_even(n, d),
{
    let q = n / d;
    let r = n % d;
    assert(n == q * d + r && 0 <= r < d) by (nonlinear_arith)
        requires
            d > 0,
            q == n / d,
            r == n % d,
    ;
    assert(n * c == q * (d * c) + r * c) by (nonlinear_arith)
        requires
            n == q * d + r,
    ;
    assert(0 <= r * c < d * c) by (nonlinear_arith)
        requires
            0 <= r < d,
            c > 0,
    ;
    assert(d * c > 0) by (nonlinear_arith)
        requires
            d > 0,
            c > 0,
    ;
    vstd::arithmetic::div_mod::lemma_fundamental_div_mod_converse(
        (n * c) as int,
        (d * c) as int,
        q as int,
        (r * c) as int,
    );
    assert(2 * (r * c) < d * c <==> 2 * r < d) by (nonlinear_arith)
        requires
            c > 0,
    ;
    assert(2 * (r * c) == d * c <==> 2 * r == d) by (nonlinear_arith)
        requires
            c > 0,
    ;
}

proof fn lemma_spacing_common_factor(n: nat, d: nat, c: nat)
    requires
        d > 0,
        c > 0,
    ensures
        spacing(n * c, d * c) == spacing(n, d),
        spacing(n, d) > 0,
    decreases n - d,
{
    assert(d * c > 0) by (nonlinear_arith)
        requires
            d > 0,
            c > 0,
    ;
    assert(n * c < 0x20_0000_0000_0000 * (d * c) <==> n < 0x20_0000_0000_0000 * d) by (nonlinear_arith)
        requires
            c > 0,
    ;
    if n >= 0x20_0000_0000_0000 * d {
        lemma_spacing_common_factor(n, 2 * d, c);
        assert((2 * d) * c == 2 * (d * c)) by (nonlinear_arith);
    }
}

proof fn lemma_nearest_common_factor(n: nat, d: nat, c: nat)
    requires
        d > 0,
        c > 0,
    ensures
        nearest(n * c, d * c) == nearest(n, d),
{
    lemma_spacing_common_factor(n, d, c);
    let g = spacing(n, d);
    assert(d * g > 0) by (nonlinear_arith)
        requires
            d > 0,
            g > 0,
    ;
    lemma_common_factor(n, d * g, c);
    assert((d * g) * c == (d * c) * g) by (nonlinear_arith);
}

proof fn lemma_spacing_shifted(x: nat, y: nat, k: nat)
    requires
        y > 0,
        x < 0x20_0000_0000_0000 * y,
        k == 0 || 0x10_0000_0000_0000 * y <= x,
    ensures
        spacing(x * pow2(k), y) == pow2(k),
    decreases k,
{
    if k == 0 {
        assert(pow2(0) == 1) by {
            lemma2_to64();
        }
    } else {
        lemma_pow2_unfold(k);
        lemma_pow2_pos((k - 1) as nat);
        let half = pow2((k - 1) as nat);
        let n = x * pow2(k);
        assert(n == (x * half) * 2) by (nonlinear_arith)
            requires
                n == x * pow2(k),
                pow2(k) == 2 * half,
        ;
        assert(n >= 0x20_0000_0000_0000 * y) by (nonlinear_arith)
            requires
                n == (x * half) * 2,
                half > 0,
                0x10_0000_0000_0000 * y <= x,
        ;
        lemma_spacing_common_factor(x * half, y, 2);
        assert(spacing(n, 2 * y) == spacing(x * half, y));
        lemma_spacing_shifted(x, y, (k - 1) as nat);
    }
}

proof fn lemma_nearest_shifted(x: nat, y: nat, k: nat)
    requires
        y > 0,
        x < 0x20_0000_0000_0000 * y,
        k == 0 || 0x10_0000_0000_0000 * y <= x,
    ensures
        nearest(x * pow2(k), y) == half_even(x, y) * pow2(k),
{
    lemma_spacing_shifted(x, y, k);
    lemma_pow2_pos(k);
    lemma_common_factor(x, y, pow2(k));
}

proof fn lemma_half_even_bounds(x: nat, y: nat)
    requires
        y > 0,
        x < 0x20_0000_0000_0000 * y,
    ensures
        half_even(x, y) <= 0x20_0000_0000_0000,
        0x10_0000_0000_0000 * y <= x ==> half_even(x, y) >= 0x10_0000_0000_0000,
{
    assert(x / y < 0x20_0000_0000_0000) by (nonlinear_arith)
        requires
            y > 0,
            x < 0x20_0000_0000_0000 * y,
    ;
    if 0x10_0000_0000_0000 * y <= x {
        assert(x / y >= 0x10_0000_0000_0000) by (nonlinear_arith)
            requires
                y > 0,
                0x10_0000_0000_0000 * y <= x,
        ;
    }
}

/// Nothing divided by anything is nothing.
pub proof fn lemma_nearest_zero(d: nat)
    requires
        d > 0,
    ensures
        nearest(0, d) == 0,
{
    vstd::arithmetic::div_mod::lemma_fundamental_div_mod_converse(0, d as int, 0, 0);
    assert(spacing(0, d) == 1);
    assert(d * 1 == d) by (nonlinear_arith);
    assert(half_even(0, d) * spacing(0, d) == 0) by (nonlinear_arith)
        requires
            half_even(0, d) == 0,
    ;
}

/// A value as a significand and the power of two that scales it.
#[derive(Debug, Clone, Copy, PartialEq, Eq)]
pub struct Binary64 {
    significand: u64,
    scale: u32,
}

impl Binary64 {
    /// How many of the smallest value it is.
    pub closed spec fn value(self) -> nat {
        self.significand as nat * pow2(self.scale as nat)
    }

    /// A normal value has its leading bit; only the smallest scale has fewer.
    pub closed spec fn well_formed(self) -> bool {
        &&& self.significand < 0x20_0000_0000_0000
        &&& self.scale == 0 || 0x10_0000_0000_0000 <= self.significand
        &&& self.scale < 4000
    }

    /// The scale lies between the two bounds and the leading bit is there.
    pub closed spec fn within(self, low: int, high: int) -> bool {
        low <= self.scale <= high && 0x10_0000_0000_0000 <= self.significand
    }

    /// Rounds `x * 2^k / y` to the nearest value.
    fn round(x: u64, y: u64, k: u32) -> (r: Binary64)
        requires
            0 < y,
            k < 3000,
        ensures
            r.well_formed(),
            r.value() == nearest(x as nat * pow2(k as nat), y as nat),
            r.scale <= k + 20,
            x > 0 && k >= 200 ==> 0x10_0000_0000_0000 <= r.significand && r.scale + 130 >= k,
    {
        let ghost goal = nearest(x as nat * pow2(k as nat), y as nat);
        if x == 0 {
            proof {
                assert(0nat * pow2(k as nat) == 0) by (nonlinear_arith);
                assert(0nat * pow2(0) == 0) by (nonlinear_arith);
                lemma_nearest_zero(y as nat);
            }
            return Binary64 { significand: 0, scale: 0 };
        }
        let ghost k0 = k;
        let mut x: u128 = x as u128;
        let mut y: u128 = y as u128;
        let mut k: u32 = k;
        proof {
            lemma2_to64();
            lemma2_to64_rest();
        }
        while x >= 0x20_0000_0000_0000u128 * y
            invariant
                0 < y < 0x1_0000_0000_0000_0000,
                0 < x < 0x1_0000_0000_0000_0000,
                k0 < 3000,
                k0 <= k <= k0 + 12,
                y >= pow2((k - k0) as nat),
                pow2(12) == 4096,
                nearest(x as nat * pow2(k as nat), y as nat) == goal,
            decreases x - y,
        {
            proof {
                let p = pow2(k as nat);
                lemma_pow2_unfold((k + 1) as nat);
                lemma_pow2_unfold((k - k0 + 1) as nat);
                assert(x as nat * pow2((k + 1) as nat) == (x as nat * p) * 2) by (nonlinear_arith)
                    requires
                        pow2((k + 1) as nat) == 2 * p,
                ;
                lemma_nearest_common_factor(x as nat * p, y as nat, 2);
            }
            y = y * 2;
            k = k + 1;
        }
        let ghost k1 = k;
        while x < 0x10_0000_0000_0000u128 * y && k > 0
            invariant
                0 < y < 0x1_0000_0000_0000_0000,
                0 < x < 0x20_0000_0000_0000int * y,
                k <= k1 <= k0 + 12,
                k0 < 3000,
                k1 >= k0,
                x >= pow2((k1 - k) as nat),
                nearest(x as nat * pow2(k as nat), y as nat) == goal,
            decreases k,
        {
            proof {
                let half = pow2((k - 1) as nat);
                lemma_pow2_unfold(k as nat);
                lemma_pow2_unfold((k1 - k + 1) as nat);
                assert(x as nat * pow2(k as nat) == (2 * x as nat) * half) by (nonlinear_arith)
                    requires
                        pow2(k as nat) == 2 * half,
                ;
            }
            x = x * 2;
            k = k - 1;
        }
        let floor: u128 = x / y;
        let rest: u128 = x % y;
        let mut m: u128 = floor;
        if !(2 * rest < y || (2 * rest == y && floor % 2 == 0)) {
            m = floor + 1;
        }
        proof {
            lemma_nearest_shifted(x as nat, y as nat, k as nat);
            lemma_half_even_bounds(x as nat, y as nat);
            assert(m == half_even(x as nat, y as nat));
            if k1 - k >= 118 {
                lemma_pow2_adds(53, 64);
                lemma_pow2_adds(117, (k1 - k - 117) as nat);
                lemma_pow2_pos((k1 - k - 117) as nat);
                assert(x >= pow2(117)) by (nonlinear_arith)
                    requires
                        x >= pow2((k1 - k) as nat),
                        pow2((k1 - k) as nat) == pow2(117) * pow2((k1 - k - 117) as nat),
                        pow2((k1 - k - 117) as nat) > 0,
                ;
            }
        }
        if m == 0x20_0000_0000_0000u128 {
            proof {
                lemma_pow2_unfold((k + 1) as nat);
                assert(0x20_0000_0000_0000nat * pow2(k as nat) == 0x10_0000_0000_0000nat * pow2((k + 1) as nat))
                    by (nonlinear_arith)
                    requires
                        pow2((k + 1) as nat) == 2 * pow2(k as nat),
                ;
            }
            Binary64 { significand: 0x10_0000_0000_0000, scale: k + 1 }
        } else {
            Binary64 { significand: m as u64, scale: k }
        }
    }

    /// The value of an integer.
    pub fn from_integer(n: u64) -> (r: Binary64)
        ensures
            r.well_formed(),
            r.value() == of_integer(n as nat),
            n > 0 ==> r.within(944, 1094),
    {
        Self::round(n, 1, 1074)
    }

    /// The value nearest to one tenth.
    pub fn tenth() -> (r: Binary64)
        ensures
            r.well_formed(),
            r.value() == nearest(one(), 10),
    {
        assert(1nat * one() == one()) by (nonlinear_arith);
        Self::round(1, 10, 1074)
    }

    /// The quotient of two values.
    pub(crate) fn divide(self, by: Binary64, Ghost(low): Ghost<int>, Ghost(high): Ghost<int>) -> (r:
        Binary64)
        requires
            self.well_formed(),
            by.well_formed(),
            self.within(low, high),
            by.within(944, 1094),
            low >= 220,
            high <= 2500,
        ensures
            r.well_formed(),
            r.value() == quotient(self.value(), by.value()),
            r.within(low - 150, high + 150),
    {
        let k: u32 = self.scale + 1074 - by.scale;
        proof {
            lemma_pow2_adds(self.scale as nat, 1074);
            lemma_pow2_adds(k as nat, by.scale as nat);
            lemma_pow2_pos(by.scale as nat);
            let m = self.significand as nat;
            let a = pow2(self.scale as nat);
            let p = pow2(k as nat);
            let c = pow2(by.scale as nat);
            assert((m * a) * one() == (m * p) * c) by (nonlinear_arith)
                requires
                    a * one() == p * c,
            ;
            lemma_nearest_common_factor(m * p, by.significand as nat, c);
        }
        Self::round(self.significand, by.significand, k)
    }

    /// The value times one hundred.
    pub fn hundredfold(self) -> (r: Binary64)
        requires
            self.well_formed(),
            self.value() < overflow(),
        ensures
            r.well_formed(),
            r.value() == times(self.value(), 100),
    {
        proof {
            let m = self.significand as nat;
            let p = pow2(self.scale as nat);
            if self.scale >= 2100 {
                lemma_pow2_adds(2098, (self.scale - 2098) as nat);
                lemma_pow2_pos((self.scale - 2098) as nat);
                assert(m * p >= overflow()) by (nonlinear_arith)
                    requires
                        p == overflow() * pow2((self.scale - 2098) as nat),
                        pow2((self.scale - 2098) as nat) > 0,
                        m >= 1,
                ;
            }
            assert((m * p) * 100 == (m * 100) * p) by (nonlinear_arith);
        }
        Self::round(self.significand * 100, 1, self.scale)
    }

    /// Wider bounds hold too.
    pub proof fn lemma_within(self, low: int, high: int, lower: int, higher: int)
        requires
            self.within(low, high),
            lower <= low,
            high <= higher,
        ensures
            self.within(lower, higher),
            self.value() > 0,
    {
        lemma_pow2_pos(self.scale as nat);
        let m = self.significand as nat;
        let p = pow2(self.scale as nat);
        assert(m * p > 0) by (nonlinear_arith)
            requires
                m > 0,
                p > 0,
        ;
    }

    /// Values of such scales are far from the largest finite number.
    pub proof fn lemma_small(self, low: int, high: int)
        requires
            self.well_formed(),
            self.within(low, high),
            high < 2046,
        ensures
            self.value() < overflow(),
    {
        let bound = Binary64 { significand: 0x10_0000_0000_0000, scale: 2046 };
        lemma2_to64_rest();
        lemma_pow2_adds(52, 2046);
        Self::lemma_order(self, bound);
    }

    /// So is zero.
    pub proof fn lemma_zero_is_small()
        ensures
            0 < overflow(),
    {
        lemma_pow2_pos(2098);
    }

    /// Whether the value is zero.
    pub fn is_zero(self) -> (yes: bool)
        requires
            self.well_formed(),
        ensures
            yes == (self.value() == 0),
    {
        proof {
            lemma_pow2_pos(self.scale as nat);
            let m = self.significand as nat;
            let p = pow2(self.scale as nat);
            assert(m * p == 0 <==> m == 0) by (nonlinear_arith)
                requires
                    p > 0,
            ;
        }
        self.significand == 0
    }

    proof fn lemma_order(a: Binary64, b: Binary64)
        requires
            a.well_formed(),
            b.well_formed(),
            a.scale < b.scale,
        ensures
            a.value() < b.value(),
    {
        let rest = (b.scale - a.scale - 1) as nat;
        lemma_pow2_adds(a.scale as nat, rest);
        lemma_pow2_unfold(b.scale as nat);
        lemma_pow2_pos(a.scale as nat);
        lemma_pow2_pos(rest);
        let pa = pow2(a.scale as nat);
        let pb = pow2(b.scale as nat);
        assert(pb >= 2 * pa) by (nonlinear_arith)
            requires
                pb == 2 * (pa * pow2(rest)),
                pow2(rest) >= 1,
                pa > 0,
        ;
        assert(a.significand as nat * pa < b.significand as nat * pb) by (nonlinear_arith)
            requires
                a.significand < 0x20_0000_0000_0000,
                b.significand >= 0x10_0000_0000_0000,
                pb >= 2 * pa,
                pa > 0,
        ;
    }

    /// Whether the value is less than `other`.
    pub fn less(self, other: Binary64) -> (yes: bool)
        requires
            self.well_formed(),
            other.well_formed(),
        ensures
            yes == (self.value() < other.value()),
    {
        proof {
            if self.scale < other.scale {
                Self::lemma_order(self, other);
            } else if self.scale > other.scale {
                Self::lemma_order(other, self);
            } else {
                lemma_pow2_pos(self.scale as nat);
                let x = self.significand as nat;
                let y = other.significand as nat;
                let p = pow2(self.scale as nat);
                assert(x * p < y * p <==> x < y) by (nonlinear_arith)
                    requires
                        p > 0,
                ;
            }
        }
        self.scale < other.scale || (self.scale == other.scale && self.significand
            < other.significand)
    }

    /// Whether the value is beyond every finite number.
    pub fn is_overflow(self) -> (yes: bool)
        requires
            self.well_formed(),
        ensures
            yes == (self.value() >= overflow()),
    {
        let bound = Binary64 { significand: 0x10_0000_0000_0000, scale: 2046 };
        proof {
            lemma2_to64_rest();
            lemma_pow2_adds(52, 2046);
        }
        !self.less(bound)
    }

    /// The value of the bits of a finite number that is not negative.
    pub fn from_bits(bits: u64) -> (r: Binary64)
        requires
            bits_exponent(bits) < 2047,
        ensures
            r.well_formed(),
            r.value() == of_bits(bits),
            r.value() < overflow(),
    {
        let fraction: u64 = bits % 0x10_0000_0000_0000;
        let exponent: u64 = (bits / 0x10_0000_0000_0000) % 2048;
        let r = if exponent == 0 {
            proof {
                lemma2_to64();
            }
            Binary64 { significand: fraction, scale: 0 }
        } else {
            Binary64 { significand: 0x10_0000_0000_0000 + fraction, scale: exponent as u32 - 1 }
        };
        proof {
            let bound = Binary64 { significand: 0x10_0000_0000_0000, scale: 2046 };
            lemma2_to64_rest();
            lemma_pow2_adds(52, 2046);
            Self::lemma_order(r, bound);
        }
        r
    }

    /// The bits of a number in the range of normal ones.
    pub fn to_bits(self) -> (bits: u64)
        requires
            self.well_formed(),
            self.within(0, 2045),
        ensures
            of_bits(bits) == self.value(),
            bits_exponent(bits) < 2047,
            !bits_negative(bits),
    {
        (self.scale as u64 + 1) * 0x10_0000_0000_0000 + (self.significand - 0x10_0000_0000_0000)
    }

    /// Renders the value with one decimal.
    pub fn tenths(self) -> (text: String)
        requires
            self.well_formed(),
        ensures
            text@ == tenths_text(self.value()),
    {
        let ghost m = self.significand as nat;
        let ghost p = pow2(self.scale as nat);
        if self.scale >= 1074 {
            let shift: u32 = self.scale - 1074;
            proof {
                let q = pow2(shift as nat);
                lemma_pow2_adds(shift as nat, 1074);
                lemma_pow2_pos(1074);
                assert((m * p) * 10 == ((m * q) * 10) * one()) by (nonlinear_arith)
                    requires
                        p == q * one(),
                ;
                assert(1 * one() == one()) by (nonlinear_arith);
                lemma_common_factor((m * q) * 10, 1, one());
                assert(half_even((m * q) * 10, 1) == (m * q) * 10);
            }
            let whole = decimal_shifted(self.significand, shift);
            let mut text = whole.concat(".");
            text.push('0');
            assert(text@ =~= tenths_text(self.value()));
            text
        } else {
            let shift: u32 = 1074 - self.scale;
            proof {
                lemma_pow2_adds(self.scale as nat, shift as nat);
                lemma_pow2_pos(self.scale as nat);
                lemma_pow2_pos(shift as nat);
                assert((m * p) * 10 == (m * 10) * p) by (nonlinear_arith);
                assert(one() == pow2(shift as nat) * p) by (nonlinear_arith)
                    requires
                        one() == p * pow2(shift as nat),
                ;
                lemma_common_factor(m * 10, pow2(shift as nat), p);
            }
            let tenths: u64 = if shift >= 60 {
                proof {
                    let d = pow2(shift as nat);
                    lemma2_to64_rest();
                    lemma_pow2_adds(60, (shift - 60) as nat);
                    lemma_pow2_pos((shift - 60) as nat);
                    assert(d >= 0x1000_0000_0000_0000) by (nonlinear_arith)
                        requires
                            d == 0x1000_0000_0000_0000 * pow2((shift - 60) as nat),
                            pow2((shift - 60) as nat) >= 1,
                    ;
                    vstd::arithmetic::div_mod::lemma_fundamental_div_mod_converse(
                        (m * 10) as int,
                        d as int,
                        0,
                        (m * 10) as int,
                    );
                }
                0
            } else {
                let d: u64 = power(shift);
                let n: u64 = self.significand * 10;
                let floor: u64 = n / d;
                let rest: u64 = n % d;
                if 2 * rest < d || (2 * rest == d && floor % 2 == 0) {
                    floor
                } else {
                    floor + 1
                }
            };
            let mut text = decimal_text(tenths / 10).concat(".");
            text.push((48u8 + (tenths % 10) as u8) as char);
            assert(text@ =~= tenths_text(self.value()));
            text
        }
    }
}

/// Two to the power `k`.
fn power(k: u32) -> (p: u64)
    requires
        k < 60,
    ensures
        p == pow2(k as nat),
        p < 0x1000_0000_0000_0000,
{
    proof {
        lemma2_to64();
        lemma2_to64_rest();
    }
    let mut p: u64 = 1;
    let mut i: u32 = 0;
    while i < k
        invariant
            i <= k < 60,
            p == pow2(i as nat),
            pow2(60) == 0x1000_0000_0000_0000,
            p < 0x1000_0000_0000_0000,
        decreases k - i,
    {
        proof {
            lemma_pow2_unfold((i + 1) as nat);
            vstd::arithmetic::power2::lemma_pow2_strictly_increases((i + 1) as nat, 60);
        }
        p = p * 2;
        i += 1;
    }
    p
}

// ------------------------------------------------------------------ long numbers

/// The number that decimal digits stand for, the least significant first.
spec fn digits_value(digits: Seq<u8>) -> nat
    decreases digits.len(),
{
    if digits.len() == 0 {
        0
    } else {
        digits[0] as nat + 10 * digits_value(digits.skip(1))
    }
}

spec fn pow10(n: nat) -> nat
    decreases n,
{
    if n == 0 {
        1
    } else {
        10 * pow10((n - 1) as nat)
    }
}

/// Digits are below ten, there is at least one, and a leading zero only stands
/// alone.
spec fn canonical(digits: Seq<u8>) -> bool {
    &&& digits.len() > 0
    &&& forall|i: int| 0 <= i < digits.len() ==> #[trigger] digits[i] < 10
    &&& digits.len() > 1 ==> digits.last() != 0
}

proof fn lemma_digits_push(digits: Seq<u8>, d: u8)
    ensures
        digits_value(digits.push(d)) == digits_value(digits) + d * pow10(digits.len()),
    decreases digits.len(),
{
    if digits.len() == 0 {
        assert(digits.push(d).skip(1) =~= Seq::<u8>::empty());
        assert(digits_value(Seq::<u8>::empty()) == 0);
        assert(digits_value(digits.push(d)) == d as nat);
        assert(d * pow10(0) == d) by (nonlinear_arith)
            requires
                pow10(0) == 1,
        ;
    } else {
        lemma_digits_push(digits.skip(1), d);
        assert(digits.push(d).skip(1) =~= digits.skip(1).push(d));
        let p = pow10((digits.len() - 1) as nat);
        assert(10 * (d * p) == d * (10 * p)) by (nonlinear_arith);
    }
}

proof fn lemma_digits_positive(digits: Seq<u8>)
    requires
        digits.len() > 0,
        digits.last() != 0,
    ensures
        digits_value(digits) > 0,
    decreases digits.len(),
{
    if digits.len() > 1 {
        lemma_digits_positive(digits.skip(1));
    } else {
        assert(digits[0] != 0);
    }
}

proof fn lemma_digits_decimal(digits: Seq<u8>)
    requires
        canonical(digits),
    ensures
        text::decimal(digits_value(digits)) == digits.reverse().map_values(|d: u8| text::digit(d as nat)),
    decreases digits.len(),
{
    let shown = digits.reverse().map_values(|d: u8| text::digit(d as nat));
    if digits.len() == 1 {
        assert(digits_value(digits.skip(1)) == 0);
        assert(shown =~= text::decimal(digits_value(digits)));
    } else {
        let rest = digits.skip(1);
        assert(rest.last() == digits.last());
        assert(canonical(rest));
        lemma_digits_positive(rest);
        lemma_digits_decimal(rest);
        let more = rest.reverse().map_values(|d: u8| text::digit(d as nat));
        assert(shown =~= more.push(text::digit(digits[0] as nat)));
        let v = digits_value(rest);
        assert((digits[0] as nat + 10 * v) / 10 == v);
        assert((digits[0] as nat + 10 * v) % 10 == digits[0] as nat);
    }
}

fn digits_of(n: u64) -> (digits: Vec<u8>)
    ensures
        canonical(digits@),
        digits_value(digits@) == n,
    decreases n,
{
    if n < 10 {
        let digits: Vec<u8> = vec![n as u8];
        assert(digits_value(digits@.skip(1)) == 0);
        digits
    } else {
        let more = digits_of(n / 10);
        let mut digits: Vec<u8> = vec![(n % 10) as u8];
        let ghost first = digits@;
        let mut i: usize = 0;
        while i < more.len()
            invariant
                i <= more@.len(),
                first.len() == 1,
                digits@ == first + more@.take(i as int),
            decreases more@.len() - i,
        {
            digits.push(more[i]);
            i += 1;
        }
        proof {
            assert(digits@.skip(1) =~= more@);
            assert(digits@.last() == more@.last());
            if more@.len() == 1 && more@[0] == 0 {
                assert(digits_value(more@.skip(1)) == 0);
            }
        }
        digits
    }
}

fn double(digits: &Vec<u8>) -> (r: Vec<u8>)
    requires
        canonical(digits@),
    ensures
        canonical(r@),
        digits_value(r@) == 2 * digits_value(digits@),
{
    let mut r: Vec<u8> = Vec::new();
    let mut carry: u8 = 0;
    let mut i: usize = 0;
    proof {
        assert(digits@.skip(0) =~= digits@);
        assert(pow10(0) == 1);
        let v = digits_value(digits@);
        assert(pow10(0) * (0 + 2 * v) == 2 * v) by (nonlinear_arith)
            requires
                pow10(0) == 1,
        ;
    }
    while i < digits.len()
        invariant
            i <= digits@.len(),
            r@.len() == i,
            carry <= 1,
            canonical(digits@),
            forall|k: int| 0 <= k < i ==> #[trigger] r@[k] < 10,
            i > 0 && carry == 0 && digits@[i - 1] != 0 ==> r@[i - 1] != 0,
            digits_value(r@) + pow10(i as nat) * (carry + 2 * digits_value(digits@.skip(i as int)))
                == 2 * digits_value(digits@),
        decreases digits@.len() - i,
    {
        let t: u8 = 2 * digits[i] + carry;
        proof {
            let rest = digits@.skip(i as int);
            assert(rest.skip(1) =~= digits@.skip(i + 1));
            lemma_digits_push(r@, t % 10);
            let v = digits_value(digits@.skip(i + 1));
            let p = pow10(i as nat);
            let low = (t % 10) as nat;
            let high = (t / 10) as nat;
            assert(p * (carry + 2 * (digits@[i as int] as nat + 10 * v)) == low * p + (10 * p) * (
            high + 2 * v)) by (nonlinear_arith)
                requires
                    carry + 2 * (digits@[i as int] as nat) == low + 10 * high,
            ;
        }
        r.push(t % 10);
        carry = t / 10;
        i += 1;
    }
    proof {
        assert(digits_value(digits@.skip(i as int)) == 0);
        let p = pow10(i as nat);
        assert(p * (carry + 2 * 0) == carry * p) by (nonlinear_arith);
        lemma_digits_push(r@, carry);
        assert(0 * p == 0) by (nonlinear_arith);
    }
    if carry > 0 {
        r.push(carry);
    }
    r
}

/// Renders `m * 2^shift` in decimal.
fn decimal_shifted(m: u64, shift: u32) -> (text: String)
    ensures
        text@ == text::decimal(m as nat * pow2(shift as nat)),
{
    let mut digits = digits_of(m);
    let mut i: u32 = 0;
    proof {
        lemma2_to64();
        assert(m as nat * 1 == m as nat) by (nonlinear_arith);
    }
    while i < shift
        invariant
            i <= shift,
            canonical(digits@),
            digits_value(digits@) == m as nat * pow2(i as nat),
        decreases shift - i,
    {
        proof {
            lemma_pow2_unfold((i + 1) as nat);
            let p = pow2(i as nat);
            assert(2 * (m as nat * p) == m as nat * (2 * p)) by (nonlinear_arith);
        }
        digits = double(&digits);
        i += 1;
    }
    let ghost shown = digits@.reverse().map_values(|d: u8| text::digit(d as nat));
    proof {
        lemma_digits_decimal(digits@);
    }
    let mut text = String::new();
    let mut n: usize = digits.len();
    while n > 0
        invariant
            n <= digits@.len(),
            canonical(digits@),
            shown == digits@.reverse().map_values(|d: u8| text::digit(d as nat)),
            text@ == shown.take(digits@.len() - n),
        decreases n,
    {
        text.push((48u8 + digits[n - 1]) as char);
        n -= 1;
        assert(text@ =~= shown.take(digits@.len() - n));
    }
    assert(text@ =~= shown);
    text
}

proof fn lemma_spacing_is_fine(n: nat, d: nat)
    requires
        d > 0,
    ensures
        spacing(n, d) >= 1,
        spacing(n, d) > 1 ==> 0x10_0000_0000_0000 * (d * spacing(n, d)) <= n,
    decreases n - d,
{
    if n >= 0x20_0000_0000_0000 * d {
        lemma_spacing_is_fine(n, 2 * d);
        let half = spacing(n, 2 * d);
        assert(d * (2 * half) == (2 * d) * half) by (nonlinear_arith);
        if half == 1 {
            assert(d * 2 == 2 * d);
        }
    }
}

proof fn lemma_half_even_is_near(n: nat, d: nat)
    requires
        d > 0,
    ensures
        2 * (half_even(n, d) * d) <= 2 * n + d,
        2 * n <= 2 * (half_even(n, d) * d) + d,
{
    let q = n / d;
    let r = n % d;
    assert(n == q * d + r && 0 <= r < d) by (nonlinear_arith)
        requires
            d > 0,
            q == n / d,
            r == n % d,
    ;
    assert((q + 1) * d == q * d + d) by (nonlinear_arith);
}

/// Rounding is off by half of the smallest value at most, or by one part in 2^53 of what is
/// rounded.
pub proof fn law_rounding_is_near(n: nat, d: nat)
    requires
        d > 0,
    ensures
        ({
            let off = nearest(n, d) * d - n;
            ||| -(d as int) <= 2 * off <= d
            ||| -(n as int) <= 0x20_0000_0000_0000 * off <= n
        }),
{
    let s = spacing(n, d);
    lemma_spacing_is_fine(n, d);
    assert(d * s > 0) by (nonlinear_arith)
        requires
            d > 0,
            s >= 1,
    ;
    lemma_half_even_is_near(n, d * s);
    let h = half_even(n, d * s);
    assert(h * s * d == h * (d * s)) by (nonlinear_arith);
    if s == 1 {
        assert(d * 1 == d);
    }
}

proof fn lemma_exact(x: nat, k: nat)
    requires
        0 < x < 0x20_0000_0000_0000,
    ensures
        nearest(x * pow2(k), 1) == x * pow2(k),
    decreases k,
{
    if k == 0 || 0x10_0000_0000_0000 <= x {
        lemma_nearest_shifted(x, 1, k);
        assert(x / 1 == x && x % 1 == 0);
    } else {
        let less = (k - 1) as nat;
        lemma_pow2_unfold(k);
        assert(x * (2 * pow2(less)) == (2 * x) * pow2(less)) by (nonlinear_arith);
        lemma_exact(2 * x, less);
    }
}

/// Integers below 2^53 are values themselves.
pub proof fn law_small_integers_are_exact(n: nat)
    requires
        n < 0x20_0000_0000_0000,
    ensures
        of_integer(n) == n * one(),
{
    if n == 0 {
        assert(0 * one() == 0) by (nonlinear_arith);
        lemma_nearest_zero(1);
    } else {
        lemma_exact(n, 1074);
    }
}

/// One decimal is off by half a tenth at most.
pub proof fn law_one_decimal_is_near(value: nat)
    ensures
        ({
            let tenths = half_even(value * 10, one());
            &&& tenths_text(value) == text::decimal(tenths / 10) + "."@ + seq![
                text::digit(tenths % 10),
            ]
            &&& 2 * (tenths * one()) <= 20 * value + one()
            &&& 20 * value <= 2 * (tenths * one()) + one()
        }),
{
    lemma_pow2_pos(1074);
    lemma_half_even_is_near(value * 10, one());
}

/// The fraction counts the smallest values one by one, below and above the least exponent, and
/// every step of the exponent from there on doubles the value; the sign is apart.
pub proof fn law_exponents_double_the_value(exponent: u64, fraction: u64)
    requires
        exponent < 2047,
        fraction < 0x10_0000_0000_0000,
    ensures
        ({
            let bits = (exponent * 0x10_0000_0000_0000 + fraction) as u64;
            let next = ((exponent + 1) * 0x10_0000_0000_0000 + fraction) as u64;
            &&& bits_exponent(bits) == exponent
            &&& !bits_negative(bits)
            &&& bits_negative((bits + 0x8000_0000_0000_0000) as u64)
            &&& bits_exponent((bits + 0x8000_0000_0000_0000) as u64) == exponent
            &&& exponent == 0 ==> of_bits(bits) == fraction
            &&& exponent == 1 ==> of_bits(bits) == 0x10_0000_0000_0000 + fraction
            &&& 1 <= exponent < 2046 ==> of_bits(next) == 2 * of_bits(bits)
        }),
{
    lemma2_to64();
    let bits = (exponent * 0x10_0000_0000_0000 + fraction) as u64;
    let next = ((exponent + 1) * 0x10_0000_0000_0000 + fraction) as u64;
    assert(bits % 0x10_0000_0000_0000 == fraction && bits / 0x10_0000_0000_0000 == exponent);
    assert(next % 0x10_0000_0000_0000 == fraction && next / 0x10_0000_0000_0000 == exponent + 1);
    let signed = (bits + 0x8000_0000_0000_0000) as u64;
    assert(signed / 0x10_0000_0000_0000 == exponent + 2048);
    if 1 <= exponent < 2046 {
        let less = (exponent - 1) as nat;
        lemma_pow2_unfold(exponent as nat);
        let significand = 0x10_0000_0000_0000 + fraction as nat;
        assert(significand * (2 * pow2(less)) == 2 * (significand * pow2(less))) by (nonlinear_arith);
        assert(of_bits(bits) == significand * pow2(less));
        assert(of_bits(next) == significand * pow2(exponent as nat));
    }
    if exponent == 1 {
        assert((0x10_0000_0000_0000 + fraction) * 1 == 0x10_0000_0000_0000 + fraction);
        assert(pow2(0) == 1);
    }
}

} // verus!
