//! Double-precision arithmetic: each operation gives the nearest double to the exact result.

use crate::binary64::{lemma_mag_units_increase, lemma_packed_units, mag_units};
use crate::binary64::{Binary64, HIDDEN, INFINITE, SIGN_BIT};
use crate::rounding::{digits, pack, two_to};
use crate::rounding::{bit_length, brackets, nearest, nearest_root, packed, represents};
use crate::rounding::{
    lemma_bit_length, lemma_bit_length_bound, lemma_bit_length_reach, lemma_packed_nearest,
    lemma_packed_nearest_root,
};
use vstd::arithmetic::power2::*;
use vstd::prelude::*;

verus! {

/// One, in units of 2^-1074, is 2 to this power.
pub const UNIT_EXPONENT: u32 = 1074;

/// The bit pattern that stands for "not a number".
pub const QUIET_NAN: u64 = 0x7ff8_0000_0000_0000;

/// A magnitude with a sign.
pub open spec fn signed(negative: bool, mag: nat) -> Binary64 {
    Binary64 {
        bits: (if negative {
            mag + SIGN_BIT
        } else {
            mag as int
        }) as u64,
    }
}

pub open spec fn magnitude_of(x: int) -> nat {
    if x < 0 {
        (-x) as nat
    } else {
        x as nat
    }
}

impl Binary64 {
    /// The nearest double to the exact sum.
    #[verifier::opaque]
    pub open spec fn plus_spec(self, other: Binary64) -> Binary64 {
        if self.nan() || other.nan() {
            Binary64 { bits: QUIET_NAN }
        } else if !self.finite() {
            if !other.finite() && self.sign() != other.sign() {
                Binary64 { bits: QUIET_NAN }
            } else {
                self
            }
        } else if !other.finite() {
            other
        } else {
            let sum = self.units() + other.units();
            if sum == 0 {
                signed(self.sign() && other.sign(), 0)
            } else {
                signed(sum < 0, nearest(magnitude_of(sum), 1))
            }
        }
    }

    /// The nearest double to the exact difference.
    pub open spec fn minus_spec(self, other: Binary64) -> Binary64 {
        self.plus_spec(other.negated_spec())
    }

    /// The nearest double to the exact product.
    #[verifier::opaque]
    pub open spec fn times_spec(self, other: Binary64) -> Binary64 {
        let negative = self.sign() != other.sign();
        if self.nan() || other.nan() {
            Binary64 { bits: QUIET_NAN }
        } else if !self.finite() || !other.finite() {
            if self.mag() == 0 || other.mag() == 0 {
                Binary64 { bits: QUIET_NAN }
            } else {
                signed(negative, INFINITE as nat)
            }
        } else {
            signed(
                negative,
                nearest(
                    mag_units(self.mag()) * mag_units(other.mag()),
                    pow2(UNIT_EXPONENT as nat),
                ),
            )
        }
    }

    /// The nearest double to the exact quotient.
    #[verifier::opaque]
    pub open spec fn over_spec(self, other: Binary64) -> Binary64 {
        let negative = self.sign() != other.sign();
        if self.nan() || other.nan() {
            Binary64 { bits: QUIET_NAN }
        } else if !self.finite() {
            if !other.finite() {
                Binary64 { bits: QUIET_NAN }
            } else {
                signed(negative, INFINITE as nat)
            }
        } else if !other.finite() {
            signed(negative, 0)
        } else if other.mag() == 0 {
            if self.mag() == 0 {
                Binary64 { bits: QUIET_NAN }
            } else {
                signed(negative, INFINITE as nat)
            }
        } else {
            signed(
                negative,
                nearest(
                    mag_units(self.mag()) * pow2(UNIT_EXPONENT as nat),
                    mag_units(other.mag()),
                ),
            )
        }
    }

    /// The nearest double to the exact square root.
    #[verifier::opaque]
    pub open spec fn root_spec(self) -> Binary64 {
        if self.nan() || (self.sign() && self.mag() > 0) {
            Binary64 { bits: QUIET_NAN }
        } else if self.mag() == 0 || !self.finite() {
            self
        } else {
            signed(false, nearest_root(mag_units(self.mag()) * pow2(UNIT_EXPONENT as nat)))
        }
    }

    /// The nearest double to a whole number.
    #[verifier::opaque]
    pub open spec fn whole(n: int) -> Binary64 {
        signed(n < 0, nearest(magnitude_of(n) * pow2(UNIT_EXPONENT as nat), 1))
    }
}

/// A finite magnitude as a significand and an exponent.
pub(crate) fn unpack(mag: u64) -> (r: (u64, u32))
    requires
        mag < INFINITE,
    ensures
        mag_units(mag as nat) == r.0 * pow2(r.1 as nat),
        r.0 < 2 * HIDDEN,
        r.1 <= 2045,
        r.1 > 0 ==> r.0 >= HIDDEN,
        r.0 == 0 <==> mag == 0,
{
    let field: u64 = mag / HIDDEN;
    let fraction: u64 = mag % HIDDEN;
    proof {
        lemma2_to64();
    }
    if field == 0 {
        proof {
            lemma_packed_units(0, mag as nat);
        }
        (fraction, 0)
    } else {
        (HIDDEN + fraction, (field - 1) as u32)
    }
}

/// Puts the sign on a magnitude.
fn with_sign(negative: bool, mag: u64) -> (r: Binary64)
    requires
        mag <= INFINITE,
    ensures
        r == signed(negative, mag as nat),
{
    if negative {
        Binary64 { bits: mag + SIGN_BIT }
    } else {
        Binary64 { bits: mag }
    }
}

proof fn lemma_finite_units(x: Binary64)
    ensures
        x.units() == 0 <==> x.mag() == 0,
        magnitude_of(x.units()) == mag_units(x.mag()),
        mag_units(0) == 0,
{
    if x.mag() > 0 {
        lemma_mag_units_increase(0, x.mag());
    }
}

/// The magnitude and the sign of a sum (`subtract` false) or a difference of two magnitudes, the
/// first with the larger exponent; the flag says that the second outweighed the first.
fn combine(ma: u64, ea: u32, mb: u64, eb: u32, subtract: bool) -> (r: (u64, bool))
    requires
        eb <= ea <= 2045,
        ma < 2 * HIDDEN,
        mb < 2 * HIDDEN,
        ea > 0 ==> ma >= HIDDEN,
    ensures
        ({
            let x = ma * pow2(ea as nat);
            let y = mb * pow2(eb as nat);
            let total = if subtract {
                x - y
            } else {
                x + y
            };
            &&& r.0 == nearest(magnitude_of(total), 1)
            &&& r.1 == (total < 0)
            &&& r.0 <= INFINITE
        }),
{
    let ghost x = ma * pow2(ea as nat);
    let ghost y = mb * pow2(eb as nat);
    let ghost total = if subtract {
        x - y
    } else {
        x + y
    };
    let d: u32 = ea - eb;
    proof {
        lemma2_to64();
        lemma2_to64_rest();
        lemma_pow2_adds(d as nat, eb as nat);
        lemma_pow2_pos(eb as nat);
        assert(x >= 0 && y >= 0) by (nonlinear_arith)
            requires
                x == ma * pow2(ea as nat),
                y == mb * pow2(eb as nat),
        ;
    }
    if d <= 64 {
        proof {
            if d < 64 {
                lemma_pow2_strictly_increases(d as nat, 64);
            }
            assert(ma * pow2(d as nat) <= 2 * HIDDEN * 0x1_0000_0000_0000_0000) by (nonlinear_arith)
                requires
                    ma < 2 * HIDDEN,
                    pow2(d as nat) <= 0x1_0000_0000_0000_0000,
            ;
            lemma_pow2_pos(d as nat);
            assert(ma * pow2(d as nat) >= 0) by (nonlinear_arith);
        }
        let wide: u128 = (ma as u128) * two_to(d);
        let narrow: u128 = mb as u128;
        let outweighed: bool = subtract && wide < narrow;
        let m: u128 = if !subtract {
            wide + narrow
        } else if wide < narrow {
            narrow - wide
        } else {
            wide - narrow
        };
        proof {
            let p = pow2(eb as nat);
            assert(x == wide * p) by (nonlinear_arith)
                requires
                    x == ma * pow2(ea as nat),
                    wide == ma * pow2(d as nat),
                    pow2(ea as nat) == pow2(d as nat) * p,
            ;
            assert(total == (if subtract {
                wide - narrow
            } else {
                wide + narrow
            }) * p) by (nonlinear_arith)
                requires
                    x == wide * p,
                    y == narrow * p,
                    total == (if subtract {
                        x - y
                    } else {
                        x + y
                    }),
            ;
            assert(magnitude_of(total) == m * p && (total < 0 <==> outweighed)) by (nonlinear_arith)
                requires
                    p > 0,
                    total == (if subtract {
                        wide - narrow
                    } else {
                        wide + narrow
                    }) * p,
                    outweighed == (subtract && wide < narrow),
                    m == (if !subtract {
                        wide + narrow
                    } else if wide < narrow {
                        narrow - wide
                    } else {
                        wide - narrow
                    }),
            ;
            assert(m * p * 1 == m * p && (m + 1) * p * 1 > m * p) by (nonlinear_arith)
                requires
                    p > 0,
            ;
            assert(represents(m as nat, eb as int, false, magnitude_of(total), 1));
            lemma_packed_nearest(m as nat, eb as int, false, magnitude_of(total), 1);
        }
        (pack(m, eb as i32, false), outweighed)
    } else if mb == 0 {
        proof {
            let p = pow2(ea as nat);
            lemma_pow2_pos(ea as nat);
            assert(total == ma * p);
            assert(ma * p * 1 == ma * p && (ma + 1) * p * 1 > ma * p) by (nonlinear_arith)
                requires
                    p > 0,
            ;
            assert(represents(ma as nat, ea as int, false, magnitude_of(total), 1));
            lemma_packed_nearest(ma as nat, ea as int, false, magnitude_of(total), 1);
        }
        (pack(ma as u128, ea as i32, false), false)
    } else {
        let wide: u128 = (ma as u128) * 4096;
        let m: u128 = if subtract {
            wide - 1
        } else {
            wide
        };
        proof {
            let e = (ea - 12) as nat;
            let p = pow2(e);
            lemma_pow2_pos(e);
            lemma_pow2_adds(12, e);
            assert(x == wide * p) by (nonlinear_arith)
                requires
                    x == ma * pow2(ea as nat),
                    wide == ma * 4096,
                    pow2(ea as nat) == 4096 * p,
            ;
            lemma_pow2_adds(53, eb as nat);
            if 53 + eb < e {
                lemma_pow2_strictly_increases((53 + eb) as nat, e);
            }
            assert(0 < y < p) by (nonlinear_arith)
                requires
                    y == mb * pow2(eb as nat),
                    0 < mb < pow2(53),
                    pow2(eb as nat) > 0,
                    pow2(53) * pow2(eb as nat) <= p,
            ;
            assert(wide >= 4096 * HIDDEN);
            assert((wide - 1) * p == wide * p - p && (wide + 1) * p == wide * p + p)
                by (nonlinear_arith);
            assert(wide * p >= p) by (nonlinear_arith)
                requires
                    wide >= 1,
                    p > 0,
            ;
            assert(m * p * 1 == m * p && (m + 1) * p * 1 == (m + 1) * p) by (nonlinear_arith);
            assert(represents(m as nat, e as int, true, magnitude_of(total), 1));
            lemma_packed_nearest(m as nat, e as int, true, magnitude_of(total), 1);
        }
        (pack(m, ea as i32 - 12, true), false)
    }
}

/// A sum of two numbers that is not zero is not rounded to zero; a zero sum is.
proof fn lemma_nearest_zero(n: nat)
    ensures
        n == 0 <==> nearest(n, 1) == 0,
{
    lemma2_to64();
    lemma_mag_units_increase(0, 1);
    assert(mag_units(0) == 0 && mag_units(1) == 1);
    if n == 0 {
        crate::rounding::lemma_nearest_at(0, 0, 1);
    } else if nearest(n, 1) == 0 {
        if n < mag_units(INFINITE as nat) * 1 {
            lemma_bracket_exists(n, 1, INFINITE as nat);
            let k = choose|k: nat| brackets(k, n, 1);
            crate::rounding::lemma_nearest_at(k, n, 1);
            assert(k == 0);
            assert(mag_units(1) * 1 == 1);
        }
    }
}

/// Some magnitude brackets every quotient below that of `top`.
pub proof fn lemma_bracket_exists(num: nat, den: nat, top: nat)
    requires
        den > 0,
        num < mag_units(top) * den,
    ensures
        exists|k: nat| k < top && brackets(k, num, den),
    decreases top,
{
    if top == 0 {
        assert(mag_units(0) == 0);
        assert(0 * den == 0) by (nonlinear_arith);
    } else {
        let k = (top - 1) as nat;
        if num < mag_units(k) * den {
            lemma_bracket_exists(num, den, k);
            let j = choose|j: nat| j < k && brackets(j, num, den);
            assert(j < top && brackets(j, num, den));
        } else {
            assert(k < top && brackets(k, num, den));
        }
    }
}

impl Binary64 {
    /// The sum.
    pub fn plus(self, other: Binary64) -> (r: Binary64)
        ensures
            r == self.plus_spec(other),
    {
        proof {
            reveal(Binary64::plus_spec);
        }
        if self.is_nan() || other.is_nan() {
            return Binary64 { bits: QUIET_NAN };
        }
        if !self.is_finite() {
            if !other.is_finite() && self.is_negative() != other.is_negative() {
                return Binary64 { bits: QUIET_NAN };
            }
            return self;
        }
        if !other.is_finite() {
            return other;
        }
        let (ma, ea) = unpack(self.magnitude());
        let (mb, eb) = unpack(other.magnitude());
        let subtract: bool = self.is_negative() != other.is_negative();
        proof {
            lemma_finite_units(self);
            lemma_finite_units(other);
            lemma_nearest_zero(magnitude_of(self.units() + other.units()));
        }
        let (mag, outweighed, first_negative) = if ea >= eb {
            let c: (u64, bool) = combine(ma, ea, mb, eb, subtract);
            (c.0, c.1, self.is_negative())
        } else {
            let c: (u64, bool) = combine(mb, eb, ma, ea, subtract);
            (c.0, c.1, other.is_negative())
        };
        if mag == 0 {
            with_sign(self.is_negative() && other.is_negative(), 0)
        } else {
            with_sign(first_negative != outweighed, mag)
        }
    }

    /// The difference.
    pub fn minus(self, other: Binary64) -> (r: Binary64)
        ensures
            r == self.minus_spec(other),
    {
        self.plus(other.negated())
    }

    /// The product.
    pub fn times(self, other: Binary64) -> (r: Binary64)
        ensures
            r == self.times_spec(other),
    {
        proof {
            reveal(Binary64::times_spec);
        }
        let negative: bool = self.is_negative() != other.is_negative();
        let a: u64 = self.magnitude();
        let b: u64 = other.magnitude();
        if self.is_nan() || other.is_nan() {
            return Binary64 { bits: QUIET_NAN };
        }
        if !self.is_finite() || !other.is_finite() {
            if a == 0 || b == 0 {
                return Binary64 { bits: QUIET_NAN };
            }
            return with_sign(negative, INFINITE);
        }
        let (ma, ea) = unpack(a);
        let (mb, eb) = unpack(b);
        assert(ma * mb < 4 * HIDDEN * HIDDEN) by (nonlinear_arith)
            requires
                ma < 2 * HIDDEN,
                mb < 2 * HIDDEN,
        ;
        assert(ma * mb >= 0) by (nonlinear_arith);
        let m: u128 = (ma as u128) * (mb as u128);
        let e: i32 = ea as i32 + eb as i32 - UNIT_EXPONENT as i32;
        proof {
            let pa = pow2(ea as nat);
            let pb = pow2(eb as nat);
            let one = pow2(UNIT_EXPONENT as nat);
            let num = (ma * pa) as nat * (mb * pb) as nat;
            lemma_pow2_pos(UNIT_EXPONENT as nat);
            lemma_pow2_adds(ea as nat, eb as nat);
            let both = pow2((ea + eb) as nat);
            assert(num == m * both) by (nonlinear_arith)
                requires
                    num == (ma * pa) * (mb * pb),
                    m == ma * mb,
                    both == pa * pb,
            ;
            if e >= 0 {
                lemma_pow2_adds(e as nat, UNIT_EXPONENT as nat);
                lemma_pow2_pos(e as nat);
                let p = pow2(e as nat);
                assert(m * p * one == num * 1 && (m + 1) * p * one > num * 1) by (nonlinear_arith)
                    requires
                        num == m * both,
                        both == p * one,
                        p > 0,
                        one > 0,
                ;
            } else {
                lemma_pow2_adds((-e) as nat, (ea + eb) as nat);
                let q = pow2((-e) as nat);
                assert(m * 1 * one == num * q && (m + 1) * 1 * one > num * q) by (nonlinear_arith)
                    requires
                        num == m * both,
                        one == q * both,
                        one > 0,
                ;
            }
            assert(represents(m as nat, e as int, false, num, one));
            lemma_packed_nearest(m as nat, e as int, false, num, one);
        }
        with_sign(negative, pack(m, e, false))
    }
}

/// The same significand with 53 digits, and by how much it was shifted.
fn normalize(m: u64) -> (r: (u64, u32))
    requires
        0 < m < 2 * HIDDEN,
    ensures
        HIDDEN <= r.0 < 2 * HIDDEN,
        r.1 <= 52,
        r.0 == m * pow2(r.1 as nat),
{
    let len: u32 = digits(m as u128);
    proof {
        lemma2_to64();
        lemma2_to64_rest();
        lemma_bit_length(m as nat);
        lemma_bit_length_bound(m as nat, 53);
    }
    let d: u32 = 53 - len;
    proof {
        lemma_pow2_adds(len as nat, d as nat);
        lemma_pow2_adds((len - 1) as nat, d as nat);
        lemma_pow2_pos(d as nat);
        assert(m * pow2(d as nat) < pow2(len as nat) * pow2(d as nat)) by (nonlinear_arith)
            requires
                m < pow2(len as nat),
                pow2(d as nat) > 0,
        ;
        assert(m * pow2(d as nat) >= pow2((len - 1) as nat) * pow2(d as nat)) by (nonlinear_arith)
            requires
                m >= pow2((len - 1) as nat),
        ;
    }
    (((m as u128) * two_to(d)) as u64, d)
}

/// A long division of significands stands for the quotient of the numbers.
proof fn lemma_quotient(
    q: nat,
    t: nat,
    mb2: nat,
    ma: nat,
    ea: nat,
    la: nat,
    mb: nat,
    eb: nat,
    lb: nat,
    e: int,
)
    requires
        mb2 == mb * pow2(lb),
        t == ma * pow2(la) * pow2(64),
        q * mb2 <= t,
        t < (q + 1) * mb2,
        e + (eb + la + 64) == ea + UNIT_EXPONENT + lb,
        mb > 0,
    ensures
        represents(
            q,
            e,
            q * mb2 != t,
            ma * pow2(ea) * pow2(UNIT_EXPONENT as nat),
            mb * pow2(eb),
        ),
        mb * pow2(eb) > 0,
{
    let one = UNIT_EXPONENT as nat;
    let num = ma * pow2(ea) * pow2(one);
    let den = mb * pow2(eb);
    let a = if e >= 0 {
        pow2(e as nat)
    } else {
        1
    };
    let b = if e >= 0 {
        1
    } else {
        pow2((-e) as nat)
    };
    let left = pow2(eb + la + 64);
    let right = pow2(ea + one + lb);
    let w = pow2(lb) * (pow2(la) * pow2(64));
    let z = a * left;
    lemma_pow2_pos(lb);
    lemma_pow2_pos(la);
    lemma_pow2_pos(64);
    lemma_pow2_pos(eb);
    lemma_pow2_pos(eb + la + 64);
    if e >= 0 {
        lemma_pow2_pos(e as nat);
        lemma_pow2_adds(e as nat, eb + la + 64);
        assert(z == b * right) by (nonlinear_arith)
            requires
                z == a * left,
                right == a * left,
                b == 1,
        ;
    } else {
        lemma_pow2_pos((-e) as nat);
        lemma_pow2_adds((-e) as nat, ea + one + lb);
        assert(z == b * right) by (nonlinear_arith)
            requires
                z == a * left,
                left == b * right,
                a == 1,
        ;
    }
    lemma_pow2_adds(eb, la + 64);
    lemma_pow2_adds(la, 64);
    lemma_pow2_adds(ea + one, lb);
    lemma_pow2_adds(ea, one);
    assert(w > 0) by (nonlinear_arith)
        requires
            w == pow2(lb) * (pow2(la) * pow2(64)),
            pow2(lb) > 0,
            pow2(la) > 0,
            pow2(64) > 0,
    ;
    assert(z > 0) by (nonlinear_arith)
        requires
            z == a * left,
            a > 0,
            left > 0,
    ;
    assert(den > 0) by (nonlinear_arith)
        requires
            den == mb * pow2(eb),
            mb > 0,
            pow2(eb) > 0,
    ;
    let x = a * den;
    assert(x * w == mb2 * z) by {
        let pl = pow2(la) * pow2(64);
        assert(left == pow2(eb) * pl);
        assert(x * w == mb2 * z) by (nonlinear_arith)
            requires
                x == a * (mb * pow2(eb)),
                w == pow2(lb) * pl,
                mb2 == mb * pow2(lb),
                z == a * left,
                left == pow2(eb) * pl,
        ;
    }
    let y = num * b;
    assert(y * w == t * z) by {
        let pl = pow2(la) * pow2(64);
        let pr = pow2(ea) * pow2(one);
        assert(right == pr * pow2(lb));
        assert(t == ma * pl) by (nonlinear_arith)
            requires
                t == ma * pow2(la) * pow2(64),
                pl == pow2(la) * pow2(64),
        ;
        assert(num == ma * pr) by (nonlinear_arith)
            requires
                num == ma * pow2(ea) * pow2(one),
                pr == pow2(ea) * pow2(one),
        ;
        assert(y * w == t * z) by (nonlinear_arith)
            requires
                y == (ma * pr) * b,
                w == pow2(lb) * pl,
                t == ma * pl,
                z == b * right,
                right == pr * pow2(lb),
        ;
    }
    assert(q * a * den == q * x && (q + 1) * a * den == (q + 1) * x) by (nonlinear_arith)
        requires
            x == a * den,
    ;
    assert((q * x) * w == (q * mb2) * z) by (nonlinear_arith)
        requires
            x * w == mb2 * z,
    ;
    assert(((q + 1) * x) * w == ((q + 1) * mb2) * z) by (nonlinear_arith)
        requires
            x * w == mb2 * z,
    ;
    assert(q * x <= y) by (nonlinear_arith)
        requires
            (q * x) * w == (q * mb2) * z,
            y * w == t * z,
            q * mb2 <= t,
            w > 0,
            z > 0,
    ;
    assert(y < (q + 1) * x) by (nonlinear_arith)
        requires
            ((q + 1) * x) * w == ((q + 1) * mb2) * z,
            y * w == t * z,
            t < (q + 1) * mb2,
            w > 0,
            z > 0,
    ;
    assert(q * x == y <==> q * mb2 == t) by (nonlinear_arith)
        requires
            (q * x) * w == (q * mb2) * z,
            y * w == t * z,
            w > 0,
            z > 0,
    ;
}

/// The whole part of the square root.
fn whole_root(n: u128) -> (r: u64)
    requires
        n < 0x40_0000_0000_0000_0000_0000_0000_0000,
    ensures
        r * r <= n,
        n < (r + 1) * (r + 1),
        r < 0x800_0000_0000_0000,
{
    let mut r: u64 = 0;
    let mut width: u64 = 0x800_0000_0000_0000;
    assert(n < (0 + 0x800_0000_0000_0000) * (0 + 0x800_0000_0000_0000));
    let ghost mut j: nat = 59;
    proof {
        lemma2_to64();
        lemma2_to64_rest();
    }
    while width > 1
        invariant
            r * r <= n,
            n < (r + width) * (r + width),
            r + width <= 0x800_0000_0000_0000,
            width == pow2(j),
        decreases width,
    {
        proof {
            lemma2_to64();
            if j == 0 {
                assert(false);
            }
            lemma_pow2_unfold(j);
            lemma_pow2_pos((j - 1) as nat);
            j = (j - 1) as nat;
        }
        width = width / 2;
        let next: u64 = r + width;
        assert(next * next <= 0x800_0000_0000_0000 * 0x800_0000_0000_0000) by (nonlinear_arith)
            requires
                0 <= next <= 0x800_0000_0000_0000,
        ;
        assert(next * next >= 0) by (nonlinear_arith);
        if (next as u128) * (next as u128) <= n {
            r = next;
        }
    }
    r
}

impl Binary64 {
    /// The quotient.
    pub fn over(self, other: Binary64) -> (r: Binary64)
        ensures
            r == self.over_spec(other),
    {
        proof {
            reveal(Binary64::over_spec);
        }
        let negative: bool = self.is_negative() != other.is_negative();
        let a: u64 = self.magnitude();
        let b: u64 = other.magnitude();
        if self.is_nan() || other.is_nan() {
            return Binary64 { bits: QUIET_NAN };
        }
        if !self.is_finite() {
            if !other.is_finite() {
                return Binary64 { bits: QUIET_NAN };
            }
            return with_sign(negative, INFINITE);
        }
        if !other.is_finite() {
            return with_sign(negative, 0);
        }
        if b == 0 {
            if a == 0 {
                return Binary64 { bits: QUIET_NAN };
            }
            return with_sign(negative, INFINITE);
        }
        let (ma, ea) = unpack(a);
        let (mb, eb) = unpack(b);
        let ghost num = mag_units(a as nat) * pow2(UNIT_EXPONENT as nat);
        let ghost den = mag_units(b as nat);
        if ma == 0 {
            proof {
                lemma_mag_units_increase(0, b as nat);
                assert(mag_units(0) == 0);
                assert(num == 0) by (nonlinear_arith)
                    requires
                        num == 0 * pow2(UNIT_EXPONENT as nat),
                ;
                lemma_mag_units_increase(0, 1);
                assert(mag_units(0) * den == 0 && mag_units(1) * den > 0) by (nonlinear_arith)
                    requires
                        mag_units(0) == 0,
                        mag_units(1) > 0,
                        den > 0,
                ;
                crate::rounding::lemma_nearest_at(0, num, den);
            }
            return with_sign(negative, 0);
        }
        let (ma2, la) = normalize(ma);
        let (mb2, lb) = normalize(mb);
        proof {
            lemma2_to64();
            lemma2_to64_rest();
        }
        let t: u128 = (ma2 as u128) * 0x1_0000_0000_0000_0000u128;
        let q: u128 = t / (mb2 as u128);
        let left_over: u128 = t % (mb2 as u128);
        let e: i32 = ea as i32 + UNIT_EXPONENT as i32 + lb as i32 - eb as i32 - la as i32 - 64;
        proof {
            vstd::arithmetic::div_mod::lemma_fundamental_div_mod(t as int, mb2 as int);
            assert(t == q * mb2 + left_over) by (nonlinear_arith)
                requires
                    t == mb2 * q + left_over,
            ;
            assert((q + 1) * mb2 == q * mb2 + mb2) by (nonlinear_arith);
            assert(q >= pow2(53)) by (nonlinear_arith)
                requires
                    t == q * mb2 + left_over,
                    left_over < mb2,
                    mb2 < 2 * HIDDEN,
                    t >= HIDDEN * 0x1_0000_0000_0000_0000,
                    pow2(53) == 2 * HIDDEN,
            ;
            assert(q <= t) by (nonlinear_arith)
                requires
                    t == q * mb2 + left_over,
                    left_over >= 0,
                    mb2 >= 1,
                    q >= 0,
            ;
            lemma_quotient(
                q as nat,
                t as nat,
                mb2 as nat,
                ma as nat,
                ea as nat,
                la as nat,
                mb as nat,
                eb as nat,
                lb as nat,
                e as int,
            );
            lemma_packed_nearest(q as nat, e as int, left_over != 0, num, den);
        }
        with_sign(negative, pack(q, e, left_over != 0))
    }

    /// The square root.
    pub fn root(self) -> (r: Binary64)
        ensures
            r == self.root_spec(),
    {
        proof {
            reveal(Binary64::root_spec);
        }
        let a: u64 = self.magnitude();
        if self.is_nan() || (self.is_negative() && a > 0) {
            return Binary64 { bits: QUIET_NAN };
        }
        if a == 0 || !self.is_finite() {
            return self;
        }
        let (ma, ea) = unpack(a);
        let (m2, la) = normalize(ma);
        let x: u32 = ea + UNIT_EXPONENT - la;
        let k: u32 = if x % 2 == 0 {
            64
        } else {
            65
        };
        proof {
            lemma2_to64();
            lemma2_to64_rest();
            lemma_pow2_unfold(65);
            assert(HIDDEN * 0x1_0000_0000_0000_0000 <= m2 * pow2(k as nat)
                < 0x40_0000_0000_0000_0000_0000_0000_0000) by (nonlinear_arith)
                requires
                    HIDDEN <= m2 < 2 * HIDDEN,
                    0x1_0000_0000_0000_0000 <= pow2(k as nat) <= 0x2_0000_0000_0000_0000,
            ;
        }
        let m: u128 = (m2 as u128) * two_to(k);
        let f: u32 = (x - k) / 2;
        let r: u64 = whole_root(m);
        let square: u128 = (r as u128) * (r as u128);
        proof {
            let n = mag_units(a as nat) * pow2(UNIT_EXPONENT as nat);
            let p = pow2(f as nat);
            lemma_pow2_adds(f as nat, f as nat);
            lemma_pow2_adds(k as nat, (f + f) as nat);
            lemma_pow2_adds(la as nat, x as nat);
            lemma_pow2_adds(ea as nat, UNIT_EXPONENT as nat);
            lemma_pow2_pos(f as nat);
            let px = pow2(x as nat);
            assert(n == m2 * px) by {
                let pl = pow2(la as nat);
                let pe = pow2(ea as nat);
                let one = pow2(UNIT_EXPONENT as nat);
                assert(pl * px == pe * one);
                assert(n == m2 * px) by (nonlinear_arith)
                    requires
                        n == (ma * pe) * one,
                        m2 == ma * pl,
                        pl * px == pe * one,
                ;
            }
            assert(n == m * (p * p)) by (nonlinear_arith)
                requires
                    n == m2 * px,
                    m == m2 * pow2(k as nat),
                    px == pow2(k as nat) * (p * p),
            ;
            assert((r * p) * (r * p) == square * (p * p)) by (nonlinear_arith)
                requires
                    square == r * r,
            ;
            assert(((r + 1) * p) * ((r + 1) * p) == ((r + 1) * (r + 1)) * (p * p))
                by (nonlinear_arith);
            let pp = p * p;
            assert(pp > 0) by (nonlinear_arith)
                requires
                    pp == p * p,
                    p > 0,
            ;
            assert(square * pp <= m * pp && m * pp < ((r + 1) * (r + 1)) * pp && (square * pp == m
                * pp <==> square == m)) by (nonlinear_arith)
                requires
                    pp > 0,
                    square <= m,
                    m < (r + 1) * (r + 1),
            ;
            assert(r >= pow2(53)) by (nonlinear_arith)
                requires
                    m < (r + 1) * (r + 1),
                    m >= HIDDEN * 0x1_0000_0000_0000_0000,
                    pow2(53) == 2 * HIDDEN,
            ;
            lemma_packed_nearest_root(r as nat, f as nat, square != m, n);
            lemma_bit_length_bound(r as nat, 59);
            lemma_bit_length_reach(r as nat, 53);
            lemma_root_is_finite(r as nat, f as nat, square != m);
        }
        with_sign(false, pack(r as u128, f as i32, square != m))
    }
}

/// The packed root stays below the infinite magnitude.
proof fn lemma_root_is_finite(r: nat, f: nat, sticky: bool)
    requires
        53 < bit_length(r) <= 59,
        r > 0,
        f <= 1600,
    ensures
        packed(r, f as int, sticky) < INFINITE,
{
    let s = (bit_length(r) - 53) as nat;
    lemma2_to64();
    lemma2_to64_rest();
    lemma_bit_length(r);
    lemma_pow2_adds(53, s);
    lemma_pow2_pos(s);
    let q = r / pow2(s);
    vstd::arithmetic::div_mod::lemma_fundamental_div_mod(r as int, pow2(s) as int);
    assert(q <= pow2(53)) by (nonlinear_arith)
        requires
            r == pow2(s) * q + r % pow2(s),
            r % pow2(s) >= 0,
            r < pow2(53) * pow2(s),
            pow2(s) > 0,
    ;
}

impl Binary64 {
    /// The nearest double to the quotient of two whole numbers, as a decimal fraction denotes it.
    pub open spec fn ratio(n: int, d: int) -> Binary64 {
        Self::whole(n).over_spec(Self::whole(d))
    }

    /// A whole number.
    pub fn from_whole(n: i64) -> (r: Binary64)
        ensures
            r == Self::whole(n as int),
    {
        proof {
            reveal(Binary64::whole);
        }
        let m: u128 = if n < 0 {
            (-(n as i128)) as u128
        } else {
            n as u128
        };
        proof {
            lemma_whole_packed(m as nat);
        }
        with_sign(n < 0, pack(m, UNIT_EXPONENT as i32, false))
    }

    /// A whole number without a sign.
    pub fn from_natural(n: u64) -> (r: Binary64)
        ensures
            r == Self::whole(n as int),
    {
        proof {
            reveal(Binary64::whole);
        }
        proof {
            lemma_whole_packed(n as nat);
        }
        with_sign(false, pack(n as u128, UNIT_EXPONENT as i32, false))
    }

    /// A count.
    pub fn from_count(n: usize) -> (r: Binary64)
        ensures
            r == Self::whole(n as int),
    {
        Self::from_natural(n as u64)
    }

    /// A decimal fraction, `n / d`.
    pub fn from_ratio(n: i64, d: i64) -> (r: Binary64)
        ensures
            r == Self::ratio(n as int, d as int),
    {
        Self::from_whole(n).over(Self::from_whole(d))
    }
}

impl Binary64 {
    /// Greater than a whole number.
    pub open spec fn above(self, n: int) -> bool {
        Self::whole(n).less(self)
    }

    /// Less than a whole number.
    pub open spec fn below(self, n: int) -> bool {
        self.less(Self::whole(n))
    }

    /// At least a whole number.
    pub open spec fn reaches(self, n: int) -> bool {
        Self::whole(n).at_most(self)
    }

    /// Whether this is greater than a whole number.
    pub fn is_above(self, n: i64) -> (r: bool)
        ensures
            r == self.above(n as int),
    {
        Self::from_whole(n).is_less(self)
    }

    /// Whether this is less than a whole number.
    pub fn is_below(self, n: i64) -> (r: bool)
        ensures
            r == self.below(n as int),
    {
        self.is_less(Self::from_whole(n))
    }

    /// Whether this is at least a whole number.
    pub fn is_reaching(self, n: i64) -> (r: bool)
        ensures
            r == self.reaches(n as int),
    {
        Self::from_whole(n).is_at_most(self)
    }
}

proof fn lemma_whole_packed(m: nat)
    ensures
        nearest(m * pow2(UNIT_EXPONENT as nat), 1) == (if packed(m, UNIT_EXPONENT as int, false)
            >= INFINITE {
            INFINITE as int
        } else {
            packed(m, UNIT_EXPONENT as int, false)
        }),
{
    let p = pow2(UNIT_EXPONENT as nat);
    lemma_pow2_pos(UNIT_EXPONENT as nat);
    assert(m * p * 1 == (m * p) * 1 && (m + 1) * p * 1 > (m * p) * 1) by (nonlinear_arith)
        requires
            p > 0,
    ;
    assert(represents(m, UNIT_EXPONENT as int, false, m * p, 1));
    lemma_packed_nearest(m, UNIT_EXPONENT as int, false, m * p, 1);
}

/// A double is the nearest double to its own value.
pub proof fn nearest_of_a_double(m: nat, den: nat)
    requires
        m < INFINITE,
        den > 0,
    ensures
        nearest(mag_units(m) * den, den) == m,
{
    lemma_mag_units_increase(m, m + 1);
    assert(mag_units(m) * den < mag_units(m + 1) * den) by (nonlinear_arith)
        requires
            mag_units(m) < mag_units(m + 1),
            den > 0,
    ;
    crate::rounding::lemma_nearest_at(m, mag_units(m) * den, den);
}

/// A whole number of at most 53 binary digits is represented exactly.
pub proof fn small_wholes_are_exact(n: int)
    requires
        -(2 * HIDDEN) < n < 2 * HIDDEN,
    ensures
        Binary64::whole(n).finite(),
        Binary64::whole(n).units() == n * pow2(UNIT_EXPONENT as nat),
{
    reveal(Binary64::whole);
    let m = magnitude_of(n);
    let one = pow2(UNIT_EXPONENT as nat);
    lemma2_to64();
    lemma2_to64_rest();
    lemma_whole_packed(m);
    if m == 0 {
        assert(m * one == 0) by (nonlinear_arith)
            requires
                m == 0,
        ;
        assert(n * one == 0) by (nonlinear_arith)
            requires
                n == 0,
        ;
        assert(Binary64::whole(n).mag() == 0);
    } else {
        lemma_bit_length_bound(m, 53);
        lemma_bit_length(m);
        crate::rounding::lemma_packed_exact(m, UNIT_EXPONENT as int, false);
        let k = packed(m, UNIT_EXPONENT as int, false);
        let d = (53 - bit_length(m)) as nat;
        lemma_pow2_adds(bit_length(m), d);
        lemma_pow2_pos(d);
        assert(m * pow2(d) < pow2(bit_length(m)) * pow2(d)) by (nonlinear_arith)
            requires
                m < pow2(bit_length(m)),
                pow2(d) > 0,
        ;
        assert(k < INFINITE);
        assert(Binary64::whole(n).mag() == k);
        if n < 0 {
            assert(-(m * one) == n * one) by (nonlinear_arith)
                requires
                    m == -n,
            ;
        }
    }
}

/// Addition does not depend on the order of its two operands.
pub proof fn addition_commutes(a: Binary64, b: Binary64)
    ensures
        a.plus_spec(b) == b.plus_spec(a),
{
    reveal(Binary64::plus_spec);
    lemma_infinite_bits(a);
    lemma_infinite_bits(b);
}

/// Two infinities of one sign have one bit pattern.
proof fn lemma_infinite_bits(a: Binary64)
    ensures
        !a.nan() && !a.finite() ==> a == signed(a.sign(), INFINITE as nat),
{
}

/// Multiplication does not depend on the order of its two operands.
pub proof fn multiplication_commutes(a: Binary64, b: Binary64)
    ensures
        a.times_spec(b) == b.times_spec(a),
{
    reveal(Binary64::times_spec);
    assert(mag_units(a.mag()) * mag_units(b.mag()) == mag_units(b.mag()) * mag_units(a.mag()))
        by (nonlinear_arith);
}

/// A sum that a double can hold is exact.
pub proof fn representable_sums_are_exact(a: Binary64, b: Binary64, c: Binary64)
    requires
        a.finite(),
        b.finite(),
        c.finite(),
        a.units() + b.units() == c.units(),
    ensures
        a.plus_spec(b).units() == c.units(),
        a.plus_spec(b).finite(),
{
    reveal(Binary64::plus_spec);
    lemma_finite_units(c);
    nearest_of_a_double(c.mag(), 1);
    assert(mag_units(c.mag()) * 1 == mag_units(c.mag()));
}

/// A number less itself is zero.
pub proof fn difference_with_itself_is_zero(a: Binary64)
    requires
        a.finite(),
    ensures
        a.minus_spec(a).units() == 0,
{
    reveal(Binary64::plus_spec);
    lemma_finite_units(a);
    lemma_finite_units(a.minus_spec(a));
}

/// The nearest magnitude is not beyond the infinite one.
pub proof fn lemma_nearest_is_a_magnitude(num: nat, den: nat)
    requires
        den > 0,
    ensures
        nearest(num, den) <= INFINITE,
{
    if num < mag_units(INFINITE as nat) * den {
        lemma_bracket_exists(num, den, INFINITE as nat);
        let k = choose|k: nat| brackets(k, num, den);
        if k >= INFINITE {
            if k > INFINITE {
                lemma_mag_units_increase(INFINITE as nat, k);
            }
            assert(mag_units(k) * den >= mag_units(INFINITE as nat) * den) by (nonlinear_arith)
                requires
                    mag_units(k) >= mag_units(INFINITE as nat),
                    den > 0,
            ;
        }
    }
}

/// A product is negative where one of its factors is and the other is not, unless it is not a
/// number.
pub proof fn signs_multiply(a: Binary64, b: Binary64)
    ensures
        a.times_spec(b).nan() || a.times_spec(b).sign() == (a.sign() != b.sign()),
{
    reveal(Binary64::times_spec);
    lemma_pow2_pos(UNIT_EXPONENT as nat);
    lemma_nearest_is_a_magnitude(
        mag_units(a.mag()) * mag_units(b.mag()),
        pow2(UNIT_EXPONENT as nat),
    );
}

/// The double nearest to a whole number is a number of the same sign.
pub proof fn wholes_carry_their_sign(n: int)
    ensures
        Binary64::whole(n).sign() == (n < 0),
        !Binary64::whole(n).nan(),
{
    reveal(Binary64::whole);
    lemma_nearest_is_a_magnitude(magnitude_of(n) * pow2(UNIT_EXPONENT as nat), 1);
}

/// A number without a sign bit is not below zero, and one with it is not above.
pub proof fn signs_tell_the_side_of_zero(a: Binary64)
    ensures
        !a.sign() ==> !a.below(0),
        a.sign() ==> !a.above(0),
{
    small_wholes_are_exact(0);
    assert(0 * pow2(UNIT_EXPONENT as nat) == 0) by (nonlinear_arith);
}

} // verus!
