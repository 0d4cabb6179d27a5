//! IEEE 754 double-precision numbers, carried by their bit patterns.
//!
//! A finite value is a whole number of *units*, a unit being the smallest positive
//! double, 2^-1074. Every operation is specified over those whole numbers, so the
//! result of a comparison or of an arithmetic operation is the same on every machine.

use vstd::arithmetic::power2::*;
use vstd::prelude::*;

verus! {

/// The sign bit.
pub const SIGN_BIT: u64 = 0x8000_0000_0000_0000;

/// The magnitude (all bits but the sign) of an infinity; a larger one is not a number.
pub const INFINITE: u64 = 0x7ff0_0000_0000_0000;

/// The weight of the implicit leading digit of a normal significand, 2^52.
pub const HIDDEN: u64 = 0x10_0000_0000_0000;

/// A double-precision number, by its bit pattern.
#[derive(Clone, Copy, Debug)]
pub struct Binary64 {
    pub bits: u64,
}

/// How many units the magnitude `m` stands for.
///
/// The formula goes on past the largest finite magnitude: an infinity counts as 2^1024.
pub open spec fn mag_units(m: nat) -> nat {
    let field = m / (HIDDEN as nat);
    let fraction = m % (HIDDEN as nat);
    if field == 0 {
        fraction
    } else {
        ((HIDDEN + fraction) * pow2((field - 1) as nat)) as nat
    }
}

impl Binary64 {
    /// All bits but the sign.
    pub open spec fn mag(self) -> nat {
        if self.bits < SIGN_BIT {
            self.bits as nat
        } else {
            (self.bits - SIGN_BIT) as nat
        }
    }

    /// The sign bit is set (as in the negative zero).
    pub open spec fn sign(self) -> bool {
        self.bits >= SIGN_BIT
    }

    /// Not a number.
    pub open spec fn nan(self) -> bool {
        self.mag() > INFINITE
    }

    /// Neither infinite nor "not a number".
    pub open spec fn finite(self) -> bool {
        self.mag() < INFINITE
    }

    /// The value in units of 2^-1074.
    pub open spec fn units(self) -> int {
        if self.sign() {
            -(mag_units(self.mag()) as int)
        } else {
            mag_units(self.mag()) as int
        }
    }

    /// `self` is less than `other` as a number.
    pub open spec fn less(self, other: Binary64) -> bool {
        !self.nan() && !other.nan() && self.units() < other.units()
    }

    /// `self` is at most `other` as a number.
    pub open spec fn at_most(self, other: Binary64) -> bool {
        !self.nan() && !other.nan() && self.units() <= other.units()
    }

    /// The same magnitude without the sign.
    pub open spec fn abs_spec(self) -> Binary64 {
        Binary64 { bits: self.mag() as u64 }
    }

    /// The same magnitude with the other sign.
    pub open spec fn negated_spec(self) -> Binary64 {
        Binary64 {
            bits: (if self.sign() {
                self.mag() as int
            } else {
                self.mag() + SIGN_BIT
            }) as u64,
        }
    }

    /// The smaller of the two.
    pub open spec fn min_spec(self, other: Binary64) -> Binary64 {
        if self.nan() || other.less(self) {
            other
        } else {
            self
        }
    }

    /// The larger of the two.
    pub open spec fn max_spec(self, other: Binary64) -> Binary64 {
        if self.nan() || self.less(other) {
            other
        } else {
            self
        }
    }

    /// The place in the order of all numbers.
    pub open spec fn key(self) -> int {
        if self.nan() {
            0
        } else if self.sign() {
            SIGN_BIT - self.mag()
        } else {
            SIGN_BIT + self.mag()
        }
    }
}

/// The significand `q` at exponent `e`, packed, stands for `q * 2^e` units.
pub proof fn lemma_packed_units(e: nat, q: nat)
    requires
        q <= 2 * HIDDEN,
        q >= HIDDEN || e == 0,
    ensures
        mag_units((e * HIDDEN + q) as nat) == q * pow2(e),
{
    lemma2_to64();
    let h = HIDDEN as int;
    let m = e * h + q;
    if q < h {
        assert(m == q);
        assert(m / h == 0 && m % h == q);
        assert(q * pow2(0) == q) by (nonlinear_arith)
            requires
                pow2(0) == 1,
        ;
    } else if q < 2 * h {
        assert(m == (e + 1) * h + (q - h)) by (nonlinear_arith)
            requires
                m == e * h + q,
        ;
        vstd::arithmetic::div_mod::lemma_fundamental_div_mod_converse(m, h, e as int + 1, q - h);
    } else {
        assert(m == (e + 2) * h) by (nonlinear_arith)
            requires
                m == e * h + q,
                q == 2 * h,
        ;
        vstd::arithmetic::div_mod::lemma_fundamental_div_mod_converse(m, h, e as int + 2, 0);
        lemma_pow2_unfold((e + 1) as nat);
        assert(h * (2 * pow2(e)) == (2 * h) * pow2(e)) by (nonlinear_arith);
    }
}

/// A larger magnitude is a larger number.
pub proof fn lemma_mag_units_increase(a: nat, b: nat)
    requires
        a < b,
    ensures
        mag_units(a) < mag_units(b),
{
    let h = HIDDEN as int;
    let ea = (a as int) / h;
    let fa = (a as int) % h;
    let eb = (b as int) / h;
    let fb = (b as int) % h;
    assert(a == ea * h + fa && b == eb * h + fb);
    assert(ea <= eb) by (nonlinear_arith)
        requires
            ea * h + fa < eb * h + fb,
            0 <= fa < h,
            0 <= fb < h,
            h > 0,
    ;
    if ea == eb {
        if ea > 0 {
            let p = pow2((ea - 1) as nat) as int;
            lemma_pow2_pos((ea - 1) as nat);
            assert((h + fa) * p < (h + fb) * p) by (nonlinear_arith)
                requires
                    fa < fb,
                    p > 0,
            ;
        }
    } else {
        let pb = pow2((eb - 1) as nat) as int;
        lemma_pow2_pos((eb - 1) as nat);
        assert((h + fb) * pb >= h * pb) by (nonlinear_arith)
            requires
                fb >= 0,
                pb > 0,
        ;
        if ea == 0 {
            assert(h * pb >= h) by (nonlinear_arith)
                requires
                    pb >= 1,
                    h > 0,
            ;
        } else {
            let pa = pow2((ea - 1) as nat) as int;
            lemma_pow2_pos((ea - 1) as nat);
            lemma_pow2_unfold(ea as nat);
            if ea < eb - 1 {
                lemma_pow2_strictly_increases(ea as nat, (eb - 1) as nat);
            }
            assert(2 * pa <= pb);
            assert((h + fa) * pa < h * pb) by (nonlinear_arith)
                requires
                    0 <= fa < h,
                    0 < pa,
                    2 * pa <= pb,
            ;
        }
    }
}

impl Binary64 {
    /// The magnitude.
    pub fn magnitude(self) -> (r: u64)
        ensures
            r == self.mag(),
            r < SIGN_BIT,
    {
        if self.bits < SIGN_BIT {
            self.bits
        } else {
            self.bits - SIGN_BIT
        }
    }

    /// Whether the sign bit is set.
    pub fn is_negative(self) -> (r: bool)
        ensures
            r == self.sign(),
    {
        self.bits >= SIGN_BIT
    }

    /// Whether this is not a number.
    pub fn is_nan(self) -> (r: bool)
        ensures
            r == self.nan(),
    {
        self.magnitude() > INFINITE
    }

    /// Whether this is a finite number.
    pub fn is_finite(self) -> (r: bool)
        ensures
            r == self.finite(),
    {
        self.magnitude() < INFINITE
    }

    /// The number without its sign.
    pub fn abs(self) -> (r: Binary64)
        ensures
            r == self.abs_spec(),
    {
        Binary64 { bits: self.magnitude() }
    }

    /// The number with the other sign.
    pub fn negated(self) -> (r: Binary64)
        ensures
            r == self.negated_spec(),
    {
        if self.bits < SIGN_BIT {
            Binary64 { bits: self.bits + SIGN_BIT }
        } else {
            Binary64 { bits: self.bits - SIGN_BIT }
        }
    }

    /// Whether `self < other`; nothing is less than, or greater than, what is not a number.
    pub fn is_less(self, other: Binary64) -> (r: bool)
        ensures
            r == self.less(other),
    {
        proof {
            lemma_key_order(self, other);
        }
        if self.is_nan() || other.is_nan() {
            return false;
        }
        let a: u64 = self.magnitude();
        let b: u64 = other.magnitude();
        if self.is_negative() {
            if other.is_negative() {
                b < a
            } else {
                a > 0 || b > 0
            }
        } else {
            !other.is_negative() && a < b
        }
    }

    /// Whether `self <= other`.
    pub fn is_at_most(self, other: Binary64) -> (r: bool)
        ensures
            r == self.at_most(other),
    {
        !self.is_nan() && !other.is_nan() && !other.is_less(self)
    }

    /// The smaller of the two; the other one where one is not a number.
    pub fn min(self, other: Binary64) -> (r: Binary64)
        ensures
            r == self.min_spec(other),
    {
        if self.is_nan() {
            other
        } else if other.is_less(self) {
            other
        } else {
            self
        }
    }

    /// The larger of the two; the other one where one is not a number.
    pub fn max(self, other: Binary64) -> (r: Binary64)
        ensures
            r == self.max_spec(other),
    {
        if self.is_nan() {
            other
        } else if self.is_less(other) {
            other
        } else {
            self
        }
    }

    /// The place in the order of all numbers, least first; what is not a number comes before
    /// every number, and the two zeros share one place.
    pub fn sort_key(self) -> (r: u64)
        ensures
            r == self.key(),
    {
        if self.is_nan() {
            0
        } else if self.is_negative() {
            SIGN_BIT - self.magnitude()
        } else {
            SIGN_BIT + self.magnitude()
        }
    }
}

/// The signed magnitudes are in the order of the numbers.
pub proof fn lemma_key_order(a: Binary64, b: Binary64)
    ensures
        !a.nan() && !b.nan() ==> (a.less(b) <==> a.key() < b.key()),
        !a.nan() && !b.nan() ==> (a.units() == b.units() <==> a.key() == b.key()),
        a.nan() && !b.nan() ==> a.key() < b.key(),
        mag_units(0) == 0,
        a.mag() > 0 ==> mag_units(a.mag()) > 0,
        b.mag() > 0 ==> mag_units(b.mag()) > 0,
        a.mag() < b.mag() ==> mag_units(a.mag()) < mag_units(b.mag()),
        b.mag() < a.mag() ==> mag_units(b.mag()) < mag_units(a.mag()),
{
    if a.mag() > 0 {
        lemma_mag_units_increase(0, a.mag());
    }
    if b.mag() > 0 {
        lemma_mag_units_increase(0, b.mag());
    }
    if a.mag() < b.mag() {
        lemma_mag_units_increase(a.mag(), b.mag());
    } else if b.mag() < a.mag() {
        lemma_mag_units_increase(b.mag(), a.mag());
    }
}

} // verus!
