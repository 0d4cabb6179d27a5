//! Rounding to the nearest double, ties to the even significand.

use crate::binary64::{lemma_mag_units_increase, lemma_packed_units, mag_units, HIDDEN, INFINITE};
use vstd::arithmetic::power2::*;
use vstd::prelude::*;

verus! {

/// The quotient `num / den` lies at the magnitude `k` or between it and the next one.
pub open spec fn brackets(k: nat, num: nat, den: nat) -> bool {
    mag_units(k) * den <= num && num < mag_units(k + 1) * den
}

/// The magnitude nearest to `num / den` units; of two equally near, the even one.
/// From the middle between the largest finite magnitude and 2^1024 on, it is infinite.
pub open spec fn nearest(num: nat, den: nat) -> nat {
    if num >= mag_units(INFINITE as nat) * den {
        INFINITE as nat
    } else {
        let k = choose|k: nat| brackets(k, num, den);
        let below = num - mag_units(k) * den;
        let above = mag_units(k + 1) * den - num;
        if below < above || (below == above && k % 2 == 0) {
            k
        } else {
            k + 1
        }
    }
}

/// The square root of `n` lies at the magnitude `k` or between it and the next one.
pub open spec fn brackets_root(k: nat, n: nat) -> bool {
    mag_units(k) * mag_units(k) <= n && n < mag_units(k + 1) * mag_units(k + 1)
}

/// The magnitude nearest to the square root of `n`, in units.
pub open spec fn nearest_root(n: nat) -> nat {
    let k = choose|k: nat| brackets_root(k, n);
    let twice_middle = mag_units(k) + mag_units(k + 1);
    if 4 * n < twice_middle * twice_middle || (4 * n == twice_middle * twice_middle && k % 2 == 0) {
        k
    } else {
        k + 1
    }
}

/// How many binary digits `m` has.
pub open spec fn bit_length(m: nat) -> nat
    decreases m,
{
    if m == 0 {
        0
    } else {
        1 + bit_length(m / 2)
    }
}

/// How far `m` is shifted to the right to become a significand when it counts 2^e units.
pub open spec fn shift_for(m: nat, e: int) -> int {
    if bit_length(m) - 53 >= -e {
        bit_length(m) - 53
    } else {
        -e
    }
}

/// How far a short significand is shifted to the left.
pub open spec fn widening_for(m: nat, e: int) -> int {
    if 53 - bit_length(m) <= e {
        53 - bit_length(m)
    } else {
        e
    }
}

/// `q` out of `m` by a shift of `s` is rounded up: more than a half was lost, or a half and
/// either more below it or an odd `q`.
pub open spec fn rounds_up(m: nat, s: nat, sticky: bool) -> bool {
    let q = m / pow2(s);
    let lost = m % pow2(s);
    2 * lost > pow2(s) || (2 * lost == pow2(s) && (sticky || q % 2 == 1))
}

/// The magnitude before it is cut at the infinite one.
pub open spec fn packed(m: nat, e: int, sticky: bool) -> int {
    let s = shift_for(m, e);
    if m == 0 {
        0
    } else if s <= 0 {
        let d = widening_for(m, e);
        (e - d) * HIDDEN + m * pow2(d as nat)
    } else {
        (e + s) * HIDDEN + m / pow2(s as nat) + (if rounds_up(m, s as nat, sticky) {
            1int
        } else {
            0int
        })
    }
}

/// `num / den` is `m * 2^e`, or, where `sticky`, strictly between that and `(m + 1) * 2^e`.
pub open spec fn represents(m: nat, e: int, sticky: bool, num: nat, den: nat) -> bool {
    let a = if e >= 0 {
        pow2(e as nat)
    } else {
        1
    };
    let b = if e >= 0 {
        1
    } else {
        pow2((-e) as nat)
    };
    &&& m * a * den <= num * b
    &&& num * b < (m + 1) * a * den
    &&& sticky <==> m * a * den != num * b
}

pub proof fn lemma_bit_length(m: nat)
    requires
        m > 0,
    ensures
        bit_length(m) > 0,
        pow2((bit_length(m) - 1) as nat) <= m < pow2(bit_length(m)),
    decreases m,
{
    lemma2_to64();
    if m > 1 {
        lemma_bit_length(m / 2);
        lemma_pow2_unfold(bit_length(m));
        lemma_pow2_unfold((bit_length(m) - 1) as nat);
    } else {
        assert(bit_length(1) == 1) by {
            reveal_with_fuel(bit_length, 2);
        }
    }
}

proof fn lemma_bit_length_byte(m: nat)
    requires
        m >= 256,
    ensures
        bit_length(m) == 8 + bit_length(m / 256),
{
    reveal_with_fuel(bit_length, 9);
    assert(m / 2 / 2 / 2 / 2 / 2 / 2 / 2 / 2 == m / 256);
}

/// A bound on a number bounds its length.
pub proof fn lemma_bit_length_bound(m: nat, n: nat)
    requires
        m < pow2(n),
    ensures
        bit_length(m) <= n,
{
    if m > 0 {
        lemma_bit_length(m);
        if bit_length(m) > n {
            if bit_length(m) - 1 > n {
                lemma_pow2_strictly_increases(n, (bit_length(m) - 1) as nat);
            }
        }
    }
}

/// A number that reaches 2^n has more than `n` digits.
pub proof fn lemma_bit_length_reach(m: nat, n: nat)
    requires
        m >= pow2(n),
    ensures
        bit_length(m) > n,
{
    lemma_pow2_pos(n);
    lemma_bit_length(m);
    if bit_length(m) <= n {
        if bit_length(m) < n {
            lemma_pow2_strictly_increases(bit_length(m), n);
        }
    }
}

/// Only one magnitude brackets a quotient.
pub proof fn lemma_nearest_at(k: nat, num: nat, den: nat)
    requires
        den > 0,
        brackets(k, num, den),
    ensures
        k >= INFINITE ==> nearest(num, den) == INFINITE,
        k < INFINITE ==> nearest(num, den) == ({
            let below = num - mag_units(k) * den;
            let above = mag_units(k + 1) * den - num;
            if below < above || (below == above && k % 2 == 0) {
                k
            } else {
                k + 1
            }
        }),
{
    let inf = INFINITE as nat;
    if k >= inf {
        if k > inf {
            lemma_mag_units_increase(inf, k);
        }
        assert(mag_units(inf) * den <= mag_units(k) * den) by (nonlinear_arith)
            requires
                mag_units(inf) <= mag_units(k),
                den > 0,
        ;
    } else {
        if k + 1 < inf {
            lemma_mag_units_increase(k + 1, inf);
        }
        assert(mag_units(k + 1) * den <= mag_units(inf) * den) by (nonlinear_arith)
            requires
                mag_units(k + 1) <= mag_units(inf),
                den > 0,
        ;
        let j = choose|j: nat| brackets(j, num, den);
        assert(brackets(j, num, den));
        if j != k {
            let (lo, hi) = if j < k {
                (j, k)
            } else {
                (k, j)
            };
            if lo + 1 < hi {
                lemma_mag_units_increase(lo + 1, hi);
            }
            assert(mag_units(lo + 1) * den <= mag_units(hi) * den) by (nonlinear_arith)
                requires
                    mag_units(lo + 1) <= mag_units(hi),
                    den > 0,
            ;
            assert(false);
        }
    }
}

/// Only one magnitude brackets a square root.
pub proof fn lemma_nearest_root_at(k: nat, n: nat)
    requires
        brackets_root(k, n),
    ensures
        nearest_root(n) == ({
            let twice_middle = mag_units(k) + mag_units(k + 1);
            if 4 * n < twice_middle * twice_middle || (4 * n == twice_middle * twice_middle && k % 2
                == 0) {
                k
            } else {
                k + 1
            }
        }),
{
    let j = choose|j: nat| brackets_root(j, n);
    assert(brackets_root(j, n));
    if j != k {
        let (lo, hi) = if j < k {
            (j, k)
        } else {
            (k, j)
        };
        if lo + 1 < hi {
            lemma_mag_units_increase(lo + 1, hi);
        }
        let x = mag_units(lo + 1);
        let y = mag_units(hi);
        assert(x * x <= y * y) by (nonlinear_arith)
            requires
                x <= y,
        ;
        assert(false);
    }
}

/// What a shift by `ps` keeps and loses, seen from the number that is rounded: `num` counts
/// in steps of `x / b`, and a step of the shifted number is `v`.
proof fn lemma_shifted(
    m: int,
    q: int,
    lost: int,
    half: int,
    x: int,
    v: int,
    b: int,
    num: int,
)
    requires
        m == q * (2 * half) + lost,
        0 <= q,
        0 <= lost < 2 * half,
        v * b == (2 * half) * x,
        b > 0,
        x > 0,
        m * x <= num * b,
        num * b < (m + 1) * x,
    ensures
        q * v <= num,
        num < (q + 1) * v,
        lost < half ==> 2 * num < (2 * q + 1) * v,
        lost > half ==> 2 * num > (2 * q + 1) * v,
        lost == half && num * b == m * x ==> 2 * num == (2 * q + 1) * v,
        lost == half && num * b != m * x ==> 2 * num > (2 * q + 1) * v,
{
    let ps = 2 * half;
    assert(q * v * b == q * ps * x) by (nonlinear_arith)
        requires
            v * b == ps * x,
    ;
    assert((q + 1) * v * b == (q + 1) * ps * x) by (nonlinear_arith)
        requires
            v * b == ps * x,
    ;
    assert((2 * q + 1) * v * b == (2 * q + 1) * ps * x) by (nonlinear_arith)
        requires
            v * b == ps * x,
    ;
    assert(q * ps * x <= m * x) by (nonlinear_arith)
        requires
            m == q * ps + lost,
            0 <= lost,
            x > 0,
    ;
    assert((m + 1) * x <= (q + 1) * ps * x) by (nonlinear_arith)
        requires
            m == q * ps + lost,
            lost < ps,
            x > 0,
    ;
    assert(q * v <= num) by (nonlinear_arith)
        requires
            q * v * b <= num * b,
            b > 0,
    ;
    assert(num < (q + 1) * v) by (nonlinear_arith)
        requires
            num * b < (q + 1) * v * b,
            b > 0,
    ;
    assert((2 * num) * b == 2 * (num * b)) by (nonlinear_arith);
    assert((2 * q + 1) * ps * x == 2 * ((q * ps + half) * x)) by (nonlinear_arith)
        requires
            ps == 2 * half,
    ;
    if lost < half {
        assert((m + 1) * x <= (q * ps + half) * x) by (nonlinear_arith)
            requires
                m == q * ps + lost,
                lost + 1 <= half,
                x > 0,
        ;
        assert(2 * num < (2 * q + 1) * v) by (nonlinear_arith)
            requires
                (2 * num) * b < (2 * q + 1) * v * b,
                b > 0,
        ;
    } else if lost > half {
        assert(m * x > (q * ps + half) * x) by (nonlinear_arith)
            requires
                m == q * ps + lost,
                lost > half,
                x > 0,
        ;
        assert(2 * num > (2 * q + 1) * v) by (nonlinear_arith)
            requires
                (2 * num) * b > (2 * q + 1) * v * b,
                b > 0,
        ;
    } else {
        assert(m * x == (q * ps + half) * x);
        if num * b == m * x {
            assert(2 * num == (2 * q + 1) * v) by (nonlinear_arith)
                requires
                    (2 * num) * b == (2 * q + 1) * v * b,
                    b > 0,
            ;
        } else {
            assert(2 * num > (2 * q + 1) * v) by (nonlinear_arith)
                requires
                    (2 * num) * b > (2 * q + 1) * v * b,
                    b > 0,
            ;
        }
    }
}

/// Where nothing is shifted out, the packed magnitude is exact.
pub proof fn lemma_packed_exact(m: nat, e: int, sticky: bool)
    requires
        m > 0,
        shift_for(m, e) <= 0,
    ensures
        e >= 0,
        packed(m, e, sticky) >= 0,
        mag_units(packed(m, e, sticky) as nat) == m * pow2(e as nat),
{
    lemma2_to64();
    lemma2_to64_rest();
    lemma_bit_length(m);
    let len = bit_length(m);
    let d = widening_for(m, e) as nat;
    let q = m * pow2(d);
    lemma_pow2_adds(d, (e - d) as nat);
    lemma_pow2_adds(len, d);
    assert(q < pow2(len) * pow2(d)) by (nonlinear_arith)
        requires
            q == m * pow2(d),
            m < pow2(len),
            pow2(d) > 0,
    {
        lemma_pow2_pos(d);
    }
    lemma_pow2_pos(d);
    if d == 53 - len {
        lemma_pow2_adds((len - 1) as nat, d);
        assert(q >= pow2((len - 1) as nat) * pow2(d)) by (nonlinear_arith)
            requires
                q == m * pow2(d),
                m >= pow2((len - 1) as nat),
        ;
        assert(pow2(52) == HIDDEN);
    } else {
        if len + d < 53 {
            lemma_pow2_strictly_increases(len + d, 53);
        }
    }
    lemma_packed_units((e - d) as nat, q);
    assert(q * pow2((e - d) as nat) == m * pow2(e as nat)) by (nonlinear_arith)
        requires
            q == m * pow2(d),
            pow2(e as nat) == pow2(d) * pow2((e - d) as nat),
    ;
    assert((e - d) * HIDDEN >= 0) by (nonlinear_arith)
        requires
            e >= d,
    ;
}

/// The significand kept by a shift, its place and the two magnitudes that it lies between.
proof fn lemma_packed_parts(m: nat, e: int)
    requires
        m > 0,
        shift_for(m, e) > 0,
    ensures
        ({
            let s = shift_for(m, e) as nat;
            let q = m / pow2(s);
            let u = pow2((e + s) as nat);
            let k = (e + s) * HIDDEN + q;
            &&& e + s >= 0
            &&& k >= 0
            &&& mag_units(k as nat) == q * u
            &&& mag_units((k + 1) as nat) == (q + 1) * u
            &&& k % 2 == q % 2
            &&& pow2(s) == 2 * pow2((s - 1) as nat)
            &&& pow2((s - 1) as nat) > 0
            &&& m == q * pow2(s) + m % pow2(s)
        }),
{
    lemma2_to64();
    lemma2_to64_rest();
    lemma_bit_length(m);
    let len = bit_length(m);
    let s = shift_for(m, e) as nat;
    let ps = pow2(s);
    let q = m / ps;
    lemma_pow2_pos(s);
    lemma_pow2_pos((s - 1) as nat);
    lemma_pow2_unfold(s);
    vstd::arithmetic::div_mod::lemma_fundamental_div_mod(m as int, ps as int);
    assert(m == q * ps + m % ps) by (nonlinear_arith)
        requires
            m == ps * q + m % ps,
    ;
    lemma_pow2_adds(53, s);
    if len < 53 + s {
        lemma_pow2_strictly_increases(len, 53 + s);
    }
    assert(q < pow2(53)) by (nonlinear_arith)
        requires
            m == q * ps + m % ps,
            m < pow2(53) * ps,
            m % ps >= 0,
            ps > 0,
    ;
    if s == len - 53 {
        lemma_pow2_adds(52, s);
        assert(q >= pow2(52)) by (nonlinear_arith)
            requires
                m == q * ps + m % ps,
                m >= pow2(52) * ps,
                m % ps < ps,
                ps > 0,
        ;
    }
    lemma_packed_units((e + s) as nat, q);
    lemma_packed_units((e + s) as nat, q + 1);
    let k = (e + s) * HIDDEN + q;
    assert((e + s) * HIDDEN >= 0) by (nonlinear_arith)
        requires
            e + s >= 0,
    ;
    assert((e + s) * HIDDEN == 2 * ((e + s) * (HIDDEN / 2))) by (nonlinear_arith);
}

/// The packed magnitude, cut at the infinite one, is the nearest one to what `m` and `e` stand
/// for.
pub proof fn lemma_packed_nearest(m: nat, e: int, sticky: bool, num: nat, den: nat)
    requires
        den > 0,
        represents(m, e, sticky, num, den),
        sticky ==> m >= pow2(53),
    ensures
        packed(m, e, sticky) >= 0,
        nearest(num, den) == (if packed(m, e, sticky) >= INFINITE {
            INFINITE as int
        } else {
            packed(m, e, sticky)
        }),
{
    let a = if e >= 0 {
        pow2(e as nat)
    } else {
        1
    };
    let b = if e >= 0 {
        1
    } else {
        pow2((-e) as nat)
    };
    lemma_pow2_pos(if e >= 0 {
        e as nat
    } else {
        (-e) as nat
    });
    lemma2_to64();
    lemma2_to64_rest();
    let x = a * den;
    assert(x > 0) by (nonlinear_arith)
        requires
            x == a * den,
            a > 0,
            den > 0,
    ;
    assert(m * a * den == m * x && (m + 1) * a * den == (m + 1) * x) by (nonlinear_arith)
        requires
            x == a * den,
    ;
    if m == 0 {
        assert(num == 0) by (nonlinear_arith)
            requires
                num * b == 0,
                b > 0,
        ;
        lemma_mag_units_increase(0, 1);
        assert(mag_units(0) == 0);
        assert(0 * den == 0 && mag_units(1) * den > 0) by (nonlinear_arith)
            requires
                mag_units(1) > 0,
                den > 0,
        ;
        lemma_nearest_at(0, num, den);
    } else if shift_for(m, e) <= 0 {
        lemma_bit_length(m);
        if sticky {
            lemma_bit_length_reach(m, 53);
        }
        lemma_packed_exact(m, e, sticky);
        let p = packed(m, e, sticky) as nat;
        lemma_mag_units_increase(p, p + 1);
        assert(mag_units(p) * den < mag_units(p + 1) * den) by (nonlinear_arith)
            requires
                mag_units(p) < mag_units(p + 1),
                den > 0,
        ;
        lemma_nearest_at(p, num, den);
    } else {
        lemma_packed_parts(m, e);
        let s = shift_for(m, e) as nat;
        let ps = pow2(s);
        let q = m / ps;
        let u = pow2((e + s) as nat);
        let k = ((e + s) * HIDDEN + q) as nat;
        if e >= 0 {
            lemma_pow2_adds(s, e as nat);
        } else {
            lemma_pow2_adds((e + s) as nat, (-e) as nat);
        }
        assert(u * b == ps * a);
        let v = u * den;
        assert(v * b == ps * x) by (nonlinear_arith)
            requires
                v == u * den,
                x == a * den,
                u * b == ps * a,
        ;
        lemma_shifted(
            m as int,
            q as int,
            (m % ps) as int,
            pow2((s - 1) as nat) as int,
            x as int,
            v as int,
            b as int,
            num as int,
        );
        assert(mag_units(k) * den == q * v) by (nonlinear_arith)
            requires
                mag_units(k) == q * u,
                v == u * den,
        ;
        assert(mag_units(k + 1) * den == (q + 1) * v) by (nonlinear_arith)
            requires
                mag_units(k + 1) == (q + 1) * u,
                v == u * den,
        ;
        assert((2 * q + 1) * v == q * v + (q + 1) * v) by (nonlinear_arith);
        lemma_nearest_at(k, num, den);
    }
}

/// As `lemma_packed_nearest`, for a square root: `r` is the whole part of the root of `n` in
/// steps of 2^e.
pub proof fn lemma_packed_nearest_root(r: nat, e: nat, sticky: bool, n: nat)
    requires
        r >= pow2(53),
        (r * pow2(e)) * (r * pow2(e)) <= n,
        n < ((r + 1) * pow2(e)) * ((r + 1) * pow2(e)),
        sticky <==> (r * pow2(e)) * (r * pow2(e)) != n,
    ensures
        packed(r, e as int, sticky) >= 0,
        nearest_root(n) == packed(r, e as int, sticky),
{
    lemma2_to64();
    lemma2_to64_rest();
    lemma_bit_length_reach(r, 53);
    lemma_packed_parts(r, e as int);
    let s = shift_for(r, e as int) as nat;
    let ps = pow2(s);
    let half = pow2((s - 1) as nat);
    let q = r / ps;
    let lost = r % ps;
    let p = pow2(e);
    let u = pow2(e + s);
    let k = ((e + s) * HIDDEN + q) as nat;
    lemma_pow2_adds(e, s);
    lemma_pow2_pos(e);
    assert(u == ps * p);
    let lo = q * u;
    let hi = (q + 1) * u;
    assert(lo <= r * p) by (nonlinear_arith)
        requires
            lo == q * u,
            u == ps * p,
            r == q * ps + lost,
            lost >= 0,
            p > 0,
    ;
    assert((r + 1) * p <= hi) by (nonlinear_arith)
        requires
            hi == (q + 1) * u,
            u == ps * p,
            r == q * ps + lost,
            lost < ps,
            p > 0,
    ;
    assert(lo * lo <= (r * p) * (r * p)) by (nonlinear_arith)
        requires
            0 <= lo <= r * p,
    ;
    assert(((r + 1) * p) * ((r + 1) * p) <= hi * hi) by (nonlinear_arith)
        requires
            0 <= (r + 1) * p <= hi,
    ;
    lemma_nearest_root_at(k, n);
    let w = lo + hi;
    assert(w == 2 * ((q * ps + half) * p)) by (nonlinear_arith)
        requires
            w == q * u + (q + 1) * u,
            u == ps * p,
            ps == 2 * half,
    ;
    let y = (q * ps + half) * p;
    assert(w * w == 4 * (y * y)) by (nonlinear_arith)
        requires
            w == 2 * y,
    ;
    let z = r * p;
    let z1 = (r + 1) * p;
    if 2 * lost < ps {
        assert(z1 <= y) by (nonlinear_arith)
            requires
                z1 == (r + 1) * p,
                y == (q * ps + half) * p,
                r == q * ps + lost,
                lost + 1 <= half,
                p > 0,
        ;
        assert(z1 * z1 <= y * y) by (nonlinear_arith)
            requires
                0 <= z1 <= y,
        ;
    } else if 2 * lost > ps {
        assert(z > y) by (nonlinear_arith)
            requires
                z == r * p,
                y == (q * ps + half) * p,
                r == q * ps + lost,
                lost > half,
                p > 0,
        ;
        assert(z * z > y * y) by (nonlinear_arith)
            requires
                z > y,
                y >= 0,
        ;
    } else {
        assert(z == y);
    }
}

/// 2^n.
pub fn two_to(n: u32) -> (r: u128)
    requires
        n < 128,
    ensures
        r == pow2(n as nat),
{
    proof {
        lemma2_to64();
        lemma2_to64_rest();
    }
    if n < 64 {
        proof {
            vstd::bits::lemma_u64_pow2_no_overflow(n as nat);
            vstd::bits::lemma_u64_shl_is_mul(1, n as u64);
        }
        (1u64 << (n as u64)) as u128
    } else {
        let k: u32 = n - 64;
        proof {
            vstd::bits::lemma_u64_pow2_no_overflow(k as nat);
            vstd::bits::lemma_u64_shl_is_mul(1, k as u64);
            lemma_pow2_adds(k as nat, 64);
            assert(pow2(k as nat) * 0x1_0000_0000_0000_0000 < 0x1_0000_0000_0000_0000
                * 0x1_0000_0000_0000_0000) by (nonlinear_arith)
                requires
                    pow2(k as nat) < 0x1_0000_0000_0000_0000,
            ;
        }
        ((1u64 << (k as u64)) as u128) * 0x1_0000_0000_0000_0000u128
    }
}

/// The number of binary digits of `m`.
pub fn digits(m: u128) -> (r: u32)
    ensures
        r == bit_length(m as nat),
        r <= 128,
{
    let mut rest: u128 = m;
    let mut n: u32 = 0;
    proof {
        assert(pow2(128) == 0x1_0000_0000_0000_0000 * 0x1_0000_0000_0000_0000) by {
            lemma2_to64();
            lemma2_to64_rest();
            lemma_pow2_adds(64, 64);
        }
        lemma_bit_length_bound(m as nat, 128);
    }
    while rest >= 256
        invariant
            n + bit_length(rest as nat) == bit_length(m as nat),
            bit_length(m as nat) <= 128,
        decreases rest,
    {
        proof {
            lemma_bit_length_byte(rest as nat);
        }
        rest = rest / 256;
        n = n + 8;
    }
    while rest > 0
        invariant
            n + bit_length(rest as nat) == bit_length(m as nat),
            bit_length(m as nat) <= 128,
        decreases rest,
    {
        rest = rest / 2;
        n = n + 1;
    }
    n
}

/// Packs `m * 2^e` units (or, where `sticky`, a value strictly between that and
/// `(m + 1) * 2^e`) into the nearest magnitude.
pub fn pack(m: u128, e: i32, sticky: bool) -> (r: u64)
    requires
        m < 0x8000_0000_0000_0000_0000_0000_0000_0000,
        -4000 <= e <= 4000,
    ensures
        r == (if packed(m as nat, e as int, sticky) >= INFINITE {
            INFINITE as int
        } else {
            packed(m as nat, e as int, sticky)
        }),
{
    if m == 0 {
        return 0;
    }
    let len: u32 = digits(m);
    proof {
        lemma2_to64();
        lemma2_to64_rest();
        lemma_pow2_adds(64, 63);
        lemma_bit_length_bound(m as nat, 127);
        lemma_bit_length(m as nat);
    }
    let excess: i32 = len as i32 - 53;
    let s: i32 = if excess >= -e {
        excess
    } else {
        -e
    };
    if s <= 0 {
        let d: i32 = if 53 - len as i32 <= e {
            53 - len as i32
        } else {
            e
        };
        proof {
            lemma_pow2_adds(len as nat, d as nat);
            if len + d < 53 {
                lemma_pow2_strictly_increases((len + d) as nat, 53);
            }
            assert(m * pow2(d as nat) < pow2(len as nat) * pow2(d as nat)) by (nonlinear_arith)
                requires
                    m < pow2(len as nat),
                    pow2(d as nat) > 0,
            {
                lemma_pow2_pos(d as nat);
            }
            lemma_pow2_pos(d as nat);
        }
        let q: u128 = m * two_to(d as u32);
        let f: u128 = (e - d) as u128;
        assert(0 <= f <= 4000);
        let p: u128 = f * (HIDDEN as u128) + q;
        if p >= INFINITE as u128 {
            INFINITE
        } else {
            p as u64
        }
    } else if s > len as i32 {
        proof {
            if s > len + 1 {
                lemma_pow2_strictly_increases(len as nat, (s - 1) as nat);
            }
            lemma_pow2_unfold(s as nat);
            vstd::arithmetic::div_mod::lemma_fundamental_div_mod_converse(
                m as int,
                pow2(s as nat) as int,
                0,
                m as int,
            );
        }
        0
    } else {
        let unit: u128 = two_to(s as u32);
        proof {
            lemma_pow2_pos(s as nat);
            if s < 127 {
                lemma_pow2_strictly_increases(s as nat, 127);
            }
        }
        let q: u128 = m / unit;
        let lost: u128 = m % unit;
        let up: bool = 2 * lost > unit || (2 * lost == unit && (sticky || q % 2 == 1));
        let base: u128 = ((e + s) as u128) * (HIDDEN as u128);
        let p: u128 = base + q + (if up {
            1u128
        } else {
            0u128
        });
        if p >= INFINITE as u128 {
            INFINITE
        } else {
            p as u64
        }
    }
}

} // verus!
