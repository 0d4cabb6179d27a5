//! Decimal text of whole numbers and of doubles.

use crate::arithmetic::{unpack, UNIT_EXPONENT};
use crate::binary64::{mag_units, Binary64, HIDDEN};
use crate::rounding::two_to;
use vstd::arithmetic::power2::*;
use vstd::prelude::*;
use vstd::string::*;

verus! {

/// The decimal digit `d`.
pub open spec fn digit(d: nat) -> char {
    (48 + d) as char
}

/// The decimal text of `n`.
pub open spec fn decimal(n: nat) -> Seq<char>
    decreases n,
{
    if n < 10 {
        seq![digit(n)]
    } else {
        decimal(n / 10).push(digit(n % 10))
    }
}

/// The decimal text of a number with a sign.
pub open spec fn signed_decimal(n: int) -> Seq<char> {
    if n < 0 {
        "-"@ + decimal((-n) as nat)
    } else {
        decimal(n as nat)
    }
}

/// The last `width` decimal digits of `n`.
pub open spec fn padded(n: nat, width: nat) -> Seq<char>
    decreases width,
{
    if width == 0 {
        Seq::empty()
    } else {
        padded(n / 10, (width - 1) as nat).push(digit(n % 10))
    }
}

/// 10^p.
pub open spec fn pow10(p: nat) -> nat
    decreases p,
{
    if p == 0 {
        1
    } else {
        10 * pow10((p - 1) as nat)
    }
}

/// The whole number nearest to `num / den`; of two equally near, the even one.
pub open spec fn half_even(num: nat, den: nat) -> nat {
    let q = num / den;
    let r = num % den;
    if 2 * r < den || (2 * r == den && q % 2 == 0) {
        q
    } else {
        q + 1
    }
}

/// A finite magnitude with `places` digits after the point.
pub open spec fn fixed_magnitude(mag: nat, places: nat) -> Seq<char> {
    let n = half_even(mag_units(mag) * pow10(places), pow2(UNIT_EXPONENT as nat));
    if places == 0 {
        decimal(n)
    } else {
        decimal(n / pow10(places)) + "."@ + padded(n % pow10(places), places)
    }
}

/// A double with `places` digits after the point, and, where `plus`, with a sign in any case.
pub open spec fn fixed(x: Binary64, places: nat, plus: bool) -> Seq<char> {
    let sign = if x.sign() {
        "-"@
    } else if plus {
        "+"@
    } else {
        Seq::empty()
    };
    if x.nan() {
        "NaN"@
    } else if !x.finite() {
        sign + "inf"@
    } else {
        sign + fixed_magnitude(x.mag(), places)
    }
}

/// The number that decimal digits, the least first, stand for.
spec fn le_value(d: Seq<u8>) -> nat
    decreases d.len(),
{
    if d.len() == 0 {
        0
    } else {
        d[0] as nat + 10 * le_value(d.drop_first())
    }
}

/// At least one digit, and no needless leading zero.
spec fn digits_ok(d: Seq<u8>) -> bool {
    &&& d.len() >= 1
    &&& forall|i: int| 0 <= i < d.len() ==> d[i] < 10
    &&& d.len() == 1 || d.last() != 0
}

/// The text of digits, the least first.
spec fn reversed_text(d: Seq<u8>) -> Seq<char>
    decreases d.len(),
{
    if d.len() == 0 {
        Seq::empty()
    } else {
        reversed_text(d.drop_first()).push(digit(d[0] as nat))
    }
}

proof fn lemma_le_value_positive(d: Seq<u8>)
    requires
        d.len() >= 1,
        d.last() > 0,
    ensures
        le_value(d) > 0,
    decreases d.len(),
{
    if d.len() > 1 {
        lemma_le_value_positive(d.drop_first());
    }
}

proof fn lemma_le_value_push(d: Seq<u8>, x: u8)
    ensures
        le_value(d.push(x)) == le_value(d) + x * pow10(d.len()),
    decreases d.len(),
{
    if d.len() == 0 {
        assert(d.push(x).drop_first() =~= Seq::<u8>::empty());
        assert(le_value(Seq::<u8>::empty()) == 0);
        assert(x * pow10(0) == x) by (nonlinear_arith)
            requires
                pow10(0) == 1,
        ;
    } else {
        assert(d.push(x).drop_first() =~= d.drop_first().push(x));
        lemma_le_value_push(d.drop_first(), x);
        let p = pow10((d.len() - 1) as nat);
        assert(10 * (x * p) == x * (10 * p)) by (nonlinear_arith);
    }
}

proof fn lemma_reversed_text(d: Seq<u8>)
    requires
        digits_ok(d),
    ensures
        decimal(le_value(d)) == reversed_text(d),
    decreases d.len(),
{
    let rest = d.drop_first();
    if d.len() == 1 {
        assert(rest =~= Seq::<u8>::empty());
        assert(le_value(rest) == 0);
        assert(reversed_text(rest) == Seq::<char>::empty());
        assert(seq![digit(d[0] as nat)] =~= Seq::<char>::empty().push(digit(d[0] as nat)));
    } else {
        assert(rest.last() == d.last());
        lemma_le_value_positive(rest);
        lemma_reversed_text(rest);
    }
}

fn digit_text(d: u8) -> (r: &'static str)
    requires
        d < 10,
    ensures
        r@ == seq![digit(d as nat)],
{
    proof {
        reveal_strlit("0");
        reveal_strlit("1");
        reveal_strlit("2");
        reveal_strlit("3");
        reveal_strlit("4");
        reveal_strlit("5");
        reveal_strlit("6");
        reveal_strlit("7");
        reveal_strlit("8");
        reveal_strlit("9");
    }
    match d {
        0 => "0",
        1 => "1",
        2 => "2",
        3 => "3",
        4 => "4",
        5 => "5",
        6 => "6",
        7 => "7",
        8 => "8",
        _ => "9",
    }
}

/// Appends the decimal text of `n`.
pub fn append_decimal(out: &mut String, n: u128)
    ensures
        final(out)@ == old(out)@ + decimal(n as nat),
    decreases n,
{
    if n >= 10 {
        append_decimal(out, n / 10);
    }
    out.append(digit_text((n % 10) as u8));
    proof {
        if n >= 10 {
            assert(out@ =~= old(out)@ + decimal((n / 10) as nat).push(digit((n % 10) as nat)));
        }
    }
}

/// Appends the decimal text of a number with a sign.
pub fn append_signed(out: &mut String, n: i64)
    ensures
        final(out)@ == old(out)@ + signed_decimal(n as int),
{
    if n < 0 {
        out.append("-");
        append_decimal(out, (-(n as i128)) as u128);
        assert(out@ =~= old(out)@ + ("-"@ + decimal((-n) as nat)));
    } else {
        append_decimal(out, n as u128);
    }
}

/// A text of its own.
pub fn text(s: &str) -> (r: String)
    ensures
        r@ == s@,
{
    let mut out = String::new();
    out.append(s);
    assert(Seq::<char>::empty() + s@ =~= s@);
    out
}

/// What the lines of a text hold.
pub open spec fn texts(lines: Seq<String>) -> Seq<Seq<char>> {
    lines.map_values(|s: String| s@)
}

/// The decimal text of a count.
pub fn count_text(n: usize) -> (r: String)
    ensures
        r@ == decimal(n as nat),
{
    let mut out = String::new();
    append_decimal(&mut out, n as u128);
    assert(Seq::<char>::empty() + decimal(n as nat) =~= decimal(n as nat));
    out
}

fn append_padded(out: &mut String, n: u128, width: u32)
    ensures
        final(out)@ == old(out)@ + padded(n as nat, width as nat),
    decreases width,
{
    if width > 0 {
        append_padded(out, n / 10, width - 1);
        out.append(digit_text((n % 10) as u8));
        assert(out@ =~= old(out)@ + padded((n / 10) as nat, (width - 1) as nat).push(
            digit((n % 10) as nat),
        ));
    } else {
        assert(out@ =~= old(out)@ + Seq::<char>::empty());
    }
}

/// The digits of a machine number, the least first.
fn small_digits(n: u64) -> (r: Vec<u8>)
    ensures
        digits_ok(r@),
        le_value(r@) == n,
{
    let mut out: Vec<u8> = Vec::new();
    let mut rest: u64 = n;
    assert(rest * pow10(0) == rest) by (nonlinear_arith)
        requires
            pow10(0) == 1,
    ;
    while rest >= 10
        invariant
            forall|i: int| 0 <= i < out@.len() ==> out@[i] < 10,
            le_value(out@) + rest * pow10(out@.len()) == n,
            out@.len() > 0 ==> rest > 0,
        decreases rest,
    {
        let d: u8 = (rest % 10) as u8;
        proof {
            lemma_le_value_push(out@, d);
            let p = pow10(out@.len());
            let next = rest / 10;
            assert(rest * p == d * p + next * (10 * p)) by (nonlinear_arith)
                requires
                    rest == 10 * next + d,
            ;
            assert(pow10((out@.len() + 1) as nat) == 10 * p);
        }
        out.push(d);
        rest = rest / 10;
    }
    proof {
        lemma_le_value_push(out@, rest as u8);
        if out@.len() == 0 {
            assert(out@ =~= Seq::<u8>::empty());
        }
    }
    out.push(rest as u8);
    out
}

/// Twice the number.
fn doubled(d: &Vec<u8>) -> (r: Vec<u8>)
    requires
        digits_ok(d@),
    ensures
        digits_ok(r@),
        le_value(r@) == 2 * le_value(d@),
{
    let mut out: Vec<u8> = Vec::new();
    let mut carry: u8 = 0;
    let n: usize = d.len();
    let mut i: usize = 0;
    assert(d@.skip(0) =~= d@);
    proof {
        let v = 2 * le_value(d@);
        assert(v * pow10(0) == v) by (nonlinear_arith)
            requires
                pow10(0) == 1,
        ;
    }
    while i < n
        invariant
            n == d@.len(),
            digits_ok(d@),
            i <= n,
            out@.len() == i,
            carry <= 1,
            forall|j: int| 0 <= j < out@.len() ==> out@[j] < 10,
            le_value(out@) + (2 * le_value(d@.skip(i as int)) + carry) * pow10(i as nat) == 2
                * le_value(d@),
            i > 0 ==> (carry == 0 ==> (d@[i - 1] != 0 ==> out@[i - 1] != 0)),
        decreases n - i,
    {
        let t: u8 = 2 * d[i] + carry;
        let low: u8 = t % 10;
        let high: u8 = t / 10;
        proof {
            let rest = d@.skip(i as int);
            assert(rest.drop_first() =~= d@.skip(i + 1));
            let v = le_value(rest.drop_first());
            let p = pow10(i as nat);
            assert(le_value(rest) == d@[i as int] + 10 * v);
            lemma_le_value_push(out@, low);
            assert((2 * (d@[i as int] + 10 * v) + carry) * p == low * p + (2 * v + high) * (10 * p))
                by (nonlinear_arith)
                requires
                    2 * d@[i as int] + carry == low + 10 * high,
            ;
            assert(pow10((i + 1) as nat) == 10 * p);
        }
        out.push(low);
        carry = high;
        i = i + 1;
    }
    proof {
        assert(d@.skip(n as int) =~= Seq::<u8>::empty());
        assert(le_value(Seq::<u8>::empty()) == 0);
        lemma_le_value_push(out@, carry);
    }
    if carry > 0 {
        out.push(carry);
    } else {
        assert(0 * pow10(n as nat) == 0) by (nonlinear_arith);
    }
    out
}

/// Appends the decimal text of `m * 2^k`.
fn append_shifted(out: &mut String, m: u64, k: u32)
    ensures
        final(out)@ == old(out)@ + decimal((m * pow2(k as nat)) as nat),
{
    let mut d: Vec<u8> = small_digits(m);
    let mut i: u32 = 0;
    proof {
        lemma2_to64();
        assert(m * pow2(0) == m) by (nonlinear_arith)
            requires
                pow2(0) == 1,
        ;
    }
    while i < k
        invariant
            i <= k,
            digits_ok(d@),
            le_value(d@) == m * pow2(i as nat),
        decreases k - i,
    {
        d = doubled(&d);
        proof {
            lemma_pow2_unfold((i + 1) as nat);
            let p = pow2(i as nat);
            assert(2 * (m * p) == m * (2 * p)) by (nonlinear_arith);
        }
        i = i + 1;
    }
    let ghost before = out@;
    let mut j: usize = d.len();
    proof {
        assert(d@.skip(j as int) =~= Seq::<u8>::empty());
        assert(before + Seq::<char>::empty() =~= before);
    }
    while j > 0
        invariant
            j <= d@.len(),
            digits_ok(d@),
            out@ == before + reversed_text(d@.skip(j as int)),
        decreases j,
    {
        j = j - 1;
        out.append(digit_text(d[j]));
        proof {
            let rest = d@.skip(j as int);
            assert(rest.drop_first() =~= d@.skip(j + 1));
            assert(out@ =~= before + reversed_text(rest.drop_first()).push(digit(rest[0] as nat)));
        }
    }
    proof {
        assert(d@.skip(0) =~= d@);
        lemma_reversed_text(d@);
    }
}

/// 10^p.
fn ten_to(p: u32) -> (r: u128)
    requires
        p <= 5,
    ensures
        r == pow10(p as nat),
        1 <= r <= 100_000,
{
    proof {
        reveal_with_fuel(pow10, 6);
    }
    match p {
        0 => 1,
        1 => 10,
        2 => 100,
        3 => 1_000,
        4 => 10_000,
        _ => 100_000,
    }
}

/// Dividing by a common factor changes neither the whole part nor which way it is rounded.
proof fn lemma_half_even_scaled(num: nat, den: nat, c: nat)
    requires
        den > 0,
        c > 0,
    ensures
        den * c > 0,
        half_even(num * c, den * c) == half_even(num, den),
{
    let q = num / den;
    let r = num % den;
    vstd::arithmetic::div_mod::lemma_fundamental_div_mod(num as int, den as int);
    assert(num * c == q * (den * c) + r * c) by (nonlinear_arith)
        requires
            num == den * q + r,
    ;
    assert(0 <= r * c < den * c) by (nonlinear_arith)
        requires
            0 <= r < den,
            c > 0,
    ;
    vstd::arithmetic::div_mod::lemma_fundamental_div_mod_converse(
        (num * c) as int,
        (den * c) as int,
        q as int,
        (r * c) as int,
    );
    assert(2 * (r * c) < den * c <==> 2 * r < den) by (nonlinear_arith)
        requires
            c > 0,
    ;
    assert(2 * (r * c) == den * c <==> 2 * r == den) by (nonlinear_arith)
        requires
            c > 0,
    ;
}

/// `m * 2^e * scale` over 2^1074, rounded, for an exponent below that of one.
fn scaled_below_one(m: u64, e: u32, scale: u128) -> (n: u128)
    requires
        m < 2 * HIDDEN,
        e < UNIT_EXPONENT,
        1 <= scale <= 100_000,
    ensures
        n == half_even((m * pow2(e as nat)) as nat * scale as nat, pow2(UNIT_EXPONENT as nat)),
{
    assert(m * scale <= 2 * HIDDEN * 100_000) by (nonlinear_arith)
        requires
            m < 2 * HIDDEN,
            scale <= 100_000,
    ;
    assert(m * scale >= 0) by (nonlinear_arith);
    let t: u128 = (m as u128) * scale;
    let j: u32 = UNIT_EXPONENT - e;
    proof {
        lemma_pow2_adds(j as nat, e as nat);
        lemma_pow2_pos(j as nat);
        lemma_pow2_pos(e as nat);
        let p = pow2(e as nat);
        assert((m * p) * scale == t * p) by (nonlinear_arith)
            requires
                t == m * scale,
        ;
        lemma_half_even_scaled(t as nat, pow2(j as nat), p);
    }
    if j >= 100 {
        proof {
            lemma2_to64();
            lemma2_to64_rest();
            lemma_pow2_adds(64, 35);
            lemma_pow2_unfold(j as nat);
            if j > 100 {
                lemma_pow2_strictly_increases(99, (j - 1) as nat);
            }
            assert(pow2(99) == 0x1_0000_0000_0000_0000 * 0x8_0000_0000);
            vstd::arithmetic::div_mod::lemma_fundamental_div_mod_converse(
                t as int,
                pow2(j as nat) as int,
                0,
                t as int,
            );
        }
        0
    } else {
        let unit: u128 = two_to(j);
        let q: u128 = t / unit;
        let r: u128 = t % unit;
        proof {
            lemma2_to64();
            lemma2_to64_rest();
            lemma_pow2_adds(64, 36);
            if j < 100 {
                lemma_pow2_strictly_increases(j as nat, 100);
            }
            assert(pow2(100) == 0x1_0000_0000_0000_0000 * 0x10_0000_0000);
            assert(q <= t) by (nonlinear_arith)
                requires
                    q == t / unit,
                    unit >= 1,
            ;
        }
        if 2 * r < unit || (2 * r == unit && q % 2 == 0) {
            q
        } else {
            q + 1
        }
    }
}

/// Appends a double with `places` digits after the point, and, where `plus`, with a sign in any
/// case.
pub fn append_fixed(out: &mut String, x: Binary64, places: u32, plus: bool)
    requires
        places <= 5,
    ensures
        final(out)@ == old(out)@ + fixed(x, places as nat, plus),
{
    let ghost before = out@;
    if x.is_nan() {
        out.append("NaN");
        return;
    }
    if x.is_negative() {
        out.append("-");
    } else if plus {
        out.append("+");
    }
    let ghost sign = if x.sign() {
        "-"@
    } else if plus {
        "+"@
    } else {
        Seq::empty()
    };
    assert(out@ =~= before + sign);
    if !x.is_finite() {
        out.append("inf");
        assert(out@ =~= before + (sign + "inf"@));
        return;
    }
    let (m, e) = unpack(x.magnitude());
    let scale: u128 = ten_to(places);
    let ghost n = half_even(
        mag_units(x.mag()) * pow10(places as nat),
        pow2(UNIT_EXPONENT as nat),
    );
    if e >= UNIT_EXPONENT {
        let k: u32 = e - UNIT_EXPONENT;
        let ghost whole = m * pow2(k as nat);
        proof {
            let one = pow2(UNIT_EXPONENT as nat);
            lemma_pow2_pos(UNIT_EXPONENT as nat);
            lemma_pow2_adds(k as nat, UNIT_EXPONENT as nat);
            let num = mag_units(x.mag()) * pow10(places as nat);
            assert(whole >= 0) by (nonlinear_arith)
                requires
                    whole == m * pow2(k as nat),
            ;
            let ws = whole * scale;
            assert(num == ws * one) by (nonlinear_arith)
                requires
                    num == (m * pow2(e as nat)) * scale,
                    ws == (m * pow2(k as nat)) * scale,
                    pow2(e as nat) == pow2(k as nat) * one,
            ;
            vstd::arithmetic::div_mod::lemma_fundamental_div_mod_converse(
                num as int,
                one as int,
                ws,
                0,
            );
            assert(n == ws);
            vstd::arithmetic::div_mod::lemma_fundamental_div_mod_converse(
                ws,
                scale as int,
                whole,
                0,
            );
            if places == 0 {
                assert(ws == whole) by (nonlinear_arith)
                    requires
                        ws == whole * scale,
                        scale == 1,
                ;
            }
        }
        append_shifted(out, m, k);
        if places > 0 {
            out.append(".");
            append_padded(out, 0, places);
        }
    } else {
        let v: u128 = scaled_below_one(m, e, scale);
        assert(v == n);
        append_decimal(out, v / scale);
        if places > 0 {
            out.append(".");
            append_padded(out, v % scale, places);
        }
    }
    proof {
        if places == 0 {
            assert(pow10(0) == 1);
            assert(n / 1 == n) by (nonlinear_arith);
        }
        assert(out@ =~= before + (sign + fixed_magnitude(x.mag(), places as nat)));
    }
}

/// A double with `places` digits after the point.
pub fn fixed_text(x: Binary64, places: u32) -> (r: String)
    requires
        places <= 5,
    ensures
        r@ == fixed(x, places as nat, false),
{
    let mut out = String::new();
    append_fixed(&mut out, x, places, false);
    assert(Seq::<char>::empty() + fixed(x, places as nat, false) =~= fixed(
        x,
        places as nat,
        false,
    ));
    out
}

/// A double with a sign and `places` digits after the point.
pub fn signed_text(x: Binary64, places: u32) -> (r: String)
    requires
        places <= 5,
    ensures
        r@ == fixed(x, places as nat, true),
{
    let mut out = String::new();
    append_fixed(&mut out, x, places, true);
    assert(Seq::<char>::empty() + fixed(x, places as nat, true) =~= fixed(x, places as nat, true));
    out
}

} // verus!
