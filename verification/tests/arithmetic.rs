use funding_scanner::binary64::Binary64;

fn of(x: f64) -> Binary64 {
    Binary64 { bits: x.to_bits() }
}

fn same(got: Binary64, want: f64) -> bool {
    if want.is_nan() {
        got.is_nan()
    } else {
        got.bits == want.to_bits()
    }
}

/// Bit patterns that cover zeros, subnormals, powers of two, infinities and ordinary numbers.
fn samples() -> Vec<f64> {
    let mut out = vec![
        0.0,
        -0.0,
        1.0,
        -1.0,
        0.5,
        1.5,
        87.6,
        1e-9,
        100_000.0,
        f64::INFINITY,
        f64::NEG_INFINITY,
        f64::NAN,
        f64::MIN_POSITIVE,
        -f64::MIN_POSITIVE,
        f64::MAX,
        f64::MIN,
        5e-324,
        -5e-324,
        1e-310,
        9007199254740991.0,
        9007199254740993.0,
    ];
    let mut state: u64 = 0x9e37_79b9_7f4a_7c15;
    for i in 0..400u64 {
        state = state.wrapping_mul(6364136223846793005).wrapping_add(1442695040888963407);
        let wild = state ^ (state >> 29);
        if i % 2 == 0 {
            out.push(f64::from_bits(wild));
        } else {
            // Close exponents, so that sums cancel and round.
            let near = (wild & 0x800f_ffff_ffff_ffff) | ((1000 + (wild >> 52) % 60) << 52);
            out.push(f64::from_bits(near));
        }
    }
    out
}

#[test]
fn sums_and_differences_match_the_hardware() {
    let xs = samples();
    for a in &xs {
        for b in &xs {
            assert!(same(of(*a).plus(of(*b)), a + b), "{a:e} + {b:e}");
            assert!(same(of(*a).minus(of(*b)), a - b), "{a:e} - {b:e}");
        }
    }
}

#[test]
fn products_and_quotients_match_the_hardware() {
    let xs = samples();
    for a in &xs {
        for b in &xs {
            assert!(same(of(*a).times(of(*b)), a * b), "{a:e} * {b:e}");
            assert!(same(of(*a).over(of(*b)), a / b), "{a:e} / {b:e}");
        }
    }
}

#[test]
fn roots_match_the_hardware() {
    for a in samples() {
        assert!(same(of(a).root(), a.sqrt()), "sqrt {a:e}");
        assert!(same(of(a.abs()).root(), a.abs().sqrt()), "sqrt {a:e}");
    }
}

#[test]
fn comparisons_match_the_hardware() {
    let xs = samples();
    for a in &xs {
        for b in &xs {
            assert_eq!(of(*a).is_less(of(*b)), a < b);
            assert_eq!(of(*a).is_at_most(of(*b)), a <= b);
            if !a.is_nan() && !b.is_nan() {
                assert_eq!(of(*a).sort_key() < of(*b).sort_key(), a < b);
                assert_eq!(of(*a).sort_key() == of(*b).sort_key(), a == b);
            }
            if a != b {
                assert!(same(of(*a).min(of(*b)), a.min(*b)));
                assert!(same(of(*a).max(of(*b)), a.max(*b)));
            }
        }
    }
}

#[test]
fn whole_numbers_and_fractions_match_literals() {
    for n in [0i64, 1, -1, 30, 1_000_000, i64::MAX, i64::MIN, 9007199254740993] {
        assert_eq!(Binary64::from_whole(n).bits, (n as f64).to_bits());
    }
    assert_eq!(Binary64::from_count(usize::MAX).bits, (usize::MAX as f64).to_bits());
    assert_eq!(Binary64::from_ratio(876, 10).bits, 87.6f64.to_bits());
    assert_eq!(Binary64::from_ratio(45, 10).bits, 4.5f64.to_bits());
    assert_eq!(Binary64::from_ratio(3, 10).bits, 0.3f64.to_bits());
    assert_eq!(Binary64::from_ratio(1, 1_000_000_000).bits, 1e-9f64.to_bits());
}

#[test]
fn signs_and_magnitudes() {
    assert_eq!(of(-2.5).abs().bits, 2.5f64.to_bits());
    assert_eq!(of(2.5).negated().bits, (-2.5f64).to_bits());
    assert!(of(-0.0).is_negative());
    assert!(!of(f64::INFINITY).is_finite());
    assert!(of(f64::MAX).is_finite());
}
