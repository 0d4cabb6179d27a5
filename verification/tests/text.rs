use funding_scanner::binary64::Binary64;
use funding_scanner::decimal::{append_signed, count_text, fixed_text, signed_text};
use funding_scanner::util::{format_bytes, format_usd};

fn of(x: f64) -> Binary64 {
    Binary64 { bits: x.to_bits() }
}

#[test]
fn bytes_by_unit() {
    assert_eq!(format_bytes(999), "999B");
    assert_eq!(format_bytes(0), "0B");
    assert_eq!(format_bytes(1023), "1023B");
    assert_eq!(format_bytes(1024), "1.0KB");
    assert_eq!(format_bytes(466_944), "456.0KB");
    assert_eq!(format_bytes(1_234_567), "1.2MB");
    assert_eq!(format_bytes(1_073_741_824), "1.0GB");
    for b in [u64::MAX, u64::MAX - 1025, 1_073_741_823, 1_610_612_736, 1_288_490_189] {
        let bf = b as f64;
        let want = if bf >= 1_073_741_824.0 {
            format!("{:.1}GB", bf / 1_073_741_824.0)
        } else {
            format!("{:.1}MB", bf / 1_048_576.0)
        };
        assert_eq!(format_bytes(b), want);
    }
}

#[test]
fn usd_by_unit() {
    assert_eq!(format_usd(of(1_234_567.0)), "$1.23M");
    assert_eq!(format_usd(of(456_700.0)), "$456.7k");
    assert_eq!(format_usd(of(2_500_000_000.0)), "$2.50B");
    assert_eq!(format_usd(of(999.4)), "$999");
    assert_eq!(format_usd(of(-5.0)), "$-5");
    assert_eq!(format_usd(of(f64::NAN)), "$NaN");
}

#[test]
fn fixed_point_text_matches_the_formatter() {
    let mut state: u64 = 0x1234_5678_9abc_def1;
    let mut values = vec![
        0.0, -0.0, 0.5, 1.5, 2.5, 0.25, 0.75, 0.125, -0.001, 1e300, -1e22, 5e-324, 123456.789,
        9007199254740993.0, f64::MAX, f64::INFINITY, f64::NEG_INFINITY, f64::NAN, 99.995, 0.045,
    ];
    for _ in 0..500 {
        state = state.wrapping_mul(6364136223846793005).wrapping_add(1442695040888963407);
        values.push(f64::from_bits(state ^ (state >> 31)));
        values.push((state >> 20) as f64 / 1024.0 / 97.0);
    }
    for v in values {
        for p in 0..=5usize {
            assert_eq!(fixed_text(of(v), p as u32), format!("{:.*}", p, v));
            assert_eq!(signed_text(of(v), p as u32), format!("{:+.*}", p, v));
        }
    }
}

#[test]
fn whole_numbers_in_decimal() {
    assert_eq!(count_text(0), "0");
    assert_eq!(count_text(10), "10");
    assert_eq!(count_text(usize::MAX), format!("{}", usize::MAX));
    let mut s = String::from("t=");
    append_signed(&mut s, i64::MIN);
    assert_eq!(s, format!("t={}", i64::MIN));
}
