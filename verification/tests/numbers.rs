use herdr_analytics::double::Double;
use herdr_analytics::usage::rate;

fn num(x: f64) -> Double {
    Double { bits: x.to_bits() }
}

fn float(d: Double) -> f64 {
    f64::from_bits(d.bits)
}

/// A row of awkward numbers.
fn samples() -> Vec<f64> {
    let mut v = vec![
        0.0,
        5e-324,
        1e-310,
        2.2250738585072014e-308,
        1e-9,
        0.005,
        0.015,
        0.1,
        0.125,
        0.25,
        0.3,
        0.375,
        0.5,
        0.6,
        0.994999,
        0.995,
        1.0,
        1.005,
        2.5,
        9.99,
        12.345,
        99.995,
        1234.5678,
        9007199254740991.0,
        9007199254740993.0,
        1e17,
        1.7976931348623157e308,
        f64::INFINITY,
    ];
    let mut x: u64 = 0x9E37_79B9_7F4A_7C15;
    for _ in 0..300 {
        x = x.wrapping_mul(6364136223846793005).wrapping_add(1442695040888963407);
        let f = f64::from_bits(x % 0x7FF0_0000_0000_0000);
        v.push(f);
        v.push((x >> 40) as f64 / 100.0);
        v.push((x >> 11) as f64 / 4096.0);
    }
    v
}

#[test]
fn decimals_agree_with_floats() {
    for x in samples() {
        for y in [x, -x] {
            assert_eq!(num(y).fixed(0), format!("{y:.0}"));
            assert_eq!(num(y).fixed(1), format!("{y:.1}"));
            assert_eq!(num(y).fixed(2), format!("{y:.2}"));
            assert_eq!(num(y).signed(1), format!("{y:+.1}"));
        }
    }
    assert_eq!(num(f64::NAN).fixed(2), "NaN");
    assert_eq!(num(f64::NAN).signed(1), "NaN");
}

#[test]
fn sums_agree_with_floats() {
    let v = samples();
    for a in &v {
        for b in v.iter().take(60) {
            assert_eq!(float(Double::add(num(*a), num(*b))).to_bits(), (a + b).to_bits());
        }
    }
    assert_eq!(Double::add(num(-0.0), num(-0.0)).bits, (-0.0f64).to_bits());
    assert_eq!(Double::add(num(-0.0), num(0.0)).bits, 0.0f64.to_bits());
    let nothing: Vec<f64> = Vec::new();
    assert_eq!(Double::minus_zero().bits, nothing.iter().sum::<f64>().to_bits());
}

#[test]
fn differences_agree_with_floats() {
    let v = samples();
    for a in &v {
        for b in v.iter().take(60) {
            for (x, y) in [(*a, *b), (-a, *b), (*a, -b), (-a, -b)] {
                let d = float(Double::minus(num(x), num(y)));
                let e = x - y;
                assert!(d.to_bits() == e.to_bits() || (d.is_nan() && e.is_nan()), "{x} - {y}");
            }
        }
    }
}

#[test]
fn quotients_agree_with_floats() {
    let v = samples();
    for a in &v {
        for b in v.iter().filter(|b| **b > 0.0) {
            for x in [*a, -a] {
                let d = float(num(x).over(num(*b)));
                let e = x / b;
                assert!(d.to_bits() == e.to_bits() || (d.is_nan() && e.is_nan()), "{x} / {b}");
            }
        }
    }
}

#[test]
fn products_agree_with_floats() {
    for x in samples() {
        for k in [1u64, 3, 8, 100] {
            assert_eq!(float(num(x).times(k)).to_bits(), (x * k as f64).to_bits());
            assert_eq!(float(num(-x).times(k)).to_bits(), (-x * k as f64).to_bits());
        }
    }
}

#[test]
fn counts_and_rates_agree_with_floats() {
    let counts = [
        0u64,
        1,
        2,
        3,
        10,
        600,
        1_000,
        3_600_000,
        9_007_199_254_740_992,
        9_007_199_254_740_993,
        u64::MAX / 3,
        u64::MAX - 1_023,
        u64::MAX,
    ];
    for a in counts {
        assert_eq!(float(Double::count(a)).to_bits(), (a as f64).to_bits());
        for b in counts {
            let expected = if b > 0 { Some(a as f64 / b as f64) } else { None };
            assert_eq!(rate(a, b).map(float), expected);
        }
    }
}

#[test]
fn comparisons_agree_with_floats() {
    let mut v = samples();
    v.push(f64::NAN);
    v.push(-0.0);
    for a in &v {
        for b in &v {
            for (x, y) in [(*a, *b), (-a, *b), (-a, -b)] {
                assert_eq!(num(x).gt(num(y)), x > y);
                assert_eq!(num(x).ge(num(y)), x >= y);
                assert_eq!(
                    num(x).order_key().cmp(&num(y).order_key()),
                    x.total_cmp(&y)
                );
            }
        }
    }
}

#[test]
fn complements_agree_with_floats() {
    for part in 0..50u64 {
        let r = Double::ratio(part, 49);
        if part <= 49 {
            assert_eq!(float(r.complement()), 1.0 - part as f64 / 49.0);
        }
    }
    assert_eq!(float(Double::ratio(1, u64::MAX).complement()), 1.0 - 1.0 / u64::MAX as f64);
}

#[test]
fn levels_agree_with_floats() {
    for whole in [1u64, 3, 7, 100, 999_999, u64::MAX] {
        for i in 0..=24u64 {
            let part = (whole as u128 * i as u128 / 24) as u64;
            for k in [3u64, 8] {
                let expected = (part as f64 / whole as f64 * k as f64).round() as u64;
                assert_eq!(Double::level(Double::count(part), Double::count(whole), k), expected);
            }
        }
    }
}
