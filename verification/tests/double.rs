use taipei_housing::double::{close, Double};

fn double(x: f64) -> Double {
    Double { bits: x.to_bits() }
}

fn expected(a: f64, b: f64, tolerance: f64) -> bool {
    (a - b).abs() <= tolerance
}

#[test]
fn close_is_what_the_arithmetic_of_doubles_says() {
    let mut values = vec![
        0.0,
        -0.0,
        1.0,
        -1.0,
        0.1,
        0.2,
        0.3,
        0.30000000000000004,
        36.3,
        36.4,
        36.39,
        36.5,
        26.09,
        26.1,
        1e-300,
        5e-324,
        -5e-324,
        f64::MIN_POSITIVE,
        1e300,
        -1e300,
        f64::MAX,
        f64::MIN,
        f64::INFINITY,
        f64::NEG_INFINITY,
        f64::NAN,
        4503599627370496.0,
        9007199254740993.0,
    ];
    // Neighbours at and around the tolerance.
    let mut x: f64 = 10.0;
    for _ in 0..40 {
        x += 0.7;
        values.push(x);
        values.push(x + 0.1);
        values.push(x - 0.1);
        values.push(x + 0.01);
        values.push(f64::from_bits((x + 0.1).to_bits() + 1));
        values.push(f64::from_bits((x + 0.1).to_bits() - 1));
        values.push(f64::from_bits((x + 0.01).to_bits() + 1));
    }
    for &a in &values {
        for &b in &values {
            for tolerance in [0.1, 0.01] {
                assert_eq!(
                    close(double(a), double(b), double(tolerance)),
                    expected(a, b, tolerance),
                    "{a:?} {b:?} {tolerance:?}"
                );
            }
        }
    }
}

#[test]
fn close_agrees_on_arbitrary_bits() {
    let mut state: u64 = 0x9e37_79b9_7f4a_7c15;
    let mut next = || {
        state ^= state << 13;
        state ^= state >> 7;
        state ^= state << 17;
        state
    };
    for _ in 0..20000 {
        let a = f64::from_bits(next());
        let b = f64::from_bits(next());
        let near = f64::from_bits(a.to_bits() ^ (next() & 0xffff));
        assert_eq!(close(double(a), double(b), double(0.1)), expected(a, b, 0.1), "{a:?} {b:?}");
        assert_eq!(
            close(double(a), double(near), double(0.01)),
            expected(a, near, 0.01),
            "{a:?} {near:?}"
        );
    }
    for i in 0..20000u64 {
        let a = (next() % 100_000) as f64 / 100.0;
        let b = a + ((i % 41) as f64 - 20.0) / 200.0;
        assert_eq!(close(double(a), double(b), double(0.1)), expected(a, b, 0.1), "{a:?} {b:?}");
        assert_eq!(close(double(a), double(b), double(0.01)), expected(a, b, 0.01), "{a:?} {b:?}");
    }
}
