use witchhat_core::float::{add_doubles, divide_double, integer_to_double, less_than, widen};

struct Random(u64);

impl Random {
    fn next(&mut self) -> u64 {
        self.0 = self
            .0
            .wrapping_mul(6364136223846793005)
            .wrapping_add(1442695040888963407);
        let x = self.0;
        (x ^ (x >> 29)).wrapping_mul(0xBF58476D1CE4E5B9) ^ (x >> 17)
    }
}

fn special() -> Vec<f64> {
    vec![
        0.0,
        -0.0,
        1.0,
        -1.0,
        0.1,
        f64::MAX,
        f64::MIN,
        f64::MIN_POSITIVE,
        f64::from_bits(1),
        f64::from_bits(0x000F_FFFF_FFFF_FFFF),
        f64::EPSILON,
        1.0 + f64::EPSILON,
        9_007_199_254_740_992.0,
        1e300,
        -1e300,
        f64::INFINITY,
        f64::NEG_INFINITY,
        f64::NAN,
    ]
}

fn same(bits: u64, expected: f64) -> bool {
    if expected.is_nan() {
        f64::from_bits(bits).is_nan()
    } else {
        bits == expected.to_bits()
    }
}

#[test]
fn sums_are_those_of_the_machine() {
    for a in special() {
        for b in special() {
            let r = add_doubles(a.to_bits(), b.to_bits());
            assert!(same(r, a + b), "{a} + {b} = {}", f64::from_bits(r));
        }
    }
    let mut random = Random(7);
    for _ in 0..20000 {
        let a = random.next();
        let near = a ^ (random.next() >> (random.next() % 64));
        for b in [random.next(), near, near ^ (1 << 63)] {
            let expected = f64::from_bits(a) + f64::from_bits(b);
            assert!(same(add_doubles(a, b), expected));
        }
    }
}

#[test]
fn quotients_are_those_of_the_machine() {
    let mut random = Random(11);
    for a in special() {
        for n in [1u64, 2, 3, 7, 1000, 4294967295, 9007199254740992] {
            assert!(same(divide_double(a.to_bits(), n), a / n as f64));
        }
    }
    for _ in 0..20000 {
        let a = random.next();
        let n = (random.next() >> 11 >> (random.next() % 53)).max(1);
        assert!(same(divide_double(a, n), f64::from_bits(a) / n as f64));
    }
}

#[test]
fn integers_convert_as_the_machine_does() {
    let mut random = Random(13);
    for i in [0i64, 1, -1, i64::MAX, i64::MIN, 9007199254740993, -9007199254740993] {
        assert_eq!(integer_to_double(i as i128), (i as f64).to_bits());
    }
    for u in [u64::MAX, 1 << 63, (1 << 53) + 1, (1 << 54) + 2] {
        assert_eq!(integer_to_double(u as i128), (u as f64).to_bits());
    }
    for _ in 0..20000 {
        let u = random.next() >> (random.next() % 64);
        assert_eq!(integer_to_double(u as i128), (u as f64).to_bits());
        let i = random.next() as i64 >> (random.next() % 64);
        assert_eq!(integer_to_double(i as i128), (i as f64).to_bits());
    }
}

#[test]
fn single_precision_widens_as_the_machine_does() {
    let mut random = Random(17);
    for x in [0.0f32, -0.0, 1.0, f32::MAX, f32::MIN_POSITIVE, f32::INFINITY, f32::NEG_INFINITY] {
        assert_eq!(widen(x.to_bits()), (x as f64).to_bits());
    }
    for bits in [1u32, 0x007F_FFFF, 0x8000_0001] {
        assert_eq!(widen(bits), (f32::from_bits(bits) as f64).to_bits());
    }
    assert!(f64::from_bits(widen(f32::NAN.to_bits())).is_nan());
    for _ in 0..20000 {
        let bits = random.next() as u32;
        assert!(same(widen(bits), f32::from_bits(bits) as f64));
    }
}

#[test]
fn order_is_that_of_the_machine() {
    for a in special() {
        for b in special() {
            assert_eq!(less_than(a.to_bits(), b.to_bits()), a < b);
        }
    }
    let mut random = Random(19);
    for _ in 0..20000 {
        let (a, b) = (random.next(), random.next());
        assert_eq!(less_than(a, b), f64::from_bits(a) < f64::from_bits(b));
    }
}

#[test]
fn exact_values() {
    assert_eq!(add_doubles(1.5f64.to_bits(), 2.25f64.to_bits()), 3.75f64.to_bits());
    assert_eq!(divide_double(1.0f64.to_bits(), 3), 0x3FD5_5555_5555_5555);
    assert_eq!(integer_to_double(1), 0x3FF0_0000_0000_0000);
    assert_eq!(widen(0x3F80_0000), 0x3FF0_0000_0000_0000);
}
