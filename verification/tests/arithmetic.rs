use dominator_animation::double::Double;

fn double(x: f64) -> Double {
    Double::from_bits(x.to_bits())
}

fn number(x: Double) -> f64 {
    f64::from_bits(x.to_bits())
}

fn same(ours: Double, theirs: f64) -> bool {
    if theirs.is_nan() {
        ours.is_nan()
    } else {
        ours.to_bits() == theirs.to_bits()
    }
}

const SPECIAL: [f64; 28] = [
    0.0,
    -0.0,
    1.0,
    -1.0,
    0.5,
    2.0,
    0.1,
    0.2,
    0.3,
    0.001,
    1000.0,
    64.0,
    3.0,
    -7.25,
    1.0e300,
    -1.0e300,
    1.0e-300,
    f64::MAX,
    f64::MIN,
    f64::MIN_POSITIVE,
    5.0e-324,
    -5.0e-324,
    2.2250738585072009e-308,
    f64::EPSILON,
    1.0000000000000002,
    f64::INFINITY,
    f64::NEG_INFINITY,
    f64::NAN,
];

/// A sequence of bit patterns without any order.
struct Patterns(u64);

impl Patterns {
    fn next(&mut self) -> u64 {
        self.0 ^= self.0 << 13;
        self.0 ^= self.0 >> 7;
        self.0 ^= self.0 << 17;
        self.0
    }

    /// Any double.
    fn any(&mut self) -> f64 {
        f64::from_bits(self.next())
    }

    /// A double with an exponent near that of one.
    fn near(&mut self) -> f64 {
        let bits = self.next();
        let exponent = 1023 - 30 + (bits >> 52) % 60;
        f64::from_bits((bits & 0x800f_ffff_ffff_ffff) | exponent << 52)
    }

    /// A double with few bits, so that ties occur.
    fn round(&mut self) -> f64 {
        let bits = self.next();
        (bits % 64) as f64 * f64::from_bits((1023 - 40 + (bits >> 32) % 80) << 52)
    }
}

fn compare_all(x: f64, y: f64) {
    let (a, b) = (double(x), double(y));
    assert!(same(a.add(b), x + y), "{:e} + {:e}", x, y);
    assert!(same(a.sub(b), x - y), "{:e} - {:e}", x, y);
    assert!(same(a.mul(b), x * y), "{:e} * {:e}", x, y);
    assert!(same(a.div(b), x / y), "{:e} / {:e}", x, y);
    assert!(same(a.sqrt(), x.sqrt()), "sqrt {:e}", x);
    assert_eq!(a == b, x == y);
    assert_eq!(a != b, x != y);
    assert_eq!(a.less_than(b), x < y);
    assert_eq!(a.at_most(b), x <= y);
    assert_eq!(a.negate().to_bits(), (-x).to_bits());
    assert_eq!(a.abs().to_bits(), x.abs().to_bits());
    assert_eq!(a.is_nan(), x.is_nan());
}

#[test]
fn special_numbers() {
    for x in SPECIAL {
        for y in SPECIAL {
            compare_all(x, y);
        }
    }
}

#[test]
fn any_numbers() {
    let mut patterns = Patterns(0x9e37_79b9_7f4a_7c15);
    for _ in 0..20_000 {
        let x = patterns.any();
        let y = patterns.any();
        compare_all(x, y);
    }
}

#[test]
fn near_numbers() {
    let mut patterns = Patterns(0x1234_5678_9abc_def1);
    for _ in 0..20_000 {
        let x = patterns.near();
        let y = patterns.near();
        compare_all(x, y);
    }
}

#[test]
fn ties() {
    let mut patterns = Patterns(0xfeed_beef_cafe_f00d);
    for _ in 0..20_000 {
        let x = patterns.round();
        let y = patterns.round();
        compare_all(x, y);
        compare_all(x * 9007199254740991.0, y);
        compare_all(x, -y);
    }
}

#[test]
fn smallest_numbers() {
    let mut patterns = Patterns(0x0123_4567_89ab_cdef);
    for _ in 0..5_000 {
        let x = f64::from_bits(patterns.next() % 0x30_0000_0000_0000);
        let y = f64::from_bits(patterns.next() % 0x30_0000_0000_0000);
        compare_all(x, y);
        compare_all(x, 0.3);
        compare_all(0.7, y);
        compare_all(x, 1.0e308);
    }
}

#[test]
fn largest_numbers() {
    let mut patterns = Patterns(0x7777_1111_3333_5555);
    for _ in 0..5_000 {
        let x = f64::from_bits(0x7fe0_0000_0000_0000 + patterns.next() % 0x10_0000_0000_0000);
        let y = f64::from_bits(0x7fd0_0000_0000_0000 + patterns.next() % 0x20_0000_0000_0000);
        compare_all(x, y);
        compare_all(x, -y);
        compare_all(x, 0.5);
    }
}

#[test]
fn numbers_far_apart() {
    let mut patterns = Patterns(0x2468_ace0_1357_9bdf);
    for shift in 0..160u64 {
        for _ in 0..40 {
            let x = patterns.near();
            let y = f64::from_bits((patterns.next() & 0x800f_ffff_ffff_ffff) | (1023 - shift) << 52);
            compare_all(x, y);
        }
    }
}

#[test]
fn exact_values() {
    assert_eq!(number(double(0.1).add(double(0.2))), 0.30000000000000004);
    assert_eq!(number(double(1.0).sub(double(0.9))), 0.09999999999999998);
    assert_eq!(number(double(0.1).mul(double(3.0))), 0.30000000000000004);
    assert_eq!(number(double(1.0).div(double(3.0))), 0.3333333333333333);
    assert_eq!(number(double(2.0).sqrt()), 1.4142135623730951);
    assert_eq!(double(-0.0).sqrt().to_bits(), (-0.0f64).to_bits());
    assert!(double(-1.0).sqrt().is_nan());
    assert_eq!(number(Double::zero()), 0.0);
    assert_eq!(number(Double::half()), 0.5);
    assert_eq!(number(Double::one()), 1.0);
}
