use dominator_animation::double::Double;
use dominator_animation::easing;
use dominator_animation::percentage::{range_inclusive, Percentage};

fn double(x: f64) -> Double {
    Double::from_bits(x.to_bits())
}

fn number(x: Double) -> f64 {
    f64::from_bits(x.to_bits())
}

fn percentage(x: f64) -> Percentage {
    Percentage::new_unchecked(double(x))
}

#[test]
fn new_holds_its_input() {
    assert_eq!(number(Percentage::new(double(0.25)).into_f64()), 0.25);
    assert_eq!(number(Percentage::new(double(0.0)).into_f64()), 0.0);
    assert_eq!(number(Percentage::new(double(1.0)).into_f64()), 1.0);
    assert_eq!(number(Percentage::new_unchecked(double(7.5)).into_f64()), 7.5);
}

#[test]
fn map_applies_the_function() {
    let p = percentage(0.25).map(|x| x.add(double(0.5)));
    assert_eq!(number(p.into_f64()), 0.75);
    let q = percentage(0.25).map_unchecked(|x| x.mul(double(8.0)));
    assert_eq!(number(q.into_f64()), 2.0);
}

#[test]
fn invert_gives_the_rest() {
    assert_eq!(number(percentage(0.25).invert().into_f64()), 0.75);
    assert_eq!(number(percentage(0.0).invert().into_f64()), 1.0);
    assert_eq!(percentage(1.0).invert().into_f64().to_bits(), 0);
    assert_eq!(number(percentage(0.1).invert().into_f64()), 1.0 - 0.1);
    assert_eq!(number(percentage(1.5).invert().into_f64()), -0.5);
}

#[test]
fn inverting_keeps_the_range_and_reverses_the_order() {
    let mut last = 2.0;
    for i in 0..=1000 {
        let x = i as f64 / 1000.0;
        let y = number(percentage(x).invert().into_f64());
        assert!((0.0..=1.0).contains(&y));
        assert!(y <= last);
        last = y;
    }
}

#[test]
fn range_goes_from_low_to_high() {
    assert_eq!(number(percentage(0.0).range_inclusive(double(20.0), double(100.0))), 20.0);
    assert_eq!(number(percentage(0.5).range_inclusive(double(20.0), double(100.0))), 60.0);
    assert_eq!(number(percentage(1.0).range_inclusive(double(20.0), double(100.0))), 100.0);
    assert_eq!(number(percentage(0.25).range_inclusive(double(8.0), double(4.0))), 7.0);
    assert_eq!(number(range_inclusive(double(0.1), double(0.2), double(0.7))), 0.2 + 0.1 * (0.7 - 0.2));
}

#[test]
fn range_is_monotone() {
    let (low, high) = (0.1, 0.7);
    let mut last = low;
    for i in 0..=1000 {
        let x = number(percentage(i as f64 / 1000.0).range_inclusive(double(low), double(high)));
        assert!(last <= x);
        last = x;
    }
}

#[test]
fn range_may_miss_its_upper_end_by_rounding() {
    // The difference of these two is not a double.
    let (low, high): (f64, f64) = (1.0e16, 1.0);
    let end = number(percentage(1.0).range_inclusive(double(low), double(high)));
    assert_eq!(end, low + (high - low));
    assert!(end != high);
}

#[test]
fn none_if_compares_numbers() {
    assert_eq!(percentage(0.0).none_if(double(0.0)), None);
    assert_eq!(percentage(-0.0).none_if(double(0.0)), None);
    assert_eq!(percentage(0.5).none_if(double(0.0)), Some(percentage(0.5)));
    assert!(percentage(f64::NAN).none_if(double(f64::NAN)).is_some());
}

#[test]
fn percentages_compare_as_numbers() {
    assert!(percentage(0.0) == percentage(-0.0));
    assert!(percentage(0.1) != percentage(0.2));
    assert!(percentage(f64::NAN) != percentage(f64::NAN));
}

fn square(p: Percentage) -> Percentage {
    p.map_unchecked(|x| x.mul(x))
}

#[test]
fn out_is_the_curve_backwards() {
    let y = number(easing::out(percentage(0.25), square).into_f64());
    assert_eq!(y, 1.0 - 0.75 * 0.75);
    assert_eq!(number(easing::out(percentage(0.0), square).into_f64()), 0.0);
    assert_eq!(number(easing::out(percentage(1.0), square).into_f64()), 1.0);
}

#[test]
fn in_out_follows_both_halves() {
    for i in 0..=100 {
        let p = i as f64 / 100.0;
        let expected = if p <= 0.5 {
            (p * 2.0) * (p * 2.0) / 2.0
        } else {
            1.0 - ((1.0 - p) * 2.0) * ((1.0 - p) * 2.0) / 2.0
        };
        let y = number(easing::in_out(percentage(p), square).into_f64());
        assert_eq!(y, expected);
        assert!((0.0..=1.0).contains(&y));
    }
    assert_eq!(number(easing::in_out(percentage(0.5), square).into_f64()), 0.5);
    assert!(easing::in_out(percentage(f64::NAN), square).into_f64().is_nan());
}

#[test]
fn less_than_the_whole_way_stays_within_it() {
    // The difference of these two is rounded up, and so is its sum with the
    // first one.
    let ulp = f64::EPSILON;
    let (low, high) = (1.5 * ulp, 1.0 + 3.0 * ulp);
    let near = 1.0 - ulp / 2.0;
    assert!(low + (high - low) > high);
    let x = number(percentage(near).range_inclusive(double(low), double(high)));
    assert!(low <= x && x <= high);
    let x = number(percentage(near).range_inclusive(double(high), double(low)));
    assert!(low <= x && x <= high);
}

#[test]
fn in_out_keeps_the_ends_and_the_order() {
    let curve = |x: f64| number(easing::in_out(percentage(x), square).into_f64());
    assert_eq!(curve(0.0), 0.0);
    assert_eq!(curve(0.5), 0.5);
    assert_eq!(curve(1.0), 1.0);
    let mut last = 0.0;
    for i in 0..=1000 {
        let y = curve(i as f64 / 1000.0);
        assert!(last <= y);
        last = y;
    }
}

#[test]
fn powers_are_those_of_native_numbers() {
    let exponents = [0, 1, 2, 3, 4, 5, 7, 10, 31, 100, -1, -2, -3, -8, i32::MAX, i32::MIN];
    for i in 0..=200 {
        let x = std::hint::black_box(i as f64 / 200.0);
        for n in exponents {
            let n = std::hint::black_box(n);
            let y = number(easing::powi(percentage(x), n).into_f64());
            assert_eq!(y.to_bits(), x.powi(n).to_bits());
        }
        let y = number(easing::cubic(percentage(x)).into_f64());
        assert_eq!(y, x * (x * x));
        assert!(0.0 <= y && y <= x);
    }
    assert_eq!(number(easing::powi(percentage(0.5), 3).into_f64()), 0.125);
    assert_eq!(number(easing::powi(percentage(0.5), -2).into_f64()), 4.0);
    assert_eq!(number(easing::powi(percentage(0.0), 0).into_f64()), 1.0);
    assert_eq!(number(easing::powi(percentage(0.0), -1).into_f64()), f64::INFINITY);
    assert!(easing::cubic(percentage(f64::NAN)).into_f64().is_nan());
}

#[test]
fn powers_keep_the_ends_and_the_order() {
    for n in 1..8 {
        assert_eq!(number(easing::powi(percentage(0.0), n).into_f64()), 0.0);
        assert_eq!(number(easing::powi(percentage(1.0), n).into_f64()), 1.0);
        let mut last = 0.0;
        for i in 0..=1000 {
            let x = i as f64 / 1000.0;
            let y = number(easing::powi(percentage(x), n).into_f64());
            assert!(last <= y && y <= x);
            last = y;
        }
    }
}

#[test]
fn a_cubic_curve_in_and_out() {
    let curve = |x: f64| number(easing::in_out(percentage(x), easing::cubic).into_f64());
    assert_eq!(curve(0.25), 0.0625);
    assert_eq!(curve(0.75), 0.9375);
    assert_eq!(number(easing::out(percentage(0.5), easing::cubic).into_f64()), 0.875);
}

#[test]
fn in_out_is_symmetric() {
    let mut checked = 0;
    for i in 0..5000 {
        let p = percentage(i as f64 / 10000.0);
        if p.invert().invert() != p {
            continue;
        }
        checked += 1;
        for curve in [square as fn(Percentage) -> Percentage, easing::cubic] {
            let mirrored = easing::in_out(p.invert(), curve).into_f64();
            let expected = easing::in_out(p, curve).invert().into_f64();
            assert_eq!(mirrored.to_bits(), expected.to_bits());
        }
    }
    assert!(checked > 100);
    // A negative zero does not come back, and a curve may see the difference.
    assert_eq!(percentage(-0.0).invert().invert().into_f64().to_bits(), 0);
}
