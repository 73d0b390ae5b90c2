//! Single precision numbers as bits, and text.
use polyfit::single::{f32_above, f32_below, f32_next, f32_nudge, f32_ulp_distance, F32};
use polyfit::text::{append_decimal, append_mode, append_right_aligned, to_decimal};

fn single(x: f32) -> F32 {
    F32::from_bits(x.to_bits())
}

fn plain(x: F32) -> f32 {
    f32::from_bits(x.to_bits())
}

const SAMPLES: [f32; 15] = [
    0.0,
    -0.0,
    1.0,
    -1.0,
    0.5,
    1e-45,
    -1e-45,
    1.17549435e-38,
    3.5,
    f32::MAX,
    f32::MIN,
    f32::INFINITY,
    f32::NEG_INFINITY,
    f32::NAN,
    -2.5e10,
];

/// Comparisons on bits are comparisons of numbers.
#[test]
fn comparisons_match_machine_numbers() {
    for a in SAMPLES {
        assert_eq!(single(a).is_nan(), a.is_nan());
        for b in SAMPLES {
            assert_eq!(single(a).lt(single(b)), a < b, "{a} < {b}");
            assert_eq!(single(a).le(single(b)), a <= b, "{a} <= {b}");
            assert_eq!(single(a).equals(single(b)), a == b, "{a} == {b}");
        }
    }
    assert!(F32::from_bits(0xffff_ffff).is_nan());
    assert_eq!(single(-1e-45).to_ordinal(), -1);
}

#[test]
fn ulp_distance_counts_steps() {
    let d = |a: f32, b: f32| f32_ulp_distance(single(a), single(b));
    assert_eq!(d(0.0, -0.0), 0);
    assert_eq!(d(1.0, 1.0), 0);
    assert_eq!(d(1.0, f32::from_bits(1.0_f32.to_bits() + 7)), 7);
    assert_eq!(d(f32::from_bits(1.0_f32.to_bits() + 7), 1.0), 7);
    // Through zero
    assert_eq!(d(1e-45, -1e-45), 2);
    assert_eq!(d(0.0, -1e-45), 1);
    assert_eq!(d(f32::MAX, f32::INFINITY), 1);
    assert_eq!(d(f32::INFINITY, f32::NEG_INFINITY), 2 * 0x7f80_0000);
    assert_eq!(d(f32::NAN, 1.0), u32::MAX);
    assert_eq!(d(1.0, f32::NAN), u32::MAX);
    assert_eq!(d(f32::NAN, f32::NAN), u32::MAX);
}

/// No detour is shorter, and only equal numbers are at distance 0.
#[test]
fn ulp_distance_is_a_metric() {
    for a in SAMPLES.iter().filter(|x| !x.is_nan()) {
        for b in SAMPLES.iter().filter(|x| !x.is_nan()) {
            let ab = f32_ulp_distance(single(*a), single(*b));
            assert_eq!(ab == 0, a == b);
            assert_eq!(ab, f32_ulp_distance(single(*b), single(*a)));
            for c in SAMPLES.iter().filter(|x| !x.is_nan()) {
                let ac = f32_ulp_distance(single(*a), single(*c));
                let bc = f32_ulp_distance(single(*b), single(*c));
                assert!(u64::from(ac) <= u64::from(ab) + u64::from(bc));
            }
        }
    }
}

#[test]
fn next_steps_towards_infinity() {
    let next = |x: f32| plain(f32_next(single(x)));
    assert_eq!(next(0.0).to_bits(), 1);
    assert_eq!(next(-0.0).to_bits(), 1);
    assert_eq!(next(1.0).to_bits(), 1.0_f32.to_bits() + 1);
    assert_eq!(next(-1.0).to_bits(), (-1.0_f32).to_bits() - 1);
    assert_eq!(next(-1e-45).to_bits(), (-0.0_f32).to_bits());
    assert_eq!(next(f32::NEG_INFINITY), f32::MIN);
    assert_eq!(next(f32::MAX), f32::MAX);
    assert_eq!(next(f32::INFINITY), f32::INFINITY);
    assert!(next(f32::NAN).is_nan());
    for x in [-3.0_f32, -1e-45, 0.0, 1e-45, 2.0] {
        assert!(x < next(x));
        assert_eq!(f32_ulp_distance(single(x), single(next(x))), 1);
    }
}

/// A nudge moves by as many ULPs as it says, past zero too.
#[test]
fn nudge_moves_by_ulps() {
    let nudge = |x: f32, d: i32| plain(f32_nudge(single(x), d));
    assert_eq!(nudge(1.0, 3).to_bits(), 1.0_f32.to_bits() + 3);
    assert_eq!(nudge(1.0, -3).to_bits(), 1.0_f32.to_bits() - 3);
    assert_eq!(nudge(-1.0, 3).to_bits(), (-1.0_f32).to_bits() + 3);
    assert_eq!(nudge(1.0, 0), 1.0);
    // Past zero
    assert_eq!(nudge(0.0, -1), -1e-45);
    assert_eq!(nudge(0.0, 1), 1e-45);
    assert_eq!(nudge(-0.0, -1), 1e-45);
    assert_eq!(nudge(-0.0, 1), -1e-45);
    assert_eq!(nudge(1e-45, -1).to_bits(), 0.0_f32.to_bits());
    assert_eq!(nudge(-1e-45, -1).to_bits(), (-0.0_f32).to_bits());
    assert_eq!(nudge(1e-45, -3), f32::from_bits(0x8000_0002));
    assert_eq!(nudge(-1e-45, -3), f32::from_bits(2));
    for x in [0.0_f32, -0.0, 1e-45, -1e-45, 1.0, -2.0, 1e30] {
        for d in [-5, -1, 0, 1, 5] {
            assert_eq!(f32_ulp_distance(single(x), single(nudge(x, d))), d.unsigned_abs());
        }
    }
    // Back again, on the same side of zero
    for x in [1.0_f32, -2.0, 1e30] {
        for d in [-5, -1, 1, 5] {
            assert_eq!(nudge(nudge(x, d), -d).to_bits(), x.to_bits());
        }
    }
    // Up to infinity and past it
    assert_eq!(nudge(f32::MAX, 1), f32::INFINITY);
    assert_eq!(nudge(f32::MIN, 1), f32::NEG_INFINITY);
    assert!(nudge(f32::MAX, 2).is_nan());
    assert_eq!(nudge(f32::NAN, 1).to_bits(), f32::NAN.to_bits() + 1);
    assert_eq!(nudge(nudge(f32::MAX, 2), -2), f32::MAX);
    assert_eq!(f32_nudge(F32::from_bits(u32::MAX), 1).to_bits(), 0);
}

#[test]
fn neighbours_are_one_step_away() {
    for x in [0.0_f32, -0.0, 1e-45, -1e-45, 0.5, -0.5, f32::MAX, f32::MIN] {
        let below = plain(f32_below(single(x)));
        let above = plain(f32_above(single(x)));
        assert!(below < x && x < above, "{below:e} {x:e} {above:e}");
        assert_eq!(f32_ulp_distance(single(below), single(above)), 2);
    }
    assert!(f32_below(single(f32::NAN)).is_nan());
    assert!(f32_above(single(f32::NAN)).is_nan());
}

#[test]
fn numbers_are_written() {
    for n in [0_u64, 7, 10, 99, 1234567890, u64::MAX] {
        assert_eq!(to_decimal(n), n.to_string());
    }
    let mut out = String::from("n=");
    append_decimal(&mut out, 42);
    append_right_aligned(&mut out, "ab", 5);
    append_right_aligned(&mut out, "abcdef", 5);
    append_mode(&mut out, true, 3);
    append_mode(&mut out, false, 0);
    assert_eq!(out, "n=42   ababcdef [exhaustive, n=3] [sampled, n=0]");
}
