use rastar::fixed::FX_ONE;
use rastar::utils::interpolate;

#[test]
fn length_is_span_plus_one() {
    let v = interpolate(-3, 0, 5, 8 * FX_ONE);
    assert_eq!(v.len(), 9);
    let w = interpolate(0, 7, 0, 7);
    assert_eq!(w.len(), 1);
    let u = interpolate(10, -FX_ONE, 110, FX_ONE);
    assert_eq!(u.len(), 101);
}

#[test]
fn degenerate_range_yields_single_start_value() {
    let v = interpolate(7, 1234, 7, 99999);
    assert_eq!(v, vec![1234]);
}

#[test]
fn exact_even_steps() {
    let v = interpolate(0, 0, 4, 8 * FX_ONE);
    assert_eq!(v, vec![0, 2 * FX_ONE, 4 * FX_ONE, 6 * FX_ONE, 8 * FX_ONE]);
}

#[test]
fn slope_truncates_toward_zero_in_both_directions() {
    let v = interpolate(0, 0, 3, 2);
    assert_eq!(v, vec![0, 0, 0, 0]);
    let w = interpolate(0, 0, 3, -2);
    assert_eq!(w, vec![0, 0, 0, 0]);
}

#[test]
fn monotonic_nondecreasing_when_rising() {
    let v = interpolate(0, -5 * FX_ONE, 13, 3 * FX_ONE);
    for pair in v.windows(2) {
        assert!(pair[0] <= pair[1]);
    }
    assert_eq!(v[0], -5 * FX_ONE);
}

#[test]
fn monotonic_nonincreasing_when_falling() {
    let v = interpolate(-4, 3 * FX_ONE, 9, -5 * FX_ONE);
    for pair in v.windows(2) {
        assert!(pair[0] >= pair[1]);
    }
    assert_eq!(v[0], 3 * FX_ONE);
}

#[test]
fn values_stay_between_the_endpoints() {
    let v = interpolate(0, -123456, 17, 654321);
    for x in &v {
        assert!(-123456 <= *x && *x <= 654321);
    }
}
