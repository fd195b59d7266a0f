use pendulum_chain::fixed::SCALE;
use pendulum_chain::trig::{cos, sin, FULL_TURN, HALF_TURN, QUARTER_TURN};

#[test]
fn turn_constants_agree() {
    assert_eq!(FULL_TURN, 2 * HALF_TURN);
    assert_eq!(HALF_TURN, 2 * QUARTER_TURN);
    assert!((HALF_TURN as f64 / SCALE as f64 - std::f64::consts::PI).abs() < 1e-9);
}

#[test]
fn sine_is_exact_at_the_quarter_turns() {
    assert_eq!(sin(0), 0);
    assert_eq!(sin(QUARTER_TURN), SCALE);
    assert_eq!(sin(HALF_TURN), 0);
    assert_eq!(sin(HALF_TURN + QUARTER_TURN), -SCALE);
    assert_eq!(sin(FULL_TURN), 0);
    assert_eq!(sin(-QUARTER_TURN), -SCALE);
}

#[test]
fn sine_known_values() {
    assert_eq!(sin(1), 0);
    assert_eq!(sin(523_598_776), 500_000_000);
    assert_eq!(sin(174_532_925), 173_648_177);
    assert_eq!(sin(1_000_000_000), 841_470_984);
    assert_eq!(sin(-1_000_000_000), -841_470_984);
    assert_eq!(sin(7_000_000_000), 656_986_598);
    assert_eq!(sin(i64::MAX), 313_037_082);
    assert_eq!(sin(i64::MIN), -313_037_081);
}

#[test]
fn cosine_known_values() {
    assert_eq!(cos(0), SCALE);
    assert_eq!(cos(QUARTER_TURN), 0);
    assert_eq!(cos(HALF_TURN), -SCALE);
    assert_eq!(cos(174_532_925), 984_807_753);
    assert_eq!(cos(1_000_000_000), 540_302_306);
    assert_eq!(cos(-1_000_000_000), 540_302_306);
    assert_eq!(cos(i64::MAX), -949_740_904);
    assert_eq!(cos(i64::MIN), -949_740_904);
}

#[test]
fn sine_is_odd_and_periodic() {
    let mut a: i64 = -20 * SCALE;
    while a < 20 * SCALE {
        assert_eq!(sin(-a), -sin(a));
        assert_eq!(sin(a + FULL_TURN), sin(a));
        assert_eq!(sin(a + HALF_TURN), -sin(a));
        assert!(sin(a).abs() <= SCALE);
        a += 7_654_321;
    }
}

#[test]
fn sine_stays_close_to_the_true_sine() {
    let mut a: i64 = -7 * SCALE;
    let mut worst: f64 = 0.0;
    while a < 7 * SCALE {
        let x = a as f64 / SCALE as f64;
        let s = sin(a) as f64 / SCALE as f64;
        let c = cos(a) as f64 / SCALE as f64;
        worst = worst.max((s - x.sin()).abs()).max((c - x.cos()).abs());
        a += 1_234_567;
    }
    assert!(worst < 3e-9, "worst error {}", worst);
}

#[test]
fn sine_and_cosine_stay_within_the_unit_circle() {
    let one = SCALE as i128 * SCALE as i128;
    let mut a: i64 = -7 * SCALE;
    while a < 7 * SCALE {
        let s = sin(a) as i128;
        let c = cos(a) as i128;
        assert!(s * s + c * c <= one, "at {}", a);
        assert!(s * s + c * c >= one - 4 * SCALE as i128, "at {}", a);
        a += 987_653;
    }
    for a in [i64::MIN, i64::MIN + 1, -1, 0, 1, 174_532_925, i64::MAX - 1, i64::MAX] {
        let s = sin(a) as i128;
        let c = cos(a) as i128;
        assert!(s * s + c * c <= one, "at {}", a);
    }
}
