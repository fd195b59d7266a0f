use pendulum_chain::chain::{Chain, ChainConfig};
use pendulum_chain::error::SimError;
use pendulum_chain::fixed::{half, SCALE};
use pendulum_chain::pendulum::{Pendulum, GRAVITY};
use pendulum_chain::trig::{HALF_TURN, QUARTER_TURN};

fn config(link_count: usize) -> ChainConfig {
    ChainConfig {
        link_count,
        base_angle: HALF_TURN + QUARTER_TURN,
        angle_step: QUARTER_TURN,
        arm_length: 25 * SCALE,
        gravity: GRAVITY,
        damping: SCALE,
    }
}

fn snapshot(chain: &Chain) -> Vec<(i64, i64, i64)> {
    let mut all = Vec::new();
    for i in 0..chain.len() {
        let p = chain.link(i).unwrap();
        all.push((p.angle(), p.speed(), p.arm_length()));
    }
    all
}

#[test]
fn new_lays_out_the_starting_angles() {
    let chain = Chain::new(&config(3)).unwrap();
    assert_eq!(chain.len(), 3);
    assert_eq!(chain.gravity(), GRAVITY);
    assert_eq!(chain.damping(), SCALE);
    assert_eq!(
        snapshot(&chain),
        vec![
            (4_712_388_981, 0, 25 * SCALE),
            (3_141_592_654, 0, 25 * SCALE),
            (1_570_796_327, 0, 25 * SCALE),
        ]
    );
    assert!(chain.link(3).is_none());
    assert!(chain.link(usize::MAX).is_none());
}

#[test]
fn new_refuses_a_chain_without_links() {
    assert_eq!(Chain::new(&config(0)).err(), Some(SimError::InvalidChain));
    // The missing links are reported before the bad length.
    let mut c = config(0);
    c.arm_length = 0;
    assert_eq!(Chain::new(&c).err(), Some(SimError::InvalidChain));
}

#[test]
fn new_refuses_a_length_of_zero_or_less() {
    for bad in [0, -1, -25 * SCALE, i64::MIN] {
        let mut c = config(2);
        c.arm_length = bad;
        assert_eq!(Chain::new(&c).err(), Some(SimError::InvalidLength));
    }
    let mut c = config(2);
    c.arm_length = 1;
    assert!(Chain::new(&c).is_ok());
}

#[test]
fn new_refuses_an_angle_that_cannot_be_held() {
    let mut c = config(2);
    c.base_angle = i64::MAX;
    c.angle_step = -1;
    assert_eq!(Chain::new(&c).err(), Some(SimError::NonFinite));
    c.link_count = 1;
    assert!(Chain::new(&c).is_ok());
    c.link_count = 3;
    c.base_angle = i64::MIN + 1;
    c.angle_step = 1;
    assert_eq!(Chain::new(&c).err(), Some(SimError::NonFinite));
    c.link_count = 2;
    assert_eq!(snapshot(&Chain::new(&c).unwrap())[1].0, i64::MIN);
}

#[test]
fn from_links_refuses_an_empty_row() {
    assert_eq!(Chain::from_links(Vec::new(), GRAVITY, SCALE).err(), Some(SimError::InvalidChain));
}

#[test]
fn from_links_keeps_the_links() {
    let links = vec![Pendulum::new(1, 2, 3).unwrap(), Pendulum::new(4, 5, 6).unwrap()];
    let chain = Chain::from_links(links, 7, 8).unwrap();
    assert_eq!(snapshot(&chain), vec![(1, 2, 3), (4, 5, 6)]);
    assert_eq!(chain.gravity(), 7);
    assert_eq!(chain.damping(), 8);
}

#[test]
fn two_links_one_tick() {
    let mut chain = Chain::new(&config(2)).unwrap();
    assert_eq!(chain.tick(16_000_000), Ok(()));
    // Link 0 gains -0.0062848 and hands 0.0062848 on; link 1 takes up half of
    // it before its own step, in which it hangs at pi and gains nothing.
    assert_eq!(
        snapshot(&chain),
        vec![(4_718_673_781, -6_284_800, 25 * SCALE), (3_138_450_254, 3_142_400, 25 * SCALE)]
    );
    let first = chain.link(0).unwrap();
    let second = chain.link(1).unwrap();
    let unit = SCALE as f64;
    let gain = (1.5 * std::f64::consts::PI).sin() * 9.82 / 25.0 * 0.016;
    assert!((gain + 0.006285).abs() < 1e-6);
    assert!((first.speed() as f64 / unit - gain).abs() < 1e-8);
    assert!((first.angle() as f64 / unit - (1.5 * std::f64::consts::PI - gain)).abs() < 1e-8);
    assert!((second.speed() as f64 / unit - 0.0031425).abs() < 1e-6);
    assert!((second.speed() as f64 / unit + gain / 2.0).abs() < 1e-8);
}

#[test]
fn the_link_before_takes_up_a_quarter() {
    let links = vec![
        Pendulum::new(1_000_000_000, 0, 25 * SCALE).unwrap(),
        Pendulum::new(2_000_000_000, 500_000, 10 * SCALE).unwrap(),
    ];
    let mut chain = Chain::from_links(links, GRAVITY, SCALE).unwrap();
    assert_eq!(chain.tick(20_000_000), Ok(()));
    assert_eq!(
        snapshot(&chain),
        vec![(993_389_404, 2_145_946, 25 * SCALE), (1_984_946_697, 15_053_303, 10 * SCALE)]
    );
}

#[test]
fn three_links_five_damped_ticks() {
    let mut c = config(3);
    c.angle_step = -31_415_927;
    c.arm_length = 83_333_333_333;
    c.damping = 999_000_000;
    let mut chain = Chain::new(&c).unwrap();
    for _ in 0..5 {
        assert_eq!(chain.tick(16_000_000), Ok(()));
    }
    assert_eq!(
        snapshot(&chain),
        vec![
            (4_735_930_699, -7_057_294, 83_333_333_333),
            (4_753_231_215, -2_356_661, 83_333_333_333),
            (4_789_304_905, -4_690_747, 83_333_333_333),
        ]
    );
}

#[test]
fn a_tick_visits_the_links_in_order() {
    // The same pass written out by hand, one visit after the other.
    let mut c = config(4);
    c.angle_step = 400_000_000;
    c.damping = 990_000_000;
    let mut chain = Chain::new(&c).unwrap();
    let mut links: Vec<Pendulum> = (0..4).map(|i| chain.link(i).unwrap()).collect();
    for _ in 0..50 {
        assert_eq!(chain.tick(16_000_000), Ok(()));
        for i in 0..links.len() {
            links[i].damp(c.damping).unwrap();
            let v = links[i].integrate(c.gravity, 16_000_000).unwrap();
            if i > 0 {
                links[i - 1].angle_influence(half(v)).unwrap();
            }
            if i + 1 < links.len() {
                links[i + 1].angle_influence(v).unwrap();
            }
        }
        for i in 0..links.len() {
            assert_eq!(chain.link(i), Some(links[i]));
        }
    }
}

#[test]
fn a_tick_does_not_gather_the_influences_first() {
    // With all influences taken from the state before the tick, link 1 would
    // move by its old speed alone.
    let mut chain = Chain::new(&config(2)).unwrap();
    chain.tick(16_000_000).unwrap();
    let second = chain.link(1).unwrap();
    assert_ne!(second.angle(), HALF_TURN);
    assert_eq!(second.angle(), HALF_TURN - 3_142_400);
}

#[test]
fn a_single_link_is_a_lone_pendulum() {
    let mut chain = Chain::new(&config(1)).unwrap();
    let mut alone = Pendulum::new(HALF_TURN + QUARTER_TURN, 0, 25 * SCALE).unwrap();
    for _ in 0..500 {
        assert_eq!(chain.tick(16_000_000), Ok(()));
        assert!(alone.update_angle(16_000_000).is_ok());
        assert_eq!(chain.link(0), Some(alone));
    }
}

#[test]
fn a_damped_single_link_is_damped_then_integrated() {
    let mut c = config(1);
    c.damping = 900_000_000;
    let mut chain = Chain::new(&c).unwrap();
    let mut alone = chain.link(0).unwrap();
    for _ in 0..100 {
        assert_eq!(chain.tick(16_000_000), Ok(()));
        alone.damp(900_000_000).unwrap();
        alone.integrate(GRAVITY, 16_000_000).unwrap();
        assert_eq!(chain.link(0), Some(alone));
    }
}

#[test]
fn two_runs_agree() {
    let steps = [16_000_000, 17_000_000, 1, 0, 33_000_000, 16_000_000, 250_000_000];
    let mut c = config(5);
    c.angle_step = -31_415_927;
    let mut first = Chain::new(&c).unwrap();
    let mut second = Chain::new(&c).unwrap();
    for round in 0..200 {
        let dt = steps[round % steps.len()];
        assert_eq!(first.tick(dt), second.tick(dt));
        assert_eq!(snapshot(&first), snapshot(&second));
    }
}

#[test]
fn a_tick_of_no_time_moves_nothing() {
    let links =
        vec![Pendulum::new(1_000, 10, SCALE).unwrap(), Pendulum::new(2_000, -20, SCALE).unwrap()];
    let mut chain = Chain::from_links(links, GRAVITY, SCALE).unwrap();
    assert!(chain.can_tick(0));
    assert_eq!(chain.tick(0), Ok(()));
    assert_eq!(snapshot(&chain), vec![(1_000, 10, SCALE), (2_000, -20, SCALE)]);
}

#[test]
fn a_tick_of_no_time_still_damps() {
    let links = vec![Pendulum::new(1_000, 10, SCALE).unwrap()];
    let mut chain = Chain::from_links(links, GRAVITY, SCALE / 2).unwrap();
    assert_eq!(chain.tick(0), Ok(()));
    assert_eq!(snapshot(&chain), vec![(1_000, 5, SCALE)]);
}

#[test]
fn a_chain_at_rest_stays_at_rest() {
    let mut c = config(4);
    c.base_angle = 0;
    c.angle_step = 0;
    let mut chain = Chain::new(&c).unwrap();
    let before = snapshot(&chain);
    for dt in [0, 16_000_000, SCALE, i64::MAX] {
        assert_eq!(chain.tick(dt), Ok(()));
        assert_eq!(snapshot(&chain), before);
    }
}

#[test]
fn a_failed_tick_changes_nothing() {
    // Link 0 can be stepped, link 1 cannot: its doubled speed does not fit.
    let links = vec![
        Pendulum::new(QUARTER_TURN, 0, 25 * SCALE).unwrap(),
        Pendulum::new(0, i64::MAX / 2 + 1_000_000_000, 25 * SCALE).unwrap(),
    ];
    let mut chain = Chain::from_links(links, GRAVITY, 2 * SCALE).unwrap();
    let before = snapshot(&chain);
    assert_eq!(chain.tick(16_000_000), Err(SimError::NonFinite));
    assert_eq!(snapshot(&chain), before);
    assert_eq!(chain.tick(16_000_000), Err(SimError::NonFinite));
    assert_eq!(snapshot(&chain), before);
}

#[test]
fn a_tick_fails_where_an_influence_cannot_be_taken_up() {
    // Link 0 hangs straight down at the greatest speed and gains nothing.
    // Link 1 is visited last and hands a quarter of its influence back to
    // link 0, whose speed has no room left for it.
    let first = Pendulum::new(0, i64::MAX, 25 * SCALE).unwrap();
    let second = Pendulum::new(-QUARTER_TURN, 0, 25 * SCALE).unwrap();
    let mut chain = Chain::from_links(vec![first, second], GRAVITY, SCALE).unwrap();
    let before = snapshot(&chain);
    assert!(!chain.can_tick(16_000_000));
    assert_eq!(chain.tick(16_000_000), Err(SimError::NonFinite));
    assert_eq!(snapshot(&chain), before);

    // Alone, link 0 can be stepped.
    let mut alone = Chain::from_links(vec![first], GRAVITY, SCALE).unwrap();
    assert_eq!(alone.tick(16_000_000), Ok(()));
    assert_eq!(snapshot(&alone), vec![(-i64::MAX, i64::MAX, 25 * SCALE)]);

    // With link 1 on the other side the influence slows link 0 down.
    let other = Pendulum::new(QUARTER_TURN, 0, 25 * SCALE).unwrap();
    let mut fine = Chain::from_links(vec![first, other], GRAVITY, SCALE).unwrap();
    assert_eq!(fine.tick(16_000_000), Ok(()));
    assert_eq!(
        snapshot(&fine),
        vec![
            (-i64::MAX, i64::MAX - 1_571_200, 25 * SCALE),
            (QUARTER_TURN - 6_284_800, 6_284_800, 25 * SCALE),
        ]
    );
}

#[test]
fn set_arm_length_reaches_every_link() {
    let mut chain = Chain::new(&config(3)).unwrap();
    assert_eq!(chain.set_arm_length(40 * SCALE), Ok(()));
    assert_eq!(
        snapshot(&chain),
        vec![
            (4_712_388_981, 0, 40 * SCALE),
            (3_141_592_654, 0, 40 * SCALE),
            (1_570_796_327, 0, 40 * SCALE),
        ]
    );
}

#[test]
fn set_arm_length_refuses_zero_before_any_tick() {
    let mut chain = Chain::new(&config(2)).unwrap();
    let before = snapshot(&chain);
    assert_eq!(chain.set_arm_length(0), Err(SimError::InvalidLength));
    assert_eq!(chain.set_arm_length(-1), Err(SimError::InvalidLength));
    assert_eq!(snapshot(&chain), before);
    assert_eq!(chain.tick(16_000_000), Ok(()));
}

#[test]
fn fit_divides_the_smaller_side() {
    let mut chain = Chain::new(&config(2)).unwrap();
    assert_eq!(chain.fit(600 * SCALE, 500 * SCALE), Ok(()));
    assert_eq!(chain.link(0).unwrap().arm_length(), 83_333_333_333);
    assert_eq!(chain.link(1).unwrap().arm_length(), 83_333_333_333);
    assert_eq!(chain.fit(300 * SCALE, 500 * SCALE), Ok(()));
    assert_eq!(chain.link(0).unwrap().arm_length(), 50 * SCALE);
    assert_eq!(chain.fit(i64::MAX, i64::MAX), Ok(()));
    assert_eq!(chain.link(1).unwrap().arm_length(), i64::MAX / 6);
}

#[test]
fn fit_refuses_a_window_too_small() {
    let mut chain = Chain::new(&config(2)).unwrap();
    let before = snapshot(&chain);
    assert_eq!(chain.fit(0, 500 * SCALE), Err(SimError::InvalidLength));
    assert_eq!(chain.fit(600 * SCALE, -1), Err(SimError::InvalidLength));
    assert_eq!(chain.fit(5, 600 * SCALE), Err(SimError::InvalidLength));
    assert_eq!(snapshot(&chain), before);
    assert_eq!(chain.fit(6, 600 * SCALE), Ok(()));
    assert_eq!(chain.link(0).unwrap().arm_length(), 1);
}

#[test]
fn positions_add_up_the_arms() {
    let links = vec![
        Pendulum::new(0, 0, 25 * SCALE).unwrap(),
        Pendulum::new(QUARTER_TURN, 0, 25 * SCALE).unwrap(),
        Pendulum::new(HALF_TURN, 0, 10 * SCALE).unwrap(),
        Pendulum::new(-QUARTER_TURN, 0, 5 * SCALE).unwrap(),
    ];
    let chain = Chain::from_links(links, GRAVITY, SCALE).unwrap();
    let unit = SCALE as i128;
    assert_eq!(
        chain.positions(),
        vec![
            (0, 25 * unit),
            (-25 * unit, 25 * unit),
            (-25 * unit, 15 * unit),
            (-20 * unit, 15 * unit),
        ]
    );
}

#[test]
fn positions_follow_sine_and_cosine() {
    let links = vec![
        Pendulum::new(1_000_000_000, 0, 2 * SCALE).unwrap(),
        Pendulum::new(-1_000_000_000, 0, 3 * SCALE).unwrap(),
    ];
    let chain = Chain::from_links(links, GRAVITY, SCALE).unwrap();
    assert_eq!(
        chain.positions(),
        vec![(-1_682_941_968, 1_080_604_612), (841_470_984, 2_701_511_530)]
    );
}

#[test]
fn positions_of_the_longest_arms_do_not_overflow() {
    let links = vec![
        Pendulum::new(0, 0, i64::MAX).unwrap(),
        Pendulum::new(0, 0, i64::MAX).unwrap(),
        Pendulum::new(0, 0, i64::MAX).unwrap(),
    ];
    let chain = Chain::from_links(links, GRAVITY, SCALE).unwrap();
    let m = i64::MAX as i128;
    assert_eq!(chain.positions(), vec![(0, m), (0, 2 * m), (0, 3 * m)]);
}

#[test]
fn can_tick_foretells_the_tick() {
    let mut good = Chain::new(&config(3)).unwrap();
    let before = snapshot(&good);
    assert!(good.can_tick(16_000_000));
    assert_eq!(snapshot(&good), before);
    assert_eq!(good.tick(16_000_000), Ok(()));

    let links = vec![
        Pendulum::new(QUARTER_TURN, 0, 25 * SCALE).unwrap(),
        Pendulum::new(0, i64::MAX / 2 + 1_000_000_000, 25 * SCALE).unwrap(),
    ];
    let mut bad = Chain::from_links(links, GRAVITY, 2 * SCALE).unwrap();
    assert!(!bad.can_tick(16_000_000));
    assert_eq!(bad.tick(16_000_000), Err(SimError::NonFinite));
}

#[test]
fn a_mirrored_chain_moves_as_the_mirror_image() {
    let mut c = config(3);
    c.base_angle = 1_234_567_890;
    c.angle_step = 345_678_901;
    c.damping = 995_000_000;
    let mut left = Chain::new(&c).unwrap();
    c.base_angle = -c.base_angle;
    c.angle_step = -c.angle_step;
    let mut right = Chain::new(&c).unwrap();
    for _ in 0..300 {
        assert_eq!(left.tick(16_000_000), Ok(()));
        assert_eq!(right.tick(16_000_000), Ok(()));
        let l = snapshot(&left);
        let r = snapshot(&right);
        for i in 0..l.len() {
            assert_eq!(l[i], (-r[i].0, -r[i].1, r[i].2));
        }
    }
}

#[test]
fn the_end_of_an_arm_is_no_further_than_the_arm_is_long() {
    let links = vec![Pendulum::new(174_532_925, 0, SCALE).unwrap()];
    let mut chain = Chain::from_links(links, GRAVITY, SCALE).unwrap();
    assert_eq!(chain.fit(100 * SCALE, 100 * SCALE), Ok(()));
    let arm = chain.link(0).unwrap().arm_length() as i128;
    assert_eq!(arm, 25 * SCALE as i128);
    let tip = chain.positions()[0];
    assert_eq!(tip, (-4_341_204_425, 24_620_193_825));
    assert!(tip.0 * tip.0 + tip.1 * tip.1 <= arm * arm);
}

#[test]
fn every_end_lies_within_the_reach_of_the_arms_before_it() {
    let mut c = config(6);
    c.base_angle = 123_456_789;
    c.angle_step = -987_654_321;
    let mut chain = Chain::new(&c).unwrap();
    assert_eq!(chain.fit(600 * SCALE, 500 * SCALE), Ok(()));
    let arm = chain.link(0).unwrap().arm_length() as i128;
    // Stretched out straight the chain still ends inside the window.
    assert!(2 * 6 * arm < 500 * SCALE as i128);
    for _ in 0..400 {
        assert_eq!(chain.tick(16_000_000), Ok(()));
        let tips = chain.positions();
        for (i, tip) in tips.iter().enumerate() {
            let reach = (i as i128 + 1) * arm;
            assert!(tip.0 * tip.0 + tip.1 * tip.1 <= reach * reach);
        }
    }
}

#[test]
fn end_point_is_the_last_position_seen_from_the_centre() {
    let links = vec![
        Pendulum::new(0, 0, 25 * SCALE).unwrap(),
        Pendulum::new(QUARTER_TURN, 0, 25 * SCALE).unwrap(),
        Pendulum::new(1_000_000_000, 0, 2 * SCALE).unwrap(),
    ];
    let chain = Chain::from_links(links, GRAVITY, SCALE).unwrap();
    let last = *chain.positions().last().unwrap();
    assert_eq!(last, (-26_682_941_968, 26_080_604_612));
    assert_eq!(chain.end_point((0, 0)), last);
    assert_eq!(
        chain.end_point((300 * SCALE, 250 * SCALE)),
        (273_317_058_032, 276_080_604_612)
    );
    assert_eq!(
        chain.end_point((i64::MIN, i64::MAX)),
        (i64::MIN as i128 + last.0, i64::MAX as i128 + last.1)
    );
}

#[test]
fn a_moderate_chain_always_ticks() {
    let edge = 1_000_000_000_000_000;
    let links = vec![
        Pendulum::new(edge, -edge, 1_000_000).unwrap(),
        Pendulum::new(-edge, edge, 1_000_000).unwrap(),
        Pendulum::new(QUARTER_TURN, edge, 1_000_000).unwrap(),
    ];
    let mut chain = Chain::from_links(links, GRAVITY, SCALE).unwrap();
    for dt in [0, 1, 16_000_000, SCALE] {
        assert!(chain.can_tick(dt));
    }
    assert_eq!(chain.tick(SCALE), Ok(()));
}
