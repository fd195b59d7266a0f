use pendulum_chain::trace::Trace;

#[test]
fn a_new_trace_is_empty() {
    assert!(Trace::new(3).points().is_empty());
}

#[test]
fn a_trace_drops_its_oldest_point_once_over_the_limit() {
    let mut trace = Trace::new(2);
    trace.record((1, 10));
    assert_eq!(trace.points(), &vec![(1, 10)]);
    trace.record((2, 20));
    assert_eq!(trace.points(), &vec![(1, 10), (2, 20)]);
    trace.record((3, 30));
    assert_eq!(trace.points(), &vec![(1, 10), (2, 20), (3, 30)]);
    trace.record((4, 40));
    assert_eq!(trace.points(), &vec![(2, 20), (3, 30), (4, 40)]);
    trace.record((5, 50));
    assert_eq!(trace.points(), &vec![(3, 30), (4, 40), (5, 50)]);
}

#[test]
fn a_trace_without_room_keeps_the_newest_point() {
    let mut trace = Trace::new(0);
    trace.record((1, 1));
    trace.record((2, 2));
    assert_eq!(trace.points(), &vec![(2, 2)]);
}
