use pathtrace::Bounce;
use pathtrace::Next;
use pathtrace::PathEnd;
use pathtrace::PathState;

#[test]
fn zero_depth_ends_black_before_any_query() {
    let s = PathState::new(0);
    assert_eq!(s.next(), Next::Finish(PathEnd::Black));
}

#[test]
fn empty_scene_ends_with_sky_at_first_query() {
    for depth in [1u32, 2, 50] {
        let mut s = PathState::new(depth);
        assert_eq!(s.next(), Next::Trace);
        assert_eq!(s.record(Bounce::Miss), Next::Finish(PathEnd::Sky));
        assert_eq!(s.bounces, 0);
    }
}

#[test]
fn absorption_ends_black_not_sky() {
    let mut s = PathState::new(5);
    assert_eq!(s.record(Bounce::Scattered), Next::Trace);
    assert_eq!(s.record(Bounce::Absorbed), Next::Finish(PathEnd::Black));
    assert_eq!(s.bounces, 1);
}

#[test]
fn budget_runs_out_after_max_depth_scatters() {
    let mut s = PathState::new(3);
    assert_eq!(s.record(Bounce::Scattered), Next::Trace);
    assert_eq!(s.record(Bounce::Scattered), Next::Trace);
    assert_eq!(s.record(Bounce::Scattered), Next::Finish(PathEnd::Black));
    assert_eq!(s.bounces, 3);
    assert_eq!(s.next(), Next::Finish(PathEnd::Black));
}

#[test]
fn sky_after_scatters_keeps_bounce_count() {
    let mut s = PathState::new(4);
    assert_eq!(s.record(Bounce::Scattered), Next::Trace);
    assert_eq!(s.record(Bounce::Scattered), Next::Trace);
    assert_eq!(s.record(Bounce::Miss), Next::Finish(PathEnd::Sky));
    assert_eq!(s.bounces, 2);
}
