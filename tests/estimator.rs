use ray_tracer::estimator::{after_bounce, start, Bounce, PathEnd, PathStep};

#[test]
fn spent_budget_ends_the_path_black() {
    assert_eq!(start(0), PathStep::Finish(PathEnd::Exhausted));
    assert_eq!(start(-5), PathStep::Finish(PathEnd::Exhausted));
    assert_eq!(start(i32::MIN), PathStep::Finish(PathEnd::Exhausted));
}

#[test]
fn positive_budget_traces_the_first_ray() {
    assert_eq!(start(1), PathStep::Trace { depth_left: 1 });
    assert_eq!(start(50), PathStep::Trace { depth_left: 50 });
    assert_eq!(start(i32::MAX), PathStep::Trace { depth_left: i32::MAX });
}

#[test]
fn escaped_ray_ends_in_the_sky() {
    assert_eq!(after_bounce(1, Bounce::Escaped), PathStep::Finish(PathEnd::Sky));
    assert_eq!(after_bounce(40, Bounce::Escaped), PathStep::Finish(PathEnd::Sky));
}

#[test]
fn absorbed_ray_ends_black() {
    assert_eq!(after_bounce(7, Bounce::Absorbed), PathStep::Finish(PathEnd::Absorbed));
}

#[test]
fn scattered_ray_spends_one_unit() {
    assert_eq!(after_bounce(7, Bounce::Scattered), PathStep::Trace { depth_left: 6 });
    assert_eq!(after_bounce(2, Bounce::Scattered), PathStep::Trace { depth_left: 1 });
    assert_eq!(after_bounce(1, Bounce::Scattered), PathStep::Finish(PathEnd::Exhausted));
    assert_eq!(after_bounce(i32::MIN, Bounce::Scattered), PathStep::Finish(PathEnd::Exhausted));
}

/// Rays that always scatter, as inside a pair of mirrors.
fn traced_rays_between_mirrors(budget: i32) -> (u32, PathStep) {
    let mut traced = 0u32;
    let mut step = start(budget);
    while let PathStep::Trace { depth_left } = step {
        traced += 1;
        step = after_bounce(depth_left, Bounce::Scattered);
    }
    (traced, step)
}

#[test]
fn mirrors_exhaust_the_budget_exactly() {
    for budget in [1, 2, 5, 50] {
        assert_eq!(
            traced_rays_between_mirrors(budget),
            (budget as u32, PathStep::Finish(PathEnd::Exhausted))
        );
    }
    assert_eq!(traced_rays_between_mirrors(0), (0, PathStep::Finish(PathEnd::Exhausted)));
}

#[test]
fn single_bounce_budget_with_a_diffuse_hit_ends_black() {
    let step = start(1);
    assert_eq!(step, PathStep::Trace { depth_left: 1 });
    assert_eq!(after_bounce(1, Bounce::Scattered), PathStep::Finish(PathEnd::Exhausted));
}
