use rrt::integrator::{Interaction, PathEnd, PathState, MAX_DEPTH};

fn run(events: &[Interaction]) -> PathState {
    let mut p = PathState::start();
    for e in events {
        p.record(*e);
    }
    p
}

#[test]
fn fresh_path_needs_a_trace() {
    let p = PathState::start();
    assert!(p.needs_trace());
    assert_eq!(p.depth(), 0);
    assert_eq!(p.end(), None);
}

#[test]
fn miss_on_first_ray_sees_the_sky() {
    let p = run(&[Interaction::Miss]);
    assert!(!p.needs_trace());
    assert_eq!(p.end(), Some(PathEnd::Escaped));
    assert_eq!(p.depth(), 0);
}

#[test]
fn absorption_ends_the_path_black() {
    let p = run(&[Interaction::Scattered, Interaction::Scattered, Interaction::Absorbed]);
    assert_eq!(p.end(), Some(PathEnd::Absorbed));
    assert_eq!(p.depth(), 2);
}

#[test]
fn scattering_goes_on_below_the_cap() {
    let p = run(&[Interaction::Scattered; 49]);
    assert!(p.needs_trace());
    assert_eq!(p.depth(), 49);
    let p = run(&[Interaction::Scattered, Interaction::Scattered, Interaction::Miss]);
    assert_eq!(p.end(), Some(PathEnd::Escaped));
    assert_eq!(p.depth(), 2);
}

#[test]
fn fifty_scatterings_exhaust_the_path() {
    assert_eq!(MAX_DEPTH, 50);
    let p = run(&[Interaction::Scattered; 50]);
    assert!(!p.needs_trace());
    assert_eq!(p.end(), Some(PathEnd::Exhausted));
    assert_eq!(p.depth(), 50);
}

#[test]
fn reports_after_the_end_change_nothing() {
    let p = run(&[Interaction::Absorbed, Interaction::Miss, Interaction::Scattered]);
    assert_eq!(p.end(), Some(PathEnd::Absorbed));
    assert_eq!(p.depth(), 0);
    let mut events = vec![Interaction::Scattered; 50];
    events.push(Interaction::Miss);
    let p = run(&events);
    assert_eq!(p.end(), Some(PathEnd::Exhausted));
    assert_eq!(p.depth(), 50);
}

#[test]
fn no_path_is_traced_more_than_the_cap() {
    // Whatever the surfaces do, the driver loop stops within the cap.
    let patterns: [&[Interaction]; 3] = [
        &[Interaction::Scattered],
        &[Interaction::Scattered, Interaction::Scattered, Interaction::Miss],
        &[Interaction::Scattered, Interaction::Absorbed],
    ];
    for pattern in patterns.iter() {
        let mut p = PathState::start();
        let mut traces = 0u32;
        let mut k = 0usize;
        while p.needs_trace() {
            p.record(pattern[k % pattern.len()]);
            k += 1;
            traces += 1;
        }
        assert!(traces <= MAX_DEPTH);
    }
}
