//! The replay trackers: applicability checks and tag compression.

fn ids(xs: &[u128]) -> esvc::ord::OrdSet<u128> {
    let mut s = esvc::ord::OrdSet::new();
    for &x in xs {
        s.insert(x);
    }
    s
}

#[test]
fn applytracker_cleanup_direction() {
    let mut tmp = esvc::apply::ApplyTracker::default();

    tmp.top.insert(1);
    tmp.top.insert(2);
    tmp.top.insert(3);
    tmp.top.insert(4);

    let mut exp = esvc::apply::ApplyTracker::default();

    exp.top.insert(1);
    exp.top.insert(3);
    exp.top.insert(5);

    let tags = vec![(5u128, ids(&[2, 4]))];

    tmp.apply_tags(&tags);
    assert_eq!(tmp, exp);
}

#[test]
fn histate_cleanup_direction() {
    let mut tmp = esvc::state::HiState::new(());

    tmp.top.insert(1);
    tmp.top.insert(2);
    tmp.top.insert(3);
    tmp.top.insert(4);

    let mut exp = esvc::state::HiState::new(());

    exp.top.insert(1);
    exp.top.insert(3);
    exp.top.insert(5);

    let tags = vec![(5u128, ids(&[2, 4]))];

    tmp.cleanup_top(&tags);
    assert_eq!(tmp, exp);
}

#[test]
fn tracker_can_run_checks() {
    let mut t = esvc::apply::ApplyTracker::new();
    t.register_as_ran(7);
    assert_eq!(
        t.can_run(7, &ids(&[])),
        Err(esvc::apply::ApplyError::RerunForbidden(7))
    );
    assert_eq!(
        t.can_run(8, &ids(&[9])),
        Err(esvc::apply::ApplyError::DependencyUnsatisfied(9))
    );
    assert_eq!(t.can_run(8, &ids(&[7])), Ok(()));
}

#[test]
fn hash_can_run_checks() {
    let h1 = esvc::hash::calculate_hash(b"one");
    let h2 = esvc::hash::calculate_hash(b"two");
    let mut top = esvc::ord::OrdSet::new();
    top.insert(h1.digest());
    assert_eq!(
        esvc::utils::can_run(&top, &h1, &esvc::ord::OrdSet::new()),
        Err(esvc::utils::ApplyError::RerunForbidden(h1))
    );
    let mut deps = esvc::ord::OrdSet::new();
    deps.insert(h2.digest());
    assert_eq!(
        esvc::utils::can_run(&top, &h2, &deps),
        Err(esvc::utils::ApplyError::DependencyUnsatisfied(h2))
    );
    let mut okdeps = esvc::ord::OrdSet::new();
    okdeps.insert(h1.digest());
    assert_eq!(esvc::utils::can_run(&top, &h2, &okdeps), Ok(()));
}
