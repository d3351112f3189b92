use dualis::{after_pass, first_unrestorable, start_coupling, substeps, Coupling, Kind, Schedule};

/// Drives an iterative coupling whose residual starts at `residual` and halves each pass.
fn run_halving(max_iter: u32, tol: f64) -> (Coupling, u32, Vec<bool>) {
    let mut residual = 1.0f64;
    let mut passes = 0u32;
    let mut rewinds = Vec::new();
    let mut state = start_coupling(max_iter);
    while let Coupling::Again { iteration, rewind } = state {
        rewinds.push(rewind);
        residual /= 2.0;
        passes += 1;
        state = after_pass(iteration, max_iter, residual <= tol);
    }
    (state, passes, rewinds)
}

#[test]
fn a_halving_residual_settles_on_the_tenth_pass() {
    // 1.0 halved ten times is 9.8e-4, the first value under 1e-3.
    let (end, passes, rewinds) = run_halving(20, 1e-3);
    assert_eq!(end, Coupling::Converged { iterations: 10 });
    assert_eq!(passes, 10);
    // Every pass but the first starts from the checkpoint.
    assert_eq!(rewinds[0], false);
    assert!(rewinds[1..].iter().all(|r| *r));
}

#[test]
fn three_halvings_do_not_reach_a_tight_tolerance() {
    let (end, passes, _) = run_halving(3, 1e-9);
    assert_eq!(end, Coupling::Unconverged { iterations: 3 });
    assert_eq!(passes, 3);
}

#[test]
fn no_pass_allowed_is_no_convergence() {
    assert_eq!(start_coupling(0), Coupling::Unconverged { iterations: 0 });
    let (end, passes, _) = run_halving(0, 1.0);
    assert_eq!(end, Coupling::Unconverged { iterations: 0 });
    assert_eq!(passes, 0);
}

#[test]
fn a_pass_that_settles_is_accepted_at_once() {
    assert_eq!(after_pass(1, 5, true), Coupling::Converged { iterations: 1 });
    assert_eq!(
        after_pass(1, 5, false),
        Coupling::Again {
            iteration: 2,
            rewind: true
        }
    );
    assert_eq!(after_pass(5, 5, false), Coupling::Unconverged { iterations: 5 });
    assert_eq!(after_pass(5, 5, true), Coupling::Converged { iterations: 5 });
}

#[test]
fn only_evolving_domains_subcycle_under_multirate() {
    // The block needs ceil(1.0 / 0.3) = 4 substeps; the lamp needs none.
    let multirate = Schedule::Multirate.subcycles();
    assert!(multirate);
    assert_eq!(substeps(multirate, Kind::QuasiStatic, 4), 1);
    assert_eq!(substeps(multirate, Kind::Evolving, 4), 4);
    // A domain with no stability limit needs one piece, and takes one.
    assert_eq!(substeps(multirate, Kind::Evolving, 1), 1);
}

#[test]
fn one_pass_schedules_step_each_domain_once() {
    for schedule in [Schedule::OneWay, Schedule::Staggered] {
        let sub = schedule.subcycles();
        assert!(!sub);
        assert_eq!(substeps(sub, Kind::Evolving, 7), 1);
    }
    // Every pass of an iterative coupling subcycles.
    assert!(Schedule::Iterative { max_iter: 3 }.subcycles());
}

#[test]
fn the_first_domain_that_cannot_rewind_is_named() {
    assert_eq!(first_unrestorable(&[true, true, false, false]), Some(2));
    assert_eq!(first_unrestorable(&[false]), Some(0));
    assert_eq!(first_unrestorable(&[true, true]), None);
    assert_eq!(first_unrestorable(&[]), None);
}
