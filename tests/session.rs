use epr_sim::error::SimError;
use epr_sim::fit::{mc_fit, sample_count, Simulator, UNSCORED};
use epr_sim::param::SCALE;
use epr_sim::radical::Radical;

fn session() -> Simulator {
    let mut s = Simulator::new();
    s.edit_membership(0, true).unwrap();
    s.rads.push(Radical::probe());
    s
}

#[test]
fn new_session_defaults() {
    let s = Simulator::new();
    assert_eq!(s.points, 1024);
    assert_eq!(s.sweep, 100 * SCALE);
    assert!(s.rads.is_empty());
    assert_eq!(s.sigma, UNSCORED);
    assert_eq!(s.iters, 0);
    assert!(!s.mc_go);
}

#[test]
fn better_score_is_accepted() {
    let mut s = session();
    s.sigma = 100;
    let cand = vec![Radical::set(1, 2, 3, 4, Vec::new())];
    mc_fit(&mut s, cand, 99);
    assert_eq!(s.sigma, 99);
    assert_eq!(s.iters, 1);
    assert_eq!(s.rads.len(), 1);
    assert_eq!(s.rads[0].dh1.val, 4);
}

#[test]
fn worse_or_equal_score_is_rejected() {
    let mut s = session();
    s.sigma = 100;
    mc_fit(&mut s, vec![], 100);
    assert_eq!(s.sigma, 100);
    assert_eq!(s.iters, 1);
    assert_eq!(s.rads.len(), 2);
    mc_fit(&mut s, vec![], 101);
    assert_eq!(s.sigma, 100);
    assert_eq!(s.iters, 2);
    assert_eq!(s.rads.len(), 2);
}

#[test]
fn fit_cycle_accepts_first_score() {
    let mut s = session();
    s.edit_radical(0, "lwa", "var", 1000).unwrap();
    s.mc_fit(5);
    assert_eq!(s.sigma, 5);
    assert_eq!(s.iters, 1);
    assert_eq!(s.rads.len(), 2);
    assert!((s.rads[0].lwa.val - SCALE / 2).abs() <= 1000);
    assert_eq!(s.rads[1].nucs.len(), 1);
    s.mc_fit(6);
    assert_eq!(s.sigma, 5);
    assert_eq!(s.iters, 2);
}

#[test]
fn candidate_is_sanitized() {
    let mut s = Simulator::new();
    s.rads.push(Radical::set(0, 100 * SCALE, 0, 0, Vec::new()));
    s.edit_radical(0, "lrtz", "var", 50 * SCALE).unwrap();
    s.edit_radical(0, "amount", "var", SCALE).unwrap();
    for _ in 0..50 {
        let c = s.candidate();
        assert!(c[0].lrtz.val >= 50 * SCALE && c[0].lrtz.val <= 100 * SCALE);
        assert!(c[0].amount.val >= 0 && c[0].amount.val <= SCALE);
    }
}

#[test]
fn edit_is_visible_to_next_synthesis() {
    let mut s = session();
    let before = s.stick_spectra(&s.snapshot()).unwrap();
    assert_eq!(before[1].total, 3);
    s.edit_nucleus(1, 0, "spin", "val", SCALE / 2).unwrap();
    let after = s.stick_spectra(&s.snapshot()).unwrap();
    assert_eq!(after[1].total, 2);
    assert_eq!(after[0].ticks, before[0].ticks);
}

#[test]
fn edits_report_errors() {
    let mut s = session();
    assert_eq!(s.edit_radical(2, "lwa", "val", 1), Err(SimError::IndexOutOfRange));
    assert_eq!(s.edit_radical(0, "lwx", "val", 1), Err(SimError::UnknownField));
    assert_eq!(s.edit_nucleus(0, 0, "hpf", "val", 1), Err(SimError::IndexOutOfRange));
    assert_eq!(s.edit_nucleus(1, 0, "hpf", "vat", 1), Err(SimError::UnknownField));
    assert_eq!(s.edit_nucleus(5, 0, "hpf", "val", 1), Err(SimError::IndexOutOfRange));
    assert_eq!(s.edit_radical(1, "dh1", "val", 7), Ok(()));
    assert_eq!(s.rads[1].dh1.val, 7);
}

#[test]
fn membership_edits() {
    let mut s = Simulator::new();
    assert_eq!(s.edit_membership(0, false), Err(SimError::IndexOutOfRange));
    assert_eq!(s.edit_membership(9, true), Ok(()));
    assert_eq!(s.rads.len(), 1);
    assert_eq!(s.rads[0].lwa.val, SCALE / 2);
    s.rads.push(Radical::probe());
    assert_eq!(s.edit_membership(0, false), Ok(()));
    assert_eq!(s.rads.len(), 1);
    assert_eq!(s.rads[0].nucs.len(), 1);
}

#[test]
fn synthesis_errors_name_the_cause() {
    let mut s = session();
    s.points = 1;
    assert_eq!(s.stick_spectra(&s.snapshot()).err(), Some(SimError::DimensionMismatch));
    let mut s = session();
    s.edit_nucleus(1, 0, "hpf", "val", 500 * SCALE).unwrap();
    assert_eq!(s.stick_spectra(&s.snapshot()).err(), Some(SimError::DimensionMismatch));
}

#[test]
fn sample_count_requires_equal_nonzero_lengths() {
    assert_eq!(sample_count(4, 4), Ok(4));
    assert_eq!(sample_count(4, 5), Err(SimError::DimensionMismatch));
    assert_eq!(sample_count(0, 0), Err(SimError::DimensionMismatch));
}
