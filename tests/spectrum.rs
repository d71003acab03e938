use epr_sim::error::SimError;
use epr_sim::ladder::{conv_target, stick_spectrum};
use epr_sim::param::SCALE;
use epr_sim::radical::{Nucleus, Radical};

fn nonzero(ticks: &[u64]) -> Vec<(usize, u64)> {
    ticks.iter().enumerate().filter(|(_, v)| **v != 0).map(|(i, v)| (i, *v)).collect()
}

#[test]
fn electron_gives_one_central_tick() {
    let s = stick_spectrum(&Radical::electron(), 100 * SCALE, 1024).unwrap();
    assert_eq!(s.ticks.len(), 1024);
    assert_eq!(nonzero(&s.ticks), vec![(512, 1)]);
    assert_eq!(s.total, 1);
}

#[test]
fn probe_splits_into_three_lines() {
    // spin 1 gives two extra ticks; 14 / (100 / 1023) = 143.22 index units.
    let s = stick_spectrum(&Radical::probe(), 100 * SCALE, 1024).unwrap();
    assert_eq!(nonzero(&s.ticks), vec![(369, 1), (512, 1), (655, 1)]);
    assert_eq!(s.total, 3);
}

#[test]
fn two_equivalent_protons_give_binomial_lines() {
    let nucs = vec![Nucleus::set(SCALE / 2, 10 * SCALE, 2 * SCALE)];
    let r = Radical::set(SCALE / 2, 100 * SCALE, 100 * SCALE, 0, nucs);
    let s = stick_spectrum(&r, 100 * SCALE, 101).unwrap();
    assert_eq!(nonzero(&s.ticks), vec![(41, 1), (51, 2), (61, 1)]);
    assert_eq!(s.total, 4);
}

#[test]
fn nuclei_apply_in_order() {
    let nucs = vec![
        Nucleus::set(SCALE / 2, 10 * SCALE, SCALE),
        Nucleus::set(SCALE, 3 * SCALE, SCALE),
    ];
    let r = Radical::set(SCALE / 2, 0, SCALE, 0, nucs);
    let s = stick_spectrum(&r, 100 * SCALE, 101).unwrap();
    // Ladder: ticks at 1, 11, then each splits by +3 and +6: peak 17, shift 42.
    assert_eq!(
        nonzero(&s.ticks),
        vec![(43, 1), (46, 1), (49, 1), (53, 1), (56, 1), (59, 1)]
    );
    assert_eq!(s.total, 6);
}

#[test]
fn negative_coupling_splits_like_its_magnitude() {
    let a = Radical::set(0, 0, 0, 0, vec![Nucleus::set(SCALE / 2, -10 * SCALE, SCALE)]);
    let b = Radical::set(0, 0, 0, 0, vec![Nucleus::set(SCALE / 2, 10 * SCALE, SCALE)]);
    let sa = stick_spectrum(&a, 100 * SCALE, 101).unwrap();
    let sb = stick_spectrum(&b, 100 * SCALE, 101).unwrap();
    assert_eq!(sa.ticks, sb.ticks);
}

#[test]
fn ticks_sum_to_total() {
    let nucs = vec![
        Nucleus::set(3 * SCALE / 2, 5 * SCALE, 3 * SCALE),
        Nucleus::set(SCALE, 2 * SCALE, 2 * SCALE),
    ];
    let r = Radical::set(SCALE, 50 * SCALE, SCALE, 0, nucs);
    let s = stick_spectrum(&r, 100 * SCALE, 1024).unwrap();
    assert_eq!(s.ticks.iter().sum::<u64>(), s.total);
    // (1 + 3)^3 * (1 + 2)^2
    assert_eq!(s.total, 576);
}

#[test]
fn coincident_ticks_add_up() {
    // A zero coupling puts every split tick on its parent.
    let r = Radical::set(0, 0, 0, 0, vec![Nucleus::set(SCALE / 2, 0, 3 * SCALE)]);
    let s = stick_spectrum(&r, 100 * SCALE, 11).unwrap();
    assert_eq!(nonzero(&s.ticks), vec![(6, 8)]);
    assert_eq!(s.total, 8);
}

#[test]
fn synthesis_is_deterministic() {
    let r = Radical::probe();
    let a = stick_spectrum(&r, 100 * SCALE, 1024).unwrap();
    let b = stick_spectrum(&r, 100 * SCALE, 1024).unwrap();
    assert_eq!(a.ticks, b.ticks);
    assert_eq!(a.total, b.total);
}

#[test]
fn too_few_points_or_bad_sweep() {
    let e = Radical::electron();
    assert_eq!(stick_spectrum(&e, 100 * SCALE, 1).err(), Some(SimError::DimensionMismatch));
    assert_eq!(stick_spectrum(&e, 100 * SCALE, 0).err(), Some(SimError::DimensionMismatch));
    assert_eq!(stick_spectrum(&e, 0, 1024).err(), Some(SimError::DimensionMismatch));
    assert_eq!(stick_spectrum(&e, -SCALE, 1024).err(), Some(SimError::DimensionMismatch));
    assert!(stick_spectrum(&e, 100 * SCALE, 2).is_ok());
}

#[test]
fn spread_wider_than_window_is_rejected() {
    let r = Radical::set(0, 0, 0, 0, vec![Nucleus::set(SCALE / 2, 200 * SCALE, SCALE)]);
    assert_eq!(stick_spectrum(&r, 100 * SCALE, 1024).err(), Some(SimError::DimensionMismatch));
    // Exactly filling the window is rejected too: the peak must stay below it.
    let r = Radical::set(0, 0, 0, 0, vec![Nucleus::set(SCALE / 2, 10 * SCALE, SCALE)]);
    assert_eq!(stick_spectrum(&r, 10 * SCALE, 11).err(), Some(SimError::DimensionMismatch));
    let r = Radical::set(0, 0, 0, 0, vec![Nucleus::set(SCALE / 2, 9 * SCALE, SCALE)]);
    let s = stick_spectrum(&r, 10 * SCALE, 11).unwrap();
    assert_eq!(nonzero(&s.ticks), vec![(1, 1), (10, 1)]);
}

#[test]
fn huge_couplings_do_not_overflow() {
    let r = Radical::set(0, 0, 0, 0, vec![Nucleus::set(i64::MAX, i64::MIN, i64::MAX)]);
    assert_eq!(stick_spectrum(&r, 1, 1 << 20).err(), Some(SimError::DimensionMismatch));
    let r = Radical::set(0, 0, 0, 0, vec![Nucleus::set(SCALE / 2, i64::MAX, 0)]);
    assert!(stick_spectrum(&r, 1, 16).is_ok());
}

#[test]
fn intensity_overflow_is_reported() {
    let r = Radical::set(0, 0, 0, 0, vec![Nucleus::set(SCALE / 2, 0, 64 * SCALE)]);
    assert_eq!(stick_spectrum(&r, SCALE, 16).err(), Some(SimError::IntensityOverflow));
    let r = Radical::set(0, 0, 0, 0, vec![Nucleus::set(SCALE / 2, 0, 63 * SCALE)]);
    let s = stick_spectrum(&r, SCALE, 16).unwrap();
    assert_eq!(s.total, 1u64 << 63);
    assert_eq!(nonzero(&s.ticks), vec![(8, 1u64 << 63)]);
}

#[test]
fn spin_below_one_half_does_not_split() {
    let r = Radical::set(0, 0, 0, 0, vec![Nucleus::set(SCALE / 2 - 1, 10 * SCALE, 5 * SCALE)]);
    let s = stick_spectrum(&r, 100 * SCALE, 101).unwrap();
    assert_eq!(nonzero(&s.ticks), vec![(51, 1)]);
}

#[test]
fn conv_target_maps_and_drops() {
    assert_eq!(conv_target(512, 512, 1024), Some(512));
    assert_eq!(conv_target(512, 1, 1024), Some(1));
    assert_eq!(conv_target(10, 100, 1024), None);
    assert_eq!(conv_target(1000, 600, 1024), None);
    assert_eq!(conv_target(1000, 535, 1024), Some(1023));
    assert_eq!(conv_target(0, 512, 1024), Some(0));
    assert_eq!(conv_target(usize::MAX, usize::MAX, 4), None);
}
