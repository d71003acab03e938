use epr_sim::error::SimError;
use epr_sim::param::{Param, SCALE};
use epr_sim::radical::{NucField, Nucleus, RadField, Radical, Sub, LRTZ_MAX};

#[test]
fn param_set_keeps_both_halves() {
    let p = Param::set(-3 * SCALE, 2 * SCALE);
    assert_eq!(p.val, -3 * SCALE);
    assert_eq!(p.var, 2 * SCALE);
}

#[test]
fn randomize_without_band_is_identity() {
    for v in [0i64, 1, -7 * SCALE, i64::MAX, i64::MIN] {
        let p = Param::set(v, 0);
        for _ in 0..100 {
            assert_eq!(p.randomize(), p);
        }
    }
}

#[test]
fn randomize_stays_in_band_and_spreads() {
    let p = Param::set(5 * SCALE, 1000);
    let mut below = 0;
    let mut above = 0;
    for _ in 0..20000 {
        let q = p.randomize();
        assert_eq!(q.var, 1000);
        assert!(q.val >= 5 * SCALE - 1000 && q.val <= 5 * SCALE + 1000);
        if q.val < 5 * SCALE {
            below += 1;
        }
        if q.val > 5 * SCALE {
            above += 1;
        }
    }
    // A uniform draw puts close to half of the values on each side.
    assert!(below > 8000 && above > 8000);
}

#[test]
fn randomize_negative_band_uses_its_magnitude() {
    let p = Param::set(0, -10);
    for _ in 0..1000 {
        let q = p.randomize();
        assert_eq!(q.var, -10);
        assert!(q.val >= -10 && q.val <= 10);
    }
}

#[test]
fn perturb_saturates_at_the_bounds() {
    let p = Param::set(i64::MAX - 1, 10);
    assert_eq!(p.perturb(5).val, i64::MAX);
    assert_eq!(p.perturb(-5).val, i64::MAX - 6);
    let q = Param::set(i64::MIN, i64::MAX);
    assert_eq!(q.perturb(-(i64::MAX as i128)).val, i64::MIN);
}

#[test]
fn electron_has_standard_line() {
    let e = Radical::electron();
    assert_eq!(e.lwa, Param::set(SCALE / 2, 0));
    assert_eq!(e.lrtz, Param::set(100 * SCALE, 0));
    assert_eq!(e.amount, Param::set(100 * SCALE, 0));
    assert_eq!(e.dh1, Param::set(0, 0));
    assert!(e.nucs.is_empty());
}

#[test]
fn probe_has_one_nucleus() {
    let p = Radical::probe();
    assert_eq!(p.nucs.len(), 1);
    assert_eq!(p.nucs[0], Nucleus::set(SCALE, 14 * SCALE, SCALE));
    assert_eq!(p.lwa.val, SCALE / 2);
}

#[test]
fn set_radpar_each_field() {
    let e = Radical::electron();
    let r = e.set_radpar("amount", "val", 7).unwrap();
    assert_eq!(r.amount.val, 7);
    let r = e.set_radpar("amount", "var", 8).unwrap();
    assert_eq!(r.amount.var, 8);
    let r = e.set_radpar("dh1", "val", -9).unwrap();
    assert_eq!(r.dh1.val, -9);
    let r = e.set_radpar("dh1", "var", 10).unwrap();
    assert_eq!(r.dh1.var, 10);
    let r = e.set_radpar("lwa", "val", 11).unwrap();
    assert_eq!(r.lwa.val, 11);
    assert_eq!(r.amount, e.amount);
    let r = e.set_radpar("lwa", "var", 12).unwrap();
    assert_eq!(r.lwa.var, 12);
    let r = e.set_radpar("lrtz", "val", 13).unwrap();
    assert_eq!(r.lrtz.val, 13);
    let r = e.set_radpar("lrtz", "var", 14).unwrap();
    assert_eq!(r.lrtz.var, 14);
    // The receiver is unchanged.
    assert_eq!(e.lrtz, Param::set(100 * SCALE, 0));
}

#[test]
fn set_radpar_unknown_names() {
    let e = Radical::electron();
    assert_eq!(e.set_radpar("amount", "vax", 1).unwrap_err(), SimError::UnknownField);
    assert_eq!(e.set_radpar("spin", "val", 1).unwrap_err(), SimError::UnknownField);
    assert_eq!(e.set_radpar("", "", 1).unwrap_err(), SimError::UnknownField);
    assert_eq!(e.set_radpar("Amount", "val", 1).unwrap_err(), SimError::UnknownField);
}

#[test]
fn with_field_matches_named_edit() {
    let e = Radical::electron();
    let a = e.with_field(RadField::Lrtz(Sub::Var), 3);
    let b = e.set_radpar("lrtz", "var", 3).unwrap();
    assert_eq!(a.lrtz, b.lrtz);
    assert_eq!(RadField::parse("dh1", "val"), Ok(RadField::Dh1(Sub::Val)));
    assert_eq!(NucField::parse("hpf", "var"), Ok(NucField::Hpf(Sub::Var)));
    assert_eq!(NucField::parse("spin", "var"), Err(SimError::UnknownField));
}

#[test]
fn set_nucpar_fields_and_errors() {
    let p = Radical::probe();
    assert_eq!(p.set_nucpar(0, "eqs", "val", 2 * SCALE).unwrap().nucs[0].eqs.val, 2 * SCALE);
    assert_eq!(p.set_nucpar(0, "spin", "val", SCALE / 2).unwrap().nucs[0].spin.val, SCALE / 2);
    assert_eq!(p.set_nucpar(0, "hpf", "val", 3).unwrap().nucs[0].hpf.val, 3);
    assert_eq!(p.set_nucpar(0, "hpf", "var", 4).unwrap().nucs[0].hpf.var, 4);
    assert_eq!(p.set_nucpar(0, "eqs", "var", 4).unwrap_err(), SimError::UnknownField);
    assert_eq!(p.set_nucpar(1, "hpf", "val", 4).unwrap_err(), SimError::IndexOutOfRange);
    assert_eq!(p.set_nucpar(1, "bad", "val", 4).unwrap_err(), SimError::UnknownField);
    assert_eq!(
        p.with_nucleus_field(3, NucField::SpinVal, 1).unwrap_err(),
        SimError::IndexOutOfRange
    );
}

#[test]
fn check_pars_clamps() {
    let r = Radical::set(-5, -1, -2, -3, Vec::new());
    let c = Radical::check_pars(r);
    assert_eq!(c.lwa.val, 0);
    assert_eq!(c.lrtz.val, 0);
    assert_eq!(c.amount.val, 0);
    assert_eq!(c.dh1.val, -3);
    let r = Radical::set(5, 150 * SCALE, 2, 3, Vec::new());
    let c = Radical::check_pars(r);
    assert_eq!(c.lwa.val, 5);
    assert_eq!(c.lrtz.val, LRTZ_MAX);
    assert_eq!(c.amount.val, 2);
}

#[test]
fn check_pars_is_idempotent() {
    for (lwa, lrtz, amount) in [(-1, -1, -1), (3, 101 * SCALE, 0), (i64::MIN, i64::MAX, i64::MAX)] {
        let once = Radical::check_pars(Radical::set(lwa, lrtz, amount, 0, Vec::new()));
        let twice = Radical::check_pars(once.clone());
        assert_eq!(once.lwa, twice.lwa);
        assert_eq!(once.lrtz, twice.lrtz);
        assert_eq!(once.amount, twice.amount);
        assert!(twice.lwa.val >= 0 && twice.amount.val >= 0);
        assert!(twice.lrtz.val >= 0 && twice.lrtz.val <= LRTZ_MAX);
    }
}

#[test]
fn radical_randomize_keeps_bands() {
    let r = Radical::probe()
        .set_radpar("lwa", "var", 100)
        .unwrap()
        .set_nucpar(0, "hpf", "var", 50)
        .unwrap();
    for _ in 0..200 {
        let q = r.randomize();
        assert!((q.lwa.val - r.lwa.val).abs() <= 100);
        assert_eq!(q.amount, r.amount);
        assert!((q.nucs[0].hpf.val - r.nucs[0].hpf.val).abs() <= 50);
        assert_eq!(q.nucs[0].spin, r.nucs[0].spin);
        assert_eq!(q.nucs[0].eqs, r.nucs[0].eqs);
    }
}

#[test]
fn field_getters_read_what_was_set() {
    let r = Radical::probe().set_radpar("dh1", "var", 21).unwrap();
    assert_eq!(r.field(RadField::Dh1(Sub::Var)), 21);
    assert_eq!(r.field(RadField::Lwa(Sub::Val)), SCALE / 2);
    assert_eq!(r.field(RadField::Amount(Sub::Val)), 100 * SCALE);
    assert_eq!(r.field(RadField::Lrtz(Sub::Var)), 0);
    let n = r.nucs[0];
    assert_eq!(n.field(NucField::EqsVal), SCALE);
    assert_eq!(n.field(NucField::SpinVal), SCALE);
    assert_eq!(n.field(NucField::Hpf(Sub::Val)), 14 * SCALE);
    assert_eq!(n.with_field(NucField::Hpf(Sub::Var), 9).field(NucField::Hpf(Sub::Var)), 9);
}
