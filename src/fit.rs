use vstd::prelude::*;
use crate::error::SimError;
use crate::ladder::{Sticks, stick_spectrum, peak, growth, ladder, centered, as_ints, total};
use crate::param::SCALE;
use crate::radical::{Radical, RadicalView, nucleus_with, rad_field_named, nuc_field_named};

verus! {

/// Score of a state that has not been scored yet: larger than any other.
pub const UNSCORED: u64 = u64::MAX;

/// The non-numeric state of a fitting session.
///
/// Fit scores are carried as ordered keys: a lower key is a better fit.
pub struct Simulator {
    /// Output resolution.
    pub points: usize,
    /// Total field width, fixed-point.
    pub sweep: i64,
    /// The current radical set.
    pub rads: Vec<Radical>,
    /// Score of the current radical set.
    pub sigma: u64,
    /// Completed fit cycles.
    pub iters: usize,
    /// Whether the fit loop is to keep running.
    pub mc_go: bool,
}

pub open spec fn views(rads: Seq<Radical>) -> Seq<RadicalView> {
    rads.map_values(|r: Radical| r@)
}

/// `c` is a possible outcome of randomizing `r` within its bands and
/// sanitizing the result.
pub open spec fn drawn_from(r: RadicalView, c: RadicalView) -> bool {
    exists|d: RadicalView| #[trigger] r.admits(d) && c == d.sanitized()
}

/// `c` is a possible candidate set for `rads`, radical by radical.
pub open spec fn is_candidate_of(rads: Seq<RadicalView>, c: Seq<RadicalView>) -> bool {
    &&& c.len() == rads.len()
    &&& forall|i: int| 0 <= i < rads.len() ==> #[trigger] drawn_from(rads[i], c[i])
}

/// A copy of a list of radicals.
pub fn copy_rads(rads: &Vec<Radical>) -> (r: Vec<Radical>)
    ensures
        views(r@) == views(rads@),
{
    let mut out: Vec<Radical> = Vec::new();
    let mut i: usize = 0;
    while i < rads.len()
        invariant
            i <= rads@.len(),
            views(out@) == views(rads@.take(i as int)),
        decreases rads@.len() - i,
    {
        let r = rads[i].duplicate();
        proof {
            assert(views(out@.push(r)) =~= views(out@).push(r@));
            assert(views(rads@.take(i + 1)) =~= views(rads@.take(i as int)).push(rads@[i as int]@));
        }
        out.push(r);
        i += 1;
    }
    proof {
        assert(rads@.take(rads@.len() as int) == rads@);
    }
    out
}

/// One accept/reject decision of the fit: the candidate set replaces the
/// current one, with its score, when that score is strictly lower than the
/// current one; the cycle counter advances either way.
pub fn mc_fit(sim: &mut Simulator, candidate: Vec<Radical>, score: u64)
    requires
        old(sim).iters < usize::MAX,
    ensures
        final(sim).iters == old(sim).iters + 1,
        final(sim).points == old(sim).points,
        final(sim).sweep == old(sim).sweep,
        final(sim).mc_go == old(sim).mc_go,
        score < old(sim).sigma ==> {
            &&& final(sim).rads@ == candidate@
            &&& final(sim).sigma == score
        },
        score >= old(sim).sigma ==> {
            &&& final(sim).rads@ == old(sim).rads@
            &&& final(sim).sigma == old(sim).sigma
        },
{
    if score < sim.sigma {
        sim.rads = candidate;
        sim.sigma = score;
    }
    sim.iters = sim.iters + 1;
}

/// The number of samples to score: the common length of the experimental
/// and theoretical spectra, which must agree and be non-zero.
pub fn sample_count(exp_len: usize, teor_len: usize) -> (r: Result<usize, SimError>)
    ensures
        exp_len == teor_len && exp_len > 0 ==> r == Ok::<usize, SimError>(exp_len),
        !(exp_len == teor_len && exp_len > 0) ==> r == Err::<usize, SimError>(SimError::DimensionMismatch),
{
    if exp_len == teor_len && exp_len > 0 {
        Ok(exp_len)
    } else {
        Err(SimError::DimensionMismatch)
    }
}

impl Simulator {
    /// A session of 1024 points over a sweep of 100, with no radicals and
    /// no score yet.
    pub fn new() -> (r: Simulator)
        ensures
            r.points == 1024,
            r.sweep == 100 * SCALE,
            r.rads@.len() == 0,
            r.sigma == UNSCORED,
            r.iters == 0,
            !r.mc_go,
    {
        Simulator {
            points: 1024,
            sweep: 100 * SCALE,
            rads: Vec::new(),
            sigma: UNSCORED,
            iters: 0,
            mc_go: false,
        }
    }

    pub open spec fn rads_view(&self) -> Seq<RadicalView> {
        views(self.rads@)
    }

    /// A copy of the current radical set.
    pub fn snapshot(&self) -> (r: Vec<Radical>)
        ensures
            views(r@) == self.rads_view(),
    {
        copy_rads(&self.rads)
    }

    /// A candidate set: every current radical randomized within its bands,
    /// then sanitized.
    pub fn candidate(&self) -> (r: Vec<Radical>)
        ensures
            is_candidate_of(self.rads_view(), views(r@)),
    {
        let mut out: Vec<Radical> = Vec::new();
        let mut i: usize = 0;
        while i < self.rads.len()
            invariant
                i <= self.rads@.len(),
                out@.len() == i,
                forall|j: int| 0 <= j < i ==> #[trigger] drawn_from(self.rads@[j]@, out@[j]@),
            decreases self.rads@.len() - i,
        {
            let d = self.rads[i].randomize();
            let c = Radical::check_pars(d);
            proof {
                assert(self.rads@[i as int]@.admits(d@) && c@ == d@.sanitized());
                assert(drawn_from(self.rads@[i as int]@, c@));
            }
            out.push(c);
            i += 1;
        }
        proof {
            assert forall|j: int| 0 <= j < self.rads@.len() implies #[trigger] drawn_from(
                self.rads_view()[j],
                views(out@)[j],
            ) by {
                assert(self.rads_view()[j] == self.rads@[j]@);
                assert(views(out@)[j] == out@[j]@);
            }
        }
        out
    }

    /// One fit cycle, given the score of the spectrum of the current set:
    /// draws a candidate set and keeps it, with that score, when the score
    /// is strictly lower than the current one; counts the cycle either way.
    pub fn mc_fit(&mut self, score: u64)
        requires
            old(self).iters < usize::MAX,
        ensures
            final(self).iters == old(self).iters + 1,
            final(self).points == old(self).points,
            final(self).sweep == old(self).sweep,
            final(self).mc_go == old(self).mc_go,
            score < old(self).sigma ==> {
                &&& is_candidate_of(old(self).rads_view(), final(self).rads_view())
                &&& final(self).sigma == score
            },
            score >= old(self).sigma ==> {
                &&& final(self).rads_view() == old(self).rads_view()
                &&& final(self).sigma == old(self).sigma
            },
    {
        let c = self.candidate();
        mc_fit(self, c, score);
    }

    /// The stick spectra of `rads` on this session's window, in order.
    pub fn stick_spectra(&self, rads: &Vec<Radical>) -> (r: Result<Vec<Sticks>, SimError>)
        ensures
            match r {
                Ok(v) => {
                    &&& self.points >= 2 && self.sweep > 0
                    &&& v@.len() == rads@.len()
                    &&& forall|i: int|
                        0 <= i < rads@.len() ==> peak(#[trigger] rads@[i].nucs@, self.points as nat, self.sweep as nat)
                            < self.points
                    &&& forall|i: int|
                        0 <= i < rads@.len() ==> {
                            let pk = peak(rads@[i].nucs@, self.points as nat, self.sweep as nat);
                            &&& as_ints((#[trigger] v@[i]).ticks@) == centered(
                                ladder(rads@[i].nucs@, self.points as nat, self.sweep as nat),
                                pk,
                                self.points as nat,
                            )
                            &&& v@[i].total == total(as_ints(v@[i].ticks@))
                        }
                },
                Err(e) => {
                    ||| (self.points < 2 || self.sweep <= 0) && e == SimError::DimensionMismatch
                    ||| exists|i: int|
                        0 <= i < rads@.len() && {
                            let pk = peak(rads@[i].nucs@, self.points as nat, self.sweep as nat);
                            ||| pk >= self.points && e == SimError::DimensionMismatch
                            ||| pk < self.points && #[trigger] growth(rads@[i].nucs@) > u64::MAX
                                && e == SimError::IntensityOverflow
                        }
                },
            },
    {
        if self.points < 2 || self.sweep <= 0 {
            return Err(SimError::DimensionMismatch);
        }
        let mut out: Vec<Sticks> = Vec::new();
        let mut i: usize = 0;
        while i < rads.len()
            invariant
                self.points >= 2,
                self.sweep > 0,
                i <= rads@.len(),
                out@.len() == i,
                forall|j: int|
                    0 <= j < i ==> peak(#[trigger] rads@[j].nucs@, self.points as nat, self.sweep as nat) < self.points,
                forall|j: int|
                    0 <= j < i ==> {
                        let pk = peak(rads@[j].nucs@, self.points as nat, self.sweep as nat);
                        &&& as_ints((#[trigger] out@[j]).ticks@) == centered(
                            ladder(rads@[j].nucs@, self.points as nat, self.sweep as nat),
                            pk,
                            self.points as nat,
                        )
                        &&& out@[j].total == total(as_ints(out@[j].ticks@))
                    },
            decreases rads@.len() - i,
        {
            match stick_spectrum(&rads[i], self.sweep, self.points) {
                Ok(s) => {
                    let ghost prev = out@;
                    proof {
                        let pk = peak(rads@[i as int].nucs@, self.points as nat, self.sweep as nat);
                        assert(pk < self.points);
                        assert(growth(rads@[i as int].nucs@) <= u64::MAX);
                    }
                    out.push(s);
                    proof {
                        assert forall|j: int| 0 <= j < i + 1 implies {
                            let pk = peak(rads@[j].nucs@, self.points as nat, self.sweep as nat);
                            &&& as_ints((#[trigger] out@[j]).ticks@) == centered(
                                ladder(rads@[j].nucs@, self.points as nat, self.sweep as nat),
                                pk,
                                self.points as nat,
                            )
                            &&& out@[j].total == total(as_ints(out@[j].ticks@))
                        } by {
                            if j < i {
                                assert(out@[j] == prev[j]);
                            }
                        }
                    }
                },
                Err(e) => {
                    proof {
                        let pk = peak(rads@[i as int].nucs@, self.points as nat, self.sweep as nat);
                        assert(growth(rads@[i as int].nucs@) > u64::MAX || pk >= self.points);
                    }
                    return Err(e);
                },
            }
            i += 1;
        }
        Ok(out)
    }

    /// Applies an edit of a radical-level scalar of radical `idx`.
    pub fn edit_radical(&mut self, idx: usize, fld: &str, subfld: &str, new_val: i64) -> (r: Result<(), SimError>)
        ensures
            final(self).points == old(self).points,
            final(self).sweep == old(self).sweep,
            final(self).sigma == old(self).sigma,
            final(self).iters == old(self).iters,
            final(self).mc_go == old(self).mc_go,
            idx >= old(self).rads@.len() ==> r == Err::<(), SimError>(SimError::IndexOutOfRange),
            idx < old(self).rads@.len() ==> match rad_field_named(fld@, subfld@) {
                Some(f) => r is Ok && final(self).rads_view() == old(self).rads_view().update(
                    idx as int,
                    old(self).rads_view()[idx as int].with_field(f, new_val),
                ),
                None => r == Err::<(), SimError>(SimError::UnknownField),
            },
            r is Err ==> final(self).rads_view() == old(self).rads_view(),
    {
        if idx >= self.rads.len() {
            return Err(SimError::IndexOutOfRange);
        }
        match self.rads[idx].set_radpar(fld, subfld, new_val) {
            Ok(n) => {
                let ghost before = self.rads@;
                self.rads.set(idx, n);
                proof {
                    assert(views(self.rads@) =~= views(before).update(idx as int, n@));
                }
                Ok(())
            },
            Err(e) => Err(e),
        }
    }

    /// Applies an edit of a scalar of nucleus `nuc_idx` of radical `idx`.
    pub fn edit_nucleus(
        &mut self,
        idx: usize,
        nuc_idx: usize,
        fld: &str,
        subfld: &str,
        new_val: i64,
    ) -> (r: Result<(), SimError>)
        ensures
            final(self).points == old(self).points,
            final(self).sweep == old(self).sweep,
            final(self).sigma == old(self).sigma,
            final(self).iters == old(self).iters,
            final(self).mc_go == old(self).mc_go,
            idx >= old(self).rads@.len() ==> r == Err::<(), SimError>(SimError::IndexOutOfRange),
            idx < old(self).rads@.len() ==> {
                let rv = old(self).rads_view()[idx as int];
                match nuc_field_named(fld@, subfld@) {
                    None => r == Err::<(), SimError>(SimError::UnknownField),
                    Some(f) => if nuc_idx < rv.nucs.len() {
                        r is Ok && final(self).rads_view() == old(self).rads_view().update(
                            idx as int,
                            RadicalView {
                                nucs: rv.nucs.update(nuc_idx as int, nucleus_with(rv.nucs[nuc_idx as int], f, new_val)),
                                ..rv
                            },
                        )
                    } else {
                        r == Err::<(), SimError>(SimError::IndexOutOfRange)
                    },
                }
            },
            r is Err ==> final(self).rads_view() == old(self).rads_view(),
    {
        if idx >= self.rads.len() {
            return Err(SimError::IndexOutOfRange);
        }
        match self.rads[idx].set_nucpar(nuc_idx, fld, subfld, new_val) {
            Ok(n) => {
                let ghost before = self.rads@;
                self.rads.set(idx, n);
                proof {
                    assert(views(self.rads@) =~= views(before).update(idx as int, n@));
                }
                Ok(())
            },
            Err(e) => Err(e),
        }
    }

    /// Adds a default radical at the end (`is_add`), or removes radical `idx`.
    pub fn edit_membership(&mut self, idx: usize, is_add: bool) -> (r: Result<(), SimError>)
        ensures
            final(self).points == old(self).points,
            final(self).sweep == old(self).sweep,
            final(self).sigma == old(self).sigma,
            final(self).iters == old(self).iters,
            final(self).mc_go == old(self).mc_go,
            is_add ==> r is Ok && final(self).rads@.len() == old(self).rads@.len() + 1
                && final(self).rads_view().take(old(self).rads@.len() as int) == old(self).rads_view()
                && final(self).rads_view().last() == Radical::electron_view(),
            !is_add && idx < old(self).rads@.len() ==> r is Ok && final(self).rads_view()
                == old(self).rads_view().remove(idx as int),
            !is_add && idx >= old(self).rads@.len() ==> r == Err::<(), SimError>(SimError::IndexOutOfRange)
                && final(self).rads_view() == old(self).rads_view(),
    {
        let ghost before = self.rads@;
        if is_add {
            let e = Radical::electron();
            self.rads.push(e);
            proof {
                assert(views(self.rads@) =~= views(before).push(e@));
                assert(views(self.rads@).take(before.len() as int) =~= views(before));
            }
            Ok(())
        } else if idx < self.rads.len() {
            self.rads.remove(idx);
            proof {
                assert(views(self.rads@) =~= views(before).remove(idx as int));
            }
            Ok(())
        } else {
            Err(SimError::IndexOutOfRange)
        }
    }
}

} // verus!
