use vstd::prelude::*;
use crate::param::{Param, SCALE};
use crate::error::SimError;

verus! {

/// Upper bound of the Lorentzian share, in fixed-point percent.
pub const LRTZ_MAX: i64 = 100 * SCALE;

/// Which half of a [`Param`] an edit addresses.
#[derive(Clone, Copy, Debug, PartialEq, Eq, Structural)]
pub enum Sub {
    Val,
    Var,
}

/// The editable scalars of a [`Radical`].
#[derive(Clone, Copy, Debug, PartialEq, Eq, Structural)]
pub enum RadField {
    Amount(Sub),
    Dh1(Sub),
    Lwa(Sub),
    Lrtz(Sub),
}

/// The editable scalars of a [`Nucleus`]: the values of `eqs` and `spin`,
/// both halves of `hpf`.
#[derive(Clone, Copy, Debug, PartialEq, Eq, Structural)]
pub enum NucField {
    EqsVal,
    SpinVal,
    Hpf(Sub),
}

/// A hyperfine-coupled nucleus.
#[derive(Clone, Copy, Debug, PartialEq, Eq, Structural)]
pub struct Nucleus {
    /// Nuclear spin quantum number.
    pub spin: Param,
    /// Hyperfine coupling constant, in field units.
    pub hpf: Param,
    /// Number of magnetically equivalent nuclei.
    pub eqs: Param,
}

/// A simulated species: line-shape parameters and its nuclei, in order.
#[derive(Clone, Debug)]
pub struct Radical {
    /// Base linewidth.
    pub lwa: Param,
    /// Lorentzian share of the lineshape, in percent.
    pub lrtz: Param,
    /// Relative intensity weight.
    pub amount: Param,
    /// Centre-field offset.
    pub dh1: Param,
    pub nucs: Vec<Nucleus>,
}

/// The content of a [`Radical`].
pub ghost struct RadicalView {
    pub lwa: Param,
    pub lrtz: Param,
    pub amount: Param,
    pub dh1: Param,
    pub nucs: Seq<Nucleus>,
}

impl View for Radical {
    type V = RadicalView;

    open spec fn view(&self) -> RadicalView {
        RadicalView {
            lwa: self.lwa,
            lrtz: self.lrtz,
            amount: self.amount,
            dh1: self.dh1,
            nucs: self.nucs@,
        }
    }
}

pub open spec fn with_sub(p: Param, s: Sub, v: i64) -> Param {
    match s {
        Sub::Val => Param { val: v, ..p },
        Sub::Var => Param { var: v, ..p },
    }
}

pub open spec fn sub_of(p: Param, s: Sub) -> i64 {
    match s {
        Sub::Val => p.val,
        Sub::Var => p.var,
    }
}

pub open spec fn nucleus_field(n: Nucleus, f: NucField) -> i64 {
    match f {
        NucField::EqsVal => n.eqs.val,
        NucField::SpinVal => n.spin.val,
        NucField::Hpf(s) => sub_of(n.hpf, s),
    }
}

pub open spec fn nucleus_with(n: Nucleus, f: NucField, v: i64) -> Nucleus {
    match f {
        NucField::EqsVal => Nucleus { eqs: with_sub(n.eqs, Sub::Val, v), ..n },
        NucField::SpinVal => Nucleus { spin: with_sub(n.spin, Sub::Val, v), ..n },
        NucField::Hpf(s) => Nucleus { hpf: with_sub(n.hpf, s, v), ..n },
    }
}

pub open spec fn max0(x: i64) -> i64 {
    if x < 0 {
        0
    } else {
        x
    }
}

pub open spec fn clamp_pct(x: i64) -> i64 {
    if x < 0 {
        0
    } else if x > LRTZ_MAX {
        LRTZ_MAX
    } else {
        x
    }
}

impl RadicalView {
    pub open spec fn field(self, f: RadField) -> i64 {
        match f {
            RadField::Amount(s) => sub_of(self.amount, s),
            RadField::Dh1(s) => sub_of(self.dh1, s),
            RadField::Lwa(s) => sub_of(self.lwa, s),
            RadField::Lrtz(s) => sub_of(self.lrtz, s),
        }
    }

    pub open spec fn with_field(self, f: RadField, v: i64) -> RadicalView {
        match f {
            RadField::Amount(s) => RadicalView { amount: with_sub(self.amount, s, v), ..self },
            RadField::Dh1(s) => RadicalView { dh1: with_sub(self.dh1, s, v), ..self },
            RadField::Lwa(s) => RadicalView { lwa: with_sub(self.lwa, s, v), ..self },
            RadField::Lrtz(s) => RadicalView { lrtz: with_sub(self.lrtz, s, v), ..self },
        }
    }

    /// Linewidth and amount clamped to be non-negative, the Lorentzian share to `[0, 100]`.
    pub open spec fn sanitized(self) -> RadicalView {
        RadicalView {
            lwa: Param { val: max0(self.lwa.val), ..self.lwa },
            amount: Param { val: max0(self.amount.val), ..self.amount },
            lrtz: Param { val: clamp_pct(self.lrtz.val), ..self.lrtz },
            ..self
        }
    }

    pub open spec fn is_sane(self) -> bool {
        &&& self.lwa.val >= 0
        &&& self.amount.val >= 0
        &&& 0 <= self.lrtz.val <= LRTZ_MAX
    }

    /// `c` is a possible outcome of randomizing `self`: every tunable
    /// parameter within its band, everything else kept.
    pub open spec fn admits(self, c: RadicalView) -> bool {
        &&& self.lwa.admits(c.lwa)
        &&& self.amount.admits(c.amount)
        &&& self.lrtz.admits(c.lrtz)
        &&& self.dh1.admits(c.dh1)
        &&& c.nucs.len() == self.nucs.len()
        &&& forall|i: int|
            0 <= i < self.nucs.len() ==> {
                &&& (#[trigger] c.nucs[i]).spin == self.nucs[i].spin
                &&& c.nucs[i].eqs == self.nucs[i].eqs
                &&& self.nucs[i].hpf.admits(c.nucs[i].hpf)
            }
    }
}

/// The field that the pair of names `(fld, subfld)` designates, if any.
pub open spec fn rad_field_named(fld: Seq<char>, subfld: Seq<char>) -> Option<RadField> {
    let s = if subfld == "val"@ {
        Some(Sub::Val)
    } else if subfld == "var"@ {
        Some(Sub::Var)
    } else {
        None
    };
    match s {
        None => None,
        Some(s) => if fld == "amount"@ {
            Some(RadField::Amount(s))
        } else if fld == "dh1"@ {
            Some(RadField::Dh1(s))
        } else if fld == "lwa"@ {
            Some(RadField::Lwa(s))
        } else if fld == "lrtz"@ {
            Some(RadField::Lrtz(s))
        } else {
            None
        },
    }
}

/// The nucleus field that the pair of names `(fld, subfld)` designates, if any.
pub open spec fn nuc_field_named(fld: Seq<char>, subfld: Seq<char>) -> Option<NucField> {
    if fld == "eqs"@ && subfld == "val"@ {
        Some(NucField::EqsVal)
    } else if fld == "spin"@ && subfld == "val"@ {
        Some(NucField::SpinVal)
    } else if fld == "hpf"@ && subfld == "val"@ {
        Some(NucField::Hpf(Sub::Val))
    } else if fld == "hpf"@ && subfld == "var"@ {
        Some(NucField::Hpf(Sub::Var))
    } else {
        None
    }
}

/// Whether two texts hold the same characters.
pub fn same_text(a: &str, b: &str) -> (r: bool)
    ensures
        r == (a@ == b@),
{
    let n = a.unicode_len();
    if n != b.unicode_len() {
        return false;
    }
    let mut i: usize = 0;
    while i < n
        invariant
            n == a@.len(),
            n == b@.len(),
            i <= n,
            a@.subrange(0, i as int) == b@.subrange(0, i as int),
        decreases n - i,
    {
        if a.get_char(i) != b.get_char(i) {
            assert(a@[i as int] != b@[i as int]);
            return false;
        }
        assert(a@.subrange(0, i + 1) == a@.subrange(0, i as int).push(a@[i as int]));
        assert(b@.subrange(0, i + 1) == b@.subrange(0, i as int).push(b@[i as int]));
        i += 1;
    }
    assert(a@ == a@.subrange(0, n as int));
    assert(b@ == b@.subrange(0, n as int));
    true
}

impl Sub {
    /// The sub-field named `name`: `"val"` or `"var"`.
    pub fn parse(name: &str) -> (r: Option<Sub>)
        ensures
            r == (if name@ == "val"@ {
                Some(Sub::Val)
            } else if name@ == "var"@ {
                Some(Sub::Var)
            } else {
                None
            }),
    {
        if same_text(name, "val") {
            Some(Sub::Val)
        } else if same_text(name, "var") {
            Some(Sub::Var)
        } else {
            None
        }
    }
}

impl RadField {
    /// The field named by `(fld, subfld)`, or `UnknownField`.
    pub fn parse(fld: &str, subfld: &str) -> (r: Result<RadField, SimError>)
        ensures
            r == (match rad_field_named(fld@, subfld@) {
                Some(f) => Ok(f),
                None => Err(SimError::UnknownField),
            }),
    {
        let s = match Sub::parse(subfld) {
            Some(s) => s,
            None => return Err(SimError::UnknownField),
        };
        if same_text(fld, "amount") {
            Ok(RadField::Amount(s))
        } else if same_text(fld, "dh1") {
            Ok(RadField::Dh1(s))
        } else if same_text(fld, "lwa") {
            Ok(RadField::Lwa(s))
        } else if same_text(fld, "lrtz") {
            Ok(RadField::Lrtz(s))
        } else {
            Err(SimError::UnknownField)
        }
    }
}

impl NucField {
    /// The nucleus field named by `(fld, subfld)`, or `UnknownField`.
    pub fn parse(fld: &str, subfld: &str) -> (r: Result<NucField, SimError>)
        ensures
            r == (match nuc_field_named(fld@, subfld@) {
                Some(f) => Ok(f),
                None => Err(SimError::UnknownField),
            }),
    {
        let val = same_text(subfld, "val");
        let var = same_text(subfld, "var");
        if same_text(fld, "eqs") && val {
            Ok(NucField::EqsVal)
        } else if same_text(fld, "spin") && val {
            Ok(NucField::SpinVal)
        } else if same_text(fld, "hpf") && val {
            Ok(NucField::Hpf(Sub::Val))
        } else if same_text(fld, "hpf") && var {
            Ok(NucField::Hpf(Sub::Var))
        } else {
            Err(SimError::UnknownField)
        }
    }
}

fn param_sub(p: Param, s: Sub) -> (r: i64)
    ensures
        r == sub_of(p, s),
{
    match s {
        Sub::Val => p.val,
        Sub::Var => p.var,
    }
}

fn param_with(p: Param, s: Sub, v: i64) -> (r: Param)
    ensures
        r == with_sub(p, s, v),
{
    match s {
        Sub::Val => Param { val: v, ..p },
        Sub::Var => Param { var: v, ..p },
    }
}

impl Nucleus {
    pub fn set(spin: i64, hpf: i64, eqs: i64) -> (r: Nucleus)
        ensures
            r.spin.val == spin && r.spin.var == 0,
            r.hpf.val == hpf && r.hpf.var == 0,
            r.eqs.val == eqs && r.eqs.var == 0,
    {
        Nucleus { spin: Param::set(spin, 0), hpf: Param::set(hpf, 0), eqs: Param::set(eqs, 0) }
    }

    /// The current value of the scalar `f`.
    pub fn field(&self, f: NucField) -> (r: i64)
        ensures
            r == nucleus_field(*self, f),
    {
        match f {
            NucField::EqsVal => self.eqs.val,
            NucField::SpinVal => self.spin.val,
            NucField::Hpf(s) => param_sub(self.hpf, s),
        }
    }

    /// A copy with the scalar `f` replaced by `v`.
    pub fn with_field(&self, f: NucField, v: i64) -> (r: Nucleus)
        ensures
            r == nucleus_with(*self, f, v),
    {
        match f {
            NucField::EqsVal => Nucleus { eqs: param_with(self.eqs, Sub::Val, v), ..*self },
            NucField::SpinVal => Nucleus { spin: param_with(self.spin, Sub::Val, v), ..*self },
            NucField::Hpf(s) => Nucleus { hpf: param_with(self.hpf, s, v), ..*self },
        }
    }
}

impl Radical {
    pub fn set(lwa: i64, lrtz: i64, amount: i64, dh1: i64, nucs: Vec<Nucleus>) -> (r: Radical)
        ensures
            r.lwa.val == lwa && r.lwa.var == 0,
            r.lrtz.val == lrtz && r.lrtz.var == 0,
            r.amount.val == amount && r.amount.var == 0,
            r.dh1.val == dh1 && r.dh1.var == 0,
            r.nucs@ == nucs@,
    {
        Radical {
            lwa: Param::set(lwa, 0),
            lrtz: Param::set(lrtz, 0),
            amount: Param::set(amount, 0),
            dh1: Param::set(dh1, 0),
            nucs,
        }
    }

    /// A copy of the nucleus list.
    fn nucs_copy(&self) -> (r: Vec<Nucleus>)
        ensures
            r@ == self.nucs@,
    {
        let mut out: Vec<Nucleus> = Vec::new();
        let mut i: usize = 0;
        while i < self.nucs.len()
            invariant
                i <= self.nucs@.len(),
                out@ == self.nucs@.subrange(0, i as int),
            decreases self.nucs@.len() - i,
        {
            out.push(self.nucs[i]);
            i += 1;
        }
        out
    }

    /// A copy of the radical.
    pub fn duplicate(&self) -> (r: Radical)
        ensures
            r@ == self@,
    {
        Radical {
            lwa: self.lwa,
            lrtz: self.lrtz,
            amount: self.amount,
            dh1: self.dh1,
            nucs: self.nucs_copy(),
        }
    }

    /// The current value of the scalar `f`.
    pub fn field(&self, f: RadField) -> (r: i64)
        ensures
            r == self@.field(f),
    {
        match f {
            RadField::Amount(s) => param_sub(self.amount, s),
            RadField::Dh1(s) => param_sub(self.dh1, s),
            RadField::Lwa(s) => param_sub(self.lwa, s),
            RadField::Lrtz(s) => param_sub(self.lrtz, s),
        }
    }

    /// A copy with the scalar `f` replaced by `v`.
    pub fn with_field(&self, f: RadField, v: i64) -> (r: Radical)
        ensures
            r@ == self@.with_field(f, v),
    {
        let mut c = self.duplicate();
        match f {
            RadField::Amount(s) => c.amount = param_with(c.amount, s, v),
            RadField::Dh1(s) => c.dh1 = param_with(c.dh1, s, v),
            RadField::Lwa(s) => c.lwa = param_with(c.lwa, s, v),
            RadField::Lrtz(s) => c.lrtz = param_with(c.lrtz, s, v),
        }
        c
    }

    /// A copy with the scalar named `(fld, subfld)` replaced by `new_val`;
    /// `UnknownField` when the names designate none.
    pub fn set_radpar(&self, fld: &str, subfld: &str, new_val: i64) -> (r: Result<Radical, SimError>)
        ensures
            match rad_field_named(fld@, subfld@) {
                Some(f) => r is Ok && r->Ok_0@ == self@.with_field(f, new_val),
                None => r == Err::<Radical, SimError>(SimError::UnknownField),
            },
    {
        match RadField::parse(fld, subfld) {
            Ok(f) => Ok(self.with_field(f, new_val)),
            Err(e) => Err(e),
        }
    }

    /// A copy with the scalar `f` of nucleus `idx` replaced by `v`;
    /// `IndexOutOfRange` when there is no such nucleus.
    pub fn with_nucleus_field(&self, idx: usize, f: NucField, v: i64) -> (r: Result<Radical, SimError>)
        ensures
            idx < self.nucs@.len() ==> r is Ok && r->Ok_0@ == (RadicalView {
                nucs: self@.nucs.update(idx as int, nucleus_with(self@.nucs[idx as int], f, v)),
                ..self@
            }),
            idx >= self.nucs@.len() ==> r == Err::<Radical, SimError>(SimError::IndexOutOfRange),
    {
        if idx >= self.nucs.len() {
            return Err(SimError::IndexOutOfRange);
        }
        let mut c = self.duplicate();
        let n = c.nucs[idx].with_field(f, v);
        c.nucs.set(idx, n);
        Ok(c)
    }

    /// A copy with the scalar named `(fld, subfld)` of nucleus `nuc_idx`
    /// replaced by `new_val`. Unknown names give `UnknownField`, checked
    /// before the index; a missing nucleus gives `IndexOutOfRange`.
    pub fn set_nucpar(&self, nuc_idx: usize, fld: &str, subfld: &str, new_val: i64) -> (r: Result<Radical, SimError>)
        ensures
            match nuc_field_named(fld@, subfld@) {
                None => r == Err::<Radical, SimError>(SimError::UnknownField),
                Some(f) => if nuc_idx < self.nucs@.len() {
                    r is Ok && r->Ok_0@ == (RadicalView {
                        nucs: self@.nucs.update(nuc_idx as int, nucleus_with(self@.nucs[nuc_idx as int], f, new_val)),
                        ..self@
                    })
                } else {
                    r == Err::<Radical, SimError>(SimError::IndexOutOfRange)
                },
            },
    {
        match NucField::parse(fld, subfld) {
            Ok(f) => self.with_nucleus_field(nuc_idx, f, new_val),
            Err(e) => Err(e),
        }
    }

    /// Resets the values that a randomization may have driven out of their
    /// domain: linewidth and amount to at least 0, the Lorentzian share into `[0, 100]`.
    pub fn check_pars(rad: Radical) -> (r: Radical)
        ensures
            r@ == rad@.sanitized(),
            r@.is_sane(),
    {
        let mut rad = rad;
        if rad.lwa.val < 0 {
            rad.lwa.val = 0;
        }
        if rad.lrtz.val < 0 {
            rad.lrtz.val = 0;
        }
        if rad.amount.val < 0 {
            rad.amount.val = 0;
        }
        if rad.lrtz.val > LRTZ_MAX {
            rad.lrtz.val = LRTZ_MAX;
        }
        rad
    }

    /// The content of the standard bare radical.
    pub open spec fn electron_view() -> RadicalView {
        RadicalView {
            lwa: Param { val: (SCALE / 2) as i64, var: 0 },
            lrtz: Param { val: (100 * SCALE) as i64, var: 0 },
            amount: Param { val: (100 * SCALE) as i64, var: 0 },
            dh1: Param { val: 0, var: 0 },
            nucs: Seq::empty(),
        }
    }

    /// A radical without nuclei and with the standard line parameters:
    /// linewidth 0.5, fully Lorentzian, amount 100, no offset.
    pub fn electron() -> (r: Radical)
        ensures
            r@ == Radical::electron_view(),
            r.lwa.val == SCALE / 2 && r.lwa.var == 0,
            r.lrtz.val == 100 * SCALE && r.lrtz.var == 0,
            r.amount.val == 100 * SCALE && r.amount.var == 0,
            r.dh1.val == 0 && r.dh1.var == 0,
            r.nucs@.len() == 0,
    {
        Radical::set(SCALE / 2, 100 * SCALE, 100 * SCALE, 0, Vec::new())
    }

    /// The electron radical with one nucleus of spin 1, coupling 14 and a single copy.
    pub fn probe() -> (r: Radical)
        ensures
            r.lwa.val == SCALE / 2 && r.lwa.var == 0,
            r.lrtz.val == 100 * SCALE && r.lrtz.var == 0,
            r.amount.val == 100 * SCALE && r.amount.var == 0,
            r.dh1.val == 0 && r.dh1.var == 0,
            r.nucs@.len() == 1,
            r.nucs@[0].spin.val == SCALE && r.nucs@[0].spin.var == 0,
            r.nucs@[0].hpf.val == 14 * SCALE && r.nucs@[0].hpf.var == 0,
            r.nucs@[0].eqs.val == SCALE && r.nucs@[0].eqs.var == 0,
    {
        let mut rad = Radical::set(SCALE / 2, 100 * SCALE, 100 * SCALE, 0, Vec::new());
        rad.nucs.push(Nucleus::set(SCALE, 14 * SCALE, SCALE));
        rad
    }

    /// A copy in which every tunable parameter (linewidth, amount,
    /// Lorentzian share, offset, and each nucleus's coupling) is drawn
    /// anew within its band.
    pub fn randomize(&self) -> (r: Radical)
        ensures
            self@.admits(r@),
    {
        let mut nucs: Vec<Nucleus> = Vec::new();
        let mut i: usize = 0;
        while i < self.nucs.len()
            invariant
                i <= self.nucs@.len(),
                nucs@.len() == i,
                forall|j: int|
                    0 <= j < i ==> {
                        &&& (#[trigger] nucs@[j]).spin == self.nucs@[j].spin
                        &&& nucs@[j].eqs == self.nucs@[j].eqs
                        &&& self.nucs@[j].hpf.admits(nucs@[j].hpf)
                    },
            decreases self.nucs@.len() - i,
        {
            let n = self.nucs[i];
            nucs.push(Nucleus { hpf: n.hpf.randomize(), ..n });
            i += 1;
        }
        Radical {
            lwa: self.lwa.randomize(),
            lrtz: self.lrtz.randomize(),
            amount: self.amount.randomize(),
            dh1: self.dh1.randomize(),
            nucs,
        }
    }
}

/// Sanitizing twice is sanitizing once, and the result is always in domain.
pub proof fn lemma_sanitize_idempotent(r: RadicalView)
    ensures
        r.sanitized().sanitized() == r.sanitized(),
        r.sanitized().is_sane(),
{
}

} // verus!
