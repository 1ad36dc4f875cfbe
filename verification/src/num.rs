//! Field signals: affine linear combinations `a * var + b` with an optional
//! witness value.
//!
//! Arithmetic folds constants and reuses variables where it can, allocating
//! a fresh variable and emitting a constraint only when it must.  When the
//! constraint system tracks a witness, every well-formed signal's value
//! equals its combination evaluated at that witness, and each operation
//! states how it changes the satisfiability of the system.

use vstd::prelude::*;
use crate::field::{
    fadd, fdiv, finv, fmul, fneg, fsub, has_inv, lemma_add_same_var, lemma_f_bounds,
    lemma_fadd_fsub, lemma_fadd_fsub_assoc, lemma_fadd_zero, lemma_fdiv_cancel, lemma_finv_of,
    lemma_finv_zero, lemma_fmul_unit, lemma_fsub_is_fadd_fneg, lemma_fsub_is_zero,
    lemma_mul_cancel_nonzero, lemma_neg_eval, lemma_scale_eval, lemma_shift_eval, p, Num,
};
use crate::cs::{Gate, Lc, CS};

verus! {

/// A field signal: affine combination over one variable, plus an optional
/// witness value.
#[derive(Clone, Copy, Debug)]
pub struct CNum {
    /// The witness value, when the circuit is being evaluated.
    pub value: Option<Num>,
    /// The combination `lc.a * var(lc.v) + lc.b`.
    pub lc: Lc,
}

impl CNum {
    /// The witness value as a residue (zero when absent).
    pub open spec fn val(self) -> nat {
        match self.value {
            Some(v) => v.as_nat(),
            None => 0,
        }
    }

    /// Whether a witness value is present.
    pub open spec fn has_value(self) -> bool {
        self.value is Some
    }

    /// Well-formed with respect to a constraint system: the combination
    /// mentions an allocated variable, everything is a canonical residue,
    /// and under a tracked witness the value is the combination's value.
    pub open spec fn wf(self, cs: CS) -> bool {
        &&& self.lc.wf(cs.n_vars as nat)
        &&& (self.value matches Some(v) ==> v.wf())
        &&& (cs.tracking() ==> (self.value matches Some(v) && v.as_nat() == self.lc.eval(
            cs.asg(),
        )))
    }
}

/// A well-formed signal stays well-formed when the system only grows.
pub broadcast proof fn lemma_wf_extend(n: CNum, c1: CS, c2: CS)
    requires
        #[trigger] n.wf(c1),
        c1.wf(),
        #[trigger] c2.extends(c1),
    ensures
        n.wf(c2),
{
    if c2.tracking() {
        assert(c1.asg().len() == c1.n_vars);
        assert(c1.asg()[n.lc.v as int] == c2.asg()[n.lc.v as int]);
    }
}

impl CNum {
    /// A constant signal; allocates nothing.
    pub fn from_const(cs: &CS, value: &Num) -> (z: CNum)
        requires
            cs.wf(),
            value.wf(),
        ensures
            z.wf(*cs),
            z.has_value(),
            z.val() == value.as_nat(),
            z.lc.is_const(),
            z.lc.b == *value,
    {
        let z = CNum { value: Some(*value), lc: Lc { a: Num::zero(), v: 0, b: *value } };
        proof {
            if cs.tracking() {
                lemma_const_eval(z.lc, cs.asg());
            }
        }
        z
    }

    /// A freshly allocated signal carrying the given witness value.
    pub fn allocate(cs: &mut CS, value: Option<&Num>) -> (z: CNum)
        requires
            old(cs).wf(),
            old(cs).n_vars < usize::MAX,
            old(cs).tracking() ==> value is Some,
            value matches Some(x) ==> x.wf(),
        ensures
            final(cs).wf(),
            final(cs).extends(*old(cs)),
            final(cs).sat() == old(cs).sat(),
            final(cs).n_vars == old(cs).n_vars + 1,
            final(cs).gates@ == old(cs).gates@,
            z.wf(*final(cs)),
            value matches Some(x) ==> z.has_value() && z.val() == x.as_nat() && z.value == Some(
                *x,
            ),
            value is None ==> !z.has_value(),
            !z.lc.is_const(),
            z.lc.a.as_nat() == 1,
            z.lc.v == old(cs).n_vars,
            z.lc.b.as_nat() == 0,
    {
        let v = cs.alloc_var(value);
        let z = CNum {
            value: match value {
                Some(x) => Some(*x),
                None => None,
            },
            lc: Lc { a: Num::one(), v, b: Num::zero() },
        };
        proof {
            if cs.tracking() {
                let w = cs.asg()[v as int];
                lemma_unit_eval(z.lc, cs.asg());
                crate::field::lemma_fm_range(w as int);
            }
        }
        z
    }

    /// The witness value, when present.
    pub fn get_value(&self) -> (r: Option<Num>)
        ensures
            r == self.value,
    {
        self.value
    }

    /// The constant a pure-constant signal stands for, and `None` for a
    /// signal that actually involves a variable.
    pub fn as_const(&self) -> (r: Option<Num>)
        ensures
            self.lc.is_const() ==> r == Some(self.lc.b),
            !self.lc.is_const() ==> r is None,
    {
        if self.lc.a.is_zero() {
            Some(self.lc.b)
        } else {
            None
        }
    }

    /// How many variables the signal involves.
    pub fn capacity(&self) -> (r: usize)
        ensures
            r == if self.lc.is_const() {
                0int
            } else {
                1int
            },
    {
        if self.lc.a.is_zero() {
            0
        } else {
            1
        }
    }

    /// The negated signal; allocates nothing.
    pub fn neg(&self, cs: &CS) -> (z: CNum)
        requires
            cs.wf(),
            self.wf(*cs),
        ensures
            z.wf(*cs),
            z.has_value() == self.has_value(),
            z.has_value() ==> z.val() == fneg(self.val()),
            z.lc.is_const() == self.lc.is_const(),
    {
        let value = match &self.value {
            Some(v) => Some(v.negate()),
            None => None,
        };
        let z = CNum {
            value,
            lc: Lc { a: self.lc.a.negate(), v: self.lc.v, b: self.lc.b.negate() },
        };
        proof {
            lemma_f_bounds(0, self.lc.a.as_nat());
            if cs.tracking() {
                lemma_neg_eval(
                    self.lc.a.as_nat(),
                    cs.asg()[self.lc.v as int],
                    self.lc.b.as_nat(),
                );
            }
            assert(z.lc.is_const() == self.lc.is_const()) by {
                lemma_fneg_zero_iff(self.lc.a.as_nat());
            }
        }
        z
    }
}

impl CNum {
    /// The sum of two signals.  Folds constants, merges combinations over a
    /// shared variable, and otherwise allocates the result and records one
    /// linear constraint.
    pub fn add(&self, other: &CNum, cs: &mut CS) -> (z: CNum)
        requires
            old(cs).wf(),
            self.wf(*old(cs)),
            other.wf(*old(cs)),
            old(cs).n_vars < usize::MAX,
        ensures
            final(cs).wf(),
            final(cs).extends(*old(cs)),
            final(cs).sat() == old(cs).sat(),
            final(cs).n_vars <= old(cs).n_vars + 1,
            z.wf(*final(cs)),
            old(cs).tracking() ==> z.val() == fadd(self.val(), other.val()),
            self.has_value() && other.has_value() ==> z.has_value(),
            self.lc.is_const() && other.lc.is_const() ==> z.lc.is_const(),
            self.lc.is_const() || other.lc.is_const() || self.lc.v == other.lc.v ==> *final(cs)
                == *old(cs),
            !(self.lc.is_const() || other.lc.is_const() || self.lc.v == other.lc.v)
                ==> final(cs).n_vars == old(cs).n_vars + 1 && final(cs).gates@ == old(
                cs,
            ).gates@.push(Gate::Add(self.lc, other.lc, z.lc)),
    {
        let ghost w = old(cs).asg();
        if self.lc.a.is_zero() {
            let value = match &other.value {
                Some(v) => Some(v.add(&self.lc.b)),
                None => None,
            };
            let z = CNum {
                value,
                lc: Lc { a: other.lc.a, v: other.lc.v, b: other.lc.b.add(&self.lc.b) },
            };
            proof {
                if cs.tracking() {
                    lemma_const_eval(self.lc, w);
                    lemma_shift_eval(
                        other.lc.a.as_nat(),
                        w[other.lc.v as int],
                        other.lc.b.as_nat(),
                        self.lc.b.as_nat(),
                    );
                }
            }
            z
        } else if other.lc.a.is_zero() {
            let value = match &self.value {
                Some(v) => Some(v.add(&other.lc.b)),
                None => None,
            };
            let z = CNum {
                value,
                lc: Lc { a: self.lc.a, v: self.lc.v, b: self.lc.b.add(&other.lc.b) },
            };
            proof {
                if cs.tracking() {
                    lemma_const_eval(other.lc, w);
                    lemma_shift_eval(
                        self.lc.a.as_nat(),
                        w[self.lc.v as int],
                        self.lc.b.as_nat(),
                        other.lc.b.as_nat(),
                    );
                }
            }
            z
        } else if self.lc.v == other.lc.v {
            let value = match (&self.value, &other.value) {
                (Some(a), Some(b)) => Some(a.add(b)),
                _ => None,
            };
            let z = CNum {
                value,
                lc: Lc {
                    a: self.lc.a.add(&other.lc.a),
                    v: self.lc.v,
                    b: self.lc.b.add(&other.lc.b),
                },
            };
            proof {
                if cs.tracking() {
                    lemma_add_same_var(
                        self.lc.a.as_nat(),
                        self.lc.b.as_nat(),
                        other.lc.a.as_nat(),
                        other.lc.b.as_nat(),
                        w[self.lc.v as int],
                    );
                }
            }
            z
        } else {
            let value = match (&self.value, &other.value) {
                (Some(a), Some(b)) => Some(a.add(b)),
                _ => None,
            };
            let z = CNum::allocate(
                cs,
                match &value {
                    Some(v) => Some(v),
                    None => None,
                },
            );
            let ghost mid = *cs;
            cs.enforce_add(&self.lc, &other.lc, &z.lc);
            proof {
                crate::cs::lemma_extends_trans(*cs, mid, *old(cs));
                lemma_wf_extend(z, mid, *cs);
                if cs.tracking() {
                    crate::cs::lemma_lc_eval_prefix(self.lc, old(cs).n_vars as nat, w, mid.asg());
                    crate::cs::lemma_lc_eval_prefix(other.lc, old(cs).n_vars as nat, w, mid.asg());
                    assert(Gate::Add(self.lc, other.lc, z.lc).holds(mid.asg()));
                }
            }
            z
        }
    }

    /// The difference of two signals.
    pub fn sub(&self, other: &CNum, cs: &mut CS) -> (z: CNum)
        requires
            old(cs).wf(),
            self.wf(*old(cs)),
            other.wf(*old(cs)),
            old(cs).n_vars < usize::MAX,
        ensures
            final(cs).wf(),
            final(cs).extends(*old(cs)),
            final(cs).sat() == old(cs).sat(),
            final(cs).n_vars <= old(cs).n_vars + 1,
            z.wf(*final(cs)),
            old(cs).tracking() ==> z.val() == fsub(self.val(), other.val()),
            self.has_value() && other.has_value() ==> z.has_value(),
            self.lc.is_const() && other.lc.is_const() ==> z.lc.is_const(),
    {
        let negated = other.neg(cs);
        let z = self.add(&negated, cs);
        proof {
            if old(cs).tracking() {
                lemma_fsub_is_fadd_fneg(self.val(), other.val());
            }
        }
        z
    }

    /// The product of a signal and a constant; allocates nothing.
    pub fn mul_const(&self, k: &Num, cs: &CS) -> (z: CNum)
        requires
            cs.wf(),
            self.wf(*cs),
            k.wf(),
        ensures
            z.wf(*cs),
            cs.tracking() ==> z.val() == fmul(self.val(), k.as_nat()),
            self.has_value() ==> z.has_value(),
            self.lc.is_const() ==> z.lc.is_const(),
    {
        let value = match &self.value {
            Some(v) => Some(v.mul(k)),
            None => None,
        };
        let z = CNum { value, lc: Lc { a: self.lc.a.mul(k), v: self.lc.v, b: self.lc.b.mul(k) } };
        proof {
            if self.lc.is_const() {
                crate::field::lemma_fmul_zero(k.as_nat());
            }
            if cs.tracking() {
                let wv = cs.asg()[self.lc.v as int];
                lemma_scale_eval(k.as_nat(), self.lc.a.as_nat(), wv, self.lc.b.as_nat());
            }
        }
        z
    }

    /// The product of two signals.  Folds when either side is constant,
    /// otherwise allocates the result and records one bilinear constraint.
    pub fn mul(&self, other: &CNum, cs: &mut CS) -> (z: CNum)
        requires
            old(cs).wf(),
            self.wf(*old(cs)),
            other.wf(*old(cs)),
            old(cs).n_vars < usize::MAX,
        ensures
            final(cs).wf(),
            final(cs).extends(*old(cs)),
            final(cs).sat() == old(cs).sat(),
            final(cs).n_vars <= old(cs).n_vars + 1,
            z.wf(*final(cs)),
            old(cs).tracking() ==> z.val() == fmul(self.val(), other.val()),
            self.has_value() && other.has_value() ==> z.has_value(),
            self.lc.is_const() && other.lc.is_const() ==> z.lc.is_const(),
            self.lc.is_const() || other.lc.is_const() ==> *final(cs) == *old(cs),
            !(self.lc.is_const() || other.lc.is_const()) ==> final(cs).n_vars == old(cs).n_vars
                + 1 && final(cs).gates@ == old(cs).gates@.push(
                Gate::Mul(self.lc, other.lc, z.lc),
            ),
    {
        let ghost w = old(cs).asg();
        if self.lc.a.is_zero() {
            let z = other.mul_const(&self.lc.b, cs);
            proof {
                if cs.tracking() {
                    lemma_const_eval(self.lc, w);
                }
            }
            z
        } else if other.lc.a.is_zero() {
            let z = self.mul_const(&other.lc.b, cs);
            proof {
                if cs.tracking() {
                    lemma_const_eval(other.lc, w);
                }
            }
            z
        } else {
            let value = match (&self.value, &other.value) {
                (Some(a), Some(b)) => Some(a.mul(b)),
                _ => None,
            };
            let z = CNum::allocate(
                cs,
                match &value {
                    Some(v) => Some(v),
                    None => None,
                },
            );
            let ghost mid = *cs;
            cs.enforce_mul(&self.lc, &other.lc, &z.lc);
            proof {
                crate::cs::lemma_extends_trans(*cs, mid, *old(cs));
                lemma_wf_extend(z, mid, *cs);
                if cs.tracking() {
                    crate::cs::lemma_lc_eval_prefix(self.lc, old(cs).n_vars as nat, w, mid.asg());
                    crate::cs::lemma_lc_eval_prefix(other.lc, old(cs).n_vars as nat, w, mid.asg());
                    assert(Gate::Mul(self.lc, other.lc, z.lc).holds(mid.asg()));
                }
            }
            z
        }
    }
}

impl CNum {
    /// Division without the divisor-nonzero constraint.  The callers must
    /// know the divisor nonzero from other constraints; with a zero divisor
    /// in the witness the emitted constraint is unsatisfiable unless the
    /// dividend is zero too, and the witness value falls back to zero.
    pub fn div_unchecked(&self, other: &CNum, cs: &mut CS) -> (z: CNum)
        requires
            old(cs).wf(),
            self.wf(*old(cs)),
            other.wf(*old(cs)),
            old(cs).n_vars < usize::MAX,
        ensures
            final(cs).wf(),
            final(cs).extends(*old(cs)),
            final(cs).n_vars <= old(cs).n_vars + 1,
            z.wf(*final(cs)),
            old(cs).tracking() ==> z.val() == fdiv(self.val(), other.val()),
            final(cs).sat() == (old(cs).sat() && ((old(cs).tracking() && !other.lc.is_const())
                ==> (other.val() != 0 || self.val() == 0))),
            self.has_value() && other.has_value() ==> z.has_value(),
            other.lc.is_const() ==> *final(cs) == *old(cs),
            !other.lc.is_const() ==> final(cs).n_vars == old(cs).n_vars + 1 && final(cs).gates@
                == old(cs).gates@.push(Gate::Mul(z.lc, other.lc, self.lc)),
    {
        let ghost w = old(cs).asg();
        if other.lc.a.is_zero() {
            let z = match other.lc.b.inverse() {
                Some(bi) => self.mul_const(&bi, cs),
                None => {
                    proof {
                        lemma_finv_zero();
                        crate::field::lemma_fmul_zero(self.val());
                        if cs.tracking() {
                            lemma_const_eval(other.lc, w);
                        }
                    }
                    let zero = Num::zero();
                    CNum::from_const(cs, &zero)
                },
            };
            proof {
                if cs.tracking() {
                    lemma_const_eval(other.lc, w);
                }
            }
            z
        } else {
            let value = match (&self.value, &other.value) {
                (Some(a), Some(b)) => Some(Num::div_total(a, b)),
                _ => None,
            };
            let z = CNum::allocate(
                cs,
                match &value {
                    Some(v) => Some(v),
                    None => None,
                },
            );
            let ghost mid = *cs;
            cs.enforce_mul(&z.lc, &other.lc, &self.lc);
            proof {
                crate::cs::lemma_extends_trans(*cs, mid, *old(cs));
                lemma_wf_extend(z, mid, *cs);
                if cs.tracking() {
                    crate::cs::lemma_lc_eval_prefix(self.lc, old(cs).n_vars as nat, w, mid.asg());
                    crate::cs::lemma_lc_eval_prefix(other.lc, old(cs).n_vars as nat, w, mid.asg());
                    let sv = self.val();
                    let ov = other.val();
                    if ov != 0 {
                        lemma_fdiv_cancel(sv, ov);
                        assert(Gate::Mul(z.lc, other.lc, self.lc).holds(mid.asg()));
                    } else {
                        lemma_finv_zero();
                        crate::field::lemma_fmul_zero(sv);
                        crate::field::lemma_fmul_zero(z.val());
                        assert(Gate::Mul(z.lc, other.lc, self.lc).holds(mid.asg()) == (sv == 0));
                    }
                }
            }
            z
        }
    }

    /// Asserts that the signal is nonzero: records `self * w == 1` for a
    /// fresh `w` carrying the inverse as witness.  With a tracked witness the
    /// system stays satisfiable exactly when the value is nonzero.
    pub fn assert_nonzero(&self, cs: &mut CS)
        requires
            old(cs).wf(),
            self.wf(*old(cs)),
            old(cs).n_vars < usize::MAX,
            self.lc.is_const() ==> self.lc.b.as_nat() != 0,
        ensures
            final(cs).wf(),
            final(cs).extends(*old(cs)),
            final(cs).n_vars <= old(cs).n_vars + 1,
            final(cs).sat() == (old(cs).sat() && (old(cs).tracking() ==> self.val() != 0)),
    {
        let ghost w = old(cs).asg();
        if self.lc.a.is_zero() {
            proof {
                if cs.tracking() {
                    lemma_const_eval(self.lc, w);
                }
            }
        } else {
            let value = match &self.value {
                Some(v) => match v.inverse() {
                    Some(x) => Some(x),
                    None => Some(Num::one()),
                },
                None => None,
            };
            let inv_signal = CNum::allocate(
                cs,
                match &value {
                    Some(v) => Some(v),
                    None => None,
                },
            );
            let one_lc = Lc { a: Num::zero(), v: 0, b: Num::one() };
            let ghost mid = *cs;
            cs.enforce_mul(&self.lc, &inv_signal.lc, &one_lc);
            proof {
                crate::cs::lemma_extends_trans(*cs, mid, *old(cs));
                if cs.tracking() {
                    crate::cs::lemma_lc_eval_prefix(self.lc, old(cs).n_vars as nat, w, mid.asg());
                    lemma_const_eval(one_lc, mid.asg());
                    let sv = self.val();
                    if sv != 0 {
                        assert(Gate::Mul(self.lc, inv_signal.lc, one_lc).holds(mid.asg()));
                    } else {
                        crate::field::lemma_fmul_zero(inv_signal.val());
                        assert(!Gate::Mul(self.lc, inv_signal.lc, one_lc).holds(mid.asg()));
                    }
                }
            }
        }
    }

    /// Division with a divisor-nonzero constraint.
    pub fn div(&self, other: &CNum, cs: &mut CS) -> (z: CNum)
        requires
            old(cs).wf(),
            self.wf(*old(cs)),
            other.wf(*old(cs)),
            old(cs).n_vars + 2 <= usize::MAX,
            other.lc.is_const() ==> other.lc.b.as_nat() != 0,
        ensures
            final(cs).wf(),
            final(cs).extends(*old(cs)),
            final(cs).n_vars <= old(cs).n_vars + 2,
            z.wf(*final(cs)),
            old(cs).tracking() ==> z.val() == fdiv(self.val(), other.val()),
            final(cs).sat() == (old(cs).sat() && (old(cs).tracking() ==> other.val() != 0)),
            self.has_value() && other.has_value() ==> z.has_value(),
    {
        let ghost w = old(cs).asg();
        if other.lc.a.is_zero() {
            let bi = match other.lc.b.inverse() {
                Some(x) => x,
                None => Num::zero(),
            };
            let z = self.mul_const(&bi, cs);
            proof {
                if cs.tracking() {
                    lemma_const_eval(other.lc, w);
                }
            }
            z
        } else {
            other.assert_nonzero(cs);
            let ghost mid = *cs;
            proof {
                lemma_wf_extend(*self, *old(cs), mid);
                lemma_wf_extend(*other, *old(cs), mid);
            }
            let z = self.div_unchecked(other, cs);
            proof {
                crate::cs::lemma_extends_trans(*cs, mid, *old(cs));
                if cs.tracking() {
                    crate::cs::lemma_lc_eval_prefix(self.lc, old(cs).n_vars as nat, w, mid.asg());
                    crate::cs::lemma_lc_eval_prefix(other.lc, old(cs).n_vars as nat, w, mid.asg());
                }
            }
            z
        }
    }

    /// The multiplicative inverse as a signal: asserts the signal nonzero
    /// and records `self * w == 1`, returning `w`.  A nonzero tracked value
    /// also witnesses the inverse law `self * self^-1 == 1`.
    pub fn inv(&self, cs: &mut CS) -> (z: CNum)
        requires
            old(cs).wf(),
            self.wf(*old(cs)),
            old(cs).n_vars + 2 <= usize::MAX,
            self.lc.is_const() ==> self.lc.b.as_nat() != 0,
        ensures
            final(cs).wf(),
            final(cs).extends(*old(cs)),
            final(cs).n_vars <= old(cs).n_vars + 2,
            z.wf(*final(cs)),
            old(cs).tracking() ==> z.val() == (if self.val() == 0 {
                1nat
            } else {
                finv(self.val())
            }),
            old(cs).tracking() && self.val() != 0 ==> fmul(self.val(), z.val()) == 1,
            final(cs).sat() == (old(cs).sat() && (old(cs).tracking() ==> self.val() != 0)),
        {
        let ghost w = old(cs).asg();
        if self.lc.a.is_zero() {
            let bi = match self.lc.b.inverse() {
                Some(x) => x,
                None => Num::zero(),
            };
            let z = CNum::from_const(cs, &bi);
            proof {
                if cs.tracking() {
                    lemma_const_eval(self.lc, w);
                }
            }
            z
        } else {
            self.assert_nonzero(cs);
            let ghost mid = *cs;
            proof {
                lemma_wf_extend(*self, *old(cs), mid);
            }
            let value = match &self.value {
                Some(v) => match v.inverse() {
                    Some(w) => Some(w),
                    None => Some(Num::one()),
                },
                None => None,
            };
            let z = CNum::allocate(
                cs,
                match &value {
                    Some(v) => Some(v),
                    None => None,
                },
            );
            let ghost mid2 = *cs;
            let one_lc = Lc { a: Num::zero(), v: 0, b: Num::one() };
            cs.enforce_mul(&self.lc, &z.lc, &one_lc);
            proof {
                crate::cs::lemma_extends_trans(*cs, mid2, mid);
                crate::cs::lemma_extends_trans(*cs, mid, *old(cs));
                lemma_wf_extend(z, mid2, *cs);
                if cs.tracking() {
                    crate::cs::lemma_lc_eval_prefix(self.lc, old(cs).n_vars as nat, w, mid.asg());
                    crate::cs::lemma_lc_eval_prefix(self.lc, mid.n_vars as nat, mid.asg(), mid2.asg());
                    lemma_const_eval(one_lc, mid2.asg());
                    let sv = self.val();
                    if sv != 0 {
                        crate::field::lemma_finv_works(sv);
                        assert(z.val() == finv(sv));
                        assert(Gate::Mul(self.lc, z.lc, one_lc).holds(mid2.asg()));
                    } else {
                        assert(z.val() == 1);
                    }
                }
            }
            z
        }
    }

    /// Asserts that the signal equals a constant.
    pub fn assert_const(&self, value: &Num, cs: &mut CS)
        requires
            old(cs).wf(),
            self.wf(*old(cs)),
            value.wf(),
        ensures
            final(cs).wf(),
            final(cs).extends(*old(cs)),
            final(cs).n_vars == old(cs).n_vars,
            final(cs).sat() == (old(cs).sat() && (old(cs).tracking() ==> self.val()
                == value.as_nat())),
    {
        let ghost w = old(cs).asg();
        let zero_lc = Lc { a: Num::zero(), v: 0, b: Num::zero() };
        let value_lc = Lc { a: Num::zero(), v: 0, b: *value };
        cs.enforce_add(&self.lc, &zero_lc, &value_lc);
        proof {
            if old(cs).tracking() {
                lemma_const_eval(zero_lc, w);
                lemma_const_eval(value_lc, w);
                crate::cs::lemma_eval_bound(self.lc, w);
                lemma_fadd_zero(self.lc.eval(w));
            }
        }
    }

    /// Asserts that the signal is zero.
    pub fn assert_zero(&self, cs: &mut CS)
        requires
            old(cs).wf(),
            self.wf(*old(cs)),
        ensures
            final(cs).wf(),
            final(cs).extends(*old(cs)),
            final(cs).n_vars == old(cs).n_vars,
            final(cs).sat() == (old(cs).sat() && (old(cs).tracking() ==> self.val() == 0)),
    {
        let zero = Num::zero();
        self.assert_const(&zero, cs);
    }

    /// Asserts that two signals are equal.
    pub fn assert_eq(&self, other: &CNum, cs: &mut CS)
        requires
            old(cs).wf(),
            self.wf(*old(cs)),
            other.wf(*old(cs)),
        ensures
            final(cs).wf(),
            final(cs).extends(*old(cs)),
            final(cs).n_vars == old(cs).n_vars,
            final(cs).sat() == (old(cs).sat() && (old(cs).tracking() ==> self.val()
                == other.val())),
    {
        let ghost w = old(cs).asg();
        let zero_lc = Lc { a: Num::zero(), v: 0, b: Num::zero() };
        cs.enforce_add(&self.lc, &zero_lc, &other.lc);
        proof {
            if old(cs).tracking() {
                lemma_const_eval(zero_lc, w);
                crate::cs::lemma_eval_bound(self.lc, w);
                lemma_fadd_zero(self.lc.eval(w));
            }
        }
    }

    /// Asserts that the signal is a bit: records `self * (self - 1) == 0`.
    /// With a tracked witness, the system stays satisfiable exactly when the
    /// value is zero or one.
    pub fn assert_bit(&self, cs: &mut CS)
        requires
            old(cs).wf(),
            self.wf(*old(cs)),
        ensures
            final(cs).wf(),
            final(cs).extends(*old(cs)),
            final(cs).n_vars == old(cs).n_vars,
            final(cs).sat() == (old(cs).sat() && (old(cs).tracking() ==> (self.val() == 0
                || self.val() == 1))),
    {
        let ghost w = old(cs).asg();
        let one = Num::one();
        let zero_lc = Lc { a: Num::zero(), v: 0, b: Num::zero() };
        let minus_lc = Lc { a: self.lc.a, v: self.lc.v, b: self.lc.b.sub(&one) };
        proof {
            if old(cs).tracking() {
                lemma_const_eval(zero_lc, w);
                lemma_fadd_fsub_assoc(
                    fmul(self.lc.a.as_nat(), w[self.lc.v as int]),
                    self.lc.b.as_nat(),
                    1,
                );
                crate::cs::lemma_eval_bound(self.lc, w);
                assert(minus_lc.eval(w) == fsub(self.val(), 1));
            }
        }
        if let Some(v) = &self.value {
            if !v.is_zero() {
                let vm1 = v.sub(&Num::one());
                if !vm1.is_zero() {
                    let ia = v.inverse();
                    proof {
                        if old(cs).tracking() {
                            let sv = self.val();
                            lemma_fsub_is_zero(sv, 1);
                            if let Some(w_inv) = ia {
                                if fmul(sv, fsub(sv, 1)) == 0 {
                                    lemma_mul_cancel_nonzero(sv, fsub(sv, 1), w_inv.as_nat());
                                }
                            }
                        }
                    }
                }
            }
        }
        cs.enforce_mul(&self.lc, &minus_lc, &zero_lc);
        proof {
            if old(cs).tracking() {
                let sv = self.val();
                if sv == 0 {
                    crate::field::lemma_fmul_zero(fsub(sv, 1));
                } else if sv == 1 {
                    lemma_fadd_fsub(1, 1);
                    crate::field::lemma_fmul_zero(sv);
                }
            }
        }
    }

    /// Pins a copy of the signal as a public input: allocates the copy,
    /// records its equality with the signal, and declares it public.  The
    /// declared input combination carries the signal's value under the
    /// tracked witness.
    pub fn inputize(&self, cs: &mut CS)
        requires
            old(cs).wf(),
            self.wf(*old(cs)),
            old(cs).n_vars < usize::MAX,
        ensures
            final(cs).wf(),
            final(cs).extends(*old(cs)),
            final(cs).n_vars == old(cs).n_vars + 1,
            final(cs).sat() == old(cs).sat(),
            final(cs).gates@.len() == old(cs).gates@.len() + 2,
            final(cs).gates@.last() matches Gate::Input(l) && (final(cs).gates@[final(cs).gates@.len()
                - 2] matches Gate::Add(s, z, l2) && s == self.lc && l2 == l && z.is_const()
                && z.b.as_nat() == 0) && (old(cs).tracking() ==> l.eval(final(cs).asg())
                == self.val()),
    {
        let ghost w = old(cs).asg();
        let copy = CNum::allocate(
            cs,
            match &self.value {
                Some(v) => Some(v),
                None => None,
            },
        );
        let ghost mid = *cs;
        let zero_lc = Lc { a: Num::zero(), v: 0, b: Num::zero() };
        cs.enforce_add(&self.lc, &zero_lc, &copy.lc);
        let ghost mid2 = *cs;
        cs.enforce_pub(&copy.lc);
        proof {
            crate::cs::lemma_extends_trans(mid2, mid, *old(cs));
            crate::cs::lemma_extends_trans(*cs, mid2, *old(cs));
            if old(cs).tracking() {
                lemma_const_eval(zero_lc, mid.asg());
                crate::cs::lemma_lc_eval_prefix(self.lc, old(cs).n_vars as nat, w, mid.asg());
                crate::cs::lemma_eval_bound(self.lc, w);
                lemma_fadd_zero(self.lc.eval(w));
                assert(Gate::Add(self.lc, zero_lc, copy.lc).holds(mid.asg()));
            }
        }
    }

    /// Appends the signal to a flat list of scalar signals; composite
    /// signals use this to expose their components one by one.
    pub fn linearize_builder(&self, acc: &mut Vec<CNum>)
        ensures
            final(acc)@ == old(acc)@.push(*self),
    {
        acc.push(*self);
    }
}

/// A constant combination evaluates to its constant term.
pub proof fn lemma_const_eval(lc: Lc, w: Seq<nat>)
    requires
        lc.is_const(),
        lc.b.wf(),
    ensures
        lc.eval(w) == lc.b.as_nat(),
{
    crate::field::lemma_fmul_zero(w[lc.v as int]);
    lemma_fadd_zero(lc.b.as_nat());
}

/// A unit combination evaluates to its variable's value.
proof fn lemma_unit_eval(lc: Lc, w: Seq<nat>)
    requires
        lc.a.as_nat() == 1,
        lc.b.as_nat() == 0,
        0 <= lc.v < w.len(),
        w[lc.v as int] < p(),
    ensures
        lc.eval(w) == w[lc.v as int],
{
    lemma_fmul_unit(w[lc.v as int]);
    lemma_fadd_zero(w[lc.v as int]);
}

/// Negation vanishes exactly on zero.
proof fn lemma_fneg_zero_iff(a: nat)
    requires
        a < p(),
    ensures
        (fneg(a) == 0) == (a == 0),
{
    lemma_fsub_is_zero(0, a);
}

} // verus!
