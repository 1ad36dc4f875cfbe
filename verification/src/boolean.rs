//! Bit signals: field signals constrained to `{0, 1}`, with logical
//! operations, the zero test, and ternary selection.

use vstd::prelude::*;
use crate::field::{
    fadd, fmul, fneg, fsub, lemma_f_bounds, lemma_fadd_fsub, lemma_fadd_zero, lemma_finv_of,
    lemma_fmul_unit, lemma_fmul_zero, lemma_fsub_is_zero, p, Num,
};
use crate::cs::{Gate, Lc, CS};
use crate::num::{lemma_wf_extend, CNum};

verus! {

/// A bit signal: a field signal whose witness value, when present, is zero
/// or one.
#[derive(Clone, Copy, Debug)]
pub struct CBool(pub CNum);

impl CBool {
    /// Well-formed: the underlying signal is, and under a tracked witness
    /// its value is a bit.
    pub open spec fn wf(self, cs: CS) -> bool {
        &&& self.0.wf(cs)
        &&& (cs.tracking() ==> (self.0.val() == 0 || self.0.val() == 1))
    }

    /// The witness value as a boolean (false when absent).
    pub open spec fn bval(self) -> bool {
        self.0.val() == 1
    }

    /// Whether a witness value is present.
    pub open spec fn has_value(self) -> bool {
        self.0.has_value()
    }

    /// A constant bit; allocates nothing.
    pub fn from_const(cs: &CS, value: &bool) -> (z: CBool)
        requires
            cs.wf(),
        ensures
            z.wf(*cs),
            z.has_value(),
            z.bval() == *value,
            z.0.lc.is_const(),
            z.0.lc.b.as_nat() == (if *value {
                1nat
            } else {
                0nat
            }),
    {
        let n = if *value {
            Num::one()
        } else {
            Num::zero()
        };
        CBool(CNum::from_const(cs, &n))
    }

    /// A constant true bit.
    pub fn c_true(cs: &CS) -> (z: CBool)
        requires
            cs.wf(),
        ensures
            z.wf(*cs),
            z.has_value(),
            z.bval(),
            z.0.lc.is_const(),
            z.0.lc.b.as_nat() == 1,
    {
        CBool::from_const(cs, &true)
    }

    /// A constant false bit.
    pub fn c_false(cs: &CS) -> (z: CBool)
        requires
            cs.wf(),
        ensures
            z.wf(*cs),
            z.has_value(),
            !z.bval(),
            z.0.lc.is_const(),
            z.0.lc.b.as_nat() == 0,
    {
        CBool::from_const(cs, &false)
    }

    /// A freshly allocated bit carrying the given witness value, constrained
    /// to be a bit.
    pub fn allocate(cs: &mut CS, value: Option<&bool>) -> (z: CBool)
        requires
            old(cs).wf(),
            old(cs).n_vars < usize::MAX,
            old(cs).tracking() ==> value is Some,
        ensures
            final(cs).wf(),
            final(cs).extends(*old(cs)),
            final(cs).sat() == old(cs).sat(),
            final(cs).n_vars <= old(cs).n_vars + 1,
            z.wf(*final(cs)),
            value matches Some(b) ==> z.has_value() && z.bval() == *b,
    {
        let n = match value {
            Some(b) => Some(
                if *b {
                    Num::one()
                } else {
                    Num::zero()
                },
            ),
            None => None,
        };
        let inner = CNum::allocate(
            cs,
            match &n {
                Some(v) => Some(v),
                None => None,
            },
        );
        let ghost mid = *cs;
        inner.assert_bit(cs);
        let z = CBool(inner);
        proof {
            crate::cs::lemma_extends_trans(*cs, mid, *old(cs));
            lemma_wf_extend(inner, mid, *cs);
        }
        z
    }

    /// The witness value, when present.
    pub fn get_value(&self, cs: &CS) -> (r: Option<bool>)
        requires
            cs.wf(),
            self.wf(*cs),
        ensures
            cs.tracking() ==> (r matches Some(b) && b == self.bval()),
            r is None ==> !self.has_value(),
    {
        match &self.0.value {
            Some(v) => Some(!v.is_zero()),
            None => None,
        }
    }

    /// The constant the bit stands for, when it is constant.
    pub fn as_const(&self) -> (r: Option<bool>)
        ensures
            self.0.lc.is_const() ==> r == Some(self.0.lc.b.as_nat() != 0),
            !self.0.lc.is_const() ==> r is None,
    {
        match self.0.as_const() {
            Some(b) => Some(!b.is_zero()),
            None => None,
        }
    }

    /// The underlying field signal.
    pub fn into_num(&self) -> (r: CNum)
        ensures
            r == self.0,
    {
        self.0
    }

    /// The underlying field signal, as the identity cast.
    pub fn to_num(&self) -> (r: CNum)
        ensures
            r == self.0,
    {
        self.0
    }

    /// Asserts the bit constraint on the underlying signal once more.
    pub fn assert_bit(&self, cs: &mut CS)
        requires
            old(cs).wf(),
            self.wf(*old(cs)),
        ensures
            final(cs).wf(),
            final(cs).extends(*old(cs)),
            final(cs).n_vars == old(cs).n_vars,
            final(cs).sat() == (old(cs).sat() && (old(cs).tracking() ==> (self.0.val() == 0
                || self.0.val() == 1))),
    {
        self.0.assert_bit(cs);
    }

    /// Asserts that the bit equals a constant.
    pub fn assert_const(&self, value: &bool, cs: &mut CS)
        requires
            old(cs).wf(),
            self.wf(*old(cs)),
        ensures
            final(cs).wf(),
            final(cs).extends(*old(cs)),
            final(cs).n_vars == old(cs).n_vars,
            final(cs).sat() == (old(cs).sat() && (old(cs).tracking() ==> self.bval() == *value)),
    {
        let n = if *value {
            Num::one()
        } else {
            Num::zero()
        };
        self.0.assert_const(&n, cs);
    }

    /// Asserts that the bit is true.
    pub fn assert_true(&self, cs: &mut CS)
        requires
            old(cs).wf(),
            self.wf(*old(cs)),
        ensures
            final(cs).wf(),
            final(cs).extends(*old(cs)),
            final(cs).n_vars == old(cs).n_vars,
            final(cs).sat() == (old(cs).sat() && (old(cs).tracking() ==> self.bval())),
    {
        self.assert_const(&true, cs);
    }

    /// Asserts that the bit is false.
    pub fn assert_false(&self, cs: &mut CS)
        requires
            old(cs).wf(),
            self.wf(*old(cs)),
        ensures
            final(cs).wf(),
            final(cs).extends(*old(cs)),
            final(cs).n_vars == old(cs).n_vars,
            final(cs).sat() == (old(cs).sat() && (old(cs).tracking() ==> !self.bval())),
    {
        self.assert_const(&false, cs);
    }

    /// Asserts that two bits are equal.
    pub fn assert_eq(&self, other: &CBool, cs: &mut CS)
        requires
            old(cs).wf(),
            self.wf(*old(cs)),
            other.wf(*old(cs)),
        ensures
            final(cs).wf(),
            final(cs).extends(*old(cs)),
            final(cs).n_vars == old(cs).n_vars,
            final(cs).sat() == (old(cs).sat() && (old(cs).tracking() ==> self.bval()
                == other.bval())),
    {
        self.0.assert_eq(&other.0, cs);
    }

    /// Logical negation: `1 - self`.
    pub fn not(&self, cs: &mut CS) -> (z: CBool)
        requires
            old(cs).wf(),
            self.wf(*old(cs)),
            old(cs).n_vars < usize::MAX,
        ensures
            final(cs).wf(),
            final(cs).extends(*old(cs)),
            final(cs).sat() == old(cs).sat(),
            final(cs).n_vars <= old(cs).n_vars + 1,
            z.wf(*final(cs)),
            old(cs).tracking() ==> z.bval() == !self.bval(),
    {
        let one = Num::one();
        let onec = CNum::from_const(cs, &one);
        let inner = onec.sub(&self.0, cs);
        proof {
            if old(cs).tracking() {
                lemma_bit_not(self.0.val());
            }
        }
        CBool(inner)
    }

    /// Logical conjunction: `self * other`.
    pub fn and(&self, other: &CBool, cs: &mut CS) -> (z: CBool)
        requires
            old(cs).wf(),
            self.wf(*old(cs)),
            other.wf(*old(cs)),
            old(cs).n_vars < usize::MAX,
        ensures
            final(cs).wf(),
            final(cs).extends(*old(cs)),
            final(cs).sat() == old(cs).sat(),
            final(cs).n_vars <= old(cs).n_vars + 1,
            z.wf(*final(cs)),
            old(cs).tracking() ==> z.bval() == (self.bval() && other.bval()),
    {
        let inner = self.0.mul(&other.0, cs);
        proof {
            if old(cs).tracking() {
                lemma_bit_mul(self.0.val(), other.0.val());
            }
        }
        CBool(inner)
    }

    /// Logical disjunction: `self + other - self * other`.
    pub fn or(&self, other: &CBool, cs: &mut CS) -> (z: CBool)
        requires
            old(cs).wf(),
            self.wf(*old(cs)),
            other.wf(*old(cs)),
            old(cs).n_vars + 3 <= usize::MAX,
        ensures
            final(cs).wf(),
            final(cs).extends(*old(cs)),
            final(cs).sat() == old(cs).sat(),
            final(cs).n_vars <= old(cs).n_vars + 3,
            z.wf(*final(cs)),
            old(cs).tracking() ==> z.bval() == (self.bval() || other.bval()),
    {
        let s = self.0.add(&other.0, cs);
        let ghost c1 = *cs;
        proof {
            lemma_wf_extend(self.0, *old(cs), c1);
            lemma_wf_extend(other.0, *old(cs), c1);
        }
        let m = self.0.mul(&other.0, cs);
        let ghost c2 = *cs;
        proof {
            lemma_wf_extend(s, c1, c2);
        }
        let inner = s.sub(&m, cs);
        proof {
            crate::cs::lemma_extends_trans(c2, c1, *old(cs));
            crate::cs::lemma_extends_trans(*cs, c2, *old(cs));
            if old(cs).tracking() {
                lemma_bit_or(self.0.val(), other.0.val());
            }
        }
        CBool(inner)
    }

    /// Exclusive disjunction: `self + other - 2 * self * other`.
    pub fn xor(&self, other: &CBool, cs: &mut CS) -> (z: CBool)
        requires
            old(cs).wf(),
            self.wf(*old(cs)),
            other.wf(*old(cs)),
            old(cs).n_vars + 3 <= usize::MAX,
        ensures
            final(cs).wf(),
            final(cs).extends(*old(cs)),
            final(cs).sat() == old(cs).sat(),
            final(cs).n_vars <= old(cs).n_vars + 3,
            z.wf(*final(cs)),
            old(cs).tracking() ==> z.bval() == (self.bval() != other.bval()),
    {
        let s = self.0.add(&other.0, cs);
        let ghost c1 = *cs;
        proof {
            lemma_wf_extend(self.0, *old(cs), c1);
            lemma_wf_extend(other.0, *old(cs), c1);
        }
        let m = self.0.mul(&other.0, cs);
        let ghost c2 = *cs;
        proof {
            lemma_wf_extend(s, c1, c2);
        }
        let two = Num::from_u64(2);
        let m2 = m.mul_const(&two, cs);
        let inner = s.sub(&m2, cs);
        proof {
            crate::cs::lemma_extends_trans(c2, c1, *old(cs));
            crate::cs::lemma_extends_trans(*cs, c2, *old(cs));
            if old(cs).tracking() {
                lemma_bit_xor(self.0.val(), other.0.val());
            }
        }
        CBool(inner)
    }

    /// Equality of bits as a bit.
    pub fn is_eq(&self, other: &CBool, cs: &mut CS) -> (z: CBool)
        requires
            old(cs).wf(),
            self.wf(*old(cs)),
            other.wf(*old(cs)),
            old(cs).n_vars + 4 <= usize::MAX,
        ensures
            final(cs).wf(),
            final(cs).extends(*old(cs)),
            final(cs).sat() == old(cs).sat(),
            final(cs).n_vars <= old(cs).n_vars + 4,
            z.wf(*final(cs)),
            old(cs).tracking() ==> z.bval() == (self.bval() == other.bval()),
    {
        self.0.is_eq(&other.0, cs)
    }

    /// Ternary selection between bits.
    pub fn switch(&self, bit: &CBool, if_else: &CBool, cs: &mut CS) -> (z: CBool)
        requires
            old(cs).wf(),
            self.wf(*old(cs)),
            bit.wf(*old(cs)),
            if_else.wf(*old(cs)),
            old(cs).n_vars + 3 <= usize::MAX,
        ensures
            final(cs).wf(),
            final(cs).extends(*old(cs)),
            final(cs).sat() == old(cs).sat(),
            final(cs).n_vars <= old(cs).n_vars + 3,
            z.wf(*final(cs)),
            old(cs).tracking() ==> z.bval() == (if bit.bval() {
                self.bval()
            } else {
                if_else.bval()
            }),
    {
        let inner = self.0.switch(bit, &if_else.0, cs);
        CBool(inner)
    }

    /// Selection of a field signal by this bit.
    pub fn if_else(&self, if_true: &CNum, if_false: &CNum, cs: &mut CS) -> (z: CNum)
        requires
            old(cs).wf(),
            self.wf(*old(cs)),
            if_true.wf(*old(cs)),
            if_false.wf(*old(cs)),
            old(cs).n_vars + 3 <= usize::MAX,
        ensures
            final(cs).wf(),
            final(cs).extends(*old(cs)),
            final(cs).sat() == old(cs).sat(),
            final(cs).n_vars <= old(cs).n_vars + 3,
            z.wf(*final(cs)),
            old(cs).tracking() ==> z.val() == (if self.bval() {
                if_true.val()
            } else {
                if_false.val()
            }),
    {
        if_true.switch(self, if_false, cs)
    }

    /// Pins a copy of the bit as a public input.
    pub fn inputize(&self, cs: &mut CS)
        requires
            old(cs).wf(),
            self.wf(*old(cs)),
            old(cs).n_vars < usize::MAX,
        ensures
            final(cs).wf(),
            final(cs).extends(*old(cs)),
            final(cs).sat() == old(cs).sat(),
    {
        self.0.inputize(cs);
    }

    /// Appends the underlying signal to a flat list of scalar signals.
    pub fn linearize_builder(&self, acc: &mut Vec<CNum>)
        ensures
            final(acc)@ == old(acc)@.push(self.0),
    {
        self.0.linearize_builder(acc);
    }
}

/// A well-formed bit stays well-formed when the system only grows.
pub proof fn lemma_bool_wf_extend(b: CBool, c1: CS, c2: CS)
    requires
        b.wf(c1),
        c1.wf(),
        c2.extends(c1),
    ensures
        b.wf(c2),
{
    lemma_wf_extend(b.0, c1, c2);
}

impl CNum {
    /// Wraps the signal as a bit after asserting the bit constraint.  The
    /// result is well-formed whenever the witness value, if any, really is a
    /// bit; otherwise the system has just become unsatisfiable.
    pub fn to_bool(&self, cs: &mut CS) -> (z: CBool)
        requires
            old(cs).wf(),
            self.wf(*old(cs)),
        ensures
            final(cs).wf(),
            final(cs).extends(*old(cs)),
            final(cs).n_vars == old(cs).n_vars,
            final(cs).sat() == (old(cs).sat() && (old(cs).tracking() ==> (self.val() == 0
                || self.val() == 1))),
            (self.has_value() ==> (self.val() == 0 || self.val() == 1)) ==> z.wf(*final(cs)),
            z.0 == *self,
    {
        self.assert_bit(cs);
        CBool(*self)
    }

    /// Wraps the signal as a bit without constraining it; the caller
    /// guarantees the bit range.
    pub fn to_bool_unchecked(&self, cs: &CS) -> (z: CBool)
        requires
            cs.wf(),
            self.wf(*cs),
            self.has_value() ==> (self.val() == 0 || self.val() == 1),
        ensures
            z.wf(*cs),
            z.0 == *self,
    {
        CBool(*self)
    }

    /// The underlying signal of a bit.
    pub fn from_bool(b: CBool) -> (z: CNum)
        ensures
            z == b.0,
    {
        b.0
    }

    /// The zero test as a bit: emits `self * w == 1 - z` and `self * z == 0`
    /// for fresh `w`, `z`; the bit `z` is true exactly when the signal is
    /// zero, and the system stays satisfiable.
    pub fn is_zero(&self, cs: &mut CS) -> (z: CBool)
        requires
            old(cs).wf(),
            self.wf(*old(cs)),
            old(cs).n_vars + 3 <= usize::MAX,
        ensures
            final(cs).wf(),
            final(cs).extends(*old(cs)),
            final(cs).sat() == old(cs).sat(),
            final(cs).n_vars <= old(cs).n_vars + 3,
            z.wf(*final(cs)),
            old(cs).tracking() ==> (z.has_value() && z.bval() == (self.val() == 0)),
            self.has_value() ==> z.has_value(),
    {
        let ghost w0 = old(cs).asg();
        let inv_value = match &self.value {
            Some(v) => match v.inverse() {
                Some(x) => Some(x),
                None => Some(Num::one()),
            },
            None => None,
        };
        let bit_value = match &self.value {
            Some(v) => Some(
                if v.is_zero() {
                    Num::one()
                } else {
                    Num::zero()
                },
            ),
            None => None,
        };
        let w = CNum::allocate(
            cs,
            match &inv_value {
                Some(v) => Some(v),
                None => None,
            },
        );
        let ghost c1 = *cs;
        let zbit = CNum::allocate(
            cs,
            match &bit_value {
                Some(v) => Some(v),
                None => None,
            },
        );
        let ghost c2 = *cs;
        proof {
            crate::cs::lemma_extends_trans(c2, c1, *old(cs));
            lemma_wf_extend(*self, *old(cs), c2);
            lemma_wf_extend(w, c1, c2);
        }
        let one = Num::one();
        let onec = CNum::from_const(cs, &one);
        let one_minus_z = onec.sub(&zbit, cs);
        let ghost c3 = *cs;
        proof {
            crate::cs::lemma_extends_trans(c3, c2, *old(cs));
            lemma_wf_extend(*self, c2, c3);
            lemma_wf_extend(w, c2, c3);
            lemma_wf_extend(zbit, c2, c3);
        }
        cs.enforce_mul(&self.lc, &w.lc, &one_minus_z.lc);
        let ghost c4 = *cs;
        let zero_lc = Lc { a: Num::zero(), v: 0, b: Num::zero() };
        cs.enforce_mul(&self.lc, &zbit.lc, &zero_lc);
        proof {
            crate::cs::lemma_extends_trans(c4, c3, *old(cs));
            crate::cs::lemma_extends_trans(*cs, c4, *old(cs));
            lemma_wf_extend(zbit, c3, *cs);
            if old(cs).tracking() {
                crate::cs::lemma_lc_eval_prefix(self.lc, old(cs).n_vars as nat, w0, c3.asg());
                let sv = self.val();
                crate::num::lemma_const_eval(zero_lc, c3.asg());
                if sv == 0 {
                    lemma_fmul_zero(w.val());
                    lemma_fmul_zero(zbit.val());
                    lemma_fsub_one_one();
                    assert(Gate::Mul(self.lc, w.lc, one_minus_z.lc).holds(c3.asg()));
                    assert(Gate::Mul(self.lc, zbit.lc, zero_lc).holds(c3.asg()));
                } else {
                    assert(fmul(sv, w.val()) == 1);
                    lemma_fsub_zero_small();
                    assert(one_minus_z.val() == fsub(1, 0));
                    assert(Gate::Mul(self.lc, w.lc, one_minus_z.lc).holds(c3.asg()));
                    lemma_fmul_zero(sv);
                    assert(Gate::Mul(self.lc, zbit.lc, zero_lc).holds(c3.asg()));
                }
            }
        }
        CBool(zbit)
    }

    /// Equality of two signals as a bit.
    pub fn is_eq(&self, other: &CNum, cs: &mut CS) -> (z: CBool)
        requires
            old(cs).wf(),
            self.wf(*old(cs)),
            other.wf(*old(cs)),
            old(cs).n_vars + 4 <= usize::MAX,
        ensures
            final(cs).wf(),
            final(cs).extends(*old(cs)),
            final(cs).sat() == old(cs).sat(),
            final(cs).n_vars <= old(cs).n_vars + 4,
            z.wf(*final(cs)),
            old(cs).tracking() ==> z.bval() == (self.val() == other.val()),
    {
        let d = self.sub(other, cs);
        let ghost c1 = *cs;
        let z = d.is_zero(cs);
        proof {
            crate::cs::lemma_extends_trans(*cs, c1, *old(cs));
            if old(cs).tracking() {
                lemma_fsub_is_zero(self.val(), other.val());
            }
        }
        z
    }

    /// Ternary selection: `bit ? self : if_else`, as
    /// `if_else + bit * (self - if_else)`.
    #[verifier::rlimit(60)]
    pub fn switch(&self, bit: &CBool, if_else: &CNum, cs: &mut CS) -> (z: CNum)
        requires
            old(cs).wf(),
            self.wf(*old(cs)),
            bit.wf(*old(cs)),
            if_else.wf(*old(cs)),
            old(cs).n_vars + 3 <= usize::MAX,
        ensures
            final(cs).wf(),
            final(cs).extends(*old(cs)),
            final(cs).sat() == old(cs).sat(),
            final(cs).n_vars <= old(cs).n_vars + 3,
            z.wf(*final(cs)),
            old(cs).tracking() ==> z.val() == (if bit.bval() {
                self.val()
            } else {
                if_else.val()
            }),
            self.has_value() && bit.has_value() && if_else.has_value() ==> z.has_value(),
    {
        let d = self.sub(if_else, cs);
        let ghost c1 = *cs;
        proof {
            lemma_wf_extend(bit.0, *old(cs), c1);
            lemma_wf_extend(*if_else, *old(cs), c1);
        }
        let m = d.mul(&bit.0, cs);
        let ghost c2 = *cs;
        proof {
            crate::cs::lemma_extends_trans(c2, c1, *old(cs));
            lemma_wf_extend(*if_else, c1, c2);
        }
        let z = if_else.add(&m, cs);
        proof {
            crate::cs::lemma_extends_trans(*cs, c2, *old(cs));
            if old(cs).tracking() {
                let sv = self.val();
                let ev = if_else.val();
                if bit.bval() {
                    lemma_f_bounds(sv, ev);
                    lemma_fmul_unit(fsub(sv, ev));
                    lemma_fadd_fsub(sv, ev);
                } else {
                    lemma_fmul_zero(fsub(sv, ev));
                    lemma_fadd_zero(ev);
                }
            }
        }
        z
    }
}

/// Bit arithmetic: complement.
proof fn lemma_bit_not(a: nat)
    requires
        a == 0 || a == 1,
    ensures
        fsub(1, a) == (if a == 0 {
            1nat
        } else {
            0nat
        }),
{
    if a == 0 {
        lemma_fsub_zero_small();
    } else {
        lemma_fsub_one_one();
    }
}

/// Bit arithmetic: conjunction.
proof fn lemma_bit_mul(a: nat, b: nat)
    requires
        a == 0 || a == 1,
        b == 0 || b == 1,
    ensures
        fmul(a, b) == (if a == 1 && b == 1 {
            1nat
        } else {
            0nat
        }),
{
    lemma_fmul_zero(a);
    lemma_fmul_zero(b);
    crate::field::lemma_fm_small(1);
}

/// Bit arithmetic: disjunction.
proof fn lemma_bit_or(a: nat, b: nat)
    requires
        a == 0 || a == 1,
        b == 0 || b == 1,
    ensures
        fsub(fadd(a, b), fmul(a, b)) == (if a == 1 || b == 1 {
            1nat
        } else {
            0nat
        }),
{
    lemma_bit_mul(a, b);
    crate::field::lemma_fm_small(0);
    crate::field::lemma_fm_small(1);
    crate::field::lemma_fm_small(2);
    lemma_fadd_fsub(1, 1);
    if a == 0 && b == 0 {
        lemma_fsub_zero_of(0);
    } else if a == 1 && b == 1 {
    } else {
        lemma_fsub_zero_of(1);
    }
}

/// Bit arithmetic: exclusive disjunction.
proof fn lemma_bit_xor(a: nat, b: nat)
    requires
        a == 0 || a == 1,
        b == 0 || b == 1,
    ensures
        fsub(fadd(a, b), fmul(fmul(a, b), 2)) == (if (a == 1) != (b == 1) {
            1nat
        } else {
            0nat
        }),
{
    lemma_bit_mul(a, b);
    crate::field::lemma_fm_small(0);
    crate::field::lemma_fm_small(1);
    crate::field::lemma_fm_small(2);
    lemma_fmul_zero(2);
    if a == 1 && b == 1 {
        crate::field::lemma_fadd_fsub(0, 2);
        assert(fmul(1, 2) == 2) by {
            crate::field::lemma_fmul_unit(2);
        }
        assert(fsub(2, 2) == 0) by {
            lemma_fadd_fsub(2, 2);
        }
    } else if a == 0 && b == 0 {
        lemma_fsub_zero_of(0);
    } else {
        lemma_fsub_zero_of(1);
    }
}

/// Subtracting zero changes nothing (for small values).
proof fn lemma_fsub_zero_of(a: nat)
    requires
        a < p(),
    ensures
        fsub(a, 0) == a,
{
    crate::field::lemma_fm_small(a);
}

/// `1 - 0 == 1` in the field.
proof fn lemma_fsub_zero_small()
    ensures
        fsub(1, 0) == 1,
{
    crate::field::lemma_fm_small(1);
}

/// `1 - 1 == 0` in the field.
proof fn lemma_fsub_one_one()
    ensures
        fsub(1, 1) == 0,
{
    crate::field::lemma_fm_small(0);
}

} // verus!
