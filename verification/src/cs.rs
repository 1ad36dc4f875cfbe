//! The constraint system: a record of field variables and rank-1 constraints.
//!
//! Variable `0` always stands for the constant `1`.  The system either
//! tracks a full witness (one field value per variable) or records
//! constraints only.  `sat()` says that the tracked witness satisfies every
//! recorded constraint; when no witness is tracked it is vacuously true.

use vstd::prelude::*;
use crate::field::{fadd, fmul, p, Num};

verus! {

/// An affine linear combination `a * var(v) + b`.
#[derive(Clone, Copy, Debug)]
pub struct Lc {
    pub a: Num,
    pub v: usize,
    pub b: Num,
}

impl Lc {
    /// Coefficients are canonical residues and the variable is allocated.
    pub open spec fn wf(self, n_vars: nat) -> bool {
        self.a.wf() && self.b.wf() && (self.v as nat) < n_vars
    }

    /// The value of the combination under an assignment.
    pub open spec fn eval(self, w: Seq<nat>) -> nat {
        fadd(fmul(self.a.as_nat(), w[self.v as int]), self.b.as_nat())
    }

    /// Whether the combination is a constant.
    pub open spec fn is_const(self) -> bool {
        self.a.as_nat() == 0
    }
}

/// One recorded constraint.
#[derive(Clone, Copy, Debug)]
pub enum Gate {
    /// `eval(0) + eval(1) - eval(2) == 0`
    Add(Lc, Lc, Lc),
    /// `eval(0) * eval(1) - eval(2) == 0`
    Mul(Lc, Lc, Lc),
    /// The combination is pinned as a public input.
    Input(Lc),
}

impl Gate {
    /// All mentioned variables are allocated.
    pub open spec fn wf(self, n_vars: nat) -> bool {
        match self {
            Gate::Add(x, y, z) => x.wf(n_vars) && y.wf(n_vars) && z.wf(n_vars),
            Gate::Mul(x, y, z) => x.wf(n_vars) && y.wf(n_vars) && z.wf(n_vars),
            Gate::Input(x) => x.wf(n_vars),
        }
    }

    /// Whether the constraint holds under an assignment.
    pub open spec fn holds(self, w: Seq<nat>) -> bool {
        match self {
            Gate::Add(x, y, z) => fadd(x.eval(w), y.eval(w)) == z.eval(w),
            Gate::Mul(x, y, z) => fmul(x.eval(w), y.eval(w)) == z.eval(w),
            Gate::Input(_) => true,
        }
    }
}

/// The constraint system.
pub struct CS {
    /// Number of allocated variables, variable `0` included.
    pub n_vars: usize,
    /// The tracked witness, one value per variable, when there is one.
    pub witness: Option<Vec<Num>>,
    /// The recorded constraints, in emission order.
    pub gates: Vec<Gate>,
}

impl CS {
    /// Whether a witness is tracked.
    pub open spec fn tracking(self) -> bool {
        self.witness is Some
    }

    /// The tracked assignment as residues.
    pub open spec fn asg(self) -> Seq<nat> {
        match self.witness {
            Some(wv) => wv@.map_values(|n: Num| n.as_nat()),
            None => Seq::empty(),
        }
    }

    /// Structural well-formedness.
    pub open spec fn wf(self) -> bool {
        &&& self.n_vars >= 1
        &&& (self.witness matches Some(wv) ==> wv.len() == self.n_vars && wv[0].as_nat() == 1
            && (forall|i: int| 0 <= i < wv.len() ==> (#[trigger] wv[i]).wf()))
        &&& (forall|i: int|
            0 <= i < self.gates.len() ==> (#[trigger] self.gates[i]).wf(self.n_vars as nat))
    }

    /// The tracked witness satisfies every recorded constraint.
    pub open spec fn sat(self) -> bool {
        self.tracking() ==> (forall|i: int|
            0 <= i < self.gates.len() ==> (#[trigger] self.gates[i]).holds(self.asg()))
    }

    /// The system grew out of `prev`: same mode, variables and constraints
    /// only appended, the old witness values untouched.
    pub open spec fn extends(self, prev: CS) -> bool {
        &&& self.n_vars >= prev.n_vars
        &&& self.tracking() == prev.tracking()
        &&& prev.gates@.is_prefix_of(self.gates@)
        &&& (prev.tracking() ==> prev.asg().is_prefix_of(self.asg()))
    }

    /// A fresh system with one variable standing for the constant `1`.
    pub fn new(with_witness: bool) -> (r: CS)
        ensures
            r.wf(),
            r.sat(),
            r.tracking() == with_witness,
            r.n_vars == 1,
            r.gates.len() == 0,
    {
        let witness = if with_witness {
            let mut wv: Vec<Num> = Vec::new();
            wv.push(Num::one());
            Some(wv)
        } else {
            None
        };
        CS { n_vars: 1, witness, gates: Vec::new() }
    }

    /// Allocates a fresh variable, recording its witness value when the
    /// system tracks one.
    pub fn alloc_var(&mut self, value: Option<&Num>) -> (v: usize)
        requires
            old(self).wf(),
            old(self).n_vars < usize::MAX,
            old(self).tracking() ==> value is Some,
            value matches Some(x) ==> x.wf(),
        ensures
            final(self).wf(),
            final(self).extends(*old(self)),
            final(self).sat() == old(self).sat(),
            v == old(self).n_vars,
            final(self).n_vars == old(self).n_vars + 1,
            final(self).gates@ == old(self).gates@,
            old(self).tracking() ==> (value matches Some(x) && final(self).asg() == old(
                self,
            ).asg().push(x.as_nat())),
    {
        let v = self.n_vars;
        self.n_vars = self.n_vars + 1;
        match (&mut self.witness, value) {
            (Some(wv), Some(x)) => {
                wv.push(*x);
            },
            _ => {},
        }
        proof {
            if old(self).tracking() {
                let x = value.unwrap();
                assert(self.asg() =~= old(self).asg().push(x.as_nat()));
            }
            assert forall|i: int| 0 <= i < self.gates.len() implies (#[trigger] self.gates[i]).wf(
                self.n_vars as nat,
            ) by {
                assert(self.gates[i].wf(old(self).n_vars as nat));
                lemma_gate_wf_mono(self.gates[i], old(self).n_vars as nat, self.n_vars as nat);
            }
            if old(self).tracking() {
                lemma_sat_prefix_asg(*old(self), *self);
            }
        }
        v
    }

    /// Records the constraint `eval(x) + eval(y) == eval(z)`.
    pub fn enforce_add(&mut self, x: &Lc, y: &Lc, z: &Lc)
        requires
            old(self).wf(),
            x.wf(old(self).n_vars as nat),
            y.wf(old(self).n_vars as nat),
            z.wf(old(self).n_vars as nat),
        ensures
            final(self).wf(),
            final(self).extends(*old(self)),
            final(self).n_vars == old(self).n_vars,
            final(self).asg() == old(self).asg(),
            final(self).gates@ == old(self).gates@.push(Gate::Add(*x, *y, *z)),
            final(self).sat() == (old(self).sat() && (old(self).tracking() ==> Gate::Add(
                *x,
                *y,
                *z,
            ).holds(old(self).asg()))),
    {
        self.push_gate(Gate::Add(*x, *y, *z));
    }

    /// Records the constraint `eval(x) * eval(y) == eval(z)`.
    pub fn enforce_mul(&mut self, x: &Lc, y: &Lc, z: &Lc)
        requires
            old(self).wf(),
            x.wf(old(self).n_vars as nat),
            y.wf(old(self).n_vars as nat),
            z.wf(old(self).n_vars as nat),
        ensures
            final(self).wf(),
            final(self).extends(*old(self)),
            final(self).n_vars == old(self).n_vars,
            final(self).asg() == old(self).asg(),
            final(self).gates@ == old(self).gates@.push(Gate::Mul(*x, *y, *z)),
            final(self).sat() == (old(self).sat() && (old(self).tracking() ==> Gate::Mul(
                *x,
                *y,
                *z,
            ).holds(old(self).asg()))),
    {
        self.push_gate(Gate::Mul(*x, *y, *z));
    }

    /// Declares the combination a public input.
    pub fn enforce_pub(&mut self, x: &Lc)
        requires
            old(self).wf(),
            x.wf(old(self).n_vars as nat),
        ensures
            final(self).wf(),
            final(self).extends(*old(self)),
            final(self).n_vars == old(self).n_vars,
            final(self).asg() == old(self).asg(),
            final(self).gates@ == old(self).gates@.push(Gate::Input(*x)),
            final(self).sat() == old(self).sat(),
    {
        self.push_gate(Gate::Input(*x));
    }

    /// Appends one constraint.
    fn push_gate(&mut self, g: Gate)
        requires
            old(self).wf(),
            g.wf(old(self).n_vars as nat),
        ensures
            final(self).wf(),
            final(self).extends(*old(self)),
            final(self).n_vars == old(self).n_vars,
            final(self).asg() == old(self).asg(),
            final(self).gates@ == old(self).gates@.push(g),
            final(self).sat() == (old(self).sat() && (old(self).tracking() ==> g.holds(
                old(self).asg(),
            ))),
    {
        self.gates.push(g);
        proof {
            assert(old(self).gates@.is_prefix_of(self.gates@));
            if self.tracking() {
                if self.sat() {
                    assert forall|i: int| 0 <= i < old(self).gates.len() implies (
                    #[trigger] old(self).gates[i]).holds(old(self).asg()) by {
                        assert(self.gates[i].holds(self.asg()));
                    }
                    assert(self.gates[self.gates.len() - 1].holds(self.asg()));
                }
                if old(self).sat() && g.holds(old(self).asg()) {
                    assert forall|i: int| 0 <= i < self.gates.len() implies (
                    #[trigger] self.gates[i]).holds(self.asg()) by {
                        if i < old(self).gates.len() {
                            assert(old(self).gates[i].holds(old(self).asg()));
                        }
                    }
                }
            }
        }
    }

    /// Evaluates one combination under the tracked witness.
    fn eval_lc(&self, x: &Lc) -> (r: Num)
        requires
            self.wf(),
            self.tracking(),
            x.wf(self.n_vars as nat),
        ensures
            r.as_nat() == x.eval(self.asg()),
            r.wf(),
    {
        match &self.witness {
            Some(wv) => {
                let w = wv[x.v];
                x.a.mul(&w).add(&x.b)
            },
            None => Num::zero(),
        }
    }

    /// Whether the tracked witness satisfies every recorded constraint;
    /// vacuously true without a witness.
    pub fn is_satisfied(&self) -> (r: bool)
        requires
            self.wf(),
        ensures
            r == self.sat(),
    {
        match &self.witness {
            Some(_) => {
                let mut i: usize = 0;
                while i < self.gates.len()
                    invariant
                        0 <= i <= self.gates.len(),
                        self.wf(),
                        self.tracking(),
                        forall|j: int| 0 <= j < i ==> (#[trigger] self.gates[j]).holds(self.asg()),
                    decreases self.gates.len() - i,
                {
                    let ok = match &self.gates[i] {
                        Gate::Add(x, y, z) => {
                            let xv = self.eval_lc(x);
                            let yv = self.eval_lc(y);
                            let zv = self.eval_lc(z);
                            xv.add(&yv).equals(&zv)
                        },
                        Gate::Mul(x, y, z) => {
                            let xv = self.eval_lc(x);
                            let yv = self.eval_lc(y);
                            let zv = self.eval_lc(z);
                            xv.mul(&yv).equals(&zv)
                        },
                        Gate::Input(_) => true,
                    };
                    if !ok {
                        proof {
                            assert(!self.gates[i as int].holds(self.asg()));
                        }
                        return false;
                    }
                    i = i + 1;
                }
                true
            },
            None => true,
        }
    }

    /// Number of variables, as the outside world reads it.
    pub fn num_variables(&self) -> (r: usize)
        ensures
            r == self.n_vars,
    {
        self.n_vars
    }

    /// Number of recorded constraints.
    pub fn num_gates(&self) -> (r: usize)
        ensures
            r == self.gates.len(),
    {
        self.gates.len()
    }
}

/// Growing is transitive.
pub broadcast proof fn lemma_extends_trans(c3: CS, c2: CS, c1: CS)
    requires
        #[trigger] c3.extends(c2),
        #[trigger] c2.extends(c1),
    ensures
        c3.extends(c1),
{
    lemma_prefix_trans(c1.gates@, c2.gates@, c3.gates@);
    if c1.tracking() {
        lemma_prefix_trans(c1.asg(), c2.asg(), c3.asg());
    }
}

/// Prefixes compose.
proof fn lemma_prefix_trans<A>(s1: Seq<A>, s2: Seq<A>, s3: Seq<A>)
    requires
        s1.is_prefix_of(s2),
        s2.is_prefix_of(s3),
    ensures
        s1.is_prefix_of(s3),
{
    assert(s1 =~= s3.subrange(0, s1.len() as int));
}

/// A combination well-formed for fewer variables stays well-formed when more
/// are allocated.
pub proof fn lemma_gate_wf_mono(g: Gate, n1: nat, n2: nat)
    requires
        g.wf(n1),
        n1 <= n2,
    ensures
        g.wf(n2),
{
}

/// Whether the old constraints hold does not change when the assignment is
/// only appended to: every mentioned variable keeps its value.
proof fn lemma_sat_prefix_asg(c1: CS, c2: CS)
    requires
        c1.wf(),
        c2.gates@ == c1.gates@,
        c1.tracking(),
        c2.tracking(),
        c1.asg().is_prefix_of(c2.asg()),
        c1.asg().len() >= c1.n_vars,
    ensures
        c1.sat() == c2.sat(),
{
    assert forall|i: int| 0 <= i < c1.gates.len() implies (#[trigger] c1.gates[i]).holds(c1.asg())
        == c1.gates[i].holds(c2.asg()) by {
        lemma_gate_holds_prefix(c1.gates[i], c1.n_vars as nat, c1.asg(), c2.asg());
    }
}

/// A constraint over allocated variables evaluates the same under any
/// extension of the assignment.
pub proof fn lemma_gate_holds_prefix(g: Gate, n_vars: nat, w1: Seq<nat>, w2: Seq<nat>)
    requires
        g.wf(n_vars),
        w1.len() >= n_vars,
        w1.is_prefix_of(w2),
    ensures
        g.holds(w1) == g.holds(w2),
{
    match g {
        Gate::Add(x, y, z) => {
            lemma_lc_eval_prefix(x, n_vars, w1, w2);
            lemma_lc_eval_prefix(y, n_vars, w1, w2);
            lemma_lc_eval_prefix(z, n_vars, w1, w2);
        },
        Gate::Mul(x, y, z) => {
            lemma_lc_eval_prefix(x, n_vars, w1, w2);
            lemma_lc_eval_prefix(y, n_vars, w1, w2);
            lemma_lc_eval_prefix(z, n_vars, w1, w2);
        },
        Gate::Input(_) => {},
    }
}

/// The value of a combination is a canonical residue.
pub proof fn lemma_eval_bound(x: Lc, w: Seq<nat>)
    ensures
        x.eval(w) < p(),
{
    crate::field::lemma_f_bounds(fmul(x.a.as_nat(), w[x.v as int]), x.b.as_nat());
}

/// A combination over allocated variables evaluates the same under any
/// extension of the assignment.
pub proof fn lemma_lc_eval_prefix(x: Lc, n_vars: nat, w1: Seq<nat>, w2: Seq<nat>)
    requires
        x.wf(n_vars),
        w1.len() >= n_vars,
        w1.is_prefix_of(w2),
    ensures
        x.eval(w1) == x.eval(w2),
{
    assert(w1[x.v as int] == w2[x.v as int]);
}

} // verus!
