//! Native (out-of-circuit) twisted-Edwards and Montgomery curve arithmetic.
//!
//! The point operations are total: divisions use the total field division,
//! so a vanishing denominator yields the formula's value with `finv(0) == 0`
//! rather than a failure.  Every operation's result is pinned to the
//! corresponding specification-level formula over residues.

use vstd::prelude::*;
use crate::field::{
    bits_val, fadd, fdiv, finv, fmul, fneg, fsub, lemma_f_bounds, lemma_finv_of,
    lemma_finv_one, lemma_fmul_unit, lemma_fmul_zero, p, Num,
};

verus! {

/// A point as a pair of residues, for specification purposes.
pub struct Pt {
    pub x: nat,
    pub y: nat,
}

/// The Edwards identity `(0, 1)`.
pub open spec fn e_id() -> Pt {
    Pt { x: 0, y: 1 }
}

/// Membership in the twisted Edwards curve
/// `y^2 - x^2 = 1 + d * x^2 * y^2`, phrased as the circuit states it:
/// `x^2 * d * y^2 == y^2 - x^2 - 1`.
pub open spec fn on_curve(pt: Pt, d: nat) -> bool {
    fmul(fmul(fmul(pt.x, pt.x), d), fmul(pt.y, pt.y)) == fsub(
        fsub(fmul(pt.y, pt.y), fmul(pt.x, pt.x)),
        1,
    )
}

/// Edwards addition.
#[verifier::opaque]
pub open spec fn e_add(pt1: Pt, pt2: Pt, d: nat) -> Pt {
    let v1 = fmul(pt1.x, pt2.y);
    let v2 = fmul(pt2.x, pt1.y);
    let v12 = fmul(v1, v2);
    let u = fmul(fadd(pt1.x, pt1.y), fadd(pt2.x, pt2.y));
    Pt {
        x: fdiv(fadd(v1, v2), fadd(1, fmul(v12, d))),
        y: fdiv(fsub(fsub(u, v1), v2), fsub(1, fmul(v12, d))),
    }
}

/// Edwards doubling: addition of a point to itself, specialized.
#[verifier::opaque]
pub open spec fn e_double(pt: Pt, d: nat) -> Pt {
    let v = fmul(pt.x, pt.y);
    let v2 = fmul(v, v);
    let u = fmul(fadd(pt.x, pt.y), fadd(pt.x, pt.y));
    Pt {
        x: fdiv(fmul(v, 2), fadd(1, fmul(v2, d))),
        y: fdiv(fsub(u, fmul(v, 2)), fsub(1, fmul(v2, d))),
    }
}

/// Eight times a point, by the doubling chain the cofactor calls for.
pub open spec fn e_mul8(pt: Pt, d: nat) -> Pt {
    e_double(e_double(e_double(pt, d), d), d)
}

/// Membership in `8 * E`: the prime-order subgroup, witnessed by a curve
/// point whose eighth multiple is the given point.
pub open spec fn in_subgroup(pt: Pt, d: nat) -> bool {
    exists|q: Pt| q.x < p() && q.y < p() && #[trigger] on_curve(q, d) && e_mul8(q, d) == pt
}

/// Double-and-add scalar multiplication, accumulator form, least
/// significant bit first.
pub open spec fn e_mul_acc(k: nat, pt: Pt, acc: Pt, d: nat) -> Pt
    decreases k,
{
    if k == 0 {
        acc
    } else {
        e_mul_acc(
            k / 2,
            e_double(pt, d),
            if k % 2 == 1 {
                e_add(acc, pt, d)
            } else {
                acc
            },
            d,
        )
    }
}

/// Scalar multiplication from the identity.
pub open spec fn e_mul(k: nat, pt: Pt, d: nat) -> Pt {
    e_mul_acc(k, pt, e_id(), d)
}

/// The Edwards-to-Montgomery map `(x, y) -> ((1+y)/(1-y), m_x/x)`.
#[verifier::opaque]
pub open spec fn e_to_m(pt: Pt) -> Pt {
    let mx = fdiv(fadd(1, pt.y), fsub(1, pt.y));
    Pt { x: mx, y: fdiv(mx, pt.x) }
}

/// The Montgomery-to-Edwards map `(x, y) -> (x/y, (x-1)/(x+1))`, with the
/// divisor nudged by one at `y == 0` so the sentinel `(0, 0)` maps to the
/// Edwards point `(0, -1)`.
#[verifier::opaque]
pub open spec fn m_to_e(pt: Pt) -> Pt {
    let t: nat = if pt.y == 0 {
        1
    } else {
        0
    };
    Pt { x: fdiv(pt.x, fadd(pt.y, t)), y: fdiv(fsub(pt.x, 1), fadd(pt.x, 1)) }
}

/// Montgomery doubling.
#[verifier::opaque]
pub open spec fn m_double(pt: Pt, a: nat, b: nat) -> Pt {
    let x2 = fmul(pt.x, pt.x);
    let l = fdiv(
        fadd(fadd(fmul(x2, 3), fmul(pt.x, fmul(2, a))), 1),
        fmul(pt.y, fmul(2, b)),
    );
    let bl2 = fmul(fmul(l, l), b);
    Pt {
        x: fsub(fsub(bl2, a), fmul(pt.x, 2)),
        y: fsub(fmul(l, fsub(fadd(fmul(pt.x, 3), a), bl2)), pt.y),
    }
}

/// Montgomery addition of distinct points.
#[verifier::opaque]
pub open spec fn m_add(pt1: Pt, pt2: Pt, a: nat, b: nat) -> Pt {
    let l = fdiv(fsub(pt2.y, pt1.y), fsub(pt2.x, pt1.x));
    let bl2 = fmul(fmul(l, l), b);
    Pt {
        x: fsub(fsub(fsub(bl2, a), pt1.x), pt2.x),
        y: fsub(fmul(l, fsub(fadd(fadd(fmul(pt1.x, 2), pt2.x), a), bl2)), pt1.y),
    }
}

/// A native twisted-Edwards point.
#[derive(Clone, Copy, Debug, PartialEq, Eq, Structural)]
pub struct EdwardsPoint {
    pub x: Num,
    pub y: Num,
}

/// A native Montgomery point.
#[derive(Clone, Copy, Debug, PartialEq, Eq, Structural)]
pub struct MontgomeryPoint {
    pub x: Num,
    pub y: Num,
}

impl EdwardsPoint {
    /// The coordinates as residues.
    pub open spec fn ptv(self) -> Pt {
        Pt { x: self.x.as_nat(), y: self.y.as_nat() }
    }

    /// Both coordinates are canonical residues.
    pub open spec fn wf(self) -> bool {
        self.x.wf() && self.y.wf()
    }

    /// The identity `(0, 1)`.
    pub fn zero() -> (r: EdwardsPoint)
        ensures
            r.wf(),
            r.ptv() == e_id(),
    {
        let r = EdwardsPoint { x: Num::zero(), y: Num::one() };
        proof {
            assert(r.ptv() == e_id());
        }
        r
    }

    /// Whether the point is the identity.
    pub fn is_zero(&self) -> (r: bool)
        ensures
            r == (self.ptv() == e_id()),
    {
        let r = self.x.is_zero() && {
            let one = Num::one();
            self.y.equals(&one)
        };
        proof {
            if self.ptv() == e_id() {
            }
        }
        r
    }

    /// Whether the point satisfies the curve equation.
    pub fn is_on_curve(&self, d: &Num) -> (r: bool)
        requires
            self.wf(),
            d.wf(),
        ensures
            r == on_curve(self.ptv(), d.as_nat()),
    {
        let x2 = self.x.square();
        let y2 = self.y.square();
        let lhs = x2.mul(d).mul(&y2);
        let one = Num::one();
        let rhs = y2.sub(&x2).sub(&one);
        lhs.equals(&rhs)
    }

    /// Edwards addition, by the formulas with total division.
    pub fn add(&self, other: &EdwardsPoint, d: &Num) -> (r: EdwardsPoint)
        requires
            self.wf(),
            other.wf(),
            d.wf(),
        ensures
            r.wf(),
            r.ptv() == e_add(self.ptv(), other.ptv(), d.as_nat()),
    {
        let v1 = self.x.mul(&other.y);
        let v2 = other.x.mul(&self.y);
        let v12 = v1.mul(&v2);
        let s1 = self.x.add(&self.y);
        let s2 = other.x.add(&other.y);
        let u = s1.mul(&s2);
        let dv12 = v12.mul(d);
        let one = Num::one();
        let den_x = one.add(&dv12);
        let den_y = one.sub(&dv12);
        let num_x = v1.add(&v2);
        let num_y = u.sub(&v1).sub(&v2);
        let rx = Num::div_total(&num_x, &den_x);
        let ry = Num::div_total(&num_y, &den_y);
        proof {
            reveal(e_add);
        }
        EdwardsPoint { x: rx, y: ry }
    }

    /// Edwards doubling.
    pub fn double(&self, d: &Num) -> (r: EdwardsPoint)
        requires
            self.wf(),
            d.wf(),
        ensures
            r.wf(),
            r.ptv() == e_double(self.ptv(), d.as_nat()),
    {
        let v = self.x.mul(&self.y);
        let v2 = v.square();
        let s = self.x.add(&self.y);
        let u = s.square();
        let two = Num::from_u64(2);
        let v_2 = v.mul(&two);
        let dv2 = v2.mul(d);
        let one = Num::one();
        let den_x = one.add(&dv2);
        let den_y = one.sub(&dv2);
        let num_y = u.sub(&v_2);
        let rx = Num::div_total(&v_2, &den_x);
        let ry = Num::div_total(&num_y, &den_y);
        proof {
            reveal(e_double);
        }
        EdwardsPoint { x: rx, y: ry }
    }
}

impl EdwardsPoint {
    /// Eight times the point: the three doublings of the cofactor.
    pub fn mul_by_cofactor(&self, d: &Num) -> (r: EdwardsPoint)
        requires
            self.wf(),
            d.wf(),
        ensures
            r.wf(),
            r.ptv() == e_mul8(self.ptv(), d.as_nat()),
    {
        self.double(d).double(d).double(d)
    }

    /// Double-and-add scalar multiplication over a little-endian bit string.
    pub fn mul_by_bits(&self, bits: &Vec<bool>, d: &Num) -> (r: EdwardsPoint)
        requires
            self.wf(),
            d.wf(),
        ensures
            r.wf(),
            r.ptv() == e_mul(bits_val(bits@), self.ptv(), d.as_nat()),
    {
        let mut acc = EdwardsPoint::zero();
        let mut base = *self;
        let mut i: usize = 0;
        proof {
            assert(bits@.skip(0) =~= bits@);
        }
        while i < bits.len()
            invariant
                0 <= i <= bits.len(),
                acc.wf(),
                base.wf(),
                d.wf(),
                e_mul_acc(bits_val(bits@.skip(i as int)), base.ptv(), acc.ptv(), d.as_nat())
                    == e_mul_acc(bits_val(bits@), self.ptv(), e_id(), d.as_nat()),
            decreases bits.len() - i,
        {
            let b = bits[i];
            proof {
                lemma_bits_val_step(bits@, i as int);
            }
            let ghost k = bits_val(bits@.skip(i as int));
            if b {
                acc = acc.add(&base, d);
            }
            base = base.double(d);
            proof {
                if k == 0 {
                    assert(bits_val(bits@.skip(i as int)) == 0);
                    assert(bits_val(bits@.skip(i + 1)) == 0);
                }
            }
            i = i + 1;
        }
        proof {
            assert(bits@.skip(bits.len() as int) =~= Seq::<bool>::empty());
        }
        acc
    }

    /// The Edwards-to-Montgomery conversion, defined away from the identity
    /// column (`y == 1` or `x == 0`).
    pub fn into_montgomery(&self) -> (r: Option<MontgomeryPoint>)
        requires
            self.wf(),
        ensures
            match r {
                Some(m) => m.wf() && m.ptv() == e_to_m(self.ptv()) && self.ptv().y != 1
                    && self.ptv().x != 0,
                None => self.ptv().y == 1 || self.ptv().x == 0,
            },
    {
        let one = Num::one();
        if self.y.equals(&one) || self.x.is_zero() {
            None
        } else {
            let num = one.add(&self.y);
            let den = one.sub(&self.y);
            let mx = Num::div_total(&num, &den);
            let my = Num::div_total(&mx, &self.x);
            proof {
                reveal(e_to_m);
            }
            Some(MontgomeryPoint { x: mx, y: my })
        }
    }
}

impl MontgomeryPoint {
    /// The coordinates as residues.
    pub open spec fn ptv(self) -> Pt {
        Pt { x: self.x.as_nat(), y: self.y.as_nat() }
    }

    /// Both coordinates are canonical residues.
    pub open spec fn wf(self) -> bool {
        self.x.wf() && self.y.wf()
    }

    /// The Montgomery-to-Edwards conversion, with the divisor nudge at
    /// `y == 0` that sends the sentinel `(0, 0)` to the Edwards `(0, -1)`.
    pub fn into_edwards(&self) -> (r: EdwardsPoint)
        requires
            self.wf(),
        ensures
            r.wf(),
            r.ptv() == m_to_e(self.ptv()),
    {
        let one = Num::one();
        let t = if self.y.is_zero() {
            Num::one()
        } else {
            Num::zero()
        };
        let den_x = self.y.add(&t);
        let ex = Num::div_total(&self.x, &den_x);
        let num_y = self.x.sub(&one);
        let den_y = self.x.add(&one);
        let ey = Num::div_total(&num_y, &den_y);
        proof {
            reveal(m_to_e);
            if self.ptv().y != 0 {
                crate::field::lemma_fadd_zero(self.ptv().y);
            }
        }
        EdwardsPoint { x: ex, y: ey }
    }
}

/// One step of the little-endian bit fold: the tail's value halves.
proof fn lemma_bits_val_step(s: Seq<bool>, i: int)
    requires
        0 <= i < s.len(),
    ensures
        bits_val(s.skip(i)) == (if s[i] {
            1nat
        } else {
            0nat
        }) + 2 * bits_val(s.skip(i + 1)),
        bits_val(s.skip(i)) / 2 == bits_val(s.skip(i + 1)),
        (bits_val(s.skip(i)) % 2 == 1) == s[i],
{
    assert(s.skip(i).len() > 0);
    assert(s.skip(i)[0] == s[i]);
    assert(s.skip(i).drop_first() =~= s.skip(i + 1));
    let b: nat = if s[i] {
        1
    } else {
        0
    };
    vstd::arithmetic::div_mod::lemma_fundamental_div_mod_converse(
        (b + 2 * bits_val(s.skip(i + 1))) as int,
        2,
        bits_val(s.skip(i + 1)) as int,
        b as int,
    );
}

/// The identity lies on every curve of this family.
pub proof fn lemma_id_on_curve(d: nat)
    ensures
        on_curve(e_id(), d),
{
    lemma_fmul_zero(0);
    lemma_fmul_zero(d);
    crate::field::lemma_fm_small(1);
    assert(fmul(1, 1) == 1);
    lemma_fmul_zero(fmul(0, 0));
    lemma_fmul_zero(fmul(fmul(0, 0), d));
    assert(fsub(1, 0) == 1) by {
        crate::field::lemma_fm_small(1);
    }
    assert(fsub(1, 1) == 0) by {
        crate::field::lemma_fm_small(0);
    }
}

/// Doubling fixes the identity.
pub proof fn lemma_double_id(d: nat)
    ensures
        e_double(e_id(), d) == e_id(),
{
    reveal(e_double);
    lemma_finv_one();
    lemma_fmul_zero(1);
    lemma_fmul_zero(2);
    lemma_fmul_zero(d);
    crate::field::lemma_fm_small(1);
    assert(fmul(fadd(0, 1), fadd(0, 1)) == 1) by {
        crate::field::lemma_fm_small(1);
        assert(fadd(0, 1) == 1);
        assert(fmul(1, 1) == 1);
    }
    assert(fadd(1, fmul(fmul(0, 0), d)) == 1) by {
        lemma_fmul_zero(0);
        lemma_fmul_zero(d);
        crate::field::lemma_fm_small(1);
    }
    assert(fdiv(fmul(fmul(0, 1), 2), 1) == 0) by {
        lemma_fmul_zero(1);
        lemma_fmul_zero(2);
        lemma_fmul_zero(finv(1));
    }
    assert(fsub(1, fmul(fmul(0, 1), 2)) == 1) by {
        lemma_fmul_zero(1);
        lemma_fmul_zero(2);
        crate::field::lemma_fm_small(1);
    }
    assert(fdiv(1, 1) == 1) by {
        lemma_finv_one();
        crate::field::lemma_fm_small(1);
    }
}

/// The identity is in the subgroup.
pub proof fn lemma_id_in_subgroup(d: nat)
    ensures
        in_subgroup(e_id(), d),
{
    lemma_id_on_curve(d);
    lemma_double_id(d);
    assert(e_mul8(e_id(), d) == e_id());
    assert(e_id().x < p() && e_id().y < p() && on_curve(e_id(), d) && e_mul8(e_id(), d)
        == e_id());
}

/// Solving the curve equation for `y^2` indeed lands on the curve: if
/// `y^2 * (1 - x^2 * d) == 1 + x^2` then `(x, y)` satisfies the equation.
pub proof fn lemma_decompress_curve(x: nat, y: nat, d: nat)
    requires
        fmul(fmul(y, y), fsub(1, fmul(fmul(x, x), d))) == fadd(1, fmul(x, x)),
    ensures
        on_curve(Pt { x, y }, d),
{
    let y2 = fmul(y, y);
    let x2 = fmul(x, x);
    let xd = fmul(x2, d);
    crate::field::lemma_fmul_fsub_distrib(y2, 1, xd);
    crate::field::lemma_f_bounds(y2, xd);
    crate::field::lemma_f_bounds(1, x2);
    crate::field::lemma_fmul_unit(y2);
    assert(fsub(fmul(y2, 1), fmul(y2, xd)) == fadd(1, x2));
    assert(y2 < p()) by {
        crate::field::lemma_f_bounds(y, y);
    }
    crate::field::lemma_fsub_swap(y2, fmul(y2, xd), fadd(1, x2));
    assert(fsub(y2, fadd(1, x2)) == fmul(y2, xd));
    crate::field::lemma_fsub_fadd_split(y2, 1, x2);
    assert(fsub(fsub(y2, x2), 1) == fmul(y2, xd));
    assert(fmul(xd, y2) == fmul(y2, xd)) by {
        vstd::arithmetic::mul::lemma_mul_is_commutative(xd as int, y2 as int);
    }
}

/// Doubling is addition of a point to itself: the specialized doubling
/// formulas agree with the general addition formulas on equal arguments.
pub proof fn lemma_double_is_add_self(pt: Pt, d: nat)
    ensures
        e_double(pt, d) == e_add(pt, pt, d),
{
    reveal(e_double);
    reveal(e_add);
    let v = fmul(pt.x, pt.y);
    let u = fmul(fadd(pt.x, pt.y), fadd(pt.x, pt.y));
    assert(fadd(v, v) == fmul(v, 2));
    assert(fsub(fsub(u, v), v) == fsub(u, fmul(v, 2))) by {
        crate::field::lemma_fm_sub_l((u as int) - (v as int), v as int);
        crate::field::lemma_fm_sub_r(u as int, (v * 2) as int);
        assert((u as int) - (v as int) - (v as int) == (u as int) - ((v * 2) as int));
    }
}

/// Addition of points is commutative.
pub proof fn lemma_add_comm(pt1: Pt, pt2: Pt, d: nat)
    ensures
        e_add(pt1, pt2, d) == e_add(pt2, pt1, d),
{
    reveal(e_add);
    let v1 = fmul(pt1.x, pt2.y);
    let v2 = fmul(pt2.x, pt1.y);
    let u = fmul(fadd(pt1.x, pt1.y), fadd(pt2.x, pt2.y));
    assert(fmul(fadd(pt2.x, pt2.y), fadd(pt1.x, pt1.y)) == u);
    assert(fmul(v2, v1) == fmul(v1, v2));
    assert(fsub(fsub(u, v2), v1) == fsub(fsub(u, v1), v2)) by {
        crate::field::lemma_fm_sub_l((u as int) - (v2 as int), v1 as int);
        crate::field::lemma_fm_sub_l((u as int) - (v1 as int), v2 as int);
    }
}

/// The point `(0, 1)` is the additive identity.
pub proof fn lemma_add_id(pt: Pt, d: nat)
    requires
        pt.x < p(),
        pt.y < p(),
    ensures
        e_add(pt, e_id(), d) == pt,
        e_add(e_id(), pt, d) == pt,
{
    reveal(e_add);
    lemma_finv_one();
    crate::field::lemma_fm_small(1);
    let x = pt.x;
    let y = pt.y;
    crate::field::lemma_fmul_unit(x);
    crate::field::lemma_fmul_zero(y);
    crate::field::lemma_fmul_zero(x);
    crate::field::lemma_fmul_zero(d);
    crate::field::lemma_fadd_zero(x);
    crate::field::lemma_f_bounds(x, y);
    crate::field::lemma_fmul_unit(fadd(x, y));
    crate::field::lemma_fadd_zero(1);
    assert(fmul(fadd(x, y), fadd(0, 1)) == fadd(x, y)) by {
        crate::field::lemma_fadd_zero(1);
        crate::field::lemma_fmul_unit(fadd(x, y));
    }
    assert(fsub(fadd(x, y), x) == y) by {
        crate::field::lemma_fadd_fsub(y, x);
        assert(fadd(x, y) == fadd(y, x));
    }
    assert(fsub(y, 0) == y) by {
        crate::field::lemma_fm_small(y);
    }
    assert(fsub(1, 0) == 1) by {
        crate::field::lemma_fm_small(1);
    }
    assert(fdiv(x, 1) == x) by {
        crate::field::lemma_fmul_unit(x);
    }
    assert(fdiv(y, 1) == y) by {
        crate::field::lemma_fmul_unit(y);
    }
    assert(fadd(x, 0) == x && fadd(0, x) == x) by {
        crate::field::lemma_fadd_zero(x);
    }
    lemma_add_comm(pt, e_id(), d);
}

/// The doubling formulas keep coordinates canonical.
pub proof fn lemma_e_double_bounds(pt: Pt, d: nat)
    ensures
        e_double(pt, d).x < p(),
        e_double(pt, d).y < p(),
{
    reveal(e_double);
    let v = fmul(pt.x, pt.y);
    let v2 = fmul(v, v);
    let u = fmul(fadd(pt.x, pt.y), fadd(pt.x, pt.y));
    crate::field::lemma_f_bounds(fmul(v, 2), fadd(1, fmul(v2, d)));
    crate::field::lemma_f_bounds(fsub(u, fmul(v, 2)), fsub(1, fmul(v2, d)));
}

/// Multiplying by eight through the double-and-add recursion is the
/// cofactor doubling chain.
pub proof fn lemma_mul_eight(pt: Pt, d: nat)
    ensures
        e_mul(8, pt, d) == e_mul8(pt, d),
{
    let p2 = e_double(pt, d);
    let p4 = e_double(p2, d);
    let p8 = e_double(p4, d);
    assert(e_mul_acc(8, pt, e_id(), d) == e_mul_acc(4, p2, e_id(), d));
    assert(e_mul_acc(4, p2, e_id(), d) == e_mul_acc(2, p4, e_id(), d));
    assert(e_mul_acc(2, p4, e_id(), d) == e_mul_acc(1, p8, e_id(), d));
    assert(e_mul_acc(1, p8, e_id(), d) == e_mul_acc(0, e_double(p8, d), e_add(e_id(), p8, d), d));
    lemma_e_double_bounds(p4, d);
    lemma_add_id(p8, d);
}


} // verus!
