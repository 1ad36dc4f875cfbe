//! The JubJub-style curve over the BN254 scalar field: curve constants and
//! the native operations that need them.

use vstd::prelude::*;
use crate::field::{
    fadd, fdiv, fmul, fneg, fsub, has_inv, has_root, lemma_f_bounds, lemma_fdiv_cancel,
    lemma_finv_of, p, sqrt_of, Num,
};
use crate::native::{
    e_id, e_mul, e_mul8, in_subgroup, lemma_decompress_curve, lemma_id_in_subgroup,
    lemma_id_on_curve, on_curve, EdwardsPoint, MontgomeryPoint, Pt,
};

verus! {

/// The order of the prime-order subgroup.
pub open spec fn qs() -> nat {
    2736030358979909402780800718157159386076813972158567259200215660948447373041nat
}

/// The curve parameters: the Edwards coefficient `d`, the Montgomery
/// coefficients `A` and `B`, a fixed non-residue `u`, and a generator of the
/// prime-order subgroup.
#[derive(Clone, Debug)]
pub struct JubJubBN256 {
    pub edwards_g: EdwardsPoint,
    pub edwards_d: Num,
    pub montgomery_a: Num,
    pub montgomery_b: Num,
    pub montgomery_u: Num,
}

impl JubJubBN256 {
    /// All constants are canonical residues satisfying the defining
    /// relations, and the generator is a subgroup point on the curve.
    pub open spec fn wf(self) -> bool {
        &&& self.edwards_d.wf()
        &&& self.montgomery_a.wf()
        &&& self.montgomery_b.wf()
        &&& self.montgomery_u.wf()
        &&& self.edwards_g.wf()
        &&& self.edwards_d.as_nat() == fdiv(fneg(168696), 168700)
        &&& self.montgomery_a.as_nat() == fdiv(
            fmul(2, fsub(1, self.edwards_d.as_nat())),
            fadd(1, self.edwards_d.as_nat()),
        )
        &&& self.montgomery_b.as_nat() == fdiv(fneg(4), fadd(1, self.edwards_d.as_nat()))
        &&& self.montgomery_u.as_nat() == 337401
        &&& on_curve(self.edwards_g.ptv(), self.edwards_d.as_nat())
        &&& in_subgroup(self.edwards_g.ptv(), self.edwards_d.as_nat())
    }

    /// Builds the parameter set: `d = -168696/168700`, the Montgomery
    /// coefficients derived from it, and a generator obtained by hashing a
    /// fixed scalar to the curve.
    pub fn new() -> (r: JubJubBN256)
        ensures
            r.wf(),
    {
        let one = Num::one();
        let n168696 = Num::from_u64(168696);
        let n168700 = Num::from_u64(168700);
        let edwards_d = Num::div_total(&n168696.negate(), &n168700);
        let two = Num::from_u64(2);
        let num_a = two.mul(&one.sub(&edwards_d));
        let den = one.add(&edwards_d);
        let montgomery_a = Num::div_total(&num_a, &den);
        let four = Num::from_u64(4);
        let montgomery_b = Num::div_total(&four.negate(), &den);
        let montgomery_u = Num::from_u64(337401);
        let seed = Num::from_u64(1);
        let edwards_g = EdwardsPoint::from_scalar_raw(
            &seed,
            &montgomery_a,
            &montgomery_b,
            &montgomery_u,
            &edwards_d,
        );
        JubJubBN256 { edwards_g, edwards_d, montgomery_a, montgomery_b, montgomery_u }
    }

    /// The generator of the prime-order subgroup.
    pub fn edwards_g(&self) -> (r: &EdwardsPoint)
        ensures
            r == &self.edwards_g,
    {
        &self.edwards_g
    }

    /// The Edwards coefficient `d`.
    pub fn edwards_d(&self) -> (r: Num)
        ensures
            r == self.edwards_d,
    {
        self.edwards_d
    }

    /// The Montgomery coefficient `A`.
    pub fn montgomery_a(&self) -> (r: Num)
        ensures
            r == self.montgomery_a,
    {
        self.montgomery_a
    }

    /// The Montgomery coefficient `B`.
    pub fn montgomery_b(&self) -> (r: Num)
        ensures
            r == self.montgomery_b,
    {
        self.montgomery_b
    }

    /// The fixed non-residue `u`.
    pub fn montgomery_u(&self) -> (r: Num)
        ensures
            r == self.montgomery_u,
    {
        self.montgomery_u
    }
}

/// The subgroup order as a field element (it is below the field order).
pub fn fs_order() -> (r: Num)
    ensures
        r.wf(),
        r.as_nat() == qs(),
{
    Num {
        l0: 0x677297dc392126f1,
        l1: 0xab3eedb83920ee0a,
        l2: 0x370a08b6d0302b0b,
        l3: 0x60c89ce5c263405,
    }
}

/// The inverse of eight modulo the subgroup order.
pub open spec fn qs_inv8() -> nat {
    2394026564107420727433200628387514462817212225638746351800188703329891451411nat
}

/// The inverse of eight modulo the subgroup order, as a field element; used
/// to compute cofactor preimages for witnesses.
pub fn fs_inv8() -> (r: Num)
    ensures
        r.wf(),
        r.as_nat() == qs_inv8(),
        (8 * qs_inv8()) % qs() == 1,
{
    proof {
        assert((8 * qs_inv8()) % qs() == 1);
    }
    Num {
        l0: 0x1a8444e0b1fd0213,
        l1: 0x35d7100131fcd049,
        l2: 0x9028c79ff62a25aa,
        l3: 0x54af89490a16d84,
    }
}

impl EdwardsPoint {
    /// Recovers a subgroup point from its `x` coordinate by solving the
    /// curve equation and checking both roots for subgroup membership.
    pub fn subgroup_decompress(x: &Num, params: &JubJubBN256) -> (r: Option<EdwardsPoint>)
        requires
            x.wf(),
            params.wf(),
        ensures
            r matches Some(pt) ==> pt.wf() && pt.x == *x && on_curve(
                pt.ptv(),
                params.edwards_d.as_nat(),
            ) && e_mul(qs(), pt.ptv(), params.edwards_d.as_nat()) == e_id(),
    {
        let d = params.edwards_d();
        let one = Num::one();
        let x2 = x.square();
        let dx2 = x2.mul(&d);
        let den = one.sub(&dx2);
        if den.is_zero() {
            return None;
        }
        let num = one.add(&x2);
        let y2 = Num::div_total(&num, &den);
        proof {
            lemma_fdiv_cancel(fadd(1, fmul(x.as_nat(), x.as_nat())), den.as_nat());
        }
        let y = match y2.sqrt() {
            Some(y) => y,
            None => {
                return None;
            },
        };
        proof {
            lemma_decompress_curve(x.as_nat(), y.as_nat(), d.as_nat());
        }
        let cand = EdwardsPoint { x: *x, y };
        if cand.order_check(params) {
            return Some(cand);
        }
        let cand2 = EdwardsPoint { x: *x, y: y.negate() };
        if !cand2.is_on_curve(&d) {
            return None;
        }
        if cand2.order_check(params) {
            return Some(cand2);
        }
        None
    }

    /// Whether multiplying by the subgroup order yields the identity.
    fn order_check(&self, params: &JubJubBN256) -> (r: bool)
        requires
            self.wf(),
            params.wf(),
        ensures
            r == (e_mul(qs(), self.ptv(), params.edwards_d.as_nat()) == e_id()),
    {
        let d = params.edwards_d();
        let order = fs_order();
        proof {
            crate::field::lemma_p_lt_pow2_254();
        }
        let bits = order.to_bits_le_total(254);
        let m = self.mul_by_bits(&bits, &d);
        let id = EdwardsPoint::zero();
        let rx = m.x.equals(&id.x);
        let ry = m.y.equals(&id.y);
        proof {
            if m.ptv() == e_id() {
            }
        }
        rx && ry
    }

    /// An Elligator-style map from a field element onto the prime-order
    /// subgroup.  Every returned point is on the curve and in the subgroup;
    /// if the construction were ever to leave the curve, the identity is
    /// returned instead.
    pub fn from_scalar_raw(t: &Num, a: &Num, b: &Num, u: &Num, d: &Num) -> (r: EdwardsPoint)
        requires
            t.wf(),
            a.wf(),
            b.wf(),
            u.wf(),
            d.wf(),
        ensures
            r.wf(),
            on_curve(r.ptv(), d.as_nat()),
            in_subgroup(r.ptv(), d.as_nat()),
    {
        proof {
            lemma_id_on_curve(d.as_nat());
            lemma_id_in_subgroup(d.as_nat());
        }
        let one = Num::one();
        let t1 = t.add(&one);
        let t2 = t1.square();
        let g1 = t2.mul(u);
        let g1p1 = g1.add(&one);
        let x3 = Num::div_total(&g1p1.negate(), a);
        let x2 = Num::div_total(&x3, &g1);
        let y2 = match mont_poly_root(&x2, a, b) {
            Some(y) => Some((x2, y)),
            None => None,
        };
        let (mx, my) = match y2 {
            Some(pair) => pair,
            None => match mont_poly_root(&x3, a, b) {
                Some(y) => (x3, y),
                None => {
                    return EdwardsPoint::zero();
                },
            },
        };
        let my = if my.is_even() {
            my
        } else {
            my.negate()
        };
        let m = MontgomeryPoint { x: mx, y: my };
        let q = m.into_edwards();
        if !q.is_on_curve(d) {
            return EdwardsPoint::zero();
        }
        let r = q.mul_by_cofactor(d);
        if !r.is_on_curve(d) {
            return EdwardsPoint::zero();
        }
        proof {
            assert(q.ptv().x < p() && q.ptv().y < p() && on_curve(q.ptv(), d.as_nat()) && e_mul8(
                q.ptv(),
                d.as_nat(),
            ) == r.ptv());
        }
        r
    }
}

/// A square root of the Montgomery polynomial `(x^2 (x + A) + x) / B` at the
/// given abscissa, when the value is a quadratic residue.
fn mont_poly_root(x: &Num, a: &Num, b: &Num) -> (r: Option<Num>)
    requires
        x.wf(),
        a.wf(),
        b.wf(),
    ensures
        r matches Some(y) ==> y.wf(),
{
    let x2 = x.square();
    let xa = x.add(a);
    let g = Num::div_total(&x2.mul(&xa).add(x), b);
    g.sqrt()
}

} // verus!
