//! In-circuit twisted-Edwards and Montgomery curve arithmetic.
//!
//! Points are pairs of field signals.  Nothing is enforced implicitly: a
//! point lies on the curve or in the subgroup only after the corresponding
//! assertion has been recorded.  The contracts pin every witness value to
//! the native formulas and track how each operation moves the
//! satisfiability of the constraint system.

use vstd::prelude::*;
use crate::field::{fadd, fdiv, finv, fmul, fneg, fsub, has_root, sqrt_of, p, Num};
use crate::cs::CS;
use crate::num::CNum;
use crate::boolean::CBool;
use crate::native::{
    e_add, e_double, e_id, e_mul, e_mul8, e_to_m, in_subgroup, m_add, m_double, m_to_e, on_curve,
    EdwardsPoint, Pt,
};
use crate::bn256::{qs_inv8, JubJubBN256};

verus! {

broadcast use crate::num::lemma_wf_extend, crate::cs::lemma_extends_trans;

/// A well-formed point stays well-formed when the system only grows.
pub proof fn lemma_pt_wf_extend(pt: CEdwardsPoint, c1: CS, c2: CS)
    requires
        pt.wf(c1),
        c1.wf(),
        c2.extends(c1),
    ensures
        pt.wf(c2),
{
    crate::num::lemma_wf_extend(pt.x, c1, c2);
    crate::num::lemma_wf_extend(pt.y, c1, c2);
}

/// Assembling the doubling fractions gives exactly `e_double`.
proof fn lemma_double_compose(pt: Pt, dn: nat, q: Pt)
    requires
        ({
            let v = fmul(pt.x, pt.y);
            let v2 = fmul(v, v);
            let u = fmul(fadd(pt.x, pt.y), fadd(pt.x, pt.y));
            q.x == fdiv(fmul(v, 2), fadd(1, fmul(v2, dn))) && q.y == fdiv(
                fsub(u, fmul(v, 2)),
                fsub(1, fmul(v2, dn)),
            )
        }),
    ensures
        q == e_double(pt, dn),
{
    reveal(e_double);
}

/// Assembling the addition fractions gives exactly `e_add`.
proof fn lemma_add_compose(pt1: Pt, pt2: Pt, dn: nat, q: Pt)
    requires
        ({
            let v1 = fmul(pt1.x, pt2.y);
            let v2 = fmul(pt2.x, pt1.y);
            let v12 = fmul(v1, v2);
            let u = fmul(fadd(pt1.x, pt1.y), fadd(pt2.x, pt2.y));
            q.x == fdiv(fadd(v1, v2), fadd(1, fmul(v12, dn))) && q.y == fdiv(
                fsub(fsub(u, v1), v2),
                fsub(1, fmul(v12, dn)),
            )
        }),
    ensures
        q == e_add(pt1, pt2, dn),
{
    reveal(e_add);
}

/// Divides the two fraction pairs, recording the two division constraints.
fn div_pair(num_x: &CNum, den_x: &CNum, num_y: &CNum, den_y: &CNum, cs: &mut CS) -> (r: (
    CNum,
    CNum,
))
    requires
        old(cs).wf(),
        num_x.wf(*old(cs)),
        den_x.wf(*old(cs)),
        num_y.wf(*old(cs)),
        den_y.wf(*old(cs)),
        old(cs).n_vars + 4 <= usize::MAX,
    ensures
        final(cs).wf(),
        final(cs).extends(*old(cs)),
        final(cs).n_vars <= old(cs).n_vars + 4,
        r.0.wf(*final(cs)),
        r.1.wf(*final(cs)),
        old(cs).tracking() ==> r.0.val() == fdiv(num_x.val(), den_x.val()) && r.1.val() == fdiv(
            num_y.val(),
            den_y.val(),
        ),
        final(cs).sat() ==> old(cs).sat(),
        old(cs).sat() && (old(cs).tracking() ==> den_x.val() != 0 && den_y.val() != 0)
            ==> final(cs).sat(),
{
    let ghost c0 = *cs;
    let rx = num_x.div_unchecked(den_x, cs);
    let ghost c1 = *cs;
    proof {
        crate::num::lemma_wf_extend(*num_y, c0, c1);
        crate::num::lemma_wf_extend(*den_y, c0, c1);
    }
    let ry = num_y.div_unchecked(den_y, cs);
    proof {
        crate::num::lemma_wf_extend(rx, c1, *cs);
    }
    (rx, ry)
}

/// The Edwards doubling formulas divide by `1 + d v^2` and `1 - d v^2`.
pub open spec fn e_double_ok(pt: Pt, d: nat) -> bool {
    let v = fmul(pt.x, pt.y);
    let v2 = fmul(v, v);
    fadd(1, fmul(v2, d)) != 0 && fsub(1, fmul(v2, d)) != 0
}

/// The Edwards addition formulas divide by `1 + d v12` and `1 - d v12`.
pub open spec fn e_add_ok(pt1: Pt, pt2: Pt, d: nat) -> bool {
    let v12 = fmul(fmul(pt1.x, pt2.y), fmul(pt2.x, pt1.y));
    fadd(1, fmul(v12, d)) != 0 && fsub(1, fmul(v12, d)) != 0
}

/// The Edwards-to-Montgomery map divides by `1 - y` and by `x`.
pub open spec fn e_to_m_ok(pt: Pt) -> bool {
    fsub(1, pt.y) != 0 && pt.x != 0
}

/// The three doublings of the cofactor chain all have nonzero denominators.
pub open spec fn e_mul8_ok(pt: Pt, d: nat) -> bool {
    e_double_ok(pt, d) && e_double_ok(e_double(pt, d), d) && e_double_ok(
        e_double(e_double(pt, d), d),
        d,
    )
}

/// The bit witnesses of a vector of bit signals.
pub open spec fn bvals(s: Seq<CBool>) -> Seq<bool> {
    s.map_values(|b: CBool| b.bval())
}

/// `i`-fold Montgomery doubling.
pub open spec fn m_pow2(i: nat, pt: Pt, a: nat, b: nat) -> Pt
    decreases i,
{
    if i == 0 {
        pt
    } else {
        m_double(m_pow2((i - 1) as nat, pt, a, b), a, b)
    }
}

/// The Montgomery ladder: add the running power when the bit is set, then
/// double the power, least significant bit first.
pub open spec fn m_ladder(bits: Seq<bool>, base: Pt, acc: Pt, a: nat, b: nat) -> Pt
    decreases bits.len(),
{
    if bits.len() == 0 {
        acc
    } else {
        m_ladder(
            bits.drop_first(),
            m_double(base, a, b),
            if bits[0] {
                m_add(acc, base, a, b)
            } else {
                acc
            },
            a,
            b,
        )
    }
}

/// The variable-base result: the ladder from the `(0, 0)` sentinel over the
/// Montgomery image of the base (the generator standing in for a zero
/// base), the sentinel restored for a zero base, mapped back to Edwards
/// form and negated.
pub open spec fn mul_var_spec(pt: Pt, bits: Seq<bool>, g: Pt, a: nat, b: nat) -> Pt {
    let base = if pt.x == 0 {
        g
    } else {
        pt
    };
    let acc = if pt.x == 0 {
        Pt { x: 0, y: 0 }
    } else {
        m_ladder(bits, e_to_m(base), Pt { x: 0, y: 0 }, a, b)
    };
    let r = m_to_e(acc);
    Pt { x: fneg(r.x), y: fneg(r.y) }
}

/// The `(k+1)`-th multiple of a point, by repeated addition.
pub open spec fn table_mult(base: Pt, k: int, d: nat) -> Pt
    decreases k,
{
    if k <= 0 {
        base
    } else {
        e_add(table_mult(base, k - 1, d), base, d)
    }
}

/// The Edwards-to-Montgomery map made total: the identity column goes to
/// the `(0, 0)` sentinel.
pub open spec fn e_to_m_tot(pt: Pt) -> Pt {
    if pt.y == 1 || pt.x == 0 {
        Pt { x: 0, y: 0 }
    } else {
        e_to_m(pt)
    }
}

/// The Montgomery image of one window-table row.
pub open spec fn window_sel(base: Pt, idx: int, d: nat) -> Pt {
    e_to_m_tot(table_mult(base, idx, d))
}

/// The fixed-base window fold: per window, add the selected table row in
/// Montgomery form and step the base by the cofactor.
pub open spec fn window_fold(
    bits: Seq<bool>,
    w: int,
    nw: int,
    base: Pt,
    acc: Pt,
    a: nat,
    b: nat,
    d: nat,
) -> Pt
    decreases nw - w,
{
    if w >= nw {
        acc
    } else {
        window_fold(
            bits,
            w + 1,
            nw,
            e_mul8(base, d),
            m_add(
                acc,
                window_sel(
                    base,
                    crate::mux::mux3_index(bits[3 * w], bits[3 * w + 1], bits[3 * w + 2]),
                    d,
                ),
                a,
                b,
            ),
            a,
            b,
            d,
        )
    }
}

/// The additive offset: the window count's worth of base multiples summed
/// from the shifted start `(0, -1)`.
pub open spec fn offset_acc(n: int, base: Pt, acc: Pt, d: nat) -> Pt
    decreases n,
{
    if n <= 0 {
        acc
    } else {
        offset_acc(n - 1, e_mul8(base, d), e_add(acc, base, d), d)
    }
}

/// The bit string padded with zero bits to a multiple of three.
pub open spec fn pad_bits(bits: Seq<bool>) -> Seq<bool> {
    bits + Seq::new(((2 * (bits.len() % 3)) % 3) as nat, |i: int| false)
}

/// The fixed-base result: the window fold started from the negated offset,
/// mapped back to Edwards form and negated.
pub open spec fn mul_const_spec(base: Pt, bits: Seq<bool>, a: nat, b: nat, d: nat) -> Pt {
    let ab = pad_bits(bits);
    let nw = ab.len() / 3;
    let off = offset_acc(nw as int, base, Pt { x: 0, y: fsub(0, 1) }, d);
    let m0 = e_to_m_tot(Pt { x: fneg(off.x), y: off.y });
    let folded = window_fold(ab, 0, nw as int, base, m0, a, b, d);
    let r = m_to_e(folded);
    Pt { x: fneg(r.x), y: fneg(r.y) }
}

/// The Montgomery polynomial value `(x^2 (x + A) + x) / B`, phrased as the
/// circuit computes it.
pub open spec fn mont_poly(x: nat, a: nat, b: nat) -> nat {
    fmul(fadd(fmul(fmul(x, x), fadd(x, a)), x), fdiv(1, b))
}

/// A root with its parity forced even.
pub open spec fn even_root(r: nat) -> nat {
    if r % 2 == 0 {
        r
    } else {
        fneg(r)
    }
}

/// The square-root witness the circuit allocates: the even root of the
/// value when it is a square, else the even root of its non-residue
/// multiple, else zero.
pub open spec fn witness_root(g: nat, u: nat) -> nat {
    if has_root(g) {
        even_root(sqrt_of(g))
    } else if has_root(fmul(g, u)) {
        even_root(sqrt_of(fmul(g, u)))
    } else {
        0
    }
}

/// The hash-to-curve result: the candidate abscissa whose polynomial value
/// is a square, its even root, mapped to Edwards form and multiplied by the
/// cofactor.
pub open spec fn from_scalar_spec(t: nat, a: nat, b: nat, u: nat, d: nat) -> Pt {
    let t1 = fadd(t, 1);
    let g1 = fmul(fmul(t1, t1), u);
    let x3 = fmul(fadd(g1, 1), fneg(fdiv(1, a)));
    let x2 = fdiv(x3, g1);
    let y2 = witness_root(mont_poly(x2, a, b), u);
    let y3 = witness_root(mont_poly(x3, a, b), u);
    let m = if mont_poly(x2, a, b) == fmul(y2, y2) {
        Pt { x: x2, y: y2 }
    } else {
        Pt { x: x3, y: y3 }
    };
    e_mul8(m_to_e(m), d)
}

/// Mapping the bit witnesses commutes with appending a bit.
pub proof fn lemma_bvals_push(s: Seq<CBool>, b: CBool)
    ensures
        bvals(s.push(b)) == bvals(s).push(b.bval()),
{
    assert(bvals(s.push(b)) =~= bvals(s).push(b.bval()));
}

/// Montgomery doubling divides by `2 B y`.
pub open spec fn m_double_ok(pt: Pt, b: nat) -> bool {
    fmul(pt.y, fmul(2, b)) != 0
}

/// Montgomery addition divides by `x2 - x1`: the points must be distinct.
pub open spec fn m_add_ok(pt1: Pt, pt2: Pt) -> bool {
    fsub(pt2.x, pt1.x) != 0
}

/// The Montgomery-to-Edwards map divides by `x + 1` (and by a never-zero
/// nudged `y`).
pub open spec fn m_to_e_ok(pt: Pt) -> bool {
    fadd(pt.x, 1) != 0
}

/// An in-circuit point on the twisted Edwards curve.
#[derive(Clone, Copy, Debug)]
pub struct CEdwardsPoint {
    pub x: CNum,
    pub y: CNum,
}

/// An in-circuit point on the Montgomery curve.
#[derive(Clone, Copy, Debug)]
pub struct CMontgomeryPoint {
    pub x: CNum,
    pub y: CNum,
}

impl CEdwardsPoint {
    /// Both coordinate signals are well-formed.
    pub open spec fn wf(self, cs: CS) -> bool {
        self.x.wf(cs) && self.y.wf(cs)
    }

    /// The witness coordinates as residues.
    pub open spec fn ptv(self) -> Pt {
        Pt { x: self.x.val(), y: self.y.val() }
    }

    /// Whether both witness coordinates are present.
    pub open spec fn has_value(self) -> bool {
        self.x.has_value() && self.y.has_value()
    }

    /// A constant point; allocates nothing.
    pub fn from_const(cs: &CS, value: &EdwardsPoint) -> (z: CEdwardsPoint)
        requires
            cs.wf(),
            value.wf(),
        ensures
            z.wf(*cs),
            z.has_value(),
            z.ptv() == value.ptv(),
            z.x.lc.is_const(),
            z.y.lc.is_const(),
    {
        CEdwardsPoint {
            x: CNum::from_const(cs, &value.x),
            y: CNum::from_const(cs, &value.y),
        }
    }

    /// A freshly allocated point carrying the given witness coordinates.
    pub fn allocate(cs: &mut CS, value: Option<&EdwardsPoint>) -> (z: CEdwardsPoint)
        requires
            old(cs).wf(),
            old(cs).n_vars + 2 <= usize::MAX,
            old(cs).tracking() ==> value is Some,
            value matches Some(pt) ==> pt.wf(),
        ensures
            final(cs).wf(),
            final(cs).extends(*old(cs)),
            final(cs).sat() == old(cs).sat(),
            final(cs).n_vars <= old(cs).n_vars + 2,
            z.wf(*final(cs)),
            value matches Some(pt) ==> z.has_value() && z.ptv() == pt.ptv(),
    {
        let (vx, vy) = match value {
            Some(pt) => (Some(pt.x), Some(pt.y)),
            None => (None, None),
        };
        let x = CNum::allocate(
            cs,
            match &vx {
                Some(v) => Some(v),
                None => None,
            },
        );
        let y = CNum::allocate(
            cs,
            match &vy {
                Some(v) => Some(v),
                None => None,
            },
        );
        CEdwardsPoint { x, y }
    }

    /// The witness point, when both coordinates are present.
    pub fn get_value(&self) -> (r: Option<EdwardsPoint>)
        ensures
            r matches Some(pt) ==> self.has_value() && pt.ptv() == self.ptv(),
            r is None ==> !self.has_value(),
            self.has_value() ==> r is Some,
    {
        match (&self.x.value, &self.y.value) {
            (Some(x), Some(y)) => Some(EdwardsPoint { x: *x, y: *y }),
            _ => None,
        }
    }

    /// Ternary selection between points, componentwise.
    pub fn switch(&self, bit: &CBool, if_else: &CEdwardsPoint, cs: &mut CS) -> (z: CEdwardsPoint)
        requires
            old(cs).wf(),
            self.wf(*old(cs)),
            bit.wf(*old(cs)),
            if_else.wf(*old(cs)),
            old(cs).n_vars + 8 <= usize::MAX,
        ensures
            final(cs).wf(),
            final(cs).extends(*old(cs)),
            final(cs).sat() == old(cs).sat(),
            final(cs).n_vars <= old(cs).n_vars + 8,
            z.wf(*final(cs)),
            old(cs).tracking() ==> z.ptv() == (if bit.bval() {
                self.ptv()
            } else {
                if_else.ptv()
            }),
    {
        let x = self.x.switch(bit, &if_else.x, cs);
        let ghost c1 = *cs;
        let y = self.y.switch(bit, &if_else.y, cs);
        CEdwardsPoint { x, y }
    }

    /// Asserts componentwise equality of two points.
    pub fn assert_eq(&self, other: &CEdwardsPoint, cs: &mut CS)
        requires
            old(cs).wf(),
            self.wf(*old(cs)),
            other.wf(*old(cs)),
        ensures
            final(cs).wf(),
            final(cs).extends(*old(cs)),
            final(cs).n_vars == old(cs).n_vars,
            final(cs).sat() == (old(cs).sat() && (old(cs).tracking() ==> self.ptv()
                == other.ptv())),
    {
        self.x.assert_eq(&other.x, cs);
        let ghost c1 = *cs;
        self.y.assert_eq(&other.y, cs);
        proof {
            if old(cs).tracking() {
                assert((self.ptv() == other.ptv()) == (self.x.val() == other.x.val()
                    && self.y.val() == other.y.val()));
            }
        }
    }

    /// Pins both coordinates as public inputs.
    pub fn inputize(&self, cs: &mut CS)
        requires
            old(cs).wf(),
            self.wf(*old(cs)),
            old(cs).n_vars + 2 <= usize::MAX,
        ensures
            final(cs).wf(),
            final(cs).extends(*old(cs)),
            final(cs).sat() == old(cs).sat(),
    {
        self.x.inputize(cs);
        self.y.inputize(cs);
    }

    /// Appends both coordinate signals to a flat list.
    pub fn linearize_builder(&self, acc: &mut Vec<CNum>)
        ensures
            final(acc)@ == old(acc)@.push(self.x).push(self.y),
    {
        self.x.linearize_builder(acc);
        self.y.linearize_builder(acc);
    }

    /// The four fraction parts of the doubling formulas:
    /// `(2v, 1 + d v^2, u - 2v, 1 - d v^2)` for `v = x y`, `u = (x+y)^2`.
    fn double_parts(&self, params: &JubJubBN256, cs: &mut CS) -> (r: (CNum, CNum, CNum, CNum))
        requires
            old(cs).wf(),
            self.wf(*old(cs)),
            params.wf(),
            old(cs).n_vars + 8 <= usize::MAX,
        ensures
            final(cs).wf(),
            final(cs).extends(*old(cs)),
            final(cs).sat() == old(cs).sat(),
            final(cs).n_vars <= old(cs).n_vars + 8,
            r.0.wf(*final(cs)),
            r.1.wf(*final(cs)),
            r.2.wf(*final(cs)),
            r.3.wf(*final(cs)),
            old(cs).tracking() ==> {
                let pt = self.ptv();
                let dn = params.edwards_d.as_nat();
                let v = fmul(pt.x, pt.y);
                let v2 = fmul(v, v);
                let u = fmul(fadd(pt.x, pt.y), fadd(pt.x, pt.y));
                &&& r.0.val() == fmul(v, 2)
                &&& r.1.val() == fadd(1, fmul(v2, dn))
                &&& r.2.val() == fsub(u, fmul(v, 2))
                &&& r.3.val() == fsub(1, fmul(v2, dn))
            },
    {
        let d = params.edwards_d();
        let one = Num::one();
        let two = Num::from_u64(2);
        let ghost c0 = *cs;
        let v = self.x.mul(&self.y, cs);
        let ghost c1 = *cs;
        proof {
            lemma_pt_wf_extend(*self, c0, c1);
        }
        let v2 = v.mul(&v, cs);
        let ghost c2 = *cs;
        proof {
            lemma_pt_wf_extend(*self, c1, c2);
        }
        let s = self.x.add(&self.y, cs);
        let ghost c3 = *cs;
        proof {
            crate::num::lemma_wf_extend(v, c2, c3);
            crate::num::lemma_wf_extend(v2, c2, c3);
        }
        let u = s.mul(&s, cs);
        let ghost c4 = *cs;
        proof {
            crate::num::lemma_wf_extend(v, c3, c4);
            crate::num::lemma_wf_extend(v2, c3, c4);
        }
        let v_2 = v.mul_const(&two, cs);
        let dv2 = v2.mul_const(&d, cs);
        let onec = CNum::from_const(cs, &one);
        let den_x = onec.add(&dv2, cs);
        let ghost c5 = *cs;
        proof {
            crate::num::lemma_wf_extend(onec, c4, c5);
            crate::num::lemma_wf_extend(dv2, c4, c5);
            crate::num::lemma_wf_extend(u, c4, c5);
            crate::num::lemma_wf_extend(v_2, c4, c5);
        }
        let den_y = onec.sub(&dv2, cs);
        let ghost c6 = *cs;
        proof {
            crate::num::lemma_wf_extend(u, c5, c6);
            crate::num::lemma_wf_extend(v_2, c5, c6);
            crate::num::lemma_wf_extend(den_x, c5, c6);
        }
        let num_y = u.sub(&v_2, cs);
        proof {
            crate::num::lemma_wf_extend(v_2, c6, *cs);
            crate::num::lemma_wf_extend(den_x, c6, *cs);
        }
        (v_2, den_x, num_y, den_y)
    }

    /// In-circuit Edwards doubling, with unchecked divisions: the
    /// denominators are nonzero for points on the curve because `d` is a
    /// non-residue.
    pub fn double(&self, params: &JubJubBN256, cs: &mut CS) -> (z: CEdwardsPoint)
        requires
            old(cs).wf(),
            self.wf(*old(cs)),
            params.wf(),
            old(cs).n_vars + 16 <= usize::MAX,
        ensures
            final(cs).wf(),
            final(cs).extends(*old(cs)),
            final(cs).n_vars <= old(cs).n_vars + 16,
            z.wf(*final(cs)),
            old(cs).tracking() ==> z.ptv() == e_double(self.ptv(), params.edwards_d.as_nat()),
            final(cs).sat() ==> old(cs).sat(),
            old(cs).sat() && (old(cs).tracking() ==> e_double_ok(
                self.ptv(),
                params.edwards_d.as_nat(),
            )) ==> final(cs).sat(),
    {
        let parts = self.double_parts(params, cs);
        let (v_2, den_x, num_y, den_y) = parts;
        let pair = div_pair(&v_2, &den_x, &num_y, &den_y, cs);
        let (rx, ry) = pair;
        proof {
            if old(cs).tracking() {
                lemma_double_compose(
                    self.ptv(),
                    params.edwards_d.as_nat(),
                    Pt { x: rx.val(), y: ry.val() },
                );
            }
        }
        CEdwardsPoint { x: rx, y: ry }
    }

    /// Three doublings: multiplication by the cofactor.
    pub fn mul_by_cofactor(&self, params: &JubJubBN256, cs: &mut CS) -> (z: CEdwardsPoint)
        requires
            old(cs).wf(),
            self.wf(*old(cs)),
            params.wf(),
            old(cs).n_vars + 48 <= usize::MAX,
        ensures
            final(cs).wf(),
            final(cs).extends(*old(cs)),
            final(cs).n_vars <= old(cs).n_vars + 48,
            z.wf(*final(cs)),
            old(cs).tracking() ==> z.ptv() == e_mul8(self.ptv(), params.edwards_d.as_nat()),
            final(cs).sat() ==> old(cs).sat(),
            old(cs).sat() && (old(cs).tracking() ==> e_mul8_ok(
                self.ptv(),
                params.edwards_d.as_nat(),
            )) ==> final(cs).sat(),
    {
        let p2 = self.double(params, cs);
        let p4 = p2.double(params, cs);
        p4.double(params, cs)
    }

    /// The four fraction parts of the addition formulas:
    /// `(v1 + v2, 1 + d v12, u - v1 - v2, 1 - d v12)`.
    fn add_parts(&self, other: &CEdwardsPoint, params: &JubJubBN256, cs: &mut CS) -> (r: (
        CNum,
        CNum,
        CNum,
        CNum,
    ))
        requires
            old(cs).wf(),
            self.wf(*old(cs)),
            other.wf(*old(cs)),
            params.wf(),
            old(cs).n_vars + 12 <= usize::MAX,
        ensures
            final(cs).wf(),
            final(cs).extends(*old(cs)),
            final(cs).sat() == old(cs).sat(),
            final(cs).n_vars <= old(cs).n_vars + 12,
            r.0.wf(*final(cs)),
            r.1.wf(*final(cs)),
            r.2.wf(*final(cs)),
            r.3.wf(*final(cs)),
            old(cs).tracking() ==> {
                let pt1 = self.ptv();
                let pt2 = other.ptv();
                let dn = params.edwards_d.as_nat();
                let v1 = fmul(pt1.x, pt2.y);
                let v2 = fmul(pt2.x, pt1.y);
                let v12 = fmul(v1, v2);
                let u = fmul(fadd(pt1.x, pt1.y), fadd(pt2.x, pt2.y));
                &&& r.0.val() == fadd(v1, v2)
                &&& r.1.val() == fadd(1, fmul(v12, dn))
                &&& r.2.val() == fsub(fsub(u, v1), v2)
                &&& r.3.val() == fsub(1, fmul(v12, dn))
            },
    {
        let d = params.edwards_d();
        let one = Num::one();
        let ghost c0 = *cs;
        let v1 = self.x.mul(&other.y, cs);
        let ghost c1 = *cs;
        proof {
            lemma_pt_wf_extend(*self, c0, c1);
            lemma_pt_wf_extend(*other, c0, c1);
        }
        let v2 = other.x.mul(&self.y, cs);
        let ghost c2 = *cs;
        proof {
            lemma_pt_wf_extend(*self, c1, c2);
            lemma_pt_wf_extend(*other, c1, c2);
            crate::num::lemma_wf_extend(v1, c1, c2);
        }
        let v12 = v1.mul(&v2, cs);
        let ghost c3 = *cs;
        proof {
            lemma_pt_wf_extend(*self, c2, c3);
            lemma_pt_wf_extend(*other, c2, c3);
            crate::num::lemma_wf_extend(v1, c2, c3);
            crate::num::lemma_wf_extend(v2, c2, c3);
        }
        let s1 = self.x.add(&self.y, cs);
        let ghost c4 = *cs;
        proof {
            lemma_pt_wf_extend(*other, c3, c4);
            crate::num::lemma_wf_extend(v1, c3, c4);
            crate::num::lemma_wf_extend(v2, c3, c4);
            crate::num::lemma_wf_extend(v12, c3, c4);
        }
        let s2 = other.x.add(&other.y, cs);
        let ghost c5 = *cs;
        proof {
            crate::num::lemma_wf_extend(v1, c4, c5);
            crate::num::lemma_wf_extend(v2, c4, c5);
            crate::num::lemma_wf_extend(v12, c4, c5);
            crate::num::lemma_wf_extend(s1, c4, c5);
        }
        let u = s1.mul(&s2, cs);
        let ghost c6 = *cs;
        proof {
            crate::num::lemma_wf_extend(v1, c5, c6);
            crate::num::lemma_wf_extend(v2, c5, c6);
            crate::num::lemma_wf_extend(v12, c5, c6);
        }
        let dv12 = v12.mul_const(&d, cs);
        let onec = CNum::from_const(cs, &one);
        let den_x = onec.add(&dv12, cs);
        let ghost c7 = *cs;
        proof {
            crate::num::lemma_wf_extend(v1, c6, c7);
            crate::num::lemma_wf_extend(v2, c6, c7);
            crate::num::lemma_wf_extend(u, c6, c7);
            crate::num::lemma_wf_extend(onec, c6, c7);
            crate::num::lemma_wf_extend(dv12, c6, c7);
        }
        let den_y = onec.sub(&dv12, cs);
        let ghost c8 = *cs;
        proof {
            crate::num::lemma_wf_extend(v1, c7, c8);
            crate::num::lemma_wf_extend(v2, c7, c8);
            crate::num::lemma_wf_extend(u, c7, c8);
            crate::num::lemma_wf_extend(den_x, c7, c8);
        }
        let num_x = v1.add(&v2, cs);
        let ghost c9 = *cs;
        proof {
            crate::num::lemma_wf_extend(v1, c8, c9);
            crate::num::lemma_wf_extend(v2, c8, c9);
            crate::num::lemma_wf_extend(u, c8, c9);
            crate::num::lemma_wf_extend(den_x, c8, c9);
            crate::num::lemma_wf_extend(den_y, c8, c9);
        }
        let num_y0 = u.sub(&v1, cs);
        let ghost c10 = *cs;
        proof {
            crate::num::lemma_wf_extend(v2, c9, c10);
            crate::num::lemma_wf_extend(den_x, c9, c10);
            crate::num::lemma_wf_extend(den_y, c9, c10);
            crate::num::lemma_wf_extend(num_x, c9, c10);
        }
        let num_y = num_y0.sub(&v2, cs);
        proof {
            crate::num::lemma_wf_extend(den_x, c10, *cs);
            crate::num::lemma_wf_extend(den_y, c10, *cs);
            crate::num::lemma_wf_extend(num_x, c10, *cs);
        }
        (num_x, den_x, num_y, den_y)
    }

    /// In-circuit Edwards addition, with unchecked divisions.
    pub fn add(&self, other: &CEdwardsPoint, params: &JubJubBN256, cs: &mut CS) -> (z:
        CEdwardsPoint)
        requires
            old(cs).wf(),
            self.wf(*old(cs)),
            other.wf(*old(cs)),
            params.wf(),
            old(cs).n_vars + 16 <= usize::MAX,
        ensures
            final(cs).wf(),
            final(cs).extends(*old(cs)),
            final(cs).n_vars <= old(cs).n_vars + 16,
            z.wf(*final(cs)),
            old(cs).tracking() ==> z.ptv() == e_add(
                self.ptv(),
                other.ptv(),
                params.edwards_d.as_nat(),
            ),
            final(cs).sat() ==> old(cs).sat(),
            old(cs).sat() && (old(cs).tracking() ==> e_add_ok(
                self.ptv(),
                other.ptv(),
                params.edwards_d.as_nat(),
            )) ==> final(cs).sat(),
    {
        let parts = self.add_parts(other, params, cs);
        let (num_x, den_x, num_y, den_y) = parts;
        let pair = div_pair(&num_x, &den_x, &num_y, &den_y, cs);
        let (rx, ry) = pair;
        proof {
            if old(cs).tracking() {
                lemma_add_compose(
                    self.ptv(),
                    other.ptv(),
                    params.edwards_d.as_nat(),
                    Pt { x: rx.val(), y: ry.val() },
                );
            }
        }
        CEdwardsPoint { x: rx, y: ry }
    }

    /// Asserts the curve equation `d x^2 y^2 == y^2 - x^2 - 1`.  With a
    /// tracked witness the system stays satisfiable exactly when the point
    /// is on the curve.
    pub fn assert_in_curve(&self, params: &JubJubBN256, cs: &mut CS)
        requires
            old(cs).wf(),
            self.wf(*old(cs)),
            params.wf(),
            old(cs).n_vars + 8 <= usize::MAX,
        ensures
            final(cs).wf(),
            final(cs).extends(*old(cs)),
            final(cs).n_vars <= old(cs).n_vars + 8,
            final(cs).sat() == (old(cs).sat() && (old(cs).tracking() ==> on_curve(
                self.ptv(),
                params.edwards_d.as_nat(),
            ))),
    {
        let d = params.edwards_d();
        let one = Num::one();
        let x2 = self.x.mul(&self.x, cs);
        let ghost c1 = *cs;
        let y2 = self.y.mul(&self.y, cs);
        let ghost c2 = *cs;
        let dx2 = x2.mul_const(&d, cs);
        let lhs = dx2.mul(&y2, cs);
        let ghost c3 = *cs;
        let t = y2.sub(&x2, cs);
        let ghost c4 = *cs;
        let onec = CNum::from_const(cs, &one);
        let rhs = t.sub(&onec, cs);
        let ghost c5 = *cs;
        lhs.assert_eq(&rhs, cs);
    }
}

impl CEdwardsPoint {
    /// Conversion to Montgomery form; assumes a point outside the identity
    /// column, as the cofactor-multiplied subgroup points are.
    pub fn into_montgomery(&self, cs: &mut CS) -> (z: CMontgomeryPoint)
        requires
            old(cs).wf(),
            self.wf(*old(cs)),
            old(cs).n_vars + 8 <= usize::MAX,
        ensures
            final(cs).wf(),
            final(cs).extends(*old(cs)),
            final(cs).n_vars <= old(cs).n_vars + 8,
            z.wf(*final(cs)),
            old(cs).tracking() ==> z.ptv() == e_to_m(self.ptv()),
            final(cs).sat() ==> old(cs).sat(),
            old(cs).sat() && (old(cs).tracking() ==> e_to_m_ok(self.ptv())) ==> final(cs).sat(),
    {
        let one = Num::one();
        let ghost c0 = *cs;
        let onec = CNum::from_const(cs, &one);
        let num = onec.add(&self.y, cs);
        let ghost c1 = *cs;
        proof {
            lemma_pt_wf_extend(*self, c0, c1);
            crate::num::lemma_wf_extend(onec, c0, c1);
        }
        let den = onec.sub(&self.y, cs);
        let ghost c2 = *cs;
        proof {
            lemma_pt_wf_extend(*self, c1, c2);
            crate::num::lemma_wf_extend(num, c1, c2);
        }
        let mx = num.div_unchecked(&den, cs);
        let ghost c3 = *cs;
        proof {
            lemma_pt_wf_extend(*self, c2, c3);
        }
        let my = mx.div_unchecked(&self.x, cs);
        proof {
            crate::num::lemma_wf_extend(mx, c3, *cs);
            if old(cs).tracking() {
                lemma_e_to_m_compose(self.ptv(), Pt { x: mx.val(), y: my.val() });
            }
        }
        CMontgomeryPoint { x: mx, y: my }
    }

    /// Asserts membership in the prime-order subgroup: allocates a witness
    /// preimage, asserts it on the curve, multiplies it by the cofactor in
    /// circuit, and pins the result to this point.  When the system stays
    /// satisfiable the tracked point really is in the subgroup.
    pub fn assert_in_subgroup(&self, params: &JubJubBN256, cs: &mut CS)
        requires
            old(cs).wf(),
            self.wf(*old(cs)),
            params.wf(),
            old(cs).n_vars + 64 <= usize::MAX,
        ensures
            final(cs).wf(),
            final(cs).extends(*old(cs)),
            final(cs).n_vars <= old(cs).n_vars + 64,
            final(cs).sat() ==> old(cs).sat(),
            old(cs).tracking() && final(cs).sat() ==> in_subgroup(
                self.ptv(),
                params.edwards_d.as_nat(),
            ),
            ({
                let dn = params.edwards_d.as_nat();
                let q = e_mul(qs_inv8(), self.ptv(), dn);
                old(cs).sat() && old(cs).tracking() && on_curve(q, dn) && e_mul8_ok(q, dn)
                    && e_mul8(q, dn) == self.ptv() ==> final(cs).sat()
            }),
    {
        let d = params.edwards_d();
        let preimage_value = match self.get_value() {
            Some(pt) => {
                let k = crate::bn256::fs_inv8();
                proof {
                    crate::field::lemma_p_lt_pow2_254();
                }
                let bits = k.to_bits_le_total(254);
                Some(pt.mul_by_bits(&bits, &d))
            },
            None => None,
        };
        proof {
            if old(cs).tracking() {
                assert(preimage_value matches Some(pt) && pt.ptv() == e_mul(
                    qs_inv8(),
                    self.ptv(),
                    d.as_nat(),
                ));
            }
        }
        let ghost c0 = *cs;
        let preimage = CEdwardsPoint::allocate(
            cs,
            match &preimage_value {
                Some(pt) => Some(pt),
                None => None,
            },
        );
        let ghost c1 = *cs;
        proof {
            lemma_pt_wf_extend(*self, c0, c1);
        }
        preimage.assert_in_curve(params, cs);
        let ghost c2 = *cs;
        proof {
            lemma_pt_wf_extend(*self, c1, c2);
            lemma_pt_wf_extend(preimage, c1, c2);
        }
        let preimage8 = preimage.mul_by_cofactor(params, cs);
        let ghost c3 = *cs;
        proof {
            lemma_pt_wf_extend(*self, c2, c3);
        }
        self.assert_eq(&preimage8, cs);
        proof {
            if old(cs).tracking() && cs.sat() {
                assert(on_curve(preimage.ptv(), d.as_nat()));
                assert(e_mul8(preimage.ptv(), d.as_nat()) == self.ptv());
                crate::cs::lemma_eval_bound(preimage.x.lc, c1.asg());
                crate::cs::lemma_eval_bound(preimage.y.lc, c1.asg());
            }
        }
    }

    /// Recovers a subgroup point from the `x` coordinate signal: allocates a
    /// preimage from the native decompression, asserts it on the curve,
    /// multiplies by the cofactor and pins the `x` coordinate.  When the
    /// system stays satisfiable the result is a subgroup point whose first
    /// coordinate is the given signal.
    pub fn subgroup_decompress(x: &CNum, params: &JubJubBN256, cs: &mut CS) -> (z: CEdwardsPoint)
        requires
            old(cs).wf(),
            x.wf(*old(cs)),
            params.wf(),
            old(cs).n_vars + 64 <= usize::MAX,
        ensures
            final(cs).wf(),
            final(cs).extends(*old(cs)),
            final(cs).n_vars <= old(cs).n_vars + 64,
            z.wf(*final(cs)),
            final(cs).sat() ==> old(cs).sat(),
            old(cs).tracking() && final(cs).sat() ==> z.ptv().x == x.val() && in_subgroup(
                z.ptv(),
                params.edwards_d.as_nat(),
            ),
    {
        let d = params.edwards_d();
        let preimage_value = match x.get_value() {
            Some(xv) => {
                let pt = match EdwardsPoint::subgroup_decompress(&xv, params) {
                    Some(pt) => pt,
                    None => *params.edwards_g(),
                };
                let k = crate::bn256::fs_inv8();
                proof {
                    crate::field::lemma_p_lt_pow2_254();
                }
                let bits = k.to_bits_le_total(254);
                Some(pt.mul_by_bits(&bits, &d))
            },
            None => None,
        };
        let ghost c0 = *cs;
        let preimage = CEdwardsPoint::allocate(
            cs,
            match &preimage_value {
                Some(pt) => Some(pt),
                None => None,
            },
        );
        let ghost c1 = *cs;
        proof {
            crate::num::lemma_wf_extend(*x, c0, c1);
        }
        preimage.assert_in_curve(params, cs);
        let ghost c2 = *cs;
        proof {
            crate::num::lemma_wf_extend(*x, c1, c2);
            lemma_pt_wf_extend(preimage, c1, c2);
        }
        let preimage8 = preimage.mul_by_cofactor(params, cs);
        let ghost c3 = *cs;
        proof {
            crate::num::lemma_wf_extend(*x, c2, c3);
        }
        x.assert_eq(&preimage8.x, cs);
        proof {
            lemma_pt_wf_extend(preimage8, c3, *cs);
            if old(cs).tracking() && cs.sat() {
                assert(on_curve(preimage.ptv(), d.as_nat()));
                crate::cs::lemma_eval_bound(preimage.x.lc, c1.asg());
                crate::cs::lemma_eval_bound(preimage.y.lc, c1.asg());
            }
        }
        preimage8
    }
}

impl CMontgomeryPoint {
    /// Both coordinate signals are well-formed.
    pub open spec fn wf(self, cs: CS) -> bool {
        self.x.wf(cs) && self.y.wf(cs)
    }

    /// The witness coordinates as residues.
    pub open spec fn ptv(self) -> Pt {
        Pt { x: self.x.val(), y: self.y.val() }
    }

    /// A constant Montgomery point; allocates nothing.
    pub fn from_const_pair(cs: &CS, x: &Num, y: &Num) -> (z: CMontgomeryPoint)
        requires
            cs.wf(),
            x.wf(),
            y.wf(),
        ensures
            z.wf(*cs),
            z.ptv() == (Pt { x: x.as_nat(), y: y.as_nat() }),
    {
        CMontgomeryPoint { x: CNum::from_const(cs, x), y: CNum::from_const(cs, y) }
    }

    /// Ternary selection between Montgomery points, componentwise.
    pub fn switch(&self, bit: &CBool, if_else: &CMontgomeryPoint, cs: &mut CS) -> (z:
        CMontgomeryPoint)
        requires
            old(cs).wf(),
            self.wf(*old(cs)),
            bit.wf(*old(cs)),
            if_else.wf(*old(cs)),
            old(cs).n_vars + 8 <= usize::MAX,
        ensures
            final(cs).wf(),
            final(cs).extends(*old(cs)),
            final(cs).sat() == old(cs).sat(),
            final(cs).n_vars <= old(cs).n_vars + 8,
            z.wf(*final(cs)),
            old(cs).tracking() ==> z.ptv() == (if bit.bval() {
                self.ptv()
            } else {
                if_else.ptv()
            }),
    {
        let x = self.x.switch(bit, &if_else.x, cs);
        let ghost c1 = *cs;
        let y = self.y.switch(bit, &if_else.y, cs);
        CMontgomeryPoint { x, y }
    }

    /// The slope of the Montgomery doubling: `(3x^2 + 2Ax + 1) / (2By)`.
    fn double_slope(&self, params: &JubJubBN256, cs: &mut CS) -> (l: CNum)
        requires
            old(cs).wf(),
            self.wf(*old(cs)),
            params.wf(),
            old(cs).n_vars + 8 <= usize::MAX,
        ensures
            final(cs).wf(),
            final(cs).extends(*old(cs)),
            final(cs).n_vars <= old(cs).n_vars + 8,
            l.wf(*final(cs)),
            old(cs).tracking() ==> l.val() == fdiv(
                fadd(
                    fadd(
                        fmul(fmul(self.ptv().x, self.ptv().x), 3),
                        fmul(self.ptv().x, fmul(2, params.montgomery_a.as_nat())),
                    ),
                    1,
                ),
                fmul(self.ptv().y, fmul(2, params.montgomery_b.as_nat())),
            ),
            final(cs).sat() ==> old(cs).sat(),
            old(cs).sat() && (old(cs).tracking() ==> m_double_ok(
                self.ptv(),
                params.montgomery_b.as_nat(),
            )) ==> final(cs).sat(),
    {
        let a = params.montgomery_a();
        let b = params.montgomery_b();
        let one = Num::one();
        let two = Num::from_u64(2);
        let three = Num::from_u64(3);
        let ghost c0 = *cs;
        let x2 = self.x.mul(&self.x, cs);
        let ghost c1 = *cs;
        proof {
            lemma_mpt_wf_extend(*self, c0, c1);
        }
        let x2_3 = x2.mul_const(&three, cs);
        let ax2 = self.x.mul_const(&two.mul(&a), cs);
        let t0 = x2_3.add(&ax2, cs);
        let ghost c2 = *cs;
        proof {
            lemma_mpt_wf_extend(*self, c1, c2);
        }
        let onec = CNum::from_const(cs, &one);
        let num = t0.add(&onec, cs);
        let ghost c3 = *cs;
        proof {
            lemma_mpt_wf_extend(*self, c2, c3);
        }
        let den = self.y.mul_const(&two.mul(&b), cs);
        num.div_unchecked(&den, cs)
    }

    /// In-circuit Montgomery doubling; assumes `y != 0`.
    #[verifier::rlimit(100)]
    #[verifier::spinoff_prover]
    pub fn double(&self, params: &JubJubBN256, cs: &mut CS) -> (z: CMontgomeryPoint)
        requires
            old(cs).wf(),
            self.wf(*old(cs)),
            params.wf(),
            old(cs).n_vars + 16 <= usize::MAX,
        ensures
            final(cs).wf(),
            final(cs).extends(*old(cs)),
            final(cs).n_vars <= old(cs).n_vars + 16,
            z.wf(*final(cs)),
            old(cs).tracking() ==> z.ptv() == m_double(
                self.ptv(),
                params.montgomery_a.as_nat(),
                params.montgomery_b.as_nat(),
            ),
            final(cs).sat() ==> old(cs).sat(),
            old(cs).sat() && (old(cs).tracking() ==> m_double_ok(
                self.ptv(),
                params.montgomery_b.as_nat(),
            )) ==> final(cs).sat(),
    {
        let a = params.montgomery_a();
        let b = params.montgomery_b();
        let two = Num::from_u64(2);
        let three = Num::from_u64(3);
        let ghost c0 = *cs;
        let l = self.double_slope(params, cs);
        let ghost c1 = *cs;
        proof {
            lemma_mpt_wf_extend(*self, c0, c1);
        }
        let l2 = l.mul(&l, cs);
        let ghost c2 = *cs;
        proof {
            lemma_mpt_wf_extend(*self, c1, c2);
            crate::num::lemma_wf_extend(l, c1, c2);
        }
        let bl2 = l2.mul_const(&b, cs);
        let ac = CNum::from_const(cs, &a);
        let rx0 = bl2.sub(&ac, cs);
        let ghost c3 = *cs;
        proof {
            lemma_mpt_wf_extend(*self, c2, c3);
            crate::num::lemma_wf_extend(l, c2, c3);
            crate::num::lemma_wf_extend(bl2, c2, c3);
            crate::num::lemma_wf_extend(ac, c2, c3);
        }
        let x_2 = self.x.mul_const(&two, cs);
        let rx = rx0.sub(&x_2, cs);
        let ghost c4 = *cs;
        proof {
            lemma_mpt_wf_extend(*self, c3, c4);
            crate::num::lemma_wf_extend(l, c3, c4);
            crate::num::lemma_wf_extend(bl2, c3, c4);
            crate::num::lemma_wf_extend(ac, c3, c4);
        }
        let x_3 = self.x.mul_const(&three, cs);
        let t1 = x_3.add(&ac, cs);
        let ghost c5 = *cs;
        proof {
            lemma_mpt_wf_extend(*self, c4, c5);
            crate::num::lemma_wf_extend(l, c4, c5);
            crate::num::lemma_wf_extend(bl2, c4, c5);
            crate::num::lemma_wf_extend(rx, c4, c5);
        }
        let t2 = t1.sub(&bl2, cs);
        let ghost c6 = *cs;
        proof {
            lemma_mpt_wf_extend(*self, c5, c6);
            crate::num::lemma_wf_extend(l, c5, c6);
            crate::num::lemma_wf_extend(rx, c5, c6);
        }
        let t3 = l.mul(&t2, cs);
        let ghost c7 = *cs;
        proof {
            lemma_mpt_wf_extend(*self, c6, c7);
            crate::num::lemma_wf_extend(rx, c6, c7);
        }
        let ry = t3.sub(&self.y, cs);
        proof {
            crate::num::lemma_wf_extend(rx, c7, *cs);
            if old(cs).tracking() {
                lemma_m_double_compose(
                    self.ptv(),
                    params.montgomery_a.as_nat(),
                    params.montgomery_b.as_nat(),
                    Pt { x: rx.val(), y: ry.val() },
                );
            }
        }
        CMontgomeryPoint { x: rx, y: ry }
    }

    /// The chord slope between two Montgomery points:
    /// `(y2 - y1) / (x2 - x1)`.
    fn add_slope(&self, other: &CMontgomeryPoint, cs: &mut CS) -> (l: CNum)
        requires
            old(cs).wf(),
            self.wf(*old(cs)),
            other.wf(*old(cs)),
            old(cs).n_vars + 4 <= usize::MAX,
        ensures
            final(cs).wf(),
            final(cs).extends(*old(cs)),
            final(cs).n_vars <= old(cs).n_vars + 4,
            l.wf(*final(cs)),
            old(cs).tracking() ==> l.val() == fdiv(
                fsub(other.ptv().y, self.ptv().y),
                fsub(other.ptv().x, self.ptv().x),
            ),
            final(cs).sat() ==> old(cs).sat(),
            old(cs).sat() && (old(cs).tracking() ==> m_add_ok(self.ptv(), other.ptv()))
                ==> final(cs).sat(),
    {
        let ghost c0 = *cs;
        let dy = other.y.sub(&self.y, cs);
        let ghost c1 = *cs;
        proof {
            lemma_mpt_wf_extend(*self, c0, c1);
            lemma_mpt_wf_extend(*other, c0, c1);
        }
        let dx = other.x.sub(&self.x, cs);
        let ghost c2 = *cs;
        proof {
            crate::num::lemma_wf_extend(dy, c1, c2);
        }
        dy.div_unchecked(&dx, cs)
    }

    /// The `B l^2` term and the abscissa `B l^2 - A - x1 - x2` of the chord
    /// construction.
    fn add_xpart(&self, other: &CMontgomeryPoint, l: &CNum, params: &JubJubBN256, cs: &mut CS) -> (r: (
        CNum,
        CNum,
    ))
        requires
            old(cs).wf(),
            self.wf(*old(cs)),
            other.wf(*old(cs)),
            l.wf(*old(cs)),
            params.wf(),
            old(cs).n_vars + 6 <= usize::MAX,
        ensures
            final(cs).wf(),
            final(cs).extends(*old(cs)),
            final(cs).n_vars <= old(cs).n_vars + 6,
            r.0.wf(*final(cs)),
            r.1.wf(*final(cs)),
            old(cs).tracking() ==> {
                let bl2 = fmul(fmul(l.val(), l.val()), params.montgomery_b.as_nat());
                &&& r.0.val() == bl2
                &&& r.1.val() == fsub(
                    fsub(fsub(bl2, params.montgomery_a.as_nat()), self.ptv().x),
                    other.ptv().x,
                )
            },
            final(cs).sat() == old(cs).sat(),
    {
        let a = params.montgomery_a();
        let b = params.montgomery_b();
        let ghost c0 = *cs;
        let l2 = l.mul(l, cs);
        let ghost c1 = *cs;
        proof {
            lemma_mpt_wf_extend(*self, c0, c1);
            lemma_mpt_wf_extend(*other, c0, c1);
        }
        let bl2 = l2.mul_const(&b, cs);
        let ac = CNum::from_const(cs, &a);
        let t0 = bl2.sub(&ac, cs);
        let ghost c2 = *cs;
        proof {
            lemma_mpt_wf_extend(*self, c1, c2);
            lemma_mpt_wf_extend(*other, c1, c2);
            crate::num::lemma_wf_extend(bl2, c1, c2);
        }
        let t1 = t0.sub(&self.x, cs);
        let ghost c3 = *cs;
        proof {
            lemma_mpt_wf_extend(*other, c2, c3);
            crate::num::lemma_wf_extend(bl2, c2, c3);
        }
        let rx = t1.sub(&other.x, cs);
        proof {
            crate::num::lemma_wf_extend(bl2, c3, *cs);
        }
        (bl2, rx)
    }

    /// In-circuit Montgomery addition; assumes distinct points.
    #[verifier::rlimit(100)]
    pub fn add(&self, other: &CMontgomeryPoint, params: &JubJubBN256, cs: &mut CS) -> (z:
        CMontgomeryPoint)
        requires
            old(cs).wf(),
            self.wf(*old(cs)),
            other.wf(*old(cs)),
            params.wf(),
            old(cs).n_vars + 16 <= usize::MAX,
        ensures
            final(cs).wf(),
            final(cs).extends(*old(cs)),
            final(cs).n_vars <= old(cs).n_vars + 16,
            z.wf(*final(cs)),
            old(cs).tracking() ==> z.ptv() == m_add(
                self.ptv(),
                other.ptv(),
                params.montgomery_a.as_nat(),
                params.montgomery_b.as_nat(),
            ),
            final(cs).sat() ==> old(cs).sat(),
    {
        let a = params.montgomery_a();
        let two = Num::from_u64(2);
        let ghost c0 = *cs;
        let l = self.add_slope(other, cs);
        let ghost c1 = *cs;
        proof {
            lemma_mpt_wf_extend(*self, c0, c1);
            lemma_mpt_wf_extend(*other, c0, c1);
        }
        let parts = self.add_xpart(other, &l, params, cs);
        let (bl2, rx) = parts;
        let ghost c2 = *cs;
        proof {
            lemma_mpt_wf_extend(*self, c1, c2);
            lemma_mpt_wf_extend(*other, c1, c2);
            crate::num::lemma_wf_extend(l, c1, c2);
        }
        let x1_2 = self.x.mul_const(&two, cs);
        let t2 = x1_2.add(&other.x, cs);
        let ghost c3 = *cs;
        proof {
            lemma_mpt_wf_extend(*self, c2, c3);
            crate::num::lemma_wf_extend(l, c2, c3);
            crate::num::lemma_wf_extend(bl2, c2, c3);
            crate::num::lemma_wf_extend(rx, c2, c3);
        }
        let ac = CNum::from_const(cs, &a);
        let t3 = t2.add(&ac, cs);
        let ghost c4 = *cs;
        proof {
            lemma_mpt_wf_extend(*self, c3, c4);
            crate::num::lemma_wf_extend(l, c3, c4);
            crate::num::lemma_wf_extend(bl2, c3, c4);
            crate::num::lemma_wf_extend(rx, c3, c4);
        }
        let t4 = t3.sub(&bl2, cs);
        let ghost c5 = *cs;
        proof {
            lemma_mpt_wf_extend(*self, c4, c5);
            crate::num::lemma_wf_extend(l, c4, c5);
            crate::num::lemma_wf_extend(rx, c4, c5);
        }
        let t5 = l.mul(&t4, cs);
        let ghost c6 = *cs;
        proof {
            lemma_mpt_wf_extend(*self, c5, c6);
            crate::num::lemma_wf_extend(rx, c5, c6);
        }
        let ry = t5.sub(&self.y, cs);
        proof {
            crate::num::lemma_wf_extend(rx, c6, *cs);
            if old(cs).tracking() {
                lemma_m_add_compose(
                    self.ptv(),
                    other.ptv(),
                    params.montgomery_a.as_nat(),
                    params.montgomery_b.as_nat(),
                    Pt { x: rx.val(), y: ry.val() },
                );
            }
        }
        CMontgomeryPoint { x: rx, y: ry }
    }

    /// Conversion back to Edwards form, with the zero-test nudge in the
    /// divisor so the sentinel `(0, 0)` maps to the Edwards `(0, -1)`.
    #[verifier::rlimit(100)]
    #[verifier::spinoff_prover]
    pub fn into_edwards(&self, cs: &mut CS) -> (z: CEdwardsPoint)
        requires
            old(cs).wf(),
            self.wf(*old(cs)),
            old(cs).n_vars + 16 <= usize::MAX,
        ensures
            final(cs).wf(),
            final(cs).extends(*old(cs)),
            final(cs).n_vars <= old(cs).n_vars + 16,
            z.wf(*final(cs)),
            old(cs).tracking() ==> z.ptv() == m_to_e(self.ptv()),
            final(cs).sat() ==> old(cs).sat(),
            old(cs).sat() && (old(cs).tracking() ==> m_to_e_ok(self.ptv())) ==> final(cs).sat(),
    {
        let one = Num::one();
        let ghost c0 = *cs;
        let y_is_zero = self.y.is_zero(cs);
        let ghost c1 = *cs;
        proof {
            lemma_mpt_wf_extend(*self, c0, c1);
        }
        let den_x = self.y.add(&y_is_zero.0, cs);
        let ghost c2 = *cs;
        proof {
            lemma_mpt_wf_extend(*self, c1, c2);
        }
        let ex = self.x.div_unchecked(&den_x, cs);
        let ghost c3 = *cs;
        proof {
            lemma_mpt_wf_extend(*self, c2, c3);
        }
        let onec = CNum::from_const(cs, &one);
        let num_y = self.x.sub(&onec, cs);
        let ghost c4 = *cs;
        proof {
            lemma_mpt_wf_extend(*self, c3, c4);
            crate::num::lemma_wf_extend(ex, c3, c4);
            crate::num::lemma_wf_extend(onec, c3, c4);
        }
        let den_y = self.x.add(&onec, cs);
        let ghost c5 = *cs;
        proof {
            crate::num::lemma_wf_extend(ex, c4, c5);
            crate::num::lemma_wf_extend(num_y, c4, c5);
        }
        let ey = num_y.div_unchecked(&den_y, cs);
        proof {
            crate::num::lemma_wf_extend(ex, c5, *cs);
            if old(cs).tracking() {
                lemma_m_to_e_compose(self.ptv(), Pt { x: ex.val(), y: ey.val() });
                if self.ptv().y != 0 {
                    crate::field::lemma_fadd_zero(self.ptv().y);
                }
            }
        }
        CEdwardsPoint { x: ex, y: ey }
    }

    /// Appends both coordinate signals to a flat list.
    pub fn linearize_builder(&self, acc: &mut Vec<CNum>)
        ensures
            final(acc)@ == old(acc)@.push(self.x).push(self.y),
    {
        self.x.linearize_builder(acc);
        self.y.linearize_builder(acc);
    }
}

/// A well-formed Montgomery point stays well-formed as the system grows.
pub proof fn lemma_mpt_wf_extend(pt: CMontgomeryPoint, c1: CS, c2: CS)
    requires
        pt.wf(c1),
        c1.wf(),
        c2.extends(c1),
    ensures
        pt.wf(c2),
{
    crate::num::lemma_wf_extend(pt.x, c1, c2);
    crate::num::lemma_wf_extend(pt.y, c1, c2);
}

/// Assembling the Montgomery doubling parts gives exactly `m_double`.
proof fn lemma_m_double_compose(pt: Pt, a: nat, b: nat, q: Pt)
    requires
        ({
            let x2 = fmul(pt.x, pt.x);
            let l = fdiv(
                fadd(fadd(fmul(x2, 3), fmul(pt.x, fmul(2, a))), 1),
                fmul(pt.y, fmul(2, b)),
            );
            let bl2 = fmul(fmul(l, l), b);
            q.x == fsub(fsub(bl2, a), fmul(pt.x, 2)) && q.y == fsub(
                fmul(l, fsub(fadd(fmul(pt.x, 3), a), bl2)),
                pt.y,
            )
        }),
    ensures
        q == m_double(pt, a, b),
{
    reveal(m_double);
}

/// Assembling the Montgomery addition parts gives exactly `m_add`.
proof fn lemma_m_add_compose(pt1: Pt, pt2: Pt, a: nat, b: nat, q: Pt)
    requires
        ({
            let l = fdiv(fsub(pt2.y, pt1.y), fsub(pt2.x, pt1.x));
            let bl2 = fmul(fmul(l, l), b);
            q.x == fsub(fsub(fsub(bl2, a), pt1.x), pt2.x) && q.y == fsub(
                fmul(l, fsub(fadd(fadd(fmul(pt1.x, 2), pt2.x), a), bl2)),
                pt1.y,
            )
        }),
    ensures
        q == m_add(pt1, pt2, a, b),
{
    reveal(m_add);
}

/// Assembling the Montgomery-to-Edwards parts gives exactly `m_to_e`.
proof fn lemma_m_to_e_compose(pt: Pt, q: Pt)
    requires
        ({
            let t: nat = if pt.y == 0 {
                1
            } else {
                0
            };
            q.x == fdiv(pt.x, fadd(pt.y, t)) && q.y == fdiv(fsub(pt.x, 1), fadd(pt.x, 1))
        }),
    ensures
        q == m_to_e(pt),
{
    reveal(m_to_e);
}

/// Assembling the Edwards-to-Montgomery parts gives exactly `e_to_m`.
proof fn lemma_e_to_m_compose(pt: Pt, q: Pt)
    requires
        q.x == fdiv(fadd(1, pt.y), fsub(1, pt.y)),
        q.y == fdiv(fdiv(fadd(1, pt.y), fsub(1, pt.y)), pt.x),
    ensures
        q == e_to_m(pt),
{
    reveal(e_to_m);
}


/// A vector of Montgomery point signals, all well-formed for the system.
#[verifier::opaque]
pub open spec fn mpts_wf(pts: Seq<CMontgomeryPoint>, cs: CS) -> bool {
    forall|j: int| 0 <= j < pts.len() ==> (#[trigger] pts[j]).wf(cs)
}

/// The empty vector is well-formed.
proof fn lemma_mpts_wf_empty(pts: Seq<CMontgomeryPoint>, cs: CS)
    requires
        pts.len() == 0,
    ensures
        mpts_wf(pts, cs),
{
    reveal(mpts_wf);
}

/// One point of a well-formed vector.
proof fn lemma_mpts_wf_index(pts: Seq<CMontgomeryPoint>, cs: CS, j: int)
    requires
        mpts_wf(pts, cs),
        0 <= j < pts.len(),
    ensures
        pts[j].wf(cs),
{
    reveal(mpts_wf);
}

/// Appending a well-formed point keeps the vector well-formed.
proof fn lemma_mpts_wf_push(prev: Seq<CMontgomeryPoint>, q: CMontgomeryPoint, cur: Seq<CMontgomeryPoint>, cs: CS)
    requires
        mpts_wf(prev, cs),
        q.wf(cs),
        cur == prev.push(q),
    ensures
        mpts_wf(cur, cs),
{
    reveal(mpts_wf);
    assert forall|j: int| 0 <= j < cur.len() implies (#[trigger] cur[j]).wf(cs) by {
        if j < prev.len() {
            assert(cur[j] == prev[j]);
        } else {
            assert(cur[j] == q);
        }
    }
}

/// The points stay well-formed as the system grows.
proof fn lemma_mpts_wf_extend(pts: Seq<CMontgomeryPoint>, c1: CS, c2: CS)
    requires
        mpts_wf(pts, c1),
        c1.wf(),
        c2.extends(c1),
    ensures
        mpts_wf(pts, c2),
{
    reveal(mpts_wf);
    assert forall|j: int| 0 <= j < pts.len() implies (#[trigger] pts[j]).wf(c2) by {
        lemma_mpt_wf_extend(pts[j], c1, c2);
    }
}

/// The negated Montgomery sentinel `(0, 0)` comes back from the Edwards
/// conversion as the identity.
proof fn lemma_sentinel_to_id()
    ensures
        fneg(m_to_e(Pt { x: 0, y: 0 }).x) == 0,
        fneg(m_to_e(Pt { x: 0, y: 0 }).y) == 1,
{
    reveal(m_to_e);
    crate::field::lemma_fm_small(0);
    crate::field::lemma_fm_small(1);
    crate::field::lemma_finv_one();
    assert(fadd(0, 1) == 1);
    assert(fdiv(0, 1) == 0) by {
        crate::field::lemma_fmul_zero(finv(1));
    }
    assert(fneg(0) == 0) by {
        crate::field::lemma_fm_small(0);
    }
    let m = fsub(0, 1);
    assert(fdiv(m, 1) == m) by {
        crate::field::lemma_f_bounds(0, 1);
        crate::field::lemma_fmul_unit(m);
    }
    assert(fneg(m) == 1) by {
        crate::field::lemma_fm_sub_r(0, -1);
        crate::field::lemma_fm_small(1);
    }
}

impl CEdwardsPoint {
    /// Scalar multiplication by a little-endian bit string, for a subgroup
    /// point base.  A constant base uses fixed-base windowed lookup tables
    /// in Montgomery form with an additive offset that avoids the identity;
    /// a variable base uses a ladder over Montgomery form with a `(0, 0)`
    /// sentinel standing in for the identity.  Multiplying the identity
    /// yields the identity whatever the bits say.
    #[verifier::rlimit(100)]
    #[verifier::spinoff_prover]
    pub fn mul(&self, bits: &Vec<CBool>, params: &JubJubBN256, cs: &mut CS) -> (z: CEdwardsPoint)
        requires
            old(cs).wf(),
            self.wf(*old(cs)),
            crate::bitify::bits_wf(bits@, *old(cs)),
            params.wf(),
            old(cs).n_vars + 200 * bits@.len() + 2000 <= usize::MAX,
        ensures
            final(cs).wf(),
            final(cs).extends(*old(cs)),
            z.wf(*final(cs)),
            final(cs).sat() ==> old(cs).sat(),
            old(cs).tracking() && !(self.x.lc.is_const() && self.y.lc.is_const()) ==> z.ptv()
                == mul_var_spec(
                self.ptv(),
                bvals(bits@),
                params.edwards_g.ptv(),
                params.montgomery_a.as_nat(),
                params.montgomery_b.as_nat(),
            ),
            old(cs).tracking() && self.x.lc.is_const() && self.y.lc.is_const() ==> z.ptv() == (
            if self.ptv() == e_id() {
                e_id()
            } else {
                mul_const_spec(
                    self.ptv(),
                    bvals(bits@),
                    params.montgomery_a.as_nat(),
                    params.montgomery_b.as_nat(),
                    params.edwards_d.as_nat(),
                )
            }),
            old(cs).tracking() && !(self.x.lc.is_const() && self.y.lc.is_const())
                && self.ptv().x == 0 ==> z.ptv() == e_id(),
            old(cs).tracking() && self.x.lc.is_const() && self.y.lc.is_const() && self.ptv()
                == e_id() ==> z.ptv() == e_id(),
    {
        let xc = self.x.as_const();
        let yc = self.y.as_const();
        match (xc, yc) {
            (Some(bx), Some(by)) => {
                let base_n = EdwardsPoint { x: bx, y: by };
                proof {
                    if cs.tracking() {
                        crate::num::lemma_const_eval(self.x.lc, cs.asg());
                        crate::num::lemma_const_eval(self.y.lc, cs.asg());
                    }
                }
                if base_n.is_zero() {
                    let id = EdwardsPoint::zero();
                    return CEdwardsPoint::from_const(cs, &id);
                }
                self.mul_const_base(&base_n, bits, params, cs)
            },
            _ => self.mul_var_base(bits, params, cs),
        }
    }

    /// The variable-base regime: a ladder in Montgomery form, with the
    /// identity handled by switching a zero base to the generator on the
    /// way in and back to the `(0, 0)` sentinel on the way out.
    #[verifier::rlimit(100)]
    #[verifier::spinoff_prover]
    fn mul_var_base(&self, bits: &Vec<CBool>, params: &JubJubBN256, cs: &mut CS) -> (z:
        CEdwardsPoint)
        requires
            old(cs).wf(),
            self.wf(*old(cs)),
            crate::bitify::bits_wf(bits@, *old(cs)),
            params.wf(),
            old(cs).n_vars + 200 * bits@.len() + 1500 <= usize::MAX,
        ensures
            final(cs).wf(),
            final(cs).extends(*old(cs)),
            z.wf(*final(cs)),
            final(cs).sat() ==> old(cs).sat(),
            old(cs).tracking() ==> z.ptv() == mul_var_spec(
                self.ptv(),
                bvals(bits@),
                params.edwards_g.ptv(),
                params.montgomery_a.as_nat(),
                params.montgomery_b.as_nat(),
            ),
            old(cs).tracking() && self.ptv().x == 0 ==> z.ptv() == e_id(),
    {
        let d = params.edwards_d();
        let ghost c0 = *cs;
        let zero = Num::zero();
        let base_is_zero = self.x.is_zero(cs);
        let ghost c1 = *cs;
        proof {
            lemma_pt_wf_extend(*self, c0, c1);
            crate::bitify::lemma_bits_wf_extend_bools(bits@, c0, c1);
        }
        let dummy = CEdwardsPoint::from_const(cs, params.edwards_g());
        let base_pt = dummy.switch(&base_is_zero, self, cs);
        let ghost c2 = *cs;
        proof {
            crate::cs::lemma_extends_trans(c2, c1, c0);
            crate::bitify::lemma_bits_wf_extend_bools(bits@, c1, c2);
            crate::boolean::lemma_bool_wf_extend(base_is_zero, c1, c2);
        }
        let m = base_pt.into_montgomery(cs);
        let ghost c3 = *cs;
        proof {
            crate::cs::lemma_extends_trans(c3, c2, c0);
            crate::bitify::lemma_bits_wf_extend_bools(bits@, c2, c3);
            crate::boolean::lemma_bool_wf_extend(base_is_zero, c2, c3);
        }
        let exponents = ladder_exponents(&m, bits.len(), params, cs);
        let ghost c4 = *cs;
        proof {
            crate::cs::lemma_extends_trans(c4, c3, c0);
            crate::bitify::lemma_bits_wf_extend_bools(bits@, c3, c4);
            crate::boolean::lemma_bool_wf_extend(base_is_zero, c3, c4);
        }
        let empty_acc = CMontgomeryPoint::from_const_pair(cs, &zero, &zero);
        let acc = ladder_fold(&empty_acc, &exponents, bits, Ghost(m.ptv()), params, cs);
        let ghost c5 = *cs;
        proof {
            crate::cs::lemma_extends_trans(c5, c4, c0);
            crate::boolean::lemma_bool_wf_extend(base_is_zero, c4, c5);
            lemma_mpt_wf_extend(empty_acc, c4, c5);
        }
        let acc2 = empty_acc.switch(&base_is_zero, &acc, cs);
        let ghost c6 = *cs;
        proof {
            crate::cs::lemma_extends_trans(c6, c5, c0);
        }
        let res = acc2.into_edwards(cs);
        let ghost c7 = *cs;
        proof {
            crate::cs::lemma_extends_trans(c7, c6, c0);
        }
        let rx = res.x.neg(cs);
        let ry = res.y.neg(cs);
        proof {
            if old(cs).tracking() {
                if self.ptv().x == 0 {
                    assert(acc2.ptv() == (Pt { x: 0, y: 0 }));
                    lemma_sentinel_to_id();
                } else {
                    assert(base_pt.ptv() == self.ptv());
                    assert(m.ptv() == e_to_m(self.ptv()));
                    assert(acc2.ptv() == m_ladder(
                        bvals(bits@),
                        e_to_m(self.ptv()),
                        Pt { x: 0, y: 0 },
                        params.montgomery_a.as_nat(),
                        params.montgomery_b.as_nat(),
                    ));
                }
            }
        }
        CEdwardsPoint { x: rx, y: ry }
    }

    /// The fixed-base windowed regime: three bits a window, a lookup table
    /// of eight multiples per window, and an additive offset chosen so the
    /// Montgomery accumulator never passes through the identity.
    #[verifier::rlimit(100)]
    #[verifier::spinoff_prover]
    fn mul_const_base(
        &self,
        base_n: &EdwardsPoint,
        bits: &Vec<CBool>,
        params: &JubJubBN256,
        cs: &mut CS,
    ) -> (z: CEdwardsPoint)
        requires
            old(cs).wf(),
            base_n.wf(),
            crate::bitify::bits_wf(bits@, *old(cs)),
            params.wf(),
            old(cs).n_vars + 200 * bits@.len() + 1500 <= usize::MAX,
        ensures
            final(cs).wf(),
            final(cs).extends(*old(cs)),
            z.wf(*final(cs)),
            final(cs).sat() ==> old(cs).sat(),
            old(cs).tracking() ==> z.ptv() == mul_const_spec(
                base_n.ptv(),
                bvals(bits@),
                params.montgomery_a.as_nat(),
                params.montgomery_b.as_nat(),
                params.edwards_d.as_nat(),
            ),
    {
        let d = params.edwards_d();
        let zero = Num::zero();
        let ghost c0 = *cs;
        let ghost an = params.montgomery_a.as_nat();
        let ghost bn = params.montgomery_b.as_nat();
        let ghost dn = params.edwards_d.as_nat();
        let zeros_len = (2 * (bits.len() % 3)) % 3;
        let mut all_bits: Vec<CBool> = Vec::new();
        proof {
            crate::bitify::lemma_bits_wf_empty_bools(all_bits@, *cs);
        }
        let mut i: usize = 0;
        while i < bits.len()
            invariant
                0 <= i <= bits@.len(),
                all_bits.len() == i,
                all_bits@ == bits@.take(i as int),
                cs.wf(),
                crate::bitify::bits_wf(bits@, *cs),
                crate::bitify::bits_wf(all_bits@, *cs),
            decreases bits@.len() - i,
        {
            proof {
                crate::bitify::lemma_bits_wf_index_bools(bits@, *cs, i as int);
                crate::bitify::lemma_bits_wf_push_bools(
                    all_bits@,
                    bits[i as int],
                    all_bits@.push(bits[i as int]),
                    *cs,
                );
                assert(all_bits@.push(bits@[i as int]) =~= bits@.take(i as int + 1));
            }
            let b = bits[i];
            all_bits.push(b);
            i = i + 1;
        }
        proof {
            assert(all_bits@ =~= bits@);
        }
        let mut k: usize = 0;
        while k < zeros_len
            invariant
                0 <= k <= zeros_len,
                zeros_len < 3,
                all_bits.len() == bits@.len() + k,
                bvals(all_bits@) == bvals(bits@) + Seq::new(k as nat, |i: int| false),
                cs.wf(),
                crate::bitify::bits_wf(all_bits@, *cs),
            decreases zeros_len - k,
        {
            let fc = CBool::from_const(cs, &false);
            proof {
                crate::bitify::lemma_bits_wf_push_bools(
                    all_bits@,
                    fc,
                    all_bits@.push(fc),
                    *cs,
                );
                lemma_bvals_push(all_bits@, fc);
                assert(bvals(all_bits@).push(false) =~= bvals(bits@) + Seq::new(
                    (k + 1) as nat,
                    |i: int| false,
                ));
            }
            all_bits.push(fc);
            k = k + 1;
        }
        let ghost kb = bvals(all_bits@);
        proof {
            assert(bvals(bits@) =~= bvals(bits@) + Seq::new(0nat, |i: int| false));
            assert(kb =~= pad_bits(bvals(bits@)));
        }
        let nwindows = all_bits.len() / 3;
        let mut acc_n = EdwardsPoint { x: Num::zero(), y: Num::minusone() };
        proof {
            crate::field::lemma_f_bounds(0, 1);
        }
        let mut base2 = *base_n;
        let mut w: usize = 0;
        while w < nwindows
            invariant
                0 <= w <= nwindows,
                acc_n.wf(),
                base2.wf(),
                d.wf(),
                dn == d.as_nat(),
                offset_acc(nwindows - w, base2.ptv(), acc_n.ptv(), dn) == offset_acc(
                    nwindows as int,
                    base_n.ptv(),
                    Pt { x: 0, y: fsub(0, 1) },
                    dn,
                ),
            decreases nwindows - w,
        {
            acc_n = acc_n.add(&base2, &d);
            base2 = base2.mul_by_cofactor(&d);
            w = w + 1;
        }
        let ghost offv = offset_acc(nwindows as int, base_n.ptv(), Pt { x: 0, y: fsub(0, 1) }, dn);
        let acc_neg = EdwardsPoint { x: acc_n.x.negate(), y: acc_n.y };
        proof {
            assert(acc_neg.ptv() == (Pt { x: fneg(offv.x), y: offv.y }));
        }
        let (m0x, m0y) = match acc_neg.into_montgomery() {
            Some(mp) => (mp.x, mp.y),
            None => (Num::zero(), Num::zero()),
        };
        let ghost m0v = e_to_m_tot(Pt { x: fneg(offv.x), y: offv.y });
        proof {
            assert(m0x.as_nat() == m0v.x && m0y.as_nat() == m0v.y);
        }
        let mut macc = CMontgomeryPoint::from_const_pair(cs, &m0x, &m0y);
        let mut base3 = *base_n;
        let mut w2: usize = 0;
        let ghost cl = *cs;
        while w2 < nwindows
            invariant
                0 <= w2 <= nwindows,
                nwindows * 3 == all_bits@.len(),
                all_bits@.len() <= bits@.len() + 3,
                kb == bvals(all_bits@),
                an == params.montgomery_a.as_nat(),
                bn == params.montgomery_b.as_nat(),
                dn == params.edwards_d.as_nat(),
                cs.wf(),
                cs.extends(cl),
                cl.wf(),
                macc.wf(*cs),
                base3.wf(),
                d.wf(),
                dn == d.as_nat(),
                params.wf(),
                crate::bitify::bits_wf(all_bits@, *cs),
                cs.n_vars <= cl.n_vars + 100 * w2,
                cl.n_vars + 150 * (bits@.len() + 3) + 500 <= usize::MAX,
                cs.sat() ==> cl.sat(),
                cs.tracking() == cl.tracking(),
                cl.tracking() ==> window_fold(
                    kb,
                    w2 as int,
                    nwindows as int,
                    base3.ptv(),
                    macc.ptv(),
                    an,
                    bn,
                    dn,
                ) == window_fold(kb, 0, nwindows as int, base_n.ptv(), m0v, an, bn, dn),
            decreases nwindows - w2,
        {
            let mut tx: Vec<Num> = Vec::new();
            let mut ty: Vec<Num> = Vec::new();
            let mut q = base3;
            let mut t: usize = 0;
            while t < 8
                invariant
                    0 <= t <= 8,
                    tx.len() == t,
                    ty.len() == t,
                    q.wf(),
                    base3.wf(),
                    d.wf(),
                    dn == d.as_nat(),
                    q.ptv() == table_mult(base3.ptv(), t as int, dn),
                    forall|u: int| 0 <= u < t ==> (#[trigger] tx[u]).wf(),
                    forall|u: int| 0 <= u < t ==> (#[trigger] ty[u]).wf(),
                    forall|u: int|
                        0 <= u < t ==> (#[trigger] tx@[u]).as_nat() == window_sel(
                            base3.ptv(),
                            u,
                            dn,
                        ).x,
                    forall|u: int|
                        0 <= u < t ==> (#[trigger] ty@[u]).as_nat() == window_sel(
                            base3.ptv(),
                            u,
                            dn,
                        ).y,
                decreases 8 - t,
            {
                match q.into_montgomery() {
                    Some(mp) => {
                        tx.push(mp.x);
                        ty.push(mp.y);
                    },
                    None => {
                        tx.push(Num::zero());
                        ty.push(Num::zero());
                    },
                }
                q = q.add(&base3, &d);
                t = t + 1;
            }
            let ghost cp = *cs;
            proof {
                crate::bitify::lemma_bits_wf_index_bools(all_bits@, *cs, 3 * w2 as int);
                crate::bitify::lemma_bits_wf_index_bools(all_bits@, *cs, 3 * w2 as int + 1);
                crate::bitify::lemma_bits_wf_index_bools(all_bits@, *cs, 3 * w2 as int + 2);
            }
            let b0 = all_bits[3 * w2];
            let b1 = all_bits[3 * w2 + 1];
            let b2 = all_bits[3 * w2 + 2];
            let selx = crate::mux::c_mux3(&b0, &b1, &b2, &tx, cs);
            let ghost ci = *cs;
            proof {
                crate::cs::lemma_extends_trans(ci, cp, cl);
                lemma_mpt_wf_extend(macc, cp, ci);
                crate::bitify::lemma_bits_wf_extend_bools(all_bits@, cp, ci);
                crate::boolean::lemma_bool_wf_extend(b0, cp, ci);
                crate::boolean::lemma_bool_wf_extend(b1, cp, ci);
                crate::boolean::lemma_bool_wf_extend(b2, cp, ci);
            }
            let sely = crate::mux::c_mux3(&b0, &b1, &b2, &ty, cs);
            let ghost cj = *cs;
            proof {
                crate::cs::lemma_extends_trans(cj, ci, cl);
                lemma_mpt_wf_extend(macc, ci, cj);
                crate::bitify::lemma_bits_wf_extend_bools(all_bits@, ci, cj);
                crate::num::lemma_wf_extend(selx, ci, cj);
            }
            let mpt = CMontgomeryPoint { x: selx, y: sely };
            let ghost old_macc = macc;
            macc = macc.add(&mpt, params, cs);
            proof {
                crate::cs::lemma_extends_trans(*cs, cj, cl);
                crate::bitify::lemma_bits_wf_extend_bools(all_bits@, cj, *cs);
                if cl.tracking() {
                    assert(kb[3 * w2 as int] == all_bits@[3 * w2 as int].bval());
                    assert(kb[3 * w2 as int + 1] == all_bits@[3 * w2 as int + 1].bval());
                    assert(kb[3 * w2 as int + 2] == all_bits@[3 * w2 as int + 2].bval());
                    assert(mpt.ptv() == window_sel(
                        base3.ptv(),
                        crate::mux::mux3_index(
                            kb[3 * w2 as int],
                            kb[3 * w2 as int + 1],
                            kb[3 * w2 as int + 2],
                        ),
                        dn,
                    ));
                    assert(macc.ptv() == m_add(
                        old_macc.ptv(),
                        window_sel(
                            base3.ptv(),
                            crate::mux::mux3_index(
                                kb[3 * w2 as int],
                                kb[3 * w2 as int + 1],
                                kb[3 * w2 as int + 2],
                            ),
                            dn,
                        ),
                        an,
                        bn,
                    ));
                }
            }
            base3 = base3.mul_by_cofactor(&d);
            w2 = w2 + 1;
        }
        let ghost c8 = *cs;
        let res = macc.into_edwards(cs);
        let ghost c9 = *cs;
        proof {
            crate::cs::lemma_extends_trans(c9, c8, c0);
        }
        let rx = res.x.neg(cs);
        let ry = res.y.neg(cs);
        proof {
            if old(cs).tracking() {
                assert(macc.ptv() == window_fold(
                    kb,
                    0,
                    nwindows as int,
                    base_n.ptv(),
                    m0v,
                    an,
                    bn,
                    dn,
                ));
            }
        }
        CEdwardsPoint { x: rx, y: ry }
    }
}

/// The successive Montgomery doublings `2^i * base` used by the ladder.
#[verifier::rlimit(100)]
#[verifier::spinoff_prover]
fn ladder_exponents(m: &CMontgomeryPoint, n: usize, params: &JubJubBN256, cs: &mut CS) -> (r: Vec<
    CMontgomeryPoint,
>)
    requires
        old(cs).wf(),
        m.wf(*old(cs)),
        params.wf(),
        old(cs).n_vars + 20 * (n as int) + 100 <= usize::MAX,
    ensures
        final(cs).wf(),
        final(cs).extends(*old(cs)),
        final(cs).n_vars <= old(cs).n_vars + 20 * (n as int) + 100,
        r.len() == (if n == 0 {
            1int
        } else {
            n as int
        }),
        mpts_wf(r@, *final(cs)),
        final(cs).sat() ==> old(cs).sat(),
        old(cs).tracking() ==> forall|j: int|
            0 <= j < r.len() ==> (#[trigger] r@[j]).ptv() == m_pow2(
                j as nat,
                m.ptv(),
                params.montgomery_a.as_nat(),
                params.montgomery_b.as_nat(),
            ),
{
    let mut exponents: Vec<CMontgomeryPoint> = Vec::new();
    let mut cur = *m;
    let ghost cb = *cs;
    proof {
        lemma_mpts_wf_empty(exponents@, cb);
        lemma_mpts_wf_push(Seq::empty(), cur, exponents@.push(cur), cb);
    }
    exponents.push(cur);
    let mut i: usize = 1;
    while i < n
        invariant
            1 <= i,
            exponents.len() == i,
            i <= n || i == 1,
            cs.wf(),
            cs.extends(cb),
            cb.wf(),
            cur.wf(*cs),
            mpts_wf(exponents@, *cs),
            params.wf(),
            cs.n_vars <= cb.n_vars + 20 * i,
            cb.n_vars + 20 * (n as int) + 100 <= usize::MAX,
            cs.sat() ==> cb.sat(),
            cs.tracking() == cb.tracking(),
            cb.tracking() ==> cur.ptv() == m_pow2(
                (i - 1) as nat,
                m.ptv(),
                params.montgomery_a.as_nat(),
                params.montgomery_b.as_nat(),
            ),
            cb.tracking() ==> forall|j: int|
                0 <= j < i ==> (#[trigger] exponents@[j]).ptv() == m_pow2(
                    j as nat,
                    m.ptv(),
                    params.montgomery_a.as_nat(),
                    params.montgomery_b.as_nat(),
                ),
        decreases (n as int) - i,
    {
        let ghost cp = *cs;
        let next = cur.double(params, cs);
        proof {
            crate::cs::lemma_extends_trans(*cs, cp, cb);
            lemma_mpts_wf_extend(exponents@, cp, *cs);
            lemma_mpts_wf_push(exponents@, next, exponents@.push(next), *cs);
        }
        cur = next;
        exponents.push(cur);
        i = i + 1;
    }
    exponents
}

/// The ladder accumulation: add the next exponent and keep it when the bit
/// is set.
#[verifier::rlimit(100)]
#[verifier::spinoff_prover]
fn ladder_fold(
    start: &CMontgomeryPoint,
    exponents: &Vec<CMontgomeryPoint>,
    bits: &Vec<CBool>,
    base0: Ghost<Pt>,
    params: &JubJubBN256,
    cs: &mut CS,
) -> (r: CMontgomeryPoint)
    requires
        old(cs).wf(),
        start.wf(*old(cs)),
        mpts_wf(exponents@, *old(cs)),
        crate::bitify::bits_wf(bits@, *old(cs)),
        bits@.len() <= exponents@.len(),
        params.wf(),
        old(cs).n_vars + 40 * bits@.len() + 100 <= usize::MAX,
        old(cs).tracking() ==> forall|j: int|
            0 <= j < exponents@.len() ==> (#[trigger] exponents@[j]).ptv() == m_pow2(
                j as nat,
                base0@,
                params.montgomery_a.as_nat(),
                params.montgomery_b.as_nat(),
            ),
    ensures
        final(cs).wf(),
        final(cs).extends(*old(cs)),
        final(cs).n_vars <= old(cs).n_vars + 40 * bits@.len() + 100,
        r.wf(*final(cs)),
        final(cs).sat() ==> old(cs).sat(),
        old(cs).tracking() ==> r.ptv() == m_ladder(
            bvals(bits@),
            base0@,
            start.ptv(),
            params.montgomery_a.as_nat(),
            params.montgomery_b.as_nat(),
        ),
{
    let mut acc = *start;
    let mut j: usize = 0;
    let ghost cl = *cs;
    let ghost k = bvals(bits@);
    let ghost an = params.montgomery_a.as_nat();
    let ghost bn = params.montgomery_b.as_nat();
    proof {
        assert(k.skip(0) =~= k);
    }
    while j < bits.len()
        invariant
            0 <= j <= bits@.len(),
            bits@.len() <= exponents@.len(),
            k == bvals(bits@),
            an == params.montgomery_a.as_nat(),
            bn == params.montgomery_b.as_nat(),
            cs.wf(),
            cs.extends(cl),
            cl.wf(),
            acc.wf(*cs),
            mpts_wf(exponents@, *cs),
            crate::bitify::bits_wf(bits@, *cs),
            params.wf(),
            cs.n_vars <= cl.n_vars + 40 * j,
            cl.n_vars + 40 * bits@.len() + 100 <= usize::MAX,
            cs.sat() ==> cl.sat(),
            cs.tracking() == cl.tracking(),
            cl.tracking() ==> forall|u: int|
                0 <= u < exponents@.len() ==> (#[trigger] exponents@[u]).ptv() == m_pow2(
                    u as nat,
                    base0@,
                    an,
                    bn,
                ),
            cl.tracking() ==> m_ladder(k.skip(j as int), m_pow2(j as nat, base0@, an, bn), acc.ptv(), an, bn)
                == m_ladder(k, base0@, start.ptv(), an, bn),
        decreases bits@.len() - j,
    {
        let ghost cp = *cs;
        proof {
            lemma_mpts_wf_index(exponents@, *cs, j as int);
            crate::bitify::lemma_bits_wf_index_bools(bits@, *cs, j as int);
        }
        let inc = acc.add(&exponents[j], params, cs);
        let ghost ci = *cs;
        proof {
            crate::cs::lemma_extends_trans(ci, cp, cl);
            lemma_mpt_wf_extend(acc, cp, ci);
            lemma_mpts_wf_extend(exponents@, cp, ci);
            crate::bitify::lemma_bits_wf_extend_bools(bits@, cp, ci);
            crate::bitify::lemma_bits_wf_index_bools(bits@, ci, j as int);
        }
        let bitj = bits[j];
        let ghost old_acc = acc;
        acc = inc.switch(&bitj, &acc, cs);
        proof {
            crate::cs::lemma_extends_trans(*cs, ci, cl);
            lemma_mpts_wf_extend(exponents@, ci, *cs);
            crate::bitify::lemma_bits_wf_extend_bools(bits@, ci, *cs);
            if cl.tracking() {
                assert(k.skip(j as int).drop_first() =~= k.skip(j as int + 1));
                assert(k.skip(j as int)[0] == k[j as int]);
                assert(k[j as int] == bits@[j as int].bval());
                assert(inc.ptv() == m_add(old_acc.ptv(), m_pow2(j as nat, base0@, an, bn), an, bn));
                assert(m_pow2((j + 1) as nat, base0@, an, bn) == m_double(
                    m_pow2(j as nat, base0@, an, bn),
                    an,
                    bn,
                ));
            }
        }
        j = j + 1;
    }
    proof {
        if cl.tracking() {
            assert(k.skip(bits@.len() as int) =~= Seq::<bool>::empty());
        }
    }
    acc
}


impl CEdwardsPoint {
    /// An Elligator-style map from a field signal to a subgroup point,
    /// assuming the input is not `-1`: tries the two candidate abscissas,
    /// selects the one whose Montgomery polynomial value is a square
    /// (witnessed by an even square root with its parity constrained), and
    /// maps the result through Montgomery form and the cofactor.
    /// The two candidate Montgomery abscissas of the Elligator map:
    /// `x3 = -(u t^2 + 1)/A` and `x2 = x3 / (u t^2)` for the shifted input.
    #[verifier::rlimit(100)]
    #[verifier::spinoff_prover]
    fn elligator_candidates(t: &CNum, params: &JubJubBN256, cs: &mut CS) -> (r: (CNum, CNum))
        requires
            old(cs).wf(),
            t.wf(*old(cs)),
            params.wf(),
            old(cs).n_vars + 100 <= usize::MAX,
        ensures
            final(cs).wf(),
            final(cs).extends(*old(cs)),
            final(cs).n_vars <= old(cs).n_vars + 100,
            r.0.wf(*final(cs)),
            r.1.wf(*final(cs)),
            final(cs).sat() ==> old(cs).sat(),
            old(cs).tracking() ==> {
                let t1 = fadd(t.val(), 1);
                let g1 = fmul(fmul(t1, t1), params.montgomery_u.as_nat());
                &&& r.1.val() == fmul(fadd(g1, 1), fneg(fdiv(1, params.montgomery_a.as_nat())))
                &&& r.0.val() == fdiv(r.1.val(), g1)
            },
    {
        let one = Num::one();
        let a = params.montgomery_a();
        let ghost c0 = *cs;
        let onec = CNum::from_const(cs, &one);
        let t1 = t.add(&onec, cs);
        let ghost c1 = *cs;
        let t1sq = t1.mul(&t1, cs);
        let ghost c2 = *cs;
        proof {
            crate::cs::lemma_extends_trans(c2, c1, c0);
            crate::num::lemma_wf_extend(onec, c1, c2);
        }
        let t2g1 = t1sq.mul_const(&params.montgomery_u(), cs);
        let neg_inv_a = Num::div_total(&one, &a).negate();
        let t2g1p1 = t2g1.add(&onec, cs);
        let ghost c3 = *cs;
        proof {
            crate::cs::lemma_extends_trans(c3, c2, c0);
            crate::num::lemma_wf_extend(t2g1, c2, c3);
        }
        let x3 = t2g1p1.mul_const(&neg_inv_a, cs);
        let x2 = x3.div_unchecked(&t2g1, cs);
        proof {
            crate::cs::lemma_extends_trans(*cs, c3, c0);
            crate::num::lemma_wf_extend(x3, c3, *cs);
        }
        (x2, x3)
    }

    /// An Elligator-style map from a field signal to a subgroup point,
    /// assuming the input is not `-1`: tries the two candidate abscissas,
    /// selects the one whose Montgomery polynomial value is a square
    /// (witnessed by an even square root with its parity constrained), and
    /// maps the result through Montgomery form and the cofactor.
    #[verifier::rlimit(100)]
    #[verifier::spinoff_prover]
    pub fn from_scalar(t: &CNum, params: &JubJubBN256, cs: &mut CS) -> (z: CEdwardsPoint)
        requires
            old(cs).wf(),
            t.wf(*old(cs)),
            params.wf(),
            old(cs).n_vars + 40000 <= usize::MAX,
        ensures
            final(cs).wf(),
            final(cs).extends(*old(cs)),
            z.wf(*final(cs)),
            final(cs).sat() ==> old(cs).sat(),
            old(cs).tracking() ==> z.ptv() == from_scalar_spec(
                t.val(),
                params.montgomery_a.as_nat(),
                params.montgomery_b.as_nat(),
                params.montgomery_u.as_nat(),
                params.edwards_d.as_nat(),
            ),
            old(cs).tracking() && final(cs).sat() ==> (exists|m: Pt|
                (fmul(m.y, m.y) == mont_poly(
                    m.x,
                    params.montgomery_a.as_nat(),
                    params.montgomery_b.as_nat(),
                ) || fmul(m.y, m.y) == fmul(
                    mont_poly(m.x, params.montgomery_a.as_nat(), params.montgomery_b.as_nat()),
                    params.montgomery_u.as_nat(),
                )) && #[trigger] z.ptv() == e_mul8(
                    m_to_e(m),
                    params.edwards_d.as_nat(),
                )),
    {
        let ghost c0 = *cs;
        let cands = CEdwardsPoint::elligator_candidates(t, params, cs);
        let (x2, x3) = cands;
        let ghost c4 = *cs;
        let pair2 = check_and_get_y(&x2, params, cs);
        let (is_valid, y2) = pair2;
        let ghost c5 = *cs;
        proof {
            crate::cs::lemma_extends_trans(c5, c4, c0);
            crate::num::lemma_wf_extend(x3, c4, c5);
            crate::num::lemma_wf_extend(x2, c4, c5);
        }
        let pair3 = check_and_get_y(&x3, params, cs);
        let (_unused, y3) = pair3;
        let ghost c6 = *cs;
        proof {
            crate::cs::lemma_extends_trans(c6, c5, c0);
            crate::num::lemma_wf_extend(x2, c5, c6);
            crate::num::lemma_wf_extend(x3, c5, c6);
            crate::num::lemma_wf_extend(y2, c5, c6);
            crate::boolean::lemma_bool_wf_extend(is_valid, c5, c6);
        }
        let x = x2.switch(&is_valid, &x3, cs);
        let ghost c7 = *cs;
        proof {
            crate::cs::lemma_extends_trans(c7, c6, c0);
            crate::num::lemma_wf_extend(y2, c6, c7);
            crate::num::lemma_wf_extend(y3, c6, c7);
            crate::boolean::lemma_bool_wf_extend(is_valid, c6, c7);
        }
        let y = y2.switch(&is_valid, &y3, cs);
        let ghost c8 = *cs;
        proof {
            crate::cs::lemma_extends_trans(c8, c7, c0);
            crate::num::lemma_wf_extend(x, c7, c8);
        }
        let m = CMontgomeryPoint { x, y };
        let q = m.into_edwards(cs);
        let ghost c9 = *cs;
        proof {
            crate::cs::lemma_extends_trans(c9, c8, c0);
        }
        let z = q.mul_by_cofactor(params, cs);
        proof {
            if old(cs).tracking() {
                let sel = Pt { x: x.val(), y: y.val() };
                assert(z.ptv() == e_mul8(m_to_e(sel), params.edwards_d.as_nat()));
                if cs.sat() {
                    assert(fmul(sel.y, sel.y) == mont_poly(
                        sel.x,
                        params.montgomery_a.as_nat(),
                        params.montgomery_b.as_nat(),
                    ) || fmul(sel.y, sel.y) == fmul(
                        mont_poly(
                            sel.x,
                            params.montgomery_a.as_nat(),
                            params.montgomery_b.as_nat(),
                        ),
                        params.montgomery_u.as_nat(),
                    ));
                }
            }
        }
        z
    }
}

/// The Montgomery polynomial value of a signal, as a signal.
#[verifier::rlimit(100)]
#[verifier::spinoff_prover]
fn mont_poly_signal(x: &CNum, params: &JubJubBN256, cs: &mut CS) -> (g: CNum)
    requires
        old(cs).wf(),
        x.wf(*old(cs)),
        params.wf(),
        old(cs).n_vars + 100 <= usize::MAX,
    ensures
        final(cs).wf(),
        final(cs).extends(*old(cs)),
        final(cs).n_vars <= old(cs).n_vars + 100,
        g.wf(*final(cs)),
        final(cs).sat() == old(cs).sat(),
        old(cs).tracking() ==> g.val() == mont_poly(
            x.val(),
            params.montgomery_a.as_nat(),
            params.montgomery_b.as_nat(),
        ),
{
    let a = params.montgomery_a();
    let b = params.montgomery_b();
    let ghost c0 = *cs;
    let x2 = x.mul(x, cs);
    let ghost c1 = *cs;
    proof {
        crate::num::lemma_wf_extend(*x, c0, c1);
    }
    let aconst = CNum::from_const(cs, &a);
    let xa = x.add(&aconst, cs);
    let ghost c2 = *cs;
    proof {
        crate::cs::lemma_extends_trans(c2, c1, c0);
        crate::num::lemma_wf_extend(*x, c1, c2);
        crate::num::lemma_wf_extend(x2, c1, c2);
    }
    let x2xa = x2.mul(&xa, cs);
    let ghost c3 = *cs;
    proof {
        crate::cs::lemma_extends_trans(c3, c2, c0);
        crate::num::lemma_wf_extend(*x, c2, c3);
    }
    let num = x2xa.add(x, cs);
    let ghost c4 = *cs;
    proof {
        crate::cs::lemma_extends_trans(c4, c3, c0);
    }
    let binv = Num::div_total(&Num::one(), &b);
    num.mul_const(&binv, cs)
}

/// The Montgomery polynomial value at a candidate abscissa, the bit saying
/// whether it is a square, and the square root of either it or its
/// non-residue multiple, with even parity enforced.
#[verifier::rlimit(100)]
#[verifier::spinoff_prover]
fn check_and_get_y(x: &CNum, params: &JubJubBN256, cs: &mut CS) -> (r: (CBool, CNum))
    requires
        old(cs).wf(),
        x.wf(*old(cs)),
        params.wf(),
        old(cs).n_vars + 10000 <= usize::MAX,
    ensures
        final(cs).wf(),
        final(cs).extends(*old(cs)),
        final(cs).n_vars <= old(cs).n_vars + 10000,
        r.0.wf(*final(cs)),
        r.1.wf(*final(cs)),
        final(cs).sat() ==> old(cs).sat(),
        old(cs).tracking() ==> r.1.val() == witness_root(
            mont_poly(x.val(), params.montgomery_a.as_nat(), params.montgomery_b.as_nat()),
            params.montgomery_u.as_nat(),
        ),
        old(cs).tracking() ==> r.0.bval() == (mont_poly(
            x.val(),
            params.montgomery_a.as_nat(),
            params.montgomery_b.as_nat(),
        ) == fmul(r.1.val(), r.1.val())),
        old(cs).tracking() && final(cs).sat() ==> (fmul(r.1.val(), r.1.val()) == mont_poly(
            x.val(),
            params.montgomery_a.as_nat(),
            params.montgomery_b.as_nat(),
        ) || fmul(r.1.val(), r.1.val()) == fmul(
            mont_poly(x.val(), params.montgomery_a.as_nat(), params.montgomery_b.as_nat()),
            params.montgomery_u.as_nat(),
        )),
{
    let u = params.montgomery_u();
    let ghost c0 = *cs;
    let g = mont_poly_signal(x, params, cs);
    let ghost c4 = *cs;
    proof {
        crate::num::lemma_wf_extend(*x, c0, c4);
    }
    let preimage_value = match &g.value {
        Some(gv) => {
            let root = match gv.sqrt() {
                Some(s) => s,
                None => {
                    let gu = gv.mul(&u);
                    match gu.sqrt() {
                        Some(s) => s,
                        None => Num::zero(),
                    }
                },
            };
            Some(
                if root.is_even() {
                    root
                } else {
                    root.negate()
                },
            )
        },
        None => None,
    };
    proof {
        if old(cs).tracking() {
            assert(g.val() == mont_poly(
                x.val(),
                params.montgomery_a.as_nat(),
                params.montgomery_b.as_nat(),
            ));
            assert(preimage_value matches Some(v) && v.as_nat() == witness_root(
                g.val(),
                params.montgomery_u.as_nat(),
            ));
        }
    }
    let preimage = CNum::allocate(
        cs,
        match &preimage_value {
            Some(v) => Some(v),
            None => None,
        },
    );
    let ghost c5 = *cs;
    proof {
        crate::cs::lemma_extends_trans(c5, c4, c0);
        crate::num::lemma_wf_extend(g, c4, c5);
    }
    let preimage_bits = crate::bitify::c_into_bits_le_strict(&preimage, cs);
    let ghost c6 = *cs;
    proof {
        crate::cs::lemma_extends_trans(c6, c5, c0);
        crate::num::lemma_wf_extend(g, c5, c6);
        crate::num::lemma_wf_extend(preimage, c5, c6);
        crate::bitify::lemma_bits_wf_index_bools(preimage_bits@, c6, 0);
    }
    let bit0 = preimage_bits[0];
    bit0.assert_false(cs);
    let ghost c7 = *cs;
    proof {
        crate::cs::lemma_extends_trans(c7, c6, c0);
        crate::num::lemma_wf_extend(g, c6, c7);
        crate::num::lemma_wf_extend(preimage, c6, c7);
    }
    let preimage_square = preimage.mul(&preimage, cs);
    let ghost c8 = *cs;
    proof {
        crate::cs::lemma_extends_trans(c8, c7, c0);
        crate::num::lemma_wf_extend(g, c7, c8);
        crate::num::lemma_wf_extend(preimage, c7, c8);
    }
    let diff_square = g.sub(&preimage_square, cs);
    let ghost c9 = *cs;
    proof {
        crate::cs::lemma_extends_trans(c9, c8, c0);
        crate::num::lemma_wf_extend(g, c8, c9);
        crate::num::lemma_wf_extend(preimage, c8, c9);
        crate::num::lemma_wf_extend(preimage_square, c8, c9);
    }
    let is_square = diff_square.is_zero(cs);
    let ghost c10 = *cs;
    proof {
        crate::cs::lemma_extends_trans(c10, c9, c0);
        crate::num::lemma_wf_extend(g, c9, c10);
        crate::num::lemma_wf_extend(preimage, c9, c10);
        crate::num::lemma_wf_extend(preimage_square, c9, c10);
    }
    let gu = g.mul_const(&u, cs);
    let diff_nonsquare = gu.sub(&preimage_square, cs);
    let ghost c11 = *cs;
    proof {
        crate::cs::lemma_extends_trans(c11, c10, c0);
        crate::num::lemma_wf_extend(preimage, c10, c11);
        crate::boolean::lemma_bool_wf_extend(is_square, c10, c11);
    }
    let isnot_square = diff_nonsquare.is_zero(cs);
    let ghost c12 = *cs;
    proof {
        crate::cs::lemma_extends_trans(c12, c11, c0);
        crate::num::lemma_wf_extend(preimage, c11, c12);
        crate::boolean::lemma_bool_wf_extend(is_square, c11, c12);
    }
    let xor_bit = is_square.xor(&isnot_square, cs);
    let ghost c13 = *cs;
    proof {
        crate::cs::lemma_extends_trans(c13, c12, c0);
        crate::num::lemma_wf_extend(preimage, c12, c13);
        crate::boolean::lemma_bool_wf_extend(is_square, c12, c13);
    }
    xor_bit.assert_true(cs);
    proof {
        crate::cs::lemma_extends_trans(*cs, c13, c0);
        crate::num::lemma_wf_extend(preimage, c13, *cs);
        crate::boolean::lemma_bool_wf_extend(is_square, c13, *cs);
        if old(cs).tracking() {
            let gv = g.val();
            let pv = fmul(preimage.val(), preimage.val());
            crate::field::lemma_fsub_is_zero(gv, pv);
            crate::field::lemma_fsub_is_zero(fmul(gv, params.montgomery_u.as_nat()), pv);
        }
    }
    (is_square, preimage)
}


} // verus!
