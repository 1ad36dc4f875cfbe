//! The BN254 scalar field.
//!
//! A field element is held as four little-endian 64-bit limbs of its
//! canonical residue.  The modular operations are carried out by the
//! `pairing_ce` implementation of the bn256 scalar field behind small
//! trusted wrappers; every wrapper states its result exactly as a residue
//! computation on the limb values, so everything built on top is verified
//! against ordinary modular arithmetic over `nat`.

use vstd::prelude::*;
use vstd::arithmetic::div_mod::{
    lemma_add_mod_noop, lemma_fundamental_div_mod, lemma_fundamental_div_mod_converse,
    lemma_mod_bound, lemma_mul_mod_noop_left, lemma_mul_mod_noop_right, lemma_small_mod,
};
use vstd::arithmetic::power2::pow2;
use vstd::arithmetic::mul::{lemma_mul_is_associative, lemma_mul_is_distributive_add};
use pairing_ce::bn256::{Fr, FrRepr};
use pairing_ce::ff::{Field, PrimeField, SqrtField};

verus! {

/// The order of the BN254 scalar field.
pub open spec fn p() -> nat {
    21888242871839275222246405745257275088548364400416034343698204186575808495617nat
}

/// Field addition on canonical residues.
pub open spec fn fadd(a: nat, b: nat) -> nat {
    (a + b) % p()
}

/// Field subtraction on canonical residues.
pub open spec fn fsub(a: nat, b: nat) -> nat {
    (((a as int) - (b as int)) % (p() as int)) as nat
}

/// Field negation on canonical residues.
pub open spec fn fneg(a: nat) -> nat {
    fsub(0, a)
}

/// Field multiplication on canonical residues.
pub open spec fn fmul(a: nat, b: nat) -> nat {
    (a * b) % p()
}

/// Whether `a` has a multiplicative inverse modulo `p()`.
pub open spec fn has_inv(a: nat) -> bool {
    exists|w: nat| w < p() && #[trigger] fmul(a, w) == 1
}

/// The multiplicative inverse of `a` modulo `p()`, or `0` when none exists.
#[verifier::opaque]
pub open spec fn finv(a: nat) -> nat {
    if has_inv(a) {
        choose|w: nat| w < p() && #[trigger] fmul(a, w) == 1
    } else {
        0
    }
}

/// Total field division: multiplication by the inverse, with `finv(0) == 0`.
pub open spec fn fdiv(a: nat, b: nat) -> nat {
    fmul(a, finv(b))
}

/// Whether `a` is a square modulo `p()`.
pub open spec fn has_root(a: nat) -> bool {
    exists|w: nat| w < p() && #[trigger] fmul(w, w) == a
}

/// What the outside square-root routine returns on a square; it depends on
/// the argument alone.
pub uninterp spec fn sqrt_of(a: nat) -> nat;

/// A scalar-field element: canonical residue in four little-endian limbs.
#[derive(Clone, Copy, Debug, PartialEq, Eq, Structural)]
pub struct Num {
    pub l0: u64,
    pub l1: u64,
    pub l2: u64,
    pub l3: u64,
}

impl Num {
    /// The residue this element stands for.
    pub open spec fn as_nat(self) -> nat {
        (self.l0 as nat) + (self.l1 as nat) * 0x10000000000000000nat
            + (self.l2 as nat) * 0x100000000000000000000000000000000nat + (self.l3 as nat)
            * 0x1000000000000000000000000000000000000000000000000nat
    }

    /// The limbs hold a canonical residue.
    pub open spec fn wf(self) -> bool {
        self.as_nat() < p()
    }
}

/// Relies on `pairing_ce::bn256::Fr`: `from_repr` reads a canonical residue,
/// `add_assign` adds modulo the field order, `into_repr` writes the canonical
/// residue back.
#[verifier::external_body]
fn fr_add(a: &Num, b: &Num) -> (r: Num)
    requires
        a.wf(),
        b.wf(),
    ensures
        r.wf(),
        r.as_nat() == fadd(a.as_nat(), b.as_nat()),
{
    let mut x = Fr::from_repr(FrRepr([a.l0, a.l1, a.l2, a.l3])).unwrap();
    let y = Fr::from_repr(FrRepr([b.l0, b.l1, b.l2, b.l3])).unwrap();
    x.add_assign(&y);
    let r = x.into_repr().0;
    Num { l0: r[0], l1: r[1], l2: r[2], l3: r[3] }
}

/// Relies on `pairing_ce::bn256::Fr::sub_assign`: modular difference of two
/// canonical residues.
#[verifier::external_body]
fn fr_sub(a: &Num, b: &Num) -> (r: Num)
    requires
        a.wf(),
        b.wf(),
    ensures
        r.wf(),
        r.as_nat() == fsub(a.as_nat(), b.as_nat()),
{
    let mut x = Fr::from_repr(FrRepr([a.l0, a.l1, a.l2, a.l3])).unwrap();
    let y = Fr::from_repr(FrRepr([b.l0, b.l1, b.l2, b.l3])).unwrap();
    x.sub_assign(&y);
    let r = x.into_repr().0;
    Num { l0: r[0], l1: r[1], l2: r[2], l3: r[3] }
}

/// Relies on `pairing_ce::bn256::Fr::mul_assign`: modular product of two
/// canonical residues.
#[verifier::external_body]
fn fr_mul(a: &Num, b: &Num) -> (r: Num)
    requires
        a.wf(),
        b.wf(),
    ensures
        r.wf(),
        r.as_nat() == fmul(a.as_nat(), b.as_nat()),
{
    let mut x = Fr::from_repr(FrRepr([a.l0, a.l1, a.l2, a.l3])).unwrap();
    let y = Fr::from_repr(FrRepr([b.l0, b.l1, b.l2, b.l3])).unwrap();
    x.mul_assign(&y);
    let r = x.into_repr().0;
    Num { l0: r[0], l1: r[1], l2: r[2], l3: r[3] }
}

/// Relies on `pairing_ce::bn256::Fr::inverse`: returns the multiplicative
/// inverse of a nonzero residue and `None` exactly on zero.
#[verifier::external_body]
fn fr_inv(a: &Num) -> (r: Option<Num>)
    requires
        a.wf(),
    ensures
        match r {
            Some(w) => w.wf() && fmul(a.as_nat(), w.as_nat()) == 1 && a.as_nat() != 0,
            None => a.as_nat() == 0,
        },
{
    let x = Fr::from_repr(FrRepr([a.l0, a.l1, a.l2, a.l3])).unwrap();
    x.inverse().map(|w| {
        let r = w.into_repr().0;
        Num { l0: r[0], l1: r[1], l2: r[2], l3: r[3] }
    })
}

/// Relies on `pairing_ce::bn256::Fr::sqrt` (Tonelli-Shanks, deterministic in
/// its argument): returns the square root named `sqrt_of` when one exists,
/// and `None` exactly on quadratic non-residues.
#[verifier::external_body]
fn fr_sqrt(a: &Num) -> (r: Option<Num>)
    requires
        a.wf(),
    ensures
        match r {
            Some(w) => w.wf() && fmul(w.as_nat(), w.as_nat()) == a.as_nat() && w.as_nat()
                == sqrt_of(a.as_nat()),
            None => forall|w: nat| w < p() ==> #[trigger] fmul(w, w) != a.as_nat(),
        },
{
    let x = Fr::from_repr(FrRepr([a.l0, a.l1, a.l2, a.l3])).unwrap();
    x.sqrt().map(|w| {
        let r = w.into_repr().0;
        Num { l0: r[0], l1: r[1], l2: r[2], l3: r[3] }
    })
}

impl Num {
    /// The additive identity.
    pub fn zero() -> (r: Num)
        ensures
            r.wf(),
            r.as_nat() == 0,
    {
        Num { l0: 0, l1: 0, l2: 0, l3: 0 }
    }

    /// The multiplicative identity.
    pub fn one() -> (r: Num)
        ensures
            r.wf(),
            r.as_nat() == 1,
    {
        Num { l0: 1, l1: 0, l2: 0, l3: 0 }
    }

    /// Embeds a machine integer into the field.
    pub fn from_u64(n: u64) -> (r: Num)
        ensures
            r.wf(),
            r.as_nat() == n,
    {
        Num { l0: n, l1: 0, l2: 0, l3: 0 }
    }

    /// The residue `p - 1`, that is `-1`.
    pub fn minusone() -> (r: Num)
        ensures
            r.wf(),
            r.as_nat() == fsub(0, 1),
    {
        let z = Num::zero();
        let o = Num::one();
        fr_sub(&z, &o)
    }

    /// Field addition.
    pub fn add(&self, other: &Num) -> (r: Num)
        requires
            self.wf(),
            other.wf(),
        ensures
            r.wf(),
            r.as_nat() == fadd(self.as_nat(), other.as_nat()),
    {
        fr_add(self, other)
    }

    /// Field subtraction.
    pub fn sub(&self, other: &Num) -> (r: Num)
        requires
            self.wf(),
            other.wf(),
        ensures
            r.wf(),
            r.as_nat() == fsub(self.as_nat(), other.as_nat()),
    {
        fr_sub(self, other)
    }

    /// Field multiplication.
    pub fn mul(&self, other: &Num) -> (r: Num)
        requires
            self.wf(),
            other.wf(),
        ensures
            r.wf(),
            r.as_nat() == fmul(self.as_nat(), other.as_nat()),
    {
        fr_mul(self, other)
    }

    /// Field negation.
    pub fn negate(&self) -> (r: Num)
        requires
            self.wf(),
        ensures
            r.wf(),
            r.as_nat() == fneg(self.as_nat()),
    {
        let z = Num::zero();
        fr_sub(&z, self)
    }

    /// Twice the element.
    pub fn double(&self) -> (r: Num)
        requires
            self.wf(),
        ensures
            r.wf(),
            r.as_nat() == fadd(self.as_nat(), self.as_nat()),
    {
        fr_add(self, self)
    }

    /// The square of the element.
    pub fn square(&self) -> (r: Num)
        requires
            self.wf(),
        ensures
            r.wf(),
            r.as_nat() == fmul(self.as_nat(), self.as_nat()),
    {
        fr_mul(self, self)
    }

    /// The multiplicative inverse, or `None` on zero.  A successful result
    /// also establishes that the inverse exists, pinning down `finv`.
    pub fn inverse(&self) -> (r: Option<Num>)
        requires
            self.wf(),
        ensures
            match r {
                Some(w) => w.wf() && self.as_nat() != 0 && has_inv(self.as_nat()) && w.as_nat()
                    == finv(self.as_nat()) && fmul(self.as_nat(), w.as_nat()) == 1,
                None => self.as_nat() == 0,
            },
    {
        let r = fr_inv(self);
        proof {
            if let Some(w) = r {
                lemma_finv_of(self.as_nat(), w.as_nat());
            }
        }
        r
    }

    /// A square root, or `None` when the element is a non-residue.  A
    /// successful result also establishes that a root exists and pins the
    /// returned one to `sqrt_of`.
    pub fn sqrt(&self) -> (r: Option<Num>)
        requires
            self.wf(),
        ensures
            match r {
                Some(w) => w.wf() && fmul(w.as_nat(), w.as_nat()) == self.as_nat() && w.as_nat()
                    == sqrt_of(self.as_nat()) && has_root(self.as_nat()),
                None => !has_root(self.as_nat()),
            },
    {
        let r = fr_sqrt(self);
        proof {
            match r {
                Some(w) => {
                    assert(has_root(self.as_nat()));
                },
                None => {
                    assert forall|w: nat| w < p() implies #[trigger] fmul(w, w) != self.as_nat()
                        by {}
                },
            }
        }
        r
    }

    /// Total field division: `a * b^-1`, and zero when `b` is zero.  A
    /// nonzero divisor also establishes that its inverse exists.
    pub fn div_total(a: &Num, b: &Num) -> (r: Num)
        requires
            a.wf(),
            b.wf(),
        ensures
            r.wf(),
            r.as_nat() == fdiv(a.as_nat(), b.as_nat()),
            b.as_nat() != 0 ==> has_inv(b.as_nat()),
    {
        match b.inverse() {
            Some(w) => a.mul(&w),
            None => {
                proof {
                    lemma_finv_zero();
                    lemma_fmul_zero(a.as_nat());
                }
                Num::zero()
            },
        }
    }

    /// Whether the element is zero.
    pub fn is_zero(&self) -> (r: bool)
        ensures
            r == (self.as_nat() == 0),
    {
        self.l0 == 0 && self.l1 == 0 && self.l2 == 0 && self.l3 == 0
    }

    /// Whether the canonical residue is even.
    pub fn is_even(&self) -> (r: bool)
        ensures
            r == (self.as_nat() % 2 == 0),
    {
        proof {
            lemma_parity(*self);
        }
        self.l0 % 2 == 0
    }

    /// Whether two elements are the same residue.
    pub fn equals(&self, other: &Num) -> (r: bool)
        ensures
            r == (self.as_nat() == other.as_nat()),
    {
        proof {
            if self.as_nat() == other.as_nat() {
                lemma_as_nat_inj(*self, *other);
            }
        }
        self.l0 == other.l0 && self.l1 == other.l1 && self.l2 == other.l2 && self.l3 == other.l3
    }
}

/// The residue of an element is even exactly when its low limb is even.
proof fn lemma_parity(a: Num)
    ensures
        (a.as_nat() % 2 == 0) == (a.l0 % 2 == 0),
{
    let rest = (a.l1 as nat) * 0x8000000000000000nat + (a.l2 as nat)
        * 0x80000000000000000000000000000000nat + (a.l3 as nat)
        * 0x800000000000000000000000000000000000000000000000nat;
    assert(a.as_nat() == (a.l0 as nat) + 2 * rest);
    assert(a.as_nat() % 2 == (a.l0 as nat) % 2) by {
        lemma_mod_multiple_vanish_two(a.l0 as nat, rest);
    }
}

/// Adding an even number does not change parity.
proof fn lemma_mod_multiple_vanish_two(x: nat, k: nat)
    ensures
        (x + 2 * k) % 2 == x % 2,
{
    vstd::arithmetic::div_mod::lemma_mod_multiples_vanish(k as int, x as int, 2);
}

/// Limb representations are unique: equal residues mean equal limbs.
pub proof fn lemma_as_nat_inj(a: Num, b: Num)
    requires
        a.as_nat() == b.as_nat(),
    ensures
        a == b,
{
    let e1: int = 0x10000000000000000int;
    let qa: int = (a.l1 as int) + (a.l2 as int) * 0x10000000000000000int + (a.l3 as int)
        * 0x100000000000000000000000000000000int;
    let qb: int = (b.l1 as int) + (b.l2 as int) * 0x10000000000000000int + (b.l3 as int)
        * 0x100000000000000000000000000000000int;
    assert(a.as_nat() as int == qa * 0x10000000000000000int + (a.l0 as int));
    assert(b.as_nat() as int == qb * 0x10000000000000000int + (b.l0 as int));
    lemma_fundamental_div_mod_converse(a.as_nat() as int, e1, qa, a.l0 as int);
    lemma_fundamental_div_mod_converse(b.as_nat() as int, e1, qb, b.l0 as int);
    assert(a.l0 == b.l0 && qa == qb);
    let ra: int = (a.l2 as int) + (a.l3 as int) * 0x10000000000000000int;
    let rb: int = (b.l2 as int) + (b.l3 as int) * 0x10000000000000000int;
    assert(qa == ra * 0x10000000000000000int + (a.l1 as int));
    assert(qb == rb * 0x10000000000000000int + (b.l1 as int));
    lemma_fundamental_div_mod_converse(qa, e1, ra, a.l1 as int);
    lemma_fundamental_div_mod_converse(qb, e1, rb, b.l1 as int);
    assert(a.l1 == b.l1 && ra == rb);
    lemma_fundamental_div_mod_converse(ra, e1, a.l3 as int, a.l2 as int);
    lemma_fundamental_div_mod_converse(rb, e1, b.l3 as int, b.l2 as int);
    assert(a.l2 == b.l2 && a.l3 == b.l3);
}

/// Field addition stays below the modulus.
pub proof fn lemma_f_bounds(a: nat, b: nat)
    ensures
        fadd(a, b) < p(),
        fsub(a, b) < p(),
        fmul(a, b) < p(),
        fneg(a) < p(),
        finv(a) < p(),
        fdiv(a, b) < p(),
{
    lemma_mod_bound((a + b) as int, p() as int);
    lemma_mod_bound((a as int) - (b as int), p() as int);
    lemma_mod_bound((a * b) as int, p() as int);
    lemma_mod_bound(0 - (a as int), p() as int);
    reveal(finv);
    if has_inv(a) {
        let w = choose|w: nat| w < p() && #[trigger] fmul(a, w) == 1;
        assert(finv(a) == w);
    }
    lemma_mod_bound((a * finv(b)) as int, p() as int);
    lemma_mod_bound((b * finv(b)) as int, p() as int);
}

/// Addition of residues is associative.
pub proof fn lemma_fadd_assoc(a: nat, b: nat, c: nat)
    requires
        a < p(),
        b < p(),
        c < p(),
    ensures
        fadd(fadd(a, b), c) == fadd(a, fadd(b, c)),
{
    lemma_small_mod(a, p());
    lemma_small_mod(c, p());
    lemma_add_mod_noop((a + b) as int, c as int, p() as int);
    lemma_add_mod_noop(a as int, (b + c) as int, p() as int);
}

/// Adding zero changes nothing.
pub proof fn lemma_fadd_zero(a: nat)
    requires
        a < p(),
    ensures
        fadd(a, 0) == a,
        fadd(0, a) == a,
{
    lemma_small_mod(a, p());
}

/// Multiplication of residues is associative.
pub proof fn lemma_fmul_assoc(a: nat, b: nat, c: nat)
    ensures
        fmul(fmul(a, b), c) == fmul(a, fmul(b, c)),
{
    lemma_mul_mod_noop_left((a * b) as int, c as int, p() as int);
    lemma_mul_mod_noop_right(a as int, (b * c) as int, p() as int);
    lemma_mul_is_associative(a as int, b as int, c as int);
}

/// Multiplication distributes over addition of residues.
pub proof fn lemma_fmul_distrib(a: nat, b: nat, c: nat)
    ensures
        fmul(a, fadd(b, c)) == fadd(fmul(a, b), fmul(a, c)),
{
    lemma_mul_mod_noop_right(a as int, (b + c) as int, p() as int);
    lemma_mul_is_distributive_add(a as int, b as int, c as int);
    lemma_add_mod_noop((a * b) as int, (a * c) as int, p() as int);
}

/// Multiplying by one or zero.
pub proof fn lemma_fmul_unit(a: nat)
    requires
        a < p(),
    ensures
        fmul(a, 1) == a,
        fmul(1, a) == a,
        fmul(a, 0) == 0,
        fmul(0, a) == 0,
{
    lemma_small_mod(a, p());
    lemma_small_mod(0, p());
}

/// Subtracting and adding back an element is the identity.
pub proof fn lemma_fadd_fsub(a: nat, b: nat)
    requires
        a < p(),
        b < p(),
    ensures
        fadd(fsub(a, b), b) == a,
        fsub(fadd(a, b), b) == a,
        fsub(a, a) == 0,
{
    let pi = p() as int;
    lemma_small_mod(a, p());
    lemma_add_mod_noop((a as int) - (b as int), b as int, pi);
    lemma_mod_bound((a as int) - (b as int), pi);
    assert(fadd(fsub(a, b), b) == ((a as int) % pi) as nat) by {
        lemma_add_mod_noop(((a as int) - (b as int)) % pi, b as int, pi);
        vstd::arithmetic::div_mod::lemma_mod_twice((a as int) - (b as int), pi);
    }
    assert(fsub(fadd(a, b), b) == a) by {
        lemma_sub_mod_noop_left((a + b) as int, b as int, pi);
        lemma_small_mod(a, p());
    }
    lemma_small_mod(0, p());
}

/// Reducing the left argument of a difference modulo `p` first is harmless.
proof fn lemma_sub_mod_noop_left(x: int, y: int, m: int)
    requires
        m > 0,
    ensures
        ((x % m) - y) % m == (x - y) % m,
{
    vstd::arithmetic::div_mod::lemma_sub_mod_noop(x, y, m);
    vstd::arithmetic::div_mod::lemma_mod_twice(x, m);
    vstd::arithmetic::div_mod::lemma_sub_mod_noop(x % m, y, m);
    vstd::arithmetic::div_mod::lemma_mod_twice(x % m, m);
}

/// A difference of canonical residues vanishes exactly on equality.
pub proof fn lemma_fsub_is_zero(a: nat, b: nat)
    requires
        a < p(),
        b < p(),
    ensures
        (fsub(a, b) == 0) == (a == b),
{
    let pi = p() as int;
    if a == b {
        lemma_small_mod(0, p());
    } else if a > b {
        lemma_small_mod((a - b) as nat, p());
    } else {
        assert(((a as int) - (b as int)) % pi == ((a as int) - (b as int)) + pi) by {
            lemma_small_mod((a + p() - b) as nat, p());
            vstd::arithmetic::div_mod::lemma_mod_add_multiples_vanish(
                (a as int) - (b as int),
                pi,
            );
        }
    }
}

/// Inverses are unique modulo `p`.
pub proof fn lemma_inv_unique(a: nat, w1: nat, w2: nat)
    requires
        fmul(a, w1) == 1,
        fmul(a, w2) == 1,
        w1 < p(),
        w2 < p(),
    ensures
        w1 == w2,
{
    lemma_fmul_assoc(w1, a, w2);
    assert(fmul(w1, a) == fmul(a, w1)) by {
        vstd::arithmetic::mul::lemma_mul_is_commutative(w1 as int, a as int);
    }
    lemma_fmul_unit(w1);
    lemma_fmul_unit(w2);
}

/// A concrete inverse witness pins down `finv`.
pub proof fn lemma_finv_of(a: nat, w: nat)
    requires
        fmul(a, w) == 1,
        w < p(),
    ensures
        has_inv(a),
        finv(a) == w,
        fmul(a, finv(a)) == 1,
{
    reveal(finv);
    assert(has_inv(a));
    let w2 = choose|x: nat| x < p() && #[trigger] fmul(a, x) == 1;
    lemma_inv_unique(a, w, w2);
}

/// An invertible element's inverse works: `a * finv(a) == 1`.
pub proof fn lemma_finv_works(a: nat)
    requires
        has_inv(a),
    ensures
        finv(a) < p(),
        fmul(a, finv(a)) == 1,
{
    reveal(finv);
    let w = choose|x: nat| x < p() && #[trigger] fmul(a, x) == 1;
    assert(finv(a) == w);
}

/// Zero has no inverse, so `finv(0) == 0`.
pub proof fn lemma_finv_zero()
    ensures
        !has_inv(0),
        finv(0) == 0,
{
    reveal(finv);
    assert forall|w: nat| #[trigger] fmul(0nat, w) != 1 by {
        lemma_small_mod(0, p());
    }
}

/// One is its own inverse.
pub proof fn lemma_finv_one()
    ensures
        finv(1) == 1,
        fdiv(0, 1) == 0,
{
    lemma_small_mod(1, p());
    assert(fmul(1, 1) == 1);
    lemma_finv_of(1, 1);
    lemma_fmul_unit(finv(1));
    lemma_small_mod(0, p());
}

/// Cancelling a product against an inverse witness: a product with an
/// invertible element is zero only if the other factor is zero.
pub proof fn lemma_mul_cancel_nonzero(a: nat, b: nat, ia: nat)
    requires
        fmul(a, ia) == 1,
        fmul(a, b) == 0,
        b < p(),
    ensures
        b == 0,
{
    lemma_fmul_assoc(ia, a, b);
    assert(fmul(ia, a) == fmul(a, ia)) by {
        vstd::arithmetic::mul::lemma_mul_is_commutative(ia as int, a as int);
    }
    lemma_fmul_unit(b);
    assert(fmul(ia, 0) == 0) by {
        lemma_small_mod(0, p());
    }
}

/// Dividing by an invertible element then multiplying by it restores the
/// dividend.
pub proof fn lemma_fdiv_cancel(a: nat, b: nat)
    requires
        has_inv(b),
        a < p(),
    ensures
        fmul(fdiv(a, b), b) == a,
{
    let w = choose|x: nat| x < p() && #[trigger] fmul(b, x) == 1;
    lemma_finv_of(b, w);
    lemma_fmul_assoc(a, finv(b), b);
    assert(fmul(finv(b), b) == fmul(b, finv(b))) by {
        vstd::arithmetic::mul::lemma_mul_is_commutative(finv(b) as int, b as int);
    }
    lemma_fmul_unit(a);
}

/// Reduction of an arbitrary integer into the field.
pub open spec fn fm(x: int) -> nat {
    (x % (p() as int)) as nat
}

/// The operations on residues agree with reduction of the integer result.
pub proof fn lemma_f_is_fm(a: nat, b: nat)
    ensures
        fadd(a, b) == fm((a + b) as int),
        fsub(a, b) == fm(a - b),
        fmul(a, b) == fm((a * b) as int),
        fneg(a) == fm(-(a as int)),
{
}

/// Reduction bounds.
pub proof fn lemma_fm_range(x: int)
    ensures
        fm(x) < p(),
        x == fm(x) ==> 0 <= x < p(),
{
    lemma_mod_bound(x, p() as int);
}

/// A reduced value is unchanged.
pub proof fn lemma_fm_small(a: nat)
    requires
        a < p(),
    ensures
        fm(a as int) == a,
{
    lemma_small_mod(a, p());
}

/// Inner reductions can be stripped under addition.
pub proof fn lemma_fm_add_l(x: int, y: int)
    ensures
        fm(fm(x) + y) == fm(x + y),
{
    let pi = p() as int;
    vstd::arithmetic::div_mod::lemma_add_mod_noop(x, y, pi);
    vstd::arithmetic::div_mod::lemma_mod_twice(x, pi);
    vstd::arithmetic::div_mod::lemma_add_mod_noop(x % pi, y, pi);
}

/// Inner reductions can be stripped under addition, right argument.
pub proof fn lemma_fm_add_r(x: int, y: int)
    ensures
        fm(x + fm(y)) == fm(x + y),
{
    lemma_fm_add_l(y, x);
}

/// Inner reductions can be stripped under subtraction, left argument.
pub proof fn lemma_fm_sub_l(x: int, y: int)
    ensures
        fm(fm(x) - y) == fm(x - y),
{
    let pi = p() as int;
    vstd::arithmetic::div_mod::lemma_sub_mod_noop(x, y, pi);
    vstd::arithmetic::div_mod::lemma_mod_twice(x, pi);
    vstd::arithmetic::div_mod::lemma_sub_mod_noop(x % pi, y, pi);
}

/// Inner reductions can be stripped under subtraction, right argument.
pub proof fn lemma_fm_sub_r(x: int, y: int)
    ensures
        fm(x - fm(y)) == fm(x - y),
{
    let pi = p() as int;
    vstd::arithmetic::div_mod::lemma_sub_mod_noop(x, y, pi);
    vstd::arithmetic::div_mod::lemma_mod_twice(y, pi);
    vstd::arithmetic::div_mod::lemma_sub_mod_noop(x, y % pi, pi);
}

/// Inner reductions can be stripped under multiplication, left argument.
pub proof fn lemma_fm_mul_l(x: int, y: int)
    ensures
        fm(fm(x) * y) == fm(x * y),
{
    lemma_mul_mod_noop_left(x, y, p() as int);
}

/// Inner reductions can be stripped under multiplication, right argument.
pub proof fn lemma_fm_mul_r(x: int, y: int)
    ensures
        fm(x * fm(y)) == fm(x * y),
{
    lemma_mul_mod_noop_right(x, y, p() as int);
}

/// Scaling an affine combination by a constant scales both coefficients.
pub proof fn lemma_scale_eval(k: nat, a: nat, w: nat, b: nat)
    ensures
        fmul(k, fadd(fmul(a, w), b)) == fadd(fmul(fmul(k, a), w), fmul(k, b)),
{
    lemma_fm_add_l((a * w) as int, b as int);
    lemma_fm_mul_r(k as int, (a * w + b) as int);
    lemma_fm_mul_l((k * a) as int, w as int);
    lemma_fm_add_l((k * a * w) as int, fmul(k, b) as int);
    lemma_fm_add_r((k * a * w) as int, (k * b) as int);
    assert(k * (a * w + b) == (k * a) * w + k * b) by (nonlinear_arith);
}

/// Negating an affine combination negates both coefficients.
pub proof fn lemma_neg_eval(a: nat, w: nat, b: nat)
    ensures
        fneg(fadd(fmul(a, w), b)) == fadd(fmul(fneg(a), w), fneg(b)),
{
    lemma_fm_add_l((a * w) as int, b as int);
    lemma_fm_sub_r(0, (a * w + b) as int);
    lemma_fm_mul_l(-(a as int), w as int);
    lemma_fm_add_l((-(a as int)) * (w as int), fneg(b) as int);
    lemma_fm_add_r((-(a as int)) * (w as int), -(b as int));
    assert(-((a * w + b) as int) == (-(a as int)) * (w as int) + (-(b as int))) by (nonlinear_arith);
}

/// Summing two combinations over one variable sums the coefficients.
pub proof fn lemma_add_same_var(a1: nat, b1: nat, a2: nat, b2: nat, w: nat)
    ensures
        fadd(fadd(fmul(a1, w), b1), fadd(fmul(a2, w), b2)) == fadd(
            fmul(fadd(a1, a2), w),
            fadd(b1, b2),
        ),
{
    let lhs_i: int = ((a1 * w + b1) + (a2 * w + b2)) as int;
    assert(fadd(fadd(fmul(a1, w), b1), fadd(fmul(a2, w), b2)) == fm(lhs_i)) by {
        lemma_fm_add_l((a1 * w) as int, b1 as int);
        lemma_fm_add_l((a2 * w) as int, b2 as int);
        lemma_fm_add_l((a1 * w + b1) as int, fadd(fmul(a2, w), b2) as int);
        lemma_fm_add_r((a1 * w + b1) as int, (a2 * w + b2) as int);
    }
    assert(fadd(fmul(fadd(a1, a2), w), fadd(b1, b2)) == fm(lhs_i)) by {
        lemma_fm_mul_l((a1 + a2) as int, w as int);
        lemma_fm_add_l(((a1 + a2) * w) as int, fadd(b1, b2) as int);
        lemma_fm_add_r(((a1 + a2) * w) as int, (b1 + b2) as int);
        assert((a1 + a2) * w + (b1 + b2) == (a1 * w + b1) + (a2 * w + b2)) by (nonlinear_arith);
    }
}

/// Shifting an affine combination by a constant shifts its constant term.
pub proof fn lemma_shift_eval(a: nat, w: nat, b: nat, c: nat)
    ensures
        fadd(fadd(fmul(a, w), b), c) == fadd(fmul(a, w), fadd(b, c)),
{
    lemma_fm_add_l((a * w + b) as int, c as int);
    lemma_fm_add_l((a * w) as int, b as int);
    lemma_fm_add_r((a * w) as int, (b + c) as int);
    lemma_fm_add_l((a * w) as int, (b + c) as int);
}

/// A product with zero vanishes whatever the other factor is.
pub proof fn lemma_fmul_zero(x: nat)
    ensures
        fmul(0, x) == 0,
        fmul(x, 0) == 0,
{
    lemma_small_mod(0, p());
}

/// Multiplication distributes over subtraction of residues.
pub proof fn lemma_fmul_fsub_distrib(a: nat, b: nat, c: nat)
    ensures
        fmul(a, fsub(b, c)) == fsub(fmul(a, b), fmul(a, c)),
{
    let ai = a as int;
    let bi = b as int;
    let ci = c as int;
    lemma_fm_mul_r(ai, bi - ci);
    assert(ai * (bi - ci) == ai * bi - ai * ci) by (nonlinear_arith);
    lemma_fm_sub_l(ai * bi, ai * ci);
    lemma_fm_sub_r((ai * bi) % (p() as int), ai * ci);
}

/// Moving a term across a difference: `u - v == w` exactly when
/// `u - w == v`, on canonical residues.
pub proof fn lemma_fsub_swap(u: nat, v: nat, w: nat)
    requires
        v < p(),
        w < p(),
    ensures
        (fsub(u, v) == w) == (fsub(u, w) == v),
{
    let pi = p() as int;
    let ui = u as int;
    let vi = v as int;
    let wi = w as int;
    lemma_small_mod(v, p());
    lemma_small_mod(w, p());
    vstd::arithmetic::div_mod::lemma_mod_equivalence(ui - vi, wi, pi);
    vstd::arithmetic::div_mod::lemma_mod_equivalence(ui - wi, vi, pi);
    lemma_mod_bound(ui - vi, pi);
    lemma_mod_bound(ui - wi, pi);
}

/// Splitting a subtracted sum into two subtractions.
pub proof fn lemma_fsub_fadd_split(u: nat, a: nat, b: nat)
    ensures
        fsub(u, fadd(a, b)) == fsub(fsub(u, b), a),
{
    let ui = u as int;
    let ai = a as int;
    let bi = b as int;
    lemma_fm_sub_r(ui, ai + bi);
    lemma_fm_sub_l(ui - bi, ai);
}

/// Subtracting is adding the negation.
pub proof fn lemma_fsub_is_fadd_fneg(a: nat, b: nat)
    ensures
        fsub(a, b) == fadd(a, fneg(b)),
{
    lemma_fm_sub_r(0, b as int);
    lemma_fm_add_r(a as int, -(b as int));
}

/// Adding then subtracting a constant inside a sum.
pub proof fn lemma_fadd_fsub_assoc(u: nat, v: nat, c: nat)
    ensures
        fadd(u, fsub(v, c)) == fsub(fadd(u, v), c),
{
    lemma_fm_sub_l((u + v) as int, c as int);
    lemma_fm_add_l((u as int) + (v as int) - (c as int), 0);
    lemma_fm_add_r(u as int, (v as int) - (c as int));
}

/// The value of a little-endian bit string.
pub open spec fn bits_val(s: Seq<bool>) -> nat
    decreases s.len(),
{
    if s.len() == 0 {
        0
    } else {
        (if s[0] {
            1nat
        } else {
            0nat
        }) + 2 * bits_val(s.drop_first())
    }
}

/// Appending a bit adds its weighted value.
pub proof fn lemma_bits_val_push(s: Seq<bool>, b: bool)
    ensures
        bits_val(s.push(b)) == bits_val(s) + (if b {
            pow2(s.len())
        } else {
            0nat
        }),
    decreases s.len(),
{
    vstd::arithmetic::power2::lemma_pow2_pos(s.len());
    if s.len() == 0 {
        assert(s.push(b).drop_first() =~= s);
        assert(pow2(0) == 1) by {
            vstd::arithmetic::power2::lemma2_to64();
        }
    } else {
        assert(s.push(b).drop_first() =~= s.drop_first().push(b));
        lemma_bits_val_push(s.drop_first(), b);
        assert(pow2(s.len()) == 2 * pow2((s.len() - 1) as nat)) by {
            vstd::arithmetic::power2::lemma_pow2_adds(1, (s.len() - 1) as nat);
            vstd::arithmetic::power2::lemma2_to64();
        }
    }
}

/// The modulus is below `2^254`.
pub proof fn lemma_p_lt_pow2_254()
    ensures
        p() < pow2(254),
        pow2(254) == 0x4000000000000000000000000000000000000000000000000000000000000000nat,
{
    vstd::arithmetic::power2::lemma2_to64();
    vstd::arithmetic::power2::lemma2_to64_rest();
    vstd::arithmetic::power2::lemma_pow2_adds(63, 64);
    assert(pow2(127) == 0x80000000000000000000000000000000nat);
    vstd::arithmetic::power2::lemma_pow2_adds(127, 127);
    assert(pow2(254) == 0x4000000000000000000000000000000000000000000000000000000000000000nat);
}

impl Num {
    /// Halves the residue, returning the floor and the dropped low bit.
    pub fn half(&self) -> (r: (Num, bool))
        requires
            self.wf(),
        ensures
            r.0.wf(),
            r.0.as_nat() == self.as_nat() / 2,
            r.1 == (self.as_nat() % 2 == 1),
    {
        let h0 = self.l0 / 2 + (self.l1 % 2) * 0x8000000000000000u64;
        let h1 = self.l1 / 2 + (self.l2 % 2) * 0x8000000000000000u64;
        let h2 = self.l2 / 2 + (self.l3 % 2) * 0x8000000000000000u64;
        let h3 = self.l3 / 2;
        let h = Num { l0: h0, l1: h1, l2: h2, l3: h3 };
        proof {
            lemma_fundamental_div_mod(self.l0 as int, 2);
            lemma_fundamental_div_mod(self.l1 as int, 2);
            lemma_fundamental_div_mod(self.l2 as int, 2);
            lemma_fundamental_div_mod(self.l3 as int, 2);
            assert(self.as_nat() == 2 * h.as_nat() + (self.l0 as nat) % 2);
            lemma_fundamental_div_mod_converse(
                self.as_nat() as int,
                2,
                h.as_nat() as int,
                ((self.l0 as nat) % 2) as int,
            );
        }
        (h, self.l0 % 2 == 1)
    }

    /// The low `len` bits of the residue, least significant first; exact
    /// when the residue is below `2^len`.
    pub fn to_bits_le_total(&self, len: usize) -> (r: Vec<bool>)
        requires
            self.wf(),
        ensures
            r.len() == len,
            self.as_nat() < pow2(len as nat) ==> bits_val(r@) == self.as_nat(),
    {
        let mut r: Vec<bool> = Vec::new();
        let mut cur = *self;
        let mut i: usize = 0;
        proof {
            vstd::arithmetic::power2::lemma2_to64();
        }
        while i < len
            invariant
                0 <= i <= len,
                r.len() == i,
                cur.wf(),
                self.wf(),
                self.as_nat() == bits_val(r@) + pow2(i as nat) * cur.as_nat(),
            decreases len - i,
        {
            let (next, b) = cur.half();
            proof {
                lemma_bits_val_push(r@, b);
                lemma_fundamental_div_mod(cur.as_nat() as int, 2);
                vstd::arithmetic::power2::lemma_pow2_adds(i as nat, 1);
                vstd::arithmetic::power2::lemma2_to64();
                assert(pow2(i as nat) * cur.as_nat() == pow2(i as nat) * ((if b {
                    1nat
                } else {
                    0nat
                }) + 2 * next.as_nat()));
                assert(pow2(i as nat) * ((if b {
                    1nat
                } else {
                    0nat
                }) + 2 * next.as_nat()) == pow2(i as nat) * (if b {
                    1nat
                } else {
                    0nat
                }) + pow2((i + 1) as nat) * next.as_nat()) by (nonlinear_arith)
                    requires
                        pow2((i + 1) as nat) == 2 * pow2(i as nat),
                ;
                assert(pow2(i as nat) * (if b {
                    1nat
                } else {
                    0nat
                }) == (if b {
                    pow2(i as nat)
                } else {
                    0nat
                }));
            }
            r.push(b);
            cur = next;
            i = i + 1;
        }
        proof {
            if self.as_nat() < pow2(len as nat) && cur.as_nat() > 0 {
                assert(pow2(len as nat) * cur.as_nat() >= pow2(len as nat)) by (nonlinear_arith)
                    requires
                        cur.as_nat() >= 1,
                        pow2(len as nat) >= 1,
                ;
                vstd::arithmetic::power2::lemma_pow2_pos(len as nat);
                assert(false);
            }
        }
        r
    }
}


} // verus!
