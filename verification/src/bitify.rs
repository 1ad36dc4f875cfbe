//! Bit decomposition of field signals.

use vstd::prelude::*;
use crate::field::Num;
use crate::cs::CS;
use crate::num::CNum;
use crate::boolean::CBool;

verus! {

/// A vector of bit signals, all well-formed for the system.
#[verifier::opaque]
pub open spec fn bits_wf(bits: Seq<CBool>, cs: CS) -> bool {
    forall|j: int| 0 <= j < bits.len() ==> (#[trigger] bits[j]).wf(cs)
}

/// The empty vector is well-formed.
pub proof fn lemma_bits_wf_empty_bools(bits: Seq<CBool>, cs: CS)
    requires
        bits.len() == 0,
    ensures
        bits_wf(bits, cs),
{
    reveal(bits_wf);
}

/// One bit of a well-formed vector.
pub proof fn lemma_bits_wf_index_bools(bits: Seq<CBool>, cs: CS, j: int)
    requires
        bits_wf(bits, cs),
        0 <= j < bits.len(),
    ensures
        bits[j].wf(cs),
{
    reveal(bits_wf);
}

/// Appending a well-formed bit keeps the vector well-formed.
pub proof fn lemma_bits_wf_push_bools(prev: Seq<CBool>, b: CBool, cur: Seq<CBool>, cs: CS)
    requires
        bits_wf(prev, cs),
        b.wf(cs),
        cur == prev.push(b),
    ensures
        bits_wf(cur, cs),
{
    reveal(bits_wf);
    assert forall|j: int| 0 <= j < cur.len() implies (#[trigger] cur[j]).wf(cs) by {
        if j < prev.len() {
            assert(cur[j] == prev[j]);
        } else {
            assert(cur[j] == b);
        }
    }
}

/// The bits stay well-formed as the system grows.
pub proof fn lemma_bits_wf_extend_bools(bits: Seq<CBool>, c1: CS, c2: CS)
    requires
        bits_wf(bits, c1),
        c1.wf(),
        c2.extends(c1),
    ensures
        bits_wf(bits, c2),
{
    reveal(bits_wf);
    assert forall|j: int| 0 <= j < bits.len() implies (#[trigger] bits[j]).wf(c2) by {
        crate::num::lemma_wf_extend(bits[j].0, c1, c2);
    }
}

/// Decomposes a signal into `n` little-endian bits: allocates one
/// constrained bit per position and records that the weighted sum of the
/// bits equals the signal.
#[verifier::rlimit(100)]
pub fn c_into_bits_le(signal: &CNum, n: usize, cs: &mut CS) -> (r: Vec<CBool>)
    requires
        old(cs).wf(),
        signal.wf(*old(cs)),
        old(cs).n_vars + 8 * (n as int) + 8 <= usize::MAX,
    ensures
        final(cs).wf(),
        final(cs).extends(*old(cs)),
        final(cs).n_vars <= old(cs).n_vars + 8 * (n as int) + 8,
        r.len() == n,
        bits_wf(r@, *final(cs)),
        final(cs).sat() ==> old(cs).sat(),
{
    let witness_bits = match &signal.value {
        Some(v) => {
            proof {
                crate::field::lemma_p_lt_pow2_254();
                vstd::arithmetic::power2::lemma_pow2_pos(n as nat);
            }
            Some(v.to_bits_le_total(n))
        },
        None => None,
    };
    let mut r: Vec<CBool> = Vec::new();
    proof {
        lemma_bits_wf_empty_bools(r@, *cs);
    }
    let zero = Num::zero();
    let two = Num::from_u64(2);
    let mut acc = CNum::from_const(cs, &zero);
    let mut weight = Num::one();
    let mut i: usize = 0;
    let ghost c0 = *old(cs);
    while i < n
        invariant
            0 <= i <= n,
            r.len() == i,
            cs.wf(),
            cs.extends(c0),
            c0.wf(),
            signal.wf(*cs),
            acc.wf(*cs),
            weight.wf(),
            two.wf(),
            bits_wf(r@, *cs),
            cs.n_vars <= c0.n_vars + 8 * i,
            c0.n_vars + 8 * (n as int) + 8 <= usize::MAX,
            cs.sat() ==> c0.sat(),
            witness_bits matches Some(wb) ==> wb.len() == n,
            cs.tracking() ==> witness_bits is Some,
        decreases n - i,
    {
        let bit_value = match &witness_bits {
            Some(wb) => Some(wb[i]),
            None => None,
        };
        let ghost cp = *cs;
        let cb = CBool::allocate(
            cs,
            match &bit_value {
                Some(b) => Some(b),
                None => None,
            },
        );
        let ghost c1 = *cs;
        proof {
            crate::cs::lemma_extends_trans(c1, cp, c0);
            crate::num::lemma_wf_extend(*signal, cp, c1);
            crate::num::lemma_wf_extend(acc, cp, c1);
            lemma_bits_wf_extend_bools(r@, cp, c1);
        }
        let term = cb.0.mul_const(&weight, cs);
        let new_acc = acc.add(&term, cs);
        let ghost c2 = *cs;
        proof {
            crate::cs::lemma_extends_trans(c2, c1, c0);
            crate::num::lemma_wf_extend(*signal, c1, c2);
            lemma_bits_wf_extend_bools(r@, c1, c2);
        }
        acc = new_acc;
        weight = weight.mul(&two);
        let ghost prev = r@;
        r.push(cb);
        proof {
            crate::num::lemma_wf_extend(cb.0, c1, c2);
            lemma_bits_wf_push_bools(prev, cb, r@, c2);
        }
        i = i + 1;
    }
    let ghost c3 = *cs;
    signal.assert_eq(&acc, cs);
    proof {
        crate::cs::lemma_extends_trans(*cs, c3, c0);
        lemma_bits_wf_extend_bools(r@, c3, *cs);
    }
    r
}

/// Strict decomposition: the bits are additionally constrained to spell a
/// value no larger than `p - 1`, so the decomposition is canonical.
pub fn c_into_bits_le_strict(signal: &CNum, cs: &mut CS) -> (r: Vec<CBool>)
    requires
        old(cs).wf(),
        signal.wf(*old(cs)),
        old(cs).n_vars + 8192 <= usize::MAX,
    ensures
        final(cs).wf(),
        final(cs).extends(*old(cs)),
        final(cs).n_vars <= old(cs).n_vars + 8192,
        r.len() == 254,
        bits_wf(r@, *final(cs)),
        final(cs).sat() ==> old(cs).sat(),
{
    let bits = c_into_bits_le(signal, 254, cs);
    let ghost c0 = *cs;
    let bound = Num::minusone();
    proof {
        crate::field::lemma_p_lt_pow2_254();
        vstd::arithmetic::power2::lemma_pow2_pos(254);
    }
    let bound_bits = bound.to_bits_le_total(254);
    let mut eq_so_far = CBool::c_true(cs);
    let mut i: usize = 254;
    while i > 0
        invariant
            0 <= i <= 254,
            cs.wf(),
            cs.extends(c0),
            c0.wf(),
            bits.len() == 254,
            bound_bits.len() == 254,
            bits_wf(bits@, *cs),
            eq_so_far.wf(*cs),
            cs.n_vars <= c0.n_vars + 8 * (254 - i),
            c0.n_vars + 4096 <= usize::MAX,
            cs.sat() ==> c0.sat(),
        decreases i,
    {
        i = i - 1;
        let b = bits[i];
        proof {
            lemma_bits_wf_index_bools(bits@, *cs, i as int);
        }
        let ghost cp = *cs;
        if bound_bits[i] {
            let new_eq = eq_so_far.and(&b, cs);
            proof {
                crate::cs::lemma_extends_trans(*cs, cp, c0);
                lemma_bits_wf_extend_bools(bits@, cp, *cs);
            }
            eq_so_far = new_eq;
        } else {
            let over = eq_so_far.and(&b, cs);
            let ghost c1 = *cs;
            proof {
                crate::cs::lemma_extends_trans(c1, cp, c0);
            }
            over.assert_false(cs);
            proof {
                crate::cs::lemma_extends_trans(*cs, c1, c0);
                lemma_bits_wf_extend_bools(bits@, cp, c1);
                lemma_bits_wf_extend_bools(bits@, c1, *cs);
                crate::num::lemma_wf_extend(eq_so_far.0, cp, c1);
                crate::num::lemma_wf_extend(eq_so_far.0, c1, *cs);
            }
        }
    }
    bits
}

} // verus!
