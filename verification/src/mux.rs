//! A three-bit table lookup built from ternary selections.

use vstd::prelude::*;
use crate::field::Num;
use crate::cs::CS;
use crate::num::CNum;
use crate::boolean::CBool;

verus! {

/// The row index spelled by three bits, least significant first.
pub open spec fn mux3_index(b0: bool, b1: bool, b2: bool) -> int {
    (if b0 {
        1int
    } else {
        0int
    }) + (if b1 {
        2int
    } else {
        0int
    }) + (if b2 {
        4int
    } else {
        0int
    })
}

/// Selects one of eight constants by three bits, as a tree of ternary
/// selections.
#[verifier::rlimit(100)]
pub fn c_mux3(b0: &CBool, b1: &CBool, b2: &CBool, table: &Vec<Num>, cs: &mut CS) -> (r: CNum)
    requires
        old(cs).wf(),
        b0.wf(*old(cs)),
        b1.wf(*old(cs)),
        b2.wf(*old(cs)),
        table.len() == 8,
        forall|j: int| 0 <= j < 8 ==> (#[trigger] table[j]).wf(),
        old(cs).n_vars + 32 <= usize::MAX,
    ensures
        final(cs).wf(),
        final(cs).extends(*old(cs)),
        final(cs).sat() == old(cs).sat(),
        final(cs).n_vars <= old(cs).n_vars + 32,
        r.wf(*final(cs)),
        old(cs).tracking() ==> r.val() == table[mux3_index(b0.bval(), b1.bval(), b2.bval())].as_nat(),
{
    let t0 = CNum::from_const(cs, &table[0]);
    let t1 = CNum::from_const(cs, &table[1]);
    let t2 = CNum::from_const(cs, &table[2]);
    let t3 = CNum::from_const(cs, &table[3]);
    let t4 = CNum::from_const(cs, &table[4]);
    let t5 = CNum::from_const(cs, &table[5]);
    let t6 = CNum::from_const(cs, &table[6]);
    let t7 = CNum::from_const(cs, &table[7]);
    let ghost c0 = *cs;
    let l0 = t1.switch(b0, &t0, cs);
    let ghost c1 = *cs;
    proof {
        lemma_mux_ctx(c0, c1, *b0, *b1, *b2);
    }
    let l1 = t3.switch(b0, &t2, cs);
    let ghost c2 = *cs;
    proof {
        lemma_mux_ctx(c1, c2, *b0, *b1, *b2);
        crate::num::lemma_wf_extend(l0, c1, c2);
    }
    let l2 = t5.switch(b0, &t4, cs);
    let ghost c3 = *cs;
    proof {
        lemma_mux_ctx(c2, c3, *b0, *b1, *b2);
        crate::num::lemma_wf_extend(l0, c2, c3);
        crate::num::lemma_wf_extend(l1, c2, c3);
    }
    let l3 = t7.switch(b0, &t6, cs);
    let ghost c4 = *cs;
    proof {
        lemma_mux_ctx(c3, c4, *b0, *b1, *b2);
        crate::num::lemma_wf_extend(l0, c3, c4);
        crate::num::lemma_wf_extend(l1, c3, c4);
        crate::num::lemma_wf_extend(l2, c3, c4);
    }
    let m0 = l1.switch(b1, &l0, cs);
    let ghost c5 = *cs;
    proof {
        lemma_mux_ctx(c4, c5, *b0, *b1, *b2);
        crate::num::lemma_wf_extend(l2, c4, c5);
        crate::num::lemma_wf_extend(l3, c4, c5);
    }
    let m1 = l3.switch(b1, &l2, cs);
    let ghost c6 = *cs;
    proof {
        lemma_mux_ctx(c5, c6, *b0, *b1, *b2);
        crate::num::lemma_wf_extend(m0, c5, c6);
    }
    let r = m1.switch(b2, &m0, cs);
    r
}

/// Bits stay well-formed from one system state to the next.
proof fn lemma_mux_ctx(c1: CS, c2: CS, b0: CBool, b1: CBool, b2: CBool)
    requires
        c1.wf(),
        c2.extends(c1),
        b0.wf(c1),
        b1.wf(c1),
        b2.wf(c1),
    ensures
        b0.wf(c2),
        b1.wf(c2),
        b2.wf(c2),
{
    crate::num::lemma_wf_extend(b0.0, c1, c2);
    crate::num::lemma_wf_extend(b1.0, c1, c2);
    crate::num::lemma_wf_extend(b2.0, c1, c2);
}

} // verus!
