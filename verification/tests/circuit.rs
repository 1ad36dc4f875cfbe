use jubjub_circuit::boolean::CBool;
use jubjub_circuit::bn256::JubJubBN256;
use jubjub_circuit::cs::CS;
use jubjub_circuit::ecc::CEdwardsPoint;
use jubjub_circuit::field::Num;
use jubjub_circuit::native::EdwardsPoint;
use jubjub_circuit::num::CNum;

fn bits_of(mut k: u64, n: usize, cs: &mut CS) -> Vec<CBool> {
    let mut out = Vec::new();
    for _ in 0..n {
        let b = k & 1 == 1;
        out.push(CBool::allocate(cs, Some(&b)));
        k >>= 1;
    }
    out
}

#[test]
fn field_arithmetic_basics() {
    let three = Num::from_u64(3);
    let five = Num::from_u64(5);
    assert_eq!(three.add(&five), Num::from_u64(8));
    assert_eq!(five.sub(&three), Num::from_u64(2));
    assert_eq!(three.mul(&five), Num::from_u64(15));
    assert_eq!(three.sub(&five), Num::zero().sub(&Num::from_u64(2)));
    let inv3 = three.inverse().unwrap();
    assert_eq!(three.mul(&inv3), Num::one());
    assert!(Num::zero().inverse().is_none());
    let nine = Num::from_u64(9);
    let r = nine.sqrt().unwrap();
    assert!(r == three || r == Num::zero().sub(&three));
    assert!(Num::from_u64(4).is_even());
    assert!(!Num::from_u64(7).is_even());
}

#[test]
fn signal_add_associative_and_distributive() {
    let mut cs = CS::new(true);
    let a = CNum::allocate(&mut cs, Some(&Num::from_u64(11)));
    let b = CNum::allocate(&mut cs, Some(&Num::from_u64(22)));
    let c = CNum::allocate(&mut cs, Some(&Num::from_u64(33)));
    let ab_c = a.add(&b, &mut cs).add(&c, &mut cs);
    let a_bc = a.add(&b.add(&c, &mut cs), &mut cs);
    assert_eq!(ab_c.get_value().unwrap(), a_bc.get_value().unwrap());
    let lhs = a.mul(&b.add(&c, &mut cs), &mut cs);
    let rhs = a.mul(&b, &mut cs).add(&a.mul(&c, &mut cs), &mut cs);
    assert_eq!(lhs.get_value().unwrap(), rhs.get_value().unwrap());
    assert!(cs.is_satisfied());
}

#[test]
fn inverse_and_unchecked_division() {
    let mut cs = CS::new(true);
    let a = CNum::allocate(&mut cs, Some(&Num::from_u64(42)));
    let inv = a.inv(&mut cs);
    let prod = a.mul(&inv, &mut cs);
    assert_eq!(prod.get_value().unwrap(), Num::one());
    let q = a.div_unchecked(&a, &mut cs);
    assert_eq!(q.get_value().unwrap(), Num::one());
    assert!(cs.is_satisfied());
}

#[test]
fn bit_assertion_satisfiable_iff_bit() {
    for (v, expect) in [(0u64, true), (1, true), (2, false), (7, false)] {
        let mut cs = CS::new(true);
        let x = CNum::allocate(&mut cs, Some(&Num::from_u64(v)));
        x.assert_bit(&mut cs);
        assert_eq!(cs.is_satisfied(), expect);
    }
}

#[test]
fn nonzero_assertion() {
    let mut cs = CS::new(true);
    let x = CNum::allocate(&mut cs, Some(&Num::from_u64(9)));
    x.assert_nonzero(&mut cs);
    assert!(cs.is_satisfied());
    let mut cs2 = CS::new(true);
    let z = CNum::allocate(&mut cs2, Some(&Num::zero()));
    z.assert_nonzero(&mut cs2);
    assert!(!cs2.is_satisfied());
}

#[test]
fn scenario_is_zero_bit() {
    let mut cs = CS::new(true);
    let x = CNum::allocate(&mut cs, Some(&Num::zero()));
    let z = x.is_zero(&mut cs);
    let t = CBool::c_true(&cs);
    z.assert_eq(&t, &mut cs);
    assert!(cs.is_satisfied());
    let y = CNum::allocate(&mut cs, Some(&Num::from_u64(5)));
    let zy = y.is_zero(&mut cs);
    zy.assert_false(&mut cs);
    assert!(cs.is_satisfied());
}

#[test]
fn boolean_operators() {
    let mut cs = CS::new(true);
    let t = CBool::allocate(&mut cs, Some(&true));
    let f = CBool::allocate(&mut cs, Some(&false));
    let cs_ref = &mut cs;
    assert_eq!(t.and(&f, cs_ref).get_value(cs_ref).unwrap(), false);
    assert_eq!(t.or(&f, cs_ref).get_value(cs_ref).unwrap(), true);
    assert_eq!(t.xor(&t, cs_ref).get_value(cs_ref).unwrap(), false);
    assert_eq!(t.not(cs_ref).get_value(cs_ref).unwrap(), false);
    assert!(cs.is_satisfied());
}

#[test]
fn scenario_sum_product_algebra() {
    // (a+b)*a - (a*a + a*b) == 0 as a circuit over constants
    let mut cs = CS::new(true);
    let a = CNum::from_const(&cs, &Num::from_u64(3));
    let b = CNum::from_const(&cs, &Num::from_u64(5));
    let s = a.add(&b, &mut cs);
    let lhs = s.mul(&a, &mut cs);
    let aa = a.mul(&a, &mut cs);
    let ab = a.mul(&b, &mut cs);
    let rhs = aa.add(&ab, &mut cs);
    let diff = lhs.sub(&rhs, &mut cs);
    diff.assert_zero(&mut cs);
    assert!(cs.is_satisfied());
}

#[test]
fn scenario_generator_double_on_curve() {
    let params = JubJubBN256::new();
    let g = *params.edwards_g();
    assert!(g.is_on_curve(&params.edwards_d()));
    let mut cs = CS::new(true);
    let p = CEdwardsPoint::from_const(&cs, &g);
    let q = p.double(&params, &mut cs);
    q.assert_in_curve(&params, &mut cs);
    assert!(cs.is_satisfied());
}

#[test]
fn double_matches_add_self() {
    let params = JubJubBN256::new();
    let g = *params.edwards_g();
    let d = params.edwards_d();
    let dbl = g.double(&d);
    let sum = g.add(&g, &d);
    assert_eq!(dbl, sum);
}

#[test]
fn addition_commutes_and_has_identity() {
    let params = JubJubBN256::new();
    let d = params.edwards_d();
    let g = *params.edwards_g();
    let h = g.double(&d);
    assert_eq!(g.add(&h, &d), h.add(&g, &d));
    let id = EdwardsPoint::zero();
    assert_eq!(g.add(&id, &d), g);
}

#[test]
fn cofactor_is_three_doublings() {
    let params = JubJubBN256::new();
    let d = params.edwards_d();
    let g = *params.edwards_g();
    let bits = vec![false, false, false, true];
    let eight_g = g.mul_by_bits(&bits, &d);
    assert_eq!(eight_g, g.mul_by_cofactor(&d));
}

#[test]
fn scenario_from_scalar_on_curve_and_subgroup() {
    let params = JubJubBN256::new();
    let mut cs = CS::new(true);
    let t = CNum::allocate(&mut cs, Some(&Num::one()));
    let p = CEdwardsPoint::from_scalar(&t, &params, &mut cs);
    p.assert_in_curve(&params, &mut cs);
    p.assert_in_subgroup(&params, &mut cs);
    assert!(cs.is_satisfied());
}

#[test]
fn subgroup_assertion_accepts_generator() {
    let params = JubJubBN256::new();
    let mut cs = CS::new(true);
    let g = CEdwardsPoint::allocate(&mut cs, Some(params.edwards_g()));
    g.assert_in_curve(&params, &mut cs);
    g.assert_in_subgroup(&params, &mut cs);
    assert!(cs.is_satisfied());
}

#[test]
fn scenario_fixed_base_mul_matches_native() {
    let params = JubJubBN256::new();
    let d = params.edwards_d();
    let g = *params.edwards_g();
    let k: u64 = 0b110101;
    let mut cs = CS::new(true);
    let p = CEdwardsPoint::from_const(&cs, &g);
    let bits = bits_of(k, 8, &mut cs);
    let r = p.mul(&bits, &params, &mut cs);
    let native_bits: Vec<bool> = (0..8).map(|i| (k >> i) & 1 == 1).collect();
    let expected = g.mul_by_bits(&native_bits, &d);
    let rv = r.get_value().unwrap();
    assert_eq!(rv, expected);
    assert!(cs.is_satisfied());
}

#[test]
fn scenario_variable_base_mul_eight() {
    let params = JubJubBN256::new();
    let d = params.edwards_d();
    let g = *params.edwards_g();
    let mut cs = CS::new(true);
    let p = CEdwardsPoint::allocate(&mut cs, Some(&g));
    let bits = bits_of(8, 4, &mut cs);
    let r = p.mul(&bits, &params, &mut cs);
    let expected = g.double(&d).double(&d).double(&d);
    assert_eq!(r.get_value().unwrap(), expected);
    assert!(cs.is_satisfied());
}

#[test]
fn mul_of_identity_is_identity() {
    let params = JubJubBN256::new();
    let id = EdwardsPoint::zero();
    let mut cs = CS::new(true);
    let p = CEdwardsPoint::allocate(&mut cs, Some(&id));
    let bits = bits_of(13, 6, &mut cs);
    let r = p.mul(&bits, &params, &mut cs);
    assert_eq!(r.get_value().unwrap(), id);
    assert!(cs.is_satisfied());
    let mut cs2 = CS::new(true);
    let pc = CEdwardsPoint::from_const(&cs2, &id);
    let bits2 = bits_of(13, 6, &mut cs2);
    let r2 = pc.mul(&bits2, &params, &mut cs2);
    assert_eq!(r2.get_value().unwrap(), id);
    assert!(cs2.is_satisfied());
}

#[test]
fn subgroup_decompress_recovers_generator() {
    let params = JubJubBN256::new();
    let g = *params.edwards_g();
    let native = EdwardsPoint::subgroup_decompress(&g.x, &params).unwrap();
    assert_eq!(native.x, g.x);
    let mut cs = CS::new(true);
    let x = CNum::allocate(&mut cs, Some(&g.x));
    let p = CEdwardsPoint::subgroup_decompress(&x, &params, &mut cs);
    assert_eq!(p.get_value().unwrap().x, g.x);
    assert!(cs.is_satisfied());
}

#[test]
fn determinism_same_calls_same_shape() {
    let build = |tracking: bool| {
        let mut cs = CS::new(tracking);
        let v = if tracking { Some(Num::from_u64(5)) } else { None };
        let a = CNum::allocate(&mut cs, v.as_ref());
        let b = a.mul(&a, &mut cs);
        let c = b.add(&a, &mut cs);
        c.assert_nonzero(&mut cs);
        (cs.num_variables(), cs.num_gates())
    };
    assert_eq!(build(true), build(true));
    assert_eq!(build(true), build(false));
}
