use hypercube_order::fields::{
    SmallF16, SmallF16ConfigMont, GENERATOR, MODULUS, MODULUS_U128, NEG_ONE, ONE,
    QUADRATIC_NONRESIDUE_TO_TRACE, R2, TWO_ADICITY, TWO_ADIC_ROOT_OF_UNITY, ZERO,
};

const P: u64 = 65521;

// The field value of a Montgomery word, computed with plain integers.
fn value_of(e: SmallF16) -> u64 {
    (e.value as u64 * 61153) % P
}

fn elem(v: u16) -> SmallF16 {
    SmallF16ConfigMont::new(v)
}

fn pow_mod(b: u64, mut e: u64) -> u64 {
    let mut r = 1;
    let mut b = b % P;
    while e > 0 {
        if e & 1 == 1 {
            r = r * b % P;
        }
        b = b * b % P;
        e >>= 1;
    }
    r
}

#[test]
fn constants_stand_for_their_values() {
    assert_eq!(MODULUS, 65521);
    assert_eq!(MODULUS_U128, 65521);
    assert_eq!(TWO_ADICITY, 4);
    assert_eq!(value_of(SmallF16 { value: ZERO }), 0);
    assert_eq!(value_of(SmallF16 { value: ONE }), 1);
    assert_eq!(value_of(SmallF16 { value: NEG_ONE }), P - 1);
    assert_eq!(value_of(SmallF16 { value: GENERATOR }), 2);
    assert_eq!(value_of(SmallF16 { value: TWO_ADIC_ROOT_OF_UNITY }), pow_mod(2, 4095));
    assert_eq!(value_of(SmallF16 { value: QUADRATIC_NONRESIDUE_TO_TRACE }), pow_mod(17, 4095));
    assert_eq!(R2 as u64, 65536 * 65536 % P);
}

#[test]
fn new_encodes_and_exit_decodes() {
    assert_eq!(elem(0).value, 0);
    assert_eq!(elem(1).value, 15);
    assert_eq!(elem(2).value, 30);
    // values at and above the modulus are reduced first
    assert_eq!(elem(65521).value, 0);
    assert_eq!(elem(65535).value, elem(14).value);
    for v in [0u16, 1, 2, 7, 1000, 65520, 65521, 65535] {
        let mut e = elem(v);
        assert_eq!(value_of(e), v as u64 % P);
        SmallF16ConfigMont::exit(&mut e);
        assert_eq!(e.value as u64, v as u64 % P);
    }
}

#[test]
fn add_sub_neg_double() {
    let mut a = elem(65520);
    SmallF16ConfigMont::add_assign(&mut a, &elem(5));
    assert_eq!(value_of(a), 4);
    // the raw sum overflows sixteen bits
    let mut big = SmallF16 { value: 65000 };
    SmallF16ConfigMont::add_assign(&mut big, &SmallF16 { value: 65000 });
    assert_eq!(big.value as u64, (65000 + 65000) % P);

    let mut b = elem(3);
    SmallF16ConfigMont::sub_assign(&mut b, &elem(10));
    assert_eq!(value_of(b), P - 7);
    let mut c = elem(10);
    SmallF16ConfigMont::sub_assign(&mut c, &elem(3));
    assert_eq!(value_of(c), 7);

    let mut d = elem(9);
    SmallF16ConfigMont::neg_in_place(&mut d);
    assert_eq!(value_of(d), P - 9);
    let mut z = elem(0);
    SmallF16ConfigMont::neg_in_place(&mut z);
    assert_eq!(z.value, 0);

    let mut e = elem(40000);
    SmallF16ConfigMont::double_in_place(&mut e);
    assert_eq!(value_of(e), 80000 % P);
}

#[test]
fn mul_and_square() {
    for (x, y) in [(0u16, 5u16), (1, 1), (2, 3), (65520, 65520), (12345, 54321), (65520, 2)] {
        let mut a = elem(x);
        SmallF16ConfigMont::mul_assign(&mut a, &elem(y));
        assert_eq!(value_of(a), (x as u64 * y as u64) % P);
        assert!(a.value < MODULUS);
    }
    let mut s = elem(300);
    SmallF16ConfigMont::square_in_place(&mut s);
    assert_eq!(value_of(s), 90000 % P);
    // the Montgomery product of two raw words
    let mut raw = SmallF16 { value: 2 };
    SmallF16ConfigMont::mul_assign(&mut raw, &SmallF16 { value: 3 });
    assert_eq!(raw.value as u64, 6 * 61153 % P);
}

#[test]
fn inverse_of_nonzero_elements() {
    assert!(SmallF16ConfigMont::inverse(&elem(0)).is_none());
    for x in [1u16, 2, 3, 17, 255, 4096, 65520] {
        let a = elem(x);
        let inv = SmallF16ConfigMont::inverse(&a).unwrap();
        assert_eq!(value_of(inv), pow_mod(x as u64, P - 2));
        assert_eq!(value_of(inv) * x as u64 % P, 1);
        let mut prod = a;
        SmallF16ConfigMont::mul_assign(&mut prod, &inv);
        assert_eq!(prod.value, ONE);
    }
}

#[test]
fn sum_of_products_every_length() {
    let a1 = [elem(3)];
    let b1 = [elem(4)];
    assert_eq!(value_of(SmallF16ConfigMont::sum_of_products(&a1, &b1)), 12);
    let a2 = [elem(3), elem(65520)];
    let b2 = [elem(4), elem(2)];
    assert_eq!(value_of(SmallF16ConfigMont::sum_of_products(&a2, &b2)), (12 + P - 2) % P);
    let a0: [SmallF16; 0] = [];
    let b0: [SmallF16; 0] = [];
    assert_eq!(SmallF16ConfigMont::sum_of_products(&a0, &b0).value, 0);
    let a4 = [elem(1), elem(2), elem(3), elem(40000)];
    let b4 = [elem(5), elem(6), elem(7), elem(40000)];
    let expected = (5 + 12 + 21 + 40000u64 * 40000) % P;
    assert_eq!(value_of(SmallF16ConfigMont::sum_of_products(&a4, &b4)), expected);
}

#[test]
fn bigint_conversions() {
    assert_eq!(SmallF16ConfigMont::from_bigint([7, 0]).map(value_of), Some(7));
    assert_eq!(SmallF16ConfigMont::from_bigint([65520, 0]).map(value_of), Some(65520));
    // the modulus itself is accepted and reduces to zero
    assert_eq!(SmallF16ConfigMont::from_bigint([65521, 0]).map(|e| e.value), Some(0));
    assert!(SmallF16ConfigMont::from_bigint([65522, 0]).is_none());
    assert!(SmallF16ConfigMont::from_bigint([0, 1]).is_none());
    assert!(SmallF16ConfigMont::from_bigint([u64::MAX, u64::MAX]).is_none());
    for v in [0u16, 1, 9, 65520] {
        let e = elem(v);
        let limbs = SmallF16ConfigMont::into_bigint(e);
        assert_eq!(limbs, [v as u64, 0]);
        assert_eq!(SmallF16ConfigMont::from_bigint(limbs), Some(e));
    }
}

#[test]
fn debug_smallf16_and_smallm31_and_goldilocks() {
    // SmallF16 (modulus 65521): one is stored in Montgomery form, 2^16 mod p
    let small_f16 = SmallF16ConfigMont::new(1);
    assert_eq!(small_f16.value, 15);
    assert_eq!(small_f16.value, ONE);
    assert_eq!(value_of(small_f16), 1);
    assert_eq!(SmallF16ConfigMont::into_bigint(small_f16), [1, 0]);
}
