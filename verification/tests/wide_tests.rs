use cobot_hub::wide::Wide;

#[test]
fn zero_is_not_smaller_than_zero() {
    assert!(!Wide::zero().lt(&Wide::zero()));
}

#[test]
fn shifted_terms_compare_as_numbers() {
    // 3 * 2^100 < 2^102
    let mut a = Wide::zero();
    a.add_shifted(3, 100);
    let mut b = Wide::zero();
    b.add_shifted(1, 102);
    assert!(a.lt(&b));
    assert!(!b.lt(&a));
    // 3 * 2^100 + 2^100 = 2^102
    a.add_shifted(1, 100);
    assert!(!a.lt(&b));
    assert!(!b.lt(&a));
    // one more unit tips the balance
    b.add_shifted(1, 0);
    assert!(a.lt(&b));
}

#[test]
fn carries_run_through_full_limbs() {
    // (2^64 - 1) * 2^31 + 2^31 = 2^95
    let mut a = Wide::zero();
    a.add_shifted(u64::MAX, 31);
    a.add_shifted(1, 31);
    let mut b = Wide::zero();
    b.add_shifted(1, 95);
    assert!(!a.lt(&b));
    assert!(!b.lt(&a));
    // 2^32 - 1 carries out of the lowest limb when one is added
    let mut c = Wide::zero();
    c.add_shifted(0xffff_ffff, 0);
    c.add_shifted(1, 0);
    let mut d = Wide::zero();
    d.add_shifted(1, 32);
    assert!(!c.lt(&d));
    assert!(!d.lt(&c));
}

#[test]
fn sums_of_many_terms_are_exact() {
    let mut a = Wide::zero();
    let mut b = Wide::zero();
    for k in 0..8u32 {
        a.add_shifted(0xffff_ffff_ffff, 506);
        b.add_shifted(0xffff_ffff_ffff, 506 - k);
    }
    assert!(b.lt(&a));
    assert!(!a.lt(&b));
}
