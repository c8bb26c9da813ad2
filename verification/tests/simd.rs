use rinha::proto::DIM;
use rinha::simd::l2_squared_scalar;

#[test]
fn l2_zero_for_identical() {
    let v = [1_i16; DIM];
    assert_eq!(l2_squared_scalar(&v, &v), 0);
}

#[test]
fn l2_sums_squared_differences_without_overflow() {
    let a = [i16::MAX; DIM];
    let b = [i16::MIN; DIM];
    assert_eq!(l2_squared_scalar(&a, &b), 14 * 65535_i64 * 65535);
    let mut c = [0_i16; DIM];
    c[3] = 3;
    c[13] = -4;
    assert_eq!(l2_squared_scalar(&c, &[0; DIM]), 25);
    assert_eq!(l2_squared_scalar(&[0; DIM], &c), 25);
}
