use ecurve::{mod_inv, mul_mod, reduce, CurveError};

#[test]
fn reduce_gives_the_remainder_in_range() {
    assert_eq!(reduce(15, 7), 1);
    assert_eq!(reduce(0, 7), 0);
    assert_eq!(reduce(7, 7), 0);
    assert_eq!(reduce(6, 7), 6);
}

#[test]
fn reduce_normalizes_negative_values() {
    assert_eq!(reduce(-1, 7), 6);
    assert_eq!(reduce(-7, 7), 0);
    assert_eq!(reduce(-14, 7), 0);
    assert_eq!(reduce(-15, 7), 6);
    assert_eq!(reduce(i128::MIN, 1), 0);
    assert_eq!(reduce(-1, i64::MAX), i64::MAX - 1);
}

#[test]
fn mul_mod_does_not_overflow() {
    assert_eq!(mul_mod(i64::MAX, i64::MAX, i64::MAX), 0);
    assert_eq!(mul_mod(i64::MIN, i64::MIN, i64::MAX), 1);
    assert_eq!(mul_mod(i64::MIN, i64::MAX, 2), 0);
    assert_eq!(mul_mod(-3, 5, 7), 6);
    assert_eq!(mul_mod(3, 5, 7), 1);
}

#[test]
fn mod_inv_of_small_values() {
    assert_eq!(mod_inv(3, 7), Ok(5));
    assert_eq!(mod_inv(1, 7), Ok(1));
    assert_eq!(mod_inv(6, 7), Ok(6));
    assert_eq!(mod_inv(17, 3120), Ok(2753));
}

#[test]
fn mod_inv_reduces_its_argument_first() {
    assert_eq!(mod_inv(10, 7), Ok(5));
    assert_eq!(mod_inv(-4, 7), Ok(5));
    assert_eq!(mod_inv(-1, 7), Ok(6));
}

#[test]
fn mod_inv_times_value_is_one_for_every_unit() {
    let moduli: [i64; 6] = [2, 3, 7, 12, 97, 3120];
    for m in moduli {
        for a in -2 * m..2 * m {
            match mod_inv(a, m) {
                Ok(t) => {
                    assert!(0 <= t && t < m);
                    assert_eq!((t as i128 * a as i128).rem_euclid(m as i128), 1);
                }
                Err(e) => {
                    assert_eq!(e, CurveError::NonInvertibleElement);
                    let r = a.rem_euclid(m);
                    let common = (2..=m).any(|d| r % d == 0 && m % d == 0);
                    assert!(common, "{} has no inverse modulo {}", a, m);
                }
            }
        }
    }
}

#[test]
fn mod_inv_exists_exactly_for_coprime_values() {
    let m: i64 = 36;
    for a in 0..m {
        let coprime = !(2..=m).any(|d| a % d == 0 && m % d == 0);
        assert_eq!(mod_inv(a, m).is_ok(), coprime);
    }
}

#[test]
fn mod_inv_rejects_values_without_inverse() {
    assert_eq!(mod_inv(0, 7), Err(CurveError::NonInvertibleElement));
    assert_eq!(mod_inv(14, 7), Err(CurveError::NonInvertibleElement));
    assert_eq!(mod_inv(2, 4), Err(CurveError::NonInvertibleElement));
    assert_eq!(mod_inv(-3, 6), Err(CurveError::NonInvertibleElement));
}

#[test]
fn mod_inv_modulo_one_is_zero() {
    assert_eq!(mod_inv(0, 1), Ok(0));
    assert_eq!(mod_inv(5, 1), Ok(0));
    assert_eq!(mod_inv(-5, 1), Ok(0));
}

#[test]
fn mod_inv_at_the_ends_of_the_range() {
    assert_eq!(mod_inv(2, i64::MAX), Ok(1i64 << 62));
    assert_eq!(mod_inv(i64::MIN, i64::MAX), Ok(i64::MAX - 1));
    assert_eq!(mod_inv(i64::MAX, i64::MAX), Err(CurveError::NonInvertibleElement));
    assert_eq!(mod_inv(i64::MAX - 1, i64::MAX), Ok(i64::MAX - 1));
    assert_eq!(mod_inv(1, i64::MAX), Ok(1));
}
