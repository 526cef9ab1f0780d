use kauffman::poly;

#[test]
fn equality_over_degree_shifts() {
    let p = poly::new(vec![1, 2, 3, 4], 3);
    let q = poly::new(vec![0, 0, 0, 1, 2, 3, 4], 0);
    assert_eq!(p, q);
}

#[test]
fn poly_plus_zero() {
    let p = poly::new(vec![1, 2, 3, 4], 4);
    let zero = poly::new(vec![0], 0);
    assert_eq!(p.clone(), p.clone().add(&zero));
}

#[test]
fn twice_poly() {
    let p = poly::new(vec![1, 2, 3, 4], 0);
    let q = poly::new(vec![2, 4, 6, 8], 0);
    assert_eq!(p.clone().add(&p), q);
}

#[test]
fn additive_inverse() {
    let p = poly::new(vec![1, 2, 3, 4], 0);
    let q = poly::new(vec![-1, -2, -3, -4], 0);
    let zero = poly::new(vec![0], 4);
    assert_eq!(p.add(&q), zero);
}

#[test]
fn subtract_from_self() {
    let p = poly::new(vec![1, 2, 3, 4], 0);
    let zero = poly::new(vec![0], 4);
    assert_eq!(p.clone().sub(&p), zero);
}

#[test]
fn subtract_zero() {
    let p = poly::new(vec![1, 2, 3, 4], 3);
    let zero = poly::new(vec![0], 3);
    assert_eq!(p.clone().sub(&zero), p.clone());
}

#[test]
fn double_negative() {
    let p = poly::new(vec![1, 2, 3, 4], 3);
    assert_eq!(p.clone().neg().neg(), p.clone());
}

#[test]
fn addition_subtraction() {
    let p = poly::new(vec![1, 2, 3, 4], 0);
    let q = poly::new(vec![2, 4, 6, 8, 7, 1], 0);
    assert_eq!(p.clone().neg().add(&q), q.clone().sub(&p));
}

#[test]
fn mult_by_zero() {
    let p = poly::new(vec![1, 2, 3, 4], 3);
    let zero = poly::new(vec![0], 0);
    assert_eq!(p.mul(&zero), zero.clone());
}

#[test]
fn mult_by_one() {
    let p = poly::new(vec![1, 2, 3, 4], -4);
    let one = poly::new(vec![1], 0);
    assert_eq!(p.clone().mul(&one), p.clone());
}

#[test]
fn multiplication() {
    let p = poly::new(vec![3, 0, 3, 7], 0);
    let q = poly::new(vec![4, 5], 1);
    let pq = poly::new(vec![12, 15, 12, 43, 35], 1);
    assert_eq!(p.mul(&q), pq);
}

#[test]
fn test_shift() {
    let p = poly::new(vec![0, 1, 3, 7], 0);
    let q = poly::new(vec![1, 3, 7], 0);
    assert_eq!(p, q.shift(1));
}

#[test]
fn test_pow() {
    let p = poly::new(vec![0, 1, 3, 7], 0);
    let one = poly::new(vec![1], 0);

    assert_eq!(p.pow(0), one);
    assert_eq!(p.pow(1), p);
    assert_eq!(p.pow(2), p.clone().mul(&p));
    assert_eq!(p.pow(3), p.clone().mul(&p).mul(&p));
}

#[test]
fn multiplication_commutes() {
    let p = poly::new(vec![3, 0, 3, 7], 0);
    let q = poly::new(vec![4, 5], 1);
    assert_eq!(p.mul(&q), q.mul(&p));
}

#[test]
fn multiplication_distributes() {
    let p = poly::new(vec![3, 0, 3, 7], 0);
    let q = poly::new(vec![4, 5], 1);
    let r = poly::new(vec![-2, 1, 6], -1);
    assert_eq!(p.mul(&q.add(&r)), p.mul(&q).add(&p.mul(&r)));
}

#[test]
fn multiplication_associates() {
    let p = poly::new(vec![3, 0, 3, 7], 0);
    let q = poly::new(vec![4, 5], 1);
    let r = poly::new(vec![-2, 1, 6], -1);
    assert_eq!(p.mul(&q).mul(&r), p.mul(&q.mul(&r)));
}

#[test]
fn coeff_lookup() {
    let p = poly::new(vec![5, 0, -7], -1);
    assert_eq!(p.coeff(-1), 5);
    assert_eq!(p.coeff(0), 0);
    assert_eq!(p.coeff(1), -7);
    assert_eq!(p.coeff(2), 0);
    assert_eq!(p.coeff(-100), 0);
}

#[test]
fn degree_of_shifted() {
    let p = poly::new(vec![1, 2, 3], -1);
    assert_eq!(p.degree(), 2);
    assert_eq!(p.shift(4).degree(), 6);
}

#[test]
fn pow_of_zero_exponent_on_empty() {
    let p = poly::new(vec![], 0);
    let one = poly::new(vec![1], 0);
    assert_eq!(p.pow(0), one);
    assert_eq!(p.pow(2), poly::new(vec![0], 0));
}
