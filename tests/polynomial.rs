use dicepool::poly::Polynomial;

#[test]
fn test_polynomial_add() {
    let mut p1 = Polynomial::new();
    let mut p2 = Polynomial::new();
    let mut p3 = Polynomial::new();
    p1.set_coefficient(0, 1);
    p2.set_coefficient(0, 0);
    p2.set_coefficient(1, 2);
    p2.set_coefficient(2, 4);
    p3.set_coefficient(0, 1);
    p3.set_coefficient(1, 2);
    p3.set_coefficient(2, 4);

    assert_eq!(p1.add(p2), p3);
}

#[test]
fn test_polynomial_sub() {
    let mut p1 = Polynomial::new();
    let mut p2 = Polynomial::new();
    let mut p3 = Polynomial::new();
    p1.set_coefficient(0, 1);
    p2.set_coefficient(0, 0);
    p2.set_coefficient(1, 2);
    p2.set_coefficient(2, 4);
    p3.set_coefficient(0, 1);
    p3.set_coefficient(1, -2);
    p3.set_coefficient(2, -4);

    assert_eq!(p1.sub(p2), p3);
}

#[test]
fn test_polynomial_mul() {
    let mut p1 = Polynomial::new();
    let mut p2 = Polynomial::new();
    let mut p3 = Polynomial::new();
    p1.set_coefficient(0, 1);
    p1.set_coefficient(1, 1);
    p2.set_coefficient(1, 2);
    p2.set_coefficient(2, 4);
    p3.set_coefficient(1, 2);
    p3.set_coefficient(2, 6);
    p3.set_coefficient(3, 4);

    assert_eq!(p1.mul(p2), p3);
}

#[test]
fn test_polynomial_pow() {
    let mut p1 = Polynomial::new();
    let mut p2 = Polynomial::new();
    let mut p3 = Polynomial::new();
    p1.set_coefficient(0, 1);
    p1.set_coefficient(1, 1);
    p2.set_coefficient(0, 1);
    p2.set_coefficient(1, 2);
    p2.set_coefficient(2, 1);
    p3.set_coefficient(0, 1);
    p3.set_coefficient(1, 3);
    p3.set_coefficient(2, 3);
    p3.set_coefficient(3, 1);
    assert_eq!(p1.pow(2), p2);
    assert_eq!(p1.pow(3), p3);
}

fn die(sides: u16) -> Polynomial {
    let mut p = Polynomial::new();
    for face in 1..=sides {
        p.set_coefficient(face, 1);
    }
    p
}

#[test]
fn two_d6_convolution_matches_known_counts() {
    let product = die(6).mul(die(6));
    let expected: [i128; 13] = [0, 0, 1, 2, 3, 4, 5, 6, 5, 4, 3, 2, 1];
    for (k, c) in expected.iter().enumerate() {
        assert_eq!(product.get_coefficient(k as u16), *c);
    }
    assert_eq!(product.get_coefficient(7), 6);
    assert_eq!(product.get_coefficient(13), 0);
}

#[test]
fn square_equals_product_with_itself() {
    let mut p = Polynomial::new();
    p.set_coefficient(0, 2);
    p.set_coefficient(3, 5);
    p.set_coefficient(4, 1);
    assert_eq!(p.pow(2), p.duplicate().mul(p.duplicate()));
    assert_eq!(die(4).pow(2), die(4).mul(die(4)));
}

#[test]
fn zeroth_power_is_zero_polynomial() {
    let p = die(6);
    let zero = p.pow(0);
    assert_eq!(zero, Polynomial::new());
    assert_eq!(zero.get_coefficient(0), 0);
    assert!(zero.get_coefficients().is_empty());
}

#[test]
fn add_assign_sub_assign_mul_assign() {
    let mut p = die(2);
    p.add_assign(die(3));
    assert_eq!(p.get_coefficients(), &[0, 2, 2, 1]);
    p.sub_assign(die(1));
    assert_eq!(p.get_coefficients(), &[0, 1, 2, 1]);
    let mut q = die(2);
    q.mul_assign(die(2));
    assert_eq!(q.get_coefficients(), &[0, 0, 1, 2, 1]);
}

#[test]
fn equality_ignores_trailing_zeros() {
    let mut a = Polynomial::new();
    a.set_coefficient(1, 3);
    let mut b = Polynomial::new();
    b.set_coefficient(1, 3);
    b.set_coefficient(5, 0);
    assert_eq!(a, b);
    b.set_coefficient(5, 1);
    assert_ne!(a, b);
}
