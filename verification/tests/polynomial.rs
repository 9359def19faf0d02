use stark101::field::Gf;
use stark101::polynomial::{fri, lagrange, Polynomial};
use stark101::F;

fn fp(vals: &[i32]) -> Polynomial<3221225473> {
    let coeffs: Vec<F> = vals.iter().map(|&v| F::from_i32(v)).collect();
    Polynomial::from_coeffs(coeffs)
}

#[test]
fn rdiv_test() {
    // Pick two polynomials
    let p0 = fp(&[-10, -3, 1]); // x² -3x -10
    let p1 = fp(&[2, 1]); // x +2

    // Perform rdiv
    let (d, r) = Polynomial::rdiv(p0, &p1);

    // Assert
    assert_eq!(d, fp(&[-5, 1])); // x -5
    assert_eq!(r, fp(&[])); // 0

    // Pick two more polynomials
    let p0 = fp(&[-1, -5, 2]); // 2x² -5x -1
    let p1 = fp(&[-3, 1]); // x -3

    // Perform rdiv
    let (d, r) = Polynomial::rdiv(p0, &p1);

    // Assert
    assert_eq!(d, fp(&[1, 2])); // 2x +1
    assert_eq!(r, fp(&[2])); // 2

    // Last two
    let p0 = fp(&[-9, 6, 0, 0, 2, 0, 1]); // x^6 +2x^4 +6x -9
    let p1 = fp(&[3, 0, 0, 1]); // x^3 +3

    // Perform rdiv
    let (d, r) = Polynomial::rdiv(p0, &p1);

    // Assert
    assert_eq!(d, fp(&[-3, 2, 0, 1])); // x^3 +2x -3
    assert_eq!(r, fp(&[])); // 0
}

#[test]
fn rdiv_identity_on_random_operands() {
    // lhs == q * rhs + r with deg(r) < deg(rhs), for a spread of
    // pseudo-random operands
    let mut seed: u32 = 12345;
    let mut next = move || {
        seed = seed.wrapping_mul(1664525).wrapping_add(1013904223);
        seed
    };
    for _ in 0..20 {
        let lhs_coeffs: Vec<F> = (0..9).map(|_| F::new(next())).collect();
        let mut rhs_coeffs: Vec<F> = (0..4).map(|_| F::new(next())).collect();
        rhs_coeffs.push(F::new(1));
        let lhs = Polynomial::from_coeffs(lhs_coeffs);
        let rhs = Polynomial::from_coeffs(rhs_coeffs);
        let (q, r) = Polynomial::rdiv(lhs.clone(), &rhs);
        assert!(r.num_coeffs() < rhs.num_coeffs());
        let recombined = q.mul(&rhs).add(&r);
        assert_eq!(recombined, lhs);
    }
}

#[test]
fn lagrange_test() {
    type F7 = Gf<7>;

    // Pick 4 points
    let p0 = (F7::new(0), F7::new(2));
    let p1 = (F7::new(1), F7::new(4));
    let p2 = (F7::new(2), F7::new(3));
    let p3 = (F7::new(3), F7::new(1));

    // Generate lagrange for those 4 points
    let poly = lagrange(&vec![p0, p1, p2, p3]);

    // Solve for the remaining points in GF7
    let p4x = F7::new(4);
    let p4 = (p4x, poly.solve(p4x));
    let p5x = F7::new(5);
    let p5 = (p5x, poly.solve(p5x));
    let p6x = F7::new(6);
    let p6 = (p6x, poly.solve(p6x));

    // Assert the lagrange for combinations of points are equal
    assert_eq!(poly, lagrange(&vec![p0, p3, p5, p6]));
    assert_eq!(poly, lagrange(&vec![p1, p6, p3, p2]));
    assert_eq!(poly, lagrange(&vec![p3, p2, p1, p0]));
    assert_eq!(poly, lagrange(&vec![p6, p5, p4, p3]));
}

#[test]
fn lagrange_round_trip() {
    // lagrange(points).solve(x_i) == y_i over a small field
    type F11 = Gf<11>;
    let points: Vec<(F11, F11)> = (0..7u32).map(|i| (F11::new(i), F11::new((i * i + 3) % 11))).collect();
    let poly = lagrange(&points);
    for &(x, y) in &points {
        assert_eq!(poly.solve(x).residue(), y.residue());
    }
    assert!(poly.num_coeffs() <= points.len());
}

#[test]
fn fri_fold_coefficients() {
    // Folding pairs the even and odd coefficients: c[2i] + beta*c[2i+1]
    let p = fp(&[1, 2, 3, 4, 5]);
    let beta = F::new(10);
    let folded = fri(&p, beta);
    assert_eq!(folded, fp(&[21, 43, 5]));
}

#[test]
fn monomial_and_degree() {
    let m = stark101::polynomial::x(F::new(7), 3);
    assert_eq!(m.degree(), Some(3));
    assert_eq!(m.coeff_at(3).residue(), 7);
    assert_eq!(m.coeff_at(0).residue(), 0);
    let z = fp(&[]);
    assert_eq!(z.degree(), None);
    assert_eq!(fp(&[0]).degree(), None);
}

#[test]
fn negation() {
    let p = fp(&[1, -2, 3]);
    let n = p.neg();
    assert_eq!(n, fp(&[-1, 2, -3]));
    assert_eq!(p.add(&n), fp(&[]));
    assert_eq!(fp(&[]).neg(), fp(&[]));
}

#[test]
fn apply_const_scales_coefficients() {
    // f(c x) scales coefficient i by c^i
    let p = fp(&[1, 1, 1]);
    let q = p.apply_const(F::new(2));
    assert_eq!(q, fp(&[1, 2, 4]));
}
