use whir::field::Fp;
use whir::poly_utils::hypercube::BinaryHypercubePoint;
use whir::poly_utils::{eq_poly, eq_poly3, eq_poly_outside, MultilinearPoint};

fn fp(x: u64) -> Fp {
    Fp::from_u64(x)
}

/// Multilinear evaluation of a coefficient vector (most-significant variable
/// selecting the upper half) at a point.
fn eval_coeffs(coeffs: &[Fp], point: &[Fp]) -> Fp {
    if point.is_empty() {
        return coeffs[0];
    }
    let half = coeffs.len() / 2;
    let f0 = eval_coeffs(&coeffs[..half], &point[1..]);
    let f1 = eval_coeffs(&coeffs[half..], &point[1..]);
    f0.add(point[0].mul(f1))
}

#[test]
fn test_equality() {
    let point = MultilinearPoint(vec![fp(0), fp(0)]);
    assert_eq!(eq_poly(&point, BinaryHypercubePoint(0)), fp(1));
    assert_eq!(eq_poly(&point, BinaryHypercubePoint(1)), fp(0));
    assert_eq!(eq_poly(&point, BinaryHypercubePoint(2)), fp(0));
    assert_eq!(eq_poly(&point, BinaryHypercubePoint(3)), fp(0));

    let point = MultilinearPoint(vec![fp(1), fp(0)]);
    assert_eq!(eq_poly(&point, BinaryHypercubePoint(0)), fp(0));
    assert_eq!(eq_poly(&point, BinaryHypercubePoint(1)), fp(0));
    assert_eq!(eq_poly(&point, BinaryHypercubePoint(2)), fp(1));
    assert_eq!(eq_poly(&point, BinaryHypercubePoint(3)), fp(0));
}

#[test]
fn test_equality_again() {
    let poly = vec![fp(35), fp(97), fp(10), fp(32)];
    let point = MultilinearPoint(vec![fp(42), fp(36)]);
    let eval = eval_coeffs(&poly, &point.0);

    let mut sum = fp(0);
    for i in 0..4usize {
        let vertex = BinaryHypercubePoint(i);
        let at_vertex = eval_coeffs(
            &poly,
            &MultilinearPoint::from_binary_hypercube_point(vertex, 2).0,
        );
        sum = sum.add(at_vertex.mul(eq_poly(&point, vertex)));
    }
    assert_eq!(eval, sum);
}

#[test]
fn test_equality3() {
    let point = MultilinearPoint(vec![fp(0), fp(0)]);

    assert_eq!(eq_poly3(&point, 0), fp(1));
    assert_eq!(eq_poly3(&point, 1), fp(0));
    assert_eq!(eq_poly3(&point, 2), fp(0));
    assert_eq!(eq_poly3(&point, 3), fp(0));
    assert_eq!(eq_poly3(&point, 4), fp(0));
    assert_eq!(eq_poly3(&point, 5), fp(0));
    assert_eq!(eq_poly3(&point, 6), fp(0));
    assert_eq!(eq_poly3(&point, 7), fp(0));
    assert_eq!(eq_poly3(&point, 8), fp(0));

    let point = MultilinearPoint(vec![fp(1), fp(0)]);

    assert_eq!(eq_poly3(&point, 0), fp(0));
    assert_eq!(eq_poly3(&point, 1), fp(0));
    assert_eq!(eq_poly3(&point, 2), fp(0));
    assert_eq!(eq_poly3(&point, 3), fp(1));
    assert_eq!(eq_poly3(&point, 4), fp(0));
    assert_eq!(eq_poly3(&point, 5), fp(0));
    assert_eq!(eq_poly3(&point, 6), fp(0));
    assert_eq!(eq_poly3(&point, 7), fp(0));
    assert_eq!(eq_poly3(&point, 8), fp(0));

    let point = MultilinearPoint(vec![fp(0), fp(2)]);

    assert_eq!(eq_poly3(&point, 0), fp(0));
    assert_eq!(eq_poly3(&point, 1), fp(0));
    assert_eq!(eq_poly3(&point, 2), fp(1));
    assert_eq!(eq_poly3(&point, 3), fp(0));
    assert_eq!(eq_poly3(&point, 4), fp(0));
    assert_eq!(eq_poly3(&point, 5), fp(0));
    assert_eq!(eq_poly3(&point, 6), fp(0));
    assert_eq!(eq_poly3(&point, 7), fp(0));
    assert_eq!(eq_poly3(&point, 8), fp(0));

    let point = MultilinearPoint(vec![fp(2), fp(2)]);

    assert_eq!(eq_poly3(&point, 0), fp(0));
    assert_eq!(eq_poly3(&point, 1), fp(0));
    assert_eq!(eq_poly3(&point, 2), fp(0));
    assert_eq!(eq_poly3(&point, 3), fp(0));
    assert_eq!(eq_poly3(&point, 4), fp(0));
    assert_eq!(eq_poly3(&point, 5), fp(0));
    assert_eq!(eq_poly3(&point, 6), fp(0));
    assert_eq!(eq_poly3(&point, 7), fp(0));
    assert_eq!(eq_poly3(&point, 8), fp(1));
}

#[test]
fn expand_from_univariate() {
    let num_variables = 4;

    let point0 = MultilinearPoint::expand_from_univariate(fp(0), num_variables);
    let point1 = MultilinearPoint::expand_from_univariate(fp(1), num_variables);
    let point2 = MultilinearPoint::expand_from_univariate(fp(2), num_variables);

    assert_eq!(point0.n_variables(), num_variables);
    assert_eq!(point1.n_variables(), num_variables);
    assert_eq!(point2.n_variables(), num_variables);

    assert_eq!(
        MultilinearPoint::from_binary_hypercube_point(BinaryHypercubePoint(0), num_variables),
        point0
    );

    assert_eq!(
        MultilinearPoint::from_binary_hypercube_point(
            BinaryHypercubePoint((1 << num_variables) - 1),
            num_variables
        ),
        point1
    );

    assert_eq!(
        MultilinearPoint(vec![fp(256), fp(16), fp(4), fp(2)]),
        point2
    );
}

#[test]
fn from_hypercube_and_back() {
    let hypercube_point = BinaryHypercubePoint(24);
    assert_eq!(
        Some(hypercube_point),
        MultilinearPoint::from_binary_hypercube_point(hypercube_point, 5).to_hypercube()
    );
}

#[test]
fn to_hypercube_rejects_non_boolean() {
    let point = MultilinearPoint(vec![fp(1), fp(7)]);
    assert_eq!(point.to_hypercube(), None);
}

#[test]
fn eq_poly_outside_concrete() {
    // (a*b + (1-a)(1-b)) per coordinate: (2*5 + (-1)*(-4)) * (3*1 + (-2)*0) = 14 * 3 = 42
    let a = MultilinearPoint(vec![fp(2), fp(3)]);
    let b = MultilinearPoint(vec![fp(5), fp(1)]);
    assert_eq!(eq_poly_outside(&a, &b), fp(42));
}

#[test]
fn eq_poly_outside_on_boolean_points_is_equality() {
    for u in 0..4usize {
        for v in 0..4usize {
            let a = MultilinearPoint::from_binary_hypercube_point(BinaryHypercubePoint(u), 2);
            let b = MultilinearPoint::from_binary_hypercube_point(BinaryHypercubePoint(v), 2);
            let expected = if u == v { fp(1) } else { fp(0) };
            assert_eq!(eq_poly_outside(&a, &b), expected);
        }
    }
}

#[test]
fn rand_draws_the_requested_dimension() {
    let mut rng = rand::thread_rng();
    let point = MultilinearPoint::rand(&mut rng, 6);
    assert_eq!(point.n_variables(), 6);
}
