use whir::field::Fp;
use whir::poly_utils::hypercube::BinaryHypercubePoint;
use whir::poly_utils::sequential_lag_poly::LagrangePolynomialIterator;
use whir::poly_utils::{eq_poly, MultilinearPoint};

fn fp(x: u64) -> Fp {
    Fp::from_u64(x)
}

#[test]
fn test_blendy() {
    let one = fp(1);
    let (a, b) = (fp(2), fp(3));
    let point_1 = MultilinearPoint(vec![a, b]);

    let mut lag_iterator = LagrangePolynomialIterator::new(&point_1);

    assert_eq!(
        lag_iterator.next().unwrap(),
        (BinaryHypercubePoint(0), one.sub(a).mul(one.sub(b)))
    );
    assert_eq!(
        lag_iterator.next().unwrap(),
        (BinaryHypercubePoint(1), one.sub(a).mul(b))
    );
    assert_eq!(
        lag_iterator.next().unwrap(),
        (BinaryHypercubePoint(2), a.mul(one.sub(b)))
    );
    assert_eq!(
        lag_iterator.next().unwrap(),
        (BinaryHypercubePoint(3), a.mul(b))
    );
    assert_eq!(lag_iterator.next(), None);
}

#[test]
fn test_blendy_2() {
    let point = MultilinearPoint(vec![fp(12), fp(13), fp(32)]);

    let mut last_b = None;
    let mut lag_iterator = LagrangePolynomialIterator::new(&point);
    while let Some((b, lag)) = lag_iterator.next() {
        assert_eq!(eq_poly(&point, b), lag);
        assert!(b.0 < 1 << 3);
        last_b = Some(b);
    }
    assert_eq!(last_b, Some(BinaryHypercubePoint(7)));
}

#[test]
fn test_blendy_3() {
    let point = MultilinearPoint(vec![
        fp(414151),
        fp(109849018),
        fp(033184190),
        fp(033184190),
        fp(033184190),
    ]);

    let mut last_b = None;
    let mut lag_iterator = LagrangePolynomialIterator::new(&point);
    while let Some((b, lag)) = lag_iterator.next() {
        assert_eq!(eq_poly(&point, b), lag);
        last_b = Some(b);
    }
    assert_eq!(last_b, Some(BinaryHypercubePoint(31)));
}
