use whir::field::Fp;
use whir::poly_utils::evals::EvaluationsList;
use whir::poly_utils::hypercube::BinaryHypercubePoint;
use whir::poly_utils::{eq_poly, MultilinearPoint};

fn fp(x: u64) -> Fp {
    Fp::from_u64(x)
}

#[test]
fn test_evaluation() {
    let evaluations_vec = vec![fp(0), fp(1), fp(0), fp(1)];
    let evals = EvaluationsList::new(evaluations_vec.clone());

    for i in 0..4usize {
        assert_eq!(
            evaluations_vec[i],
            evals.evaluate(&MultilinearPoint::from_binary_hypercube_point(
                BinaryHypercubePoint(i),
                2
            ))
        );
    }
}

#[test]
fn evaluation_is_the_interpolation_sum() {
    // At a non-Boolean point the evaluation must equal the explicit
    // Lagrange-weighted sum over all vertices.
    let table = vec![fp(7), fp(11), fp(13), fp(17), fp(19), fp(23), fp(29), fp(31)];
    let evals = EvaluationsList::new(table.clone());
    let point = MultilinearPoint(vec![fp(5), fp(9), fp(2)]);

    let mut sum = fp(0);
    for b in 0..8usize {
        sum = sum.add(eq_poly(&point, BinaryHypercubePoint(b)).mul(table[b]));
    }
    assert_eq!(evals.evaluate(&point), sum);
}

#[test]
fn evaluation_at_vertex_one_of_two_variable_table() {
    // The 2-variable table [0, 1, 0, 1]: vertex 1 (point (0, 1)) reads 1 and
    // vertex 2 (point (1, 0)) reads 0.
    let evals = EvaluationsList::new(vec![fp(0), fp(1), fp(0), fp(1)]);
    let at_one = MultilinearPoint::from_binary_hypercube_point(BinaryHypercubePoint(1), 2);
    let at_two = MultilinearPoint::from_binary_hypercube_point(BinaryHypercubePoint(2), 2);
    assert_eq!(evals.evaluate(&at_one), fp(1));
    assert_eq!(evals.evaluate(&at_two), fp(0));
}

#[test]
fn zero_variable_table() {
    let evals = EvaluationsList::new(vec![fp(9)]);
    assert_eq!(evals.num_variables(), 0);
    assert_eq!(evals.num_evals(), 1);
    assert_eq!(evals.evaluate(&MultilinearPoint(vec![])), fp(9));
}

#[test]
fn table_accessors() {
    let mut evals = EvaluationsList::new(vec![fp(3), fp(4)]);
    assert_eq!(evals.num_evals(), 2);
    assert_eq!(evals.num_variables(), 1);
    assert_eq!(evals.evals(), &vec![fp(3), fp(4)]);
    evals.evals_mut()[0] = fp(5);
    assert_eq!(evals.evals(), &vec![fp(5), fp(4)]);
}
