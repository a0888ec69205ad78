use whir::field::Fp;
use whir::fold::compute_fold;
use whir::ntt::{expand_from_coeff, root_of_unity, transpose};
use whir::parameters::FoldType;
use whir::poly_utils::fold::restructure_evaluations;
use whir::poly_utils::helpers::eval_poly;
use whir::poly_utils::MultilinearPoint;

fn fp(x: u64) -> Fp {
    Fp::from_u64(x)
}

/// Multilinear evaluation of a coefficient vector (most-significant variable
/// selecting the upper half) at a point.
fn eval_coeffs(coeffs: &[Fp], point: &[Fp]) -> Fp {
    if point.is_empty() {
        return coeffs[0];
    }
    let half = coeffs.len() / 2;
    let f0 = eval_coeffs(&coeffs[..half], &point[1..]);
    let f1 = eval_coeffs(&coeffs[half..], &point[1..]);
    f0.add(point[0].mul(f1))
}

/// Fold the last `randomness.len()` variables of a coefficient vector:
/// each chunk of size `2^k` is evaluated at the randomness point.
fn fold_coeffs(coeffs: &[Fp], randomness: &[Fp]) -> Vec<Fp> {
    let chunk = 1usize << randomness.len();
    coeffs
        .chunks(chunk)
        .map(|c| eval_coeffs(c, randomness))
        .collect()
}

#[test]
fn test_folding_wip() {
    let num_variables = 5usize;
    let num_coeffs = 1u64 << num_variables;

    let domain_size = 32usize;
    let folding_factor = 3usize; // fold by 8
    let folding_factor_exp = 1u64 << folding_factor;

    let poly: Vec<Fp> = (0..num_coeffs).map(fp).collect();

    let root_of_unity: Fp = root_of_unity(domain_size).expect("nth root of unity");
    println!("root_of_unity\t{:?}", root_of_unity);
    let index = 15u64;
    let folding_randomness: Vec<Fp> = (0..folding_factor).map(|i| fp(i as u64)).collect();

    let coset_offset = root_of_unity.exp_u64(index);
    println!("coset_offset\t{:?}", coset_offset);
    let coset_gen = root_of_unity.exp_u64(domain_size as u64 / folding_factor_exp);
    println!("coset_gen\t{:?}", coset_gen);

    // Evaluate the polynomial on the coset.
    let poly_eval: Vec<Fp> = (0..folding_factor_exp)
        .map(|i| {
            eval_coeffs(
                &poly,
                &MultilinearPoint::expand_from_univariate(
                    coset_offset.mul(coset_gen.exp_u64(i)),
                    num_variables,
                )
                .0,
            )
        })
        .collect();

    let fold_value = compute_fold(
        &poly_eval,
        &folding_randomness,
        coset_offset.inverse(),
        coset_gen.inverse(),
        fp(2).inverse(),
        folding_factor,
    );

    let truth_value = eval_coeffs(
        &fold_coeffs(&poly, &folding_randomness),
        &MultilinearPoint::expand_from_univariate(
            root_of_unity.exp_u64(folding_factor_exp * index),
            2,
        )
        .0,
    );

    assert_eq!(fold_value, truth_value);
}

#[test]
fn test_folding_optimised() {
    let num_variables = 5usize;
    let num_coeffs = 1u64 << num_variables;

    let domain_size = 32usize;
    let folding_factor = 3usize; // fold by 8
    let folding_factor_exp = 1usize << folding_factor;

    let poly: Vec<Fp> = (0..num_coeffs).map(fp).collect();

    let root_of_unity: Fp = root_of_unity(domain_size).expect("nth root of unity");
    println!("root_of_unity\t{:?}", root_of_unity);
    let root_of_unity_inv = root_of_unity.inverse();

    let folding_randomness: Vec<Fp> = (0..folding_factor).map(|i| fp(i as u64)).collect();

    // Evaluate the polynomial on the whole domain.
    let domain_evaluations: Vec<Fp> = (0..domain_size)
        .map(|w| root_of_unity.exp_u64(w as u64))
        .map(|point| {
            eval_coeffs(
                &poly,
                &MultilinearPoint::expand_from_univariate(point, num_variables).0,
            )
        })
        .collect();

    // Stack the domain into contiguous cosets of size 2^folding_factor.
    let mut unprocessed = domain_evaluations;
    transpose(
        &mut unprocessed,
        folding_factor_exp,
        domain_size / folding_factor_exp,
    );

    let processed = restructure_evaluations(
        unprocessed.clone(),
        FoldType::ProverHelps,
        root_of_unity,
        root_of_unity_inv,
        folding_factor,
    );

    let num = domain_size / folding_factor_exp;
    let coset_gen_inv = root_of_unity_inv.exp_u64(num as u64);

    for index in 0..num {
        let offset_inv = root_of_unity_inv.exp_u64(index as u64);
        let span = index * folding_factor_exp..(index + 1) * folding_factor_exp;

        let answer_unprocessed = compute_fold(
            &unprocessed[span.clone()],
            &folding_randomness,
            offset_inv,
            coset_gen_inv,
            fp(2).inverse(),
            folding_factor,
        );

        let answer_processed = eval_coeffs(&processed[span], &folding_randomness);

        assert_eq!(answer_processed, answer_unprocessed);
    }
}

#[test]
fn naive_restructuring_is_identity() {
    let values: Vec<Fp> = (0..16u64).map(fp).collect();
    let gen = root_of_unity(16).unwrap();
    let out = restructure_evaluations(values.clone(), FoldType::Naive, gen, gen.inverse(), 2);
    assert_eq!(out, values);
}

#[test]
fn expansion_evaluates_on_the_domain() {
    // The codeword of [c0, c1, c2, c3] at rate 1/2 holds the evaluations of
    // the polynomial on the size-8 domain, position-major: position p of the
    // codeword block for coset i is the value at w^(i + 2p).
    let coeffs = vec![fp(1), fp(2), fp(3), fp(4)];
    let codeword = expand_from_coeff(&coeffs, 2).expect("supported order");
    assert_eq!(codeword.len(), 8);

    let w = root_of_unity(8).unwrap();
    for i in 0..2usize {
        for p in 0..4usize {
            let x = w.exp_u64((i + 2 * p) as u64);
            let expected = eval_poly(&coeffs, x);
            assert_eq!(codeword[p * 2 + i], expected);
        }
    }
}

#[test]
fn expansion_rejects_unsupported_order() {
    let coeffs = vec![fp(1), fp(2), fp(3)];
    assert_eq!(expand_from_coeff(&coeffs, 2), None);
}

#[test]
fn root_of_unity_orders() {
    // The canonical root of order 32 really has order 32.
    let w = root_of_unity(32).unwrap();
    assert_eq!(w.exp_u64(32), fp(1));
    assert_ne!(w.exp_u64(16), fp(1));
    assert_eq!(w.exp_u64(16), fp(0).sub(fp(1)));
    // An order with an odd factor is refused.
    assert_eq!(root_of_unity(24), None);
    assert_eq!(root_of_unity(0), None);
}

#[test]
fn horner_evaluation_concrete() {
    // 3 + 2x + x^2 at x = 5: 3 + 10 + 25 = 38.
    let poly = vec![fp(3), fp(2), fp(1)];
    assert_eq!(eval_poly(&poly, fp(5)), fp(38));
}
