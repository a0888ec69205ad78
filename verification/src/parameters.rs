//! Protocol configuration handed to the core: soundness regime, folding
//! policy, and the multivariate and whole-protocol parameter records.

use core::marker::PhantomData;
use vstd::prelude::*;

verus! {

/// A default bound on proof-of-work bits for a proof over `2^num_variables`
/// evaluations at rate `2^-log_inv_rate`.
pub fn default_max_pow(num_variables: usize, log_inv_rate: usize) -> (r: usize)
    requires
        num_variables + log_inv_rate >= 3,
        num_variables + log_inv_rate <= usize::MAX,
    ensures
        r == num_variables + log_inv_rate - 3,
{
    num_variables + log_inv_rate - 3
}

/// The soundness regime the protocol parameters are derived under.
#[derive(Debug, Clone, Copy, PartialEq, Eq)]
pub enum SoundnessType {
    UniqueDecoding,
    ProvableList,
    ConjectureList,
}

/// Relies on str's `PartialEq`: two string slices compare equal exactly when
/// their character contents agree.
#[verifier::external_body]
fn str_equal(a: &str, b: &str) -> (r: bool)
    ensures
        r <==> a@ == b@,
{
    a == b
}

impl SoundnessType {
    /// The canonical name of the regime.
    pub fn as_str(&self) -> (r: &'static str)
        ensures
            *self is ProvableList ==> r@ == "ProvableList"@,
            *self is ConjectureList ==> r@ == "ConjectureList"@,
            *self is UniqueDecoding ==> r@ == "UniqueDecoding"@,
    {
        match self {
            SoundnessType::ProvableList => "ProvableList",
            SoundnessType::ConjectureList => "ConjectureList",
            SoundnessType::UniqueDecoding => "UniqueDecoding",
        }
    }

    /// The regime of the given name; no value for any other string.
    pub fn from_str(s: &str) -> (r: Option<SoundnessType>)
        ensures
            s@ == "ProvableList"@ ==> r == Some(SoundnessType::ProvableList),
            s@ == "ConjectureList"@ ==> r == Some(SoundnessType::ConjectureList),
            s@ == "UniqueDecoding"@ ==> r == Some(SoundnessType::UniqueDecoding),
            s@ != "ProvableList"@ && s@ != "ConjectureList"@ && s@ != "UniqueDecoding"@ ==> r
                is None,
    {
        proof {
            reveal_strlit("ProvableList");
            reveal_strlit("ConjectureList");
            reveal_strlit("UniqueDecoding");
            // The three names are pairwise distinct: two differ in length,
            // two of equal length differ in their first character.
            assert(("ProvableList"@).len() == 12);
            assert(("ConjectureList"@).len() == 14);
            assert(("UniqueDecoding"@).len() == 14);
            assert(("ConjectureList"@)[0] == 'C' && ("UniqueDecoding"@)[0] == 'U');
        }
        if str_equal(s, "ProvableList") {
            Some(SoundnessType::ProvableList)
        } else if str_equal(s, "ConjectureList") {
            Some(SoundnessType::ConjectureList)
        } else if str_equal(s, "UniqueDecoding") {
            Some(SoundnessType::UniqueDecoding)
        } else {
            None
        }
    }
}

/// The shape of the committed polynomial: how many variables it has.
#[derive(Debug)]
pub struct MultivariateParameters<F> {
    pub(crate) num_variables: usize,
    _field: PhantomData<F>,
}

impl<F> MultivariateParameters<F> {
    /// The declared number of variables.
    pub closed spec fn n_vars(&self) -> nat {
        self.num_variables as nat
    }

    /// Parameters for a polynomial of the given number of variables.
    pub fn new(num_variables: usize) -> (r: MultivariateParameters<F>)
        ensures
            r.n_vars() == num_variables,
    {
        MultivariateParameters { num_variables, _field: PhantomData }
    }
}

impl<F> Clone for MultivariateParameters<F> {
    /// An identical parameter record.
    fn clone(&self) -> (r: MultivariateParameters<F>)
        ensures
            r.n_vars() == self.n_vars(),
    {
        MultivariateParameters { num_variables: self.num_variables, _field: PhantomData }
    }
}

/// Which layout the prover hands the verifier's folding step.
#[derive(Debug, Clone, Copy, PartialEq, Eq)]
pub enum FoldType {
    Naive,
    ProverHelps,
}

impl FoldType {
    /// The canonical name of the policy.
    pub fn as_str(&self) -> (r: &'static str)
        ensures
            *self is Naive ==> r@ == "Naive"@,
            *self is ProverHelps ==> r@ == "ProverHelps"@,
    {
        match self {
            FoldType::Naive => "Naive",
            FoldType::ProverHelps => "ProverHelps",
        }
    }

    /// The policy of the given name; no value for any other string.
    pub fn from_str(s: &str) -> (r: Option<FoldType>)
        ensures
            s@ == "Naive"@ ==> r == Some(FoldType::Naive),
            s@ == "ProverHelps"@ ==> r == Some(FoldType::ProverHelps),
            s@ != "Naive"@ && s@ != "ProverHelps"@ ==> r is None,
    {
        proof {
            reveal_strlit("Naive");
            reveal_strlit("ProverHelps");
            // The two names differ in length.
            assert(("Naive"@).len() == 5);
            assert(("ProverHelps"@).len() == 11);
        }
        if str_equal(s, "Naive") {
            Some(FoldType::Naive)
        } else if str_equal(s, "ProverHelps") {
            Some(FoldType::ProverHelps)
        } else {
            None
        }
    }
}

/// The protocol-level parameters the core's operations are run under.
pub struct WhirParameters<PowStrategy> {
    pub starting_log_inv_rate: usize,
    pub folding_factor: usize,
    pub soundness_type: SoundnessType,
    pub security_level: usize,
    pub pow_bits: usize,
    pub fold_optimisation: FoldType,
    pub _pow_parameters: PhantomData<PowStrategy>,
}

impl<PowStrategy> Clone for WhirParameters<PowStrategy> {
    /// An identical parameter record.
    fn clone(&self) -> (r: WhirParameters<PowStrategy>)
        ensures
            r.starting_log_inv_rate == self.starting_log_inv_rate,
            r.folding_factor == self.folding_factor,
            r.soundness_type == self.soundness_type,
            r.security_level == self.security_level,
            r.pow_bits == self.pow_bits,
            r.fold_optimisation == self.fold_optimisation,
    {
        WhirParameters {
            starting_log_inv_rate: self.starting_log_inv_rate,
            folding_factor: self.folding_factor,
            soundness_type: self.soundness_type,
            security_level: self.security_level,
            pow_bits: self.pow_bits,
            fold_optimisation: self.fold_optimisation,
            _pow_parameters: PhantomData,
        }
    }
}

} // verus!
