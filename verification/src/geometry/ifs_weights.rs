//! Validation of the weights of an iterated function system.
use vstd::prelude::*;

verus! {

/// The error produced when constructing an IFS from transformations that do
/// not define a valid stochastic system.
#[derive(Debug, Clone, Copy, PartialEq, Eq, Structural)]
pub enum IFSBuildError {
    /// The collection of transformations is empty.
    Empty,
    /// At least one transformation does not declare a probability.
    MissingProbability,
    /// The total probability is zero or not finite, or one weight is negative
    /// or not finite.
    InvalidProbabilities,
}

impl IFSBuildError {
    /// The human-readable description of the error.
    pub fn message(&self) -> (text: &'static str)
        ensures
            *self == IFSBuildError::Empty ==> text@ == "IFS cannot be empty."@,
            *self == IFSBuildError::MissingProbability ==> text@
                == "All TMAs in an IFS must have a probability for stochastic generation."@,
            *self == IFSBuildError::InvalidProbabilities ==> text@
                == "Probability values must be finite and sum to a positive value."@,
    {
        match self {
            IFSBuildError::Empty => "IFS cannot be empty.",
            IFSBuildError::MissingProbability => {
                "All TMAs in an IFS must have a probability for stochastic generation."
            },
            IFSBuildError::InvalidProbabilities => {
                "Probability values must be finite and sum to a positive value."
            },
        }
    }
}

/// What one transformation of an IFS declares as its weight.
#[derive(Debug, Clone, Copy, PartialEq, Eq, Structural)]
pub enum WeightStatus {
    /// No probability was attached.
    Missing,
    /// The probability is negative or not finite.
    Invalid,
    /// The probability is finite and non-negative.
    Usable,
}

/// The error due to the first transformation, in order, whose weight is not
/// usable; `None` when every weight is usable.
pub open spec fn first_weight_problem(statuses: Seq<WeightStatus>) -> Option<IFSBuildError>
    decreases statuses.len(),
{
    if statuses.len() == 0 {
        None
    } else {
        match statuses[0] {
            WeightStatus::Missing => Some(IFSBuildError::MissingProbability),
            WeightStatus::Invalid => Some(IFSBuildError::InvalidProbabilities),
            WeightStatus::Usable => first_weight_problem(statuses.drop_first()),
        }
    }
}

/// Whether every weight before position `j` is usable.
pub open spec fn all_usable_before(statuses: Seq<WeightStatus>, j: int) -> bool {
    forall|i: int| 0 <= i < j ==> statuses[i] == WeightStatus::Usable
}

/// The verdict on a list of weights: empty lists are refused, then the first
/// unusable weight decides, then the total must be usable.
pub open spec fn weight_verdict(statuses: Seq<WeightStatus>, total_is_valid: bool) -> Result<
    (),
    IFSBuildError,
> {
    if statuses.len() == 0 {
        Err(IFSBuildError::Empty)
    } else {
        match first_weight_problem(statuses) {
            Some(e) => Err(e),
            None => if total_is_valid {
                Ok(())
            } else {
                Err(IFSBuildError::InvalidProbabilities)
            },
        }
    }
}

/// The verdict on a list of weights accepts it exactly when it is non-empty,
/// every weight in it is usable and the total is usable; an empty list is
/// refused as empty; otherwise the first weight that is not usable decides
/// the error, wherever in the list it stands.
pub proof fn lemma_weight_verdict(statuses: Seq<WeightStatus>, total_is_valid: bool)
    ensures
        weight_verdict(statuses, total_is_valid) == Ok::<(), IFSBuildError>(()) <==> (statuses.len()
            > 0 && all_usable_before(statuses, statuses.len() as int)
            && total_is_valid),
        statuses.len() == 0 ==> weight_verdict(statuses, total_is_valid) == Err::<(), IFSBuildError>(
            IFSBuildError::Empty,
        ),
        forall|j: int|
            #![trigger statuses[j]]
            0 <= j < statuses.len() && all_usable_before(statuses, j) && statuses[j] == WeightStatus::Missing
                ==> weight_verdict(statuses, total_is_valid) == Err::<(), IFSBuildError>(
                IFSBuildError::MissingProbability,
            ),
        forall|j: int|
            #![trigger statuses[j]]
            0 <= j < statuses.len() && all_usable_before(statuses, j) && statuses[j] == WeightStatus::Invalid
                ==> weight_verdict(statuses, total_is_valid) == Err::<(), IFSBuildError>(
                IFSBuildError::InvalidProbabilities,
            ),
{
    lemma_first_weight_problem(statuses);
    assert forall|j: int|
        #![trigger statuses[j]]
        0 <= j < statuses.len() && all_usable_before(statuses, j)
            && statuses[j] != WeightStatus::Usable implies first_weight_problem(statuses) == Some(
        if statuses[j] == WeightStatus::Missing {
            IFSBuildError::MissingProbability
        } else {
            IFSBuildError::InvalidProbabilities
        },
    ) by {
        lemma_first_weight_problem_at(statuses, j);
    }
}

/// No weight is flagged exactly when every weight is usable.
proof fn lemma_first_weight_problem(statuses: Seq<WeightStatus>)
    ensures
        first_weight_problem(statuses) is None <==> all_usable_before(statuses, statuses.len() as int),
    decreases statuses.len(),
{
    if statuses.len() > 0 {
        lemma_first_weight_problem(statuses.drop_first());
        if statuses[0] == WeightStatus::Usable {
            assert forall|i: int| 1 <= i < statuses.len() implies statuses[i] == statuses.drop_first()[i
                - 1] by {}
            if first_weight_problem(statuses) is None {
                assert forall|i: int| 0 <= i < statuses.len() implies statuses[i]
                    == WeightStatus::Usable by {
                    if i > 0 {
                        assert(statuses.drop_first()[i - 1] == WeightStatus::Usable);
                    }
                }
            }
        }
    }
}

/// When the weights before position `j` are all usable and the one at `j`
/// is not, that one decides the problem flagged.
proof fn lemma_first_weight_problem_at(statuses: Seq<WeightStatus>, j: int)
    requires
        0 <= j < statuses.len(),
        forall|i: int| 0 <= i < j ==> statuses[i] == WeightStatus::Usable,
        statuses[j] != WeightStatus::Usable,
    ensures
        first_weight_problem(statuses) == Some(
            if statuses[j] == WeightStatus::Missing {
                IFSBuildError::MissingProbability
            } else {
                IFSBuildError::InvalidProbabilities
            },
        ),
    decreases j,
{
    if j > 0 {
        assert(statuses[0] == WeightStatus::Usable);
        let rest = statuses.drop_first();
        assert forall|i: int| 0 <= i < j - 1 implies rest[i] == WeightStatus::Usable by {
            assert(rest[i] == statuses[i + 1]);
        }
        assert(rest[j - 1] == statuses[j]);
        lemma_first_weight_problem_at(rest, j - 1);
    }
}

/// Decides whether the weights of an IFS, taken in order, can be normalised.
/// `total_is_valid` says whether the sum of the weights is finite and
/// positive; it is consulted only when every single weight is usable.
pub fn check_weights(statuses: &[WeightStatus], total_is_valid: bool) -> (verdict: Result<
    (),
    IFSBuildError,
>)
    ensures
        verdict == weight_verdict(statuses@, total_is_valid),
        verdict == Ok::<(), IFSBuildError>(()) <==> (statuses@.len() > 0 && all_usable_before(statuses@, statuses@.len() as int) && total_is_valid),
        statuses@.len() == 0 ==> verdict == Err::<(), IFSBuildError>(IFSBuildError::Empty),
        forall|j: int|
            #![trigger statuses@[j]]
            0 <= j < statuses@.len() && all_usable_before(statuses@, j) && statuses@[j] == WeightStatus::Missing ==> verdict == Err::<
                (),
                IFSBuildError,
            >(IFSBuildError::MissingProbability),
        forall|j: int|
            #![trigger statuses@[j]]
            0 <= j < statuses@.len() && all_usable_before(statuses@, j) && statuses@[j] == WeightStatus::Invalid ==> verdict == Err::<
                (),
                IFSBuildError,
            >(IFSBuildError::InvalidProbabilities),
{
    let verdict = first_problem_verdict(statuses, total_is_valid);
    proof {
        lemma_weight_verdict(statuses@, total_is_valid);
    }
    verdict
}

/// The verdict on the weights, checking them one after the other.
fn first_problem_verdict(statuses: &[WeightStatus], total_is_valid: bool) -> (verdict: Result<
    (),
    IFSBuildError,
>)
    ensures
        verdict == weight_verdict(statuses@, total_is_valid),
{
    if statuses.len() == 0 {
        return Err(IFSBuildError::Empty);
    }
    let mut i: usize = 0;
    assert(statuses@.skip(0) =~= statuses@);
    while i < statuses.len()
        invariant
            0 <= i <= statuses@.len(),
            first_weight_problem(statuses@) == first_weight_problem(statuses@.skip(i as int)),
        decreases statuses@.len() - i,
    {
        assert(statuses@.skip(i as int).drop_first() =~= statuses@.skip(i + 1));
        match statuses[i] {
            WeightStatus::Missing => {
                return Err(IFSBuildError::MissingProbability);
            },
            WeightStatus::Invalid => {
                return Err(IFSBuildError::InvalidProbabilities);
            },
            WeightStatus::Usable => {},
        }
        i = i + 1;
    }
    assert(statuses@.skip(i as int).len() == 0);
    if total_is_valid {
        Ok(())
    } else {
        Err(IFSBuildError::InvalidProbabilities)
    }
}

} // verus!
