//! A neuron that scales the carried-in value by the voter's reputation.

use vstd::prelude::*;
use crate::decimal_number_wrapper::{checked_mul, product_of};
use crate::external_data_provider::{reputation_score, ExternalDataProvider};
use crate::types::{DecimalNumber, VotingSystemError, INITIAL_VOTING_POWER};

verus! {

/// The value carried in, read as zero where there is none.
pub open spec fn carried_in(prior: Option<DecimalNumber>) -> DecimalNumber {
    match prior {
        Some(previous) => previous,
        None => INITIAL_VOTING_POWER,
    }
}

/// The carried-in value times the score of the voter's reputation category.
pub open spec fn oracle(
    voter: Seq<char>,
    external_data: ExternalDataProvider,
    prior: Option<DecimalNumber>,
) -> Result<DecimalNumber, VotingSystemError> {
    product_of(carried_in(prior), reputation_score(external_data.category_of(voter)))
}

/// The raw vote of the reputation neuron for a voter.
pub fn oracle_function(
    voter_id: &String,
    _submission_id: &String,
    external_data: &ExternalDataProvider,
    prior: Option<DecimalNumber>,
) -> (res: Result<DecimalNumber, VotingSystemError>)
    requires
        external_data.wf(),
    ensures
        res == oracle(voter_id@, *external_data, prior),
{
    let reputation_category = external_data.get_user_reputation_category(voter_id);
    let previous_layer_vote = match prior {
        Some(previous) => previous,
        None => INITIAL_VOTING_POWER,
    };
    let bonus = ExternalDataProvider::get_reputation_score(reputation_category);
    checked_mul(previous_layer_vote, bonus)
}

} // verus!
