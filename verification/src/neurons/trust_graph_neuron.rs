//! A neuron that reads the voter's trust rank.

use vstd::prelude::*;
use crate::external_data_provider::ExternalDataProvider;
use crate::types::{DecimalNumber, VotingSystemError};

verus! {

/// The voter's trust rank as last calculated, zero where it has none.
pub open spec fn oracle(voter: Seq<char>, external_data: ExternalDataProvider) -> Result<
    DecimalNumber,
    VotingSystemError,
> {
    Ok(external_data.page_rank_of(voter))
}

/// The raw vote of the trust neuron for a voter.
pub fn oracle_function(
    voter_id: &String,
    _submission_id: &String,
    external_data: &ExternalDataProvider,
    _prior: Option<DecimalNumber>,
) -> (res: Result<DecimalNumber, VotingSystemError>)
    requires
        external_data.wf(),
    ensures
        res == oracle(voter_id@, *external_data),
{
    Ok(external_data.get_page_rank_result_for_user(voter_id))
}

} // verus!
