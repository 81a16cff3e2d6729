//! A neuron that looks at nothing but the carried-in value.

use vstd::prelude::*;
use crate::external_data_provider::ExternalDataProvider;
use crate::types::{DecimalNumber, VotingSystemError};

verus! {

/// `(1, 0)` where nothing is carried in; else the carried-in value with one
/// added to its whole part and 100 to its fractional part, which must stay
/// below 1000.
pub open spec fn oracle(prior: Option<DecimalNumber>) -> Result<DecimalNumber, VotingSystemError> {
    match prior {
        None => Ok((1, 0)),
        Some(previous) => if previous.1 + 100 >= 1000 {
            Err(VotingSystemError::InvalidFractional)
        } else if previous.0 == u32::MAX {
            Err(VotingSystemError::ArithmeticOverflow)
        } else {
            Ok(((previous.0 + 1) as u32, (previous.1 + 100) as u32))
        },
    }
}

/// The raw vote of the dummy neuron.
pub fn oracle_function(
    _voter_id: &String,
    _submission_id: &String,
    _external_data: &ExternalDataProvider,
    prior: Option<DecimalNumber>,
) -> (res: Result<DecimalNumber, VotingSystemError>)
    ensures
        res == oracle(prior),
{
    match prior {
        None => Ok((1, 0)),
        Some(previous) => {
            if previous.1 >= 900 {
                Err(VotingSystemError::InvalidFractional)
            } else if previous.0 == u32::MAX {
                Err(VotingSystemError::ArithmeticOverflow)
            } else {
                Ok((previous.0 + 1, previous.1 + 100))
            }
        },
    }
}

} // verus!
