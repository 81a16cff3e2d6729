//! A neuron that rewards having voted in earlier rounds.

use vstd::prelude::*;
use crate::decimal_number_wrapper::{checked_add, checked_mul, product_of, sum_of, valid};
use crate::external_data_provider::ExternalDataProvider;
use crate::neurons::assigned_reputation_neuron::carried_in;
use crate::types::{DecimalNumber, VotingSystemError, INITIAL_VOTING_POWER};

verus! {

/// `start` multiplied in turn by the bonus of each round. A round without a
/// bonus is an error.
pub open spec fn folded_bonus(
    start: DecimalNumber,
    rounds: Seq<u32>,
    bonuses: Map<u32, DecimalNumber>,
) -> Result<DecimalNumber, VotingSystemError>
    decreases rounds.len(),
{
    if rounds.len() == 0 {
        Ok(start)
    } else {
        match folded_bonus(start, rounds.drop_last(), bonuses) {
            Err(e) => Err(e),
            Ok(product) => if !bonuses.contains_key(rounds.last()) {
                Err(VotingSystemError::RoundNotFoundInRoundBonusMap)
            } else {
                product_of(product, bonuses[rounds.last()])
            },
        }
    }
}

/// The carried-in value plus that value multiplied by the bonus of every
/// round in which the voter was active.
pub open spec fn oracle(
    voter: Seq<char>,
    external_data: ExternalDataProvider,
    prior: Option<DecimalNumber>,
) -> Result<DecimalNumber, VotingSystemError> {
    let previous = carried_in(prior);
    if !valid(previous) {
        Err(VotingSystemError::InvalidFractional)
    } else {
        match folded_bonus(
            previous,
            external_data.history_of(voter),
            external_data.round_bonus_map@,
        ) {
            Err(e) => Err(e),
            Ok(bonus) => sum_of(previous, bonus),
        }
    }
}

/// The raw vote of the history neuron for a voter.
pub fn oracle_function(
    voter_id: &String,
    _submission_id: &String,
    external_data: &ExternalDataProvider,
    prior: Option<DecimalNumber>,
) -> (res: Result<DecimalNumber, VotingSystemError>)
    requires
        external_data.wf(),
    ensures
        res == oracle(voter_id@, *external_data, prior),
{
    let voter_active_rounds = external_data.get_user_prior_voting_history(voter_id);
    let round_bonus_map = external_data.get_round_bonus_map();
    let previous_layer_vote = match prior {
        Some(previous) => previous,
        None => INITIAL_VOTING_POWER,
    };
    if previous_layer_vote.1 >= 1000 {
        return Err(VotingSystemError::InvalidFractional);
    }
    let mut bonus_result = previous_layer_vote;
    let mut i: usize = 0;
    assert(voter_active_rounds@.take(0) =~= Seq::<u32>::empty());
    while i < voter_active_rounds.len()
        invariant
            i <= voter_active_rounds.len(),
            round_bonus_map.wf(),
            valid(previous_layer_vote),
            previous_layer_vote == carried_in(prior),
            voter_active_rounds@ == external_data.history_of(voter_id@),
            *round_bonus_map == external_data.round_bonus_map,
            folded_bonus(
                previous_layer_vote,
                voter_active_rounds@.take(i as int),
                round_bonus_map@,
            ) == Ok::<DecimalNumber, VotingSystemError>(bonus_result),
        ensures
            i == voter_active_rounds.len(),
        decreases voter_active_rounds.len() - i,
    {
        let ghost upto = voter_active_rounds@.take(i + 1);
        assert(upto.drop_last() =~= voter_active_rounds@.take(i as int));
        assert(upto.last() == voter_active_rounds@[i as int]);
        let ghost all = voter_active_rounds@;
        let bonus = match round_bonus_map.get(&voter_active_rounds[i]) {
            Some(bonus) => *bonus,
            None => {
                proof {
                    lemma_folded_bonus_fails(
                        previous_layer_vote,
                        all,
                        round_bonus_map@,
                        i + 1,
                    );
                }
                return Err(VotingSystemError::RoundNotFoundInRoundBonusMap);
            },
        };
        bonus_result = match checked_mul(bonus_result, bonus) {
            Ok(product) => product,
            Err(e) => {
                proof {
                    lemma_folded_bonus_fails(
                        previous_layer_vote,
                        all,
                        round_bonus_map@,
                        i + 1,
                    );
                }
                return Err(e);
            },
        };
        i += 1;
    }
    assert(voter_active_rounds@.take(i as int) =~= voter_active_rounds@);
    checked_add(previous_layer_vote, bonus_result)
}

/// Once the fold has failed on some of the rounds, it fails in the same way
/// on all of them.
pub proof fn lemma_folded_bonus_fails(
    start: DecimalNumber,
    rounds: Seq<u32>,
    bonuses: Map<u32, DecimalNumber>,
    n: int,
)
    requires
        0 <= n <= rounds.len(),
        folded_bonus(start, rounds.take(n), bonuses) is Err,
    ensures
        folded_bonus(start, rounds, bonuses) == folded_bonus(start, rounds.take(n), bonuses),
    decreases rounds.len() - n,
{
    if n == rounds.len() {
        assert(rounds.take(n) =~= rounds);
    } else {
        assert(rounds.take(n + 1).drop_last() =~= rounds.take(n));
        lemma_folded_bonus_fails(start, rounds, bonuses, n + 1);
    }
}

} // verus!
