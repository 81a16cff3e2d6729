//! The tally in three steps, for callers that cannot afford it in one:
//! normalise the ballots, compute each voter's power once, then sum the powers
//! over the normalised ballots.

use vstd::prelude::*;
use crate::decimal_number_wrapper::{
    checked_add,
    decode,
    difference_of,
    encode,
    saturating_sub,
    sum_of,
    valid,
    DecimalNumberWrapper,
};
use crate::external_data_provider::{keyed, ranks_for};
use crate::ordered_map::{
    entries_map,
    has_key,
    ids,
    lemma_entry_in_map,
    lemma_sorted_unique,
    sorted_entries,
    strictly_sorted,
    with_all,
    MapKey,
    OrderedMap,
};
use crate::quorum::lemma_consensus_decides;
use crate::types::{BallotVote, DecimalNumber, NormalizedVote, Vote, VotingSystemError};
use crate::voting::{ballots_wf, Sums, VotingSystem};

verus! {

/// The normalised ballots of one submission, in the order of their voters.
pub type NormalizedBallots = Seq<(Seq<char>, NormalizedVote)>;

/// `rest` with `first` put before it, where there is a `rest`.
pub open spec fn preceded<T>(first: Seq<T>, rest: Result<Seq<T>, VotingSystemError>) -> Result<
    Seq<T>,
    VotingSystemError,
> {
    match rest {
        Err(e) => Err(e),
        Ok(rest) => Ok(first + rest),
    }
}

/// The entries of a map of maps, each inner map as its entries.
pub open spec fn nested_entries<V>(map: OrderedMap<String, OrderedMap<String, V>>) -> Seq<
    (Seq<char>, Seq<(Seq<char>, V)>),
> {
    map.entries().map_values(
        |entry: (Seq<char>, OrderedMap<String, V>)| (entry.0, entry.1.entries()),
    )
}

/// Every inner map of a map of maps is in key order, as the map itself is.
pub open spec fn nested_wf<V>(map: OrderedMap<String, OrderedMap<String, V>>) -> bool {
    &&& map.wf()
    &&& forall|i: int| 0 <= i < map.entries().len() ==> (#[trigger] map.entries()[i]).1.wf()
}

/// The sums of a submission after one more normalised ballot. The ballot's
/// vote is read first; the voter's power is then read from `powers` by its
/// encoding.
pub open spec fn summed<V: BallotVote>(
    powers: Map<Seq<char>, u32>,
    ballot: (Seq<char>, V),
    sums: Sums,
) -> Result<Sums, VotingSystemError> {
    match ballot.1.vote() {
        Err(e) => Err(e),
        Ok(vote) => if !powers.contains_key(ballot.0) {
            Err(VotingSystemError::UnknownVoter)
        } else {
            let power = decode(powers[ballot.0] as nat);
            match vote {
                NormalizedVote::Yes => match sum_of(sums.0, power) {
                    Err(e) => Err(e),
                    Ok(plus) => Ok((plus, sums.1)),
                },
                NormalizedVote::No => match sum_of(sums.1, power) {
                    Err(e) => Err(e),
                    Ok(minus) => Ok((sums.0, minus)),
                },
            }
        },
    }
}

/// The sums of a submission after all of `ballots`, summed in order.
pub open spec fn summed_all<V: BallotVote>(
    powers: Map<Seq<char>, u32>,
    ballots: Seq<(Seq<char>, V)>,
    sums: Sums,
) -> Result<Sums, VotingSystemError>
    decreases ballots.len(),
{
    if ballots.len() == 0 {
        Ok(sums)
    } else {
        match summed(powers, ballots[0], sums) {
            Err(e) => Err(e),
            Ok(next) => summed_all(powers, ballots.drop_first(), next),
        }
    }
}

/// Outcome of a submission from its normalised ballots.
pub open spec fn powers_outcome<V: BallotVote>(
    powers: Map<Seq<char>, u32>,
    ballots: Seq<(Seq<char>, V)>,
) -> Result<DecimalNumber, VotingSystemError> {
    match summed_all(powers, ballots, ((0, 0), (0, 0))) {
        Err(e) => Err(e),
        Ok(sums) => Ok(difference_of(sums.0, sums.1)),
    }
}

/// `done` extended by the outcome of each of `submissions`, or the first
/// failure among them.
pub open spec fn powers_tallied<V: BallotVote>(
    powers: Map<Seq<char>, u32>,
    submissions: Seq<(Seq<char>, Seq<(Seq<char>, V)>)>,
    done: Map<Seq<char>, DecimalNumber>,
) -> Result<Map<Seq<char>, DecimalNumber>, VotingSystemError>
    decreases submissions.len(),
{
    if submissions.len() == 0 {
        Ok(done)
    } else {
        match powers_outcome(powers, submissions[0].1) {
            Err(e) => Err(e),
            Ok(outcome) => powers_tallied(
                powers,
                submissions.drop_first(),
                done.insert(submissions[0].0, outcome),
            ),
        }
    }
}

/// Whether `held` has the voters of `ballots` in their order, each with a
/// value that stands for the vote of that voter.
pub open spec fn holds_ballots<V: BallotVote>(
    held: Seq<(Seq<char>, V)>,
    ballots: NormalizedBallots,
) -> bool {
    &&& held.len() == ballots.len()
    &&& forall|j: int|
        0 <= j < held.len() ==> (#[trigger] held[j]).0 == ballots[j].0 && held[j].1.vote() == Ok::<
            NormalizedVote,
            VotingSystemError,
        >(ballots[j].1)
}

/// Whether `held` has the submissions of `submissions` in their order, each
/// with ballots that stand for the ballots of that submission.
pub open spec fn holds_submissions<V: BallotVote>(
    held: Seq<(Seq<char>, Seq<(Seq<char>, V)>)>,
    submissions: Seq<(Seq<char>, NormalizedBallots)>,
) -> bool {
    &&& held.len() == submissions.len()
    &&& forall|i: int|
        0 <= i < held.len() ==> (#[trigger] held[i]).0 == submissions[i].0 && holds_ballots(
            held[i].1,
            submissions[i].1,
        )
}

/// Ballots that hold their votes by name sum to what the votes themselves
/// sum to.
pub proof fn lemma_summed_as_held<V: BallotVote>(
    powers: Map<Seq<char>, u32>,
    held: Seq<(Seq<char>, V)>,
    ballots: NormalizedBallots,
    sums: Sums,
)
    requires
        holds_ballots(held, ballots),
    ensures
        summed_all(powers, held, sums) == summed_all(powers, ballots, sums),
    decreases held.len(),
{
    if held.len() > 0 {
        assert(held[0].0 == ballots[0].0);
        assert(summed(powers, held[0], sums) == summed(powers, ballots[0], sums));
        let held_rest = held.drop_first();
        let rest = ballots.drop_first();
        assert forall|j: int| 0 <= j < held_rest.len() implies (#[trigger] held_rest[j]).0
            == rest[j].0 && held_rest[j].1.vote() == Ok::<NormalizedVote, VotingSystemError>(
            rest[j].1,
        ) by {
            assert(held_rest[j] == held[j + 1]);
            assert(rest[j] == ballots[j + 1]);
        }
        match summed(powers, ballots[0], sums) {
            Ok(next) => lemma_summed_as_held(powers, held_rest, rest, next),
            Err(_) => {},
        }
    }
}

/// The tally in steps does not depend on how the ballots hold their votes:
/// by name or by the vote itself, the outcomes and the failures are the same.
pub proof fn lemma_powers_tallied_as_held<V: BallotVote>(
    powers: Map<Seq<char>, u32>,
    held: Seq<(Seq<char>, Seq<(Seq<char>, V)>)>,
    submissions: Seq<(Seq<char>, NormalizedBallots)>,
    done: Map<Seq<char>, DecimalNumber>,
)
    requires
        holds_submissions(held, submissions),
    ensures
        powers_tallied(powers, held, done) == powers_tallied(powers, submissions, done),
    decreases held.len(),
{
    if held.len() > 0 {
        assert(held[0].0 == submissions[0].0);
        lemma_summed_as_held(powers, held[0].1, submissions[0].1, ((0, 0), (0, 0)));
        let held_rest = held.drop_first();
        let rest = submissions.drop_first();
        assert forall|i: int| 0 <= i < held_rest.len() implies (#[trigger] held_rest[i]).0
            == rest[i].0 && holds_ballots(held_rest[i].1, rest[i].1) by {
            assert(held_rest[i] == held[i + 1]);
            assert(rest[i] == submissions[i + 1]);
        }
        match powers_outcome(powers, submissions[0].1) {
            Ok(outcome) => lemma_powers_tallied_as_held(
                powers,
                held_rest,
                rest,
                done.insert(submissions[0].0, outcome),
            ),
            Err(_) => {},
        }
    }
}

/// Voters paired with the powers that the encodings beside them stand for.
pub open spec fn decoded_powers(powers: Seq<(String, u32)>) -> Seq<(Seq<char>, DecimalNumber)> {
    powers.map_values(|power: (String, u32)| (power.0@, decode(power.1 as nat)))
}

/// The ballots of a map of maps, by submission and voter.
pub open spec fn nested_view<V>(map: OrderedMap<String, OrderedMap<String, V>>) -> Map<
    Seq<char>,
    Map<Seq<char>, V>,
> {
    Map::new(|key: Seq<char>| map@.contains_key(key), |key: Seq<char>| map@[key]@)
}

/// `done` with each normalised ballot of the list put under its submission
/// and voter, a later one replacing an earlier one of the same voter.
pub open spec fn grouped<V>(
    ballots: Seq<(String, String, V)>,
    done: Map<Seq<char>, Map<Seq<char>, V>>,
) -> Map<Seq<char>, Map<Seq<char>, V>>
    decreases ballots.len(),
{
    if ballots.len() == 0 {
        done
    } else {
        let submission = ballots[0].0@;
        let on = if done.contains_key(submission) {
            done[submission]
        } else {
            Map::empty()
        };
        grouped(
            ballots.drop_first(),
            done.insert(submission, on.insert(ballots[0].1@, ballots[0].2)),
        )
    }
}

impl VotingSystem {
    /// Whether `powers` holds the encoded voting power of `voter`.
    pub open spec fn power_recorded(&self, powers: Map<Seq<char>, u32>, voter: Seq<char>) -> bool {
        &&& powers.contains_key(voter)
        &&& self.power_of(voter) matches Ok(power) && encode(power) == powers[voter]
    }

    /// Whether `powers` holds the encoded voting power of every voter that
    /// has a normalised ballot.
    pub open spec fn powers_recorded(
        &self,
        powers: Map<Seq<char>, u32>,
        normalized: Seq<(Seq<char>, NormalizedBallots)>,
    ) -> bool {
        forall|i: int, j: int|
            0 <= i < normalized.len() && 0 <= j < normalized[i].1.len() ==> self.power_recorded(
                powers,
                (#[trigger] normalized[i].1[j]).0,
            )
    }

    /// A ballot of a well-formed system never normalises to something
    /// unexpected: it may fail only as the quorum consensus fails.
    pub proof fn lemma_normalized_ballots_expected(
        &self,
        submission: Seq<char>,
        ballots: Seq<(Seq<char>, Vote)>,
    )
        requires
            forall|j: int| 0 <= j < ballots.len() ==> (#[trigger] ballots[j]).1 != Vote::Remove,
        ensures
            self.normalized_ballots(submission, ballots) matches Err(e) ==> e
                != VotingSystemError::UnexpectedValue,
        decreases ballots.len(),
    {
        if ballots.len() > 0 {
            assert(ballots[0].1 != Vote::Remove);
            if ballots[0].1 == Vote::Delegate && self.external_data_provider is Some
                && self.delegatees@.contains_key(ballots[0].0) {
                let delegatees = ids(self.delegatees@[ballots[0].0]@);
                lemma_consensus_decides(
                    delegatees,
                    ranks_for(self.external_data_provider->Some_0.delegation_ranks@, delegatees),
                    self.ballots_on(submission),
                );
            }
            let rest = ballots.drop_first();
            assert forall|j: int| 0 <= j < rest.len() implies (#[trigger] rest[j]).1
                != Vote::Remove by {
                assert(rest[j] == ballots[j + 1]);
            }
            self.lemma_normalized_ballots_expected(submission, rest);
        }
    }

    /// Normalising the ballots of a well-formed system may fail as the
    /// quorum consensus fails, and in no other way.
    pub proof fn lemma_normalized_expected(
        &self,
        submissions: Seq<(Seq<char>, OrderedMap<String, Vote>)>,
    )
        requires
            forall|i: int|
                0 <= i < submissions.len() ==> ballots_wf((#[trigger] submissions[i]).1),
        ensures
            self.normalized_submissions(submissions) matches Err(e) ==> e
                != VotingSystemError::UnexpectedValue,
        decreases submissions.len(),
    {
        if submissions.len() > 0 {
            assert(ballots_wf(submissions[0].1));
            self.lemma_normalized_ballots_expected(submissions[0].0, submissions[0].1.entries());
            let rest = submissions.drop_first();
            assert forall|i: int| 0 <= i < rest.len() implies ballots_wf(
                (#[trigger] rest[i]).1,
            ) by {
                assert(rest[i] == submissions[i + 1]);
            }
            self.lemma_normalized_expected(rest);
        }
    }

    /// Normalising the ballots of a well-formed system never ends with an
    /// unexpected value.
    pub proof fn lemma_normalize_expected(&self)
        requires
            self.wf(),
        ensures
            self.normalized() matches Err(e) ==> e != VotingSystemError::UnexpectedValue,
    {
        self.lemma_normalized_expected(self.votes.entries());
    }

    /// The normalised ballots of a submission, ballot by ballot: every ballot
    /// resolves; a ballot that resolves to yes or no is among the normalised
    /// ballots with that vote; and every normalised ballot is such a ballot.
    pub proof fn lemma_normalized_ballots_each(
        &self,
        submission: Seq<char>,
        ballots: Seq<(Seq<char>, Vote)>,
    )
        requires
            self.normalized_ballots(submission, ballots) is Ok,
        ensures
            forall|j: int|
                0 <= j < ballots.len() ==> self.normalized_ballot(
                    submission,
                    #[trigger] ballots[j],
                ) is Ok,
            forall|j: int|
                0 <= j < ballots.len() ==> (self.normalized_ballot(
                    submission,
                    #[trigger] ballots[j],
                ) matches Ok(Some(vote)) ==> self.normalized_ballots(
                    submission,
                    ballots,
                )->Ok_0.contains((ballots[j].0, vote))),
            forall|k: int|
                0 <= k < self.normalized_ballots(submission, ballots)->Ok_0.len() ==> exists|j: int|
                    0 <= j < ballots.len() && self.normalized_ballot(
                        submission,
                        #[trigger] ballots[j],
                    ) == Ok::<Option<NormalizedVote>, VotingSystemError>(
                        Some((#[trigger] self.normalized_ballots(submission, ballots)->Ok_0[k]).1),
                    ) && ballots[j].0 == self.normalized_ballots(submission, ballots)->Ok_0[k].0,
        decreases ballots.len(),
    {
        if ballots.len() > 0 {
            let normalized = self.normalized_ballots(submission, ballots)->Ok_0;
            let rest = ballots.drop_first();
            let normalized_rest = self.normalized_ballots(submission, rest)->Ok_0;
            let first = self.normalized_ballot(submission, ballots[0])->Ok_0;
            self.lemma_normalized_ballots_each(submission, rest);
            let shift: int = if first is Some {
                1
            } else {
                0
            };
            assert(normalized.len() == normalized_rest.len() + shift);
            assert forall|k: int| 0 <= k < normalized_rest.len() implies normalized[k + shift]
                == #[trigger] normalized_rest[k] by {}
            assert forall|j: int| 0 <= j < ballots.len() implies self.normalized_ballot(
                submission,
                #[trigger] ballots[j],
            ) is Ok by {
                if j > 0 {
                    assert(ballots[j] == rest[j - 1]);
                }
            }
            assert forall|j: int| 0 <= j < ballots.len() implies (self.normalized_ballot(
                submission,
                #[trigger] ballots[j],
            ) matches Ok(Some(vote)) ==> normalized.contains((ballots[j].0, vote))) by {
                if let Ok(Some(vote)) = self.normalized_ballot(submission, ballots[j]) {
                    if j == 0 {
                        assert(normalized[0] == (ballots[0].0, vote));
                    } else {
                        assert(ballots[j] == rest[j - 1]);
                        assert(normalized_rest.contains((ballots[j].0, vote)));
                        let k = choose|k: int|
                            0 <= k < normalized_rest.len() && normalized_rest[k] == (
                                ballots[j].0,
                                vote,
                            );
                        assert(normalized[k + shift] == normalized_rest[k]);
                    }
                }
            }
            assert forall|k: int| 0 <= k < normalized.len() implies exists|j: int|
                0 <= j < ballots.len() && self.normalized_ballot(submission, #[trigger] ballots[j])
                    == Ok::<Option<NormalizedVote>, VotingSystemError>(
                    Some((#[trigger] normalized[k]).1),
                ) && ballots[j].0 == normalized[k].0 by {
                if k < shift {
                    assert(self.normalized_ballot(submission, ballots[0]) == Ok::<
                        Option<NormalizedVote>,
                        VotingSystemError,
                    >(Some(normalized[k].1)) && ballots[0].0 == normalized[k].0);
                } else {
                    assert(normalized[k] == normalized_rest[k - shift]);
                    let j = choose|j: int|
                        0 <= j < rest.len() && self.normalized_ballot(submission, #[trigger] rest[j])
                            == Ok::<Option<NormalizedVote>, VotingSystemError>(
                            Some(normalized_rest[k - shift].1),
                        ) && rest[j].0 == normalized_rest[k - shift].0;
                    assert(ballots[j + 1] == rest[j]);
                }
            }
        }
    }

    /// The normalised ballots, submission by submission: every submission is
    /// kept at its place, with the normalised ballots of its own ballots.
    pub proof fn lemma_normalized_each(
        &self,
        submissions: Seq<(Seq<char>, OrderedMap<String, Vote>)>,
    )
        requires
            self.normalized_submissions(submissions) is Ok,
        ensures
            self.normalized_submissions(submissions)->Ok_0.len() == submissions.len(),
            forall|i: int|
                0 <= i < submissions.len() ==> self.normalized_submissions(submissions)->Ok_0[i].0
                    == (#[trigger] submissions[i]).0 && self.normalized_ballots(
                    submissions[i].0,
                    submissions[i].1.entries(),
                ) == Ok::<NormalizedBallots, VotingSystemError>(
                    self.normalized_submissions(submissions)->Ok_0[i].1,
                ),
        decreases submissions.len(),
    {
        if submissions.len() > 0 {
            let normalized = self.normalized_submissions(submissions)->Ok_0;
            let rest = submissions.drop_first();
            let normalized_rest = self.normalized_submissions(rest)->Ok_0;
            self.lemma_normalized_each(rest);
            assert(normalized.len() == normalized_rest.len() + 1);
            assert forall|i: int| 0 <= i < submissions.len() implies normalized[i].0 == (
            #[trigger] submissions[i]).0 && self.normalized_ballots(
                submissions[i].0,
                submissions[i].1.entries(),
            ) == Ok::<NormalizedBallots, VotingSystemError>(normalized[i].1) by {
                if i > 0 {
                    assert(submissions[i] == rest[i - 1]);
                    assert(normalized[i] == normalized_rest[i - 1]);
                }
            }
        }
    }

    /// Every voting power that the system computes is a valid number.
    pub proof fn lemma_power_of_valid(&self, voter: Seq<char>)
        requires
            self.power_of(voter) is Ok,
        ensures
            valid(self.power_of(voter)->Ok_0),
    {
        self.neural_governance->Some_0.lemma_voting_power_valid(
            voter,
            self.external_data_provider->Some_0,
        );
    }

    /// Counting the ballots of a submission gives the sums that summing the
    /// recorded powers over its normalised ballots gives.
    pub proof fn lemma_counted_is_summed(
        &self,
        powers: Map<Seq<char>, u32>,
        submission: Seq<char>,
        ballots: Seq<(Seq<char>, Vote)>,
        sums: Sums,
    )
        requires
            self.normalized_ballots(submission, ballots) is Ok,
            forall|j: int|
                0 <= j < self.normalized_ballots(submission, ballots)->Ok_0.len()
                    ==> self.power_recorded(
                    powers,
                    (#[trigger] self.normalized_ballots(submission, ballots)->Ok_0[j]).0,
                ),
        ensures
            self.counted_all(submission, ballots, sums) == summed_all(
                powers,
                self.normalized_ballots(submission, ballots)->Ok_0,
                sums,
            ),
        decreases ballots.len(),
    {
        if ballots.len() > 0 {
            let normalized = self.normalized_ballots(submission, ballots)->Ok_0;
            let rest = ballots.drop_first();
            let normalized_rest = self.normalized_ballots(submission, rest)->Ok_0;
            match self.normalized_ballot(submission, ballots[0])->Ok_0 {
                None => {
                    self.lemma_counted_is_summed(powers, submission, rest, sums);
                },
                Some(vote) => {
                    let voter = ballots[0].0;
                    assert(normalized[0] == (voter, vote));
                    assert(normalized.drop_first() =~= normalized_rest);
                    assert(self.power_recorded(powers, normalized[0].0));
                    self.lemma_power_of_valid(voter);
                    assert forall|j: int| 0 <= j < normalized_rest.len() implies self.power_recorded(
                        powers,
                        (#[trigger] normalized_rest[j]).0,
                    ) by {
                        assert(normalized_rest[j] == normalized[j + 1]);
                    }
                    let next = self.counted(submission, ballots[0], sums);
                    assert(next == summed(powers, normalized[0], sums));
                    if next is Ok {
                        self.lemma_counted_is_summed(powers, submission, rest, next->Ok_0);
                    }
                },
            }
        }
    }

    /// The law of the tally in steps, for any stretch of submissions and any
    /// outcomes already found.
    pub proof fn lemma_tallied_is_powers_tallied(
        &self,
        powers: Map<Seq<char>, u32>,
        submissions: Seq<(Seq<char>, OrderedMap<String, Vote>)>,
        done: Map<Seq<char>, DecimalNumber>,
    )
        requires
            self.normalized_submissions(submissions) is Ok,
            self.powers_recorded(powers, self.normalized_submissions(submissions)->Ok_0),
        ensures
            self.tallied(submissions, done) == powers_tallied(
                powers,
                self.normalized_submissions(submissions)->Ok_0,
                done,
            ),
        decreases submissions.len(),
    {
        if submissions.len() > 0 {
            let normalized = self.normalized_submissions(submissions)->Ok_0;
            let submission = submissions[0].0;
            let ballots = submissions[0].1.entries();
            let rest = submissions.drop_first();
            let normalized_rest = self.normalized_submissions(rest)->Ok_0;
            let normalized_ballots = self.normalized_ballots(submission, ballots)->Ok_0;
            assert(normalized[0] == (submission, normalized_ballots));
            assert(normalized.drop_first() =~= normalized_rest);
            assert forall|j: int| 0 <= j < normalized_ballots.len() implies self.power_recorded(
                powers,
                (#[trigger] normalized_ballots[j]).0,
            ) by {
                assert(normalized[0].1[j] == normalized_ballots[j]);
            }
            assert forall|i: int, j: int|
                0 <= i < normalized_rest.len() && 0 <= j
                    < normalized_rest[i].1.len() implies self.power_recorded(
                powers,
                (#[trigger] normalized_rest[i].1[j]).0,
            ) by {
                assert(normalized_rest[i] == normalized[i + 1]);
                assert(normalized[i + 1].1[j] == normalized_rest[i].1[j]);
            }
            self.lemma_counted_is_summed(powers, submission, ballots, ((0, 0), (0, 0)));
            let outcome = self.submission_outcome(submission, ballots);
            assert(outcome == powers_outcome(powers, normalized_ballots));
            if outcome is Ok {
                self.lemma_tallied_is_powers_tallied(
                    powers,
                    rest,
                    done.insert(submission, outcome->Ok_0),
                );
            }
        }
    }

    /// The tally in steps is the tally in one go.
    ///
    /// Let the ballots normalise without failure, and let `powers` hold the
    /// encoded voting power of every voter that has a normalised ballot. Then
    /// summing those powers over the normalised ballots gives what the tally
    /// gives: the same outcome for every submission, or the same failure.
    pub proof fn lemma_decomposed_tally(&self, powers: Map<Seq<char>, u32>)
        requires
            self.wf(),
            self.normalized() is Ok,
            self.powers_recorded(powers, self.normalized()->Ok_0),
        ensures
            self.tally_result() == powers_tallied(powers, self.normalized()->Ok_0, Map::empty()),
    {
        self.lemma_tallied_is_powers_tallied(powers, self.votes.entries(), Map::empty());
    }

    /// What a ballot is normalised to: nothing for an abstention, else yes or
    /// no. A ballot that resolves to anything else is an error.
    pub open spec fn normalized_ballot(&self, submission: Seq<char>, ballot: (Seq<char>, Vote))
        -> Result<Option<NormalizedVote>, VotingSystemError> {
        match self.resolved(submission, ballot.0, ballot.1) {
            Err(e) => Err(e),
            Ok(Vote::Abstain) => Ok(None),
            Ok(Vote::Yes) => Ok(Some(NormalizedVote::Yes)),
            Ok(Vote::No) => Ok(Some(NormalizedVote::No)),
            Ok(_) => Err(VotingSystemError::UnexpectedValue),
        }
    }

    /// The normalised ballots of a submission, or the first failure.
    pub open spec fn normalized_ballots(
        &self,
        submission: Seq<char>,
        ballots: Seq<(Seq<char>, Vote)>,
    ) -> Result<NormalizedBallots, VotingSystemError>
        decreases ballots.len(),
    {
        if ballots.len() == 0 {
            Ok(Seq::empty())
        } else {
            match self.normalized_ballot(submission, ballots[0]) {
                Err(e) => Err(e),
                Ok(None) => self.normalized_ballots(submission, ballots.drop_first()),
                Ok(Some(vote)) => preceded(
                    seq![(ballots[0].0, vote)],
                    self.normalized_ballots(submission, ballots.drop_first()),
                ),
            }
        }
    }

    /// The normalised ballots of each of `submissions`. A submission whose
    /// ballots all abstain is kept, with no ballot.
    pub open spec fn normalized_submissions(
        &self,
        submissions: Seq<(Seq<char>, OrderedMap<String, Vote>)>,
    ) -> Result<Seq<(Seq<char>, NormalizedBallots)>, VotingSystemError>
        decreases submissions.len(),
    {
        if submissions.len() == 0 {
            Ok(Seq::empty())
        } else {
            match self.normalized_ballots(submissions[0].0, submissions[0].1.entries()) {
                Err(e) => Err(e),
                Ok(ballots) => preceded(
                    seq![(submissions[0].0, ballots)],
                    self.normalized_submissions(submissions.drop_first()),
                ),
            }
        }
    }

    /// All ballots, normalised.
    pub open spec fn normalized(&self) -> Result<
        Seq<(Seq<char>, NormalizedBallots)>,
        VotingSystemError,
    > {
        self.normalized_submissions(self.votes.entries())
    }

    /// Normalises one ballot.
    fn normalize_ballot(&self, submission_id: &String, voter_id: &String, vote: Vote) -> (res:
        Result<Option<NormalizedVote>, VotingSystemError>)
        requires
            self.wf(),
        ensures
            res == self.normalized_ballot(submission_id@, (voter_id@, vote)),
    {
        let vote = match vote {
            Vote::Delegate => match self.calculate_quorum_consensus(voter_id, submission_id) {
                Ok(vote) => vote,
                Err(e) => {
                    return Err(e);
                },
            },
            _ => vote,
        };
        match vote {
            Vote::Abstain => Ok(None),
            Vote::Yes => Ok(Some(NormalizedVote::Yes)),
            Vote::No => Ok(Some(NormalizedVote::No)),
            _ => Err(VotingSystemError::UnexpectedValue),
        }
    }

    /// Normalises the ballots of one set of ballots cast on a submission.
    fn normalize_ballots(&self, submission_id: &String, submission_votes: &OrderedMap<String, Vote>)
        -> (res: Result<OrderedMap<String, NormalizedVote>, VotingSystemError>)
        requires
            self.wf(),
            submission_votes.wf(),
        ensures
            res matches Ok(normalized) ==> normalized.wf() && self.normalized_ballots(
                submission_id@,
                submission_votes.entries(),
            ) == Ok::<NormalizedBallots, VotingSystemError>(normalized.entries()),
            res matches Err(e) ==> self.normalized_ballots(
                submission_id@,
                submission_votes.entries(),
            ) == Err::<NormalizedBallots, VotingSystemError>(e),
    {
        let ghost all = submission_votes.entries();
        let ghost goal = self.normalized_ballots(submission_id@, all);
        let mut result: OrderedMap<String, NormalizedVote> = OrderedMap::new();
        let mut i: usize = 0;
        assert(all.skip(0) =~= all);
        assert(Seq::<(Seq<char>, NormalizedVote)>::empty() + self.normalized_ballots(
            submission_id@,
            all,
        )->Ok_0 =~= self.normalized_ballots(submission_id@, all)->Ok_0);
        while i < submission_votes.len()
            invariant
                i <= all.len(),
                all == submission_votes.entries(),
                goal == self.normalized_ballots(submission_id@, all),
                self.wf(),
                submission_votes.wf(),
                result.wf(),
                goal == preceded(
                    result.entries(),
                    self.normalized_ballots(submission_id@, all.skip(i as int)),
                ),
                forall|t: int|
                    0 <= t < result.entries().len() && i < all.len() ==> String::key_lt(
                        (#[trigger] result.entries()[t]).0,
                        all[i as int].0,
                    ),
            decreases all.len() - i,
        {
            assert(all.skip(i as int).drop_first() =~= all.skip(i + 1));
            assert(all.skip(i as int)[0] == all[i as int]);
            let voter_id = submission_votes.key_at(i);
            let ghost before = result.entries();
            let ghost rest = self.normalized_ballots(submission_id@, all.skip(i + 1));
            let normalized = match self.normalize_ballot(
                submission_id,
                voter_id,
                *submission_votes.value_at(i),
            ) {
                Ok(normalized) => normalized,
                Err(e) => {
                    return Err(e);
                },
            };
            match normalized {
                None => {},
                Some(vote) => {
                    result.set(voter_id.duplicate(), vote);
                    proof {
                        if rest is Ok {
                            assert(before + (seq![(voter_id@, vote)] + rest->Ok_0) =~= before.push(
                                (voter_id@, vote),
                            ) + rest->Ok_0);
                        }
                    }
                },
            }
            proof {
                if i + 1 < all.len() {
                    assert(String::key_lt(all[i as int].0, all[i + 1].0));
                    assert forall|t: int| 0 <= t < result.entries().len() implies String::key_lt(
                        (#[trigger] result.entries()[t]).0,
                        all[i + 1].0,
                    ) by {
                        if t < before.len() {
                            assert(result.entries()[t] == before[t]);
                            String::lemma_key_lt_transitive(
                                before[t].0,
                                all[i as int].0,
                                all[i + 1].0,
                            );
                        }
                    }
                }
            }
            i += 1;
        }
        assert(result.entries() + Seq::<(Seq<char>, NormalizedVote)>::empty()
            =~= result.entries());
        Ok(result)
    }

    /// Resolves every delegated ballot and drops the abstentions. What is
    /// left says yes or no; a submission without such a ballot is kept, with
    /// no ballot.
    pub fn normalize_votes(&self) -> (res: Result<
        OrderedMap<String, OrderedMap<String, NormalizedVote>>,
        VotingSystemError,
    >)
        requires
            self.wf(),
        ensures
            res matches Ok(normalized) ==> nested_wf(normalized) && self.normalized() == Ok::<
                Seq<(Seq<char>, NormalizedBallots)>,
                VotingSystemError,
            >(nested_entries(normalized)),
            res matches Err(e) ==> self.normalized() == Err::<
                Seq<(Seq<char>, NormalizedBallots)>,
                VotingSystemError,
            >(e),
    {
        let ghost all = self.votes.entries();
        let ghost goal = self.normalized();
        let mut result: OrderedMap<String, OrderedMap<String, NormalizedVote>> = OrderedMap::new();
        let mut i: usize = 0;
        assert(all.skip(0) =~= all);
        assert(nested_entries(result) =~= Seq::<(Seq<char>, NormalizedBallots)>::empty());
        assert(Seq::<(Seq<char>, NormalizedBallots)>::empty() + self.normalized_submissions(
            all,
        )->Ok_0 =~= self.normalized_submissions(all)->Ok_0);
        while i < self.votes.len()
            invariant
                i <= all.len(),
                all == self.votes.entries(),
                goal == self.normalized(),
                self.wf(),
                nested_wf(result),
                goal == preceded(
                    nested_entries(result),
                    self.normalized_submissions(all.skip(i as int)),
                ),
                forall|t: int|
                    0 <= t < result.entries().len() && i < all.len() ==> String::key_lt(
                        (#[trigger] result.entries()[t]).0,
                        all[i as int].0,
                    ),
            decreases all.len() - i,
        {
            assert(all.skip(i as int).drop_first() =~= all.skip(i + 1));
            assert(all.skip(i as int)[0] == all[i as int]);
            let submission_id = self.votes.key_at(i);
            let ghost before = result.entries();
            let ghost nested_before = nested_entries(result);
            let ghost rest = self.normalized_submissions(all.skip(i + 1));
            let normalized = match self.normalize_ballots(submission_id, self.votes.value_at(i)) {
                Ok(normalized) => normalized,
                Err(e) => {
                    return Err(e);
                },
            };
            let ghost ballots = normalized.entries();
            result.set(submission_id.duplicate(), normalized);
            proof {
                assert(nested_entries(result) =~= nested_before.push((submission_id@, ballots)));
                if rest is Ok {
                    assert(nested_before + (seq![(submission_id@, ballots)] + rest->Ok_0)
                        =~= nested_before.push((submission_id@, ballots)) + rest->Ok_0);
                }
                assert forall|t: int| 0 <= t < result.entries().len() implies (
                #[trigger] result.entries()[t]).1.wf() by {
                    if t < before.len() {
                        assert(result.entries()[t] == before[t]);
                    }
                }
                if i + 1 < all.len() {
                    assert(String::key_lt(all[i as int].0, all[i + 1].0));
                    assert forall|t: int| 0 <= t < result.entries().len() implies String::key_lt(
                        (#[trigger] result.entries()[t]).0,
                        all[i + 1].0,
                    ) by {
                        if t < before.len() {
                            assert(result.entries()[t] == before[t]);
                            String::lemma_key_lt_transitive(
                                before[t].0,
                                all[i as int].0,
                                all[i + 1].0,
                            );
                        }
                    }
                }
            }
            i += 1;
        }
        assert(nested_entries(result) + Seq::<(Seq<char>, NormalizedBallots)>::empty()
            =~= nested_entries(result));
        Ok(result)
    }

    /// Normalises the ballots cast on one submission; a submission that is
    /// not known has none.
    pub fn normalize_votes_for_submission(&self, submission_id: &String) -> (res: Result<
        OrderedMap<String, NormalizedVote>,
        VotingSystemError,
    >)
        requires
            self.wf(),
        ensures
            res matches Ok(normalized) ==> normalized.wf() && self.normalized_on(submission_id@)
                == Ok::<NormalizedBallots, VotingSystemError>(normalized.entries()),
            res matches Err(e) ==> self.normalized_on(submission_id@) == Err::<
                NormalizedBallots,
                VotingSystemError,
            >(e),
    {
        match self.votes.get(submission_id) {
            Some(submission_votes) => {
                proof {
                    self.votes.lemma_entries_view();
                }
                self.normalize_ballots(submission_id, submission_votes)
            },
            None => Ok(OrderedMap::new()),
        }
    }

    /// The normalised ballots of one submission.
    pub open spec fn normalized_on(&self, submission: Seq<char>) -> Result<
        NormalizedBallots,
        VotingSystemError,
    > {
        if self.votes@.contains_key(submission) {
            self.normalized_ballots(submission, self.votes@[submission].entries())
        } else {
            Ok(Seq::empty())
        }
    }

    /// Computes the voting power of a voter and records it.
    pub fn voting_power_for_voter(&mut self, voter_id: String, submission_id: String) -> (res:
        Result<DecimalNumber, VotingSystemError>)
        requires
            old(self).wf(),
        ensures
            final(self).wf(),
            res == old(self).power_of(voter_id@),
            final(self).votes == old(self).votes,
            final(self).delegatees == old(self).delegatees,
            final(self).neural_governance == old(self).neural_governance,
            final(self).external_data_provider == old(self).external_data_provider,
            res matches Ok(power) ==> final(self).voting_powers@ == old(self).voting_powers@.insert(
                voter_id@,
                power,
            ),
            res is Err ==> final(self).voting_powers == old(self).voting_powers,
    {
        let voting_power = match self.compute_voting_power(&voter_id, &submission_id) {
            Ok(voting_power) => voting_power,
            Err(e) => {
                return Err(e);
            },
        };
        self.set_voting_power_for_user(voter_id, voting_power);
        Ok(voting_power)
    }

    pub fn get_voting_powers(&self) -> (res: &OrderedMap<String, DecimalNumber>)
        ensures
            *res == self.voting_powers,
    {
        &self.voting_powers
    }

    /// Records the voting power of a voter.
    pub fn set_voting_power_for_user(&mut self, voter_id: String, voting_power: DecimalNumber)
        requires
            old(self).wf(),
        ensures
            final(self).wf(),
            final(self).voting_powers@ == old(self).voting_powers@.insert(voter_id@, voting_power),
            final(self).votes == old(self).votes,
            final(self).delegatees == old(self).delegatees,
            final(self).neural_governance == old(self).neural_governance,
            final(self).external_data_provider == old(self).external_data_provider,
    {
        self.voting_powers.set(voter_id, voting_power);
    }

    /// Records the voting power of each voter of the list: each voter is
    /// paired with the encoding of its power.
    pub fn set_voting_powers(&mut self, new_voting_powers: &Vec<(String, u32)>)
        requires
            old(self).wf(),
        ensures
            final(self).wf(),
            final(self).voting_powers@ == with_all(
                old(self).voting_powers@,
                decoded_powers(new_voting_powers@),
            ),
            final(self).votes == old(self).votes,
            final(self).delegatees == old(self).delegatees,
            final(self).neural_governance == old(self).neural_governance,
            final(self).external_data_provider == old(self).external_data_provider,
    {
        let ghost all = decoded_powers(new_voting_powers@);
        let ghost goal = with_all(old(self).voting_powers@, all);
        let mut i: usize = 0;
        assert(all.skip(0) =~= all);
        while i < new_voting_powers.len()
            invariant
                i <= all.len(),
                all == decoded_powers(new_voting_powers@),
                self.wf(),
                with_all(self.voting_powers@, all.skip(i as int)) == goal,
                self.votes == old(self).votes,
                self.delegatees == old(self).delegatees,
                self.neural_governance == old(self).neural_governance,
                self.external_data_provider == old(self).external_data_provider,
            decreases all.len() - i,
        {
            assert(all.skip(i as int).drop_first() =~= all.skip(i + 1));
            assert(all.skip(i as int)[0] == all[i as int]);
            self.voting_powers.set(
                new_voting_powers[i].0.duplicate(),
                DecimalNumberWrapper::from_raw(new_voting_powers[i].1).as_tuple(),
            );
            i += 1;
        }
    }

    /// Sums the powers of the voters of one submission.
    fn sum_powers<V: BallotVote>(
        voters_voting_powers: &OrderedMap<String, u32>,
        votes: &OrderedMap<String, V>,
    ) -> (res: Result<Sums, VotingSystemError>)
        requires
            voters_voting_powers.wf(),
        ensures
            res == summed_all(voters_voting_powers@, votes.entries(), ((0, 0), (0, 0))),
    {
        let ghost all = votes.entries();
        let ghost goal = summed_all(voters_voting_powers@, all, ((0, 0), (0, 0)));
        let mut sums: Sums = ((0, 0), (0, 0));
        let mut j: usize = 0;
        assert(all.skip(0) =~= all);
        while j < votes.len()
            invariant
                j <= all.len(),
                all == votes.entries(),
                goal == summed_all(voters_voting_powers@, all, ((0, 0), (0, 0))),
                voters_voting_powers.wf(),
                summed_all(voters_voting_powers@, all.skip(j as int), sums) == goal,
            decreases all.len() - j,
        {
            assert(all.skip(j as int).drop_first() =~= all.skip(j + 1));
            assert(all.skip(j as int)[0] == all[j as int]);
            let normalized_vote = match votes.value_at(j).read() {
                Ok(vote) => vote,
                Err(e) => {
                    return Err(e);
                },
            };
            let voter_voting_power: u32 = match voters_voting_powers.get(votes.key_at(j)) {
                Some(power) => *power,
                None => {
                    return Err(VotingSystemError::UnknownVoter);
                },
            };
            let voter_voting_power = DecimalNumberWrapper::from_raw(voter_voting_power).as_tuple();
            let next = match normalized_vote {
                NormalizedVote::Yes => match checked_add(sums.0, voter_voting_power) {
                    Ok(plus) => Ok((plus, sums.1)),
                    Err(e) => Err(e),
                },
                NormalizedVote::No => match checked_add(sums.1, voter_voting_power) {
                    Ok(minus) => Ok((sums.0, minus)),
                    Err(e) => Err(e),
                },
            };
            sums = match next {
                Ok(sums) => sums,
                Err(e) => {
                    return Err(e);
                },
            };
            j += 1;
        }
        Ok(sums)
    }

    /// Computes the outcome of every submission from normalised ballots and
    /// the encoded voting power of every voter. A ballot may hold its vote by
    /// itself or by its name; the submissions and their ballots are taken in
    /// key order, and the first ballot that fails decides the error: a name
    /// that is no vote's, then a voter without a power, then a sum that does
    /// not fit.
    pub fn submissions_voting_powers<V: BallotVote>(
        voters_voting_powers: &OrderedMap<String, u32>,
        normalized_votes: &OrderedMap<String, OrderedMap<String, V>>,
    ) -> (res: Result<OrderedMap<String, DecimalNumber>, VotingSystemError>)
        requires
            voters_voting_powers.wf(),
            normalized_votes.wf(),
        ensures
            res matches Ok(outcomes) ==> outcomes.wf() && powers_tallied(
                voters_voting_powers@,
                nested_entries(*normalized_votes),
                Map::empty(),
            ) == Ok::<Map<Seq<char>, DecimalNumber>, VotingSystemError>(outcomes@),
            res matches Err(e) ==> powers_tallied(
                voters_voting_powers@,
                nested_entries(*normalized_votes),
                Map::empty(),
            ) == Err::<Map<Seq<char>, DecimalNumber>, VotingSystemError>(e),
    {
        let ghost all = nested_entries(*normalized_votes);
        let ghost goal = powers_tallied(voters_voting_powers@, all, Map::empty());
        let mut result: OrderedMap<String, DecimalNumber> = OrderedMap::new();
        let mut i: usize = 0;
        assert(all.skip(0) =~= all);
        while i < normalized_votes.len()
            invariant
                i <= all.len(),
                all == nested_entries(*normalized_votes),
                goal == powers_tallied(voters_voting_powers@, all, Map::empty()),
                voters_voting_powers.wf(),
                normalized_votes.wf(),
                result.wf(),
                powers_tallied(voters_voting_powers@, all.skip(i as int), result@) == goal,
            decreases all.len() - i,
        {
            assert(all.skip(i as int).drop_first() =~= all.skip(i + 1));
            assert(all.skip(i as int)[0] == all[i as int]);
            let submission_id = normalized_votes.key_at(i);
            let sums = match Self::sum_powers(voters_voting_powers, normalized_votes.value_at(i)) {
                Ok(sums) => sums,
                Err(e) => {
                    return Err(e);
                },
            };
            result.set(submission_id.duplicate(), saturating_sub(sums.0, sums.1));
            i += 1;
        }
        Ok(result)
    }
}

/// The entries of a map of maps in key order, each inner map as its entries
/// in key order.
pub open spec fn sorted_nested<V>(map: Map<Seq<char>, Map<Seq<char>, V>>) -> Seq<
    (Seq<char>, Seq<(Seq<char>, V)>),
> {
    sorted_entries::<String, Map<Seq<char>, V>>(map).map_values(
        |entry: (Seq<char>, Map<Seq<char>, V>)| (entry.0, sorted_entries::<String, V>(entry.1)),
    )
}

/// The entries of a well-formed map of maps are those of its view in key
/// order.
pub proof fn lemma_nested_entries_sorted<V>(map: OrderedMap<String, OrderedMap<String, V>>)
    requires
        nested_wf(map),
    ensures
        nested_entries(map) == sorted_nested(nested_view(map)),
{
    let entries = map.entries();
    let views = entries.map_values(|entry: (Seq<char>, OrderedMap<String, V>)| (entry.0, entry.1@));
    map.lemma_entries_view();
    assert(strictly_sorted::<String, Map<Seq<char>, V>>(views)) by {
        assert forall|i: int, j: int| 0 <= i < j < views.len() implies String::key_lt(
            #[trigger] views[i].0,
            #[trigger] views[j].0,
        ) by {
            assert(String::key_lt(entries[i].0, entries[j].0));
        }
    }
    assert forall|key: Seq<char>| has_key(views, key) == has_key(entries, key) by {
        if has_key(views, key) {
            let i = choose|i: int| 0 <= i < views.len() && #[trigger] views[i].0 == key;
            assert(entries[i].0 == key);
        }
        if has_key(entries, key) {
            let i = choose|i: int| 0 <= i < entries.len() && #[trigger] entries[i].0 == key;
            assert(views[i].0 == key);
        }
    }
    assert forall|key: Seq<char>| has_key(views, key) implies #[trigger] entries_map(views)[key]
        == nested_view(map)[key] by {
        let i = choose|i: int| 0 <= i < views.len() && #[trigger] views[i].0 == key;
        lemma_entry_in_map::<String, Map<Seq<char>, V>>(views, i);
        assert(entries[i].0 == key);
        lemma_entry_in_map::<String, OrderedMap<String, V>>(entries, i);
    }
    assert(entries_map(views) =~= nested_view(map));
    let sorted = sorted_entries::<String, Map<Seq<char>, V>>(nested_view(map));
    lemma_sorted_unique::<String, Map<Seq<char>, V>>(views, sorted);
    assert forall|i: int| 0 <= i < entries.len() implies #[trigger] nested_entries(map)[i]
        == sorted_nested(nested_view(map))[i] by {
        assert(entries[i].1.wf());
        entries[i].1.lemma_entries_sorted();
        assert(sorted[i] == views[i]);
    }
    assert(nested_entries(map) =~= sorted_nested(nested_view(map)));
}

impl VotingSystem {
    /// Computes the outcome of every submission from lists: the voters with
    /// their encoded powers, and the normalised ballots with their
    /// submissions and voters. The lists are first made into maps; the
    /// submissions and their ballots are then taken in key order.
    pub fn submissions_voting_powers_vec<V: BallotVote>(
        voters_voting_powers_vec: &Vec<(String, u32)>,
        normalized_votes_vec: &Vec<(String, String, V)>,
    ) -> (res: Result<OrderedMap<String, DecimalNumber>, VotingSystemError>)
        ensures
            res matches Ok(outcomes) ==> outcomes.wf() && powers_tallied(
                with_all(Map::empty(), keyed(voters_voting_powers_vec@)),
                sorted_nested(grouped(normalized_votes_vec@, Map::empty())),
                Map::empty(),
            ) == Ok::<Map<Seq<char>, DecimalNumber>, VotingSystemError>(outcomes@),
            res matches Err(e) ==> powers_tallied(
                with_all(Map::empty(), keyed(voters_voting_powers_vec@)),
                sorted_nested(grouped(normalized_votes_vec@, Map::empty())),
                Map::empty(),
            ) == Err::<Map<Seq<char>, DecimalNumber>, VotingSystemError>(e),
    {
        let ghost powers_list = keyed(voters_voting_powers_vec@);
        let mut voters_voting_powers: OrderedMap<String, u32> = OrderedMap::new();
        let mut i: usize = 0;
        assert(powers_list.skip(0) =~= powers_list);
        while i < voters_voting_powers_vec.len()
            invariant
                i <= powers_list.len(),
                powers_list == keyed(voters_voting_powers_vec@),
                voters_voting_powers.wf(),
                with_all(voters_voting_powers@, powers_list.skip(i as int)) == with_all(
                    Map::empty(),
                    powers_list,
                ),
            decreases powers_list.len() - i,
        {
            assert(powers_list.skip(i as int).drop_first() =~= powers_list.skip(i + 1));
            assert(powers_list.skip(i as int)[0] == powers_list[i as int]);
            voters_voting_powers.set(
                voters_voting_powers_vec[i].0.duplicate(),
                voters_voting_powers_vec[i].1,
            );
            i += 1;
        }
        let ghost ballots = normalized_votes_vec@;
        let mut normalized_votes: OrderedMap<String, OrderedMap<String, V>> = OrderedMap::new();
        let mut j: usize = 0;
        assert(ballots.skip(0) =~= ballots);
        assert(nested_view(normalized_votes) =~= Map::<Seq<char>, Map<Seq<char>, V>>::empty());
        while j < normalized_votes_vec.len()
            invariant
                j <= ballots.len(),
                ballots == normalized_votes_vec@,
                nested_wf(normalized_votes),
                grouped(ballots.skip(j as int), nested_view(normalized_votes)) == grouped(
                    ballots,
                    Map::empty(),
                ),
            decreases ballots.len() - j,
        {
            assert(ballots.skip(j as int).drop_first() =~= ballots.skip(j + 1));
            assert(ballots.skip(j as int)[0] == ballots[j as int]);
            let ghost before = nested_view(normalized_votes);
            let ghost inner_wf = |votes: OrderedMap<String, V>| votes.wf();
            proof {
                normalized_votes.lemma_all_values(inner_wf);
            }
            let mut current = match normalized_votes.remove(&normalized_votes_vec[j].0) {
                Some(current) => current,
                None => OrderedMap::new(),
            };
            current.set(normalized_votes_vec[j].1.duplicate(), normalized_votes_vec[j].2.copied());
            normalized_votes.set(normalized_votes_vec[j].0.duplicate(), current);
            proof {
                normalized_votes.lemma_all_values(inner_wf);
                let submission = ballots[j as int].0@;
                let on = if before.contains_key(submission) {
                    before[submission]
                } else {
                    Map::empty()
                };
                assert(nested_view(normalized_votes) =~= before.insert(
                    submission,
                    on.insert(ballots[j as int].1@, ballots[j as int].2),
                ));
            }
            j += 1;
        }
        proof {
            lemma_nested_entries_sorted(normalized_votes);
        }
        Self::submissions_voting_powers(&voters_voting_powers, &normalized_votes)
    }
}

} // verus!
