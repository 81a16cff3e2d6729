//! The voting system: the ballots cast, the delegatees named, the governance
//! pipeline and the outside data, and the tally computed from them.

use vstd::prelude::*;
use crate::decimal_number_wrapper::{checked_add, difference_of, saturating_sub, sum_of};
use crate::external_data_provider::{ranks_for, ExternalDataProvider};
use crate::neural_governance::NeuralGovernance;
use crate::ordered_map::{ids, MapKey, OrderedMap};
use crate::quorum::{consensus, quorum_consensus};
use crate::types::{DecimalNumber, Vote, VotingSystemError, MAX_DELEGATEES, MIN_DELEGATEES};

verus! {

/// The state of a vote.
#[derive(Clone, Debug, PartialEq, Eq)]
pub struct VotingSystem {
    /// For each submission the ballot of each of its voters.
    pub votes: OrderedMap<String, OrderedMap<String, Vote>>,
    /// The pipeline that computes voting powers, once it has been set up.
    pub neural_governance: Option<NeuralGovernance>,
    /// For each delegating voter the delegatees it named, in its own order.
    pub delegatees: OrderedMap<String, Vec<String>>,
    /// The outside data, once it has been provided.
    pub external_data_provider: Option<ExternalDataProvider>,
    /// The voting powers computed so far.
    pub voting_powers: OrderedMap<String, DecimalNumber>,
}

/// The plus and minus sums of a submission.
pub type Sums = (DecimalNumber, DecimalNumber);

/// The ballots of a submission are in key order, and none of them says
/// `Remove`: that vote only takes a ballot away.
pub open spec fn ballots_wf(ballots: OrderedMap<String, Vote>) -> bool {
    &&& ballots.wf()
    &&& forall|j: int|
        0 <= j < ballots.entries().len() ==> (#[trigger] ballots.entries()[j]).1 != Vote::Remove
}

/// Whether the ballots of a submission are well formed.
pub fn ballots_well_formed(ballots: &OrderedMap<String, Vote>) -> (res: bool)
    ensures
        res == ballots_wf(*ballots),
{
    if !ballots.is_well_formed() {
        return false;
    }
    let mut j: usize = 0;
    while j < ballots.len()
        invariant
            j <= ballots.entries().len(),
            forall|t: int| 0 <= t < j ==> (#[trigger] ballots.entries()[t]).1 != Vote::Remove,
        decreases ballots.entries().len() - j,
    {
        match *ballots.value_at(j) {
            Vote::Remove => {
                return false;
            },
            _ => {},
        }
        j += 1;
    }
    true
}

impl VotingSystem {
    /// All maps are in key order, no stored ballot says `Remove`, and every
    /// list of delegatees has at least five and at most ten entries.
    pub open spec fn wf(&self) -> bool {
        &&& self.votes.wf()
        &&& forall|i: int|
            0 <= i < self.votes.entries().len() ==> ballots_wf(
                (#[trigger] self.votes.entries()[i]).1,
            )
        &&& self.delegatees.wf()
        &&& forall|i: int|
            0 <= i < self.delegatees.entries().len() ==> MIN_DELEGATEES <= (
            #[trigger] self.delegatees.entries()[i]).1@.len() <= MAX_DELEGATEES
        &&& self.voting_powers.wf()
        &&& (self.neural_governance matches Some(neural_governance) ==> neural_governance.wf())
        &&& (self.external_data_provider matches Some(external_data) ==> external_data.wf())
    }

    /// Whether the state is well formed.
    pub fn is_well_formed(&self) -> (res: bool)
        ensures
            res == self.wf(),
    {
        if !self.votes.is_well_formed() || !self.delegatees.is_well_formed()
            || !self.voting_powers.is_well_formed() {
            return false;
        }
        let mut i: usize = 0;
        while i < self.votes.len()
            invariant
                i <= self.votes.entries().len(),
                forall|t: int| 0 <= t < i ==> ballots_wf((#[trigger] self.votes.entries()[t]).1),
            decreases self.votes.entries().len() - i,
        {
            if !ballots_well_formed(self.votes.value_at(i)) {
                return false;
            }
            i += 1;
        }
        let mut i: usize = 0;
        while i < self.delegatees.len()
            invariant
                i <= self.delegatees.entries().len(),
                forall|t: int|
                    0 <= t < i ==> MIN_DELEGATEES <= (
                    #[trigger] self.delegatees.entries()[t]).1@.len() <= MAX_DELEGATEES,
            decreases self.delegatees.entries().len() - i,
        {
            let named = self.delegatees.value_at(i).len();
            if named < MIN_DELEGATEES as usize || named > MAX_DELEGATEES as usize {
                return false;
            }
            i += 1;
        }
        let governance = match &self.neural_governance {
            Some(neural_governance) => neural_governance.is_well_formed(),
            None => true,
        };
        let data = match &self.external_data_provider {
            Some(external_data) => external_data.is_well_formed(),
            None => true,
        };
        governance && data
    }

    /// The ballots cast on a submission; none on one that is not known.
    pub open spec fn ballots_on(&self, submission: Seq<char>) -> Map<Seq<char>, Vote> {
        if self.votes@.contains_key(submission) {
            self.votes@[submission]@
        } else {
            Map::empty()
        }
    }

    /// The vote that stands in for a voter's delegated ballot on a submission.
    pub open spec fn quorum(&self, voter: Seq<char>, submission: Seq<char>) -> Result<
        Vote,
        VotingSystemError,
    > {
        match self.external_data_provider {
            None => Err(VotingSystemError::ExternalDataProviderNotSet),
            Some(external_data) => if !self.delegatees@.contains_key(voter) {
                Err(VotingSystemError::DelegateesNotFound)
            } else {
                let delegatees = ids(self.delegatees@[voter]@);
                consensus(
                    delegatees,
                    ranks_for(external_data.delegation_ranks@, delegatees),
                    self.ballots_on(submission),
                )
            },
        }
    }

    /// The vote that a ballot counts as: a delegated one is resolved.
    pub open spec fn resolved(&self, submission: Seq<char>, voter: Seq<char>, vote: Vote) -> Result<
        Vote,
        VotingSystemError,
    > {
        if vote == Vote::Delegate {
            self.quorum(voter, submission)
        } else {
            Ok(vote)
        }
    }

    /// Voting power of a voter, as the governance pipeline computes it.
    pub open spec fn power_of(&self, voter: Seq<char>) -> Result<DecimalNumber, VotingSystemError> {
        match self.neural_governance {
            None => Err(VotingSystemError::NeuralGovernanceNotSet),
            Some(neural_governance) => if neural_governance.layers@.len() == 0 {
                Err(VotingSystemError::NoLayersExist)
            } else {
                match self.external_data_provider {
                    None => Err(VotingSystemError::ExternalDataProviderNotSet),
                    Some(external_data) => neural_governance.voting_power(voter, external_data),
                }
            },
        }
    }

    /// The sums of a submission after one more ballot: the voter's power is
    /// added to the plus sum for a yes and to the minus sum for a no. An
    /// abstention counts for nothing, and no power is computed for it.
    pub open spec fn counted(&self, submission: Seq<char>, ballot: (Seq<char>, Vote), sums: Sums)
        -> Result<Sums, VotingSystemError> {
        match self.resolved(submission, ballot.0, ballot.1) {
            Err(e) => Err(e),
            Ok(Vote::Abstain) => Ok(sums),
            Ok(vote) => match self.power_of(ballot.0) {
                Err(e) => Err(e),
                Ok(power) => match vote {
                    Vote::Yes => match sum_of(sums.0, power) {
                        Err(e) => Err(e),
                        Ok(plus) => Ok((plus, sums.1)),
                    },
                    Vote::No => match sum_of(sums.1, power) {
                        Err(e) => Err(e),
                        Ok(minus) => Ok((sums.0, minus)),
                    },
                    _ => Ok(sums),
                },
            },
        }
    }

    /// The sums of a submission after all of `ballots`, counted in order.
    pub open spec fn counted_all(
        &self,
        submission: Seq<char>,
        ballots: Seq<(Seq<char>, Vote)>,
        sums: Sums,
    ) -> Result<Sums, VotingSystemError>
        decreases ballots.len(),
    {
        if ballots.len() == 0 {
            Ok(sums)
        } else {
            match self.counted(submission, ballots[0], sums) {
                Err(e) => Err(e),
                Ok(next) => self.counted_all(submission, ballots.drop_first(), next),
            }
        }
    }

    /// Outcome of a submission: its plus sum less its minus sum, zero where
    /// the minus sum is not the smaller.
    pub open spec fn submission_outcome(
        &self,
        submission: Seq<char>,
        ballots: Seq<(Seq<char>, Vote)>,
    ) -> Result<DecimalNumber, VotingSystemError> {
        match self.counted_all(submission, ballots, ((0, 0), (0, 0))) {
            Err(e) => Err(e),
            Ok(sums) => Ok(difference_of(sums.0, sums.1)),
        }
    }

    /// `done` extended by the outcome of each of `submissions`, or the first
    /// failure among them.
    pub open spec fn tallied(
        &self,
        submissions: Seq<(Seq<char>, OrderedMap<String, Vote>)>,
        done: Map<Seq<char>, DecimalNumber>,
    ) -> Result<Map<Seq<char>, DecimalNumber>, VotingSystemError>
        decreases submissions.len(),
    {
        if submissions.len() == 0 {
            Ok(done)
        } else {
            match self.submission_outcome(submissions[0].0, submissions[0].1.entries()) {
                Err(e) => Err(e),
                Ok(outcome) => self.tallied(
                    submissions.drop_first(),
                    done.insert(submissions[0].0, outcome),
                ),
            }
        }
    }

    /// The outcome of every submission.
    pub open spec fn tally_result(&self) -> Result<
        Map<Seq<char>, DecimalNumber>,
        VotingSystemError,
    > {
        self.tallied(self.votes.entries(), Map::empty())
    }

    /// Tallying some submissions adds an outcome for each of them, and for
    /// no other.
    pub proof fn lemma_tallied_covers(
        &self,
        submissions: Seq<(Seq<char>, OrderedMap<String, Vote>)>,
        done: Map<Seq<char>, DecimalNumber>,
    )
        ensures
            self.tallied(submissions, done) matches Ok(outcomes) ==> forall|
                submission: Seq<char>,
            | #[trigger]
                outcomes.contains_key(submission) <==> done.contains_key(submission) || exists|
                    i: int,
                | 0 <= i < submissions.len() && (#[trigger] submissions[i]).0 == submission,
        decreases submissions.len(),
    {
        if submissions.len() > 0 {
            let outcome = self.submission_outcome(submissions[0].0, submissions[0].1.entries());
            if outcome is Ok {
                let rest = submissions.drop_first();
                let next = done.insert(submissions[0].0, outcome->Ok_0);
                self.lemma_tallied_covers(rest, next);
                if self.tallied(rest, next) is Ok {
                    let outcomes = self.tallied(rest, next)->Ok_0;
                    assert forall|submission: Seq<char>| #[trigger]
                        outcomes.contains_key(submission) <==> done.contains_key(submission)
                            || exists|i: int|
                            0 <= i < submissions.len() && (#[trigger] submissions[i]).0
                                == submission by {
                        if outcomes.contains_key(submission) && !done.contains_key(submission) {
                            if submission != submissions[0].0 {
                                let i = choose|i: int|
                                    0 <= i < rest.len() && (#[trigger] rest[i]).0 == submission;
                                assert(submissions[i + 1].0 == submission);
                            }
                        }
                        if exists|i: int|
                            0 <= i < submissions.len() && (#[trigger] submissions[i]).0
                                == submission {
                            let i = choose|i: int|
                                0 <= i < submissions.len() && (#[trigger] submissions[i]).0
                                    == submission;
                            if i > 0 {
                                assert(rest[i - 1].0 == submission);
                            }
                        }
                    }
                }
            }
        }
    }

    /// The tally has an outcome for every submission that is known, and
    /// for no other.
    pub proof fn lemma_tally_covers(&self)
        requires
            self.wf(),
        ensures
            self.tally_result() matches Ok(outcomes) ==> outcomes.dom() == self.votes@.dom(),
    {
        self.lemma_tallied_covers(self.votes.entries(), Map::empty());
        self.votes.lemma_entries_view();
        if self.tally_result() is Ok {
            let outcomes = self.tally_result()->Ok_0;
            assert forall|submission: Seq<char>|
                outcomes.dom().contains(submission) == self.votes@.dom().contains(submission) by {
                if outcomes.contains_key(submission) {
                    let i = choose|i: int|
                        0 <= i < self.votes.entries().len() && (#[trigger] self.votes.entries()[i]).0
                            == submission;
                    assert(self.votes@.contains_key(self.votes.entries()[i].0));
                }
                if self.votes@.contains_key(submission) {
                    let i = choose|i: int|
                        0 <= i < self.votes.entries().len() && #[trigger] self.votes.entries()[i].0
                            == submission;
                    assert(self.votes.entries()[i].0 == submission);
                }
            }
            assert(outcomes.dom() =~= self.votes@.dom());
        }
    }

    /// A voting system in which nothing has happened yet.
    pub fn new() -> (res: Self)
        ensures
            res.wf(),
            res.votes.entries().len() == 0,
            res.votes@ == Map::<Seq<char>, OrderedMap<String, Vote>>::empty(),
            res.delegatees@ == Map::<Seq<char>, Vec<String>>::empty(),
            res.voting_powers@ == Map::<Seq<char>, DecimalNumber>::empty(),
            res.neural_governance.is_none(),
            res.external_data_provider.is_none(),
    {
        VotingSystem {
            votes: OrderedMap::new(),
            neural_governance: None,
            delegatees: OrderedMap::new(),
            external_data_provider: None,
            voting_powers: OrderedMap::new(),
        }
    }

    /// Sets up an empty governance pipeline.
    pub fn initialize(&mut self)
        requires
            old(self).wf(),
        ensures
            final(self).wf(),
            final(self).neural_governance matches Some(neural_governance)
                && neural_governance.layers@.len() == 0 && neural_governance.current_layer_id == 0,
            final(self).votes == old(self).votes,
            final(self).delegatees == old(self).delegatees,
            final(self).external_data_provider == old(self).external_data_provider,
            final(self).voting_powers == old(self).voting_powers,
    {
        self.neural_governance = Some(NeuralGovernance::new());
    }

    pub fn get_neural_governance(&self) -> (res: Result<&NeuralGovernance, VotingSystemError>)
        ensures
            self.neural_governance matches Some(neural_governance) ==> res == Ok::<
                &NeuralGovernance,
                VotingSystemError,
            >(&neural_governance),
            self.neural_governance.is_none() ==> res == Err::<&NeuralGovernance, VotingSystemError>(
                VotingSystemError::NeuralGovernanceNotSet,
            ),
    {
        match &self.neural_governance {
            Some(neural_governance) => Ok(neural_governance),
            None => Err(VotingSystemError::NeuralGovernanceNotSet),
        }
    }

    /// Replaces the governance pipeline.
    pub fn set_neural_governance(&mut self, neural_governance: NeuralGovernance)
        requires
            old(self).wf(),
            neural_governance.wf(),
        ensures
            final(self).wf(),
            final(self).neural_governance == Some(neural_governance),
            final(self).votes == old(self).votes,
            final(self).delegatees == old(self).delegatees,
            final(self).external_data_provider == old(self).external_data_provider,
            final(self).voting_powers == old(self).voting_powers,
    {
        self.neural_governance = Some(neural_governance);
    }

    pub fn set_external_data_provider(&mut self, external_data_provider: ExternalDataProvider)
        requires
            old(self).wf(),
            external_data_provider.wf(),
        ensures
            final(self).wf(),
            final(self).external_data_provider == Some(external_data_provider),
            final(self).votes == old(self).votes,
            final(self).delegatees == old(self).delegatees,
            final(self).neural_governance == old(self).neural_governance,
            final(self).voting_powers == old(self).voting_powers,
    {
        self.external_data_provider = Some(external_data_provider);
    }

    pub fn get_external_data_provider(&self) -> (res: Result<
        &ExternalDataProvider,
        VotingSystemError,
    >)
        ensures
            self.external_data_provider matches Some(external_data) ==> res == Ok::<
                &ExternalDataProvider,
                VotingSystemError,
            >(&external_data),
            self.external_data_provider.is_none() ==> res == Err::<
                &ExternalDataProvider,
                VotingSystemError,
            >(VotingSystemError::ExternalDataProviderNotSet),
    {
        match &self.external_data_provider {
            Some(external_data) => Ok(external_data),
            None => Err(VotingSystemError::ExternalDataProviderNotSet),
        }
    }

    /// Resolves the delegated ballot of a voter on a submission.
    pub fn calculate_quorum_consensus(&self, voter_id: &String, submission_id: &String) -> (res:
        Result<Vote, VotingSystemError>)
        requires
            self.wf(),
        ensures
            res == self.quorum(voter_id@, submission_id@),
    {
        let external_data = match self.get_external_data_provider() {
            Ok(external_data) => external_data,
            Err(e) => {
                return Err(e);
            },
        };
        let delegatees = match self.delegatees.get(voter_id) {
            Some(delegatees) => delegatees,
            None => {
                return Err(VotingSystemError::DelegateesNotFound);
            },
        };
        let delegation_ranks = external_data.get_delegation_ranks_for_users(delegatees);
        match self.votes.get(submission_id) {
            Some(submission_votes) => {
                proof {
                    self.votes.lemma_entries_view();
                }
                quorum_consensus(delegatees, &delegation_ranks, submission_votes)
            },
            None => {
                let submission_votes: OrderedMap<String, Vote> = OrderedMap::new();
                quorum_consensus(delegatees, &delegation_ranks, &submission_votes)
            },
        }
    }

    /// Computes the voting power of a voter without recording it.
    pub fn compute_voting_power(&self, voter_id: &String, submission_id: &String) -> (res: Result<
        DecimalNumber,
        VotingSystemError,
    >)
        requires
            self.wf(),
        ensures
            res == self.power_of(voter_id@),
    {
        let neural_governance = match self.get_neural_governance() {
            Ok(neural_governance) => neural_governance,
            Err(e) => {
                return Err(e);
            },
        };
        if neural_governance.layers.len() == 0 {
            return Err(VotingSystemError::NoLayersExist);
        }
        let external_data = match self.get_external_data_provider() {
            Ok(external_data) => external_data,
            Err(e) => {
                return Err(e);
            },
        };
        neural_governance.execute_neural_governance(voter_id, submission_id, external_data)
    }

    /// Counts one ballot into the sums of its submission.
    fn count_ballot(&self, submission_id: &String, voter_id: &String, vote: Vote, sums: Sums) -> (res:
        Result<Sums, VotingSystemError>)
        requires
            self.wf(),
        ensures
            res == self.counted(submission_id@, (voter_id@, vote), sums),
    {
        let vote = match vote {
            Vote::Delegate => match self.calculate_quorum_consensus(voter_id, submission_id) {
                Ok(vote) => vote,
                Err(e) => {
                    return Err(e);
                },
            },
            _ => vote,
        };
        let voting_power = match vote {
            Vote::Abstain => {
                return Ok(sums);
            },
            _ => match self.compute_voting_power(voter_id, submission_id) {
                Ok(voting_power) => voting_power,
                Err(e) => {
                    return Err(e);
                },
            },
        };
        match vote {
            Vote::Yes => match checked_add(sums.0, voting_power) {
                Ok(plus) => Ok((plus, sums.1)),
                Err(e) => Err(e),
            },
            Vote::No => match checked_add(sums.1, voting_power) {
                Ok(minus) => Ok((sums.0, minus)),
                Err(e) => Err(e),
            },
            _ => Ok(sums),
        }
    }

    /// Computes the outcome of every submission: the voting power of those
    /// who voted yes, less that of those who voted no.
    pub fn tally(&self) -> (res: Result<OrderedMap<String, DecimalNumber>, VotingSystemError>)
        requires
            self.wf(),
        ensures
            res matches Ok(outcomes) ==> outcomes.wf() && self.tally_result() == Ok::<
                Map<Seq<char>, DecimalNumber>,
                VotingSystemError,
            >(outcomes@),
            res matches Err(e) ==> self.tally_result() == Err::<
                Map<Seq<char>, DecimalNumber>,
                VotingSystemError,
            >(e),
    {
        let ghost all = self.votes.entries();
        let ghost goal = self.tally_result();
        let mut result: OrderedMap<String, DecimalNumber> = OrderedMap::new();
        let mut i: usize = 0;
        assert(all.skip(0) =~= all);
        while i < self.votes.len()
            invariant
                i <= all.len(),
                all == self.votes.entries(),
                goal == self.tally_result(),
                self.wf(),
                result.wf(),
                self.tallied(all.skip(i as int), result@) == goal,
            decreases all.len() - i,
        {
            assert(all.skip(i as int).drop_first() =~= all.skip(i + 1));
            assert(all.skip(i as int)[0] == all[i as int]);
            let submission_id = self.votes.key_at(i);
            let sums = match self.count_ballots(submission_id, self.votes.value_at(i)) {
                Ok(sums) => sums,
                Err(e) => {
                    return Err(e);
                },
            };
            result.set(submission_id.duplicate(), saturating_sub(sums.0, sums.1));
            i += 1;
        }
        Ok(result)
    }

    /// Counts the ballots of one submission into its plus and minus sums.
    fn count_ballots(&self, submission_id: &String, submission_votes: &OrderedMap<String, Vote>)
        -> (res: Result<Sums, VotingSystemError>)
        requires
            self.wf(),
        ensures
            res == self.counted_all(submission_id@, submission_votes.entries(), ((0, 0), (0, 0))),
    {
        let ghost ballots = submission_votes.entries();
        let ghost goal = self.counted_all(submission_id@, ballots, ((0, 0), (0, 0)));
        let mut sums: Sums = ((0, 0), (0, 0));
        let mut j: usize = 0;
        assert(ballots.skip(0) =~= ballots);
        while j < submission_votes.len()
            invariant
                j <= ballots.len(),
                ballots == submission_votes.entries(),
                goal == self.counted_all(submission_id@, ballots, ((0, 0), (0, 0))),
                self.wf(),
                self.counted_all(submission_id@, ballots.skip(j as int), sums) == goal,
            decreases ballots.len() - j,
        {
            assert(ballots.skip(j as int).drop_first() =~= ballots.skip(j + 1));
            assert(ballots.skip(j as int)[0] == ballots[j as int]);
            let counted = self.count_ballot(
                submission_id,
                submission_votes.key_at(j),
                *submission_votes.value_at(j),
                sums,
            );
            sums = match counted {
                Ok(sums) => sums,
                Err(e) => {
                    return Err(e);
                },
            };
            j += 1;
        }
        Ok(sums)
    }
}

} // verus!
