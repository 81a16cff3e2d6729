//! Casting, changing and withdrawing ballots, naming delegatees, and the
//! queries on what has been cast.

use vstd::prelude::*;
use crate::external_data_provider::keyed;
use crate::ordered_map::{ids, sorted_entries, with_all, MapKey, OrderedMap};
use crate::types::{vote_from_str, vote_named, Vote, VotingSystemError, MAX_DELEGATEES, MIN_DELEGATEES};
use crate::voting::{ballots_wf, VotingSystem};

verus! {

/// The ballots of every submission, by voter.
pub type Ballots = Map<Seq<char>, Map<Seq<char>, Vote>>;

/// The ballots after `voter` has cast `vote` on `submission`. `Remove` takes
/// the voter's ballot away; any other vote replaces it. A submission left
/// without a ballot is forgotten.
pub open spec fn cast(ballots: Ballots, voter: Seq<char>, submission: Seq<char>, vote: Vote)
    -> Ballots {
    let on = if ballots.contains_key(submission) {
        ballots[submission]
    } else {
        Map::empty()
    };
    let changed = if vote == Vote::Remove {
        on.remove(voter)
    } else {
        on.insert(voter, vote)
    };
    if changed == Map::<Seq<char>, Vote>::empty() {
        ballots.remove(submission)
    } else {
        ballots.insert(submission, changed)
    }
}

/// Whether `voter` has the same ballot on `submission`, or none, before and
/// after.
pub open spec fn same_ballot(
    before: Ballots,
    after: Ballots,
    voter: Seq<char>,
    submission: Seq<char>,
) -> bool {
    &&& votes_of(after, voter).contains_key(submission) == votes_of(before, voter).contains_key(
        submission,
    )
    &&& votes_of(before, voter).contains_key(submission) ==> votes_of(after, voter)[submission]
        == votes_of(before, voter)[submission]
}

/// Casting a vote changes the ballot of the voter on the submission, and
/// no other: the voter's ballot then says what was cast, or is gone if the
/// vote was `Remove`.
pub proof fn lemma_cast(ballots: Ballots, voter: Seq<char>, submission: Seq<char>, vote: Vote)
    ensures
        vote != Vote::Remove ==> votes_of(
            cast(ballots, voter, submission, vote),
            voter,
        ).contains_key(submission) && votes_of(
            cast(ballots, voter, submission, vote),
            voter,
        )[submission] == vote,
        vote == Vote::Remove ==> !votes_of(
            cast(ballots, voter, submission, vote),
            voter,
        ).contains_key(submission),
        forall|other: Seq<char>, at: Seq<char>|
            other != voter || at != submission ==> #[trigger] same_ballot(
                ballots,
                cast(ballots, voter, submission, vote),
                other,
                at,
            ),
{
    let on = if ballots.contains_key(submission) {
        ballots[submission]
    } else {
        Map::empty()
    };
    let changed = if vote == Vote::Remove {
        on.remove(voter)
    } else {
        on.insert(voter, vote)
    };
    if vote != Vote::Remove {
        assert(changed.contains_key(voter));
        assert(changed != Map::<Seq<char>, Vote>::empty());
    }
    assert forall|other: Seq<char>, at: Seq<char>|
        other != voter || at != submission implies #[trigger] same_ballot(
        ballots,
        cast(ballots, voter, submission, vote),
        other,
        at,
    ) by {
        if at == submission && changed == Map::<Seq<char>, Vote>::empty() {
            assert(!changed.contains_key(other));
        }
    }
}

/// The ballots after `voter` has cast each of `votes` in turn, each on the
/// submission that it is paired with.
pub open spec fn cast_all(ballots: Ballots, voter: Seq<char>, votes: Seq<(Seq<char>, String)>)
    -> Ballots
    decreases votes.len(),
{
    if votes.len() == 0 {
        ballots
    } else {
        cast_all(
            cast(ballots, voter, votes[0].0, vote_named(votes[0].1@)),
            voter,
            votes.drop_first(),
        )
    }
}

/// The ballots that `voter` has cast, by submission.
pub open spec fn votes_of(ballots: Ballots, voter: Seq<char>) -> Map<Seq<char>, Vote> {
    Map::new(
        |submission: Seq<char>|
            ballots.contains_key(submission) && ballots[submission].contains_key(voter),
        |submission: Seq<char>| ballots[submission][voter],
    )
}

/// Whether `voter` has cast a ballot on one of the first `n` submissions.
pub open spec fn voted_before(
    submissions: Seq<(Seq<char>, OrderedMap<String, Vote>)>,
    n: int,
    voter: Seq<char>,
) -> bool {
    exists|i: int|
        0 <= i < n && i < submissions.len() && (#[trigger] submissions[i]).1@.contains_key(voter)
}

/// A second list of the same identifiers.
pub fn duplicate_list(list: &Vec<String>) -> (res: Vec<String>)
    ensures
        ids(res@) == ids(list@),
{
    let mut copy: Vec<String> = Vec::new();
    let mut i: usize = 0;
    while i < list.len()
        invariant
            i <= list.len(),
            copy@.len() == i,
            forall|j: int| 0 <= j < i ==> (#[trigger] copy@[j])@ == list@[j]@,
        decreases list.len() - i,
    {
        copy.push(list[i].duplicate());
        i += 1;
    }
    assert(ids(copy@) =~= ids(list@));
    copy
}

impl VotingSystem {
    /// The ballots of every submission, by voter.
    pub open spec fn ballots(&self) -> Ballots {
        Map::new(
            |submission: Seq<char>| self.votes@.contains_key(submission),
            |submission: Seq<char>| self.votes@[submission]@,
        )
    }

    /// Whether `voter` has cast a ballot on some submission.
    pub open spec fn has_voted(&self, voter: Seq<char>) -> bool {
        exists|submission: Seq<char>| #[trigger]
            self.votes@.contains_key(submission) && self.votes@[submission]@.contains_key(voter)
    }

    /// Records one ballot.
    fn cast_ballot(&mut self, voter_id: &String, submission_id: String, vote: Vote)
        requires
            old(self).wf(),
        ensures
            final(self).wf(),
            final(self).ballots() == cast(old(self).ballots(), voter_id@, submission_id@, vote),
            final(self).delegatees == old(self).delegatees,
            final(self).neural_governance == old(self).neural_governance,
            final(self).external_data_provider == old(self).external_data_provider,
            final(self).voting_powers == old(self).voting_powers,
    {
        let ghost inner_wf = |votes: OrderedMap<String, Vote>| ballots_wf(votes);
        let ghost kept = |vote: Vote| vote != Vote::Remove;
        proof {
            self.votes.lemma_all_values(inner_wf);
        }
        let mut submission_votes = match self.votes.remove(&submission_id) {
            Some(submission_votes) => submission_votes,
            None => OrderedMap::new(),
        };
        proof {
            submission_votes.lemma_all_values(kept);
        }
        match vote {
            Vote::Remove => {
                submission_votes.remove(voter_id);
            },
            _ => {
                submission_votes.set(voter_id.duplicate(), vote);
            },
        }
        proof {
            submission_votes.lemma_all_values(kept);
        }
        if !submission_votes.is_empty() {
            self.votes.set(submission_id, submission_votes);
        }
        proof {
            self.votes.lemma_all_values(inner_wf);
            assert(self.ballots() =~= cast(old(self).ballots(), voter_id@, submission_id@, vote));
        }
    }

    /// Casts, changes or withdraws the ballot of a voter on a submission.
    /// The vote is named by its text; a text that names no vote abstains. A
    /// voter must have named its delegatees before it can delegate. The
    /// voter's ballots after the change are handed back.
    pub fn vote(&mut self, voter_id: String, submission_id: String, vote: &str) -> (res: Result<
        OrderedMap<String, Vote>,
        VotingSystemError,
    >)
        requires
            old(self).wf(),
        ensures
            final(self).wf(),
            final(self).delegatees == old(self).delegatees,
            final(self).neural_governance == old(self).neural_governance,
            final(self).external_data_provider == old(self).external_data_provider,
            final(self).voting_powers == old(self).voting_powers,
            vote_named(vote@) == Vote::Delegate && !old(self).delegatees@.contains_key(voter_id@)
                ==> res is Err && res->Err_0 == VotingSystemError::DelegateesNotFound
                && final(self).votes == old(self).votes,
            !(vote_named(vote@) == Vote::Delegate && !old(self).delegatees@.contains_key(
                voter_id@,
            )) ==> final(self).ballots() == cast(
                old(self).ballots(),
                voter_id@,
                submission_id@,
                vote_named(vote@),
            ) && (res matches Ok(votes) && votes.wf() && votes@ == votes_of(
                final(self).ballots(),
                voter_id@,
            )),
    {
        let vote: Vote = vote_from_str(vote);
        match vote {
            Vote::Delegate => {
                if !self.delegatees.contains_key(&voter_id) {
                    return Err(VotingSystemError::DelegateesNotFound);
                }
            },
            _ => {},
        }
        self.cast_ballot(&voter_id, submission_id, vote);
        Ok(self.get_votes_for_user(&voter_id))
    }

    /// Casts several ballots of one voter, each named by its text and paired
    /// with its submission, in the order of the submissions. The voter's
    /// ballots after the changes are handed back.
    pub fn multiple_vote_operations(&mut self, voter_id: String, votes: &OrderedMap<String, String>)
        -> (res: Result<OrderedMap<String, Vote>, VotingSystemError>)
        requires
            old(self).wf(),
        ensures
            final(self).wf(),
            final(self).ballots() == cast_all(old(self).ballots(), voter_id@, votes.entries()),
            final(self).delegatees == old(self).delegatees,
            final(self).neural_governance == old(self).neural_governance,
            final(self).external_data_provider == old(self).external_data_provider,
            final(self).voting_powers == old(self).voting_powers,
            (res matches Ok(votes) && votes.wf() && votes@ == votes_of(
                final(self).ballots(),
                voter_id@,
            )),
    {
        let ghost all = votes.entries();
        let ghost goal = cast_all(old(self).ballots(), voter_id@, all);
        let mut i: usize = 0;
        assert(all.skip(0) =~= all);
        while i < votes.len()
            invariant
                i <= all.len(),
                all == votes.entries(),
                self.wf(),
                cast_all(self.ballots(), voter_id@, all.skip(i as int)) == goal,
                self.delegatees == old(self).delegatees,
                self.neural_governance == old(self).neural_governance,
                self.external_data_provider == old(self).external_data_provider,
                self.voting_powers == old(self).voting_powers,
            decreases all.len() - i,
        {
            assert(all.skip(i as int).drop_first() =~= all.skip(i + 1));
            assert(all.skip(i as int)[0] == all[i as int]);
            let vote: Vote = vote_from_str(votes.value_at(i).as_str());
            self.cast_ballot(&voter_id, votes.key_at(i).duplicate(), vote);
            i += 1;
        }
        Ok(self.get_votes_for_user(&voter_id))
    }

    /// Casts several ballots of one voter, given as a list of submissions
    /// and texts. The list is first made into a map, in which a later entry
    /// replaces an earlier one of the same submission; the ballots are then
    /// cast in the key order of that map.
    pub fn multiple_vote_operations_vec(&mut self, voter_id: String, votes_vec: &Vec<(String, String)>)
        -> (res: Result<OrderedMap<String, Vote>, VotingSystemError>)
        requires
            old(self).wf(),
        ensures
            final(self).wf(),
            final(self).ballots() == cast_all(
                old(self).ballots(),
                voter_id@,
                sorted_entries::<String, String>(with_all(Map::empty(), keyed(votes_vec@))),
            ),
            final(self).delegatees == old(self).delegatees,
            final(self).neural_governance == old(self).neural_governance,
            final(self).external_data_provider == old(self).external_data_provider,
            final(self).voting_powers == old(self).voting_powers,
            (res matches Ok(votes) && votes.wf() && votes@ == votes_of(
                final(self).ballots(),
                voter_id@,
            )),
    {
        let ghost all = keyed(votes_vec@);
        let mut votes: OrderedMap<String, String> = OrderedMap::new();
        let mut i: usize = 0;
        assert(all.skip(0) =~= all);
        while i < votes_vec.len()
            invariant
                i <= all.len(),
                all == keyed(votes_vec@),
                votes.wf(),
                with_all(votes@, all.skip(i as int)) == with_all(Map::empty(), all),
            decreases all.len() - i,
        {
            assert(all.skip(i as int).drop_first() =~= all.skip(i + 1));
            assert(all.skip(i as int)[0] == all[i as int]);
            votes.set(votes_vec[i].0.duplicate(), votes_vec[i].1.clone());
            i += 1;
        }
        proof {
            votes.lemma_entries_sorted();
        }
        self.multiple_vote_operations(voter_id, &votes)
    }

    pub fn get_delegatees(&self) -> (res: &OrderedMap<String, Vec<String>>)
        ensures
            *res == self.delegatees,
    {
        &self.delegatees
    }

    /// Names the delegatees of a voter: at least five and at most ten.
    pub fn set_delegatees(&mut self, voter_id: String, delegatees_for_user: Vec<String>) -> (res:
        Result<Vec<String>, VotingSystemError>)
        requires
            old(self).wf(),
        ensures
            final(self).wf(),
            final(self).votes == old(self).votes,
            final(self).neural_governance == old(self).neural_governance,
            final(self).external_data_provider == old(self).external_data_provider,
            final(self).voting_powers == old(self).voting_powers,
            delegatees_for_user@.len() > MAX_DELEGATEES ==> res is Err && res->Err_0
                == VotingSystemError::TooManyDelegatees,
            delegatees_for_user@.len() < MIN_DELEGATEES ==> res is Err && res->Err_0
                == VotingSystemError::NotEnoughDelegatees,
            res is Err ==> final(self).delegatees == old(self).delegatees,
            MIN_DELEGATEES <= delegatees_for_user@.len() <= MAX_DELEGATEES ==> (res matches Ok(
                named,
            ) && ids(named@) == ids(delegatees_for_user@) && final(self).delegatees@ == old(
                self,
            ).delegatees@.insert(voter_id@, delegatees_for_user)),
    {
        if delegatees_for_user.len() > MAX_DELEGATEES as usize {
            return Err(VotingSystemError::TooManyDelegatees);
        }
        if delegatees_for_user.len() < MIN_DELEGATEES as usize {
            return Err(VotingSystemError::NotEnoughDelegatees);
        }
        let named = duplicate_list(&delegatees_for_user);
        let ghost few = |list: Vec<String>| MIN_DELEGATEES <= list@.len() <= MAX_DELEGATEES;
        proof {
            self.delegatees.lemma_all_values(few);
        }
        self.delegatees.set(voter_id, delegatees_for_user);
        proof {
            self.delegatees.lemma_all_values(few);
        }
        Ok(named)
    }

    /// Names the delegatees of a voter and casts its delegated ballot on a
    /// submission.
    pub fn delegate(
        &mut self,
        voter_id: String,
        submission_id: String,
        delegatees_for_user: Vec<String>,
    ) -> (res: Result<OrderedMap<String, Vote>, VotingSystemError>)
        requires
            old(self).wf(),
        ensures
            final(self).wf(),
            final(self).neural_governance == old(self).neural_governance,
            final(self).external_data_provider == old(self).external_data_provider,
            final(self).voting_powers == old(self).voting_powers,
            delegatees_for_user@.len() > MAX_DELEGATEES ==> res is Err && res->Err_0
                == VotingSystemError::TooManyDelegatees,
            delegatees_for_user@.len() < MIN_DELEGATEES ==> res is Err && res->Err_0
                == VotingSystemError::NotEnoughDelegatees,
            res is Err ==> final(self).delegatees == old(self).delegatees && final(self).votes
                == old(self).votes,
            MIN_DELEGATEES <= delegatees_for_user@.len() <= MAX_DELEGATEES ==> (res matches Ok(
                votes,
            ) && votes.wf() && votes@ == votes_of(final(self).ballots(), voter_id@)
                && final(self).delegatees@ == old(self).delegatees@.insert(
                voter_id@,
                delegatees_for_user,
            ) && final(self).ballots() == cast(
                old(self).ballots(),
                voter_id@,
                submission_id@,
                Vote::Delegate,
            )),
    {
        match self.set_delegatees(voter_id.duplicate(), delegatees_for_user) {
            Ok(_) => {},
            Err(e) => {
                return Err(e);
            },
        }
        proof {
            Self::lemma_delegate_named();
        }
        self.vote(voter_id, submission_id, "Delegate")
    }

    /// The texts that name the votes `Delegate` and `Remove` name nothing else.
    proof fn lemma_delegate_named()
        ensures
            vote_named("Delegate"@) == Vote::Delegate,
            vote_named("Remove"@) == Vote::Remove,
    {
        reveal_strlit("Yes");
        reveal_strlit("No");
        reveal_strlit("Delegate");
        reveal_strlit("Remove");
        assert("Yes"@.len() == 3);
        assert("No"@.len() == 2);
        assert("Delegate"@.len() == 8);
        assert("Remove"@.len() == 6);
    }

    pub fn get_votes(&self) -> (res: &OrderedMap<String, OrderedMap<String, Vote>>)
        ensures
            *res == self.votes,
    {
        &self.votes
    }

    /// Number of submissions that are known.
    pub fn get_votes_length(&self) -> (res: usize)
        ensures
            res == self.votes.entries().len(),
    {
        self.votes.len()
    }

    /// The ballots that a voter has cast, by submission.
    pub fn get_votes_for_user(&self, voter_id: &String) -> (res: OrderedMap<String, Vote>)
        requires
            self.wf(),
        ensures
            res.wf(),
            res@ == votes_of(self.ballots(), voter_id@),
    {
        let ghost all = self.votes.entries();
        let mut result: OrderedMap<String, Vote> = OrderedMap::new();
        let mut i: usize = 0;
        while i < self.votes.len()
            invariant
                i <= all.len(),
                all == self.votes.entries(),
                self.wf(),
                result.wf(),
                forall|submission: Seq<char>| #[trigger]
                    result@.contains_key(submission) <==> exists|j: int|
                        0 <= j < i && (#[trigger] all[j]).0 == submission && all[j].1@.contains_key(
                            voter_id@,
                        ),
                forall|j: int|
                    0 <= j < i && (#[trigger] all[j]).1@.contains_key(voter_id@)
                        ==> result@.contains_key(all[j].0) && result@[all[j].0]
                        == all[j].1@[voter_id@],
            decreases all.len() - i,
        {
            let submission_votes = self.votes.value_at(i);
            let ghost before = result@;
            match submission_votes.get(voter_id) {
                Some(vote) => {
                    result.set(self.votes.key_at(i).duplicate(), *vote);
                    proof {
                        assert forall|j: int|
                            0 <= j < i && (#[trigger] all[j]).1@.contains_key(
                                voter_id@,
                            ) implies result@.contains_key(all[j].0) && result@[all[j].0]
                            == all[j].1@[voter_id@] by {
                            if all[j].0 == all[i as int].0 {
                                crate::ordered_map::lemma_sorted_keys_distinct::<
                                    String,
                                    OrderedMap<String, Vote>,
                                >(all, j, i as int);
                            }
                        }
                    }
                },
                None => {},
            }
            i += 1;
        }
        proof {
            self.votes.lemma_entries_view();
            let ballots = self.ballots();
            assert forall|submission: Seq<char>|
                result@.contains_key(submission) == votes_of(ballots, voter_id@).contains_key(
                    submission,
                ) by {
                if votes_of(ballots, voter_id@).contains_key(submission) {
                    let j = choose|j: int|
                        0 <= j < all.len() && #[trigger] all[j].0 == submission;
                    assert(all[j].1@.contains_key(voter_id@));
                }
            }
            assert forall|submission: Seq<char>| result@.contains_key(submission) implies result@[submission]
                == votes_of(ballots, voter_id@)[submission] by {
                let j = choose|j: int|
                    0 <= j < i && (#[trigger] all[j]).0 == submission && all[j].1@.contains_key(
                        voter_id@,
                    );
                assert(self.votes@[all[j].0] == all[j].1);
            }
            assert(result@ =~= votes_of(ballots, voter_id@));
        }
        result
    }

    /// Withdraws the ballot of a voter on a submission.
    pub fn remove_vote(&mut self, voter_id: String, submission_id: String) -> (res: Result<
        OrderedMap<String, Vote>,
        VotingSystemError,
    >)
        requires
            old(self).wf(),
        ensures
            final(self).wf(),
            final(self).ballots() == cast(
                old(self).ballots(),
                voter_id@,
                submission_id@,
                Vote::Remove,
            ),
            final(self).delegatees == old(self).delegatees,
            final(self).neural_governance == old(self).neural_governance,
            final(self).external_data_provider == old(self).external_data_provider,
            final(self).voting_powers == old(self).voting_powers,
            (res matches Ok(votes) && votes.wf() && votes@ == votes_of(
                final(self).ballots(),
                voter_id@,
            )),
    {
        proof {
            Self::lemma_delegate_named();
        }
        self.vote(voter_id, submission_id, "Remove")
    }

    /// Makes a submission known before anybody has voted on it.
    pub fn add_submission(&mut self, submission_id: String) -> (res: Result<(), VotingSystemError>)
        requires
            old(self).wf(),
        ensures
            final(self).wf(),
            final(self).delegatees == old(self).delegatees,
            final(self).neural_governance == old(self).neural_governance,
            final(self).external_data_provider == old(self).external_data_provider,
            final(self).voting_powers == old(self).voting_powers,
            old(self).votes@.contains_key(submission_id@) ==> res == Err::<(), VotingSystemError>(
                VotingSystemError::SubmissionAlreadyAdded,
            ) && final(self).votes == old(self).votes,
            !old(self).votes@.contains_key(submission_id@) ==> res.is_ok()
                && final(self).ballots() == old(self).ballots().insert(
                submission_id@,
                Map::empty(),
            ),
    {
        if self.votes.contains_key(&submission_id) {
            return Err(VotingSystemError::SubmissionAlreadyAdded);
        }
        let ghost inner_wf = |votes: OrderedMap<String, Vote>| ballots_wf(votes);
        proof {
            self.votes.lemma_all_values(inner_wf);
        }
        self.votes.set(submission_id, OrderedMap::new());
        proof {
            self.votes.lemma_all_values(inner_wf);
            assert(self.ballots() =~= old(self).ballots().insert(submission_id@, Map::empty()));
        }
        Ok(())
    }

    /// The submissions that are known, in key order.
    pub fn get_submissions(&self) -> (res: Vec<String>)
        ensures
            ids(res@) == crate::page_rank::keys_of(self.votes.entries()),
    {
        let keys = self.votes.keys();
        assert(ids(keys@) =~= crate::page_rank::keys_of(self.votes.entries()));
        keys
    }

    /// Everybody who has cast a ballot, once each, in key order.
    pub fn get_voters(&self) -> (res: Vec<String>)
        requires
            self.wf(),
        ensures
            forall|voter: Seq<char>| ids(res@).contains(voter) <==> self.has_voted(voter),
            forall|i: int, j: int|
                0 <= i < j < res@.len() ==> String::key_lt(
                    #[trigger] ids(res@)[i],
                    #[trigger] ids(res@)[j],
                ),
    {
        let ghost all = self.votes.entries();
        let mut voters: OrderedMap<String, ()> = OrderedMap::new();
        let mut i: usize = 0;
        while i < self.votes.len()
            invariant
                i <= all.len(),
                all == self.votes.entries(),
                self.wf(),
                voters.wf(),
                forall|voter: Seq<char>| #[trigger]
                    voters@.contains_key(voter) <==> voted_before(all, i as int, voter),
            decreases all.len() - i,
        {
            let submission_votes = self.votes.value_at(i);
            let ghost ballots = submission_votes.entries();
            let ghost upto = voters@;
            let mut j: usize = 0;
            while j < submission_votes.len()
                invariant
                    j <= ballots.len(),
                    ballots == submission_votes.entries(),
                    voters.wf(),
                    forall|voter: Seq<char>| #[trigger]
                        voters@.contains_key(voter) <==> upto.contains_key(voter) || exists|t: int|
                            0 <= t < j && (#[trigger] ballots[t]).0 == voter,
                decreases ballots.len() - j,
            {
                voters.set(submission_votes.key_at(j).duplicate(), ());
                j += 1;
            }
            proof {
                submission_votes.lemma_entries_view();
                assert forall|voter: Seq<char>| #[trigger]
                    voters@.contains_key(voter) <==> voted_before(all, i + 1, voter) by {
                    if voted_before(all, i + 1, voter) {
                        let t = choose|t: int|
                            0 <= t < i + 1 && t < all.len() && (#[trigger] all[t]).1@.contains_key(
                                voter,
                            );
                        if t < i {
                            assert(voted_before(all, i as int, voter));
                        } else {
                            let b = choose|b: int|
                                0 <= b < ballots.len() && #[trigger] ballots[b].0 == voter;
                            assert(ballots[b].0 == voter);
                        }
                    }
                    if voters@.contains_key(voter) {
                        if upto.contains_key(voter) {
                            assert(voted_before(all, i as int, voter));
                            let t = choose|t: int|
                                0 <= t < i && t < all.len() && (#[trigger] all[t]).1@.contains_key(
                                    voter,
                                );
                            assert(0 <= t < i + 1 && all[t].1@.contains_key(voter));
                        } else {
                            let b = choose|b: int| 0 <= b < j && (#[trigger] ballots[b]).0 == voter;
                            assert(all[i as int].1@.contains_key(voter));
                        }
                    }
                }
            }
            i += 1;
        }
        let keys = voters.keys();
        proof {
            voters.lemma_entries_view();
            self.votes.lemma_entries_view();
            assert forall|voter: Seq<char>| ids(keys@).contains(voter) <==> self.has_voted(
                voter,
            ) by {
                if ids(keys@).contains(voter) {
                    let t = choose|t: int| 0 <= t < ids(keys@).len() && ids(keys@)[t] == voter;
                    assert(voters.entries()[t].0 == voter);
                    assert(voters@.contains_key(voter));
                    assert(voted_before(all, i as int, voter));
                    let s = choose|s: int|
                        0 <= s < i && s < all.len() && (#[trigger] all[s]).1@.contains_key(voter);
                    assert(self.votes@.contains_key(all[s].0));
                    assert(self.votes@[all[s].0] == all[s].1);
                }
                if self.has_voted(voter) {
                    let submission = choose|submission: Seq<char>| #[trigger]
                        self.votes@.contains_key(submission)
                            && self.votes@[submission]@.contains_key(voter);
                    let s = choose|s: int| 0 <= s < all.len() && #[trigger] all[s].0 == submission;
                    assert(self.votes@[all[s].0] == all[s].1);
                    assert(voted_before(all, i as int, voter));
                    assert(voters@.contains_key(voter));
                    let t = choose|t: int|
                        0 <= t < voters.entries().len() && #[trigger] voters.entries()[t].0
                            == voter;
                    assert(ids(keys@)[t] == voter);
                }
            }
            assert forall|a: int, b: int| 0 <= a < b < keys@.len() implies String::key_lt(
                #[trigger] ids(keys@)[a],
                #[trigger] ids(keys@)[b],
            ) by {
                assert(String::key_lt(voters.entries()[a].0, voters.entries()[b].0));
            }
        }
        keys
    }
}

} // verus!
