//! The reputation, history, rank and trust data that the neurons and the
//! quorum consensus read.

use vstd::prelude::*;
use crate::decimal_number_wrapper::{decode, DecimalNumberWrapper};
use crate::decomposed::nested_wf;
use crate::ordered_map::{ids, with_all, MapKey, OrderedMap};
use crate::page_rank::{
    graph_size,
    nested_keys,
    page_ranks,
    pages_nodes,
    Edges,
    Rank,
    DAMPING_FACTOR,
    ITERATIONS,
};
use crate::types::{
    reputation_category_from_str,
    reputation_category_named,
    DecimalNumber,
    ReputationCategory,
    VotingSystemError,
};

verus! {

/// Everything known about the voters from outside the voting itself.
#[derive(Clone, Debug, PartialEq, Eq)]
pub struct ExternalDataProvider {
    /// Reputation category of each categorised user.
    pub reputation: OrderedMap<String, ReputationCategory>,
    /// The rounds in which each user has voted before.
    pub prior_voting_history: OrderedMap<String, Vec<u32>>,
    /// Bonus granted for having voted in a round.
    pub round_bonus_map: OrderedMap<u32, DecimalNumber>,
    /// Delegation rank of each ranked user.
    pub delegation_ranks: OrderedMap<String, u32>,
    /// For each user the users that it trusts.
    pub trust_map: OrderedMap<String, OrderedMap<String, ()>>,
    /// Trust rank of each user, as last calculated.
    pub page_rank_result: OrderedMap<String, DecimalNumber>,
}

/// Voting-power bonus of a reputation category.
pub open spec fn reputation_score(category: ReputationCategory) -> DecimalNumber {
    match category {
        ReputationCategory::Uncategorized => (0, 0),
        ReputationCategory::Poor | ReputationCategory::Average => (0, 100),
        ReputationCategory::Good | ReputationCategory::VeryGood => (0, 200),
        ReputationCategory::Excellent => (0, 300),
    }
}

/// Delegation rank of a user; a user without a rank has rank zero.
pub open spec fn rank_of(ranks: Map<Seq<char>, u32>, id: Seq<char>) -> u32 {
    if ranks.contains_key(id) {
        ranks[id]
    } else {
        0
    }
}

/// The rank of each of `users`, and of nobody else.
pub open spec fn ranks_for(ranks: Map<Seq<char>, u32>, users: Seq<Seq<char>>) -> Map<
    Seq<char>,
    u32,
> {
    Map::new(|id: Seq<char>| users.contains(id), |id: Seq<char>| rank_of(ranks, id))
}

/// Users paired with the categories that the texts beside them name.
pub open spec fn named_categories(users: Seq<(Seq<char>, String)>) -> Seq<
    (Seq<char>, ReputationCategory),
> {
    users.map_values(|user: (Seq<char>, String)| (user.0, reputation_category_named(user.1@)))
}

/// Pairs of strings with the first of each as an identifier.
pub open spec fn keyed<V>(pairs: Seq<(String, V)>) -> Seq<(Seq<char>, V)> {
    pairs.map_values(|pair: (String, V)| (pair.0@, pair.1))
}

/// Rounds paired with the bonuses that the encodings beside them stand for.
pub open spec fn decoded_bonuses(rounds: Seq<(u32, u32)>) -> Seq<(u32, DecimalNumber)> {
    rounds.map_values(|round: (u32, u32)| (round.0, decode(round.1 as nat)))
}

/// The set of the given users, as a map to nothing.
pub open spec fn as_set(users: Seq<Seq<char>>) -> Map<Seq<char>, ()> {
    Map::new(|user: Seq<char>| users.contains(user), |user: Seq<char>| ())
}

/// The trust ranks of a trust map: none for an empty one, else those of its
/// graph after 1000 rounds with the damping factor 0.850. A trust map with
/// more than 2^32 - 1 users and links is too large.
pub open spec fn trust_ranks(pages: Seq<Edges>) -> Result<
    Map<Seq<char>, DecimalNumber>,
    VotingSystemError,
> {
    if pages.len() == 0 {
        Ok(Map::empty())
    } else if graph_size(pages) > u32::MAX {
        Err(VotingSystemError::ArithmeticOverflow)
    } else {
        page_ranks(pages_nodes(pages, Seq::empty()), pages, ITERATIONS as nat, DAMPING_FACTOR)
    }
}

impl ExternalDataProvider {
    /// Every map, and every set of trusted users, is in key order.
    pub open spec fn wf(&self) -> bool {
        &&& self.reputation.wf()
        &&& self.prior_voting_history.wf()
        &&& self.round_bonus_map.wf()
        &&& self.delegation_ranks.wf()
        &&& self.trust_map.wf()
        &&& self.page_rank_result.wf()
        &&& forall|i: int|
            0 <= i < self.trust_map.entries().len() ==> (#[trigger] self.trust_map.entries()[i]).1.wf()
    }

    /// Whether the data are well formed.
    pub fn is_well_formed(&self) -> (res: bool)
        ensures
            res == self.wf(),
    {
        if !self.reputation.is_well_formed() || !self.prior_voting_history.is_well_formed()
            || !self.round_bonus_map.is_well_formed() || !self.delegation_ranks.is_well_formed()
            || !self.trust_map.is_well_formed() || !self.page_rank_result.is_well_formed() {
            return false;
        }
        let mut i: usize = 0;
        while i < self.trust_map.len()
            invariant
                i <= self.trust_map.entries().len(),
                forall|t: int| 0 <= t < i ==> (#[trigger] self.trust_map.entries()[t]).1.wf(),
            decreases self.trust_map.entries().len() - i,
        {
            if !self.trust_map.value_at(i).is_well_formed() {
                return false;
            }
            i += 1;
        }
        true
    }

    /// Category of a user; a user without one is uncategorised.
    pub open spec fn category_of(&self, user: Seq<char>) -> ReputationCategory {
        if self.reputation@.contains_key(user) {
            self.reputation@[user]
        } else {
            ReputationCategory::Uncategorized
        }
    }

    /// The rounds in which a user has voted; none for an unknown user.
    pub open spec fn history_of(&self, user: Seq<char>) -> Seq<u32> {
        if self.prior_voting_history@.contains_key(user) {
            self.prior_voting_history@[user]@
        } else {
            Seq::empty()
        }
    }

    /// Trust rank of a user; zero for a user that has none.
    pub open spec fn page_rank_of(&self, user: Seq<char>) -> DecimalNumber {
        if self.page_rank_result@.contains_key(user) {
            self.page_rank_result@[user]
        } else {
            (0, 0)
        }
    }

    /// A provider that knows nothing.
    pub fn new() -> (res: Self)
        ensures
            res.wf(),
            res.reputation@ == Map::<Seq<char>, ReputationCategory>::empty(),
            res.prior_voting_history@ == Map::<Seq<char>, Vec<u32>>::empty(),
            res.round_bonus_map@ == Map::<u32, DecimalNumber>::empty(),
            res.delegation_ranks@ == Map::<Seq<char>, u32>::empty(),
            res.trust_map@ == Map::<Seq<char>, OrderedMap<String, ()>>::empty(),
            res.page_rank_result@ == Map::<Seq<char>, DecimalNumber>::empty(),
    {
        ExternalDataProvider {
            reputation: OrderedMap::new(),
            prior_voting_history: OrderedMap::new(),
            round_bonus_map: OrderedMap::new(),
            delegation_ranks: OrderedMap::new(),
            trust_map: OrderedMap::new(),
            page_rank_result: OrderedMap::new(),
        }
    }

    pub fn get_reputation_categories(&self) -> (res: &OrderedMap<String, ReputationCategory>)
        ensures
            *res == self.reputation,
    {
        &self.reputation
    }

    pub fn get_user_reputation_category(&self, user_id: &String) -> (res: ReputationCategory)
        requires
            self.wf(),
        ensures
            res == self.category_of(user_id@),
    {
        match self.reputation.get(user_id) {
            Some(category) => *category,
            None => ReputationCategory::Uncategorized,
        }
    }

    /// Replaces the reputation categories of all users.
    pub fn set_user_reputation_categories(
        &mut self,
        reputation_map: OrderedMap<String, ReputationCategory>,
    )
        requires
            old(self).wf(),
            reputation_map.wf(),
        ensures
            final(self).wf(),
            final(self).reputation == reputation_map,
            final(self).same_but_reputation(*old(self)),
    {
        self.reputation = reputation_map;
    }

    /// Whether `self` is `other` but for the reputation categories.
    pub open spec fn same_but_reputation(&self, other: Self) -> bool {
        &&& self.prior_voting_history == other.prior_voting_history
        &&& self.round_bonus_map == other.round_bonus_map
        &&& self.delegation_ranks == other.delegation_ranks
        &&& self.trust_map == other.trust_map
        &&& self.page_rank_result == other.page_rank_result
    }

    /// Sets the reputation category of a user to the one that the text names.
    pub fn set_user_reputation_category(&mut self, user_id: String, reputation_category: &str)
        requires
            old(self).wf(),
        ensures
            final(self).wf(),
            final(self).reputation@ == old(self).reputation@.insert(
                user_id@,
                reputation_category_named(reputation_category@),
            ),
            final(self).same_but_reputation(*old(self)),
    {
        self.reputation.set(user_id, reputation_category_from_str(reputation_category));
    }

    /// Sets the reputation category of each of the given users to the one
    /// that the text beside it names.
    pub fn set_users_rep_categories(
        &mut self,
        users_reputation_categories: &OrderedMap<String, String>,
    )
        requires
            old(self).wf(),
        ensures
            final(self).wf(),
            final(self).reputation@ == with_all(
                old(self).reputation@,
                named_categories(users_reputation_categories.entries()),
            ),
            final(self).same_but_reputation(*old(self)),
    {
        let ghost all = named_categories(users_reputation_categories.entries());
        let ghost goal = with_all(old(self).reputation@, all);
        let mut i: usize = 0;
        assert(all.skip(0) =~= all);
        while i < users_reputation_categories.len()
            invariant
                i <= all.len(),
                all == named_categories(users_reputation_categories.entries()),
                self.wf(),
                with_all(self.reputation@, all.skip(i as int)) == goal,
                self.same_but_reputation(*old(self)),
            decreases all.len() - i,
        {
            assert(all.skip(i as int).drop_first() =~= all.skip(i + 1));
            assert(all.skip(i as int)[0] == all[i as int]);
            self.reputation.set(
                users_reputation_categories.key_at(i).duplicate(),
                reputation_category_from_str(users_reputation_categories.value_at(i).as_str()),
            );
            i += 1;
        }
    }

    /// Sets the reputation category of each of the given users to the one
    /// that the text beside it names, in the order of the list.
    pub fn set_users_rep_categories_vec(
        &mut self,
        users_reputation_categories: &Vec<(String, String)>,
    )
        requires
            old(self).wf(),
        ensures
            final(self).wf(),
            final(self).reputation@ == with_all(
                old(self).reputation@,
                named_categories(keyed(users_reputation_categories@)),
            ),
            final(self).same_but_reputation(*old(self)),
    {
        let ghost all = named_categories(keyed(users_reputation_categories@));
        let ghost goal = with_all(old(self).reputation@, all);
        let mut i: usize = 0;
        assert(all.skip(0) =~= all);
        while i < users_reputation_categories.len()
            invariant
                i <= all.len(),
                all == named_categories(keyed(users_reputation_categories@)),
                self.wf(),
                with_all(self.reputation@, all.skip(i as int)) == goal,
                self.same_but_reputation(*old(self)),
            decreases all.len() - i,
        {
            assert(all.skip(i as int).drop_first() =~= all.skip(i + 1));
            assert(all.skip(i as int)[0] == all[i as int]);
            self.reputation.set(
                users_reputation_categories[i].0.duplicate(),
                reputation_category_from_str(users_reputation_categories[i].1.as_str()),
            );
            i += 1;
        }
    }

    pub fn get_reputation_score(reputation_category: ReputationCategory) -> (res: DecimalNumber)
        ensures
            res == reputation_score(reputation_category),
    {
        match reputation_category {
            ReputationCategory::Uncategorized => (0, 0),
            ReputationCategory::Poor | ReputationCategory::Average => (0, 100),
            ReputationCategory::Good | ReputationCategory::VeryGood => (0, 200),
            ReputationCategory::Excellent => (0, 300),
        }
    }

    /// The scores of all reputation categories, from the lowest category to
    /// the highest.
    pub fn get_reputation_scores() -> (res: Vec<DecimalNumber>)
        ensures
            res@ == seq![
                reputation_score(ReputationCategory::Uncategorized),
                reputation_score(ReputationCategory::Poor),
                reputation_score(ReputationCategory::Average),
                reputation_score(ReputationCategory::Good),
                reputation_score(ReputationCategory::VeryGood),
                reputation_score(ReputationCategory::Excellent),
            ],
    {
        let mut scores: Vec<DecimalNumber> = Vec::new();
        scores.push(Self::get_reputation_score(ReputationCategory::Uncategorized));
        scores.push(Self::get_reputation_score(ReputationCategory::Poor));
        scores.push(Self::get_reputation_score(ReputationCategory::Average));
        scores.push(Self::get_reputation_score(ReputationCategory::Good));
        scores.push(Self::get_reputation_score(ReputationCategory::VeryGood));
        scores.push(Self::get_reputation_score(ReputationCategory::Excellent));
        assert(scores@ =~= seq![
            reputation_score(ReputationCategory::Uncategorized),
            reputation_score(ReputationCategory::Poor),
            reputation_score(ReputationCategory::Average),
            reputation_score(ReputationCategory::Good),
            reputation_score(ReputationCategory::VeryGood),
            reputation_score(ReputationCategory::Excellent),
        ]);
        scores
    }

    pub fn get_prior_voting_history(&self) -> (res: &OrderedMap<String, Vec<u32>>)
        ensures
            *res == self.prior_voting_history,
    {
        &self.prior_voting_history
    }

    /// The rounds in which a user has voted before, in the order recorded.
    pub fn get_user_prior_voting_history(&self, user_id: &String) -> (res: Vec<u32>)
        requires
            self.wf(),
        ensures
            res@ == self.history_of(user_id@),
    {
        let mut rounds: Vec<u32> = Vec::new();
        match self.prior_voting_history.get(user_id) {
            Some(history) => {
                let mut i: usize = 0;
                while i < history.len()
                    invariant
                        i <= history.len(),
                        rounds@ == history@.take(i as int),
                    decreases history.len() - i,
                {
                    rounds.push(history[i]);
                    assert(history@.take(i + 1) =~= history@.take(i as int).push(history@[i as int]));
                    i += 1;
                }
                assert(history@.take(i as int) =~= history@);
            },
            None => {},
        }
        rounds
    }

    /// Records the rounds in which a user has voted.
    pub fn set_user_prior_voting_history(&mut self, user_id: String, new_voting_history: Vec<u32>)
        requires
            old(self).wf(),
        ensures
            final(self).wf(),
            final(self).prior_voting_history@ == old(self).prior_voting_history@.insert(
                user_id@,
                new_voting_history,
            ),
            final(self).reputation == old(self).reputation,
            final(self).round_bonus_map == old(self).round_bonus_map,
            final(self).delegation_ranks == old(self).delegation_ranks,
            final(self).trust_map == old(self).trust_map,
            final(self).page_rank_result == old(self).page_rank_result,
    {
        self.prior_voting_history.set(user_id, new_voting_history);
    }

    /// Replaces the bonuses of all rounds.
    pub fn set_round_bonus_map(&mut self, round_bonus_map: OrderedMap<u32, DecimalNumber>)
        requires
            old(self).wf(),
            round_bonus_map.wf(),
        ensures
            final(self).wf(),
            final(self).round_bonus_map == round_bonus_map,
            final(self).same_but_bonuses(*old(self)),
    {
        self.round_bonus_map = round_bonus_map;
    }

    /// Whether `self` is `other` but for the bonuses of the rounds.
    pub open spec fn same_but_bonuses(&self, other: Self) -> bool {
        &&& self.reputation == other.reputation
        &&& self.prior_voting_history == other.prior_voting_history
        &&& self.delegation_ranks == other.delegation_ranks
        &&& self.trust_map == other.trust_map
        &&& self.page_rank_result == other.page_rank_result
    }

    /// Replaces the bonuses of all rounds by those of the list: each round is
    /// paired with the encoding of its bonus.
    pub fn set_round_bonus_map_vec(&mut self, round_bonus_map: &Vec<(u32, u32)>)
        requires
            old(self).wf(),
        ensures
            final(self).wf(),
            final(self).round_bonus_map@ == with_all(
                Map::empty(),
                decoded_bonuses(round_bonus_map@),
            ),
            final(self).same_but_bonuses(*old(self)),
    {
        let ghost all = decoded_bonuses(round_bonus_map@);
        let ghost goal = with_all(Map::empty(), all);
        let mut round_bonus_map_converted: OrderedMap<u32, DecimalNumber> = OrderedMap::new();
        let mut i: usize = 0;
        assert(all.skip(0) =~= all);
        while i < round_bonus_map.len()
            invariant
                i <= all.len(),
                all == decoded_bonuses(round_bonus_map@),
                round_bonus_map_converted.wf(),
                with_all(round_bonus_map_converted@, all.skip(i as int)) == goal,
            decreases all.len() - i,
        {
            assert(all.skip(i as int).drop_first() =~= all.skip(i + 1));
            assert(all.skip(i as int)[0] == all[i as int]);
            round_bonus_map_converted.set(
                round_bonus_map[i].0,
                DecimalNumberWrapper::from_raw(round_bonus_map[i].1).as_tuple(),
            );
            i += 1;
        }
        self.round_bonus_map = round_bonus_map_converted;
    }

    pub fn get_round_bonus_map(&self) -> (res: &OrderedMap<u32, DecimalNumber>)
        ensures
            *res == self.round_bonus_map,
    {
        &self.round_bonus_map
    }

    pub fn get_delegation_ranks(&self) -> (res: &OrderedMap<String, u32>)
        ensures
            *res == self.delegation_ranks,
    {
        &self.delegation_ranks
    }

    /// The delegation ranks of the given users, zero for one that has none.
    pub fn get_delegation_ranks_for_users(&self, users_ids: &Vec<String>) -> (res: OrderedMap<
        String,
        u32,
    >)
        requires
            self.wf(),
        ensures
            res.wf(),
            res@ == ranks_for(self.delegation_ranks@, ids(users_ids@)),
    {
        let ghost all = ids(users_ids@);
        let mut result: OrderedMap<String, u32> = OrderedMap::new();
        let mut i: usize = 0;
        assert(result@ =~= ranks_for(self.delegation_ranks@, all.take(0)));
        while i < users_ids.len()
            invariant
                i <= users_ids.len(),
                all == ids(users_ids@),
                self.wf(),
                result.wf(),
                result@ == ranks_for(self.delegation_ranks@, all.take(i as int)),
            decreases users_ids.len() - i,
        {
            let user_id = &users_ids[i];
            let rank: u32 = match self.delegation_ranks.get(user_id) {
                Some(rank) => *rank,
                None => 0,
            };
            result.set(user_id.duplicate(), rank);
            proof {
                let before = all.take(i as int);
                let upto = all.take(i + 1);
                assert(upto =~= before.push(user_id@));
                assert forall|id: Seq<char>| upto.contains(id) == (before.contains(id) || id
                    == user_id@) by {
                    if before.contains(id) {
                        let j = choose|j: int| 0 <= j < before.len() && before[j] == id;
                        assert(upto[j] == id);
                    }
                    if id == user_id@ {
                        assert(upto[i as int] == id);
                    }
                }
                assert(result@ =~= ranks_for(self.delegation_ranks@, upto));
            }
            i += 1;
        }
        assert(all.take(i as int) =~= all);
        result
    }

    /// Whether `self` is `other` but for the delegation ranks.
    pub open spec fn same_but_ranks(&self, other: Self) -> bool {
        &&& self.reputation == other.reputation
        &&& self.prior_voting_history == other.prior_voting_history
        &&& self.round_bonus_map == other.round_bonus_map
        &&& self.trust_map == other.trust_map
        &&& self.page_rank_result == other.page_rank_result
    }

    /// Sets the delegation rank of a user.
    pub fn set_delegation_rank_for_user(&mut self, user_id: String, new_rank: u32)
        requires
            old(self).wf(),
        ensures
            final(self).wf(),
            final(self).delegation_ranks@ == old(self).delegation_ranks@.insert(user_id@, new_rank),
            final(self).same_but_ranks(*old(self)),
    {
        self.delegation_ranks.set(user_id, new_rank);
    }

    /// Sets the delegation rank of each of the given users.
    pub fn set_users_delegation_ranks(&mut self, users_ranks: &OrderedMap<String, u32>)
        requires
            old(self).wf(),
        ensures
            final(self).wf(),
            final(self).delegation_ranks@ == with_all(
                old(self).delegation_ranks@,
                users_ranks.entries(),
            ),
            final(self).same_but_ranks(*old(self)),
    {
        let ghost all = users_ranks.entries();
        let ghost goal = with_all(old(self).delegation_ranks@, all);
        let mut i: usize = 0;
        assert(all.skip(0) =~= all);
        while i < users_ranks.len()
            invariant
                i <= all.len(),
                all == users_ranks.entries(),
                self.wf(),
                with_all(self.delegation_ranks@, all.skip(i as int)) == goal,
                self.same_but_ranks(*old(self)),
            decreases all.len() - i,
        {
            assert(all.skip(i as int).drop_first() =~= all.skip(i + 1));
            assert(all.skip(i as int)[0] == all[i as int]);
            self.delegation_ranks.set(users_ranks.key_at(i).duplicate(), *users_ranks.value_at(i));
            i += 1;
        }
    }

    /// Sets the delegation rank of each of the given users, in the order of
    /// the list.
    pub fn set_users_delegation_ranks_vec(&mut self, users_ranks: &Vec<(String, u32)>)
        requires
            old(self).wf(),
        ensures
            final(self).wf(),
            final(self).delegation_ranks@ == with_all(
                old(self).delegation_ranks@,
                keyed(users_ranks@),
            ),
            final(self).same_but_ranks(*old(self)),
    {
        let ghost all = keyed(users_ranks@);
        let ghost goal = with_all(old(self).delegation_ranks@, all);
        let mut i: usize = 0;
        assert(all.skip(0) =~= all);
        while i < users_ranks.len()
            invariant
                i <= all.len(),
                all == keyed(users_ranks@),
                self.wf(),
                with_all(self.delegation_ranks@, all.skip(i as int)) == goal,
                self.same_but_ranks(*old(self)),
            decreases all.len() - i,
        {
            assert(all.skip(i as int).drop_first() =~= all.skip(i + 1));
            assert(all.skip(i as int)[0] == all[i as int]);
            self.delegation_ranks.set(users_ranks[i].0.duplicate(), users_ranks[i].1);
            i += 1;
        }
    }

    /// Whether `self` is `other` but for the trust map.
    pub open spec fn same_but_trust(&self, other: Self) -> bool {
        &&& self.reputation == other.reputation
        &&& self.prior_voting_history == other.prior_voting_history
        &&& self.round_bonus_map == other.round_bonus_map
        &&& self.delegation_ranks == other.delegation_ranks
        &&& self.page_rank_result == other.page_rank_result
    }

    /// Replaces the whole trust map.
    pub fn set_trust_map(&mut self, trust_map: OrderedMap<String, OrderedMap<String, ()>>)
        requires
            old(self).wf(),
            nested_wf(trust_map),
        ensures
            final(self).wf(),
            final(self).trust_map == trust_map,
            final(self).same_but_trust(*old(self)),
    {
        self.trust_map = trust_map;
    }

    /// Replaces the users that a user trusts, and hands them back.
    pub fn set_trust_map_for_user(&mut self, user_id: String, user_trust_map: OrderedMap<String, ()>)
        -> (res: OrderedMap<String, ()>)
        requires
            old(self).wf(),
            user_trust_map.wf(),
        ensures
            final(self).wf(),
            final(self).trust_map@ == old(self).trust_map@.insert(user_id@, user_trust_map),
            final(self).same_but_trust(*old(self)),
            res.wf(),
            res.entries() == user_trust_map.entries(),
    {
        let stored = user_trust_map.duplicate();
        let ghost inner_wf = |trusted: OrderedMap<String, ()>| trusted.wf();
        proof {
            self.trust_map.lemma_all_values(inner_wf);
        }
        self.trust_map.set(user_id, user_trust_map);
        proof {
            self.trust_map.lemma_all_values(inner_wf);
        }
        stored
    }

    /// Replaces the users that a user trusts by those of the list, and hands
    /// them back.
    pub fn set_trust_map_for_user_vec(&mut self, user_id: String, user_trust_map: &Vec<String>)
        -> (res: OrderedMap<String, ()>)
        requires
            old(self).wf(),
        ensures
            final(self).wf(),
            final(self).trust_map@.dom() == old(self).trust_map@.dom().insert(user_id@),
            final(self).trust_map@[user_id@]@ == as_set(ids(user_trust_map@)),
            forall|other: Seq<char>|
                other != user_id@ && #[trigger] old(self).trust_map@.contains_key(other) ==> final(
                    self
                ).trust_map@[other] == old(self).trust_map@[other],
            final(self).same_but_trust(*old(self)),
            res.wf(),
            res@ == as_set(ids(user_trust_map@)),
    {
        let ghost all = ids(user_trust_map@);
        let mut new_map: OrderedMap<String, ()> = OrderedMap::new();
        let mut i: usize = 0;
        assert(new_map@ =~= as_set(all.take(0)));
        while i < user_trust_map.len()
            invariant
                i <= all.len(),
                all == ids(user_trust_map@),
                new_map.wf(),
                new_map@ == as_set(all.take(i as int)),
            decreases all.len() - i,
        {
            new_map.set(user_trust_map[i].duplicate(), ());
            proof {
                let before = all.take(i as int);
                let upto = all.take(i + 1);
                assert(upto =~= before.push(all[i as int]));
                assert forall|user: Seq<char>| upto.contains(user) == (before.contains(user) || user
                    == all[i as int]) by {
                    if before.contains(user) {
                        let j = choose|j: int| 0 <= j < before.len() && before[j] == user;
                        assert(upto[j] == user);
                    }
                    if user == all[i as int] {
                        assert(upto[i as int] == user);
                    }
                }
                assert(new_map@ =~= as_set(upto));
            }
            i += 1;
        }
        assert(all.take(i as int) =~= all);
        self.set_trust_map_for_user(user_id, new_map)
    }

    pub fn get_trust_map(&self) -> (res: &OrderedMap<String, OrderedMap<String, ()>>)
        ensures
            *res == self.trust_map,
    {
        &self.trust_map
    }

    pub fn get_page_rank_results(&self) -> (res: &OrderedMap<String, DecimalNumber>)
        ensures
            *res == self.page_rank_result,
    {
        &self.page_rank_result
    }

    /// Whether `self` is `other` but for the trust ranks.
    pub open spec fn same_but_page_ranks(&self, other: Self) -> bool {
        &&& self.reputation == other.reputation
        &&& self.prior_voting_history == other.prior_voting_history
        &&& self.round_bonus_map == other.round_bonus_map
        &&& self.delegation_ranks == other.delegation_ranks
        &&& self.trust_map == other.trust_map
    }

    /// Replaces the trust ranks of all users.
    pub fn set_page_rank_result(&mut self, new_result: OrderedMap<String, DecimalNumber>)
        requires
            old(self).wf(),
            new_result.wf(),
        ensures
            final(self).wf(),
            final(self).page_rank_result == new_result,
            final(self).same_but_page_ranks(*old(self)),
    {
        self.page_rank_result = new_result;
    }

    /// Whether the graph of the trust map has few enough users and links for
    /// its counts to fit in 32 bits.
    fn graph_fits(&self) -> (res: bool)
        requires
            self.wf(),
        ensures
            res == (graph_size(nested_keys(self.trust_map)) <= u32::MAX),
    {
        let ghost all = nested_keys(self.trust_map);
        let mut size: u64 = 0;
        let mut i: usize = 0;
        assert(all.skip(0) =~= all);
        while i < self.trust_map.len()
            invariant
                i <= all.len(),
                all == nested_keys(self.trust_map),
                size <= u32::MAX,
                size + graph_size(all.skip(i as int)) == graph_size(all),
            decreases all.len() - i,
        {
            assert(all.skip(i as int).drop_first() =~= all.skip(i + 1));
            assert(all.skip(i as int)[0] == all[i as int]);
            let links = self.trust_map.value_at(i).len();
            if links >= 0xffff_ffff || size + 1 + links as u64 > 0xffff_ffff {
                return false;
            }
            size = size + 1 + links as u64;
            i += 1;
        }
        true
    }

    /// Calculates the trust rank of every user of the trust map and keeps
    /// the ranks. The calculation fails only for a trust map that is too
    /// large; nothing changes then.
    pub fn calculate_page_rank(&mut self) -> (res: Result<(), VotingSystemError>)
        requires
            old(self).wf(),
        ensures
            final(self).wf(),
            final(self).same_but_page_ranks(*old(self)),
            res is Err <==> old(self).trust_map.entries().len() > 0 && graph_size(
                nested_keys(old(self).trust_map),
            ) > u32::MAX,
            res matches Ok(_) ==> trust_ranks(nested_keys(old(self).trust_map)) == Ok::<
                Map<Seq<char>, DecimalNumber>,
                VotingSystemError,
            >(final(self).page_rank_result@),
            res matches Err(e) ==> trust_ranks(nested_keys(old(self).trust_map)) == Err::<
                Map<Seq<char>, DecimalNumber>,
                VotingSystemError,
            >(e) && final(self).page_rank_result == old(self).page_rank_result,
    {
        if self.trust_map.len() == 0 {
            self.page_rank_result = OrderedMap::new();
            return Ok(());
        }
        if !self.graph_fits() {
            return Err(VotingSystemError::ArithmeticOverflow);
        }
        let rank = Rank::from_pages(&self.trust_map);
        self.page_rank_result = rank.calculate();
        Ok(())
    }

    pub fn get_page_rank_result_for_user(&self, user_id: &String) -> (res: DecimalNumber)
        requires
            self.wf(),
        ensures
            res == self.page_rank_of(user_id@),
    {
        match self.page_rank_result.get(user_id) {
            Some(rank) => *rank,
            None => (0, 0),
        }
    }
}

} // verus!
