//! A small set of sample data for the outside data provider: nine users, their
//! reputation, their voting history, their delegation ranks and whom they
//! trust.

use vstd::prelude::*;
use crate::external_data_provider::ExternalDataProvider;
use crate::ordered_map::OrderedMap;
use crate::types::{DecimalNumber, ReputationCategory};

verus! {

/// Name of the sample user with the given number, from one to nine.
pub open spec fn username(n: u32) -> Seq<char> {
    if n == 1 {
        "user001"@
    } else if n == 2 {
        "user002"@
    } else if n == 3 {
        "user003"@
    } else if n == 4 {
        "user004"@
    } else if n == 5 {
        "user005"@
    } else if n == 6 {
        "user006"@
    } else if n == 7 {
        "user007"@
    } else if n == 8 {
        "user008"@
    } else if n == 9 {
        "user009"@
    } else {
        "userXXX"@
    }
}

/// The reputation categories of the sample users.
pub open spec fn sample_reputation() -> Map<Seq<char>, ReputationCategory> {
    Map::empty().insert(username(1), ReputationCategory::Excellent).insert(
        username(2),
        ReputationCategory::VeryGood,
    ).insert(username(3), ReputationCategory::Good).insert(
        username(4),
        ReputationCategory::Average,
    ).insert(username(5), ReputationCategory::Poor)
}

/// The bonuses of the sample rounds.
pub open spec fn sample_round_bonuses() -> Map<u32, DecimalNumber> {
    Map::empty().insert(1u32, (0u32, 0u32)).insert(2u32, (0u32, 100u32)).insert(
        3u32,
        (0u32, 200u32),
    ).insert(4u32, (0u32, 300u32))
}

/// The delegation ranks of the sample users: each has its number as rank.
pub open spec fn sample_delegation_ranks() -> Map<Seq<char>, u32> {
    Map::empty().insert(username(1), 1u32).insert(username(2), 2u32).insert(
        username(3),
        3u32,
    ).insert(username(4), 4u32).insert(username(5), 5u32).insert(username(6), 6u32).insert(
        username(7),
        7u32,
    ).insert(username(8), 8u32)
}

/// The one user, or the two users, that a sample user trusts.
pub open spec fn trusted(first: u32, second: u32) -> Map<Seq<char>, ()> {
    Map::empty().insert(username(first), ()).insert(username(second), ())
}

/// A set of one or two sample users.
fn trusted_users(first: u32, second: u32) -> (res: OrderedMap<String, ()>)
    ensures
        res.wf(),
        res@ == trusted(first, second),
{
    let mut users: OrderedMap<String, ()> = OrderedMap::new();
    users.set(ExternalDataProvider::generate_username(first), ());
    users.set(ExternalDataProvider::generate_username(second), ());
    users
}

impl ExternalDataProvider {
    /// Name of the sample user with the given number, from one to nine.
    pub fn generate_username(n: u32) -> (res: String)
        ensures
            res@ == username(n),
    {
        if n == 1 {
            "user001".to_owned()
        } else if n == 2 {
            "user002".to_owned()
        } else if n == 3 {
            "user003".to_owned()
        } else if n == 4 {
            "user004".to_owned()
        } else if n == 5 {
            "user005".to_owned()
        } else if n == 6 {
            "user006".to_owned()
        } else if n == 7 {
            "user007".to_owned()
        } else if n == 8 {
            "user008".to_owned()
        } else if n == 9 {
            "user009".to_owned()
        } else {
            "userXXX".to_owned()
        }
    }

    /// Replaces the reputation categories by those of the sample users.
    pub fn mock_data_assigned_reputation(&mut self)
        requires
            old(self).wf(),
        ensures
            final(self).wf(),
            final(self).reputation@ == sample_reputation(),
            final(self).same_but_reputation(*old(self)),
    {
        let mut reputation_map: OrderedMap<String, ReputationCategory> = OrderedMap::new();
        reputation_map.set(Self::generate_username(1), ReputationCategory::Excellent);
        reputation_map.set(Self::generate_username(2), ReputationCategory::VeryGood);
        reputation_map.set(Self::generate_username(3), ReputationCategory::Good);
        reputation_map.set(Self::generate_username(4), ReputationCategory::Average);
        reputation_map.set(Self::generate_username(5), ReputationCategory::Poor);
        self.reputation = reputation_map;
    }

    /// Replaces the voting histories by those of the sample users: the first
    /// has voted in rounds 2 and 3, the third in rounds 2, 3 and 4.
    pub fn mock_prior_voting_history(&mut self)
        requires
            old(self).wf(),
        ensures
            final(self).wf(),
            final(self).prior_voting_history@.dom() == Set::<Seq<char>>::empty().insert(
                username(1),
            ).insert(username(3)),
            final(self).history_of(username(1)) == seq![2u32, 3u32],
            final(self).history_of(username(3)) == seq![2u32, 3u32, 4u32],
            final(self).reputation == old(self).reputation,
            final(self).round_bonus_map == old(self).round_bonus_map,
            final(self).delegation_ranks == old(self).delegation_ranks,
            final(self).trust_map == old(self).trust_map,
            final(self).page_rank_result == old(self).page_rank_result,
    {
        let mut voting_history_set: OrderedMap<String, Vec<u32>> = OrderedMap::new();
        let mut first: Vec<u32> = Vec::new();
        first.push(2);
        first.push(3);
        let mut third: Vec<u32> = Vec::new();
        third.push(2);
        third.push(3);
        third.push(4);
        assert(first@ =~= seq![2u32, 3u32]);
        assert(third@ =~= seq![2u32, 3u32, 4u32]);
        proof {
            lemma_usernames_differ();
        }
        voting_history_set.set(Self::generate_username(1), first);
        voting_history_set.set(Self::generate_username(3), third);
        self.prior_voting_history = voting_history_set;
        assert(self.prior_voting_history@.dom() =~= Set::<Seq<char>>::empty().insert(
            username(1),
        ).insert(username(3)));
    }

    /// Replaces the bonuses by those of the four sample rounds.
    pub fn mock_round_bonus_map(&mut self)
        requires
            old(self).wf(),
        ensures
            final(self).wf(),
            final(self).round_bonus_map@ == sample_round_bonuses(),
            final(self).same_but_bonuses(*old(self)),
    {
        let mut round_bonus_map: OrderedMap<u32, DecimalNumber> = OrderedMap::new();
        round_bonus_map.set(1, (0, 0));
        round_bonus_map.set(2, (0, 100));
        round_bonus_map.set(3, (0, 200));
        round_bonus_map.set(4, (0, 300));
        self.round_bonus_map = round_bonus_map;
    }

    /// Replaces the delegation ranks by those of the sample users.
    pub fn mock_delegation_ranks(&mut self)
        requires
            old(self).wf(),
        ensures
            final(self).wf(),
            final(self).delegation_ranks@ == sample_delegation_ranks(),
            final(self).same_but_ranks(*old(self)),
    {
        let mut delegation_ranks: OrderedMap<String, u32> = OrderedMap::new();
        delegation_ranks.set(Self::generate_username(1), 1);
        delegation_ranks.set(Self::generate_username(2), 2);
        delegation_ranks.set(Self::generate_username(3), 3);
        delegation_ranks.set(Self::generate_username(4), 4);
        delegation_ranks.set(Self::generate_username(5), 5);
        delegation_ranks.set(Self::generate_username(6), 6);
        delegation_ranks.set(Self::generate_username(7), 7);
        delegation_ranks.set(Self::generate_username(8), 8);
        self.delegation_ranks = delegation_ranks;
    }

    /// Replaces the trust map by that of the sample users: the first trusts
    /// the second and the fourth, the second the first, the third the first
    /// and the second, the fourth the third.
    pub fn mock_trust_map(&mut self)
        requires
            old(self).wf(),
        ensures
            final(self).wf(),
            final(self).trust_map@.dom() == Set::<Seq<char>>::empty().insert(username(1)).insert(
                username(2),
            ).insert(username(3)).insert(username(4)),
            final(self).trust_map@[username(1)]@ == trusted(2, 4),
            final(self).trust_map@[username(2)]@ == trusted(1, 1),
            final(self).trust_map@[username(3)]@ == trusted(1, 2),
            final(self).trust_map@[username(4)]@ == trusted(3, 3),
            final(self).same_but_trust(*old(self)),
    {
        let mut trust_map: OrderedMap<String, OrderedMap<String, ()>> = OrderedMap::new();
        let ghost inner_wf = |users: OrderedMap<String, ()>| users.wf();
        proof {
            lemma_usernames_differ();
            trust_map.lemma_all_values(inner_wf);
        }
        trust_map.set(Self::generate_username(1), trusted_users(2, 4));
        trust_map.set(Self::generate_username(2), trusted_users(1, 1));
        trust_map.set(Self::generate_username(3), trusted_users(1, 2));
        trust_map.set(Self::generate_username(4), trusted_users(3, 3));
        proof {
            trust_map.lemma_all_values(inner_wf);
            assert(trust_map@.dom() =~= Set::<Seq<char>>::empty().insert(username(1)).insert(
                username(2),
            ).insert(username(3)).insert(username(4)));
        }
        self.trust_map = trust_map;
    }

    /// Replaces all data but the trust ranks by the sample data.
    pub fn mock_sample_data(&mut self)
        requires
            old(self).wf(),
        ensures
            final(self).wf(),
            final(self).reputation@ == sample_reputation(),
            final(self).prior_voting_history@.dom() == Set::<Seq<char>>::empty().insert(
                username(1),
            ).insert(username(3)),
            final(self).history_of(username(1)) == seq![2u32, 3u32],
            final(self).history_of(username(3)) == seq![2u32, 3u32, 4u32],
            final(self).round_bonus_map@ == sample_round_bonuses(),
            final(self).delegation_ranks@ == sample_delegation_ranks(),
            final(self).trust_map@.dom() == Set::<Seq<char>>::empty().insert(username(1)).insert(
                username(2),
            ).insert(username(3)).insert(username(4)),
            final(self).trust_map@[username(1)]@ == trusted(2, 4),
            final(self).trust_map@[username(2)]@ == trusted(1, 1),
            final(self).trust_map@[username(3)]@ == trusted(1, 2),
            final(self).trust_map@[username(4)]@ == trusted(3, 3),
            final(self).page_rank_result == old(self).page_rank_result,
    {
        self.mock_data_assigned_reputation();
        self.mock_prior_voting_history();
        self.mock_round_bonus_map();
        self.mock_delegation_ranks();
        self.mock_trust_map();
    }
}

/// The first four sample users have names that differ.
pub proof fn lemma_usernames_differ()
    ensures
        username(1) != username(2),
        username(1) != username(3),
        username(1) != username(4),
        username(2) != username(3),
        username(2) != username(4),
        username(3) != username(4),
{
    reveal_strlit("user001");
    reveal_strlit("user002");
    reveal_strlit("user003");
    reveal_strlit("user004");
    assert("user001"@[6] == '1');
    assert("user002"@[6] == '2');
    assert("user003"@[6] == '3');
    assert("user004"@[6] == '4');
}

} // verus!
