//! Quorum consensus: a delegated ballot is replaced by the majority among the
//! five highest-ranked delegatees that voted themselves.
//!
//! Delegatees are considered in the order of the delegator's list. While fewer
//! than five are chosen, each one that did not delegate in turn is taken. After
//! that a newcomer replaces the lowest-ranked of the chosen only if its rank is
//! strictly higher; among several chosen of the same lowest rank the one with
//! the smallest identifier gives way. A delegatee that the list names more
//! than once counts once: naming a chosen delegatee again changes nothing.

use vstd::prelude::*;
use crate::external_data_provider::rank_of;
use crate::ordered_map::{
    ids,
    keys_before,
    lemma_keys_before_all,
    lemma_keys_before_len,
    lemma_keys_before_step,
    MapKey,
    OrderedMap,
};
use crate::types::{Vote, VotingSystemError, QUORUM_PARTICIPATION_THRESHOLD, QUORUM_SIZE};

verus! {

/// `id` is the chosen delegatee that gives way first: none has a lower rank,
/// and none of the same rank has a smaller identifier.
pub open spec fn is_lowest(chosen: Map<Seq<char>, u32>, id: Seq<char>) -> bool {
    &&& chosen.contains_key(id)
    &&& forall|other: Seq<char>| #[trigger]
        chosen.contains_key(other) ==> chosen[id] < chosen[other] || (chosen[id] == chosen[other]
            && (id == other || String::key_lt(id, other)))
}

/// The chosen delegatee that gives way first.
pub open spec fn lowest(chosen: Map<Seq<char>, u32>) -> Seq<char> {
    choose|id: Seq<char>| is_lowest(chosen, id)
}

/// The chosen delegatees after `id` with rank `rank` has been considered.
pub open spec fn consider(chosen: Map<Seq<char>, u32>, id: Seq<char>, rank: u32) -> Map<
    Seq<char>,
    u32,
> {
    if chosen.contains_key(id) {
        chosen
    } else if chosen.dom().len() < QUORUM_SIZE {
        chosen.insert(id, rank)
    } else if rank > chosen[lowest(chosen)] {
        chosen.remove(lowest(chosen)).insert(id, rank)
    } else {
        chosen
    }
}

/// The delegatees chosen from `delegatees`, each with its rank. One that cast
/// no ballot or delegated in turn is passed over.
pub open spec fn chosen_delegatees(
    delegatees: Seq<Seq<char>>,
    ranks: Map<Seq<char>, u32>,
    votes: Map<Seq<char>, Vote>,
) -> Map<Seq<char>, u32>
    decreases delegatees.len(),
{
    if delegatees.len() == 0 {
        Map::empty()
    } else {
        let before = chosen_delegatees(delegatees.drop_last(), ranks, votes);
        let id = delegatees.last();
        if votes.contains_key(id) && votes[id] != Vote::Delegate {
            consider(before, id, rank_of(ranks, id))
        } else {
            before
        }
    }
}

/// The test "`id` cast the ballot `vote`".
pub open spec fn casts(votes: Map<Seq<char>, Vote>, vote: Vote) -> spec_fn(Seq<char>) -> bool {
    |id: Seq<char>| votes.contains_key(id) && votes[id] == vote
}

/// How many of `voters` cast the ballot `vote`.
pub open spec fn cast_among(voters: Set<Seq<char>>, votes: Map<Seq<char>, Vote>, vote: Vote) -> nat {
    voters.filter(casts(votes, vote)).len()
}

/// The vote that the counts among the chosen delegatees resolve to.
pub open spec fn decide(yes: nat, no: nat, abstain: nat) -> Vote {
    if abstain >= QUORUM_SIZE - QUORUM_PARTICIPATION_THRESHOLD || yes == no {
        Vote::Abstain
    } else if yes > no {
        Vote::Yes
    } else {
        Vote::No
    }
}

/// The vote that stands in for a delegated ballot.
///
/// It fails if some delegatee cast no ballot on the submission. It is an
/// abstention if fewer than five delegatees can be chosen.
pub open spec fn consensus(
    delegatees: Seq<Seq<char>>,
    ranks: Map<Seq<char>, u32>,
    votes: Map<Seq<char>, Vote>,
) -> Result<Vote, VotingSystemError> {
    if exists|i: int| 0 <= i < delegatees.len() && !votes.contains_key(#[trigger] delegatees[i]) {
        Err(VotingSystemError::VoteNotFoundForDelegatee)
    } else {
        let chosen = chosen_delegatees(delegatees, ranks, votes);
        if chosen.dom().len() < QUORUM_SIZE {
            Ok(Vote::Abstain)
        } else {
            Ok(
                decide(
                    cast_among(chosen.dom(), votes, Vote::Yes),
                    cast_among(chosen.dom(), votes, Vote::No),
                    cast_among(chosen.dom(), votes, Vote::Abstain),
                ),
            )
        }
    }
}

/// A delegated ballot is resolved to a yes, a no or an abstention.
pub proof fn lemma_consensus_decides(
    delegatees: Seq<Seq<char>>,
    ranks: Map<Seq<char>, u32>,
    votes: Map<Seq<char>, Vote>,
)
    ensures
        consensus(delegatees, ranks, votes) matches Ok(vote) ==> vote == Vote::Yes || vote
            == Vote::No || vote == Vote::Abstain,
        consensus(delegatees, ranks, votes) matches Err(e) ==> e
            == VotingSystemError::VoteNotFoundForDelegatee,
{
}

/// At most one chosen delegatee gives way first.
pub proof fn lemma_lowest_unique(chosen: Map<Seq<char>, u32>, a: Seq<char>, b: Seq<char>)
    requires
        is_lowest(chosen, a),
        is_lowest(chosen, b),
    ensures
        a == b,
{
    assert(chosen.contains_key(a));
    assert(chosen.contains_key(b));
    if a != b {
        String::lemma_key_lt_transitive(a, b, a);
        String::lemma_key_lt_irreflexive(a);
    }
}

/// Each chosen delegatee is on the list, cast a ballot of its own, and did not
/// delegate in turn.
pub proof fn lemma_chosen_delegatees(
    delegatees: Seq<Seq<char>>,
    ranks: Map<Seq<char>, u32>,
    votes: Map<Seq<char>, Vote>,
)
    ensures
        forall|id: Seq<char>| #[trigger]
            chosen_delegatees(delegatees, ranks, votes).contains_key(id) ==> votes.contains_key(
                id,
            ) && votes[id] != Vote::Delegate,
        forall|id: Seq<char>| #[trigger]
            chosen_delegatees(delegatees, ranks, votes).contains_key(id) ==> delegatees.contains(
                id,
            ),
    decreases delegatees.len(),
{
    if delegatees.len() > 0 {
        let rest = delegatees.drop_last();
        lemma_chosen_delegatees(rest, ranks, votes);
        let before = chosen_delegatees(rest, ranks, votes);
        let after = chosen_delegatees(delegatees, ranks, votes);
        assert forall|id: Seq<char>| #[trigger] after.contains_key(id) implies delegatees.contains(
            id,
        ) by {
            if before.contains_key(id) {
                let j = choose|j: int| 0 <= j < rest.len() && rest[j] == id;
                assert(delegatees[j] == id);
            } else {
                assert(delegatees[delegatees.len() - 1] == id);
            }
        }
    }
}

/// Among finitely many chosen delegatees one gives way first.
pub proof fn lemma_lowest_exists(chosen: Map<Seq<char>, u32>)
    requires
        chosen.dom().finite(),
        chosen.dom().len() > 0,
    ensures
        is_lowest(chosen, lowest(chosen)),
    decreases chosen.dom().len(),
{
    let first = chosen.dom().choose();
    let rest = chosen.remove(first);
    assert(chosen.contains_key(first));
    if rest.dom().len() == 0 {
        assert forall|other: Seq<char>| #[trigger] chosen.contains_key(other) implies other
            == first by {
            if other != first {
                assert(rest.dom().contains(other));
            }
        }
        assert(is_lowest(chosen, first));
    } else {
        lemma_lowest_exists(rest);
        let low = lowest(rest);
        assert(rest.contains_key(low));
        if chosen[first] < rest[low] || (chosen[first] == rest[low] && String::key_lt(first, low)) {
            assert forall|other: Seq<char>| #[trigger] chosen.contains_key(other) implies chosen[first]
                < chosen[other] || (chosen[first] == chosen[other] && (first == other
                || String::key_lt(first, other))) by {
                if other != first {
                    assert(rest.contains_key(other));
                    if chosen[first] == chosen[other] && low != other {
                        String::lemma_key_lt_transitive(first, low, other);
                    }
                }
            }
            assert(is_lowest(chosen, first));
        } else {
            String::lemma_key_lt_total(first, low);
            assert forall|other: Seq<char>| #[trigger] chosen.contains_key(other) implies chosen[low]
                < chosen[other] || (chosen[low] == chosen[other] && (low == other
                || String::key_lt(low, other))) by {
                if other != first {
                    assert(rest.contains_key(other));
                }
            }
            assert(is_lowest(chosen, low));
        }
    }
}

/// Never more than five delegatees are chosen.
pub proof fn lemma_chosen_at_most_five(
    delegatees: Seq<Seq<char>>,
    ranks: Map<Seq<char>, u32>,
    votes: Map<Seq<char>, Vote>,
)
    ensures
        chosen_delegatees(delegatees, ranks, votes).dom().finite(),
        chosen_delegatees(delegatees, ranks, votes).dom().len() <= QUORUM_SIZE,
    decreases delegatees.len(),
{
    if delegatees.len() > 0 {
        let before = chosen_delegatees(delegatees.drop_last(), ranks, votes);
        lemma_chosen_at_most_five(delegatees.drop_last(), ranks, votes);
        if before.dom().len() >= QUORUM_SIZE {
            lemma_lowest_exists(before);
        }
    }
}

/// Whether `id` cast a ballot of its own: one that is not delegated in turn.
pub open spec fn eligible(votes: Map<Seq<char>, Vote>, id: Seq<char>) -> bool {
    votes.contains_key(id) && votes[id] != Vote::Delegate
}

/// The chosen delegatees are the highest-ranked ones.
///
/// Each chosen delegatee is held with its own rank, and a delegatee that cast
/// a ballot of its own and yet is passed over is passed over for five others,
/// none of which has a lower rank. This holds also of a list that names a
/// delegatee more than once.
pub proof fn lemma_chosen_are_highest_ranked(
    delegatees: Seq<Seq<char>>,
    ranks: Map<Seq<char>, u32>,
    votes: Map<Seq<char>, Vote>,
)
    ensures
        forall|id: Seq<char>| #[trigger]
            chosen_delegatees(delegatees, ranks, votes).contains_key(id) ==> chosen_delegatees(
                delegatees,
                ranks,
                votes,
            )[id] == rank_of(ranks, id),
        forall|i: int, id: Seq<char>|
            0 <= i < delegatees.len() && eligible(votes, #[trigger] delegatees[i])
                && !chosen_delegatees(delegatees, ranks, votes).contains_key(delegatees[i])
                && #[trigger] chosen_delegatees(delegatees, ranks, votes).contains_key(id)
                ==> chosen_delegatees(delegatees, ranks, votes).dom().len() == QUORUM_SIZE
                && rank_of(ranks, delegatees[i]) <= chosen_delegatees(delegatees, ranks, votes)[id],
        forall|i: int|
            0 <= i < delegatees.len() && eligible(votes, #[trigger] delegatees[i])
                && !chosen_delegatees(delegatees, ranks, votes).contains_key(delegatees[i])
                ==> chosen_delegatees(delegatees, ranks, votes).dom().len() == QUORUM_SIZE,
    decreases delegatees.len(),
{
    if delegatees.len() > 0 {
        let rest = delegatees.drop_last();
        let id = delegatees.last();
        let rank = rank_of(ranks, id);
        let before = chosen_delegatees(rest, ranks, votes);
        let after = chosen_delegatees(delegatees, ranks, votes);
        lemma_chosen_are_highest_ranked(rest, ranks, votes);
        lemma_chosen_at_most_five(rest, ranks, votes);
        lemma_chosen_delegatees(rest, ranks, votes);
        assert forall|i: int| 0 <= i < rest.len() implies rest[i] == #[trigger] delegatees[i] by {}
        assert(delegatees[delegatees.len() - 1] == id);
        if eligible(votes, id) && !before.contains_key(id) {
            if before.dom().len() < QUORUM_SIZE {
                assert(after == before.insert(id, rank));
                assert forall|i: int|
                    0 <= i < delegatees.len() && eligible(votes, #[trigger] delegatees[i])
                        && !after.contains_key(delegatees[i]) implies false by {
                    if i < rest.len() {
                        assert(rest[i] == delegatees[i]);
                        assert(!before.contains_key(rest[i]));
                    }
                }
            } else {
                lemma_lowest_exists(before);
                let low = lowest(before);
                assert(before.contains_key(low));
                if rank > before[low] {
                    assert(after == before.remove(low).insert(id, rank));
                    assert(after.dom().len() == QUORUM_SIZE);
                    assert forall|i: int, other: Seq<char>|
                        0 <= i < delegatees.len() && eligible(votes, #[trigger] delegatees[i])
                            && !after.contains_key(delegatees[i]) && #[trigger] after.contains_key(
                            other,
                        ) implies rank_of(ranks, delegatees[i]) <= after[other] by {
                        assert(i < rest.len());
                        assert(rest[i] == delegatees[i]);
                        if before.contains_key(rest[i]) {
                            assert(rest[i] == low);
                            if other != id {
                                assert(before.contains_key(other));
                            }
                        } else {
                            assert(before.contains_key(low));
                            if other != id {
                                assert(before.contains_key(other));
                            }
                        }
                    }
                } else {
                    assert(after == before);
                    assert forall|i: int, other: Seq<char>|
                        0 <= i < delegatees.len() && eligible(votes, #[trigger] delegatees[i])
                            && !after.contains_key(delegatees[i]) && #[trigger] after.contains_key(
                            other,
                        ) implies rank_of(ranks, delegatees[i]) <= after[other] by {
                        if i < rest.len() {
                            assert(rest[i] == delegatees[i]);
                        } else {
                            assert(before.contains_key(other));
                        }
                    }
                }
            }
        } else {
            assert(after == before);
            assert forall|i: int, other: Seq<char>|
                0 <= i < delegatees.len() && eligible(votes, #[trigger] delegatees[i])
                    && !after.contains_key(delegatees[i]) && #[trigger] after.contains_key(
                    other,
                ) implies after.dom().len() == QUORUM_SIZE && rank_of(ranks, delegatees[i])
                <= after[other] by {
                assert(i < rest.len());
                assert(rest[i] == delegatees[i]);
            }
            assert forall|i: int|
                0 <= i < delegatees.len() && eligible(votes, #[trigger] delegatees[i])
                    && !after.contains_key(delegatees[i]) implies after.dom().len()
                == QUORUM_SIZE by {
                assert(i < rest.len());
                assert(rest[i] == delegatees[i]);
            }
        }
    }
}

/// Naming a delegatee of the list once more at its end changes neither the
/// chosen delegatees nor the vote that the delegated ballot is resolved to.
pub proof fn lemma_named_again(
    delegatees: Seq<Seq<char>>,
    ranks: Map<Seq<char>, u32>,
    votes: Map<Seq<char>, Vote>,
    at: int,
)
    requires
        0 <= at < delegatees.len(),
    ensures
        chosen_delegatees(delegatees.push(delegatees[at]), ranks, votes) == chosen_delegatees(
            delegatees,
            ranks,
            votes,
        ),
        consensus(delegatees.push(delegatees[at]), ranks, votes) == consensus(
            delegatees,
            ranks,
            votes,
        ),
{
    let id = delegatees[at];
    let longer = delegatees.push(id);
    let before = chosen_delegatees(delegatees, ranks, votes);
    assert(longer.drop_last() =~= delegatees);
    assert(longer.last() == id);
    lemma_chosen_are_highest_ranked(delegatees, ranks, votes);
    lemma_chosen_at_most_five(delegatees, ranks, votes);
    if eligible(votes, id) && !before.contains_key(id) {
        lemma_lowest_exists(before);
        assert(before.contains_key(lowest(before)));
    }
    assert(chosen_delegatees(longer, ranks, votes) == before);
    let missing = |list: Seq<Seq<char>>|
        exists|i: int| 0 <= i < list.len() && !votes.contains_key(#[trigger] list[i]);
    if missing(delegatees) {
        let i = choose|i: int|
            0 <= i < delegatees.len() && !votes.contains_key(#[trigger] delegatees[i]);
        assert(longer[i] == delegatees[i]);
    }
    if missing(longer) {
        let i = choose|i: int| 0 <= i < longer.len() && !votes.contains_key(#[trigger] longer[i]);
        if i < delegatees.len() {
            assert(longer[i] == delegatees[i]);
        } else {
            assert(longer[i] == delegatees[at]);
        }
    }
}

/// The delegatees of the list that cast a ballot of their own, each once.
pub open spec fn eligible_delegatees(delegatees: Seq<Seq<char>>, votes: Map<Seq<char>, Vote>) -> Set<
    Seq<char>,
> {
    Set::new(|id: Seq<char>| delegatees.contains(id) && eligible(votes, id))
}

/// How many delegatees are chosen.
///
/// Only delegatees with a ballot of their own are chosen. Where fewer than
/// five of the list have one, all of them are chosen, and the delegated
/// ballot becomes an abstention if every delegatee cast a ballot. Where five
/// or more have one, exactly five are chosen.
pub proof fn lemma_chosen_count(
    delegatees: Seq<Seq<char>>,
    ranks: Map<Seq<char>, u32>,
    votes: Map<Seq<char>, Vote>,
)
    ensures
        eligible_delegatees(delegatees, votes).finite(),
        chosen_delegatees(delegatees, ranks, votes).dom().subset_of(
            eligible_delegatees(delegatees, votes),
        ),
        eligible_delegatees(delegatees, votes).len() < QUORUM_SIZE ==> chosen_delegatees(
            delegatees,
            ranks,
            votes,
        ).dom() == eligible_delegatees(delegatees, votes),
        eligible_delegatees(delegatees, votes).len() >= QUORUM_SIZE ==> chosen_delegatees(
            delegatees,
            ranks,
            votes,
        ).dom().len() == QUORUM_SIZE,
        eligible_delegatees(delegatees, votes).len() < QUORUM_SIZE && (forall|i: int|
            0 <= i < delegatees.len() ==> votes.contains_key(#[trigger] delegatees[i]))
            ==> consensus(delegatees, ranks, votes) == Ok::<Vote, VotingSystemError>(Vote::Abstain),
{
    let chosen = chosen_delegatees(delegatees, ranks, votes).dom();
    let able = eligible_delegatees(delegatees, votes);
    vstd::seq_lib::seq_to_set_is_finite(delegatees);
    assert(able.subset_of(delegatees.to_set()));
    vstd::set_lib::lemma_len_subset(able, delegatees.to_set());
    lemma_chosen_delegatees(delegatees, ranks, votes);
    lemma_chosen_at_most_five(delegatees, ranks, votes);
    lemma_chosen_are_highest_ranked(delegatees, ranks, votes);
    assert(chosen.subset_of(able));
    vstd::set_lib::lemma_len_subset(chosen, able);
    if exists|id: Seq<char>| able.contains(id) && !chosen.contains(id) {
        let id = choose|id: Seq<char>| able.contains(id) && !chosen.contains(id);
        let i = choose|i: int| 0 <= i < delegatees.len() && delegatees[i] == id;
        assert(eligible(votes, delegatees[i]));
        assert(chosen.len() == QUORUM_SIZE);
    } else {
        assert(chosen =~= able);
    }
}

/// Counting over one more voter adds one exactly when that voter cast the ballot.
pub proof fn lemma_cast_among_insert(
    voters: Set<Seq<char>>,
    id: Seq<char>,
    votes: Map<Seq<char>, Vote>,
    vote: Vote,
)
    requires
        voters.finite(),
        !voters.contains(id),
    ensures
        cast_among(voters.insert(id), votes, vote) == cast_among(voters, votes, vote) + (if casts(
            votes,
            vote,
        )(id) {
            1nat
        } else {
            0nat
        }),
        cast_among(voters, votes, vote) <= voters.len(),
{
    let test = casts(votes, vote);
    voters.lemma_len_filter(test);
    if test(id) {
        assert(voters.insert(id).filter(test) =~= voters.filter(test).insert(id));
    } else {
        assert(voters.insert(id).filter(test) =~= voters.filter(test));
    }
}

/// Position of the chosen delegatee that gives way first.
fn lowest_position(chosen: &OrderedMap<String, u32>) -> (res: usize)
    requires
        chosen.wf(),
        chosen.entries().len() > 0,
    ensures
        res < chosen.entries().len(),
        chosen.entries()[res as int].0 == lowest(chosen@),
        chosen.entries()[res as int].1 == chosen@[lowest(chosen@)],
        chosen@.contains_key(lowest(chosen@)),
{
    let mut best: usize = 0;
    let mut j: usize = 1;
    while j < chosen.len()
        invariant
            1 <= j <= chosen.entries().len(),
            best < j,
            forall|t: int|
                0 <= t < best ==> (#[trigger] chosen.entries()[t]).1 > chosen.entries()[best as int].1,
            forall|t: int|
                best <= t < j ==> (#[trigger] chosen.entries()[t]).1 >= chosen.entries()[best as int].1,
        decreases chosen.entries().len() - j,
    {
        if *chosen.value_at(j) < *chosen.value_at(best) {
            best = j;
        }
        j += 1;
    }
    proof {
        let entries = chosen.entries();
        let id = entries[best as int].0;
        chosen.lemma_entries_view();
        assert(chosen@.contains_key(entries[best as int].0));
        assert forall|other: Seq<char>| #[trigger] chosen@.contains_key(other) implies chosen@[id]
            < chosen@[other] || (chosen@[id] == chosen@[other] && (id == other || String::key_lt(
            id,
            other,
        ))) by {
            let t = choose|t: int| 0 <= t < entries.len() && #[trigger] entries[t].0 == other;
            assert(chosen@[entries[t].0] == entries[t].1);
            if t > best {
                assert(String::key_lt(entries[best as int].0, entries[t].0));
            }
        }
        assert(is_lowest(chosen@, id));
        lemma_lowest_unique(chosen@, id, lowest(chosen@));
    }
    best
}

/// Resolves a delegated ballot from the delegator's list of delegatees, the
/// delegation ranks and the ballots cast on the submission.
pub fn quorum_consensus(
    delegatees: &Vec<String>,
    ranks: &OrderedMap<String, u32>,
    votes: &OrderedMap<String, Vote>,
) -> (res: Result<Vote, VotingSystemError>)
    requires
        ranks.wf(),
        votes.wf(),
    ensures
        res == consensus(ids(delegatees@), ranks@, votes@),
{
    let ghost all = ids(delegatees@);
    let mut chosen: OrderedMap<String, u32> = OrderedMap::new();
    let mut i: usize = 0;
    assert(all.take(0) =~= Seq::<Seq<char>>::empty());
    while i < delegatees.len()
        invariant
            i <= delegatees.len(),
            all == ids(delegatees@),
            ranks.wf(),
            votes.wf(),
            chosen.wf(),
            forall|j: int| 0 <= j < i ==> votes@.contains_key(#[trigger] all[j]),
            chosen@ == chosen_delegatees(all.take(i as int), ranks@, votes@),
            chosen.entries().len() <= QUORUM_SIZE,
        decreases delegatees.len() - i,
    {
        let delegatee = &delegatees[i];
        let ghost before = all.take(i as int);
        let ghost upto = all.take(i + 1);
        proof {
            assert(upto.drop_last() =~= before);
            assert(upto.last() == delegatee@);
            assert(all[i as int] == delegatee@);
            lemma_chosen_delegatees(before, ranks@, votes@);
            chosen.lemma_len();
        }
        let vote = match votes.get(delegatee) {
            Some(vote) => *vote,
            None => {
                return Err(VotingSystemError::VoteNotFoundForDelegatee);
            },
        };
        match vote {
            Vote::Delegate => {},
            _ => {
                let rank: u32 = match ranks.get(delegatee) {
                    Some(rank) => *rank,
                    None => 0,
                };
                if !chosen.contains_key(delegatee) {
                    if chosen.len() < QUORUM_SIZE as usize {
                        chosen.set(delegatee.duplicate(), rank);
                    } else {
                        let position = lowest_position(&chosen);
                        if rank > *chosen.value_at(position) {
                            let leaving = chosen.key_at(position).duplicate();
                            chosen.remove(&leaving);
                            chosen.set(delegatee.duplicate(), rank);
                        }
                    }
                }
            },
        }
        i += 1;
    }
    proof {
        assert(all.take(i as int) =~= all);
        lemma_chosen_delegatees(all, ranks@, votes@);
        chosen.lemma_len();
        lemma_keys_before_all(chosen.entries());
        lemma_keys_before_len::<String, u32>(chosen.entries(), 0);
        assert(keys_before(chosen.entries(), 0) =~= Set::<Seq<char>>::empty());
        assert(Set::<Seq<char>>::empty().filter(casts(votes@, Vote::Yes)) =~= Set::<
            Seq<char>,
        >::empty());
        assert(Set::<Seq<char>>::empty().filter(casts(votes@, Vote::No)) =~= Set::<
            Seq<char>,
        >::empty());
        assert(Set::<Seq<char>>::empty().filter(casts(votes@, Vote::Abstain)) =~= Set::<
            Seq<char>,
        >::empty());
    }
    if chosen.len() < QUORUM_SIZE as usize {
        return Ok(Vote::Abstain);
    }
    let mut yes: u32 = 0;
    let mut no: u32 = 0;
    let mut abstain: u32 = 0;
    let mut j: usize = 0;
    while j < chosen.len()
        invariant
            j <= chosen.entries().len(),
            chosen.entries().len() == QUORUM_SIZE,
            chosen.wf(),
            votes.wf(),
            forall|id: Seq<char>| #[trigger]
                chosen@.contains_key(id) ==> votes@.contains_key(id) && votes@[id]
                    != Vote::Delegate,
            yes == cast_among(keys_before(chosen.entries(), j as int), votes@, Vote::Yes),
            no == cast_among(keys_before(chosen.entries(), j as int), votes@, Vote::No),
            abstain == cast_among(keys_before(chosen.entries(), j as int), votes@, Vote::Abstain),
            yes <= j,
            no <= j,
            abstain <= j,
        decreases chosen.entries().len() - j,
    {
        let id = chosen.key_at(j);
        proof {
            let entries = chosen.entries();
            chosen.lemma_entries_view();
            assert(chosen@.contains_key(entries[j as int].0));
            lemma_keys_before_step::<String, u32>(entries, j as int);
            lemma_keys_before_len::<String, u32>(entries, j as int);
            lemma_cast_among_insert(keys_before(entries, j as int), id@, votes@, Vote::Yes);
            lemma_cast_among_insert(keys_before(entries, j as int), id@, votes@, Vote::No);
            lemma_cast_among_insert(keys_before(entries, j as int), id@, votes@, Vote::Abstain);
        }
        match votes.get(id) {
            None => {
                return Err(VotingSystemError::VoteNotFoundForDelegatee);
            },
            Some(vote) => match *vote {
                Vote::Delegate => {
                    return Err(VotingSystemError::UnexpectedValue);
                },
                Vote::Yes => {
                    yes += 1;
                },
                Vote::No => {
                    no += 1;
                },
                Vote::Abstain => {
                    abstain += 1;
                },
                Vote::Remove => {},
            },
        }
        j += 1;
    }
    if abstain >= QUORUM_SIZE - QUORUM_PARTICIPATION_THRESHOLD || yes == no {
        return Ok(Vote::Abstain);
    }
    if yes > no {
        return Ok(Vote::Yes);
    }
    Ok(Vote::No)
}

} // verus!
