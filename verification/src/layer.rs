//! A layer: a set of weighted neurons and the aggregator that reduces their
//! votes to one number.

use vstd::prelude::*;
use crate::decimal_number_wrapper::{
    checked_add,
    checked_mul,
    decode,
    encode,
    product_of,
    sum_of,
    valid,
    DecimalNumberWrapper,
};
use crate::external_data_provider::ExternalDataProvider;
use crate::neurons::{
    assigned_reputation_neuron,
    dummy_neuron,
    prior_voting_history_neuron,
    trust_graph_neuron,
};
use crate::ordered_map::OrderedMap;
use crate::types::{
    DecimalNumber,
    LayerAggregator,
    NeuronType,
    VotingSystemError,
    DEFAULT_WEIGHT,
};

verus! {

/// The raw vote of a neuron of the given kind.
pub open spec fn neuron_oracle(
    neuron: NeuronType,
    voter: Seq<char>,
    external_data: ExternalDataProvider,
    prior: Option<DecimalNumber>,
) -> Result<DecimalNumber, VotingSystemError> {
    match neuron {
        NeuronType::Dummy => dummy_neuron::oracle(prior),
        NeuronType::AssignedReputation => assigned_reputation_neuron::oracle(
            voter,
            external_data,
            prior,
        ),
        NeuronType::PriorVotingHistory => prior_voting_history_neuron::oracle(
            voter,
            external_data,
            prior,
        ),
        NeuronType::TrustGraph => trust_graph_neuron::oracle(voter, external_data),
    }
}

/// A raw vote times the weight with the encoding `stored_weight`.
pub open spec fn weighted(raw_vote: DecimalNumber, stored_weight: u32) -> Result<
    DecimalNumber,
    VotingSystemError,
> {
    product_of(raw_vote, decode(stored_weight as nat))
}

/// The vote of one neuron: its oracle's value, then its weight applied.
pub open spec fn neuron_vote(
    neuron: NeuronType,
    stored_weight: u32,
    voter: Seq<char>,
    external_data: ExternalDataProvider,
    prior: Option<DecimalNumber>,
) -> Result<DecimalNumber, VotingSystemError> {
    match neuron_oracle(neuron, voter, external_data, prior) {
        Err(e) => Err(e),
        Ok(raw_vote) => weighted(raw_vote, stored_weight),
    }
}

/// `done` followed by the votes of `neurons`, or the first failure among them.
pub open spec fn neuron_votes(
    neurons: Seq<(NeuronType, u32)>,
    voter: Seq<char>,
    external_data: ExternalDataProvider,
    prior: Option<DecimalNumber>,
    done: Seq<DecimalNumber>,
) -> Result<Seq<DecimalNumber>, VotingSystemError>
    decreases neurons.len(),
{
    if neurons.len() == 0 {
        Ok(done)
    } else {
        match neuron_vote(neurons[0].0, neurons[0].1, voter, external_data, prior) {
            Err(e) => Err(e),
            Ok(vote) => neuron_votes(
                neurons.drop_first(),
                voter,
                external_data,
                prior,
                done.push(vote),
            ),
        }
    }
}

/// The weights of a layer's neurons once `neuron` is among them: a neuron
/// that was there keeps its weight, a new one gets the default weight.
pub open spec fn with_neuron(neurons: Map<NeuronType, u32>, neuron: NeuronType) -> Map<
    NeuronType,
    u32,
> {
    if neurons.contains_key(neuron) {
        neurons
    } else {
        neurons.insert(neuron, encode(DEFAULT_WEIGHT) as u32)
    }
}

/// One step of a reduction: the sum or the product of the two numbers.
pub open spec fn combined(aggregator: LayerAggregator, a: DecimalNumber, b: DecimalNumber) -> Result<
    DecimalNumber,
    VotingSystemError,
> {
    match aggregator {
        LayerAggregator::Sum => sum_of(a, b),
        LayerAggregator::Product => product_of(a, b),
        LayerAggregator::Unknown => Err(VotingSystemError::CannotRunUnknownLayerAggregator),
    }
}

/// `so_far` combined in turn with each of `votes`, from the first on.
pub open spec fn reduced(
    aggregator: LayerAggregator,
    votes: Seq<DecimalNumber>,
    so_far: DecimalNumber,
) -> Result<DecimalNumber, VotingSystemError>
    decreases votes.len(),
{
    if votes.len() == 0 {
        Ok(so_far)
    } else {
        match combined(aggregator, so_far, votes[0]) {
            Err(e) => Err(e),
            Ok(next) => reduced(aggregator, votes.drop_first(), next),
        }
    }
}

/// The votes of a layer's neurons reduced to one number: the first vote
/// combined with all that follow. There must be a vote to begin with.
pub open spec fn aggregated(aggregator: LayerAggregator, votes: Seq<DecimalNumber>) -> Result<
    DecimalNumber,
    VotingSystemError,
> {
    match aggregator {
        LayerAggregator::Unknown => Err(VotingSystemError::CannotRunUnknownLayerAggregator),
        LayerAggregator::Sum => if votes.len() == 0 {
            Err(VotingSystemError::ReducingvotesForSumAggregatorFailed)
        } else {
            reduced(aggregator, votes.drop_first(), votes[0])
        },
        LayerAggregator::Product => if votes.len() == 0 {
            Err(VotingSystemError::ReducingvotesForProductAggregatorFailed)
        } else {
            reduced(aggregator, votes.drop_first(), votes[0])
        },
    }
}

/// The votes of neurons are valid numbers.
pub proof fn lemma_neuron_votes_valid(
    neurons: Seq<(NeuronType, u32)>,
    voter: Seq<char>,
    external_data: ExternalDataProvider,
    prior: Option<DecimalNumber>,
    done: Seq<DecimalNumber>,
)
    requires
        forall|i: int| 0 <= i < done.len() ==> valid(#[trigger] done[i]),
        neuron_votes(neurons, voter, external_data, prior, done) is Ok,
    ensures
        ({
            let votes = neuron_votes(neurons, voter, external_data, prior, done)->Ok_0;
            &&& votes.len() == done.len() + neurons.len()
            &&& forall|i: int| 0 <= i < votes.len() ==> valid(#[trigger] votes[i])
        }),
    decreases neurons.len(),
{
    if neurons.len() > 0 {
        let vote = neuron_vote(neurons[0].0, neurons[0].1, voter, external_data, prior)->Ok_0;
        lemma_neuron_votes_valid(neurons.drop_first(), voter, external_data, prior, done.push(vote));
    }
}

/// Reducing valid numbers gives a valid number.
pub proof fn lemma_reduced_valid(
    aggregator: LayerAggregator,
    votes: Seq<DecimalNumber>,
    so_far: DecimalNumber,
)
    requires
        valid(so_far),
        reduced(aggregator, votes, so_far) is Ok,
    ensures
        valid(reduced(aggregator, votes, so_far)->Ok_0),
    decreases votes.len(),
{
    if votes.len() > 0 {
        let next = combined(aggregator, so_far, votes[0])->Ok_0;
        lemma_reduced_valid(aggregator, votes.drop_first(), next);
    }
}

#[derive(Clone, Debug, PartialEq, Eq)]
pub struct Layer {
    /// Identifier of the layer, never given to another one.
    pub id: u32,
    /// The encoded weight of each neuron of the layer.
    pub neurons: OrderedMap<NeuronType, u32>,
    pub aggregator: LayerAggregator,
}

impl Layer {
    /// The neurons are in the order of their kinds.
    pub open spec fn wf(&self) -> bool {
        self.neurons.wf()
    }

    /// The votes of the layer's neurons, in the order of their kinds. A layer
    /// needs an aggregator and at least one neuron.
    pub open spec fn votes(
        &self,
        voter: Seq<char>,
        external_data: ExternalDataProvider,
        prior: Option<DecimalNumber>,
    ) -> Result<Seq<DecimalNumber>, VotingSystemError> {
        if self.aggregator == LayerAggregator::Unknown {
            Err(VotingSystemError::LayerAggregatorNotSet)
        } else if self.neurons.entries().len() == 0 {
            Err(VotingSystemError::NoNeuronsExist)
        } else {
            neuron_votes(self.neurons.entries(), voter, external_data, prior, Seq::empty())
        }
    }

    /// What the layer hands to the next one.
    pub open spec fn outcome(
        &self,
        voter: Seq<char>,
        external_data: ExternalDataProvider,
        prior: Option<DecimalNumber>,
    ) -> Result<DecimalNumber, VotingSystemError> {
        match self.votes(voter, external_data, prior) {
            Err(e) => Err(e),
            Ok(votes) => aggregated(self.aggregator, votes),
        }
    }

    /// What a layer hands on is a valid number.
    pub proof fn lemma_outcome_valid(
        &self,
        voter: Seq<char>,
        external_data: ExternalDataProvider,
        prior: Option<DecimalNumber>,
    )
        requires
            self.outcome(voter, external_data, prior) is Ok,
        ensures
            valid(self.outcome(voter, external_data, prior)->Ok_0),
    {
        let votes = self.votes(voter, external_data, prior)->Ok_0;
        lemma_neuron_votes_valid(self.neurons.entries(), voter, external_data, prior, Seq::empty());
        lemma_reduced_valid(self.aggregator, votes.drop_first(), votes[0]);
    }

    /// A layer without neurons or aggregator.
    pub fn new(id: u32) -> (res: Self)
        ensures
            res.wf(),
            res.id == id,
            res.neurons@ == Map::<NeuronType, u32>::empty(),
            res.neurons.entries().len() == 0,
            res.aggregator == LayerAggregator::Unknown,
    {
        Layer { id, neurons: OrderedMap::new(), aggregator: LayerAggregator::Unknown }
    }

    /// Sets the aggregator of the layer.
    pub fn set_layer_aggregator(&mut self, aggregator: LayerAggregator)
        ensures
            final(self).aggregator == aggregator,
            final(self).id == old(self).id,
            final(self).neurons == old(self).neurons,
    {
        self.aggregator = aggregator;
    }

    pub fn get_layer_aggregator(&self) -> (res: LayerAggregator)
        ensures
            res == self.aggregator,
    {
        self.aggregator
    }

    /// Adds a neuron with the default weight. A neuron that the layer
    /// already has keeps its weight.
    pub fn add_neuron(&mut self, neuron: NeuronType)
        requires
            old(self).wf(),
        ensures
            final(self).wf(),
            final(self).neurons@ == with_neuron(old(self).neurons@, neuron),
            final(self).id == old(self).id,
            final(self).aggregator == old(self).aggregator,
    {
        if !self.neurons.contains_key(&neuron) {
            self.neurons.set(neuron, DecimalNumberWrapper::of(DEFAULT_WEIGHT).as_raw());
        }
    }

    pub fn get_neurons(&self) -> (res: &OrderedMap<NeuronType, u32>)
        ensures
            *res == self.neurons,
    {
        &self.neurons
    }

    /// Runs every neuron of the layer for one voter and submission.
    pub fn execute_layer(
        &self,
        voter_id: &String,
        submission_id: &String,
        external_data: &ExternalDataProvider,
        previous_layer_vote: Option<DecimalNumber>,
    ) -> (res: Result<Vec<DecimalNumber>, VotingSystemError>)
        requires
            self.wf(),
            external_data.wf(),
        ensures
            res matches Ok(votes) ==> self.votes(voter_id@, *external_data, previous_layer_vote)
                == Ok::<Seq<DecimalNumber>, VotingSystemError>(votes@),
            res matches Err(e) ==> self.votes(voter_id@, *external_data, previous_layer_vote)
                == Err::<Seq<DecimalNumber>, VotingSystemError>(e),
    {
        match self.aggregator {
            LayerAggregator::Unknown => {
                return Err(VotingSystemError::LayerAggregatorNotSet);
            },
            _ => {},
        }
        let mut neuron_votes: Vec<DecimalNumber> = Vec::new();
        if self.neurons.is_empty() {
            return Err(VotingSystemError::NoNeuronsExist);
        }
        let ghost all = self.neurons.entries();
        let ghost goal = self.votes(voter_id@, *external_data, previous_layer_vote);
        let mut i: usize = 0;
        assert(all.skip(0) =~= all);
        while i < self.neurons.len()
            invariant
                i <= all.len(),
                all == self.neurons.entries(),
                goal == self.votes(voter_id@, *external_data, previous_layer_vote),
                self.wf(),
                external_data.wf(),
                self::neuron_votes(
                    all.skip(i as int),
                    voter_id@,
                    *external_data,
                    previous_layer_vote,
                    neuron_votes@,
                ) == goal,
            decreases all.len() - i,
        {
            assert(all.skip(i as int).drop_first() =~= all.skip(i + 1));
            assert(all.skip(i as int)[0] == all[i as int]);
            let neuron = *self.neurons.key_at(i);
            let raw_weight = *self.neurons.value_at(i);
            let raw_neuron_vote = match neuron {
                NeuronType::Dummy => dummy_neuron::oracle_function(
                    voter_id,
                    submission_id,
                    external_data,
                    previous_layer_vote,
                ),
                NeuronType::AssignedReputation => assigned_reputation_neuron::oracle_function(
                    voter_id,
                    submission_id,
                    external_data,
                    previous_layer_vote,
                ),
                NeuronType::PriorVotingHistory => prior_voting_history_neuron::oracle_function(
                    voter_id,
                    submission_id,
                    external_data,
                    previous_layer_vote,
                ),
                NeuronType::TrustGraph => trust_graph_neuron::oracle_function(
                    voter_id,
                    submission_id,
                    external_data,
                    previous_layer_vote,
                ),
            };
            let raw_neuron_vote = match raw_neuron_vote {
                Ok(vote) => vote,
                Err(e) => {
                    return Err(e);
                },
            };
            let neuron_vote = match self.run_neuron_weight_function(
                raw_neuron_vote,
                DecimalNumberWrapper::from_raw(raw_weight).as_tuple(),
            ) {
                Ok(vote) => vote,
                Err(e) => {
                    return Err(e);
                },
            };
            neuron_votes.push(neuron_vote);
            i += 1;
        }
        Ok(neuron_votes)
    }

    /// A raw vote times a weight.
    pub fn run_neuron_weight_function(
        &self,
        raw_neuron_vote: DecimalNumber,
        weight: DecimalNumber,
    ) -> (res: Result<DecimalNumber, VotingSystemError>)
        ensures
            res == product_of(raw_neuron_vote, weight),
    {
        checked_mul(raw_neuron_vote, weight)
    }

    /// Reduces the votes of the layer's neurons with the layer's aggregator.
    pub fn run_layer_aggregator(&self, neuron_votes: &Vec<DecimalNumber>) -> (res: Result<
        DecimalNumber,
        VotingSystemError,
    >)
        ensures
            res == aggregated(self.aggregator, neuron_votes@),
    {
        match self.aggregator {
            LayerAggregator::Unknown => {
                return Err(VotingSystemError::CannotRunUnknownLayerAggregator);
            },
            LayerAggregator::Sum => {
                if neuron_votes.len() == 0 {
                    return Err(VotingSystemError::ReducingvotesForSumAggregatorFailed);
                }
            },
            LayerAggregator::Product => {
                if neuron_votes.len() == 0 {
                    return Err(VotingSystemError::ReducingvotesForProductAggregatorFailed);
                }
            },
        }
        let ghost rest = neuron_votes@.drop_first();
        let ghost goal = aggregated(self.aggregator, neuron_votes@);
        let mut acc = neuron_votes[0];
        let mut i: usize = 1;
        assert(rest.skip(0) =~= rest);
        while i < neuron_votes.len()
            invariant
                1 <= i <= neuron_votes.len(),
                rest == neuron_votes@.drop_first(),
                goal == aggregated(self.aggregator, neuron_votes@),
                self.aggregator != LayerAggregator::Unknown,
                reduced(self.aggregator, rest.skip(i - 1), acc) == goal,
            decreases neuron_votes.len() - i,
        {
            assert(rest.skip(i - 1).drop_first() =~= rest.skip(i as int));
            assert(rest.skip(i - 1)[0] == neuron_votes@[i as int]);
            let item = neuron_votes[i];
            let next = match self.aggregator {
                LayerAggregator::Sum => checked_add(acc, item),
                _ => checked_mul(acc, item),
            };
            acc = match next {
                Ok(value) => value,
                Err(e) => {
                    return Err(e);
                },
            };
            i += 1;
        }
        Ok(acc)
    }
}

} // verus!
