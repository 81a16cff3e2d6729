//! Neural governance: an ordered pipeline of layers. Each layer's outcome is
//! carried into the next one; the last outcome is the voter's voting power.

use vstd::prelude::*;
use crate::decimal_number_wrapper::{encode, valid, DecimalNumberWrapper};
use crate::external_data_provider::ExternalDataProvider;
use crate::layer::{with_neuron, Layer};
use crate::types::{DecimalNumber, LayerAggregator, NeuronType, VotingSystemError};

verus! {

/// The outcome of running `layers` in order, starting from `carried`.
pub open spec fn layers_outcome(
    layers: Seq<Layer>,
    voter: Seq<char>,
    external_data: ExternalDataProvider,
    carried: Option<DecimalNumber>,
) -> Result<Option<DecimalNumber>, VotingSystemError>
    decreases layers.len(),
{
    if layers.len() == 0 {
        Ok(carried)
    } else {
        match layers[0].outcome(voter, external_data, carried) {
            Err(e) => Err(e),
            Ok(value) => layers_outcome(layers.drop_first(), voter, external_data, Some(value)),
        }
    }
}

/// Whether `after` is `before` with nothing but the neurons and the
/// aggregator of the layer at `index` touched.
pub open spec fn same_but(before: Seq<Layer>, after: Seq<Layer>, index: int) -> bool {
    &&& after.len() == before.len()
    &&& 0 <= index < before.len()
    &&& after[index].id == before[index].id
    &&& forall|j: int| 0 <= j < before.len() && j != index ==> #[trigger] after[j] == before[j]
}

/// Whether `after` is `before` with one more layer at its end: an empty one
/// with the identifier `id`.
pub open spec fn layer_added(before: NeuralGovernance, after: NeuralGovernance, id: u32) -> bool {
    &&& id == before.current_layer_id
    &&& after.current_layer_id == id + 1
    &&& after.layers@.len() == before.layers@.len() + 1
    &&& forall|i: int|
        0 <= i < before.layers@.len() ==> #[trigger] after.layers@[i] == before.layers@[i]
    &&& after.layers@.last().id == id
    &&& after.layers@.last().neurons@ == Map::<NeuronType, u32>::empty()
    &&& after.layers@.last().aggregator == LayerAggregator::Unknown
}

/// Whether `after` is `before` with nothing changed but the layer with the
/// identifier `layer_id`, which now has the given neurons and aggregator.
pub open spec fn layer_changed(
    before: NeuralGovernance,
    after: NeuralGovernance,
    layer_id: u32,
    neurons: Map<NeuronType, u32>,
    aggregator: LayerAggregator,
) -> bool {
    &&& before.has_layer(layer_id)
    &&& after.current_layer_id == before.current_layer_id
    &&& same_but(before.layers@, after.layers@, before.index_of(layer_id))
    &&& after.layers@[before.index_of(layer_id)].neurons@ == neurons
    &&& after.layers@[before.index_of(layer_id)].aggregator == aggregator
}

#[derive(Clone, Debug, PartialEq, Eq)]
pub struct NeuralGovernance {
    pub layers: Vec<Layer>,
    /// Identifier that the next new layer gets.
    pub current_layer_id: u32,
}

impl NeuralGovernance {
    /// Every layer is well formed, and no identifier is used twice or could be
    /// given out again.
    pub open spec fn wf(&self) -> bool {
        &&& forall|i: int| 0 <= i < self.layers@.len() ==> (#[trigger] self.layers@[i]).wf()
        &&& forall|i: int|
            0 <= i < self.layers@.len() ==> (#[trigger] self.layers@[i]).id < self.current_layer_id
        &&& forall|i: int, j: int|
            0 <= i < j < self.layers@.len() ==> (#[trigger] self.layers@[i]).id != (
            #[trigger] self.layers@[j]).id
    }

    /// Whether some layer has the identifier.
    pub open spec fn has_layer(&self, layer_id: u32) -> bool {
        exists|i: int| 0 <= i < self.layers@.len() && (#[trigger] self.layers@[i]).id == layer_id
    }

    /// Position of the layer with the given identifier.
    pub open spec fn index_of(&self, layer_id: u32) -> int {
        choose|i: int| 0 <= i < self.layers@.len() && (#[trigger] self.layers@[i]).id == layer_id
    }

    /// The layer with the given identifier.
    pub open spec fn layer(&self, layer_id: u32) -> Layer {
        self.layers@[self.index_of(layer_id)]
    }

    /// Voting power of a voter: the outcome of the last layer.
    pub open spec fn voting_power(
        &self,
        voter: Seq<char>,
        external_data: ExternalDataProvider,
    ) -> Result<DecimalNumber, VotingSystemError> {
        match layers_outcome(self.layers@, voter, external_data, None) {
            Err(e) => Err(e),
            Ok(None) => Err(VotingSystemError::NoLayersExist),
            Ok(Some(value)) => Ok(value),
        }
    }

    /// Every voting power is a valid number.
    pub proof fn lemma_voting_power_valid(
        &self,
        voter: Seq<char>,
        external_data: ExternalDataProvider,
    )
        requires
            self.voting_power(voter, external_data) is Ok,
        ensures
            valid(self.voting_power(voter, external_data)->Ok_0),
    {
        lemma_layers_outcome_valid(self.layers@, voter, external_data, None);
    }

    /// Whether the pipeline is well formed.
    pub fn is_well_formed(&self) -> (res: bool)
        ensures
            res == self.wf(),
    {
        let mut i: usize = 0;
        while i < self.layers.len()
            invariant
                i <= self.layers@.len(),
                forall|t: int| 0 <= t < i ==> (#[trigger] self.layers@[t]).wf(),
                forall|t: int| 0 <= t < i ==> (#[trigger] self.layers@[t]).id < self.current_layer_id,
                forall|a: int, b: int|
                    0 <= a < b < i ==> (#[trigger] self.layers@[a]).id != (
                    #[trigger] self.layers@[b]).id,
            decreases self.layers@.len() - i,
        {
            if !self.layers[i].neurons.is_well_formed() || self.layers[i].id
                >= self.current_layer_id {
                return false;
            }
            let mut j: usize = 0;
            while j < i
                invariant
                    j <= i < self.layers@.len(),
                    forall|a: int| 0 <= a < j ==> (#[trigger] self.layers@[a]).id != self.layers@[i as int].id,
                decreases i - j,
            {
                if self.layers[j].id == self.layers[i].id {
                    return false;
                }
                j += 1;
            }
            i += 1;
        }
        true
    }

    /// A pipeline without layers.
    pub fn new() -> (res: Self)
        ensures
            res.wf(),
            res.layers@.len() == 0,
            res.current_layer_id == 0,
    {
        NeuralGovernance { layers: Vec::new(), current_layer_id: 0 }
    }

    pub fn get_layers(&self) -> (res: &Vec<Layer>)
        ensures
            *res == self.layers,
    {
        &self.layers
    }

    /// Appends an empty layer and hands back its identifier.
    pub fn add_layer(&mut self) -> (res: u32)
        requires
            old(self).wf(),
            old(self).current_layer_id < u32::MAX,
        ensures
            final(self).wf(),
            layer_added(*old(self), *final(self), res),
    {
        let result = self.current_layer_id;
        self.layers.push(Layer::new(result));
        self.current_layer_id = result + 1;
        result
    }

    /// Position of the layer with the given identifier.
    pub fn get_layer_index(&self, layer_id: u32) -> (res: Result<usize, VotingSystemError>)
        requires
            self.wf(),
        ensures
            res.is_ok() == self.has_layer(layer_id),
            res matches Ok(index) ==> index == self.index_of(layer_id) && index
                < self.layers@.len() && self.layers@[index as int].id == layer_id,
            res matches Err(e) ==> e == VotingSystemError::NoSuchLayer,
    {
        let mut i: usize = 0;
        while i < self.layers.len()
            invariant
                i <= self.layers@.len(),
                self.wf(),
                forall|j: int| 0 <= j < i ==> (#[trigger] self.layers@[j]).id != layer_id,
            decreases self.layers@.len() - i,
        {
            if self.layers[i].id == layer_id {
                proof {
                    let chosen = self.index_of(layer_id);
                    assert(self.layers@[i as int].id == layer_id);
                    if chosen < i {
                        assert(self.layers@[chosen].id != self.layers@[i as int].id);
                    } else if chosen > i {
                        assert(self.layers@[i as int].id != self.layers@[chosen].id);
                    }
                }
                return Ok(i);
            }
            i += 1;
        }
        Err(VotingSystemError::NoSuchLayer)
    }

    /// Takes the layer with the given identifier out of the pipeline. The
    /// identifiers of the other layers stay as they are.
    pub fn remove_layer(&mut self, layer_id: u32) -> (res: Result<(), VotingSystemError>)
        requires
            old(self).wf(),
        ensures
            final(self).wf(),
            final(self).current_layer_id == old(self).current_layer_id,
            old(self).has_layer(layer_id) ==> res.is_ok() && final(self).layers@ == old(
                self,
            ).layers@.remove(old(self).index_of(layer_id)),
            !old(self).has_layer(layer_id) ==> res == Err::<(), VotingSystemError>(
                VotingSystemError::NoSuchLayer,
            ) && *final(self) == *old(self),
    {
        let index = match self.get_layer_index(layer_id) {
            Ok(index) => index,
            Err(e) => {
                return Err(e);
            },
        };
        self.layers.remove(index);
        proof {
            let before = old(self).layers@;
            let after = self.layers@;
            assert forall|i: int| 0 <= i < after.len() implies (#[trigger] after[i]).wf()
                && after[i].id < self.current_layer_id by {
                let b = if i < index { i } else { i + 1 };
                assert(after[i] == before[b]);
            }
            assert forall|i: int, j: int| 0 <= i < j < after.len() implies (#[trigger] after[i]).id
                != (#[trigger] after[j]).id by {
                let bi = if i < index { i } else { i + 1 };
                let bj = if j < index { j } else { j + 1 };
                assert(after[i] == before[bi]);
                assert(after[j] == before[bj]);
            }
        }
        Ok(())
    }

    /// Adds a neuron with the default weight to a layer. A neuron that the
    /// layer already has keeps its weight.
    pub fn add_neuron(&mut self, layer_id: u32, neuron: NeuronType) -> (res: Result<
        (),
        VotingSystemError,
    >)
        requires
            old(self).wf(),
        ensures
            final(self).wf(),
            final(self).current_layer_id == old(self).current_layer_id,
            !old(self).has_layer(layer_id) ==> res == Err::<(), VotingSystemError>(
                VotingSystemError::NoSuchLayer,
            ) && *final(self) == *old(self),
            old(self).has_layer(layer_id) ==> res.is_ok() && layer_changed(
                *old(self),
                *final(self),
                layer_id,
                with_neuron(old(self).layer(layer_id).neurons@, neuron),
                old(self).layer(layer_id).aggregator,
            ),
    {
        let index = match self.get_layer_index(layer_id) {
            Ok(index) => index,
            Err(e) => {
                return Err(e);
            },
        };
        let mut new_layer = self.layers.remove(index);
        new_layer.add_neuron(neuron);
        proof {
            lemma_layer_replaced(*old(self), index as int, new_layer);
        }
        self.layers.insert(index, new_layer);
        Ok(())
    }

    /// Takes a neuron out of a layer.
    pub fn remove_neuron(&mut self, layer_id: u32, neuron: NeuronType) -> (res: Result<
        (),
        VotingSystemError,
    >)
        requires
            old(self).wf(),
        ensures
            final(self).wf(),
            final(self).current_layer_id == old(self).current_layer_id,
            !old(self).has_layer(layer_id) ==> res == Err::<(), VotingSystemError>(
                VotingSystemError::NoSuchLayer,
            ) && *final(self) == *old(self),
            old(self).has_layer(layer_id) ==> res.is_ok() && layer_changed(
                *old(self),
                *final(self),
                layer_id,
                old(self).layer(layer_id).neurons@.remove(neuron),
                old(self).layer(layer_id).aggregator,
            ),
    {
        let index = match self.get_layer_index(layer_id) {
            Ok(index) => index,
            Err(e) => {
                return Err(e);
            },
        };
        let mut new_layer = self.layers.remove(index);
        new_layer.neurons.remove(&neuron);
        proof {
            lemma_layer_replaced(*old(self), index as int, new_layer);
        }
        self.layers.insert(index, new_layer);
        Ok(())
    }

    /// Sets the aggregator of a layer.
    pub fn set_layer_aggregator(&mut self, layer_id: u32, aggregator: LayerAggregator) -> (res:
        Result<(), VotingSystemError>)
        requires
            old(self).wf(),
        ensures
            final(self).wf(),
            final(self).current_layer_id == old(self).current_layer_id,
            !old(self).has_layer(layer_id) ==> res == Err::<(), VotingSystemError>(
                VotingSystemError::NoSuchLayer,
            ) && *final(self) == *old(self),
            old(self).has_layer(layer_id) ==> res.is_ok() && layer_changed(
                *old(self),
                *final(self),
                layer_id,
                old(self).layer(layer_id).neurons@,
                aggregator,
            ),
    {
        let index = match self.get_layer_index(layer_id) {
            Ok(index) => index,
            Err(e) => {
                return Err(e);
            },
        };
        let mut new_layer = self.layers.remove(index);
        new_layer.set_layer_aggregator(aggregator);
        proof {
            lemma_layer_replaced(*old(self), index as int, new_layer);
        }
        self.layers.insert(index, new_layer);
        Ok(())
    }

    /// Sets the weight of a neuron of a layer; the layer gets the neuron if it
    /// does not have it yet. The weight must be a number whose encoding fits
    /// in 32 bits.
    pub fn set_neuron_weight(
        &mut self,
        layer_id: u32,
        neuron: NeuronType,
        weight: DecimalNumber,
    ) -> (res: Result<(), VotingSystemError>)
        requires
            old(self).wf(),
        ensures
            final(self).wf(),
            final(self).current_layer_id == old(self).current_layer_id,
            res.is_err() ==> *final(self) == *old(self),
            res == Self::weight_change(old(self).has_layer(layer_id), weight),
            res.is_ok() ==> layer_changed(
                *old(self),
                *final(self),
                layer_id,
                old(self).layer(layer_id).neurons@.insert(neuron, encode(weight) as u32),
                old(self).layer(layer_id).aggregator,
            ),
    {
        let index = match self.get_layer_index(layer_id) {
            Ok(index) => index,
            Err(e) => {
                return Err(e);
            },
        };
        let weight = match DecimalNumberWrapper::from_tuple(weight) {
            Ok(weight) => weight,
            Err(e) => {
                return Err(e);
            },
        };
        let raw_weight = match weight.checked_as_raw() {
            Some(raw_weight) => raw_weight,
            None => {
                return Err(VotingSystemError::ArithmeticOverflow);
            },
        };
        let mut new_layer = self.layers.remove(index);
        new_layer.neurons.set(neuron, raw_weight);
        proof {
            lemma_layer_replaced(*old(self), index as int, new_layer);
        }
        self.layers.insert(index, new_layer);
        Ok(())
    }

    /// Whether a weight can be set: the layer must exist, and the weight must
    /// be a number whose encoding fits in 32 bits.
    pub open spec fn weight_change(has_layer: bool, weight: DecimalNumber) -> Result<
        (),
        VotingSystemError,
    > {
        if !has_layer {
            Err(VotingSystemError::NoSuchLayer)
        } else if !valid(weight) {
            Err(VotingSystemError::InvalidFractional)
        } else if encode(weight) > u32::MAX {
            Err(VotingSystemError::ArithmeticOverflow)
        } else {
            Ok(())
        }
    }

    /// Runs the layers in order for one voter and submission. The first layer
    /// is handed no value; each later one is handed the outcome of the layer
    /// before it.
    pub fn execute_neural_governance(
        &self,
        voter_id: &String,
        submission_id: &String,
        external_data: &ExternalDataProvider,
    ) -> (res: Result<DecimalNumber, VotingSystemError>)
        requires
            self.wf(),
            external_data.wf(),
        ensures
            res == self.voting_power(voter_id@, *external_data),
    {
        if self.layers.len() == 0 {
            return Err(VotingSystemError::NoLayersExist);
        }
        let ghost all = self.layers@;
        let ghost goal = layers_outcome(all, voter_id@, *external_data, None);
        let mut current_layer_result: Option<DecimalNumber> = None;
        let mut i: usize = 0;
        assert(all.skip(0) =~= all);
        while i < self.layers.len()
            invariant
                i <= all.len(),
                all == self.layers@,
                all.len() > 0,
                self.wf(),
                external_data.wf(),
                goal == layers_outcome(all, voter_id@, *external_data, None),
                layers_outcome(all.skip(i as int), voter_id@, *external_data, current_layer_result)
                    == goal,
                i > 0 ==> current_layer_result.is_some(),
            decreases all.len() - i,
        {
            assert(all.skip(i as int).drop_first() =~= all.skip(i + 1));
            assert(all.skip(i as int)[0] == all[i as int]);
            let layer = &self.layers[i];
            let layer_result = match layer.execute_layer(
                voter_id,
                submission_id,
                external_data,
                current_layer_result,
            ) {
                Ok(votes) => votes,
                Err(e) => {
                    return Err(e);
                },
            };
            let aggregate = match layer.run_layer_aggregator(&layer_result) {
                Ok(value) => value,
                Err(e) => {
                    return Err(e);
                },
            };
            current_layer_result = Some(aggregate);
            i += 1;
        }
        match current_layer_result {
            Some(value) => Ok(value),
            None => Err(VotingSystemError::NoLayersExist),
        }
    }
}

/// What a pipeline of layers hands on is a valid number, if what was handed
/// to it is one.
pub proof fn lemma_layers_outcome_valid(
    layers: Seq<Layer>,
    voter: Seq<char>,
    external_data: ExternalDataProvider,
    carried: Option<DecimalNumber>,
)
    requires
        carried matches Some(value) ==> valid(value),
        layers_outcome(layers, voter, external_data, carried) is Ok,
    ensures
        layers_outcome(layers, voter, external_data, carried)->Ok_0 matches Some(value) ==> valid(
            value,
        ),
    decreases layers.len(),
{
    if layers.len() > 0 {
        layers[0].lemma_outcome_valid(voter, external_data, carried);
        let value = layers[0].outcome(voter, external_data, carried)->Ok_0;
        lemma_layers_outcome_valid(layers.drop_first(), voter, external_data, Some(value));
    }
}

/// Putting a changed layer back where it was taken from keeps the pipeline
/// well formed, as long as the layer kept its identifier.
pub proof fn lemma_layer_replaced(before: NeuralGovernance, index: int, layer: Layer)
    requires
        before.wf(),
        0 <= index < before.layers@.len(),
        layer.wf(),
        layer.id == before.layers@[index].id,
    ensures
        before.layers@.remove(index).insert(index, layer) == before.layers@.update(index, layer),
        same_but(before.layers@, before.layers@.update(index, layer), index),
        ({
            let after = before.layers@.update(index, layer);
            &&& forall|i: int| 0 <= i < after.len() ==> (#[trigger] after[i]).wf()
            &&& forall|i: int| 0 <= i < after.len() ==> (#[trigger] after[i]).id
                < before.current_layer_id
            &&& forall|i: int, j: int|
                0 <= i < j < after.len() ==> (#[trigger] after[i]).id != (#[trigger] after[j]).id
        }),
{
    let after = before.layers@.update(index, layer);
    assert(before.layers@.remove(index).insert(index, layer) =~= after);
    assert forall|i: int, j: int| 0 <= i < j < after.len() implies (#[trigger] after[i]).id != (
    #[trigger] after[j]).id by {
        assert(after[i].id == before.layers@[i].id);
        assert(after[j].id == before.layers@[j].id);
    }
}

} // verus!
