//! Setting up the governance pipeline of a voting system: its layers, their
//! neurons, weights and aggregators.

use vstd::prelude::*;
use crate::decimal_number_wrapper::{decode, DecimalNumberWrapper};
use crate::external_data_provider::trust_ranks;
use crate::layer::{with_neuron, Layer};
use crate::neural_governance::{layer_added, layer_changed};
use crate::page_rank::{graph_size, nested_keys};
use crate::types::{
    layer_aggregator_from_str,
    layer_aggregator_named,
    neuron_type_from_str,
    neuron_type_named,
    DecimalNumber,
    LayerAggregator,
    NeuronType,
    VotingSystemError,
    DEFAULT_WEIGHT,
};
use crate::voting::VotingSystem;

verus! {

/// The kinds of neurons that the texts of a list name, each with the number
/// beside it, or a failure for the first text that names no kind.
pub open spec fn named_neurons(neurons: Seq<(String, u32)>) -> Result<
    Seq<(NeuronType, u32)>,
    VotingSystemError,
>
    decreases neurons.len(),
{
    if neurons.len() == 0 {
        Ok(Seq::empty())
    } else {
        match neuron_type_named(neurons[0].0@) {
            Err(e) => Err(e),
            Ok(neuron) => match named_neurons(neurons.drop_first()) {
                Err(e) => Err(e),
                Ok(rest) => Ok(seq![(neuron, neurons[0].1)] + rest),
            },
        }
    }
}

/// The weights of a layer after each of `neurons` has been added in turn. A
/// neuron gets the encoded weight beside it, unless that is zero or the
/// default weight: then a new neuron gets the default weight and one that is
/// there keeps its own.
pub open spec fn configured(neurons: Seq<(NeuronType, u32)>, weights: Map<NeuronType, u32>) -> Map<
    NeuronType,
    u32,
>
    decreases neurons.len(),
{
    if neurons.len() == 0 {
        weights
    } else {
        let added = with_neuron(weights, neurons[0].0);
        let weighted = if decode(neurons[0].1 as nat) != DEFAULT_WEIGHT && neurons[0].1 != 0 {
            added.insert(neurons[0].0, neurons[0].1)
        } else {
            added
        };
        configured(neurons.drop_first(), weighted)
    }
}

impl VotingSystem {
    /// Whether `self` is `other` but for the governance pipeline.
    pub open spec fn same_but_governance(&self, other: Self) -> bool {
        &&& self.votes == other.votes
        &&& self.delegatees == other.delegatees
        &&& self.external_data_provider == other.external_data_provider
        &&& self.voting_powers == other.voting_powers
    }

    /// Appends an empty layer to the pipeline and hands back its identifier.
    pub fn add_layer(&mut self) -> (res: Result<u32, VotingSystemError>)
        requires
            old(self).wf(),
        ensures
            final(self).wf(),
            final(self).same_but_governance(*old(self)),
            res is Err ==> final(self).neural_governance == old(self).neural_governance,
            old(self).neural_governance is None ==> res == Err::<u32, VotingSystemError>(
                VotingSystemError::NeuralGovernanceNotSet,
            ),
            old(self).neural_governance matches Some(before) ==> if before.current_layer_id
                == u32::MAX {
                res == Err::<u32, VotingSystemError>(VotingSystemError::ArithmeticOverflow)
            } else {
                res matches Ok(id) && (final(self).neural_governance matches Some(after)
                    && layer_added(before, after, id))
            },
    {
        match &mut self.neural_governance {
            None => Err(VotingSystemError::NeuralGovernanceNotSet),
            Some(neural_governance) => {
                if neural_governance.current_layer_id == u32::MAX {
                    return Err(VotingSystemError::ArithmeticOverflow);
                }
                Ok(neural_governance.add_layer())
            },
        }
    }

    /// Takes a layer out of the pipeline.
    pub fn remove_layer(&mut self, layer_id: u32) -> (res: Result<(), VotingSystemError>)
        requires
            old(self).wf(),
        ensures
            final(self).wf(),
            final(self).same_but_governance(*old(self)),
            res is Err ==> final(self).neural_governance == old(self).neural_governance,
            old(self).neural_governance is None ==> res == Err::<(), VotingSystemError>(
                VotingSystemError::NeuralGovernanceNotSet,
            ),
            old(self).neural_governance matches Some(before) ==> if !before.has_layer(layer_id) {
                res == Err::<(), VotingSystemError>(VotingSystemError::NoSuchLayer)
            } else {
                res.is_ok() && (final(self).neural_governance matches Some(after)
                    && after.current_layer_id == before.current_layer_id && after.layers@
                    == before.layers@.remove(before.index_of(layer_id)))
            },
    {
        match &mut self.neural_governance {
            None => Err(VotingSystemError::NeuralGovernanceNotSet),
            Some(neural_governance) => neural_governance.remove_layer(layer_id),
        }
    }

    /// Sets the aggregator of a layer to the one that the text names.
    pub fn set_layer_aggregator(&mut self, layer_id: u32, aggregator: &str) -> (res: Result<
        (),
        VotingSystemError,
    >)
        requires
            old(self).wf(),
        ensures
            final(self).wf(),
            final(self).same_but_governance(*old(self)),
            res is Err ==> final(self).neural_governance == old(self).neural_governance,
            old(self).neural_governance is None ==> res == Err::<(), VotingSystemError>(
                VotingSystemError::NeuralGovernanceNotSet,
            ),
            old(self).neural_governance matches Some(before) ==> if !before.has_layer(layer_id) {
                res == Err::<(), VotingSystemError>(VotingSystemError::NoSuchLayer)
            } else {
                res.is_ok() && (final(self).neural_governance matches Some(after) && layer_changed(
                    before,
                    after,
                    layer_id,
                    before.layer(layer_id).neurons@,
                    layer_aggregator_named(aggregator@),
                ))
            },
    {
        match &mut self.neural_governance {
            None => Err(VotingSystemError::NeuralGovernanceNotSet),
            Some(neural_governance) => {
                let layer_aggregator: LayerAggregator = layer_aggregator_from_str(aggregator);
                neural_governance.set_layer_aggregator(layer_id, layer_aggregator)
            },
        }
    }

    /// Adds the neuron that the text names to a layer, with the default
    /// weight unless the layer has it already.
    pub fn add_neuron(&mut self, layer_id: u32, neuron: &str) -> (res: Result<
        (),
        VotingSystemError,
    >)
        requires
            old(self).wf(),
        ensures
            final(self).wf(),
            final(self).same_but_governance(*old(self)),
            res is Err ==> final(self).neural_governance == old(self).neural_governance,
            old(self).neural_governance is None ==> res == Err::<(), VotingSystemError>(
                VotingSystemError::NeuralGovernanceNotSet,
            ),
            old(self).neural_governance matches Some(before) ==> match neuron_type_named(neuron@) {
                Err(e) => res == Err::<(), VotingSystemError>(e),
                Ok(kind) => if !before.has_layer(layer_id) {
                    res == Err::<(), VotingSystemError>(VotingSystemError::NoSuchLayer)
                } else {
                    res.is_ok() && (final(self).neural_governance matches Some(after)
                        && layer_changed(
                        before,
                        after,
                        layer_id,
                        with_neuron(before.layer(layer_id).neurons@, kind),
                        before.layer(layer_id).aggregator,
                    ))
                },
            },
    {
        match &mut self.neural_governance {
            None => Err(VotingSystemError::NeuralGovernanceNotSet),
            Some(neural_governance) => {
                let neuron = match neuron_type_from_str(neuron) {
                    Ok(neuron) => neuron,
                    Err(e) => {
                        return Err(e);
                    },
                };
                neural_governance.add_neuron(layer_id, neuron)
            },
        }
    }

    /// Takes the neuron that the text names out of a layer.
    pub fn remove_neuron(&mut self, layer_id: u32, neuron: &str) -> (res: Result<
        (),
        VotingSystemError,
    >)
        requires
            old(self).wf(),
        ensures
            final(self).wf(),
            final(self).same_but_governance(*old(self)),
            res is Err ==> final(self).neural_governance == old(self).neural_governance,
            old(self).neural_governance is None ==> res == Err::<(), VotingSystemError>(
                VotingSystemError::NeuralGovernanceNotSet,
            ),
            old(self).neural_governance matches Some(before) ==> match neuron_type_named(neuron@) {
                Err(e) => res == Err::<(), VotingSystemError>(e),
                Ok(kind) => if !before.has_layer(layer_id) {
                    res == Err::<(), VotingSystemError>(VotingSystemError::NoSuchLayer)
                } else {
                    res.is_ok() && (final(self).neural_governance matches Some(after)
                        && layer_changed(
                        before,
                        after,
                        layer_id,
                        before.layer(layer_id).neurons@.remove(kind),
                        before.layer(layer_id).aggregator,
                    ))
                },
            },
    {
        match &mut self.neural_governance {
            None => Err(VotingSystemError::NeuralGovernanceNotSet),
            Some(neural_governance) => {
                let neuron = match neuron_type_from_str(neuron) {
                    Ok(neuron) => neuron,
                    Err(e) => {
                        return Err(e);
                    },
                };
                neural_governance.remove_neuron(layer_id, neuron)
            },
        }
    }

    /// Sets the weight of the neuron that the text names to the weight with
    /// the given encoding; the layer gets the neuron if it does not have it.
    pub fn set_neuron_weight(&mut self, layer_id: u32, neuron: &str, weight: u32) -> (res: Result<
        (),
        VotingSystemError,
    >)
        requires
            old(self).wf(),
        ensures
            final(self).wf(),
            final(self).same_but_governance(*old(self)),
            res is Err ==> final(self).neural_governance == old(self).neural_governance,
            old(self).neural_governance is None ==> res == Err::<(), VotingSystemError>(
                VotingSystemError::NeuralGovernanceNotSet,
            ),
            old(self).neural_governance matches Some(before) ==> match neuron_type_named(neuron@) {
                Err(e) => res == Err::<(), VotingSystemError>(e),
                Ok(kind) => if !before.has_layer(layer_id) {
                    res == Err::<(), VotingSystemError>(VotingSystemError::NoSuchLayer)
                } else {
                    res.is_ok() && (final(self).neural_governance matches Some(after)
                        && layer_changed(
                        before,
                        after,
                        layer_id,
                        before.layer(layer_id).neurons@.insert(kind, weight),
                        before.layer(layer_id).aggregator,
                    ))
                },
            },
    {
        match &mut self.neural_governance {
            None => Err(VotingSystemError::NeuralGovernanceNotSet),
            Some(neural_governance) => {
                let neuron = match neuron_type_from_str(neuron) {
                    Ok(neuron) => neuron,
                    Err(e) => {
                        return Err(e);
                    },
                };
                let weight = DecimalNumberWrapper::from_raw(weight).as_tuple();
                neural_governance.set_neuron_weight(layer_id, neuron, weight)
            },
        }
    }

    /// The kinds of neurons that the texts of a list name.
    fn name_neurons(neurons: &Vec<(String, u32)>) -> (res: Result<
        Vec<(NeuronType, u32)>,
        VotingSystemError,
    >)
        ensures
            res matches Ok(named) ==> named_neurons(neurons@) == Ok::<
                Seq<(NeuronType, u32)>,
                VotingSystemError,
            >(named@),
            res matches Err(e) ==> named_neurons(neurons@) == Err::<
                Seq<(NeuronType, u32)>,
                VotingSystemError,
            >(e),
    {
        let ghost all = neurons@;
        let mut named: Vec<(NeuronType, u32)> = Vec::new();
        let mut i: usize = 0;
        assert(all.skip(0) =~= all);
        assert(named_neurons(all) is Ok ==> named@ + named_neurons(all)->Ok_0 =~= named_neurons(
            all,
        )->Ok_0);
        while i < neurons.len()
            invariant
                i <= all.len(),
                all == neurons@,
                named_neurons(all) == match named_neurons(all.skip(i as int)) {
                    Err(e) => Err(e),
                    Ok(rest) => Ok(named@ + rest),
                },
            decreases all.len() - i,
        {
            assert(all.skip(i as int).drop_first() =~= all.skip(i + 1));
            assert(all.skip(i as int)[0] == all[i as int]);
            let ghost before = named@;
            let ghost rest = named_neurons(all.skip(i + 1));
            let neuron = match neuron_type_from_str(neurons[i].0.as_str()) {
                Ok(neuron) => neuron,
                Err(e) => {
                    return Err(e);
                },
            };
            named.push((neuron, neurons[i].1));
            proof {
                if rest is Ok {
                    assert(before + (seq![(neuron, neurons@[i as int].1)] + rest->Ok_0)
                        =~= before.push((neuron, neurons@[i as int].1)) + rest->Ok_0);
                }
            }
            i += 1;
        }
        assert(named@ + Seq::<(NeuronType, u32)>::empty() =~= named@);
        Ok(named)
    }

    /// Appends a layer with the given aggregator and neurons to the pipeline.
    /// Each neuron is named by its text and paired with the encoding of its
    /// weight; zero stands for the default weight. Nothing changes if a text
    /// names no kind of neuron.
    pub fn setup_layer(&mut self, layer_aggregator: &str, neurons: &Vec<(String, u32)>) -> (res:
        Result<(), VotingSystemError>)
        requires
            old(self).wf(),
        ensures
            final(self).wf(),
            final(self).same_but_governance(*old(self)),
            res is Err ==> final(self).neural_governance == old(self).neural_governance,
            old(self).neural_governance is None ==> res == Err::<(), VotingSystemError>(
                VotingSystemError::NeuralGovernanceNotSet,
            ),
            old(self).neural_governance matches Some(before) ==> if before.current_layer_id
                == u32::MAX {
                res == Err::<(), VotingSystemError>(VotingSystemError::ArithmeticOverflow)
            } else {
                match named_neurons(neurons@) {
                    Err(e) => res == Err::<(), VotingSystemError>(e),
                    Ok(named) => res.is_ok() && (final(self).neural_governance matches Some(after)
                        && after.current_layer_id == before.current_layer_id + 1
                        && after.layers@.len() == before.layers@.len() + 1
                        && after.layers@.drop_last() == before.layers@ && after.layers@.last().id
                        == before.current_layer_id && after.layers@.last().aggregator
                        == layer_aggregator_named(layer_aggregator@)
                        && after.layers@.last().neurons@ == configured(named, Map::empty())),
                }
            },
    {
        match &mut self.neural_governance {
            None => Err(VotingSystemError::NeuralGovernanceNotSet),
            Some(neural_governance) => {
                if neural_governance.current_layer_id == u32::MAX {
                    return Err(VotingSystemError::ArithmeticOverflow);
                }
                let named = match Self::name_neurons(neurons) {
                    Ok(named) => named,
                    Err(e) => {
                        return Err(e);
                    },
                };
                let layer_id = neural_governance.current_layer_id;
                let mut layer = Layer::new(layer_id);
                layer.set_layer_aggregator(layer_aggregator_from_str(layer_aggregator));
                let ghost all = named@;
                let ghost goal = configured(all, Map::empty());
                let mut i: usize = 0;
                assert(all.skip(0) =~= all);
                while i < named.len()
                    invariant
                        i <= all.len(),
                        all == named@,
                        layer.wf(),
                        layer.id == layer_id,
                        layer.aggregator == layer_aggregator_named(layer_aggregator@),
                        configured(all.skip(i as int), layer.neurons@) == goal,
                    decreases all.len() - i,
                {
                    assert(all.skip(i as int).drop_first() =~= all.skip(i + 1));
                    assert(all.skip(i as int)[0] == all[i as int]);
                    let neuron = named[i].0;
                    let neuron_weight = named[i].1;
                    layer.add_neuron(neuron);
                    let weight = DecimalNumberWrapper::from_raw(neuron_weight).as_tuple();
                    if (weight.0 != DEFAULT_WEIGHT.0 || weight.1 != DEFAULT_WEIGHT.1)
                        && neuron_weight != 0 {
                        layer.neurons.set(neuron, neuron_weight);
                    }
                    i += 1;
                }
                let ghost before = neural_governance.layers@;
                neural_governance.layers.push(layer);
                neural_governance.current_layer_id = layer_id + 1;
                proof {
                    assert(neural_governance.layers@.drop_last() =~= before);
                    assert forall|a: int, b: int|
                        0 <= a < b < neural_governance.layers@.len() implies (
                    #[trigger] neural_governance.layers@[a]).id != (
                    #[trigger] neural_governance.layers@[b]).id by {
                        if b < before.len() {
                            assert(neural_governance.layers@[a] == before[a]);
                            assert(neural_governance.layers@[b] == before[b]);
                        } else {
                            assert(neural_governance.layers@[a] == before[a]);
                        }
                    }
                }
                Ok(())
            },
        }
    }

    /// Calculates the trust rank of every user of the trust map and keeps
    /// the ranks with the outside data. The calculation fails only for a
    /// trust map that is too large.
    pub fn calculate_page_rank(&mut self) -> (res: Result<(), VotingSystemError>)
        requires
            old(self).wf(),
        ensures
            final(self).wf(),
            final(self).votes == old(self).votes,
            final(self).delegatees == old(self).delegatees,
            final(self).neural_governance == old(self).neural_governance,
            final(self).voting_powers == old(self).voting_powers,
            old(self).external_data_provider is None ==> res == Err::<(), VotingSystemError>(
                VotingSystemError::ExternalDataProviderNotSet,
            ) && final(self).external_data_provider is None,
            old(self).external_data_provider matches Some(before) ==> (res is Err
                <==> before.trust_map.entries().len() > 0 && graph_size(
                nested_keys(before.trust_map),
            ) > u32::MAX),
            old(self).external_data_provider matches Some(before) ==> (final(
                self
            ).external_data_provider matches Some(after) && after.same_but_page_ranks(before) && (
            res matches Ok(_) ==> trust_ranks(nested_keys(before.trust_map)) == Ok::<
                Map<Seq<char>, DecimalNumber>,
                VotingSystemError,
            >(after.page_rank_result@)) && (res matches Err(e) ==> trust_ranks(
                nested_keys(before.trust_map),
            ) == Err::<Map<Seq<char>, DecimalNumber>, VotingSystemError>(e)
                && after.page_rank_result == before.page_rank_result)),
    {
        match &mut self.external_data_provider {
            None => Err(VotingSystemError::ExternalDataProviderNotSet),
            Some(external_data) => external_data.calculate_page_rank(),
        }
    }
}

} // verus!
