use voting_system::external_data_provider::ExternalDataProvider;
use voting_system::layer::Layer;
use voting_system::neural_governance::NeuralGovernance;
use voting_system::neurons::dummy_neuron;
use voting_system::types::{DecimalNumber, LayerAggregator, NeuronType, VotingSystemError};

fn id(name: &str) -> String {
    name.to_string()
}

fn aggregate(aggregator: LayerAggregator, votes: &Vec<DecimalNumber>) -> Result<DecimalNumber, VotingSystemError> {
    let mut layer = Layer::new(0);
    layer.aggregator = aggregator;
    layer.run_layer_aggregator(votes)
}

fn simple_neuron(prior: Option<DecimalNumber>) -> DecimalNumber {
    let external_data = ExternalDataProvider::new();
    let raw_neuron_vote =
        dummy_neuron::oracle_function(&id("user001"), &id("project001"), &external_data, prior)
            .unwrap();
    Layer::new(0).run_neuron_weight_function(raw_neuron_vote, (2, 0)).unwrap()
}

#[test]
fn test_setting_layers() {
    let mut neural_governance = NeuralGovernance::new();

    assert!(neural_governance.layers.is_empty());
    neural_governance.add_layer();
    neural_governance.add_layer();
    neural_governance.add_layer();
    assert!(neural_governance.layers.len() == 3);
}

#[test]
fn neural_governance_test_test_execute() {
    let number_of_neurons = 10;

    let mut neuron_votes: Vec<DecimalNumber> = Vec::new();
    for _ in 0..number_of_neurons {
        neuron_votes.push(simple_neuron(None));
    }

    let final_result = aggregate(LayerAggregator::Product, &neuron_votes).unwrap();
    assert!(final_result == (((2 as u32).pow(number_of_neurons)), 0));
    let final_result = aggregate(LayerAggregator::Sum, &neuron_votes).unwrap();
    assert!(final_result == (2 * number_of_neurons, 0));
}

#[test]
fn test_execute_multiple_layers() {
    let layer_1 = vec![simple_neuron(None), simple_neuron(None)];
    let layer_1_result = aggregate(LayerAggregator::Product, &layer_1).unwrap();

    let layer_2 = vec![simple_neuron(Some(layer_1_result)), simple_neuron(Some(layer_1_result))];
    let final_result = aggregate(LayerAggregator::Sum, &layer_2).unwrap();

    assert!(final_result == (20, 400));
}

#[test]
fn sum_and_product_of_equal_votes() {
    assert_eq!(aggregate(LayerAggregator::Sum, &vec![(2, 0), (2, 0)]), Ok((4, 0)));
    assert_eq!(aggregate(LayerAggregator::Product, &vec![(2, 0); 10]), Ok((1024, 0)));
    assert_eq!(aggregate(LayerAggregator::Product, &vec![(1, 500), (1, 500), (0, 1)]), Ok((0, 2)));
    assert_eq!(aggregate(LayerAggregator::Sum, &vec![(1, 999), (0, 1), (3, 5)]), Ok((5, 5)));
}

#[test]
fn a_single_vote_is_handed_on_as_it_is() {
    assert_eq!(aggregate(LayerAggregator::Sum, &vec![(7, 5)]), Ok((7, 5)));
    assert_eq!(aggregate(LayerAggregator::Product, &vec![(7, 5)]), Ok((7, 5)));
    assert_eq!(aggregate(LayerAggregator::Product, &vec![(7, 5000)]), Ok((7, 5000)));
}

#[test]
fn reducing_nothing_fails() {
    assert_eq!(
        aggregate(LayerAggregator::Sum, &vec![]),
        Err(VotingSystemError::ReducingvotesForSumAggregatorFailed)
    );
    assert_eq!(
        aggregate(LayerAggregator::Product, &vec![]),
        Err(VotingSystemError::ReducingvotesForProductAggregatorFailed)
    );
    assert_eq!(
        aggregate(LayerAggregator::Unknown, &vec![]),
        Err(VotingSystemError::CannotRunUnknownLayerAggregator)
    );
    assert_eq!(
        aggregate(LayerAggregator::Unknown, &vec![(1, 0)]),
        Err(VotingSystemError::CannotRunUnknownLayerAggregator)
    );
}

#[test]
fn reducing_reports_what_goes_wrong() {
    assert_eq!(
        aggregate(LayerAggregator::Sum, &vec![(u32::MAX, 0), (1, 0)]),
        Err(VotingSystemError::ArithmeticOverflow)
    );
    assert_eq!(
        aggregate(LayerAggregator::Product, &vec![(70_000, 0), (70_000, 0)]),
        Err(VotingSystemError::ArithmeticOverflow)
    );
    assert_eq!(
        aggregate(LayerAggregator::Sum, &vec![(1, 0), (1, 1000)]),
        Err(VotingSystemError::InvalidFractional)
    );
}

#[test]
fn a_layer_needs_an_aggregator_and_a_neuron() {
    let external_data = ExternalDataProvider::new();
    let mut layer = Layer::new(3);
    assert_eq!(
        layer.execute_layer(&id("v"), &id("s"), &external_data, None),
        Err(VotingSystemError::LayerAggregatorNotSet)
    );
    layer.neurons.set(NeuronType::Dummy, 1000);
    assert_eq!(
        layer.execute_layer(&id("v"), &id("s"), &external_data, None),
        Err(VotingSystemError::LayerAggregatorNotSet)
    );
    let mut layer = Layer::new(3);
    layer.aggregator = LayerAggregator::Sum;
    assert_eq!(
        layer.execute_layer(&id("v"), &id("s"), &external_data, None),
        Err(VotingSystemError::NoNeuronsExist)
    );
    layer.neurons.set(NeuronType::Dummy, 1000);
    assert_eq!(layer.execute_layer(&id("v"), &id("s"), &external_data, None), Ok(vec![(1, 0)]));
}

#[test]
fn a_layer_runs_its_neurons_in_the_order_of_their_names() {
    let mut external_data = ExternalDataProvider::new();
    external_data.mock_sample_data();
    external_data.calculate_page_rank().unwrap();
    let mut layer = Layer::new(0);
    layer.aggregator = LayerAggregator::Product;
    layer.neurons.set(NeuronType::TrustGraph, 1000);
    layer.neurons.set(NeuronType::Dummy, 2000);
    layer.neurons.set(NeuronType::PriorVotingHistory, 1000);
    layer.neurons.set(NeuronType::AssignedReputation, 3000);
    let votes =
        layer.execute_layer(&id("user001"), &id("s"), &external_data, Some((2, 0))).unwrap();
    // reputation 2 * 0.3 * 3, dummy 3.1 * 2, history 2 + 2 * 0.1 * 0.2, trust rank 0.338
    assert_eq!(votes, vec![(1, 800), (6, 200), (2, 40), (0, 338)]);
    assert_eq!(layer.run_layer_aggregator(&votes), Ok((7, 694)));
}

#[test]
fn two_layers_of_one_dummy_neuron() {
    let external_data = ExternalDataProvider::new();
    let mut neural_governance = NeuralGovernance::new();
    let first = neural_governance.add_layer();
    let second = neural_governance.add_layer();
    neural_governance.set_layer_aggregator(first, LayerAggregator::Sum).unwrap();
    neural_governance.set_layer_aggregator(second, LayerAggregator::Product).unwrap();
    neural_governance.add_neuron(first, NeuronType::Dummy).unwrap();
    neural_governance.add_neuron(second, NeuronType::Dummy).unwrap();
    assert_eq!(
        neural_governance.execute_neural_governance(&id("v"), &id("s"), &external_data),
        Ok((2, 100))
    );
    neural_governance.set_neuron_weight(second, NeuronType::Dummy, (2, 0)).unwrap();
    assert_eq!(
        neural_governance.execute_neural_governance(&id("v"), &id("s"), &external_data),
        Ok((4, 200))
    );
}

#[test]
fn a_pipeline_needs_a_layer() {
    let external_data = ExternalDataProvider::new();
    let mut neural_governance = NeuralGovernance::new();
    assert_eq!(
        neural_governance.execute_neural_governance(&id("v"), &id("s"), &external_data),
        Err(VotingSystemError::NoLayersExist)
    );
    neural_governance.add_layer();
    assert_eq!(
        neural_governance.execute_neural_governance(&id("v"), &id("s"), &external_data),
        Err(VotingSystemError::LayerAggregatorNotSet)
    );
}

#[test]
fn removing_a_layer_keeps_the_other_identifiers() {
    let mut neural_governance = NeuralGovernance::new();
    assert_eq!(neural_governance.add_layer(), 0);
    assert_eq!(neural_governance.add_layer(), 1);
    assert_eq!(neural_governance.add_layer(), 2);
    assert_eq!(neural_governance.remove_layer(1), Ok(()));
    assert_eq!(neural_governance.remove_layer(1), Err(VotingSystemError::NoSuchLayer));
    assert_eq!(neural_governance.get_layer_index(0), Ok(0));
    assert_eq!(neural_governance.get_layer_index(2), Ok(1));
    assert_eq!(neural_governance.get_layer_index(1), Err(VotingSystemError::NoSuchLayer));
    assert_eq!(neural_governance.add_layer(), 3);
    assert_eq!(neural_governance.get_layer_index(3), Ok(2));
}

#[test]
fn mutators_fail_on_a_layer_that_is_not_there() {
    let mut neural_governance = NeuralGovernance::new();
    neural_governance.add_layer();
    let before = neural_governance.clone();
    assert_eq!(
        neural_governance.add_neuron(5, NeuronType::Dummy),
        Err(VotingSystemError::NoSuchLayer)
    );
    assert_eq!(
        neural_governance.remove_neuron(5, NeuronType::Dummy),
        Err(VotingSystemError::NoSuchLayer)
    );
    assert_eq!(
        neural_governance.set_layer_aggregator(5, LayerAggregator::Sum),
        Err(VotingSystemError::NoSuchLayer)
    );
    assert_eq!(
        neural_governance.set_neuron_weight(5, NeuronType::Dummy, (1, 0)),
        Err(VotingSystemError::NoSuchLayer)
    );
    assert_eq!(neural_governance, before);
}

#[test]
fn adding_a_neuron_again_keeps_its_weight() {
    let mut neural_governance = NeuralGovernance::new();
    let layer = neural_governance.add_layer();
    neural_governance.add_neuron(layer, NeuronType::TrustGraph).unwrap();
    assert_eq!(neural_governance.layers[0].neurons.get(&NeuronType::TrustGraph), Some(&1000));
    neural_governance.set_neuron_weight(layer, NeuronType::TrustGraph, (4, 700)).unwrap();
    neural_governance.add_neuron(layer, NeuronType::TrustGraph).unwrap();
    assert_eq!(neural_governance.layers[0].neurons.get(&NeuronType::TrustGraph), Some(&4700));
    assert_eq!(neural_governance.layers[0].neurons.len(), 1);
}

#[test]
fn a_weight_must_be_a_number_that_fits() {
    let mut neural_governance = NeuralGovernance::new();
    let layer = neural_governance.add_layer();
    assert_eq!(
        neural_governance.set_neuron_weight(layer, NeuronType::Dummy, (1, 1000)),
        Err(VotingSystemError::InvalidFractional)
    );
    assert_eq!(
        neural_governance.set_neuron_weight(layer, NeuronType::Dummy, (4_294_967, 296)),
        Err(VotingSystemError::ArithmeticOverflow)
    );
    assert!(neural_governance.layers[0].neurons.is_empty());
    assert_eq!(
        neural_governance.set_neuron_weight(layer, NeuronType::Dummy, (4_294_967, 295)),
        Ok(())
    );
    assert_eq!(neural_governance.layers[0].neurons.get(&NeuronType::Dummy), Some(&u32::MAX));
}

#[test]
fn a_layer_can_be_set_up_on_its_own() {
    let mut layer = Layer::new(9);
    assert_eq!(layer.get_layer_aggregator(), LayerAggregator::Unknown);
    layer.set_layer_aggregator(LayerAggregator::Product);
    assert_eq!(layer.get_layer_aggregator(), LayerAggregator::Product);
    layer.add_neuron(NeuronType::Dummy);
    layer.neurons.set(NeuronType::Dummy, 2500);
    layer.add_neuron(NeuronType::Dummy);
    layer.add_neuron(NeuronType::AssignedReputation);
    assert_eq!(layer.get_neurons().get(&NeuronType::Dummy), Some(&2500));
    assert_eq!(layer.get_neurons().get(&NeuronType::AssignedReputation), Some(&1000));
    let mut neural_governance = NeuralGovernance::new();
    neural_governance.add_layer();
    assert_eq!(neural_governance.get_layers().len(), 1);
}
