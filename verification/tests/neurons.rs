use voting_system::external_data_provider::ExternalDataProvider;
use voting_system::layer::Layer;
use voting_system::neurons::{
    assigned_reputation_neuron, dummy_neuron, prior_voting_history_neuron, trust_graph_neuron,
};
use voting_system::ordered_map::OrderedMap;
use voting_system::types::{DecimalNumber, VotingSystemError};

fn id(name: &str) -> String {
    name.to_string()
}

fn sample_data() -> ExternalDataProvider {
    let mut external_data = ExternalDataProvider::new();
    external_data.mock_sample_data();
    external_data
}

fn weight_function(raw_neuron_vote: DecimalNumber, weight: DecimalNumber) -> DecimalNumber {
    Layer::new(0).run_neuron_weight_function(raw_neuron_vote, weight).unwrap()
}

#[test]
fn assigned_reputation_neuron_test_test_execute() {
    let external_data = sample_data();

    let raw_neuron_vote: DecimalNumber = assigned_reputation_neuron::oracle_function(
        &id("user001"),
        &id("project001"),
        &external_data,
        Some((4, 400)),
    )
    .unwrap();
    let neuron_vote: DecimalNumber = weight_function(raw_neuron_vote, (1, 0));

    assert!(neuron_vote == (1, 320));

    let raw_neuron_vote: DecimalNumber = assigned_reputation_neuron::oracle_function(
        &id("user003"),
        &id("project001"),
        &external_data,
        Some((4, 400)),
    )
    .unwrap();
    let neuron_vote: DecimalNumber = weight_function(raw_neuron_vote, (1, 0));

    assert!(neuron_vote == (0, 880));

    let neuron_vote: DecimalNumber = weight_function(raw_neuron_vote, (2, 500));

    assert!(neuron_vote == (2, 200));
}

#[test]
fn test_test_execute() {
    let external_data = sample_data();

    let raw_neuron_vote: DecimalNumber = prior_voting_history_neuron::oracle_function(
        &id("user001"),
        &id("project001"),
        &external_data,
        Some((1, 100)),
    )
    .unwrap();
    let neuron_vote: DecimalNumber = weight_function(raw_neuron_vote, (1, 0));
    assert!(neuron_vote == (1, 122));

    let raw_neuron_vote: DecimalNumber = prior_voting_history_neuron::oracle_function(
        &id("user003"),
        &id("project001"),
        &external_data,
        Some((5, 49)),
    )
    .unwrap();
    let neuron_vote: DecimalNumber = weight_function(raw_neuron_vote, (1, 0));
    assert!(neuron_vote == (5, 79));
}

#[test]
fn simple_neuron_test_test_execute() {
    let external_data = ExternalDataProvider::new();

    let raw_neuron_vote: DecimalNumber =
        dummy_neuron::oracle_function(&id("user001"), &id("project001"), &external_data, None)
            .unwrap();
    let neuron_vote: DecimalNumber = weight_function(raw_neuron_vote, (2, 0));
    assert!(neuron_vote == (2, 0));

    let raw_neuron_vote: DecimalNumber = dummy_neuron::oracle_function(
        &id("user001"),
        &id("project001"),
        &external_data,
        Some(neuron_vote),
    )
    .unwrap();
    let neuron_vote: DecimalNumber = weight_function(raw_neuron_vote, (2, 0));
    assert!(neuron_vote == (6, 200));
}

#[test]
fn template_neuron_test_test_execute() {
    let external_data = ExternalDataProvider::new();

    let raw_neuron_vote: DecimalNumber =
        dummy_neuron::oracle_function(&id("user001"), &id("project001"), &external_data, None)
            .unwrap();
    let neuron_vote: DecimalNumber = weight_function(raw_neuron_vote, (1, 0));

    assert!(neuron_vote == (1, 0));

    let raw_neuron_vote: DecimalNumber = dummy_neuron::oracle_function(
        &id("user001"),
        &id("project001"),
        &external_data,
        Some(neuron_vote),
    )
    .unwrap();
    let neuron_vote: DecimalNumber = weight_function(raw_neuron_vote, (1, 0));
    assert!(neuron_vote == (2, 100));

    let neuron_vote: DecimalNumber = weight_function(raw_neuron_vote, (2, 420));
    assert!(neuron_vote == (5, 82));
}

#[test]
fn the_dummy_neuron_keeps_the_fractional_part_below_a_thousand() {
    let external_data = ExternalDataProvider::new();
    let oracle = |prior| dummy_neuron::oracle_function(&id("v"), &id("s"), &external_data, prior);
    assert_eq!(oracle(None), Ok((1, 0)));
    assert_eq!(oracle(Some((0, 0))), Ok((1, 100)));
    assert_eq!(oracle(Some((7, 899))), Ok((8, 999)));
    assert_eq!(oracle(Some((7, 900))), Err(VotingSystemError::InvalidFractional));
    assert_eq!(oracle(Some((7, u32::MAX))), Err(VotingSystemError::InvalidFractional));
    assert_eq!(oracle(Some((u32::MAX, 0))), Err(VotingSystemError::ArithmeticOverflow));
    assert_eq!(oracle(Some((u32::MAX - 1, 0))), Ok((u32::MAX, 100)));
}

#[test]
fn the_reputation_neuron_reads_nothing_carried_in_as_zero() {
    let external_data = sample_data();
    let oracle = |voter: &str, prior| {
        assigned_reputation_neuron::oracle_function(&id(voter), &id("s"), &external_data, prior)
    };
    assert_eq!(oracle("user001", None), Ok((0, 0)));
    assert_eq!(oracle("user001", Some((10, 0))), Ok((3, 0)));
    assert_eq!(oracle("user002", Some((10, 0))), Ok((2, 0)));
    assert_eq!(oracle("user004", Some((10, 0))), Ok((1, 0)));
    assert_eq!(oracle("user005", Some((10, 0))), Ok((1, 0)));
    assert_eq!(oracle("user006", Some((10, 0))), Ok((0, 0)));
    assert_eq!(oracle("user001", Some((1, 1000))), Err(VotingSystemError::InvalidFractional));
}

#[test]
fn the_history_neuron_needs_a_bonus_for_every_round() {
    let mut external_data = sample_data();
    let oracle = |data: &ExternalDataProvider, voter: &str, prior| {
        prior_voting_history_neuron::oracle_function(&id(voter), &id("s"), data, prior)
    };
    assert_eq!(oracle(&external_data, "user001", None), Ok((0, 0)));
    // no round: the carried-in value is added to itself
    assert_eq!(oracle(&external_data, "user002", Some((1, 500))), Ok((3, 0)));
    external_data.set_user_prior_voting_history(id("user002"), vec![2, 9]);
    assert_eq!(
        oracle(&external_data, "user002", Some((1, 500))),
        Err(VotingSystemError::RoundNotFoundInRoundBonusMap)
    );
    external_data.set_user_prior_voting_history(id("user002"), vec![4]);
    assert_eq!(oracle(&external_data, "user002", Some((1, 500))), Ok((1, 950)));
    assert_eq!(
        oracle(&external_data, "user002", Some((1, 5000))),
        Err(VotingSystemError::InvalidFractional)
    );
    let mut bonuses: OrderedMap<u32, DecimalNumber> = OrderedMap::new();
    bonuses.set(4, (0, 2000));
    external_data.set_round_bonus_map(bonuses);
    assert_eq!(
        oracle(&external_data, "user002", Some((1, 500))),
        Err(VotingSystemError::InvalidFractional)
    );
}

#[test]
fn the_trust_neuron_hands_out_the_rank_or_zero() {
    let mut external_data = sample_data();
    let oracle = |data: &ExternalDataProvider, voter: &str, prior| {
        trust_graph_neuron::oracle_function(&id(voter), &id("s"), data, prior)
    };
    assert_eq!(oracle(&external_data, "user001", Some((5, 0))), Ok((0, 0)));
    external_data.calculate_page_rank().unwrap();
    assert_eq!(oracle(&external_data, "user001", Some((5, 0))), Ok((0, 338)));
    assert_eq!(oracle(&external_data, "user001", None), Ok((0, 338)));
    assert_eq!(oracle(&external_data, "user004", None), Ok((0, 180)));
    assert_eq!(oracle(&external_data, "user009", None), Ok((0, 0)));
}
