use voting_system::decimal_number_wrapper::DecimalNumberWrapper;
use voting_system::external_data_provider::ExternalDataProvider;
use voting_system::ordered_map::OrderedMap;
use voting_system::quorum::quorum_consensus;
use voting_system::types::{normalized_vote_to_string, NormalizedVote, Vote, VotingSystemError};
use voting_system::voting::VotingSystem;

fn id(name: &str) -> String {
    name.to_string()
}

fn set_of(names: &[&str]) -> OrderedMap<String, ()> {
    let mut set: OrderedMap<String, ()> = OrderedMap::new();
    for name in names {
        set.set(id(name), ());
    }
    set
}

fn initialize_voting_system() -> VotingSystem {
    let mut voting_system = VotingSystem::new();
    voting_system.initialize();
    voting_system
}

fn initialize_external_data_provider(voting_system: &mut VotingSystem) {
    let mut external_data_provider = ExternalDataProvider::new();
    external_data_provider.mock_sample_data();
    voting_system.set_external_data_provider(external_data_provider);
}

fn tally_of(voting_system: &VotingSystem, submission: &str) -> (u32, u32) {
    *voting_system.tally().unwrap().get(&id(submission)).unwrap()
}

fn delegation_setup(votes: &[(&str, &str)]) -> VotingSystem {
    let mut voting_system_client = initialize_voting_system();

    initialize_external_data_provider(&mut voting_system_client);

    assert!(voting_system_client.add_layer().unwrap() == 0);
    voting_system_client.set_layer_aggregator(0, "Sum").unwrap();
    voting_system_client.add_neuron(0, "Dummy").unwrap();

    let submission_id = id("submission001");

    voting_system_client.add_submission(submission_id.clone()).unwrap();
    let delegatees = vec![
        id("user002"),
        id("user003"),
        id("user004"),
        id("user005"),
        id("user006"),
        id("user008"),
    ];
    voting_system_client.delegate(id("user001"), submission_id.clone(), delegatees).unwrap();
    assert!(voting_system_client.get_delegatees().len() == 1);
    let nobody = vec![id("user999"), id("user999"), id("user999"), id("user999"), id("user999")];
    for (voter, vote) in votes {
        if *vote == "Delegate" {
            voting_system_client
                .delegate(id(voter), submission_id.clone(), nobody.clone())
                .unwrap();
        } else {
            voting_system_client.vote(id(voter), submission_id.clone(), vote).unwrap();
        }
    }
    voting_system_client
}

#[test]
fn test_simple_voting() {
    let mut voting_system_client = initialize_voting_system();

    initialize_external_data_provider(&mut voting_system_client);
    voting_system_client.get_external_data_provider().unwrap();

    assert!(voting_system_client.add_layer().unwrap() == 0);
    assert!(voting_system_client.add_layer().unwrap() == 1);

    voting_system_client.set_layer_aggregator(0, "Sum").unwrap();
    voting_system_client.set_layer_aggregator(1, "Product").unwrap();

    voting_system_client.add_neuron(0, "Dummy").unwrap();
    voting_system_client.add_neuron(1, "Dummy").unwrap();

    let voter_id = id("user001");
    let voter_id_2 = id("user002");
    let submission_id = id("submission001");
    let submission_id_2 = id("submission002");

    assert!(voting_system_client.get_submissions().is_empty());
    voting_system_client.add_submission(submission_id_2.clone()).unwrap();
    assert!(voting_system_client.get_submissions().len() == 1);

    assert!(voting_system_client.get_voters().is_empty());
    let current_user_votes =
        voting_system_client.vote(voter_id.clone(), submission_id.clone(), "No").unwrap();
    assert!(current_user_votes.len() == 1);
    assert!(voting_system_client.get_submissions().len() == 2);
    let current_user_votes =
        voting_system_client.vote(voter_id.clone(), submission_id.clone(), "Yes").unwrap();
    assert!(current_user_votes.len() == 1);

    let current_user_votes =
        voting_system_client.vote(voter_id.clone(), submission_id_2.clone(), "Yes").unwrap();
    assert!(current_user_votes.len() == 2);

    assert!(voting_system_client.get_voters().len() == 1);
    let current_user_votes =
        voting_system_client.vote(voter_id_2.clone(), submission_id_2.clone(), "Yes").unwrap();
    assert!(current_user_votes.len() == 1);
    assert!(voting_system_client.get_voters().len() == 2);
    let current_user_votes =
        voting_system_client.remove_vote(voter_id_2.clone(), submission_id_2.clone()).unwrap();
    assert!(current_user_votes.len() == 0);
    assert!(voting_system_client.get_voters().len() == 1);

    voting_system_client.vote(voter_id.clone(), submission_id_2.clone(), "Yes").unwrap();
    assert!(voting_system_client.get_votes_for_user(&voter_id).len() == 2);

    assert!(*voting_system_client.tally().unwrap().get(&submission_id).unwrap() == (2, 100));
    voting_system_client.set_neuron_weight(1, "Dummy", 2000).unwrap();
    assert!(*voting_system_client.tally().unwrap().get(&submission_id).unwrap() == (4, 200));
}

#[test]
fn test_assigned_reputation_neuron() {
    let mut voting_system_client = initialize_voting_system();

    assert!(voting_system_client.add_layer().unwrap() == 0);

    voting_system_client.set_layer_aggregator(0, "Sum").unwrap();

    voting_system_client.add_neuron(0, "Dummy").unwrap();
    voting_system_client.add_neuron(0, "AssignedReputation").unwrap();

    initialize_external_data_provider(&mut voting_system_client);

    let voter_id_1 = id("user001");
    let voter_id_2 = id("user002");
    let submission_id = id("submission001");

    voting_system_client.add_submission(submission_id.clone()).unwrap();
    voting_system_client.vote(voter_id_1.clone(), submission_id.clone(), "Yes").unwrap();
    voting_system_client.vote(voter_id_2.clone(), submission_id.clone(), "No").unwrap();

    // in a first layer nothing is carried in, so the reputation counts for nothing
    assert!(*voting_system_client.tally().unwrap().get(&submission_id).unwrap() == (0, 0));

    voting_system_client.set_neuron_weight(0, "Dummy", 2000).unwrap();
    voting_system_client.set_neuron_weight(0, "AssignedReputation", 2000).unwrap();

    assert!(*voting_system_client.tally().unwrap().get(&submission_id).unwrap() == (0, 0));
    assert!(
        voting_system_client.compute_voting_power(&voter_id_1, &submission_id) == Ok((2, 0))
    );
}

#[test]
fn test_prior_voting_history_neuron() {
    let mut voting_system_client = initialize_voting_system();

    assert!(voting_system_client.add_layer().unwrap() == 0);

    voting_system_client.set_layer_aggregator(0, "Sum").unwrap();

    voting_system_client.add_neuron(0, "PriorVotingHistory").unwrap();

    initialize_external_data_provider(&mut voting_system_client);

    let voter_id_1 = id("user001");
    let voter_id_2 = id("user003");
    let submission_id = id("submission001");

    voting_system_client.add_submission(submission_id.clone()).unwrap();
    voting_system_client.vote(voter_id_1.clone(), submission_id.clone(), "No").unwrap();
    voting_system_client.vote(voter_id_2.clone(), submission_id.clone(), "Yes").unwrap();

    // in a first layer nothing is carried in, so the history counts for nothing
    assert!(*voting_system_client.tally().unwrap().get(&submission_id).unwrap() == (0, 0));
    assert!(voting_system_client.get_votes_length() == 1);
}

#[test]
fn reputation_and_history_count_behind_a_first_layer() {
    let mut voting_system = initialize_voting_system();
    initialize_external_data_provider(&mut voting_system);
    voting_system.setup_layer("Sum", &vec![(id("Dummy"), 0)]).unwrap();
    voting_system
        .setup_layer("Sum", &vec![(id("AssignedReputation"), 0), (id("PriorVotingHistory"), 0)])
        .unwrap();
    // user001: 1 * 0.3 + (1 + 1 * 0.1 * 0.2) = 1.32; user003: 1 * 0.2 + (1 + 0.006) = 1.206
    assert_eq!(voting_system.compute_voting_power(&id("user001"), &id("s")), Ok((1, 320)));
    assert_eq!(voting_system.compute_voting_power(&id("user003"), &id("s")), Ok((1, 206)));
    voting_system.vote(id("user001"), id("s"), "Yes").unwrap();
    voting_system.vote(id("user003"), id("s"), "No").unwrap();
    assert_eq!(tally_of(&voting_system, "s"), (0, 114));
}

#[test]
fn test_graph_bonus() {
    let mut voting_system_client = initialize_voting_system();

    assert!(voting_system_client.add_layer().unwrap() == 0);

    voting_system_client.set_layer_aggregator(0, "Sum").unwrap();

    voting_system_client.add_neuron(0, "TrustGraph").unwrap();

    initialize_external_data_provider(&mut voting_system_client);

    let voter_id_1 = id("user001");
    let voter_id_2 = id("user002");
    let submission_id = id("submission001");

    voting_system_client.add_submission(submission_id.clone()).unwrap();
    voting_system_client.vote(voter_id_1.clone(), submission_id.clone(), "Yes").unwrap();
    voting_system_client.vote(voter_id_2.clone(), submission_id.clone(), "No").unwrap();

    voting_system_client.calculate_page_rank().unwrap();
    let calculated =
        voting_system_client.get_external_data_provider().unwrap().get_page_rank_results();

    let mut expected: OrderedMap<String, (u32, u32)> = OrderedMap::new();
    expected.set(id("user001"), (0, 338));
    expected.set(id("user002"), (0, 260));
    expected.set(id("user003"), (0, 190));
    expected.set(id("user004"), (0, 180));
    assert!(*calculated == expected);

    assert!(*voting_system_client.tally().unwrap().get(&submission_id).unwrap() == (0, 78));
}

#[test]
fn test_graph_bonus_2() {
    let mut voting_system_client = initialize_voting_system();

    assert!(voting_system_client.add_layer().unwrap() == 0);

    voting_system_client.set_layer_aggregator(0, "Sum").unwrap();

    voting_system_client.add_neuron(0, "TrustGraph").unwrap();

    let voter_id_1 = id("user001");
    let voter_id_2 = id("user002");
    let voter_id_3 = id("user003");
    let voter_id_4 = id("user004");

    let mut new_trust_map: OrderedMap<String, OrderedMap<String, ()>> = OrderedMap::new();

    new_trust_map
        .set(voter_id_1.clone(), set_of(&["user002", "user003", "user004", "user005"]));

    new_trust_map.set(voter_id_2.clone(), set_of(&["user003", "user004", "user005"]));

    new_trust_map.set(voter_id_3.clone(), set_of(&["user004", "user005"]));

    new_trust_map.set(voter_id_4.clone(), set_of(&["user005"]));

    let mut external_data_provider_client = ExternalDataProvider::new();
    external_data_provider_client.mock_sample_data();
    external_data_provider_client.set_trust_map(new_trust_map);
    voting_system_client.set_external_data_provider(external_data_provider_client);

    let submission_id = id("submission001");

    voting_system_client.add_submission(submission_id.clone()).unwrap();
    voting_system_client.vote(voter_id_1.clone(), submission_id.clone(), "No").unwrap();
    voting_system_client.vote(voter_id_2.clone(), submission_id.clone(), "Yes").unwrap();

    voting_system_client.calculate_page_rank().unwrap();
    let calculated =
        voting_system_client.get_external_data_provider().unwrap().get_page_rank_results();

    let mut expected: OrderedMap<String, (u32, u32)> = OrderedMap::new();
    expected.set(id("user001"), (0, 30));
    expected.set(id("user002"), (0, 36));
    expected.set(id("user003"), (0, 46));
    expected.set(id("user004"), (0, 65));
    expected.set(id("user005"), (0, 120));
    assert!(*calculated == expected);

    assert!(*voting_system_client.tally().unwrap().get(&submission_id).unwrap() == (0, 6));
}

#[test]
fn test_delegation_more_yes_votes() {
    let voting_system_client = delegation_setup(&[
        ("user002", "No"),
        ("user003", "No"),
        ("user004", "No"),
        ("user005", "Yes"),
        ("user006", "Yes"),
        ("user008", "Yes"),
    ]);

    let consensus =
        voting_system_client.calculate_quorum_consensus(&id("user001"), &id("submission001"));
    assert!(consensus == Ok(Vote::Yes));
}

#[test]
fn test_delegation_more_no_votes() {
    let voting_system_client = delegation_setup(&[
        ("user002", "Yes"),
        ("user003", "Yes"),
        ("user004", "No"),
        ("user005", "Yes"),
        ("user006", "No"),
        ("user008", "No"),
    ]);

    let consensus =
        voting_system_client.calculate_quorum_consensus(&id("user001"), &id("submission001"));
    assert!(consensus == Ok(Vote::No));
}

#[test]
fn test_delegation_too_many_abstain_votes() {
    let voting_system_client = delegation_setup(&[
        ("user002", "Yes"),
        ("user003", "Abstain"),
        ("user004", "Abstain"),
        ("user005", "Yes"),
        ("user006", "No"),
        ("user008", "No"),
    ]);

    let consensus =
        voting_system_client.calculate_quorum_consensus(&id("user001"), &id("submission001"));
    assert!(consensus == Ok(Vote::Abstain));
}

#[test]
fn test_delegation_too_many_delegate_votes() {
    let voting_system_client = delegation_setup(&[
        ("user002", "Yes"),
        ("user003", "Delegate"),
        ("user004", "Delegate"),
        ("user005", "Delegate"),
        ("user006", "No"),
        ("user008", "No"),
    ]);

    let consensus =
        voting_system_client.calculate_quorum_consensus(&id("user001"), &id("submission001"));
    assert!(consensus == Ok(Vote::Abstain));
}

#[test]
fn test_delegation_yes_no_equal() {
    let voting_system_client = delegation_setup(&[
        ("user002", "Yes"),
        ("user003", "Delegate"),
        ("user004", "Abstain"),
        ("user005", "Yes"),
        ("user006", "No"),
        ("user008", "No"),
    ]);

    let consensus =
        voting_system_client.calculate_quorum_consensus(&id("user001"), &id("submission001"));
    assert!(consensus == Ok(Vote::Abstain));
}

#[test]
fn test_delegation_in_practice() {
    let voting_system_client = delegation_setup(&[
        ("user002", "No"),
        ("user003", "Yes"),
        ("user004", "Yes"),
        ("user005", "Yes"),
        ("user006", "Yes"),
        ("user008", "Abstain"),
    ]);

    let result = *voting_system_client.tally().unwrap().get(&id("submission001")).unwrap();
    // five voters of power 1 say yes, the delegating one among them, and one says no
    assert!(result == (4, 0));
}

#[test]
fn test_multiple_voting_operations() {
    let mut voting_system_client = initialize_voting_system();

    assert!(voting_system_client.add_layer().unwrap() == 0);
    assert!(voting_system_client.add_layer().unwrap() == 1);

    voting_system_client.set_layer_aggregator(0, "Sum").unwrap();
    voting_system_client.set_layer_aggregator(1, "Product").unwrap();

    voting_system_client.add_neuron(0, "Dummy").unwrap();
    voting_system_client.add_neuron(1, "Dummy").unwrap();

    let voter_id = id("user001");
    let submission_id = id("submission001");
    let submission_id_2 = id("submission002");
    let submission_id_3 = id("submission003");

    let mut operations: OrderedMap<String, String> = OrderedMap::new();
    operations.set(submission_id.clone(), id("No"));
    operations.set(submission_id_2.clone(), id("Yes"));
    operations.set(submission_id_3.clone(), id("Yes"));
    let current_user_votes =
        voting_system_client.multiple_vote_operations(voter_id.clone(), &operations).unwrap();
    assert!(current_user_votes.len() == 3);
    assert!(voting_system_client.get_voters().len() == 1);
    let votes = voting_system_client.get_votes();
    assert!(votes.len() == 3);
    assert!(voting_system_client.get_votes_length() == 3);
    assert!(*votes.get(&submission_id).unwrap().get(&voter_id).unwrap() == Vote::No);
    assert!(*votes.get(&submission_id_2).unwrap().get(&voter_id).unwrap() == Vote::Yes);
    assert!(*votes.get(&submission_id_3).unwrap().get(&voter_id).unwrap() == Vote::Yes);

    let mut operations: OrderedMap<String, String> = OrderedMap::new();
    operations.set(submission_id.clone(), id("Remove"));
    operations.set(submission_id_2.clone(), id("Remove"));
    operations.set(submission_id_3.clone(), id("No"));
    let current_user_votes =
        voting_system_client.multiple_vote_operations(voter_id.clone(), &operations).unwrap();
    assert!(current_user_votes.len() == 1);
    assert!(voting_system_client.get_voters().len() == 1);
    let votes = voting_system_client.get_votes();
    assert!(votes.len() == 1);
    assert!(*votes.get(&submission_id_3).unwrap().get(&voter_id).unwrap() == Vote::No);

    let current_user_votes = voting_system_client
        .multiple_vote_operations_vec(
            voter_id.clone(),
            &vec![
                (submission_id.clone(), id("Remove")),
                (submission_id_2.clone(), id("Remove")),
                (submission_id_3.clone(), id("No")),
            ],
        )
        .unwrap();
    assert!(current_user_votes.len() == 1);
    assert!(voting_system_client.get_voters().len() == 1);
    let votes = voting_system_client.get_votes();
    assert!(votes.len() == 1);
    assert!(*votes.get(&submission_id_3).unwrap().get(&voter_id).unwrap() == Vote::No);

    let mut operations: OrderedMap<String, String> = OrderedMap::new();
    operations.set(submission_id_3.clone(), id("Remove"));
    let current_user_votes =
        voting_system_client.multiple_vote_operations(voter_id.clone(), &operations).unwrap();
    assert!(current_user_votes.is_empty());
    assert!(voting_system_client.get_voters().is_empty());
}

fn decomposed_setup() -> VotingSystem {
    let mut voting_system_client = initialize_voting_system();

    voting_system_client.vote(id("user001"), id("submission001"), "Yes").unwrap();
    voting_system_client.vote(id("user002"), id("submission001"), "No").unwrap();
    voting_system_client.vote(id("user002"), id("submission002"), "Yes").unwrap();

    let n_layers = 5;
    for i in 0..n_layers {
        assert!(voting_system_client.add_layer().unwrap() == i);
        if i % 2 == 0 {
            voting_system_client.set_layer_aggregator(i, "Sum").unwrap();
        } else {
            voting_system_client.set_layer_aggregator(i, "Product").unwrap();
        }
        voting_system_client.add_neuron(i, "TrustGraph").unwrap();
        voting_system_client.add_neuron(i, "AssignedReputation").unwrap();
        voting_system_client.add_neuron(i, "PriorVotingHistory").unwrap();
    }

    initialize_external_data_provider(&mut voting_system_client);
    voting_system_client.calculate_page_rank().unwrap();
    voting_system_client
}

fn recorded_powers(
    voting_system: &mut VotingSystem,
    normalized_votes: &OrderedMap<String, OrderedMap<String, NormalizedVote>>,
) -> Result<OrderedMap<String, u32>, VotingSystemError> {
    let mut voters_voting_powers: OrderedMap<String, u32> = OrderedMap::new();
    for i in 0..normalized_votes.len() {
        let submission_id = normalized_votes.key_at(i);
        let submission_votes = normalized_votes.value_at(i);
        for j in 0..submission_votes.len() {
            let voter_id = submission_votes.key_at(j);
            if voters_voting_powers.get(voter_id).is_none() {
                let voting_power =
                    voting_system.voting_power_for_voter(voter_id.clone(), submission_id.clone())?;
                voters_voting_powers.set(
                    voter_id.clone(),
                    DecimalNumberWrapper::from_tuple(voting_power).unwrap().as_raw(),
                );
            }
        }
    }
    Ok(voters_voting_powers)
}

fn decomposed_tally(
    voting_system: &mut VotingSystem,
) -> Result<OrderedMap<String, (u32, u32)>, VotingSystemError> {
    let normalized_votes = voting_system.normalize_votes()?;
    let voters_voting_powers = recorded_powers(voting_system, &normalized_votes)?;
    VotingSystem::submissions_voting_powers(&voters_voting_powers, &normalized_votes)
}

#[test]
fn test_decomposed_tally() {
    let mut voting_system_client = decomposed_setup();
    let voter_id_1 = id("user001");
    let voter_id_2 = id("user002");
    let submission_1_id = id("submission001");
    let submission_2_id = id("submission002");

    let normalized_votes = voting_system_client.normalize_votes().unwrap();
    let voters_voting_powers =
        recorded_powers(&mut voting_system_client, &normalized_votes).unwrap();

    let submission_1_normalized_votes =
        voting_system_client.normalize_votes_for_submission(&submission_1_id).unwrap();
    assert!(submission_1_normalized_votes.len() == 2);

    let final_voting_powers =
        VotingSystem::submissions_voting_powers(&voters_voting_powers, &normalized_votes).unwrap();

    let fetched_voting_powers = voting_system_client.get_voting_powers();
    assert!(*fetched_voting_powers.get(&voter_id_1).unwrap() == (0, 353));
    assert!(*fetched_voting_powers.get(&voter_id_2).unwrap() == (0, 275));

    let tally = voting_system_client.tally().unwrap();
    assert!(*tally.get(&submission_1_id).unwrap() == (0, 78));
    assert!(*tally.get(&submission_2_id).unwrap() == (0, 275));
    assert!(tally == final_voting_powers);

    voting_system_client.set_voting_power_for_user(voter_id_1.clone(), (1, 0));

    assert!(*voting_system_client.get_voting_powers().get(&voter_id_1).unwrap() == (1, 0));

    assert!(*final_voting_powers.get(&submission_1_id).unwrap() == (0, 78));
    assert!(*final_voting_powers.get(&submission_2_id).unwrap() == (0, 275));

    let mut voters_voting_powers_vec: Vec<(String, u32)> = Vec::new();
    let mut normalized_votes_vec: Vec<(String, String, String)> = Vec::new();

    for i in 0..voters_voting_powers.len() {
        voters_voting_powers_vec
            .push((voters_voting_powers.key_at(i).clone(), *voters_voting_powers.value_at(i)));
    }

    for i in 0..normalized_votes.len() {
        let normalized_votes_map = normalized_votes.value_at(i);
        for j in 0..normalized_votes_map.len() {
            normalized_votes_vec.push((
                normalized_votes.key_at(i).clone(),
                normalized_votes_map.key_at(j).clone(),
                normalized_vote_to_string(*normalized_votes_map.value_at(j)),
            ));
        }
    }

    let final_voting_powers_from_vec = VotingSystem::submissions_voting_powers_vec(
        &voters_voting_powers_vec,
        &normalized_votes_vec,
    )
    .unwrap();

    assert!(final_voting_powers == final_voting_powers_from_vec);
}

#[test]
fn the_tally_in_steps_keeps_submissions_without_a_yes_or_no() {
    let mut voting_system = decomposed_setup();
    voting_system.add_submission(id("submission000")).unwrap();
    voting_system.vote(id("user003"), id("submission003"), "Abstain").unwrap();
    let normalized = voting_system.normalize_votes().unwrap();
    assert_eq!(
        normalized.keys(),
        vec![id("submission000"), id("submission001"), id("submission002"), id("submission003")]
    );
    assert!(normalized.get(&id("submission000")).unwrap().is_empty());
    assert!(normalized.get(&id("submission003")).unwrap().is_empty());
    assert!(voting_system.normalize_votes_for_submission(&id("submission003")).unwrap().is_empty());
    let in_steps = decomposed_tally(&mut voting_system).unwrap();
    let at_once = voting_system.tally().unwrap();
    assert_eq!(in_steps.len(), 4);
    assert_eq!(in_steps, at_once);
    assert_eq!(in_steps.get(&id("submission000")), Some(&(0, 0)));
    assert_eq!(in_steps.get(&id("submission001")), Some(&(0, 78)));
    assert_eq!(in_steps.get(&id("submission002")), Some(&(0, 275)));
    assert_eq!(in_steps.get(&id("submission003")), Some(&(0, 0)));
}

#[test]
fn a_submission_whose_ballots_all_abstain_has_the_outcome_zero_in_steps() {
    let mut voting_system = initialize_voting_system();
    voting_system.add_layer().unwrap();
    voting_system.add_neuron(0, "Dummy").unwrap();
    initialize_external_data_provider(&mut voting_system);
    voting_system.vote(id("a"), id("s"), "Abstain").unwrap();
    let in_steps = decomposed_tally(&mut voting_system).unwrap();
    assert_eq!(in_steps.keys(), vec![id("s")]);
    assert_eq!(in_steps.get(&id("s")), Some(&(0, 0)));
    assert_eq!(in_steps, voting_system.tally().unwrap());
}

#[test]
fn a_ballot_fails_first_on_its_vote_then_on_its_voter() {
    let mut powers: OrderedMap<String, u32> = OrderedMap::new();
    powers.set(id("b"), 1500);
    let mut ballots: OrderedMap<String, String> = OrderedMap::new();
    ballots.set(id("a"), id("Yes"));
    ballots.set(id("b"), id("Maybe"));
    let mut by_name: OrderedMap<String, OrderedMap<String, String>> = OrderedMap::new();
    by_name.set(id("s"), ballots.clone());
    assert_eq!(
        VotingSystem::submissions_voting_powers(&powers, &by_name),
        Err(VotingSystemError::UnknownVoter)
    );
    powers.set(id("a"), 2000);
    assert_eq!(
        VotingSystem::submissions_voting_powers(&powers, &by_name),
        Err(VotingSystemError::UnknownVote)
    );
    let mut unknown_both: OrderedMap<String, String> = OrderedMap::new();
    unknown_both.set(id("z"), id("Abstain"));
    by_name.set(id("r"), unknown_both);
    assert_eq!(
        VotingSystem::submissions_voting_powers(&powers, &by_name),
        Err(VotingSystemError::UnknownVote)
    );
    ballots.set(id("b"), id("No"));
    let mut named: OrderedMap<String, OrderedMap<String, String>> = OrderedMap::new();
    named.set(id("s"), ballots);
    let outcomes = VotingSystem::submissions_voting_powers(&powers, &named).unwrap();
    assert_eq!(outcomes.get(&id("s")), Some(&(0, 500)));
    assert_eq!(
        VotingSystem::submissions_voting_powers_vec(
            &vec![(id("a"), 2000)],
            &vec![(id("s"), id("a"), id("yes"))]
        ),
        Err(VotingSystemError::UnknownVote)
    );
}

#[test]
fn the_tally_in_steps_agrees_with_the_tally_on_delegated_ballots() {
    let mut voting_system = delegation_setup(&[
        ("user002", "No"),
        ("user003", "Yes"),
        ("user004", "Yes"),
        ("user005", "Yes"),
        ("user006", "Yes"),
        ("user008", "Abstain"),
    ]);
    voting_system.vote(id("user009"), id("submission002"), "No").unwrap();
    let normalized = voting_system.normalize_votes().unwrap();
    let on_first = normalized.get(&id("submission001")).unwrap();
    assert_eq!(on_first.get(&id("user001")), Some(&NormalizedVote::Yes));
    assert_eq!(on_first.get(&id("user002")), Some(&NormalizedVote::No));
    assert_eq!(on_first.get(&id("user008")), None);
    assert_eq!(on_first.len(), 6);
    let in_steps = decomposed_tally(&mut voting_system).unwrap();
    assert_eq!(in_steps, voting_system.tally().unwrap());
    assert_eq!(in_steps.get(&id("submission001")), Some(&(4, 0)));
    assert_eq!(in_steps.get(&id("submission002")), Some(&(0, 0)));
}

#[test]
fn a_voter_without_a_recorded_power_is_unknown() {
    let mut normalized: OrderedMap<String, OrderedMap<String, NormalizedVote>> = OrderedMap::new();
    let mut ballots: OrderedMap<String, NormalizedVote> = OrderedMap::new();
    ballots.set(id("a"), NormalizedVote::Yes);
    ballots.set(id("b"), NormalizedVote::No);
    normalized.set(id("s"), ballots);
    let mut powers: OrderedMap<String, u32> = OrderedMap::new();
    powers.set(id("a"), 2500);
    assert_eq!(
        VotingSystem::submissions_voting_powers(&powers, &normalized),
        Err(VotingSystemError::UnknownVoter)
    );
    powers.set(id("b"), 1001);
    let outcomes = VotingSystem::submissions_voting_powers(&powers, &normalized).unwrap();
    assert_eq!(outcomes.get(&id("s")), Some(&(1, 499)));
    powers.set(id("b"), 2501);
    let outcomes = VotingSystem::submissions_voting_powers(&powers, &normalized).unwrap();
    assert_eq!(outcomes.get(&id("s")), Some(&(0, 0)));
}

#[test]
fn the_tally_needs_the_pipeline_and_the_data() {
    let mut voting_system = VotingSystem::new();
    assert!(voting_system.tally().unwrap().is_empty());
    voting_system.vote(id("a"), id("s"), "Abstain").unwrap();
    assert_eq!(voting_system.tally().unwrap().get(&id("s")), Some(&(0, 0)));
    voting_system.vote(id("a"), id("s"), "Yes").unwrap();
    assert_eq!(voting_system.tally(), Err(VotingSystemError::NeuralGovernanceNotSet));
    voting_system.initialize();
    assert_eq!(voting_system.tally(), Err(VotingSystemError::NoLayersExist));
    voting_system.add_layer().unwrap();
    assert_eq!(voting_system.tally(), Err(VotingSystemError::ExternalDataProviderNotSet));
    voting_system.set_external_data_provider(ExternalDataProvider::new());
    assert_eq!(voting_system.tally(), Err(VotingSystemError::LayerAggregatorNotSet));
    voting_system.set_layer_aggregator(0, "Sum").unwrap();
    assert_eq!(voting_system.tally(), Err(VotingSystemError::NoNeuronsExist));
    voting_system.add_neuron(0, "Dummy").unwrap();
    assert_eq!(voting_system.tally().unwrap().get(&id("s")), Some(&(1, 0)));
    assert_eq!(
        voting_system.voting_power_for_voter(id("a"), id("s")),
        Ok((1, 0))
    );
    assert_eq!(voting_system.get_voting_powers().get(&id("a")), Some(&(1, 0)));
    voting_system.set_voting_power_for_user(id("b"), (7, 7));
    assert_eq!(voting_system.get_voting_powers().len(), 2);
}

#[test]
fn delegating_needs_delegatees() {
    let mut voting_system = initialize_voting_system();
    assert_eq!(
        voting_system.vote(id("a"), id("s"), "Delegate"),
        Err(VotingSystemError::DelegateesNotFound)
    );
    assert!(voting_system.get_votes().is_empty());
    let few = vec![id("b"), id("c"), id("d"), id("e")];
    assert_eq!(
        voting_system.set_delegatees(id("a"), few.clone()),
        Err(VotingSystemError::NotEnoughDelegatees)
    );
    assert_eq!(
        voting_system.delegate(id("a"), id("s"), few),
        Err(VotingSystemError::NotEnoughDelegatees)
    );
    let many: Vec<String> = (0..11).map(|i| format!("d{}", i)).collect();
    assert_eq!(
        voting_system.set_delegatees(id("a"), many),
        Err(VotingSystemError::TooManyDelegatees)
    );
    assert!(voting_system.get_delegatees().is_empty());
    let five = vec![id("b"), id("c"), id("d"), id("e"), id("f")];
    assert_eq!(voting_system.set_delegatees(id("a"), five.clone()), Ok(five.clone()));
    let ten: Vec<String> = (0..10).map(|i| format!("d{}", i)).collect();
    assert_eq!(voting_system.set_delegatees(id("a"), ten.clone()), Ok(ten.clone()));
    assert_eq!(voting_system.get_delegatees().get(&id("a")), Some(&ten));
    let votes = voting_system.vote(id("a"), id("s"), "Delegate").unwrap();
    assert_eq!(votes.get(&id("s")), Some(&Vote::Delegate));
}

#[test]
fn quorum_consensus_reports_what_is_missing() {
    let mut voting_system = initialize_voting_system();
    assert_eq!(
        voting_system.calculate_quorum_consensus(&id("a"), &id("s")),
        Err(VotingSystemError::ExternalDataProviderNotSet)
    );
    initialize_external_data_provider(&mut voting_system);
    assert_eq!(
        voting_system.calculate_quorum_consensus(&id("a"), &id("s")),
        Err(VotingSystemError::DelegateesNotFound)
    );
    let five = vec![id("b"), id("c"), id("d"), id("e"), id("f")];
    voting_system.delegate(id("a"), id("s"), five.clone()).unwrap();
    assert_eq!(
        voting_system.calculate_quorum_consensus(&id("a"), &id("s")),
        Err(VotingSystemError::VoteNotFoundForDelegatee)
    );
    assert_eq!(
        voting_system.calculate_quorum_consensus(&id("a"), &id("unknown")),
        Err(VotingSystemError::VoteNotFoundForDelegatee)
    );
    assert_eq!(voting_system.tally(), Err(VotingSystemError::VoteNotFoundForDelegatee));
    assert_eq!(voting_system.normalize_votes(), Err(VotingSystemError::VoteNotFoundForDelegatee));
    for name in ["b", "c", "d", "e"] {
        voting_system.vote(id(name), id("s"), "Yes").unwrap();
    }
    assert_eq!(
        voting_system.calculate_quorum_consensus(&id("a"), &id("s")),
        Err(VotingSystemError::VoteNotFoundForDelegatee)
    );
    voting_system.vote(id("f"), id("s"), "No").unwrap();
    assert_eq!(voting_system.calculate_quorum_consensus(&id("a"), &id("s")), Ok(Vote::Yes));
}

#[test]
fn a_submission_can_be_added_once() {
    let mut voting_system = VotingSystem::new();
    assert_eq!(voting_system.add_submission(id("s")), Ok(()));
    assert_eq!(voting_system.add_submission(id("s")), Err(VotingSystemError::SubmissionAlreadyAdded));
    assert_eq!(voting_system.get_submissions(), vec![id("s")]);
    voting_system.vote(id("a"), id("t"), "Yes").unwrap();
    assert_eq!(voting_system.add_submission(id("t")), Err(VotingSystemError::SubmissionAlreadyAdded));
    assert_eq!(voting_system.get_submissions(), vec![id("s"), id("t")]);
    voting_system.remove_vote(id("a"), id("t")).unwrap();
    assert_eq!(voting_system.get_submissions(), vec![id("s")]);
    // withdrawing a ballot that was never cast forgets a submission without ballots
    voting_system.remove_vote(id("a"), id("s")).unwrap();
    assert!(voting_system.get_submissions().is_empty());
}

#[test]
fn voters_are_listed_once_in_key_order() {
    let mut voting_system = VotingSystem::new();
    voting_system.vote(id("carol"), id("s2"), "Yes").unwrap();
    voting_system.vote(id("alice"), id("s2"), "No").unwrap();
    voting_system.vote(id("bob"), id("s1"), "Abstain").unwrap();
    voting_system.vote(id("alice"), id("s1"), "Yes").unwrap();
    assert_eq!(voting_system.get_voters(), vec![id("alice"), id("bob"), id("carol")]);
    let votes = voting_system.get_votes_for_user(&id("alice"));
    assert_eq!(votes.keys(), vec![id("s1"), id("s2")]);
    assert_eq!(votes.get(&id("s1")), Some(&Vote::Yes));
    assert_eq!(votes.get(&id("s2")), Some(&Vote::No));
    assert!(voting_system.get_votes_for_user(&id("dave")).is_empty());
}

#[test]
fn lists_are_handled_as_the_maps_they_stand_for() {
    let powers = vec![(id("a"), 9000), (id("b"), 1001), (id("a"), 2500)];
    let ballots = vec![
        (id("t"), id("b"), NormalizedVote::Yes),
        (id("s"), id("a"), NormalizedVote::No),
        (id("s"), id("b"), NormalizedVote::No),
        (id("s"), id("a"), NormalizedVote::Yes),
    ];
    let outcomes = VotingSystem::submissions_voting_powers_vec(&powers, &ballots).unwrap();
    assert_eq!(outcomes.keys(), vec![id("s"), id("t")]);
    assert_eq!(outcomes.get(&id("s")), Some(&(1, 499)));
    assert_eq!(outcomes.get(&id("t")), Some(&(1, 1)));
    assert_eq!(
        VotingSystem::submissions_voting_powers_vec(&vec![], &ballots),
        Err(VotingSystemError::UnknownVoter)
    );

    let mut voting_system = VotingSystem::new();
    voting_system.set_voting_powers(&powers);
    assert_eq!(voting_system.get_voting_powers().get(&id("a")), Some(&(2, 500)));
    assert_eq!(voting_system.get_voting_powers().get(&id("b")), Some(&(1, 1)));

    let votes = voting_system
        .multiple_vote_operations_vec(
            id("a"),
            &vec![(id("s"), id("Yes")), (id("t"), id("No")), (id("s"), id("Remove"))],
        )
        .unwrap();
    assert_eq!(votes.keys(), vec![id("t")]);
    assert_eq!(voting_system.get_submissions(), vec![id("t")]);
}

#[test]
fn ties_among_the_chosen_are_broken_by_the_identifier() {
    // eight delegatees of rank zero but the last, which has rank one
    let mut voting_system = initialize_voting_system();
    let mut external_data = ExternalDataProvider::new();
    external_data.set_delegation_rank_for_user(id("late"), 1);
    voting_system.set_external_data_provider(external_data);
    let delegatees =
        vec![id("e"), id("d"), id("c"), id("b"), id("a"), id("f"), id("late")];
    voting_system.delegate(id("voter"), id("s"), delegatees).unwrap();
    for (name, vote) in [
        ("a", "No"),
        ("b", "Yes"),
        ("c", "Yes"),
        ("d", "No"),
        ("e", "Abstain"),
        ("f", "Yes"),
        ("late", "No"),
    ] {
        voting_system.vote(id(name), id("s"), vote).unwrap();
    }
    // the first five are chosen; "f" does not outrank them; "late" takes the place of "a"
    assert_eq!(voting_system.calculate_quorum_consensus(&id("voter"), &id("s")), Ok(Vote::Abstain));
    voting_system.vote(id("late"), id("s"), "Yes").unwrap();
    assert_eq!(voting_system.calculate_quorum_consensus(&id("voter"), &id("s")), Ok(Vote::Yes));
    voting_system.vote(id("late"), id("s"), "Delegate").unwrap_err();
}

#[test]
fn a_state_put_together_by_hand_can_be_tested() {
    let mut voting_system = delegation_setup(&[("user002", "Yes")]);
    assert!(voting_system.is_well_formed());

    let mut removed: OrderedMap<String, Vote> = OrderedMap::new();
    removed.set(id("a"), Vote::Remove);
    let mut broken = voting_system.clone();
    broken.votes.set(id("t"), removed);
    assert!(!broken.is_well_formed());

    let mut broken = voting_system.clone();
    broken.delegatees.set(id("a"), vec![id("b"), id("c"), id("d"), id("e")]);
    assert!(!broken.is_well_formed());
    broken.delegatees.set(id("a"), vec![id("b"), id("c"), id("d"), id("e"), id("f")]);
    assert!(broken.is_well_formed());

    let governance = voting_system.neural_governance.as_mut().unwrap();
    assert!(governance.is_well_formed());
    governance.current_layer_id = 0;
    assert!(!governance.is_well_formed());
    assert!(!voting_system.is_well_formed());
    let governance = voting_system.neural_governance.as_mut().unwrap();
    governance.current_layer_id = 7;
    let copy = governance.layers[0].clone();
    governance.layers.push(copy);
    assert!(!governance.is_well_formed());
    governance.layers[1].id = 6;
    assert!(governance.is_well_formed());
    assert!(voting_system.is_well_formed());
    assert!(voting_system.external_data_provider.as_ref().unwrap().is_well_formed());
}

#[test]
fn a_map_rebuilt_from_its_entries_is_the_same_map() {
    let voting_system = delegation_setup(&[("user002", "Yes"), ("user003", "Delegate")]);
    let mut rebuilt: OrderedMap<String, OrderedMap<String, Vote>> = OrderedMap::new();
    for i in (0..voting_system.votes.len()).rev() {
        let ballots = voting_system.votes.value_at(i);
        let mut copy: OrderedMap<String, Vote> = OrderedMap::new();
        for j in (0..ballots.len()).rev() {
            copy.set(ballots.key_at(j).clone(), *ballots.value_at(j));
        }
        assert_eq!(&copy, ballots);
        assert_eq!(copy.duplicate(), copy);
        rebuilt.set(voting_system.votes.key_at(i).clone(), copy);
    }
    assert_eq!(rebuilt, voting_system.votes);
    assert!(rebuilt.is_well_formed());
}

#[test]
fn a_key_is_found_at_its_place_in_key_order() {
    let mut map: OrderedMap<String, u32> = OrderedMap::new();
    map.set(id("m"), 1);
    map.set(id("a"), 2);
    map.set(id("z"), 3);
    map.set(id("m"), 4);
    assert_eq!(map.position(&id("a")), 0);
    assert_eq!(map.position(&id("m")), 1);
    assert_eq!(map.position(&id("z")), 2);
    assert_eq!(map.key_at(map.position(&id("m"))), &id("m"));
    assert_eq!(map.value_at(1), &4);
}

#[test]
fn a_delegatee_named_twice_counts_once() {
    let mut voting_system = initialize_voting_system();
    initialize_external_data_provider(&mut voting_system);
    let delegatees = vec![
        id("user003"),
        id("user004"),
        id("user005"),
        id("user006"),
        id("user008"),
        id("user008"),
    ];
    voting_system.delegate(id("user001"), id("submission001"), delegatees).unwrap();
    for name in ["user003", "user004", "user005", "user006", "user008"] {
        voting_system.vote(id(name), id("submission001"), "Yes").unwrap();
    }
    assert_eq!(
        voting_system.calculate_quorum_consensus(&id("user001"), &id("submission001")),
        Ok(Vote::Yes)
    );
    voting_system.vote(id("user003"), id("submission001"), "No").unwrap();
    voting_system.vote(id("user004"), id("submission001"), "No").unwrap();
    voting_system.vote(id("user005"), id("submission001"), "No").unwrap();
    assert_eq!(
        voting_system.calculate_quorum_consensus(&id("user001"), &id("submission001")),
        Ok(Vote::No)
    );
}

#[test]
fn repeated_names_do_not_make_up_for_missing_delegatees() {
    let mut ranks: OrderedMap<String, u32> = OrderedMap::new();
    let mut votes: OrderedMap<String, Vote> = OrderedMap::new();
    for (name, rank) in [("a", 9), ("b", 1), ("c", 2), ("d", 3), ("e", 4), ("f", 5)] {
        ranks.set(id(name), rank);
        votes.set(id(name), Vote::Yes);
    }
    // four delegatees under six names
    let four = vec![id("a"), id("b"), id("a"), id("c"), id("d"), id("a")];
    assert_eq!(quorum_consensus(&four, &ranks, &votes), Ok(Vote::Abstain));
    // five delegatees, the first named again where it outranks every chosen one
    let five = vec![id("a"), id("b"), id("c"), id("d"), id("e"), id("a"), id("a")];
    assert_eq!(quorum_consensus(&five, &ranks, &votes), Ok(Vote::Yes));
    // "b" gives way to "f" and is named again: it stays out, and "c" stays in
    votes.set(id("b"), Vote::No);
    votes.set(id("c"), Vote::No);
    votes.set(id("d"), Vote::No);
    let six = vec![id("a"), id("b"), id("c"), id("d"), id("e"), id("f"), id("b")];
    assert_eq!(quorum_consensus(&six, &ranks, &votes), Ok(Vote::Yes));
    votes.set(id("e"), Vote::No);
    assert_eq!(quorum_consensus(&six, &ranks, &votes), Ok(Vote::No));
}
