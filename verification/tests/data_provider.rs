use voting_system::decimal_number_wrapper::DecimalNumberWrapper;
use voting_system::external_data_provider::ExternalDataProvider;
use voting_system::ordered_map::OrderedMap;
use voting_system::types::{
    get_reputation_category_bonus, reputation_category_from_str, ReputationCategory,
    VotingSystemError,
};

fn id(name: &str) -> String {
    name.to_string()
}

fn set_of(names: &[&str]) -> OrderedMap<String, ()> {
    let mut set: OrderedMap<String, ()> = OrderedMap::new();
    for name in names {
        set.set(id(name), ());
    }
    set
}

fn initialize_external_data_provider() -> ExternalDataProvider {
    ExternalDataProvider::new()
}

#[test]
fn test_reputation() {
    let mut external_data_provider_client = initialize_external_data_provider();

    let user_id_1 = id("user001");
    let user_id_2 = id("user002");

    let reputation = external_data_provider_client.get_user_reputation_category(&user_id_1);
    assert!(reputation == ReputationCategory::Uncategorized);

    assert!(
        ExternalDataProvider::get_reputation_score(ReputationCategory::Uncategorized) == (0, 0)
    );
    assert!(ExternalDataProvider::get_reputation_score(ReputationCategory::Poor) == (0, 100));
    assert!(ExternalDataProvider::get_reputation_score(ReputationCategory::Average) == (0, 100));
    assert!(ExternalDataProvider::get_reputation_score(ReputationCategory::Good) == (0, 200));
    assert!(ExternalDataProvider::get_reputation_score(ReputationCategory::VeryGood) == (0, 200));
    assert!(ExternalDataProvider::get_reputation_score(ReputationCategory::Excellent) == (0, 300));

    let reputation_scores = ExternalDataProvider::get_reputation_scores();
    assert!(*reputation_scores.get(0).unwrap() == (0, 0));
    assert!(*reputation_scores.get(1).unwrap() == (0, 100));
    assert!(*reputation_scores.get(2).unwrap() == (0, 100));
    assert!(*reputation_scores.get(3).unwrap() == (0, 200));
    assert!(*reputation_scores.get(4).unwrap() == (0, 200));
    assert!(*reputation_scores.get(5).unwrap() == (0, 300));

    external_data_provider_client.mock_sample_data();

    let reputation = external_data_provider_client.get_user_reputation_category(&user_id_1);
    assert!(reputation == ReputationCategory::Excellent);
    let reputation = external_data_provider_client.get_user_reputation_category(&user_id_2);
    assert!(reputation == ReputationCategory::VeryGood);

    let mut reputation_categories =
        external_data_provider_client.get_reputation_categories().clone();
    reputation_categories.set(user_id_1.clone(), ReputationCategory::Poor);
    external_data_provider_client.set_user_reputation_categories(reputation_categories);
    let reputation = external_data_provider_client.get_user_reputation_category(&user_id_1);
    assert!(reputation == ReputationCategory::Poor);

    external_data_provider_client.set_user_reputation_category(user_id_1.clone(), "Good");
    let reputation = external_data_provider_client.get_user_reputation_category(&user_id_1);
    assert!(reputation == ReputationCategory::Good);

    let mut users_reputation_categories: OrderedMap<String, String> = OrderedMap::new();
    users_reputation_categories.set(user_id_1.clone(), id("Poor"));
    users_reputation_categories.set(user_id_2.clone(), id("Good"));
    external_data_provider_client.set_users_rep_categories(&users_reputation_categories);
    assert!(
        external_data_provider_client.get_user_reputation_category(&user_id_1)
            == ReputationCategory::Poor
    );
    assert!(
        external_data_provider_client.get_user_reputation_category(&user_id_2)
            == ReputationCategory::Good
    );

    let mut users_reputation_categories_vec: Vec<(String, String)> = Vec::new();
    for i in 0..users_reputation_categories.len() {
        users_reputation_categories_vec.push((
            users_reputation_categories.key_at(i).clone(),
            users_reputation_categories.value_at(i).clone(),
        ));
    }
    external_data_provider_client.set_users_rep_categories_vec(&users_reputation_categories_vec);
    assert!(
        external_data_provider_client.get_user_reputation_category(&user_id_1)
            == ReputationCategory::Poor
    );
    assert!(
        external_data_provider_client.get_user_reputation_category(&user_id_2)
            == ReputationCategory::Good
    );
}

#[test]
fn test_history() {
    let mut external_data_provider_client = initialize_external_data_provider();

    let user_id_1 = id("user001");
    let user_id_2 = id("user002");

    assert!(external_data_provider_client.get_user_prior_voting_history(&user_id_1).is_empty());
    assert!(external_data_provider_client.get_round_bonus_map().is_empty());

    external_data_provider_client.mock_sample_data();

    let mut round_bonus_map = external_data_provider_client.get_round_bonus_map().clone();
    assert!(round_bonus_map.len() == 4);
    round_bonus_map.set(5, (0, 400));
    external_data_provider_client.set_round_bonus_map(round_bonus_map.clone());
    let fetched_bonus_map = external_data_provider_client.get_round_bonus_map().clone();
    assert!(fetched_bonus_map.len() == 5);

    let mut round_bonus_map_vec: Vec<(u32, u32)> = Vec::new();
    for i in 0..round_bonus_map.len() {
        round_bonus_map_vec.push((
            *round_bonus_map.key_at(i),
            DecimalNumberWrapper::from_tuple(*round_bonus_map.value_at(i)).unwrap().as_raw(),
        ));
    }
    external_data_provider_client.set_round_bonus_map_vec(&round_bonus_map_vec);
    let fetched_bonus_map2 = external_data_provider_client.get_round_bonus_map().clone();
    assert!(fetched_bonus_map == fetched_bonus_map2);

    assert!(external_data_provider_client.get_prior_voting_history().len() == 2);
    external_data_provider_client.set_user_prior_voting_history(user_id_2.clone(), vec![1, 3, 4]);
    assert!(external_data_provider_client.get_prior_voting_history().len() == 3);

    assert!(external_data_provider_client.get_user_prior_voting_history(&user_id_1) == vec![2, 3]);
    external_data_provider_client.set_user_prior_voting_history(user_id_1.clone(), vec![3, 4]);
    assert!(external_data_provider_client.get_user_prior_voting_history(&user_id_1) == vec![3, 4]);
}

#[test]
fn test_delegation_rank() {
    let mut external_data_provider_client = initialize_external_data_provider();

    let user_id_1 = id("user001");
    let user_id_2 = id("user002");
    let user_id_3 = id("user003");
    let user_id_99 = id("user099");

    assert!(external_data_provider_client.get_delegation_ranks().is_empty());

    external_data_provider_client.mock_sample_data();

    assert!(external_data_provider_client.get_delegation_ranks().len() == 8);

    let ranks = external_data_provider_client.get_delegation_ranks_for_users(&vec![
        user_id_1.clone(),
        user_id_2.clone(),
        user_id_3.clone(),
    ]);
    assert!(ranks.len() == 3);
    assert!(*ranks.get(&user_id_1).unwrap() == 1);
    assert!(*ranks.get(&user_id_2).unwrap() == 2);
    assert!(*ranks.get(&user_id_3).unwrap() == 3);

    external_data_provider_client.set_delegation_rank_for_user(user_id_1.clone(), 15);

    let ranks = external_data_provider_client
        .get_delegation_ranks_for_users(&vec![user_id_1.clone(), user_id_99.clone()]);
    assert!(ranks.len() == 2);
    assert!(*ranks.get(&user_id_1).unwrap() == 15);
    assert!(*ranks.get(&user_id_99).unwrap() == 0);

    let mut users_ranks: OrderedMap<String, u32> = OrderedMap::new();
    users_ranks.set(user_id_1.clone(), 3);
    users_ranks.set(user_id_99.clone(), 6);
    external_data_provider_client.set_users_delegation_ranks(&users_ranks);

    let ranks = external_data_provider_client
        .get_delegation_ranks_for_users(&vec![user_id_1.clone(), user_id_99.clone()]);
    assert!(ranks.len() == 2);
    assert!(*ranks.get(&user_id_1).unwrap() == 3);
    assert!(*ranks.get(&user_id_99).unwrap() == 6);

    let mut users_ranks_vec: Vec<(String, u32)> = Vec::new();
    for i in 0..users_ranks.len() {
        users_ranks_vec.push((users_ranks.key_at(i).clone(), *users_ranks.value_at(i)));
    }
    external_data_provider_client.set_users_delegation_ranks_vec(&users_ranks_vec);

    let ranks = external_data_provider_client
        .get_delegation_ranks_for_users(&vec![user_id_1.clone(), user_id_99.clone()]);
    assert!(ranks.len() == 2);
    assert!(*ranks.get(&user_id_1).unwrap() == 3);
    assert!(*ranks.get(&user_id_99).unwrap() == 6);
}

#[test]
fn test_trust_map() {
    let mut external_data_provider_client = initialize_external_data_provider();

    let user_id_1 = id("user001");
    let user_id_2 = id("user002");

    assert!(external_data_provider_client.get_trust_map().get(&user_id_1).is_none());

    external_data_provider_client.mock_sample_data();

    let trust_map = external_data_provider_client.get_trust_map();
    let user_1_map = trust_map.get(&user_id_1);
    let user_2_map = trust_map.get(&user_id_2);
    assert!(user_1_map == Some(&set_of(&["user002", "user004"])));
    assert!(user_2_map == Some(&set_of(&["user001"])));
}

#[test]
fn test_set_trust_map() {
    let mut external_data_provider_client = initialize_external_data_provider();

    let user_id_1 = id("user001");
    let user_id_2 = id("user002");

    let mut new_trust_map: OrderedMap<String, OrderedMap<String, ()>> = OrderedMap::new();
    new_trust_map.set(user_id_1.clone(), set_of(&["user002"]));

    external_data_provider_client.set_trust_map(new_trust_map);

    let trust_map = external_data_provider_client.get_trust_map();
    let user_1_map = trust_map.get(&user_id_1);
    let user_2_map = trust_map.get(&user_id_2);
    assert!(user_1_map == Some(&set_of(&["user002"])));
    assert!(user_2_map.is_none())
}

#[test]
fn test_page_rank() {
    let mut external_data_provider_client = initialize_external_data_provider();

    let user_id_1 = id("user001");
    let user_id_2 = id("user002");
    let user_id_3 = id("user003");
    let user_id_4 = id("user004");

    let mut new_trust_map: OrderedMap<String, OrderedMap<String, ()>> = OrderedMap::new();
    new_trust_map.set(user_id_1.clone(), set_of(&["user002"]));
    new_trust_map.set(user_id_2.clone(), set_of(&["user003", "user004"]));
    new_trust_map.set(user_id_3.clone(), set_of(&["user001", "user004"]));
    new_trust_map.set(user_id_4.clone(), set_of(&["user002"]));

    external_data_provider_client.set_trust_map(new_trust_map);

    external_data_provider_client.calculate_page_rank().unwrap();

    let results = external_data_provider_client.get_page_rank_results();
    assert!(*results.get(&user_id_1).unwrap() == (0, 120));
    assert!(*results.get(&user_id_2).unwrap() == (0, 377));
    assert!(*results.get(&user_id_3).unwrap() == (0, 197));
    assert!(*results.get(&user_id_4).unwrap() == (0, 280));
    assert!(external_data_provider_client.get_page_rank_result_for_user(&user_id_1) == (0, 120));

    let mut new_result: OrderedMap<String, (u32, u32)> = OrderedMap::new();
    new_result.set(user_id_1.clone(), (0, 100));
    new_result.set(user_id_2.clone(), (0, 200));
    new_result.set(user_id_3.clone(), (0, 300));
    new_result.set(user_id_4.clone(), (0, 400));
    external_data_provider_client.set_page_rank_result(new_result);
    assert!(
        *external_data_provider_client.get_page_rank_results().get(&user_id_1).unwrap()
            == (0, 100)
    );
    assert!(external_data_provider_client.get_page_rank_result_for_user(&user_id_2) == (0, 200));
}

#[test]
fn test_set_trust_map_for_user() {
    let mut external_data_provider_client = initialize_external_data_provider();

    let user_id_1 = id("user001");
    let user_id_2 = id("user002");

    external_data_provider_client.set_trust_map_for_user(user_id_1.clone(), set_of(&["user002"]));

    let trust_map = external_data_provider_client.get_trust_map();
    let user_1_map = trust_map.get(&user_id_1);
    let user_2_map = trust_map.get(&user_id_2);
    assert!(user_1_map == Some(&set_of(&["user002"])));
    assert!(user_2_map.is_none());

    external_data_provider_client
        .set_trust_map_for_user_vec(user_id_1.clone(), &vec![user_id_2.clone()]);

    let trust_map = external_data_provider_client.get_trust_map();
    let user_1_map = trust_map.get(&user_id_1);
    let user_2_map = trust_map.get(&user_id_2);
    assert!(user_1_map == Some(&set_of(&["user002"])));
    assert!(user_2_map.is_none());
}

#[test]
fn setting_the_trusted_users_hands_them_back() {
    let mut external_data = ExternalDataProvider::new();
    let stored = external_data.set_trust_map_for_user(id("a"), set_of(&["c", "b"]));
    assert_eq!(stored.keys(), vec![id("b"), id("c")]);
    let stored = external_data.set_trust_map_for_user_vec(id("a"), &vec![id("z"), id("b"), id("z")]);
    assert_eq!(stored.keys(), vec![id("b"), id("z")]);
    assert_eq!(external_data.get_trust_map().get(&id("a")), Some(&set_of(&["b", "z"])));
}

#[test]
fn an_empty_trust_map_has_no_ranks() {
    let mut external_data = ExternalDataProvider::new();
    let mut ranks: OrderedMap<String, (u32, u32)> = OrderedMap::new();
    ranks.set(id("a"), (0, 1));
    external_data.set_page_rank_result(ranks);
    assert_eq!(external_data.calculate_page_rank(), Ok(()));
    assert!(external_data.get_page_rank_results().is_empty());
    assert_eq!(external_data.get_page_rank_result_for_user(&id("a")), (0, 0));
}

#[test]
fn later_entries_of_a_list_replace_earlier_ones() {
    let mut external_data = ExternalDataProvider::new();
    external_data.set_users_delegation_ranks_vec(&vec![(id("a"), 1), (id("b"), 2), (id("a"), 3)]);
    assert_eq!(external_data.get_delegation_ranks().get(&id("a")), Some(&3));
    assert_eq!(external_data.get_delegation_ranks().len(), 2);
    external_data.set_round_bonus_map_vec(&vec![(7, 1500), (7, 250), (1, 1000)]);
    assert_eq!(external_data.get_round_bonus_map().get(&7), Some(&(0, 250)));
    assert_eq!(external_data.get_round_bonus_map().get(&1), Some(&(1, 0)));
    external_data
        .set_users_rep_categories_vec(&vec![(id("a"), id("Good")), (id("a"), id("Nonsense"))]);
    assert_eq!(
        external_data.get_user_reputation_category(&id("a")),
        ReputationCategory::Uncategorized
    );
    assert_eq!(external_data.get_reputation_categories().len(), 1);
}

#[test]
fn categories_have_names_and_bonuses() {
    assert_eq!(reputation_category_from_str("Poor"), ReputationCategory::Poor);
    assert_eq!(reputation_category_from_str("Average"), ReputationCategory::Average);
    assert_eq!(reputation_category_from_str("Good"), ReputationCategory::Good);
    assert_eq!(reputation_category_from_str("VeryGood"), ReputationCategory::VeryGood);
    assert_eq!(reputation_category_from_str("Excellent"), ReputationCategory::Excellent);
    assert_eq!(reputation_category_from_str("Uncategorized"), ReputationCategory::Uncategorized);
    assert_eq!(reputation_category_from_str("excellent"), ReputationCategory::Uncategorized);
    assert_eq!(get_reputation_category_bonus(ReputationCategory::Uncategorized), 0);
    assert_eq!(get_reputation_category_bonus(ReputationCategory::Poor), 0);
    assert_eq!(get_reputation_category_bonus(ReputationCategory::Average), 2);
    assert_eq!(get_reputation_category_bonus(ReputationCategory::Good), 3);
    assert_eq!(get_reputation_category_bonus(ReputationCategory::VeryGood), 4);
    assert_eq!(get_reputation_category_bonus(ReputationCategory::Excellent), 5);
}

#[test]
fn sample_users_have_their_number_in_their_name() {
    assert_eq!(ExternalDataProvider::generate_username(1), "user001");
    assert_eq!(ExternalDataProvider::generate_username(9), "user009");
    assert_eq!(ExternalDataProvider::generate_username(0), "userXXX");
    assert_eq!(ExternalDataProvider::generate_username(10), "userXXX");
}

#[test]
fn errors_can_be_told_apart() {
    assert_ne!(VotingSystemError::DivisionByZero, VotingSystemError::InvalidFractional);
}
