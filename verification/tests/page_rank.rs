use voting_system::ordered_map::OrderedMap;
use voting_system::page_rank::{list_contains, Rank};
use voting_system::trust_graph::number_users;
use voting_system::types::VotingSystemError;

fn id(name: &str) -> String {
    name.to_string()
}

fn links(names: &[&str]) -> OrderedMap<String, ()> {
    let mut set: OrderedMap<String, ()> = OrderedMap::new();
    for name in names {
        set.set(id(name), ());
    }
    set
}

fn rank_of(ranks: &OrderedMap<String, (u32, u32)>, name: &str) -> (u32, u32) {
    *ranks.get(&id(name)).unwrap()
}

#[test]
fn page_rank_test_test_simple() {
    let page_a = id("A");
    let page_b = id("B");
    let page_c = id("C");
    let page_d = id("D");
    let page_e = id("E");

    let mut page_rank: Rank = Rank::new();

    page_rank.add_page(page_a.clone(), &links(&["B", "C"]));

    page_rank.add_page(page_b.clone(), &links(&["A"]));

    page_rank.add_page(page_c.clone(), &links(&["A", "B"]));

    page_rank.add_page(page_d.clone(), &links(&["A"]));

    let ranks = page_rank.calculate();

    assert!(*ranks.get(&page_a).unwrap() == (0, 415));
    assert!(*ranks.get(&page_b).unwrap() == (0, 303));
    assert!(*ranks.get(&page_c).unwrap() == (0, 213));
    assert!(*ranks.get(&page_d).unwrap() == (0, 37));

    page_rank.add_page(page_e.clone(), &links(&[]));

    let ranks = page_rank.calculate();

    assert!(*ranks.get(&page_a).unwrap() == (0, 337));
    assert!(*ranks.get(&page_b).unwrap() == (0, 246));
    assert!(*ranks.get(&page_c).unwrap() == (0, 173));
    assert!(*ranks.get(&page_d).unwrap() == (0, 30));
    assert!(*ranks.get(&page_e).unwrap() == (0, 30));

    assert!(ranks.get(&page_a).unwrap() > ranks.get(&page_b).unwrap());
    assert!(ranks.get(&page_b).unwrap() > ranks.get(&page_c).unwrap());
    assert!(ranks.get(&page_c).unwrap() > ranks.get(&page_d).unwrap());
}

fn square() -> Rank {
    let mut rank = Rank::new();
    rank.add_page(id("A"), &links(&["B", "D"]));
    rank.add_page(id("B"), &links(&["A"]));
    rank.add_page(id("C"), &links(&["A", "B"]));
    rank.add_page(id("D"), &links(&["C"]));
    rank
}

#[test]
fn ranks_of_four_users_that_trust_each_other() {
    let ranks = square().calculate();
    assert_eq!(ranks.len(), 4);
    assert_eq!(rank_of(&ranks, "A"), (0, 338));
    assert_eq!(rank_of(&ranks, "B"), (0, 260));
    assert_eq!(rank_of(&ranks, "C"), (0, 190));
    assert_eq!(rank_of(&ranks, "D"), (0, 180));
}

#[test]
fn the_order_of_the_ranks_does_not_depend_on_the_number_of_rounds() {
    for iterations in [10u32, 20, 50, 100, 1000] {
        let ranks = square().calculate_custom_params(iterations, (0, 850)).unwrap();
        assert!(rank_of(&ranks, "A") > rank_of(&ranks, "B"));
        assert!(rank_of(&ranks, "B") > rank_of(&ranks, "C"));
        assert!(rank_of(&ranks, "C") > rank_of(&ranks, "D"));
    }
}

#[test]
fn an_empty_graph_has_no_ranks() {
    let rank = Rank::new();
    assert!(rank.calculate().is_empty());
    assert!(rank.calculate_custom_params(3, (0, 500)).unwrap().is_empty());
}

#[test]
fn without_rounds_every_node_has_the_same_rank() {
    let ranks = square().calculate_custom_params(0, (0, 850)).unwrap();
    for name in ["A", "B", "C", "D"] {
        assert_eq!(rank_of(&ranks, name), (0, 250));
    }
}

#[test]
fn one_round_by_hand() {
    // base = (1 - 0.85) / 4 = 0.037; every share is 0.85 * 0.25 = 0.212 over the outdegree.
    let ranks = square().calculate_custom_params(1, (0, 850)).unwrap();
    assert_eq!(rank_of(&ranks, "A"), (0, 355));
    assert_eq!(rank_of(&ranks, "B"), (0, 249));
    assert_eq!(rank_of(&ranks, "C"), (0, 249));
    assert_eq!(rank_of(&ranks, "D"), (0, 143));
}

#[test]
fn a_user_that_trusts_nobody_hands_its_rank_to_nobody() {
    let mut rank = Rank::new();
    rank.add_page(id("A"), &links(&["B"]));
    let ranks = rank.calculate_custom_params(1, (0, 850)).unwrap();
    // N = 2, base = 0.15 / 2 = 0.075, share of A = 0.85 * 0.5 = 0.425
    assert_eq!(rank_of(&ranks, "A"), (0, 75));
    assert_eq!(rank_of(&ranks, "B"), (0, 500));
    let ranks = rank.calculate_custom_params(2, (0, 850)).unwrap();
    assert_eq!(rank_of(&ranks, "A"), (0, 75));
    assert_eq!(rank_of(&ranks, "B"), (0, 138));
}

#[test]
fn nodes_are_all_sources_and_destinations() {
    let mut rank = Rank::new();
    rank.add_page(id("B"), &links(&["Z", "A"]));
    rank.add_page(id("A"), &links(&["B"]));
    rank.add_page(id("B"), &links(&["C"]));
    assert_eq!(rank.nodes, vec![id("B"), id("A"), id("Z"), id("C")]);
    assert_eq!(rank.edges.get(&id("B")).unwrap(), &vec![id("A"), id("Z"), id("C")]);
    assert_eq!(rank.edges.get(&id("A")).unwrap(), &vec![id("B")]);
    assert!(rank.edges.get(&id("Z")).is_none());
    assert!(list_contains(&rank.nodes, &id("Z")));
    assert!(!list_contains(&rank.nodes, &id("Y")));
}

#[test]
fn from_pages_adds_the_pages_in_key_order() {
    let mut pages: OrderedMap<String, OrderedMap<String, ()>> = OrderedMap::new();
    pages.set(id("C"), links(&["A", "B"]));
    pages.set(id("A"), links(&["B", "D"]));
    pages.set(id("D"), links(&["C"]));
    pages.set(id("B"), links(&["A"]));
    let rank = Rank::from_pages(&pages);
    assert_eq!(rank.nodes, vec![id("A"), id("B"), id("D"), id("C")]);
    assert_eq!(rank.edges.get(&id("A")).unwrap(), &vec![id("B"), id("D")]);
    assert_eq!(rank.calculate(), square().calculate());
}

#[test]
fn a_damping_factor_that_is_no_number_is_rejected() {
    assert_eq!(
        square().calculate_custom_params(1, (0, 1000)),
        Err(VotingSystemError::InvalidFractional)
    );
    assert!(square().calculate_custom_params(0, (0, 1000)).is_ok());
}

#[test]
fn a_graph_built_page_by_page_is_well_formed() {
    let mut rank = square();
    assert!(rank.is_well_formed());
    assert!(Rank::new().is_well_formed());
    let first = rank.edges.get(&id("A")).unwrap().clone();
    rank.edges.set(id("A"), first);
    assert!(rank.is_well_formed());
}

#[test]
fn the_ranks_add_up_to_no_more_than_one() {
    for iterations in [0u32, 1, 2, 3, 10, 1000] {
        for damping in [(0, 0), (0, 500), (0, 850), (1, 0)] {
            let ranks = square().calculate_custom_params(iterations, damping).unwrap();
            let mut total = 0;
            for i in 0..ranks.len() {
                let rank = ranks.value_at(i);
                assert!(rank.1 < 1000);
                total += rank.0 * 1000 + rank.1;
            }
            assert!(total <= 1000);
        }
    }
}

#[test]
fn a_graph_with_a_node_twice_is_not_well_formed() {
    let mut rank = square();
    rank.nodes.push(id("A"));
    assert!(!rank.is_well_formed());
    let mut rank = square();
    rank.edges.set(id("E"), vec![id("A")]);
    assert!(!rank.is_well_formed());
    rank.nodes.push(id("E"));
    assert!(rank.is_well_formed());
}

#[test]
fn users_are_numbered_in_key_order() {
    let edge = |from: &str, to: &str| (from.to_string(), to.to_string());
    let edges = vec![edge("bob", "alice"), edge("alice", "carol"), edge("bob", "carol")];
    let (names, numbered) = number_users(&edges);
    assert_eq!(names, vec!["alice".to_string(), "bob".to_string(), "carol".to_string()]);
    assert_eq!(numbered, vec![(1, 0), (0, 2), (1, 2)]);

    let (names, numbered) = number_users(&vec![edge("z", "z"), edge("Z", "z")]);
    assert_eq!(names, vec!["Z".to_string(), "z".to_string()]);
    assert_eq!(numbered, vec![(1, 1), (0, 1)]);

    let (names, numbered) = number_users(&vec![]);
    assert!(names.is_empty());
    assert!(numbered.is_empty());
}
