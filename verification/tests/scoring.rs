use krpsim::ast::{Process, Resource, Simulation};
use krpsim::error::Error;
use krpsim::inventory::Inventory;
use krpsim::score::{
    build_score_map, build_score_map_hugo, build_score_map_leo, find_dependencies, leo_score,
    BroScore, ScoreMap, Scorer,
};

fn resource(name: &str, quantity: usize) -> Resource {
    Resource { name: name.to_string(), quantity }
}

fn process(name: &str, input: &[(&str, usize)], output: &[(&str, usize)], duration: usize) -> Process {
    Process::new(
        name.to_string(),
        input.iter().map(|(n, q)| resource(n, *q)).collect(),
        output.iter().map(|(n, q)| resource(n, *q)).collect(),
        duration,
    )
}

fn names(list: &[&str]) -> Vec<String> {
    list.iter().map(|name| name.to_string()).collect()
}

fn ikea(optimize_time: bool) -> Simulation {
    let mut inventory = Inventory::new();
    inventory.insert("planche".to_string(), 7);
    Simulation {
        inventory,
        processes: vec![
            process("do_montant", &[("planche", 1)], &[("montant", 1)], 15),
            process("do_fond", &[("planche", 2)], &[("fond", 1)], 20),
            process("do_etagere", &[("planche", 1)], &[("etagere", 1)], 10),
            process(
                "do_armoire_ikea",
                &[("montant", 2), ("fond", 1), ("etagere", 3)],
                &[("armoire", 1)],
                30,
            ),
        ],
        optimize: vec!["armoire".to_string()],
        optimize_time,
    }
}

fn weight(map: &ScoreMap, name: &str) -> Option<i64> {
    map.get(&name.to_string())
}

#[test]
fn dependencies_are_the_other_inputs_of_the_producers() {
    let simulation = ikea(false);
    assert_eq!(
        find_dependencies(&simulation, &"armoire".to_string()),
        Some(names(&["montant", "fond", "etagere"]))
    );
    assert_eq!(
        find_dependencies(&simulation, &"montant".to_string()),
        Some(names(&["planche"]))
    );
    assert_eq!(find_dependencies(&simulation, &"planche".to_string()), None);
}

#[test]
fn weighted_map_of_the_furniture_catalog() {
    let map = build_score_map_hugo(&ikea(false), 100).unwrap();
    assert_eq!(weight(&map, "planche"), Some(1));
    assert_eq!(weight(&map, "montant"), Some(10));
    assert_eq!(weight(&map, "fond"), Some(10));
    assert_eq!(weight(&map, "etagere"), Some(10));
    assert_eq!(weight(&map, "armoire"), Some(1000));
    assert_eq!(weight(&map, "sapin"), None);
    assert_eq!(map.len(), 5);
}

#[test]
fn target_outweighs_its_dependencies_at_any_depth() {
    let mut inventory = Inventory::new();
    inventory.insert("ore".to_string(), 5);
    let simulation = Simulation {
        inventory,
        processes: vec![
            process("smelt", &[("ore", 1)], &[("iron", 1)], 1),
            process("forge", &[("iron", 1)], &[("blade", 1)], 1),
            process("mount", &[("blade", 1), ("ore", 1)], &[("sword", 1)], 1),
        ],
        optimize: vec!["sword".to_string()],
        optimize_time: false,
    };
    let map = build_score_map_hugo(&simulation, 100).unwrap();
    assert_eq!(weight(&map, "ore"), Some(1));
    assert_eq!(weight(&map, "iron"), Some(10));
    assert_eq!(weight(&map, "blade"), Some(100));
    assert_eq!(weight(&map, "sword"), Some(10000));
    let target = weight(&map, "sword").unwrap();
    for i in 0..map.len() {
        if map.name_at(i) != "sword" {
            assert!(map.weight_at(i) < target);
        }
    }
}

#[test]
fn a_cycle_is_walked_once_per_branch() {
    let simulation = Simulation {
        inventory: Inventory::new(),
        processes: vec![
            process("a_from_b", &[("b", 1)], &[("a", 1)], 1),
            process("b_from_a", &[("a", 1)], &[("b", 1)], 1),
        ],
        optimize: vec!["a".to_string()],
        optimize_time: false,
    };
    let map = build_score_map_hugo(&simulation, 100).unwrap();
    // b is expanded below a; below b, a is met again and weighs 1 there.
    assert_eq!(weight(&map, "b"), Some(10));
    assert_eq!(weight(&map, "a"), Some(1000));
}

#[test]
fn a_weight_beyond_the_machine_is_an_error() {
    let mut processes = vec![];
    for i in 0..25 {
        processes.push(process(
            &format!("p{}", i),
            &[(&format!("r{}", i + 1), 1)],
            &[(&format!("r{}", i), 1)],
            1,
        ));
    }
    let simulation = Simulation {
        inventory: Inventory::new(),
        processes,
        optimize: vec!["r0".to_string()],
        optimize_time: false,
    };
    // r25 is raw and weighs 1, so r6 would weigh ten to the nineteenth.
    assert_eq!(
        build_score_map_hugo(&simulation, 100).err(),
        Some(Error::Overflow("r6".to_string()))
    );
}

#[test]
fn flat_map_gives_every_target_one() {
    let mut simulation = ikea(false);
    simulation.optimize = names(&["armoire", "fond", "armoire"]);
    let map = build_score_map_leo(&simulation, 100);
    assert_eq!(map.len(), 2);
    assert_eq!(weight(&map, "armoire"), Some(1));
    assert_eq!(weight(&map, "fond"), Some(1));
    let same = build_score_map(&simulation, 100, BroScore::Leo).unwrap();
    assert_eq!(same.len(), 2);
}

#[test]
fn score_map_records_the_greater_weight() {
    let mut map = ScoreMap::new();
    map.record("wood".to_string(), 10);
    map.record("wood".to_string(), 3);
    map.record("iron".to_string(), 7);
    assert_eq!(weight(&map, "wood"), Some(10));
    assert_eq!(map.max_weight(), 10);
    map.force("wood".to_string(), 2);
    assert_eq!(weight(&map, "wood"), Some(2));
    assert_eq!(map.max_weight(), 7);
    assert_eq!(ScoreMap::new().max_weight(), 1);
}

#[test]
fn score_adds_the_weights_of_what_the_stock_holds() {
    let scorer = Scorer::new(ikea(false), 1_000_000, BroScore::Hugo).unwrap();
    // planche 1 + montant 10
    assert_eq!(scorer.score(&names(&["do_montant"])), Ok(11));
    // planche 1 + montant 10 + fond 10 + etagere 10 + armoire 1000
    let full = names(&[
        "do_montant",
        "do_montant",
        "do_fond",
        "do_etagere",
        "do_etagere",
        "do_etagere",
        "do_armoire_ikea",
    ]);
    assert_eq!(scorer.score(&full), Ok(1031));
    assert_eq!(scorer.score(&vec![]), Ok(1));
}

#[test]
fn score_is_the_same_every_time() {
    let scorer = Scorer::new(ikea(true), 250_000, BroScore::Hugo).unwrap();
    let path = names(&["do_montant", "do_fond", "do_etagere"]);
    let first = scorer.score(&path);
    let second = scorer.score(&path);
    assert_eq!(first, second);
    // 1 + 10 + 10 + 10, less round(45 * 0.25) = round(11.25) = 11
    assert_eq!(first, Ok(20));
}

#[test]
fn time_counts_only_where_the_catalog_optimises_it() {
    let timed = Scorer::new(ikea(true), 1_000_000, BroScore::Hugo).unwrap();
    let untimed = Scorer::new(ikea(false), 1_000_000, BroScore::Hugo).unwrap();
    let path = names(&["do_montant"]);
    assert_eq!(timed.score(&path), Ok(11 - 15));
    assert_eq!(untimed.score(&path), Ok(11));
    // halves round upwards: 15 * 0.1 = 1.5 -> 2
    let tenth = Scorer::new(ikea(true), 100_000, BroScore::Hugo).unwrap();
    assert_eq!(tenth.score(&path), Ok(11 - 2));
}

#[test]
fn score_fails_as_the_run_fails() {
    let scorer = Scorer::new(ikea(false), 0, BroScore::Leo).unwrap();
    assert_eq!(
        scorer.score(&names(&["do_armoire_ikea"])),
        Err(Error::InsufficientResource("montant".to_string()))
    );
    assert_eq!(
        scorer.score(&names(&["do_what"])),
        Err(Error::UnknownProcess("do_what".to_string()))
    );
}

#[test]
fn leo_score_counts_the_targets_held() {
    let simulation = ikea(false);
    let map = build_score_map_leo(&simulation, 100);
    let full = names(&[
        "do_montant",
        "do_montant",
        "do_fond",
        "do_etagere",
        "do_etagere",
        "do_etagere",
        "do_armoire_ikea",
    ]);
    assert_eq!(leo_score(&simulation, &map, 0, &full), Ok(1));
    assert_eq!(leo_score(&simulation, &map, 0, &names(&["do_fond"])), Ok(0));
    assert_eq!(leo_score(&simulation, &map, 1_000_000, &names(&["do_fond"])), Ok(-20));
}
