use krpsim::ast::{Process, Resource, Simulation};
use krpsim::check::{check, Output};
use krpsim::dna::{build_dnas, build_favorite_steps, votes, DNA};
use krpsim::genetic::{
    breed_one, generate, generate_one, get_available_steps, select, solve, Config, GeneticSolver,
    Stats, FAILED_SCORE,
};
use krpsim::inventory::Inventory;
use krpsim::score::{BroScore, Scorer};
use rand::rngs::StdRng;
use rand::SeedableRng;

fn resource(name: &str, quantity: usize) -> Resource {
    Resource { name: name.to_string(), quantity }
}

fn process(name: &str, input: &[(&str, usize)], output: &[(&str, usize)], duration: usize) -> Process {
    Process::new(
        name.to_string(),
        input.iter().map(|(n, q)| resource(n, *q)).collect(),
        output.iter().map(|(n, q)| resource(n, *q)).collect(),
        duration,
    )
}

fn names(list: &[&str]) -> Vec<String> {
    list.iter().map(|name| name.to_string()).collect()
}

fn ikea() -> Simulation {
    let mut inventory = Inventory::new();
    inventory.insert("planche".to_string(), 7);
    Simulation {
        inventory,
        processes: vec![
            process("do_montant", &[("planche", 1)], &[("montant", 1)], 15),
            process("do_fond", &[("planche", 2)], &[("fond", 1)], 20),
            process("do_etagere", &[("planche", 1)], &[("etagere", 1)], 10),
            process(
                "do_armoire_ikea",
                &[("montant", 2), ("fond", 1), ("etagere", 3)],
                &[("armoire", 1)],
                30,
            ),
        ],
        optimize: vec!["armoire".to_string()],
        optimize_time: false,
    }
}

fn config() -> Config {
    Config {
        mutation_chance: 10_000,
        max_depth: 12,
        generation_size: 40,
        iterations: 6,
        time_weight: 0,
    }
}

fn runs(simulation: &Simulation, path: &Vec<String>) -> bool {
    check(simulation.clone(), Output { steps: path.clone() }).is_ok()
}

#[test]
fn available_steps_are_those_that_the_stock_covers() {
    let simulation = ikea();
    let steps = get_available_steps(&simulation, &simulation.inventory);
    let found: Vec<String> = steps.iter().map(|(name, _)| name.clone()).collect();
    assert_eq!(found, names(&["do_montant", "do_fond", "do_etagere"]));
    assert_eq!(steps[1].1.get(&"planche".to_string()), Some(5));
    assert_eq!(steps[1].1.get(&"fond".to_string()), Some(1));

    let mut low = Inventory::new();
    low.insert("planche".to_string(), 1);
    let steps = get_available_steps(&simulation, &low);
    let found: Vec<String> = steps.iter().map(|(name, _)| name.clone()).collect();
    assert_eq!(found, names(&["do_montant", "do_etagere"]));
    assert!(get_available_steps(&simulation, &Inventory::new()).is_empty());
}

#[test]
fn a_shadowed_process_is_not_offered() {
    let mut simulation = ikea();
    simulation
        .processes
        .push(process("do_fond", &[], &[("fond", 100)], 1));
    let steps = get_available_steps(&simulation, &Inventory::new());
    assert!(steps.is_empty());
}

#[test]
fn generated_paths_run_and_stop_only_when_stuck() {
    let simulation = ikea();
    for seed in 0..50 {
        let mut rng = StdRng::seed_from_u64(seed);
        let path = generate_one(&simulation, &mut rng, 20, &simulation.inventory);
        assert!(path.len() <= 20);
        let stock = check(simulation.clone(), Output { steps: path.clone() }).unwrap();
        if path.len() < 20 {
            assert!(get_available_steps(&simulation, &stock).is_empty());
        }
    }
}

#[test]
fn generated_paths_respect_the_depth() {
    let simulation = ikea();
    let mut rng = StdRng::seed_from_u64(7);
    assert_eq!(generate_one(&simulation, &mut rng, 0, &simulation.inventory), Vec::<String>::new());
    let path = generate_one(&simulation, &mut rng, 3, &simulation.inventory);
    assert_eq!(path.len(), 3);
    let population = generate(&simulation, &mut rng, 9, 4);
    assert_eq!(population.len(), 9);
    for path in population.iter() {
        assert!(path.len() <= 4);
        assert!(runs(&simulation, path));
    }
}

#[test]
fn same_seed_same_paths() {
    let simulation = ikea();
    let mut first = StdRng::seed_from_u64(99);
    let mut second = StdRng::seed_from_u64(99);
    assert_eq!(
        generate(&simulation, &mut first, 5, 10),
        generate(&simulation, &mut second, 5, 10)
    );
}

#[test]
fn favorite_steps_are_ranked_by_rarity() {
    let path = names(&["a", "b", "a", "c", "a", "b"]);
    assert_eq!(build_favorite_steps(&path), names(&["c", "b", "a"]));
    let ties = names(&["x", "y", "z", "y", "x", "z"]);
    assert_eq!(build_favorite_steps(&ties), names(&["x", "y", "z"]));
    assert_eq!(build_favorite_steps(&vec![]), Vec::<String>::new());
}

#[test]
fn votes_follow_the_share_of_the_score() {
    assert_eq!(votes(1, 10), 10);
    assert_eq!(votes(1, 3), 33);
    assert_eq!(votes(2, 3), 66);
    assert_eq!(votes(3, 3), 100);
    assert_eq!(votes(1000, 4), 100);
    assert_eq!(votes(0, 4), 0);
    assert_eq!(votes(-5, 4), 0);
    assert_eq!(votes(FAILED_SCORE, 4), 0);
    assert_eq!(votes(5, 0), 100);
}

#[test]
fn a_parent_prefers_its_own_step_then_its_favorites() {
    let dna = DNA::new(names(&["a", "b", "a", "c"]), 1, 4);
    let a = "a".to_string();
    let b = "b".to_string();
    let c = "c".to_string();
    let d = "d".to_string();
    // own step at the index, where it is available
    assert_eq!(dna.pick_step(1, &vec![&a, &b]), "b");
    // else the rarest favorite that is available: b and c occur once, b first
    assert_eq!(dna.pick_step(0, &vec![&c, &b]), "b");
    assert_eq!(dna.pick_step(9, &vec![&a, &c]), "c");
    // else the first available step
    assert_eq!(dna.pick_step(0, &vec![&d]), "d");
    assert_eq!(dna.best_available_step(&vec![&d, &a]), "a");
    // 100 * 1 / 4 votes
    assert_eq!(dna.pick_steps(1, &vec![&a, &b]), names(&["b"; 25]));
    let silent = DNA::new(names(&["a"]), -3, 4);
    assert!(silent.pick_steps(0, &vec![&a]).is_empty());
}

#[test]
fn one_dna_per_parent() {
    let parents = vec![(4, names(&["a"])), (1, names(&["b", "b"]))];
    let dnas = build_dnas(parents);
    assert_eq!(dnas.len(), 2);
    let a = "a".to_string();
    let b = "b".to_string();
    assert_eq!(dnas[0].pick_steps(0, &vec![&a, &b]).len(), 100);
    assert_eq!(dnas[1].pick_steps(0, &vec![&a, &b]), names(&["b"; 50]));
}

#[test]
fn bred_paths_run_and_stop_only_when_stuck() {
    let simulation = ikea();
    let parents = vec![
        (
            1031,
            names(&[
                "do_montant",
                "do_montant",
                "do_fond",
                "do_etagere",
                "do_etagere",
                "do_etagere",
                "do_armoire_ikea",
            ]),
        ),
        (31, names(&["do_fond", "do_fond", "do_fond"])),
        (-4, names(&["do_etagere"])),
    ];
    let dnas = build_dnas(parents);
    for seed in 0..30 {
        let mut rng = StdRng::seed_from_u64(seed);
        let path = breed_one(&simulation, &mut rng, &dnas, 9);
        assert!(path.len() <= 9);
        let stock = check(simulation.clone(), Output { steps: path.clone() }).unwrap();
        if path.len() < 9 {
            assert!(get_available_steps(&simulation, &stock).is_empty());
        }
    }
    // without a vote the step is drawn among the available ones
    let mut rng = StdRng::seed_from_u64(1);
    let path = breed_one(&simulation, &mut rng, &vec![], 3);
    assert_eq!(path.len(), 3);
    assert!(runs(&simulation, &path));
}

#[test]
fn a_single_parent_with_all_votes_is_copied() {
    let simulation = ikea();
    let best = names(&[
        "do_montant",
        "do_montant",
        "do_fond",
        "do_etagere",
        "do_etagere",
        "do_etagere",
        "do_armoire_ikea",
    ]);
    let dnas = build_dnas(vec![(1031, best.clone())]);
    let mut rng = StdRng::seed_from_u64(3);
    assert_eq!(breed_one(&simulation, &mut rng, &dnas, 7), best);
}

#[test]
fn selection_keeps_the_best_in_order() {
    let simulation = ikea();
    let scorer = Scorer::new(simulation.clone(), 0, BroScore::Hugo).unwrap();
    let mut stats = Stats::new();
    let paths = vec![
        names(&["do_montant"]),                 // 11
        names(&["do_armoire_ikea"]),            // cannot run
        names(&["do_montant", "do_fond"]),      // 21
        names(&["do_etagere"]),                 // 11
        names(&["do_fond", "do_etagere", "do_montant"]), // 31
    ];
    let parents = select(&scorer, &mut stats, 3, paths.clone());
    assert_eq!(
        parents,
        vec![
            (31, names(&["do_fond", "do_etagere", "do_montant"])),
            (21, names(&["do_montant", "do_fond"])),
            (11, names(&["do_montant"])),
        ]
    );
    assert_eq!(stats.best_scores, vec![31]);
    // (31 + 21 + 11 + 11 + i64::MIN) / 5, towards zero
    assert_eq!(stats.average_scores, vec![(74 + FAILED_SCORE as i128) as i64 / 5]);

    let all = select(&scorer, &mut stats, 10, paths);
    assert_eq!(all.len(), 5);
    assert_eq!(all[4], (FAILED_SCORE, names(&["do_armoire_ikea"])));
    assert_eq!(all[2], (11, names(&["do_montant"])));
    assert_eq!(all[3], (11, names(&["do_etagere"])));
    for pair in all.windows(2) {
        assert!(pair[0].0 >= pair[1].0);
    }
    assert!(select(&scorer, &mut stats, 3, vec![]).is_empty());
    assert_eq!(stats.best_scores, vec![31, 31, 0]);
    assert_eq!(stats.average_scores[2], 0);
}

#[test]
fn stats_record_mean_and_best() {
    let mut stats = Stats::new();
    stats.update_scores(vec![9, 4, 2]);
    stats.update_scores(vec![-1, -2, -4]);
    stats.update_scores(vec![]);
    stats.update_scores(vec![i64::MAX, i64::MAX]);
    assert_eq!(stats.average_scores, vec![5, -2, 0, i64::MAX]);
    assert_eq!(stats.best_scores, vec![9, -1, 0, i64::MAX]);
}

#[test]
fn solver_keeps_a_tenth_as_parents() {
    let solver = GeneticSolver::new(config(), ikea()).unwrap();
    assert_eq!(solver.parents_size, 4);
    assert_eq!(solver.weights.iter().sum::<usize>(), 40);
    assert_eq!(solver.weights, vec![13, 8, 5, 3, 2, 1, 1, 1, 1, 1, 1, 1, 1, 1]);
    let small = GeneticSolver::new(Config { generation_size: 5, ..config() }, ikea()).unwrap();
    assert_eq!(small.parents_size, 1);
    let none = GeneticSolver::new(Config { generation_size: 0, ..config() }, ikea()).unwrap();
    assert_eq!(none.parents_size, 1);
    assert!(none.weights.is_empty());
}

#[test]
fn solver_selection_follows_the_law() {
    let mut solver = GeneticSolver::new(config(), ikea()).unwrap();
    let mut rng = StdRng::seed_from_u64(5);
    let generation = solver.generate(&mut rng);
    assert_eq!(generation.len(), 40);
    let parents = solver.select(generation);
    assert_eq!(parents.len(), 4);
    for pair in parents.windows(2) {
        assert!(pair[0].0 >= pair[1].0);
    }
    let children = solver.reproduce(&mut rng, parents);
    assert_eq!(children.len(), 40);
    for child in children.iter() {
        assert!(child.len() <= 12);
        assert!(runs(&solver.simulation, child));
    }
}

#[test]
fn search_finds_the_wardrobe() {
    let simulation = ikea();
    let (production, stats) = solve(simulation.clone(), config(), 42).unwrap();
    assert_eq!(stats.average_scores.len(), 6);
    assert_eq!(stats.best_scores.len(), 6);
    let steps: Vec<String> = production.iter().flat_map(|(_, steps)| steps.clone()).collect();
    assert!(steps.len() <= 12);
    let stock = check(simulation, Output { steps }).unwrap();
    assert_eq!(stock.get(&"armoire".to_string()), Some(1));
    assert_eq!(stats.best_scores[5], 1031);
    for pair in stats.best_scores.windows(2) {
        assert!(pair[0] <= pair[1] || pair[0] > 0);
    }
}

#[test]
fn search_is_repeatable_from_a_seed() {
    let first = solve(ikea(), config(), 2024).unwrap();
    let second = solve(ikea(), config(), 2024).unwrap();
    assert_eq!(first.0, second.0);
    assert_eq!(first.1.best_scores, second.1.best_scores);
    assert_eq!(first.1.average_scores, second.1.average_scores);
}

#[test]
fn search_without_generations_gives_no_batch() {
    let (production, stats) = solve(ikea(), Config { iterations: 0, ..config() }, 1).unwrap();
    assert!(production.is_empty());
    assert!(stats.best_scores.is_empty());
    let (production, stats) =
        solve(ikea(), Config { generation_size: 0, ..config() }, 1).unwrap();
    assert!(production.is_empty());
    assert_eq!(stats.best_scores, vec![0; 6]);
}
