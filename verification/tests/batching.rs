use krpsim::ast::{Process, Resource, Simulation};
use krpsim::error::Error;
use krpsim::inventory::Inventory;
use krpsim::simulate::simulate;
use krpsim::solver::{batchify, create_batch, resolve, Batch};

fn resource(name: &str, quantity: usize) -> Resource {
    Resource { name: name.to_string(), quantity }
}

fn ikea() -> Simulation {
    let mut inventory = Inventory::new();
    inventory.insert("planche".to_string(), 7);
    Simulation {
        inventory,
        processes: vec![
            Process::new(
                "do_montant".to_string(),
                vec![resource("planche", 1)],
                vec![resource("montant", 1)],
                15,
            ),
            Process::new(
                "do_fond".to_string(),
                vec![resource("planche", 2)],
                vec![resource("fond", 1)],
                20,
            ),
            Process::new(
                "do_etagere".to_string(),
                vec![resource("planche", 1)],
                vec![resource("etagere", 1)],
                10,
            ),
            Process::new(
                "do_armoire_ikea".to_string(),
                vec![resource("montant", 2), resource("fond", 1), resource("etagere", 3)],
                vec![resource("armoire", 1)],
                30,
            ),
        ],
        optimize: vec!["armoire".to_string()],
        optimize_time: true,
    }
}

fn names(list: &[&str]) -> Vec<String> {
    list.iter().map(|name| name.to_string()).collect()
}

#[test]
fn batchify_groups_steps_that_share_a_stock() {
    let processes = names(&[
        "do_montant",
        "do_montant",
        "do_fond",
        "do_etagere",
        "do_etagere",
        "do_etagere",
        "do_armoire_ikea",
    ]);
    let expected: Vec<Batch> = vec![
        (
            20,
            names(&[
                "do_montant",
                "do_montant",
                "do_fond",
                "do_etagere",
                "do_etagere",
                "do_etagere",
            ]),
        ),
        (30, names(&["do_armoire_ikea"])),
    ];
    assert_eq!(batchify(&ikea(), processes), Ok(expected));
}

#[test]
fn batchify_of_nothing_is_nothing() {
    assert_eq!(batchify(&ikea(), vec![]), Ok(vec![]));
}

#[test]
fn batchify_rejects_an_unknown_process() {
    let path = names(&["do_montant", "do_chaise", "do_rien"]);
    assert_eq!(
        batchify(&ikea(), path),
        Err(Error::UnknownProcess("do_chaise".to_string()))
    );
}

#[test]
fn batchify_rejects_a_first_step_without_stock() {
    let path = names(&["do_armoire_ikea"]);
    assert_eq!(
        batchify(&ikea(), path),
        Err(Error::InsufficientResource("montant".to_string()))
    );
}

#[test]
fn batchify_opens_a_batch_when_the_stock_runs_out() {
    // Eight planks are asked of seven: the eighth step opens a batch whose
    // stock is the opening stock plus what the first batch made.
    let path = names(&[
        "do_etagere",
        "do_etagere",
        "do_etagere",
        "do_etagere",
        "do_etagere",
        "do_etagere",
        "do_etagere",
        "do_montant",
        "do_fond",
    ]);
    let expected: Vec<Batch> = vec![
        (10, names(&["do_etagere"; 7])),
        (20, names(&["do_montant", "do_fond"])),
    ];
    assert_eq!(batchify(&ikea(), path), Ok(expected));
}

#[test]
fn create_batch_takes_the_longest_duration() {
    let simulation = ikea();
    let found = resolve(&simulation, &names(&["do_etagere", "do_fond", "do_montant"])).unwrap();
    assert_eq!(
        create_batch(&found),
        Some((20, names(&["do_etagere", "do_fond", "do_montant"])))
    );
    assert_eq!(create_batch(&vec![]), None);
}

#[test]
fn simulate_step_by_step_adds_the_durations() {
    let simulation = ikea();
    let path = names(&["do_montant", "do_montant", "do_fond"]);
    let (stock, duration) = simulate(&simulation, &path, false).unwrap();
    assert_eq!(duration, 50);
    assert_eq!(stock.get(&"planche".to_string()), Some(3));
    assert_eq!(stock.get(&"montant".to_string()), Some(2));
    assert_eq!(stock.get(&"fond".to_string()), Some(1));
    assert_eq!(stock.get(&"etagere".to_string()), None);
}

#[test]
fn simulate_by_batches_adds_the_batch_durations() {
    let simulation = ikea();
    let path = names(&[
        "do_montant",
        "do_montant",
        "do_fond",
        "do_etagere",
        "do_etagere",
        "do_etagere",
        "do_armoire_ikea",
    ]);
    let (stock, duration) = simulate(&simulation, &path, true).unwrap();
    assert_eq!(duration, 50);
    assert_eq!(stock.get(&"armoire".to_string()), Some(1));
    assert_eq!(stock.get(&"planche".to_string()), Some(0));
    assert_eq!(stock.get(&"montant".to_string()), Some(0));
}

#[test]
fn simulate_reports_the_first_failure() {
    let simulation = ikea();
    assert_eq!(
        simulate(&simulation, &names(&["do_armoire_ikea"]), false),
        Err(Error::InsufficientResource("montant".to_string()))
    );
    assert_eq!(
        simulate(&simulation, &names(&["do_armoire_ikea", "nothing"]), false),
        Err(Error::UnknownProcess("nothing".to_string()))
    );
}
