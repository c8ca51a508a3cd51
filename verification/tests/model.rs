use krpsim::ast::{Process, ProcessBuilder, Resource, Simulation, SimulationBuilder};
use krpsim::check::{consume_resources, is_feasible, produce_resources};
use krpsim::error::Error;
use krpsim::inventory::{convert, inventory_add, inventory_compare, Inventory};
use krpsim::solver::Algorithm;
use krpsim::utils::generalize_error;

fn resources(list: &[(&str, usize)]) -> Vec<Resource> {
    list.iter()
        .map(|(name, quantity)| Resource { name: name.to_string(), quantity: *quantity })
        .collect()
}

fn stock(list: &[(&str, usize)]) -> Inventory {
    convert(list.iter().map(|(name, quantity)| (name.to_string(), *quantity)).collect())
}

#[test]
fn stocks_are_equal_whatever_the_order() {
    let one = stock(&[("a", 1), ("b", 2)]);
    let other = stock(&[("b", 2), ("a", 1)]);
    assert_eq!(one, other);
    assert_ne!(one, stock(&[("a", 1)]));
    assert_ne!(one, stock(&[("a", 1), ("b", 3)]));
    assert_ne!(stock(&[("a", 0)]), Inventory::new());
    assert!(Inventory::new().is_empty());
    assert!(!one.is_empty());
}

#[test]
fn convert_keeps_the_last_quantity_of_a_name() {
    let made = stock(&[("a", 1), ("b", 2), ("a", 7)]);
    assert_eq!(made.get(&"a".to_string()), Some(7));
    assert_eq!(made.get(&"b".to_string()), Some(2));
    assert_eq!(made.get(&"c".to_string()), None);
    let listed: Vec<(String, usize)> = made
        .entries()
        .into_iter()
        .map(|r| (r.name, r.quantity))
        .collect();
    assert_eq!(listed, vec![("a".to_string(), 7), ("b".to_string(), 2)]);
}

#[test]
fn inventory_add_raises_the_entries_of_the_left() {
    let left = stock(&[("a", 1), ("b", 2)]);
    let right = stock(&[("b", 5), ("c", 9)]);
    assert_eq!(inventory_add(&left, &right), Some(stock(&[("a", 1), ("b", 7)])));
    assert_eq!(inventory_add(&Inventory::new(), &right), Some(Inventory::new()));
    let full = stock(&[("a", usize::MAX)]);
    assert_eq!(inventory_add(&full, &stock(&[("a", 1)])), None);
    assert_eq!(inventory_add(&full, &stock(&[("a", 0)])), Some(full.clone()));
}

#[test]
fn inventory_compare_asks_for_every_entry_of_the_left() {
    let need = stock(&[("a", 2), ("b", 1)]);
    assert!(inventory_compare(&need, &stock(&[("a", 2), ("b", 1), ("c", 0)])));
    assert!(inventory_compare(&need, &stock(&[("b", 10), ("a", 3)])));
    assert!(!inventory_compare(&need, &stock(&[("a", 1), ("b", 1)])));
    assert!(!inventory_compare(&need, &stock(&[("a", 2)])));
    assert!(inventory_compare(&Inventory::new(), &Inventory::new()));
    assert!(!inventory_compare(&stock(&[("a", 0)]), &Inventory::new()));
}

#[test]
fn consumption_is_all_or_nothing() {
    let have = stock(&[("wood", 5), ("nail", 1)]);
    assert_eq!(
        consume_resources(&resources(&[("wood", 2), ("nail", 1), ("wood", 3)]), have.clone()),
        Ok(stock(&[("wood", 0), ("nail", 0)]))
    );
    assert_eq!(
        consume_resources(&resources(&[("wood", 2), ("nail", 2)]), have.clone()),
        Err(Error::InsufficientResource("nail".to_string()))
    );
    assert_eq!(
        consume_resources(&resources(&[("wood", 3), ("wood", 3)]), have.clone()),
        Err(Error::InsufficientResource("wood".to_string()))
    );
    assert_eq!(
        consume_resources(&resources(&[("glue", 0)]), have.clone()),
        Err(Error::InsufficientResource("glue".to_string()))
    );
    assert_eq!(consume_resources(&vec![], have.clone()), Ok(have.clone()));
    assert!(is_feasible(&resources(&[("wood", 5)]), &have));
    assert!(!is_feasible(&resources(&[("wood", 6)]), &have));
    assert_eq!(have, stock(&[("wood", 5), ("nail", 1)]));
}

#[test]
fn production_adds_and_creates() {
    let have = stock(&[("wood", 5)]);
    assert_eq!(
        produce_resources(&resources(&[("chair", 1), ("wood", 1), ("chair", 2)]), have),
        Ok(stock(&[("wood", 6), ("chair", 3)]))
    );
    assert_eq!(
        produce_resources(&resources(&[("a", 1), ("b", 2)]), stock(&[("b", usize::MAX - 1)])),
        Err(Error::Overflow("b".to_string()))
    );
    assert_eq!(
        produce_resources(&resources(&[("b", 1)]), stock(&[("b", usize::MAX - 1)])),
        Ok(stock(&[("b", usize::MAX)]))
    );
}

#[test]
fn a_builder_gathers_a_catalog() {
    let chair = ProcessBuilder::new(
        "chair".to_string(),
        resources(&[("wood", 3)]),
        resources(&[("chair", 1)]),
        4,
    );
    let stool = ProcessBuilder::new(
        "stool".to_string(),
        resources(&[("wood", 1)]),
        resources(&[("stool", 1)]),
        2,
    );
    let better = ProcessBuilder::new(
        "chair".to_string(),
        resources(&[("wood", 2)]),
        resources(&[("chair", 1)]),
        3,
    );
    let builder = SimulationBuilder::default()
        .add_inventory("wood".to_string(), 3)
        .add_process(chair)
        .add_process(stool)
        .add_inventory("wood".to_string(), 8)
        .add_process(better)
        .optimize((vec!["chair".to_string()], true));
    assert_eq!(builder.processes.len(), 2);
    let simulation = Simulation::from(builder);
    assert_eq!(simulation.inventory, stock(&[("wood", 8)]));
    assert_eq!(simulation.optimize, vec!["chair".to_string()]);
    assert!(simulation.optimize_time);
    assert_eq!(simulation.processes[0].name, "chair");
    assert_eq!(simulation.processes[0].duration, 3);
    assert_eq!(simulation.processes[0].input, resources(&[("wood", 2)]));
    assert_eq!(simulation.processes[1].name, "stool");
    let copy = Process::from(&ProcessBuilder::new("p".to_string(), vec![], vec![], 1));
    assert_eq!(copy, Process::new("p".to_string(), vec![], vec![], 1));
    let empty = SimulationBuilder::new(Inventory::new(), vec![], (vec![], false));
    assert_eq!(
        Simulation::from_builder(empty),
        Simulation::new(Inventory::new(), vec![], (vec![], false))
    );
}

#[test]
fn errors_have_a_text() {
    assert_eq!(
        generalize_error(Error::UnknownProcess("p".to_string())),
        "UnknownProcess(\"p\")"
    );
    assert_eq!(generalize_error(12), "12");
    assert!(matches!(Algorithm::Genetic, Algorithm::Genetic));
}
