use krpsim::ast::{Process, Resource, Simulation};
use krpsim::check::{check, manage_resources, Output};
use krpsim::error::Error;
use krpsim::inventory::Inventory;

fn build_premium() -> Process {
    Process {
        name: String::from("build_premium"),
        input: vec![Resource { name: String::from("wood"), quantity: 3 }],
        output: vec![Resource { name: String::from("premium_chair"), quantity: 1 }],
        duration: 40,
    }
}

fn build_standard() -> Process {
    Process {
        name: String::from("build_standard"),
        input: vec![Resource { name: String::from("wood"), quantity: 3 }],
        output: vec![Resource { name: String::from("standard_chair"), quantity: 1 }],
        duration: 10,
    }
}

#[test]
fn happy_path() {
    let mut inventory = Inventory::new();
    inventory.insert(String::from("wood"), 10);

    let processes = vec![build_premium(), build_standard()];

    let mock_output = Output {
        steps: vec![String::from("build_premium"), String::from("build_standard")],
    };

    let mock_simulation = Simulation {
        inventory,
        processes,
        optimize: vec![String::from("premium_chair")],
        optimize_time: false,
    };

    let mut expected_inventory = Inventory::new();
    expected_inventory.insert("wood".to_string(), 4);
    expected_inventory.insert("standard_chair".to_string(), 1);
    expected_inventory.insert("premium_chair".to_string(), 1);
    let expected = Ok(expected_inventory);

    assert_eq!(check(mock_simulation, mock_output), expected);
}

#[test]
fn test_manage_resources() {
    let mut inventory = Inventory::new();
    inventory.insert(String::from("wood"), 10);

    let mut expected_inventory = Inventory::new();
    expected_inventory.insert("wood".to_string(), 7);
    expected_inventory.insert("premium_chair".to_string(), 1);
    let expected: Result<Inventory, Error> = Ok(expected_inventory);

    let build_premium_process = build_premium();

    let result = manage_resources(inventory, &build_premium_process);
    assert_eq!(result, expected);
}

#[test]
fn shortfall_names_the_resource() {
    let mut inventory = Inventory::new();
    inventory.insert(String::from("wood"), 3);
    let simulation = Simulation {
        inventory,
        processes: vec![build_premium(), build_standard()],
        optimize: vec![],
        optimize_time: false,
    };
    let output = Output {
        steps: vec![String::from("build_premium"), String::from("build_standard")],
    };
    assert_eq!(
        check(simulation, output),
        Err(Error::InsufficientResource(String::from("wood")))
    );
}
