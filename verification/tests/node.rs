use krpsim::ast::{Process, Resource, Simulation};
use krpsim::check::consume_resources;
use krpsim::heuristic::time_based_heuristic;
use krpsim::inventory::Inventory;
use krpsim::node::{same_process, Node};

fn resources(list: &[(&str, usize)]) -> Vec<Resource> {
    list.iter()
        .map(|(name, quantity)| Resource { name: name.to_string(), quantity: *quantity })
        .collect()
}

fn stock(list: &[(&str, usize)]) -> Inventory {
    let mut inventory = Inventory::new();
    for (name, quantity) in list.iter() {
        inventory.insert(name.to_string(), *quantity);
    }
    inventory
}

fn inventory_sub_process(inventory: &Inventory, process: &Process) -> Inventory {
    consume_resources(&process.input, inventory.clone()).unwrap()
}

fn get_test_subject() -> (Vec<Simulation>, Vec<Process>, Vec<Inventory>) {
    let mut processes: Vec<Process> = Vec::new();

    let inventory_1 = stock(&[("machine", 2), ("metal", 10), ("gear", 0)]);

    // Gear process
    let input = resources(&[("machine", 1), ("metal", 2)]);
    let output = resources(&[("machine", 1), ("gear", 1)]);
    processes.push(Process::new(String::from("do_gear"), input, output, 1));

    let inventory_2 = stock(&[("machine", 2), ("metal", 20), ("gear", 4)]);

    // Science process
    let input = resources(&[("machine", 1), ("metal", 2), ("gear", 1)]);
    let output = resources(&[("machine", 1), ("science", 1)]);
    processes.push(Process::new(String::from("do_science"), input, output, 5));

    let sim_1 = Simulation::new(inventory_1.clone(), processes.clone(), (vec![], false));
    let sim_2 = Simulation::new(inventory_2.clone(), processes.clone(), (vec![], false));

    (vec![sim_1, sim_2], processes, vec![inventory_1, inventory_2])
}

#[test]
fn get_available_processes() {
    let (sims, processes, inventories) = get_test_subject();

    let sim_1 = sims[0].clone();
    let sim_2 = sims[1].clone();

    let inventory_1 = inventories[0].clone();
    let inventory_2 = inventories[1].clone();

    let res_1 = Node::get_available_processes(&inventory_1, &sim_1, 0);
    let res_2 = Node::get_available_processes(&inventory_2, &sim_2, 0);

    let valid_res_1 = vec![(processes[0].clone(), 1)];

    let valid_res_2 = vec![(processes[0].clone(), 1), (processes[1].clone(), 5)];

    println!("Test of gear process");
    assert_eq!(res_1, valid_res_1);
    println!("Test of science process");
    assert_eq!(res_2, valid_res_2);
}

#[test]
fn get_possible_outputs() {
    let (sims, processes, inventories) = get_test_subject();

    let res_1 = Node::get_possible_outputs(&inventories[0], &sims[0], 0, 100);

    let inv_1 = inventory_sub_process(&inventories[0].clone(), &processes[0]);

    let inv_2 = inventory_sub_process(&inv_1.clone(), &processes[0]);

    let truth_1 = vec![
        (vec![], inventories[0].clone()),
        (vec![(processes[0].clone(), 1)], inv_1),
        (vec![(processes[0].clone(), 1), (processes[0].clone(), 1)], inv_2),
    ];

    assert_eq!(res_1, truth_1);
}

#[test]
fn possible_outputs_stop_at_the_depth() {
    let (sims, processes, inventories) = get_test_subject();
    let none = Node::get_possible_outputs(&inventories[0], &sims[0], 0, 0);
    assert_eq!(none, vec![(vec![], inventories[0].clone())]);
    let one = Node::get_possible_outputs(&inventories[0], &sims[0], 3, 1);
    assert_eq!(one.len(), 2);
    assert_eq!(one[1].0, vec![(processes[0].clone(), 4)]);
}

#[test]
fn a_process_joins_only_behind_one_that_ends_no_earlier() {
    let (sims, processes, inventories) = get_test_subject();
    // With gears in stock both processes can start. Gear ends at 1 and
    // science at 5: gear is tried first and stays in the set, and science
    // never joins behind it.
    let found = Node::get_possible_outputs(&inventories[1], &sims[1], 0, 2);
    let sets: Vec<Vec<usize>> = found
        .iter()
        .map(|(set, _)| set.iter().map(|(_, end)| *end).collect())
        .collect();
    assert_eq!(sets, vec![vec![], vec![1], vec![1, 1]]);
    assert!(found
        .iter()
        .all(|(set, _)| set.iter().all(|(p, _)| same_process(p, &processes[0]))));
}

#[test]
fn a_process_that_ends_beyond_the_machine_cannot_start() {
    let (sims, _, inventories) = get_test_subject();
    let late = Node::get_available_processes(&inventories[1], &sims[1], usize::MAX - 3);
    assert_eq!(late.len(), 1);
    assert_eq!(late[0].1, usize::MAX - 2);
}

#[test]
fn node_keeps_estimate_less_time() {
    let node = Node::new(3, stock(&[("a", 1)]), vec![], vec![], 40, 15);
    assert_eq!(node.f, 25);
    assert_eq!(node.parent, 3);
    let early = Node::new(0, Inventory::new(), vec![], vec![], -2, 0);
    assert!(early < node);
    assert!(node > early);
    assert!(node >= Node::new(9, Inventory::new(), vec![], vec![], 40, 0));
}

#[test]
fn started_processes_are_those_that_did_not_run_before() {
    let (_, processes, _) = get_test_subject();
    let gear = processes[0].clone();
    let science = processes[1].clone();
    let node = Node::new(
        0,
        Inventory::new(),
        vec![(gear.clone(), 4)],
        vec![(gear.clone(), 4), (science.clone(), 9), (gear.clone(), 5)],
        0,
        3,
    );
    assert_eq!(
        node.get_transversal_processes(),
        vec![(science.clone(), 9), (gear.clone(), 5)]
    );
    let (finished, active) = Node::separate_finished_processes(&node.output, 5);
    assert_eq!(finished, vec![(gear.clone(), 4), (gear.clone(), 5)]);
    assert_eq!(active, vec![(science, 9)]);
}

#[test]
fn the_estimate_adds_gains_and_ends() {
    let (_, processes, _) = get_test_subject();
    let gear = processes[0].clone();
    let science = processes[1].clone();
    let sim = Simulation::new(
        Inventory::new(),
        processes.clone(),
        (vec!["science".to_string(), "gear".to_string(), "science".to_string()], false),
    );
    let node = Node::new(
        0,
        Inventory::new(),
        vec![(gear.clone(), 4)],
        vec![(gear.clone(), 4), (science.clone(), 9), (gear.clone(), 5)],
        0,
        3,
    );
    // science: 1 for each of two targets, ends at 9; gear: 1, ends at 5
    assert_eq!(time_based_heuristic(&sim, &node), Some(2 + 9 + 1 + 5));
    let far = Node::new(0, Inventory::new(), vec![], vec![(gear, usize::MAX)], 0, 0);
    assert_eq!(time_based_heuristic(&sim, &far), None);
}

#[test]
fn children_start_when_the_first_process_ends() {
    let (sims, processes, _) = get_test_subject();
    let gear = processes[0].clone();
    let science = processes[1].clone();
    let node = Node::new(
        7,
        stock(&[("machine", 0), ("metal", 6), ("gear", 0)]),
        vec![],
        vec![(gear.clone(), 1), (science.clone(), 5), (gear.clone(), 1)],
        12,
        0,
    );
    let children = node.get_childs(&sims[0], 3, 1).unwrap();
    // at time 1 both gear processes hand in a machine and a gear
    let reached = stock(&[("machine", 2), ("metal", 6), ("gear", 2)]);
    assert_eq!(children.len(), 2);
    assert_eq!(
        children[0],
        Node::new(3, reached.clone(), vec![(science.clone(), 5)], vec![], 12, 1)
    );
    assert_eq!(
        children[1],
        Node::new(
            3,
            stock(&[("machine", 1), ("metal", 4), ("gear", 2)]),
            vec![(science.clone(), 5)],
            vec![(gear.clone(), 2)],
            12,
            1
        )
    );
    assert_eq!(children[1].f, 11);
}

#[test]
fn children_of_an_idle_node_start_at_once() {
    let (sims, _, inventories) = get_test_subject();
    let node = Node::new(0, inventories[0].clone(), vec![], vec![], 0, 0);
    let children = node.get_childs(&sims[0], 1, 5).unwrap();
    let sizes: Vec<usize> = children.iter().map(|child| child.output.len()).collect();
    assert_eq!(sizes, vec![0, 1, 2]);
    assert!(children.iter().all(|child| child.time == 0 && child.parent == 1));
}

#[test]
fn output_that_the_stock_has_no_entry_for_is_not_taken_in() {
    let (sims, processes, _) = get_test_subject();
    let node = Node::new(
        0,
        stock(&[("machine", 0)]),
        vec![],
        vec![(processes[0].clone(), 4)],
        0,
        0,
    );
    let children = node.get_childs(&sims[0], 1, 3).unwrap();
    assert_eq!(children.len(), 1);
    assert_eq!(children[0].inventory, stock(&[("machine", 1)]));
    assert_eq!(children[0].time, 4);
    let full = Node::new(
        0,
        stock(&[("machine", usize::MAX)]),
        vec![],
        vec![(processes[0].clone(), 4)],
        0,
        0,
    );
    assert_eq!(full.get_childs(&sims[0], 1, 3), None);
}
