use krpsim::ast::{parse, Simulation};
use krpsim::parser::{
    tokenize, Lexeme, ParseError, SimulationBuilderParser, Token, COLON, LEFT, NAME, NUMBER,
    OPTIMIZE, RIGHT, SEMICOLON,
};
use krpsim::solver::{batchify, Batch};

const IKEA: &str = "#
# ikea demo - krpsim
#
# stock      name:quantity
planche:7
#
# process   name:(need1:qty1;need2:qty2;[...]):(result1:qty1;result2:qty2;[...]):delay
#
do_montant:(planche:1):(montant:1):15
do_fond:(planche:2):(fond:1):20
do_etagere:(planche:1):(etagere:1):10
do_armoire_ikea:(montant:2;fond:1;etagere:3):(armoire:1):30
#
# optimize time for no process possible (eating stock, produce all possible),
# or maximize some products over a long delay
# optimize:(time|stock1;time|stock2;...)
#
optimize:(time;armoire)
#
";

fn test_provider(content: &str) -> Result<Simulation, ParseError> {
    parse(content.to_string())
}

fn names(list: &[&str]) -> Vec<String> {
    list.iter().map(|name| name.to_string()).collect()
}

#[test]
fn batchify_happy_path() {
    let processes: Vec<String> = vec![
        "do_montant".to_string(),
        "do_montant".to_string(),
        "do_fond".to_string(),
        "do_etagere".to_string(),
        "do_etagere".to_string(),
        "do_etagere".to_string(),
        "do_armoire_ikea".to_string(),
    ];
    let expected: Vec<Batch> = vec![
        (
            20,
            vec![
                "do_montant".to_string(),
                "do_montant".to_string(),
                "do_fond".to_string(),
                "do_etagere".to_string(),
                "do_etagere".to_string(),
                "do_etagere".to_string(),
            ],
        ),
        (30, vec!["do_armoire_ikea".to_string()]),
    ];
    match test_provider(IKEA) {
        Ok(simulation) => {
            let res = batchify(&simulation, processes);
            assert_eq!(res, Ok(expected))
        }
        Err(err) => {
            panic!("An error occured: {:?}", err)
        }
    }
}

#[test]
fn a_description_becomes_a_catalog() {
    let simulation = test_provider(IKEA).unwrap();
    assert_eq!(simulation.inventory.get(&"planche".to_string()), Some(7));
    assert_eq!(simulation.optimize, names(&["armoire"]));
    assert!(simulation.optimize_time);
    let listed: Vec<String> = simulation.processes.iter().map(|p| p.name.clone()).collect();
    // the lines are taken from the last to the first
    assert_eq!(
        listed,
        names(&["do_armoire_ikea", "do_etagere", "do_fond", "do_montant"])
    );
    let wardrobe = &simulation.processes[0];
    assert_eq!(wardrobe.duration, 30);
    let needs: Vec<(String, usize)> =
        wardrobe.input.iter().map(|r| (r.name.clone(), r.quantity)).collect();
    assert_eq!(
        needs,
        vec![
            ("montant".to_string(), 2),
            ("fond".to_string(), 1),
            ("etagere".to_string(), 3)
        ]
    );
    assert_eq!(wardrobe.output.len(), 1);
    assert_eq!(wardrobe.output[0].name, "armoire");
}

#[test]
fn tokens_carry_kind_text_and_place() {
    let tokens = tokenize("a_1:(b:20;) # rest\n optimize ; optimizer").unwrap();
    let kinds: Vec<usize> = tokens.iter().map(|lexeme| lexeme.token.0).collect();
    assert_eq!(
        kinds,
        vec![NAME, COLON, LEFT, NAME, COLON, NUMBER, SEMICOLON, RIGHT, OPTIMIZE, SEMICOLON, NAME]
    );
    assert_eq!(
        tokens[0],
        Lexeme { start: 0, token: Token(NAME, "a_1".to_string()), end: 3 }
    );
    assert_eq!(
        tokens[5],
        Lexeme { start: 7, token: Token(NUMBER, "20".to_string()), end: 9 }
    );
    assert_eq!(tokens[8].token, Token(OPTIMIZE, "optimize".to_string()));
    assert_eq!(tokens[8].start, 20);
    assert_eq!(tokens[10].token, Token(NAME, "optimizer".to_string()));
    assert_eq!(tokenize("").unwrap(), vec![]);
    assert_eq!(tokenize("  # only a comment").unwrap(), vec![]);
    assert_eq!(
        tokenize("12abc").unwrap(),
        vec![
            Lexeme { start: 0, token: Token(NUMBER, "12".to_string()), end: 2 },
            Lexeme { start: 2, token: Token(NAME, "abc".to_string()), end: 5 },
        ]
    );
}

#[test]
fn an_invalid_character_is_located() {
    assert_eq!(tokenize("ab: 3\n  %"), Err(ParseError::InvalidToken { location: 8 }));
    assert_eq!(
        test_provider("stock:1 é optimize:()"),
        Err(ParseError::InvalidToken { location: 8 })
    );
    // unicode white space parts tokens, and a comment may hold anything
    let simulation = test_provider("a:1\u{2003}# é%\u{a0}\noptimize:(a)").unwrap();
    assert_eq!(simulation.optimize, names(&["a"]));
}

#[test]
fn the_line_of_targets_is_due_and_ends_the_text() {
    assert_eq!(test_provider(""), Err(ParseError::UnrecognizedEof { location: 0 }));
    assert_eq!(
        test_provider("wood:3\n"),
        Err(ParseError::UnrecognizedEof { location: 7 })
    );
    assert_eq!(
        test_provider("optimize:(wood) wood:3"),
        Err(ParseError::UnrecognizedToken { location: 16 })
    );
    assert_eq!(
        test_provider("optimize:(wood) # done"),
        Ok(Simulation::new(
            krpsim::inventory::Inventory::new(),
            vec![],
            (names(&["wood"]), false)
        ))
    );
}

#[test]
fn misplaced_tokens_are_located() {
    assert_eq!(
        test_provider("wood 3 optimize:()"),
        Err(ParseError::UnrecognizedToken { location: 5 })
    );
    assert_eq!(
        test_provider("p:(a:1;;):():1 optimize:()"),
        Err(ParseError::UnrecognizedToken { location: 7 })
    );
    assert_eq!(
        test_provider("p:(a:1 b:2):():1 optimize:()"),
        Err(ParseError::UnrecognizedToken { location: 7 })
    );
    assert_eq!(
        test_provider("optimize:3 optimize:()"),
        Err(ParseError::UnrecognizedToken { location: 9 })
    );
    assert_eq!(
        test_provider("p:(a:1):(b:1) optimize:()"),
        Err(ParseError::UnrecognizedToken { location: 14 })
    );
    assert_eq!(
        test_provider("p:(a:1):(b:1):"),
        Err(ParseError::UnrecognizedEof { location: 14 })
    );
    assert_eq!(
        test_provider("optimize:(optimize)"),
        Err(ParseError::UnrecognizedToken { location: 10 })
    );
}

#[test]
fn numbers_stop_at_the_machine() {
    let simulation = test_provider("a:4294967295 optimize:()").unwrap();
    assert_eq!(simulation.inventory.get(&"a".to_string()), Some(4294967295));
    assert_eq!(
        test_provider("a:4294967296 optimize:()"),
        Err(ParseError::NumberTooLarge { location: 2 })
    );
    assert_eq!(
        test_provider("a:00000000000000000000000000007 optimize:()")
            .unwrap()
            .inventory
            .get(&"a".to_string()),
        Some(7)
    );
}

#[test]
fn lists_may_be_left_out_or_left_open() {
    let simulation = test_provider(
        "free::(gift:1):0 sink:(gift:2;)::5 idle:::1 both:():():2 optimize:(time;gift;time;)",
    )
    .unwrap();
    let listed: Vec<String> = simulation.processes.iter().map(|p| p.name.clone()).collect();
    assert_eq!(listed, names(&["both", "idle", "sink", "free"]));
    assert!(simulation.processes[3].input.is_empty());
    assert_eq!(simulation.processes[3].output[0].quantity, 1);
    assert_eq!(simulation.processes[2].input[0].quantity, 2);
    assert!(simulation.processes[2].output.is_empty());
    assert_eq!(simulation.processes[2].duration, 5);
    assert_eq!(simulation.optimize, names(&["gift"]));
    assert!(simulation.optimize_time);
}

#[test]
fn of_two_lines_of_one_name_the_first_counts() {
    let simulation = test_provider(
        "wood:3 wood:9 cut:(wood:1):(plank:1):2 cut:(wood:5):(plank:9):7 optimize:(plank)",
    )
    .unwrap();
    assert_eq!(simulation.inventory.get(&"wood".to_string()), Some(3));
    assert_eq!(simulation.processes.len(), 1);
    assert_eq!(simulation.processes[0].duration, 2);
    assert!(!simulation.optimize_time);
    // within one list the last quantity of a name counts, at its first place
    let merged = test_provider("p:(a:1;b:2;a:5):():1 optimize:()").unwrap();
    let needs: Vec<(String, usize)> = merged.processes[0]
        .input
        .iter()
        .map(|r| (r.name.clone(), r.quantity))
        .collect();
    assert_eq!(needs, vec![("a".to_string(), 5), ("b".to_string(), 2)]);
}

#[test]
fn the_parser_gives_a_builder() {
    let builder = SimulationBuilderParser::new().parse("a:1 optimize:(a)").unwrap();
    assert_eq!(builder.inventory.get(&"a".to_string()), Some(1));
    assert_eq!(builder.optimize, names(&["a"]));
    assert!(builder.processes.is_empty());
}
