use std::collections::{BTreeMap, HashSet};

use word_chains::dependencies::{expand_dependencies, parse_to_map};

type Item = char;
type Dependencies = HashSet<Item>;

fn as_map(entries: &[(char, Vec<char>)]) -> BTreeMap<Item, Dependencies> {
    entries.iter().map(|(k, deps)| (*k, deps.iter().copied().collect())).collect()
}

const SAMPLE_1_INPUT_STR: &str = "A  B C
B  C E
C  G
D  A F
E  F
F  H
";

const SAMPLE_1_EXPECTATION_STR: &str = "A  B C E F G H
B  C E F G H
C  G
D  A B C E F G H
E  F H
F  H
";

const SAMPLE_2_INPUT_STR: &str = "A  B
B  C
C  A
";

const SAMPLE_2_EXPECTATION_STR: &str = "A  B C
B  A C
C  A B
";

#[test]
fn input_parsing_works() {
    let automatic_map: BTreeMap<Item, Dependencies> = as_map(&parse_to_map(SAMPLE_1_INPUT_STR).unwrap());
    let manual_map: BTreeMap<Item, Dependencies> = BTreeMap::from([
        ('A', HashSet::from(['B', 'C'])),
        ('B', HashSet::from(['C', 'E'])),
        ('C', HashSet::from(['G'])),
        ('D', HashSet::from(['A', 'F'])),
        ('E', HashSet::from(['F'])),
        ('F', HashSet::from(['H'])),
    ]);
    assert_eq!(automatic_map, manual_map);
}

#[test]
fn sample_1_expectation_matches_input() {
    let mut input_map = parse_to_map(SAMPLE_1_INPUT_STR).unwrap();
    expand_dependencies(&mut input_map);
    let expectation_map = parse_to_map(SAMPLE_1_EXPECTATION_STR).unwrap();
    assert_eq!(as_map(&input_map), as_map(&expectation_map));
}

#[test]
fn sample_2_expectation_matches_input() {
    let mut input_map = parse_to_map(SAMPLE_2_INPUT_STR).unwrap();
    expand_dependencies(&mut input_map);
    let expectation_map = parse_to_map(SAMPLE_2_EXPECTATION_STR).unwrap();
    assert_eq!(as_map(&input_map), as_map(&expectation_map));
}

#[test]
fn cycles_that_avoid_the_item_end() {
    let mut map = parse_to_map("A  B\nB  C\nC  B\nD  D E").unwrap();
    expand_dependencies(&mut map);
    let expected = BTreeMap::from([
        ('A', HashSet::from(['B', 'C'])),
        ('B', HashSet::from(['C'])),
        ('C', HashSet::from(['B'])),
        ('D', HashSet::from(['D', 'E'])),
    ]);
    assert_eq!(as_map(&map), expected);
}

#[test]
fn malformed_lines_and_repeated_items() {
    assert!(parse_to_map("A B").is_none());
    assert!(parse_to_map("AB  C").is_none());
    assert!(parse_to_map("A  B\n  C").is_none());
    let map = parse_to_map("A  B\nA  C D").unwrap();
    assert_eq!(as_map(&map), BTreeMap::from([('A', HashSet::from(['C', 'D']))]));
    assert_eq!(parse_to_map("").unwrap(), Vec::new());
    let map = parse_to_map("X  ").unwrap();
    assert_eq!(as_map(&map), BTreeMap::from([('X', HashSet::new())]));
}
