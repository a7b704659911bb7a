use automata::automaton::Automaton;
use automata::rule::{neighborhood_code, rule_bit};

#[test]
fn test_rule_110_known_sequence() {
    let mut ca = Automaton::new(7, 110);
    assert_eq!(ca.render(), "   #   ");

    ca.step();
    assert_eq!(ca.render(), "  ##   ");

    ca.step();
    assert_eq!(ca.render(), " ###   ");

    ca.step();
    assert_eq!(ca.render(), "## #   ");
}

#[test]
fn test_rule_90_sierpinski() {
    let mut ca = Automaton::new(7, 90);
    ca.step();
    assert_eq!(ca.render(), "  # #  ");
}

#[test]
fn test_wrap_around() {
    let ca = Automaton::from_cells(vec![true, false, false, false, false], 110);
    let mut ca = ca;
    ca.step();
    assert!(ca.cells[0]);
}

#[test]
fn test_all_rules_deterministic() {
    for rule in 0..=255u8 {
        let mut ca1 = Automaton::new(20, rule);
        let mut ca2 = Automaton::new(20, rule);
        for _ in 0..10 {
            ca1.step();
            ca2.step();
        }
        assert_eq!(ca1.cells, ca2.cells);
    }
}

#[test]
fn run_matches_repeated_steps() {
    for rule in [30u8, 90, 110, 184] {
        let mut stepped = Automaton::new(15, rule);
        for _ in 0..12 {
            stepped.step();
        }
        let mut ran = Automaton::new(15, rule);
        ran.run(12);
        assert_eq!(stepped.cells, ran.cells);
        assert_eq!(ran.width(), 15);
    }
}

#[test]
fn rule_zero_kills_any_row_in_one_step() {
    let rows = vec![
        vec![true; 9],
        vec![true, false, true, true, false],
        vec![false, false, true],
        vec![true],
    ];
    for row in rows {
        let mut ca = Automaton::from_cells(row, 0);
        ca.step();
        assert_eq!(ca.population(), 0);
        assert!(ca.cells.iter().all(|c| !*c));
    }
}

#[test]
fn single_seed_sits_in_the_middle() {
    let ca = Automaton::new(8, 30);
    assert_eq!(ca.render(), "    #   ");
    assert_eq!(ca.population(), 1);
    let one = Automaton::new(1, 30);
    assert_eq!(one.render(), "#");
}

#[test]
fn width_one_ring_is_its_own_neighbour() {
    // neighborhood 111 of a lone live cell selects bit 7
    let mut ca = Automaton::from_cells(vec![true], 0b1000_0000);
    ca.step();
    assert_eq!(ca.cells, vec![true]);
    let mut dead = Automaton::from_cells(vec![true], 0b0111_1111);
    dead.step();
    assert_eq!(dead.cells, vec![false]);
}

#[test]
fn empty_row_steps_to_empty_row() {
    let mut ca = Automaton::from_cells(Vec::new(), 110);
    ca.step();
    assert!(ca.cells.is_empty());
    assert_eq!(ca.render(), "");
}

#[test]
fn state_hash_follows_the_cells() {
    let a = Automaton::from_cells(vec![true, false, true], 30);
    let b = Automaton::from_cells(vec![true, false, true], 90);
    let c = Automaton::from_cells(vec![false, true, true], 30);
    assert_eq!(a.state_hash(), b.state_hash());
    assert_ne!(a.state_hash(), c.state_hash());
}

#[test]
fn neighborhood_codes_and_rule_bits() {
    assert_eq!(neighborhood_code(false, true, false), 2);
    assert_eq!(neighborhood_code(true, true, true), 7);
    assert_eq!(neighborhood_code(true, false, false), 4);
    assert!(rule_bit(110, 2));
    assert!(!rule_bit(110, 7));
    assert!(!rule_bit(110, 0));
}
