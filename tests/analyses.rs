use automata::automaton::Automaton;
use automata::compression::{compression_counts, compression_ratio, pack_bits, spacetime_cells};
use automata::cycle::{classify_cycle, find_cycle, CycleClass};
use automata::dependency::{
    center_free_function, center_function, direct_dependencies, inferred_dependencies, two_input_function,
    Dependencies, TwoInputFunction,
};
use automata::generalization::count_disagreements;
use automata::inference::{infer_from_transitions, infer_report, tally_transitions, train_tally, NeighborhoodTally};
use automata::locality::{minimal_radius, radius_consistent, window_at, window_table};
use automata::sampling::{sample_transitions, seeded_cells, Transition};

#[test]
fn cycle_budget_of_two_to_the_width_resolves() {
    for width in 1..=6usize {
        let budget = (1usize << width) + 1;
        for rule in 0..=255u8 {
            let a = find_cycle(rule, width, budget);
            assert!(a.period > 0, "rule {rule} width {width}");
        }
    }
}

#[test]
fn rule_zero_dies_after_one_step() {
    let a = find_cycle(0, 9, 100);
    assert!(a.died);
    assert_eq!(a.transient, 1);
    assert_eq!(a.period, 1);
    assert_eq!(a.final_population, 0);
    assert_eq!(classify_cycle(&a), CycleClass::Died);
}

#[test]
fn identity_rule_is_a_fixed_point() {
    let a = find_cycle(204, 9, 100);
    assert!(!a.died);
    assert_eq!(a.transient, 0);
    assert_eq!(a.period, 1);
    assert_eq!(a.final_population, 1);
    assert_eq!(classify_cycle(&a), CycleClass::Short);
}

#[test]
fn shift_rule_cycles_around_the_ring() {
    // rule 170 copies the right neighbour: the seed travels the ring
    let a = find_cycle(170, 12, 100);
    assert_eq!(a.transient, 0);
    assert_eq!(a.period, 12);
    assert_eq!(classify_cycle(&a), CycleClass::Long);
}

#[test]
fn exhausted_budget_reports_period_zero() {
    let a = find_cycle(170, 12, 5);
    assert!(!a.died);
    assert_eq!(a.period, 0);
    assert_eq!(a.transient, 5);
    assert_eq!(a.final_population, 1);
    assert_eq!(classify_cycle(&a), CycleClass::Unresolved);
    let none = find_cycle(110, 31, 0);
    assert_eq!(none.period, 0);
    assert_eq!(none.transient, 0);
}

#[test]
fn block_counts_of_alternating_row() {
    let ca = Automaton::from_cells(vec![true, false, true, false], 30);
    assert_eq!(ca.block_counts(2), vec![0, 2, 2, 0]);
    assert_eq!(ca.block_counts(1), vec![2, 2]);
    assert!(ca.block_counts(0).is_empty());
    assert!(ca.block_counts(5).is_empty());
}

#[test]
fn block_counts_wrap_around() {
    let ca = Automaton::from_cells(vec![true, false, false], 30);
    // windows 100, 001, 010
    assert_eq!(ca.block_counts(3), vec![0, 1, 1, 0, 1, 0, 0, 0]);
}

#[test]
fn uniform_row_has_a_single_block() {
    let ca = Automaton::from_cells(vec![true; 6], 30);
    let counts = ca.block_counts(3);
    assert_eq!(counts.len(), 8);
    assert_eq!(counts[7], 6);
    assert_eq!(counts.iter().sum::<usize>(), 6);
    assert_eq!(counts.iter().filter(|c| **c > 0).count(), 1);
}

#[test]
fn pack_bits_most_significant_first() {
    let mut bits = vec![true, false, false, false, false, false, false, true];
    bits.push(true);
    assert_eq!(pack_bits(&bits), vec![0x81, 0x80]);
    assert!(pack_bits(&Vec::new()).is_empty());
    assert_eq!(pack_bits(&vec![false, true, true]), vec![0x60]);
}

#[test]
fn spacetime_rows_follow_each_other() {
    assert_eq!(
        spacetime_cells(90, 5, 2),
        vec![false, false, true, false, false, false, true, false, true, false, true, false, false, false, true]
    );
}

#[test]
fn compression_of_a_dead_diagram_is_small() {
    let (raw, compressed) = compression_ratio(0, 800, 100).unwrap();
    assert_eq!(raw, 800 * 101);
    assert_eq!(compressed % 8, 0);
    assert!(compressed > 0);
    assert!(compressed * 10 < raw);
}

#[test]
fn compression_counts_scale_bytes_to_bits() {
    assert_eq!(compression_counts(100, &vec![1, 2, 3]), Some((100, 24)));
    assert_eq!(compression_counts(7, &Vec::new()), Some((7, 0)));
}

#[test]
fn seeded_rows_are_reproducible() {
    assert_eq!(seeded_cells(80235, 5, 50), vec![true, false, true, true, false]);
    assert_eq!(seeded_cells(67890, 5, 50), vec![false; 5]);
    assert_eq!(seeded_cells(80235, 5, 50), seeded_cells(80235, 5, 50));
}

#[test]
fn tally_records_codes_and_outcomes() {
    let mut tally = NeighborhoodTally::new();
    let before = vec![true, false, false, false, false];
    let mut ca = Automaton::from_cells(before.clone(), 110);
    ca.step();
    tally.record(&before, &ca.cells, 0, 0);
    // codes per position: 010, 100, 000, 000, 001
    assert_eq!(tally.observed, vec![2, 1, 1, 0, 1, 0, 0, 0]);
    assert_eq!(tally.ones, vec![0, 1, 1, 0, 0, 0, 0, 0]);
}

#[test]
fn full_noise_flips_every_outcome() {
    let mut tally = NeighborhoodTally::new();
    let before = vec![true, false, false, false, false];
    let mut ca = Automaton::from_cells(before.clone(), 110);
    ca.step();
    tally.record(&before, &ca.cells, 0, 1000);
    assert_eq!(tally.observed, vec![2, 1, 1, 0, 1, 0, 0, 0]);
    assert_eq!(tally.ones, vec![2, 0, 0, 0, 1, 0, 0, 0]);
}

#[test]
fn clean_training_recovers_the_rule() {
    for rule in [30u8, 90, 110, 184, 54] {
        let tally = train_tally(rule, 50, 20, 10, 0);
        assert!(tally.observed.iter().all(|c| *c > 0));
        assert_eq!(tally.infer_rule(), rule);
    }
}

#[test]
fn unseen_codes_infer_dead() {
    let tally = NeighborhoodTally::new();
    assert_eq!(tally.infer_rule(), 0);
}

#[test]
fn inference_report_without_noise() {
    let report = infer_report(110, 50, 20, 0);
    assert_eq!(report.inferred_rule, 110);
    assert_eq!(report.cells_compared, 5 * 20 * 50);
    assert_eq!(report.sparse_errors, 0);
    assert_eq!(report.dense_errors, 0);
    assert!(report.baseline_sparse_errors + report.baseline_dense_errors > 0);
}

#[test]
fn disagreements_of_complementary_rules() {
    // rule 255 and rule 0 disagree on every cell of every step
    let cells = vec![true, false, true, true];
    assert_eq!(count_disagreements(255, 0, &cells, 3), 12);
    assert_eq!(count_disagreements(110, 110, &cells, 3), 0);
}

#[test]
fn rule_110_has_radius_one() {
    let ts = sample_transitions(110, 50, 20, 10);
    assert_eq!(ts.len(), 200);
    assert_eq!(minimal_radius(&ts, 4), 1);
    assert!(!radius_consistent(&ts, 0));
    assert!(radius_consistent(&ts, 1));
    assert!(radius_consistent(&ts, 2));
}

#[test]
fn center_only_rules_have_radius_zero() {
    let ts = sample_transitions(204, 30, 10, 5);
    assert_eq!(minimal_radius(&ts, 2), 0);
    let ts = sample_transitions(51, 30, 10, 5);
    assert_eq!(minimal_radius(&ts, 2), 0);
}

#[test]
fn no_radius_within_a_zero_bound() {
    let ts = sample_transitions(30, 30, 10, 5);
    assert_eq!(minimal_radius(&ts, 0), 1);
}

#[test]
fn window_table_counts_each_window_once() {
    let ts = vec![Transition { before: vec![true, false, false], after: vec![true, true, false] }];
    let table = window_table(&ts, 0);
    assert_eq!(table.windows, vec![vec![true], vec![false]]);
    assert_eq!(table.zeros, vec![0, 1]);
    assert_eq!(table.ones, vec![1, 1]);
    assert_eq!(table.conflicting_windows(), 1);
    assert_eq!(window_at(&vec![true, false, false, true], 0, 1), vec![true, true, false]);
    assert_eq!(window_at(&vec![true, false], 1, 2), vec![false, true, false, true, false]);
}

#[test]
fn direct_dependencies_of_known_rules() {
    let none = Dependencies { left: false, center: false, right: false };
    assert_eq!(direct_dependencies(0), none);
    assert_eq!(direct_dependencies(255), none);
    assert_eq!(direct_dependencies(204), Dependencies { left: false, center: true, right: false });
    assert_eq!(direct_dependencies(90), Dependencies { left: true, center: false, right: true });
    assert_eq!(direct_dependencies(240), Dependencies { left: true, center: false, right: false });
    assert_eq!(direct_dependencies(110), Dependencies { left: true, center: true, right: true });
}

#[test]
fn inferred_dependencies_match_direct_ones() {
    for rule in [90u8, 204, 110, 240] {
        let tally = train_tally(rule, 50, 30, 10, 0);
        assert_eq!(inferred_dependencies(&tally), direct_dependencies(rule));
    }
}

#[test]
fn center_free_functions_are_named() {
    assert_eq!(center_free_function(90), Some(TwoInputFunction::Xor));
    assert_eq!(center_free_function(165), Some(TwoInputFunction::Xnor));
    assert_eq!(center_free_function(160), Some(TwoInputFunction::And));
    assert_eq!(center_free_function(250), Some(TwoInputFunction::Or));
    assert_eq!(center_free_function(240), Some(TwoInputFunction::Left));
    assert_eq!(center_free_function(170), Some(TwoInputFunction::Right));
    assert_eq!(center_free_function(0), Some(TwoInputFunction::False));
    assert_eq!(center_free_function(110), None);
    assert_eq!(two_input_function(true, false, false, false), TwoInputFunction::Nor);
    assert_eq!(two_input_function(false, false, true, false), TwoInputFunction::LeftAndNotRight);
}

#[test]
fn center_functions_of_radius_zero_rules() {
    assert_eq!(center_function(204), Some((false, true)));
    assert_eq!(center_function(51), Some((true, false)));
    assert_eq!(center_function(0), Some((false, false)));
    assert_eq!(center_function(255), Some((true, true)));
    assert_eq!(center_function(110), None);
}

#[test]
fn compression_of_rule_110_is_reproducible() {
    let first = compression_ratio(110, 79, 200);
    let (raw, compressed) = first.unwrap();
    assert_eq!(raw, 15879);
    assert_eq!(compressed % 8, 0);
    assert!(compressed >= 8);
    assert_eq!(compression_ratio(110, 79, 200), first);
}

#[test]
fn rule_recovered_from_any_clean_transitions() {
    for rule in [30u8, 90, 110, 150] {
        let ts = sample_transitions(rule, 40, 15, 4);
        let tally = tally_transitions(&ts);
        assert!(tally.observed.iter().all(|c| *c > 0));
        assert_eq!(tally.observed.iter().sum::<usize>(), 4 * 15 * 40);
        assert_eq!(infer_from_transitions(&ts), rule);
    }
}

#[test]
fn unseen_codes_stay_dead_in_inference() {
    // an all-dead row shows only code 000
    let mut ca = Automaton::from_cells(vec![false; 6], 255);
    let before = ca.cells.clone();
    ca.step();
    let ts = vec![Transition { before, after: ca.cells.clone() }];
    assert_eq!(infer_from_transitions(&ts), 1);
}

#[test]
fn all_dead_rows_of_rule_110_have_radius_zero() {
    let ts = vec![Transition { before: vec![false; 5], after: vec![false; 5] }];
    assert_eq!(minimal_radius(&ts, 3), 0);
}
