use rust_breach_protocol::engine::{BreachConfig, GameEngine, Token};
use rust_breach_protocol::solver::{
    capped_addend, explore_puzzle, min_option, same_key, search_key, CappedCount, ScoreSum, SolverOptions,
};

fn token(s: &str) -> Token {
    s.to_string()
}

fn tokens(slice: &[&str]) -> Vec<Token> {
    slice.iter().map(|s| token(s)).collect()
}

fn config(size: usize, buffer: usize) -> BreachConfig {
    BreachConfig {
        matrix_size: size,
        buffer_size: buffer,
        time_limit_seconds: 30,
        token_alphabet: tokens(&["A", "B", "C", "D", "E", "F", "X", "Y", "Z"]),
        seed: Some(1),
    }
}

fn fixture_matrix() -> Vec<Vec<Token>> {
    vec![
        tokens(&["A", "B", "C"]),
        tokens(&["X", "D", "Y"]),
        tokens(&["Z", "E", "F"]),
    ]
}

#[test]
fn solver_finds_all_sequences_and_min_moves() {
    let report = explore_puzzle(
        &config(3, 5),
        &fixture_matrix(),
        &vec![tokens(&["A", "X", "D"]), tokens(&["X", "D"])],
        &vec![30, 20],
        SolverOptions::default(),
    )
    .unwrap();
    assert_eq!(report.max_score, 50);
    assert_eq!(report.total_score, 50);
    assert!(report.all_sequences_solvable);
    assert_eq!(report.min_moves_to_all, Some(3));
    assert_eq!(report.min_moves_to_max_score, Some(3));
    assert!(report.solution_count >= 1);
    assert!(report.terminal_paths >= report.solution_count);
    assert!(report.max_score_paths >= 1);
    assert!(!report.node_cap_reached);
    assert!(report.terminal_score_sum < report.score_sums.len());
}

#[test]
fn solver_reports_partial_best_score() {
    let report = explore_puzzle(
        &config(3, 5),
        &fixture_matrix(),
        &vec![tokens(&["A", "X", "D"]), tokens(&["A", "B"])],
        &vec![30, 20],
        SolverOptions::default(),
    )
    .unwrap();
    assert_eq!(report.max_score, 30);
    assert!(!report.all_sequences_solvable);
    assert_eq!(report.min_moves_to_all, None);
    assert_eq!(report.min_moves_to_max_score, Some(3));
}

#[test]
fn solver_counts_trap_moves_against_optimal_score() {
    let report = explore_puzzle(
        &config(3, 5),
        &fixture_matrix(),
        &vec![tokens(&["A", "X", "D"])],
        &vec![30],
        SolverOptions::default(),
    )
    .unwrap();
    assert!(report.optimal_moves >= 1);
    assert!(report.trap_moves >= 1);
    assert!(report.optimal_moves + report.trap_moves <= report.total_branches + report.forced_states);
    assert!(report.dead_ends + report.forced_states + report.branch_points <= report.nodes_searched);
}

#[test]
fn solver_respects_node_cap() {
    let matrix = vec![
        tokens(&["A", "B", "C", "D"]),
        tokens(&["E", "F", "A", "B"]),
        tokens(&["C", "D", "E", "F"]),
        tokens(&["A", "B", "C", "D"]),
    ];
    let report = explore_puzzle(
        &config(4, 6),
        &matrix,
        &vec![tokens(&["A", "E", "F"])],
        &vec![30],
        SolverOptions { node_limit: 1, solution_cap: 10 },
    )
    .unwrap();
    assert!(report.node_cap_reached);
    assert_eq!(report.nodes_searched, 1);
}

#[test]
fn explore_refuses_what_the_engine_refuses() {
    assert!(explore_puzzle(&config(3, 5), &fixture_matrix(), &vec![tokens(&["A"])], &vec![], SolverOptions::default()).is_err());
}

#[test]
fn score_sums_refer_to_earlier_entries() {
    let report = explore_puzzle(
        &config(3, 5),
        &fixture_matrix(),
        &vec![tokens(&["A", "X", "D"])],
        &vec![30],
        SolverOptions::default(),
    )
    .unwrap();
    assert!(matches!(report.score_sums[0], ScoreSum::Zero));
    for (idx, sum) in report.score_sums.iter().enumerate() {
        if let ScoreSum::Blend(parts) = sum {
            for part in parts {
                assert!(part.child < idx && part.child_paths > 0 && part.accepted > 0);
            }
        }
    }
}

#[test]
fn capped_counts_stop_at_the_cap() {
    let mut count = CappedCount::one();
    count.add(CappedCount { value: 5, capped: false }, 4);
    assert_eq!(count.value, 4);
    assert!(count.capped);
    let mut small = CappedCount::zero();
    small.add(CappedCount::one(), 0);
    assert_eq!(small.value, 1);
    assert!(!small.capped);
    let mut flagged = CappedCount::zero();
    flagged.add(CappedCount { value: 1, capped: true }, 10);
    assert_eq!(flagged.value, 1);
    assert!(flagged.capped);
    let mut huge = CappedCount { value: usize::MAX, capped: false };
    huge.add(CappedCount::one(), usize::MAX);
    assert_eq!(huge.value, usize::MAX);
    assert!(huge.capped);
}

#[test]
fn capped_addend_takes_what_fits() {
    assert_eq!(capped_addend(CappedCount { value: 3, capped: false }, CappedCount { value: 5, capped: false }, 6), 3);
    assert_eq!(capped_addend(CappedCount { value: 6, capped: false }, CappedCount { value: 5, capped: false }, 6), 0);
    assert_eq!(capped_addend(CappedCount { value: 0, capped: false }, CappedCount { value: 2, capped: false }, 0), 1);
    assert_eq!(capped_addend(CappedCount { value: 1, capped: false }, CappedCount { value: 2, capped: false }, 10), 2);
}

#[test]
fn min_option_ignores_missing_counts() {
    assert_eq!(min_option(Some(3), Some(2)), Some(2));
    assert_eq!(min_option(Some(3), None), Some(3));
    assert_eq!(min_option(None, Some(4)), Some(4));
    assert_eq!(min_option(None, None), None);
}

#[test]
fn search_keys_describe_the_state() {
    let mut engine = GameEngine::new(config(3, 5), fixture_matrix(), vec![tokens(&["A", "X"])], vec![20]).unwrap();
    engine.apply_move((0, 0)).unwrap();
    engine.apply_move((1, 0)).unwrap();
    let key = search_key(&engine, 1);
    assert_eq!(key.selected_mask, (1u128 << 0) | (1u128 << 3));
    assert_eq!(key.current_index, Some(3));
    assert_eq!(key.uploaded_mask, 1);
    assert_eq!(key.suffix, tokens(&["X"]));
    let again = search_key(&engine, 1);
    assert!(same_key(&key, &again));
    let longer = search_key(&engine, 2);
    assert_eq!(longer.suffix, tokens(&["A", "X"]));
    assert!(!same_key(&key, &longer));
}

#[test]
fn explore_counts_every_run_of_a_small_puzzle() {
    let matrix = vec![tokens(&["A", "B"]), tokens(&["C", "D"])];
    let report = explore_puzzle(
        &config(2, 2),
        &matrix,
        &vec![tokens(&["A", "C"])],
        &vec![30],
        SolverOptions::default(),
    )
    .unwrap();
    assert_eq!(report.max_score, 30);
    assert_eq!(report.min_moves_to_max_score, Some(2));
    assert_eq!(report.min_moves_to_all, Some(2));
    assert!(report.all_sequences_solvable);
    assert_eq!(report.terminal_paths, 2);
    assert!(!report.terminal_paths_capped);
    assert_eq!(report.solution_count, 1);
    assert_eq!(report.max_score_paths, 1);
}

#[test]
fn explore_caps_the_run_counts() {
    let matrix = vec![tokens(&["A", "B"]), tokens(&["C", "D"])];
    let report = explore_puzzle(
        &config(2, 2),
        &matrix,
        &vec![tokens(&["A", "C"])],
        &vec![30],
        SolverOptions { node_limit: 1000, solution_cap: 1 },
    )
    .unwrap();
    assert_eq!(report.terminal_paths, 1);
    assert!(report.terminal_paths_capped);
    assert_eq!(report.solution_count, 1);
    assert!(!report.solution_count_capped);
}

#[test]
fn explore_accepts_an_unbounded_node_limit() {
    let report = explore_puzzle(
        &config(3, 5),
        &fixture_matrix(),
        &vec![tokens(&["A", "X", "D"]), tokens(&["X", "D"])],
        &vec![30, 20],
        SolverOptions { node_limit: usize::MAX, solution_cap: usize::MAX },
    )
    .unwrap();
    assert_eq!(report.max_score, 50);
    assert_eq!(report.min_moves_to_all, Some(3));
    assert!(!report.node_cap_reached);
}

fn whole_sum(sums: &[ScoreSum], k: usize) -> u64 {
    match &sums[k] {
        ScoreSum::Zero => 0,
        ScoreSum::Leaf(score) => *score as u64,
        ScoreSum::Blend(parts) => parts
            .iter()
            .map(|part| {
                assert_eq!(part.accepted, part.child_paths);
                whole_sum(sums, part.child)
            })
            .sum(),
    }
}

#[test]
fn recipe_sums_the_final_scores_of_every_run() {
    let matrix = vec![tokens(&["A", "B"]), tokens(&["C", "D"])];
    let report = explore_puzzle(
        &config(2, 1),
        &matrix,
        &vec![tokens(&["A"])],
        &vec![10],
        SolverOptions::default(),
    )
    .unwrap();
    assert_eq!(report.terminal_paths, 2);
    assert_eq!(whole_sum(&report.score_sums, report.terminal_score_sum), 10);
    assert_eq!(report.max_branching_factor, 2);
    assert_eq!(report.trap_moves, 1);
    assert_eq!(report.optimal_moves, 1);
    assert_eq!(report.total_branches, 2);
    assert_eq!(report.optimal_moves + report.trap_moves, report.total_branches + report.forced_states);
}

#[test]
fn recipe_sums_runs_of_a_deeper_tree() {
    let report = explore_puzzle(
        &config(3, 2),
        &fixture_matrix(),
        &vec![tokens(&["A", "X"])],
        &vec![20],
        SolverOptions::default(),
    )
    .unwrap();
    // Row 0 gives A, B or C. After B or C the daemon can no longer be
    // uploaded, so those runs end there; after A the column gives X or Z.
    // Only A then X uploads the daemon, so one run of four scores 20.
    assert_eq!(report.terminal_paths, 4);
    assert_eq!(whole_sum(&report.score_sums, report.terminal_score_sum), 20);
    assert_eq!(report.max_branching_factor, 3);
    assert!(report.trap_moves >= 1);
    assert_eq!(report.optimal_moves + report.trap_moves, report.total_branches + report.forced_states);
}
