use rand::rngs::StdRng;
use rand::SeedableRng;
use rust_breach_protocol::engine::{BreachConfig, GameEngine, GameError};
use rust_breach_protocol::generator::{
    assemble_candidate, attempt_seed, build_candidate, exhausted_error, generation_step, GenerationStep, choose_sequence_windows, create_fixed_game, generate_matrix, generate_sequences,
    generate_valid_path, has_duplicate_sequences, place_meaningful_decoy, plan_generation, puzzle_accepted,
    sequence_lengths_for, validate_generation_request, with_planted_solution_proof, PuzzleSpec,
};
use rust_breach_protocol::solver::{explore_puzzle, SolverOptions};

fn default_config(size: usize, buffer: usize) -> BreachConfig {
    BreachConfig {
        matrix_size: size,
        buffer_size: buffer,
        time_limit_seconds: 30,
        token_alphabet: vec![
            "55".to_string(),
            "1C".to_string(),
            "7A".to_string(),
            "BD".to_string(),
            "E9".to_string(),
            "FF".to_string(),
        ],
        seed: None,
    }
}

fn tokens(slice: &[&str]) -> Vec<String> {
    slice.iter().map(|s| s.to_string()).collect()
}

#[test]
fn sequence_lengths_single() {
    assert_eq!(sequence_lengths_for(1, 8), vec![2]);
}

#[test]
fn sequence_lengths_two() {
    assert_eq!(sequence_lengths_for(2, 8), vec![2, 2]);
}

#[test]
fn sequence_lengths_three() {
    assert_eq!(sequence_lengths_for(3, 8), vec![2, 2, 3]);
}

#[test]
fn sequence_lengths_four() {
    assert_eq!(sequence_lengths_for(4, 8), vec![2, 3, 3, 4]);
}

#[test]
fn sequence_lengths_cap_at_buffer_and_five() {
    assert_eq!(sequence_lengths_for(5, 8), vec![3, 3, 4, 4, 5]);
    assert_eq!(sequence_lengths_for(9, 8), vec![3, 3, 4, 4, 5]);
    assert_eq!(sequence_lengths_for(4, 3), vec![2, 3, 3, 3]);
    assert_eq!(sequence_lengths_for(3, 0), vec![1, 1, 1]);
    assert_eq!(sequence_lengths_for(0, 8), Vec::<usize>::new());
}

#[test]
fn generate_matrix_correct_dimensions() {
    let cfg = default_config(5, 8);
    let mut rng = StdRng::seed_from_u64(1);
    let matrix = generate_matrix(&cfg, &mut rng).unwrap();
    assert_eq!(matrix.len(), 5);
    for row in &matrix {
        assert_eq!(row.len(), 5);
    }
}

#[test]
fn generate_matrix_tokens_from_alphabet() {
    let cfg = default_config(4, 8);
    let mut rng = StdRng::seed_from_u64(1);
    let matrix = generate_matrix(&cfg, &mut rng).unwrap();
    for row in &matrix {
        for token in row {
            assert!(cfg.token_alphabet.contains(token));
        }
    }
}

#[test]
fn create_fixed_game_validates_square_matrix() {
    let cfg = default_config(3, 4);
    let non_square = vec![
        vec!["55".to_string(), "1C".to_string()],
        vec!["BD".to_string(), "E9".to_string()],
    ];
    let err = create_fixed_game(&cfg, non_square, vec![], vec![]).unwrap_err();
    assert!(matches!(err, GameError::InvalidConfig(_)));
}

#[test]
fn create_fixed_game_validates_sequences_values_align() {
    let cfg = default_config(3, 4);
    let m = vec![vec!["55".to_string(); 3]; 3];
    let err = create_fixed_game(&cfg, m, vec![vec!["55".to_string()]], vec![10, 20]).unwrap_err();
    assert!(matches!(err, GameError::InvalidConfig(_)));
}

#[test]
fn create_fixed_game_returns_its_input() {
    let cfg = default_config(2, 4);
    let m = vec![tokens(&["55", "1C"]), tokens(&["BD", "E9"])];
    let seqs = vec![tokens(&["55", "BD"])];
    let data = create_fixed_game(&cfg, m.clone(), seqs.clone(), vec![20]).unwrap();
    assert_eq!(data, (m, seqs, vec![20]));
}

#[test]
fn validation_messages_name_the_problem() {
    let mut cfg = default_config(3, 4);
    cfg.matrix_size = 0;
    assert_eq!(
        validate_generation_request(&cfg, 1).unwrap_err().message(),
        "Invalid config: Matrix size must be greater than zero"
    );
    let cfg = default_config(3, 0);
    assert!(matches!(validate_generation_request(&cfg, 1), Err(GameError::InvalidConfig(m)) if m == "Buffer size must be greater than zero"));
    let mut cfg = default_config(3, 4);
    cfg.token_alphabet.clear();
    assert!(matches!(validate_generation_request(&cfg, 1), Err(GameError::InvalidConfig(m)) if m == "Token alphabet cannot be empty"));
    let cfg = default_config(3, 4);
    assert!(matches!(validate_generation_request(&cfg, 0), Err(GameError::InvalidConfig(m)) if m == "At least one sequence is required"));
    assert!(matches!(validate_generation_request(&cfg, 65), Err(GameError::InvalidConfig(m)) if m == "At most 64 sequences can be analyzed"));
    assert!(validate_generation_request(&cfg, 64).is_ok());
}

#[test]
fn generated_walks_follow_the_pick_rules() {
    for seed in 0..20 {
        let mut rng = StdRng::seed_from_u64(seed);
        let path = generate_valid_path(5, 8, &mut rng);
        assert_eq!(path.len(), 8);
        assert_eq!(path[0].0, 0);
        for idx in 1..path.len() {
            let (prev, cell) = (path[idx - 1], path[idx]);
            if idx % 2 == 1 {
                assert_eq!(prev.1, cell.1);
            } else {
                assert_eq!(prev.0, cell.0);
            }
            assert!(!path[..idx].contains(&cell));
            assert!(cell.0 < 5 && cell.1 < 5);
        }
    }
    let mut rng = StdRng::seed_from_u64(3);
    assert!(generate_valid_path(0, 4, &mut rng).is_empty());
    assert!(generate_valid_path(4, 0, &mut rng).is_empty());
    let short = generate_valid_path(1, 4, &mut rng);
    assert_eq!(short, vec![(0, 0)]);
}

#[test]
fn windows_fit_the_path() {
    let mut rng = StdRng::seed_from_u64(7);
    let windows = choose_sequence_windows(&vec![2, 2, 3], 8, &mut rng).unwrap();
    assert_eq!(windows.len(), 3);
    for (idx, &(start, len)) in windows.iter().enumerate() {
        assert_eq!(len, [2, 2, 3][idx]);
        assert!(start + len <= 8);
    }
    assert!(windows[0].0 <= 1);
    assert!(windows[2].0 >= 4);
    assert!(choose_sequence_windows(&vec![2, 0], 8, &mut rng).is_none());
    assert!(choose_sequence_windows(&vec![2, 9], 8, &mut rng).is_none());
}

#[test]
fn duplicate_sequences_are_found() {
    assert!(has_duplicate_sequences(&vec![tokens(&["55", "1C"]), tokens(&["BD"]), tokens(&["55", "1C"])]));
    assert!(!has_duplicate_sequences(&vec![tokens(&["55", "1C"]), tokens(&["55", "1"]), tokens(&["1C", "55"])]));
    assert!(!has_duplicate_sequences(&vec![]));
}

#[test]
fn decoy_lands_off_the_path() {
    let mut matrix = vec![tokens(&["AA", "AA"]), tokens(&["AA", "AA"])];
    let path = vec![(0, 0), (1, 0), (1, 1)];
    let sequences = vec![tokens(&["ZZ"])];
    let mut rng = StdRng::seed_from_u64(5);
    assert!(place_meaningful_decoy(&mut matrix, &path, &sequences, &mut rng));
    assert_eq!(matrix, vec![tokens(&["AA", "ZZ"]), tokens(&["AA", "AA"])]);

    let mut full = vec![tokens(&["AA"])];
    assert!(!place_meaningful_decoy(&mut full, &vec![(0, 0)], &sequences, &mut rng));
    assert_eq!(full, vec![tokens(&["AA"])]);
    let mut open = vec![tokens(&["AA", "AA"])];
    assert!(!place_meaningful_decoy(&mut open, &vec![(0, 0)], &vec![], &mut rng));
}

#[test]
fn generated_sequences_use_matrix_tokens() {
    let cfg = default_config(3, 8);
    let matrix = vec![tokens(&["55", "55", "55"]), tokens(&["55", "1C", "55"]), tokens(&["55", "55", "55"])];
    let mut rng = StdRng::seed_from_u64(11);
    let (sequences, values) = generate_sequences(&cfg, &matrix, 3, &mut rng).unwrap();
    assert_eq!(sequences.iter().map(|s| s.len()).collect::<Vec<_>>(), vec![2, 2, 3]);
    assert_eq!(values, vec![20, 20, 30]);
    for token in sequences.iter().flatten() {
        assert!(token == "55" || token == "1C");
    }
    let empty_rows: Vec<Vec<String>> = vec![vec![], vec![]];
    assert!(matches!(generate_sequences(&cfg, &empty_rows, 1, &mut rng), Err(GameError::InvalidConfig(m)) if m == "Matrix must contain tokens to build sequences"));
}

#[test]
fn plan_refuses_daemons_longer_than_the_path() {
    let cfg = default_config(1, 8);
    assert!(matches!(plan_generation(&cfg, 1), Err(GameError::InvalidConfig(m)) if m == "Longest sequence length 2 does not fit available path length 1"));
    let (lengths, path_len) = plan_generation(&default_config(5, 8), 3).unwrap();
    assert_eq!(lengths, vec![2, 2, 3]);
    assert_eq!(path_len, 8);
    let (_, small) = plan_generation(&default_config(2, 8), 1).unwrap();
    assert_eq!(small, 3);
}

#[test]
fn candidates_plant_every_daemon_on_their_path() {
    let cfg = default_config(5, 8);
    let (lengths, path_len) = plan_generation(&cfg, 3).unwrap();
    let mut found = 0;
    for seed in 0..10 {
        let mut rng = StdRng::seed_from_u64(seed);
        if let Some(c) = build_candidate(&cfg, &lengths, path_len, &mut rng).unwrap() {
            found += 1;
            assert_eq!(c.path.len(), 8);
            let spelled: Vec<String> = c.path.iter().map(|&(r, col)| c.matrix[r][col].clone()).collect();
            for (idx, sequence) in c.sequences.iter().enumerate() {
                assert_eq!(sequence.len(), lengths[idx]);
                assert!(spelled.windows(sequence.len()).any(|w| w == sequence.as_slice()));
                assert_eq!(c.values[idx], lengths[idx] as u32 * 10);
            }
            let engine = GameEngine::new(cfg.clone(), c.matrix.clone(), c.sequences.clone(), c.values.clone());
            assert!(engine.is_ok());
        }
    }
    assert!(found > 0);
}

#[test]
fn planted_path_proves_full_solvability() {
    let cfg = default_config(3, 5);
    let matrix = vec![tokens(&["55", "1C", "7A"]), tokens(&["BD", "E9", "FF"]), tokens(&["7A", "55", "1C"])];
    let sequences = vec![tokens(&["55", "BD"]), tokens(&["BD", "E9"])];
    let values = vec![20, 20];
    let report = explore_puzzle(&cfg, &matrix, &sequences, &values, SolverOptions { node_limit: 1, solution_cap: 10 }).unwrap();
    assert!(report.node_cap_reached);
    assert!(!report.all_sequences_solvable);
    let proved = with_planted_solution_proof(report, &cfg, &matrix, &sequences, &values, &vec![(0, 0), (1, 0), (1, 1), (2, 1)]).unwrap();
    assert!(proved.all_sequences_solvable);
    assert_eq!(proved.max_score, 40);
    assert_eq!(proved.min_moves_to_all, Some(3));
    assert_eq!(proved.min_moves_to_max_score, Some(0));

    let report = explore_puzzle(&cfg, &matrix, &sequences, &values, SolverOptions { node_limit: 1, solution_cap: 10 }).unwrap();
    let refused = with_planted_solution_proof(report, &cfg, &matrix, &sequences, &values, &vec![(0, 0), (0, 1)]);
    assert!(matches!(refused, Err(GameError::InvalidMove((0, 1)))));
}

#[test]
fn acceptance_requires_full_score_and_a_trap() {
    let cfg = default_config(3, 5);
    let matrix = vec![tokens(&["A", "B", "C"]), tokens(&["X", "D", "Y"]), tokens(&["Z", "E", "F"])];
    let sequences = vec![tokens(&["A", "X", "D"]), tokens(&["X", "D"])];
    let values = vec![30, 20];
    let report = explore_puzzle(&cfg, &matrix, &sequences, &values, SolverOptions::default()).unwrap();
    let spec = PuzzleSpec::new(cfg.clone(), 2);
    assert!(puzzle_accepted(&spec, &report, false, 50));
    assert!(!puzzle_accepted(&spec, &report, true, 50));
    assert!(!puzzle_accepted(&spec, &report, false, 60));
    let relaxed = PuzzleSpec::new(cfg, 2).with_attempt_budget(0).allow_uncertain_difficulty(true);
    assert_eq!(relaxed.max_attempts, 1);
    assert!(relaxed.allow_uncertain_difficulty);
}

#[test]
fn attempt_seed_adds_the_attempt_and_wraps() {
    assert_eq!(attempt_seed(5, 3), 8);
    assert_eq!(attempt_seed(u64::MAX, 2), 1);
    assert_eq!(attempt_seed(7, 0), 7);
}

#[test]
fn candidates_always_come_where_no_draw_can_spoil_them() {
    let cfg = default_config(3, 2);
    let (lengths, path_len) = plan_generation(&cfg, 1).unwrap();
    assert_eq!(lengths.len(), 1);
    assert!(path_len <= 3);
    for seed in 0..20 {
        let mut rng = StdRng::seed_from_u64(seed);
        let c = build_candidate(&cfg, &lengths, path_len, &mut rng).unwrap().unwrap();
        let alphabet = &cfg.token_alphabet;
        assert!(c.matrix.iter().flatten().all(|t| alphabet.contains(t)));
    }
}

#[test]
fn walks_stop_short_only_where_they_are_stuck() {
    for seed in 0..20 {
        let mut rng = StdRng::seed_from_u64(seed);
        let path = generate_valid_path(2, 10, &mut rng);
        assert_eq!(path.len(), 4);
    }
}

#[test]
fn planted_paths_upload_every_daemon_when_replayed() {
    let cfg = default_config(5, 8);
    let (lengths, path_len) = plan_generation(&cfg, 3).unwrap();
    for seed in 0..10 {
        let mut rng = StdRng::seed_from_u64(seed);
        if let Some(c) = build_candidate(&cfg, &lengths, path_len, &mut rng).unwrap() {
            let mut engine = GameEngine::new(cfg.clone(), c.matrix.clone(), c.sequences.clone(), c.values.clone()).unwrap();
            let mut picks = 0;
            for &cell in &c.path {
                if engine.has_uploaded_all_sequences() {
                    break;
                }
                engine.apply_move(cell).unwrap();
                picks += 1;
            }
            assert!(engine.has_uploaded_all_sequences());
            assert!(picks >= 1 && picks <= c.path.len());
        }
    }
}

fn grid(rows: &[&[&str]]) -> Vec<Vec<String>> {
    rows.iter().map(|row| row.iter().map(|t| t.to_string()).collect()).collect()
}

fn token_list(items: &[&str]) -> Vec<String> {
    items.iter().map(|t| t.to_string()).collect()
}

#[test]
fn assemble_plants_the_tokens_and_cuts_the_daemons() {
    let matrix = grid(&[&["55", "55", "55"], &["55", "55", "55"], &["55", "55", "55"]]);
    let path = vec![(0, 1), (2, 1), (2, 0)];
    let tokens = token_list(&["1C", "BD", "E9"]);
    let mut rng = StdRng::seed_from_u64(3);
    let c = assemble_candidate(matrix, path.clone(), &tokens, &vec![(0, 2), (1, 2)], &mut rng).unwrap();
    assert_eq!(c.path, path);
    assert_eq!(c.sequences, vec![token_list(&["1C", "BD"]), token_list(&["BD", "E9"])]);
    assert_eq!(c.values, vec![20, 20]);
    assert_eq!(c.matrix[0][1], "1C");
    assert_eq!(c.matrix[2][1], "BD");
    assert_eq!(c.matrix[2][0], "E9");
    let changed: Vec<(usize, usize)> = (0..3)
        .flat_map(|r| (0..3).map(move |col| (r, col)))
        .filter(|&(r, col)| !path.contains(&(r, col)) && c.matrix[r][col] != "55")
        .collect();
    assert!(changed.len() <= 1);
}

#[test]
fn assemble_gives_up_on_equal_daemons_or_a_full_path() {
    let matrix = grid(&[&["55", "55"], &["55", "55"]]);
    let mut rng = StdRng::seed_from_u64(3);
    let equal = assemble_candidate(matrix.clone(), vec![(0, 0), (1, 0), (1, 1)], &token_list(&["1C", "1C", "1C"]), &vec![(0, 2), (1, 2)], &mut rng);
    assert!(equal.is_none());
    let full = assemble_candidate(matrix.clone(), vec![(0, 0), (1, 0), (1, 1), (0, 1)], &token_list(&["1C", "BD", "E9", "FF"]), &vec![(0, 2)], &mut rng);
    assert!(full.is_none());
    let kept = assemble_candidate(matrix, vec![(0, 0), (1, 0), (1, 1)], &token_list(&["1C", "BD", "E9"]), &vec![(0, 2)], &mut rng);
    assert!(kept.is_some());
}

#[test]
fn generation_keeps_retries_and_gives_up() {
    let spec = PuzzleSpec::new(default_config(5, 6), 2).with_attempt_budget(3);
    assert!(matches!(generation_step(&spec, 0, true), GenerationStep::Keep));
    assert!(matches!(generation_step(&spec, 2, true), GenerationStep::Keep));
    assert!(matches!(generation_step(&spec, 0, false), GenerationStep::Retry(1)));
    assert!(matches!(generation_step(&spec, 1, false), GenerationStep::Retry(2)));
    match generation_step(&spec, 2, false) {
        GenerationStep::GiveUp(GameError::InvalidConfig(message)) => {
            assert_eq!(message, "Failed to generate verified puzzle after 3 attempts");
        }
        _ => panic!("the last failed try gives up"),
    }
}

#[test]
fn exhausted_error_names_the_attempt_budget() {
    match exhausted_error(300) {
        GameError::InvalidConfig(message) => {
            assert_eq!(message, "Failed to generate verified puzzle after 300 attempts");
        }
        _ => panic!("an exhausted request is a configuration error"),
    }
}
