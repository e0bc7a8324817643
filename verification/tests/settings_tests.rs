use rust_breach_protocol::settings::{buffer_bounds_for, Field, Settings};

#[test]
fn buffer_bounds_follow_sequence_token_budget() {
    assert_eq!(buffer_bounds_for(5, 1), (2, 2));
    assert_eq!(buffer_bounds_for(5, 2), (2, 4));
    assert_eq!(buffer_bounds_for(5, 3), (3, 7));
    assert_eq!(buffer_bounds_for(5, 4), (4, 12));
    assert_eq!(buffer_bounds_for(5, 5), (5, 16));
    assert_eq!(buffer_bounds_for(3, 5), (5, 8));
}

#[test]
fn settings_clamp_buffer_when_daemon_count_changes() {
    let mut settings = Settings::default();
    assert_eq!(settings.buffer_size, 4);
    assert!(settings.step(Field::Daemons, 1));
    assert_eq!(settings.buffer_size, 4);
    assert!(settings.step(Field::BufferSize, 1));
    assert_eq!(settings.buffer_size, 5);
    assert!(settings.step(Field::Daemons, -1));
    assert_eq!(settings.buffer_size, 4);
    assert!(!settings.can_step(Field::BufferSize, 1));
}

#[test]
fn settings_clamp_buffer_when_matrix_shrinks() {
    let mut settings = Settings::default();
    assert!(settings.step(Field::Daemons, 1));
    while settings.can_step(Field::BufferSize, 1) {
        assert!(settings.step(Field::BufferSize, 1));
    }
    assert_eq!(settings.buffer_size, 7);

    while settings.can_step(Field::MatrixSize, -1) {
        assert!(settings.step(Field::MatrixSize, -1));
    }
    assert_eq!(settings.matrix_size, 3);
    assert_eq!(settings.buffer_size, 7);

    assert!(settings.step(Field::Daemons, 1));
    while settings.can_step(Field::BufferSize, 1) {
        assert!(settings.step(Field::BufferSize, 1));
    }
    assert_eq!(settings.buffer_size, 8);
}

#[test]
fn step_with_zero_delta_changes_nothing() {
    let mut settings = Settings::default();
    assert!(!settings.step(Field::MatrixSize, 0));
    assert_eq!(settings.matrix_size, 5);
}

#[test]
fn step_refuses_values_outside_bounds() {
    let mut settings = Settings::default();
    assert!(!settings.step(Field::MatrixSize, 5));
    assert_eq!(settings.matrix_size, 5);
    assert!(settings.step(Field::MatrixSize, 4));
    assert_eq!(settings.matrix_size, 9);
    assert!(!settings.step(Field::TimeLimit, 3));
    assert!(settings.step(Field::TimeLimit, 2));
    assert_eq!(settings.time_limit_index, 4);
    assert!(!settings.step(Field::TokenVariety, -5));
    assert!(settings.step(Field::TokenVariety, 4));
    assert_eq!(settings.token_variety, 10);
}

#[test]
fn value_labels_match_setup_screen() {
    let mut settings = Settings::default();
    assert_eq!(settings.value_label(Field::MatrixSize), "5x5");
    assert_eq!(settings.value_label(Field::BufferSize), "4");
    assert_eq!(settings.value_label(Field::Daemons), "2");
    assert_eq!(settings.value_label(Field::TokenVariety), "6");
    assert_eq!(settings.value_label(Field::TimeLimit), "30s");
    assert!(settings.step(Field::TimeLimit, -2));
    assert_eq!(settings.value_label(Field::TimeLimit), "No Limit");
    assert_eq!(Field::TokenVariety.label(), "Token Variety");
}

#[test]
fn buffer_bounds_for_small_matrix_and_no_daemons() {
    assert_eq!(buffer_bounds_for(1, 1), (2, 2));
    assert_eq!(buffer_bounds_for(2, 4), (4, 4));
    assert_eq!(buffer_bounds_for(9, 0), (1, 1));
}

#[test]
fn every_accepted_step_keeps_the_settings_within_bounds() {
    let mut settings = Settings::default();
    let steps = [
        (Field::Daemons, 1),
        (Field::Daemons, 1),
        (Field::BufferSize, 1),
        (Field::MatrixSize, -1),
        (Field::MatrixSize, -1),
        (Field::Daemons, 1),
        (Field::MatrixSize, 1),
        (Field::BufferSize, -1),
        (Field::Daemons, -1),
        (Field::TimeLimit, 2),
        (Field::TokenVariety, -4),
    ];
    for (field, delta) in steps {
        settings.step(field, delta);
        let (low, high) = buffer_bounds_for(settings.matrix_size, settings.sequences);
        assert!(low <= settings.buffer_size && settings.buffer_size <= high);
        assert!((3..=9).contains(&settings.matrix_size));
        assert!((1..=5).contains(&settings.sequences));
        assert!((2..=10).contains(&settings.token_variety));
        assert!(settings.time_limit_index < 5);
    }
}
