use rust_breach_protocol::engine::{BreachConfig, GameEngine, GameResult, TerminalReason};
use rust_breach_protocol::hud::{
    result_report_lines, sequence_status, terminal_summary, SequenceStatus, Session, TerminalTone,
    NANOS_PER_SECOND,
};

fn engine(buffer_size: usize, time_limit_seconds: u64, sequences: Vec<Vec<&str>>) -> GameEngine {
    let matrix = vec![
        vec!["AA".to_string(), "BB".to_string()],
        vec!["CC".to_string(), "DD".to_string()],
    ];
    let sequences = sequences
        .into_iter()
        .map(|sequence| sequence.into_iter().map(str::to_string).collect())
        .collect::<Vec<Vec<String>>>();
    let values = vec![100; sequences.len()];
    GameEngine::new(
        BreachConfig {
            matrix_size: 2,
            buffer_size,
            time_limit_seconds,
            token_alphabet: vec![
                "AA".to_string(),
                "BB".to_string(),
                "CC".to_string(),
                "DD".to_string(),
            ],
            seed: None,
        },
        matrix,
        sequences,
        values,
    )
    .unwrap()
}

fn result(success: bool, uploaded: usize, total: usize) -> GameResult {
    GameResult {
        success,
        score: if success { 100 } else { 0 },
        sequences_uploaded: uploaded,
        total_sequences: total,
        buffer_used: 3,
        buffer_full: false,
        out_of_time: false,
        terminal_reason: Some(TerminalReason::NoLegalMoves),
        sequence_results: vec![],
    }
}

#[test]
fn session_timer_freezes_after_terminal() {
    let mut session = Session::new(engine(4, 30, vec![vec!["AA"]]));
    session.apply_move((0, 0), 0).unwrap();
    assert!(session.has_ended());
    let first = session.remaining_nanos(1_000);
    assert_eq!(session.remaining_nanos(5_000_000), first);
}

#[test]
fn session_timer_freezes_after_timeout() {
    let mut session = Session::new(engine(4, 1, vec![vec!["BB", "DD"]]));
    session.apply_move((0, 0), 0).unwrap();
    session.tick_timer(2 * NANOS_PER_SECOND);
    assert_eq!(session.engine.terminal_reason(), Some(TerminalReason::OutOfTime));
    assert!(session.has_ended());
}

#[test]
fn terminal_capture_records_buffer_full() {
    let mut session = Session::new(engine(1, 30, vec![vec!["DD"]]));
    session.apply_move((0, 0), 0).unwrap();
    assert_eq!(session.engine.terminal_reason(), Some(TerminalReason::BufferFull));
    assert!(session.has_ended());
}

#[test]
fn session_clock_waits_for_the_first_pick() {
    let mut session = Session::new(engine(4, 3, vec![vec!["BB", "DD"]]));
    assert_eq!(session.remaining_nanos(10 * NANOS_PER_SECOND), Some(3 * NANOS_PER_SECOND));
    session.tick_timer(10 * NANOS_PER_SECOND);
    assert_eq!(session.engine.terminal_reason(), None);
    session.apply_move((0, 0), 10 * NANOS_PER_SECOND).unwrap();
    assert_eq!(session.started_at, Some(10 * NANOS_PER_SECOND));
    assert_eq!(session.remaining_nanos(11 * NANOS_PER_SECOND), Some(2 * NANOS_PER_SECOND));
    session.tick_timer(12 * NANOS_PER_SECOND);
    assert_eq!(session.engine.terminal_reason(), None);
    session.tick_timer(13 * NANOS_PER_SECOND);
    assert_eq!(session.engine.terminal_reason(), Some(TerminalReason::OutOfTime));
    assert_eq!(session.ended_at, Some(13 * NANOS_PER_SECOND));
    assert_eq!(session.remaining_nanos(20 * NANOS_PER_SECOND), Some(0));
}

#[test]
fn session_without_limit_never_times_out() {
    let mut session = Session::new(engine(4, 0, vec![vec!["BB", "DD"]]));
    session.apply_move((0, 1), 0).unwrap();
    assert_eq!(session.remaining_nanos(1_000 * NANOS_PER_SECOND), None);
    session.tick_timer(1_000 * NANOS_PER_SECOND);
    assert_eq!(session.engine.terminal_reason(), None);
    assert!(!session.has_ended());
}

#[test]
fn session_refused_pick_changes_nothing() {
    let mut session = Session::new(engine(4, 30, vec![vec!["BB", "DD"]]));
    assert!(session.apply_move((1, 1), 5).is_err());
    assert_eq!(session.started_at, None);
    assert_eq!(session.last_pick_at, None);
    assert_eq!(session.engine.state.buffer_tokens.len(), 0);
}

#[test]
fn sequence_status_follows_the_run() {
    let mut engine = engine(3, 30, vec![vec!["AA", "CC"], vec!["DD", "DD", "DD"]]);
    assert_eq!(sequence_status(&engine, 0, 0, 3), SequenceStatus::Pending);
    engine.apply_move((0, 0)).unwrap();
    assert_eq!(sequence_status(&engine, 0, 1, 2), SequenceStatus::Pending);
    assert_eq!(sequence_status(&engine, 1, 0, 2), SequenceStatus::Failed);
    engine.apply_move((1, 0)).unwrap();
    assert_eq!(sequence_status(&engine, 0, 0, 1), SequenceStatus::Installed);
}

#[test]
fn terminal_summary_names_the_outcome() {
    let complete = terminal_summary(&result(true, 2, 2), 6);
    assert_eq!(complete.title, "UPLOAD COMPLETE");
    assert_eq!(complete.reason, "All daemons installed");
    assert_eq!(complete.tone, TerminalTone::Success);
    let partial = terminal_summary(&result(true, 1, 2), 6);
    assert_eq!(partial.title, "UPLOAD PARTIAL");
    assert_eq!(partial.tone, TerminalTone::Partial);
    let failed = terminal_summary(&result(false, 0, 2), 6);
    assert_eq!(failed.title, "UPLOAD FAILED");
    assert_eq!(failed.reason, "No legal breach path remains");
    assert_eq!(failed.tone, TerminalTone::Failure);
    let mut timed_out = result(false, 0, 2);
    timed_out.out_of_time = true;
    assert_eq!(terminal_summary(&timed_out, 6).reason, "Breach time expired");
    let mut no_fit = result(false, 0, 2);
    no_fit.terminal_reason = Some(TerminalReason::NoCompletableSequences);
    assert_eq!(terminal_summary(&no_fit, 6).reason, "No daemon can still upload");
}

#[test]
fn result_report_lines_list_the_run() {
    let lines = result_report_lines(&result(true, 1, 2), 6);
    let expected = vec![
        ("SCORE", "100"),
        ("DAEMONS", "1/2"),
        ("BUFFER", "3/6"),
        ("EXIT", "PATH CLOSED"),
        ("STATUS", "INSTALLED"),
    ];
    assert_eq!(lines.len(), expected.len());
    for ((label, value), (want_label, want_value)) in lines.iter().zip(expected) {
        assert_eq!(label, want_label);
        assert_eq!(value, want_value);
    }
    let mut full = result(false, 0, 2);
    full.buffer_full = true;
    assert_eq!(result_report_lines(&full, 6)[3].1, "BUFFER FULL");
    assert_eq!(result_report_lines(&full, 6)[4].1, "FAILED");
}
