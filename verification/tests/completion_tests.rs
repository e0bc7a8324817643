use rust_breach_protocol::engine::{sequence_can_still_upload, Token};

fn tokens(slice: &[&str]) -> Vec<Token> {
    slice.iter().map(|s| s.to_string()).collect()
}

#[test]
fn a_daemon_can_upload_where_a_few_more_tokens_complete_it() {
    let buffer = tokens(&["A", "B"]);
    assert!(sequence_can_still_upload(&buffer, &tokens(&["B", "C"]), 1));
    assert!(!sequence_can_still_upload(&buffer, &tokens(&["B", "C"]), 0));
    assert!(sequence_can_still_upload(&buffer, &tokens(&["A", "B"]), 0));
    assert!(sequence_can_still_upload(&buffer, &tokens(&["C", "D"]), 2));
    assert!(!sequence_can_still_upload(&buffer, &tokens(&["C", "D"]), 1));
    assert!(sequence_can_still_upload(&buffer, &[], 0));
}
