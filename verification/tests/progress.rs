use jib::progress::{expired_text, progress_text, sending_text, waiting_text};

#[test]
fn sending_status_text() {
    assert_eq!(sending_text(1, 12), "Sending 1/12 transactions");
    assert_eq!(sending_text(0, 0), "Sending 0/0 transactions");
}

#[test]
fn waiting_status_text() {
    assert_eq!(waiting_text(305), "Waiting for next block, 305 pending...");
}

#[test]
fn expired_line_text() {
    assert_eq!(expired_text(5), "Blockhash expired. 5 retries remaining");
}

#[test]
fn progress_without_a_height_is_padded() {
    let text = progress_text(None, 200, "Sending 1/2 transactions");
    assert_eq!(text, format!("{:<40}", "Sending 1/2 transactions"));
    assert_eq!(text.len(), 40);
}

#[test]
fn progress_with_a_height() {
    let status = "Waiting for next block, 3 pending...";
    assert_eq!(
        progress_text(Some(150), 200, status),
        format!("{:<40} [block height 150; re-sign in 50 blocks]", status)
    );
}

#[test]
fn blocks_left_do_not_go_below_zero() {
    assert_eq!(
        progress_text(Some(201), 200, "x"),
        format!("{:<40} [block height 201; re-sign in 0 blocks]", "x")
    );
    assert_eq!(
        progress_text(Some(u64::MAX), 0, "x"),
        format!("{:<40} [block height 18446744073709551615; re-sign in 0 blocks]", "x")
    );
}

#[test]
fn long_status_is_not_cut() {
    let status = "a status of more than forty characters, which is kept whole";
    assert_eq!(progress_text(None, 0, status), format!("{:<40}", status));
}

#[test]
fn status_is_padded_by_characters() {
    assert_eq!(progress_text(None, 0, "ééé"), format!("{:<40}", "ééé"));
}
