use jib::error::{SendError, SignerError};
use jib::jib::Jib;
use jib::keypair::Keypair;
use jib::model::{Instruction, Message, Signature, Transaction};
use jib::network::Network;
use jib::outcome::JibResult;
use jib::pending::{can_submit, find, sign_all, signatures_of};
use jib::signing::sign;
use jib::status::{ConfirmationStatus, SignatureStatus};
use jib::submission::{Action, Event, Notice, Step, Submission};
use solana_sdk::signature::keypair_from_seed;
use solana_sdk::signature::Signature as SdkSignature;

const SECOND: u64 = 1_000_000_000;

fn keypair(n: u8) -> Keypair {
    match Keypair::from_bytes(keypair_from_seed(&[n; 32]).unwrap().to_bytes()) {
        Some(k) => k,
        None => panic!("not a key pair"),
    }
}

/// Unsigned messages, all different, that signer 1 pays for.
fn messages(n: u32) -> Vec<Message> {
    (0..n)
        .map(|i| {
            let ixs = vec![Instruction {
                program_id: [9u8; 32],
                accounts: vec![],
                data: i.to_le_bytes().to_vec(),
            }];
            jib::signing::compile(&ixs, &keypair(1).pubkey()).message
        })
        .collect()
}

fn signers() -> Vec<Keypair> {
    vec![keypair(1)]
}

fn status(confirmation: ConfirmationStatus, err: Option<&str>) -> SignatureStatus {
    SignatureStatus {
        slot: 5,
        confirmations: Some(1),
        err: err.map(|e| e.to_string()),
        confirmation_status: Some(confirmation),
        description: "the status".to_string(),
    }
}

fn confirmed() -> Option<SignatureStatus> {
    Some(status(ConfirmationStatus::Confirmed, None))
}

fn text_of(signature: &Signature) -> String {
    SdkSignature::from(*signature).to_string()
}

fn begin(n: u32, batch_size: usize) -> (Submission, Step) {
    Submission::begin(messages(n), batch_size)
}

/// Hands an event over, which has to be expected.
fn step(submission: &mut Submission, event: Event) -> Step {
    assert!(submission.expects(&event));
    submission.step(&signers(), event)
}

/// Takes a batch from its start to the point where the clock is read to see whether to send.
fn sign_batch(
    submission: &mut Submission,
    height: u64,
    blockhash: [u8; 32],
    last_valid: u64,
) -> Step {
    let s = step(submission, Event::BlockHeight(Ok(height)));
    assert!(matches!(s.action, Action::GetLatestBlockhash));
    let s = step(submission, Event::Blockhash(Ok((blockhash, last_valid))));
    assert!(matches!(s.action, Action::ReadClock));
    step(submission, Event::Clock(10 * SECOND))
}

/// Sends all pending transactions to the leader and hands them out.
fn send_all(submission: &mut Submission, first: Step) -> (Vec<Transaction>, Step) {
    let mut sent = vec![];
    let mut s = first;
    loop {
        match s.action {
            Action::SendToLeader(tx) => {
                sent.push(tx);
                s = step(submission, Event::LeaderSent(true));
            }
            _ => return (sent, s),
        }
    }
}

/// Takes a signed batch to the point where the statuses are asked for.
fn ask(submission: &mut Submission, height: u64) -> (Vec<Transaction>, Vec<Signature>) {
    let s = step(submission, Event::Clock(10 * SECOND + 1));
    let (sent, s) = send_all(submission, s);
    assert!(matches!(s.action, Action::ReadClock));
    let s = step(submission, Event::Clock(11 * SECOND));
    assert!(matches!(s.action, Action::GetBlockHeight));
    let s = step(submission, Event::BlockHeight(Ok(height)));
    match s.action {
        Action::GetSignatureStatuses(signatures) => (sent, signatures),
        _ => panic!("the statuses are not asked for"),
    }
}

fn results(s: Step) -> Vec<JibResult> {
    match s.action {
        Action::Finish(Ok(results)) => results,
        _ => panic!("not finished"),
    }
}

fn lines(s: &Step) -> Vec<String> {
    s.notices
        .iter()
        .filter_map(|n| match n {
            Notice::Line(text) => Some(text.clone()),
            _ => None,
        })
        .collect()
}

#[test]
fn nothing_to_submit_is_finished_at_once() {
    let (submission, s) = begin(0, 10);
    assert_eq!(s.notices.len(), 1);
    assert!(matches!(s.notices[0], Notice::Started { total: 0 }));
    assert_eq!(results(s).len(), 0);
    assert!(!submission.expects(&Event::BlockHeight(Ok(1))));
    assert!(!submission.expects(&Event::Clock(1)));
}

#[test]
fn one_transaction_is_sent_and_confirmed() {
    let (mut submission, s) = begin(1, 10);
    assert!(matches!(s.notices[0], Notice::Started { total: 1 }));
    assert!(matches!(s.notices[1], Notice::BatchStarted { size: 1 }));
    assert!(matches!(s.action, Action::GetBlockHeight));
    assert!(!submission.expects(&Event::Clock(1)));

    let s = sign_batch(&mut submission, 100, [3u8; 32], 200);
    assert!(matches!(s.action, Action::ReadClock));

    let s = step(&mut submission, Event::Clock(10 * SECOND + 1));
    let tx = match s.action {
        Action::SendToLeader(tx) => tx,
        _ => panic!("not sent"),
    };
    let expected = match sign(&messages(1)[0], &signers(), &[3u8; 32]) {
        Ok(tx) => tx,
        Err(_) => panic!("not signed"),
    };
    assert_eq!(tx, expected);

    let s = step(&mut submission, Event::LeaderSent(true));
    assert_eq!(s.pause_millis, 10);
    match &s.notices[0] {
        Notice::Progress { confirmed: 0, total: 1, text } => {
            assert_eq!(*text, format!("{:<40}", "Sending 1/1 transactions"));
        }
        _ => panic!("no progress"),
    }
    assert!(matches!(s.action, Action::ReadClock));

    let s = step(&mut submission, Event::Clock(11 * SECOND));
    assert_eq!(s.pause_millis, 500);
    match &s.notices[0] {
        Notice::Progress { confirmed: 0, total: 1, text } => assert_eq!(
            *text,
            format!(
                "{:<40} [block height 100; re-sign in 100 blocks]",
                "Waiting for next block, 1 pending..."
            )
        ),
        _ => panic!("no progress"),
    }

    let s = step(&mut submission, Event::BlockHeight(Ok(101)));
    match s.action {
        Action::GetSignatureStatuses(signatures) => assert_eq!(signatures, vec![tx.signatures[0]]),
        _ => panic!("the statuses are not asked for"),
    }

    let s = step(&mut submission, Event::Statuses(Some(vec![confirmed()])));
    match &s.notices[0] {
        Notice::Progress { confirmed: 1, total: 1, text } => assert_eq!(
            *text,
            format!(
                "{:<40} [block height 101; re-sign in 99 blocks]",
                "Checking transaction status..."
            )
        ),
        _ => panic!("no progress"),
    }
    assert!(matches!(s.notices[1], Notice::BatchFinished { size: 1 }));
    let results = results(s);
    assert_eq!(results, vec![JibResult::Success(text_of(&tx.signatures[0]))]);
}

#[test]
fn failed_transaction_is_reported_with_its_error() {
    let (mut submission, _) = begin(1, 10);
    sign_batch(&mut submission, 100, [3u8; 32], 200);
    let (sent, _) = ask(&mut submission, 101);
    let failed = Some(status(ConfirmationStatus::Finalized, Some("out of funds")));
    let s = step(&mut submission, Event::Statuses(Some(vec![failed])));
    assert_eq!(lines(&s), vec!["Failed transaction: the status".to_string()]);
    let results = results(s);
    assert_eq!(results.len(), 1);
    assert!(results[0].is_failure());
    assert_eq!(results[0].error(), Some("out of funds".to_string()));
    assert_eq!(results[0].transaction(), Some(sent[0].clone()));
}

#[test]
fn transaction_is_sent_to_the_rpc_node_if_the_leader_is_not_reached() {
    let (mut submission, _) = begin(2, 10);
    sign_batch(&mut submission, 100, [3u8; 32], 200);
    let s = step(&mut submission, Event::Clock(10 * SECOND + 1));
    let to_leader = match s.action {
        Action::SendToLeader(tx) => tx,
        _ => panic!("not sent"),
    };
    let s = step(&mut submission, Event::LeaderSent(false));
    assert_eq!(s.pause_millis, 0);
    match s.action {
        Action::SendToRpc(tx) => assert_eq!(tx, to_leader),
        _ => panic!("not sent"),
    }
    let s = step(&mut submission, Event::RpcSent);
    assert_eq!(s.pause_millis, 10);
    match s.action {
        Action::SendToLeader(tx) => assert_ne!(tx, to_leader),
        _ => panic!("the second one is not sent"),
    }
}

#[test]
fn not_sent_again_before_the_interval_is_over() {
    let (mut submission, _) = begin(1, 10);
    sign_batch(&mut submission, 100, [3u8; 32], 200);
    ask(&mut submission, 101);
    // Everything was sent at 11 s.
    let s = step(&mut submission, Event::Statuses(Some(vec![None])));
    assert!(matches!(s.action, Action::ReadClock));
    let s = step(&mut submission, Event::Clock(15 * SECOND));
    assert!(matches!(s.action, Action::GetBlockHeight));
    let s = step(&mut submission, Event::BlockHeight(Ok(102)));
    assert!(matches!(s.action, Action::GetSignatureStatuses(_)));
    step(&mut submission, Event::Statuses(Some(vec![None])));
    let s = step(&mut submission, Event::Clock(15 * SECOND + 1));
    assert!(matches!(s.action, Action::SendToLeader(_)));
}

#[test]
fn first_sending_is_not_due_until_the_clock_has_moved() {
    let (mut submission, _) = begin(1, 10);
    sign_batch(&mut submission, 100, [3u8; 32], 200);
    let s = step(&mut submission, Event::Clock(10 * SECOND));
    assert!(matches!(s.action, Action::GetBlockHeight));
}

#[test]
fn block_height_is_asked_for_ten_times() {
    let (mut submission, _) = begin(1, 10);
    sign_batch(&mut submission, 100, [3u8; 32], 200);
    let mut s = step(&mut submission, Event::Clock(10 * SECOND));
    let mut asked = 0;
    while let Action::GetBlockHeight = s.action {
        assert_eq!(s.pause_millis, 500);
        asked += 1;
        s = step(&mut submission, Event::BlockHeight(Ok(100)));
    }
    assert_eq!(asked, 10);
    assert!(matches!(s.action, Action::GetSignatureStatuses(_)));
}

#[test]
fn status_that_is_not_sure_enough_settles_nothing() {
    let (mut submission, _) = begin(4, 10);
    sign_batch(&mut submission, 100, [3u8; 32], 200);
    let (_, signatures) = ask(&mut submission, 101);
    let unsure = |confirmations: Option<usize>| {
        Some(SignatureStatus {
            slot: 5,
            confirmations,
            err: None,
            confirmation_status: None,
            description: String::new(),
        })
    };
    let s = step(
        &mut submission,
        Event::Statuses(Some(vec![
            Some(status(ConfirmationStatus::Processed, None)),
            unsure(Some(1)),
            unsure(Some(2)),
            unsure(None),
        ])),
    );
    assert!(matches!(s.notices[0], Notice::Progress { confirmed: 2, total: 4, .. }));
    step(&mut submission, Event::Clock(12 * SECOND));
    let s = step(&mut submission, Event::BlockHeight(Ok(102)));
    match s.action {
        Action::GetSignatureStatuses(left) => {
            assert_eq!(left, vec![signatures[0], signatures[1]]);
        }
        _ => panic!("the statuses are not asked for"),
    }
}

#[test]
fn failed_status_request_is_passed_over() {
    let (mut submission, _) = begin(1, 10);
    sign_batch(&mut submission, 100, [3u8; 32], 200);
    ask(&mut submission, 101);
    let s = step(&mut submission, Event::Statuses(None));
    assert!(matches!(s.notices[0], Notice::Progress { confirmed: 0, total: 1, .. }));
    assert!(matches!(s.action, Action::ReadClock));
}

#[test]
fn confirmed_transaction_is_not_sent_again() {
    let (mut submission, _) = begin(2, 10);
    sign_batch(&mut submission, 100, [3u8; 32], 200);
    let (sent, signatures) = ask(&mut submission, 101);
    assert_eq!(sent.len(), 2);
    step(&mut submission, Event::Statuses(Some(vec![confirmed(), None])));
    let s = step(&mut submission, Event::Clock(20 * SECOND));
    let (again, _) = send_all(&mut submission, s);
    assert_eq!(again, vec![sent[1].clone()]);
    assert_eq!(again[0].signatures[0], signatures[1]);
}

#[test]
fn expired_transactions_are_signed_again() {
    let (mut submission, _) = begin(2, 10);
    sign_batch(&mut submission, 100, [3u8; 32], 200);
    let (sent, signatures) = ask(&mut submission, 201);
    let s = step(&mut submission, Event::Statuses(Some(vec![confirmed(), None])));
    assert_eq!(lines(&s), vec!["Blockhash expired. 5 retries remaining".to_string()]);
    assert!(matches!(s.action, Action::GetLatestBlockhash));
    step(&mut submission, Event::Blockhash(Ok(([4u8; 32], 400))));
    step(&mut submission, Event::Clock(10 * SECOND));
    let (again, _) = ask(&mut submission, 202);
    assert_eq!(again.len(), 1);
    assert_eq!(again[0].message.recent_blockhash, [4u8; 32]);
    assert_eq!(again[0].message.instructions, sent[1].message.instructions);
    assert_ne!(again[0].signatures, sent[1].signatures);
    let s = step(&mut submission, Event::Statuses(Some(vec![confirmed()])));
    assert_eq!(
        results(s),
        vec![
            JibResult::Success(text_of(&signatures[0])),
            JibResult::Success(text_of(&again[0].signatures[0])),
        ]
    );
}

#[test]
fn failure_after_signing_again_holds_the_transaction_that_failed() {
    let (mut submission, _) = begin(2, 10);
    sign_batch(&mut submission, 100, [3u8; 32], 200);
    ask(&mut submission, 201);
    step(&mut submission, Event::Statuses(Some(vec![confirmed(), None])));
    step(&mut submission, Event::Blockhash(Ok(([4u8; 32], 400))));
    step(&mut submission, Event::Clock(10 * SECOND));
    let (again, _) = ask(&mut submission, 202);
    let failed = Some(status(ConfirmationStatus::Confirmed, Some("bad")));
    let s = step(&mut submission, Event::Statuses(Some(vec![failed])));
    assert_eq!(results(s)[1].transaction(), Some(again[0].clone()));
}

#[test]
fn failures_can_be_submitted_again() {
    let (mut submission, _) = begin(3, 10);
    sign_batch(&mut submission, 100, [3u8; 32], 200);
    ask(&mut submission, 101);
    let failed = || Some(status(ConfirmationStatus::Confirmed, Some("bad")));
    let s = step(&mut submission, Event::Statuses(Some(vec![failed(), confirmed(), failed()])));
    let first = results(s);
    let transactions: Vec<Transaction> = first.iter().filter_map(|r| r.transaction()).collect();
    assert_eq!(transactions.len(), 2);
    assert!(can_submit(&transactions, &signers()));
    let again = transactions.iter().map(|tx| tx.message.clone()).collect();
    let (mut submission, _) = Submission::begin(again, 10);
    sign_batch(&mut submission, 102, [4u8; 32], 300);
    let (sent, _) = ask(&mut submission, 103);
    assert_eq!(sent.len(), 2);
    for (tx, before) in sent.iter().zip(transactions.iter()) {
        assert_eq!(tx.message.instructions, before.message.instructions);
        assert_eq!(tx.message.recent_blockhash, [4u8; 32]);
    }
    let s = step(&mut submission, Event::Statuses(Some(vec![confirmed(), confirmed()])));
    assert_eq!(results(s).len(), 2);
}

#[test]
fn results_stand_batch_by_batch() {
    let (mut submission, _) = begin(4, 2);
    sign_batch(&mut submission, 100, [3u8; 32], 200);
    let (first, _) = ask(&mut submission, 101);
    // The second transaction of the batch is confirmed before the first.
    step(&mut submission, Event::Statuses(Some(vec![None, confirmed()])));
    step(&mut submission, Event::Clock(12 * SECOND));
    step(&mut submission, Event::BlockHeight(Ok(102)));
    let s = step(&mut submission, Event::Statuses(Some(vec![confirmed()])));
    assert!(matches!(s.action, Action::GetBlockHeight));
    sign_batch(&mut submission, 103, [4u8; 32], 200);
    let (second, _) = ask(&mut submission, 104);
    let s = step(&mut submission, Event::Statuses(Some(vec![confirmed(), confirmed()])));
    let expected: Vec<JibResult> = [&first[1], &first[0], &second[0], &second[1]]
        .iter()
        .map(|tx| JibResult::Success(text_of(&tx.signatures[0])))
        .collect();
    assert_eq!(results(s), expected);
}

#[test]
fn five_blockhashes_are_tried() {
    let (mut submission, _) = begin(1, 10);
    let s = step(&mut submission, Event::BlockHeight(Ok(300)));
    assert!(matches!(s.action, Action::GetLatestBlockhash));
    for left in [5, 4, 3, 2, 1] {
        let s = step(&mut submission, Event::Blockhash(Ok(([left as u8; 32], 299))));
        assert!(matches!(s.action, Action::ReadClock));
        let s = step(&mut submission, Event::Clock(10 * SECOND));
        assert_eq!(lines(&s), vec![format!("Blockhash expired. {} retries remaining", left)]);
        if left > 1 {
            assert!(matches!(s.action, Action::GetLatestBlockhash));
        } else {
            match s.action {
                Action::Finish(Err(SendError::Custom(reason))) => {
                    assert_eq!(reason, "Max retries exceeded");
                }
                _ => panic!("not given up"),
            }
        }
    }
    assert!(!submission.expects(&Event::Clock(1)));
}

#[test]
fn blockhash_is_used_up_to_its_last_height() {
    let (mut submission, _) = begin(1, 10);
    let s = sign_batch(&mut submission, 200, [3u8; 32], 200);
    assert!(matches!(s.action, Action::ReadClock));
    assert_eq!(lines(&s).len(), 0);
}

#[test]
fn batches_follow_one_another() {
    let (mut submission, s) = begin(5, 2);
    let mut s = s;
    let mut sizes = vec![];
    let mut sent_in_all = vec![];
    loop {
        for n in &s.notices {
            if let Notice::BatchStarted { size } = n {
                sizes.push(*size);
            }
        }
        match s.action {
            Action::Finish(Ok(results)) => {
                assert_eq!(results.len(), 5);
                for (result, tx) in results.iter().zip(sent_in_all.iter()) {
                    let tx: &Transaction = tx;
                    assert_eq!(result.signature(), Some(text_of(&tx.signatures[0])));
                }
                break;
            }
            Action::GetBlockHeight => {
                sign_batch(&mut submission, 100, [3u8; 32], 200);
                let (sent, signatures) = ask(&mut submission, 101);
                sent_in_all.extend(sent);
                let statuses = signatures.iter().map(|_| confirmed()).collect();
                s = step(&mut submission, Event::Statuses(Some(statuses)));
            }
            _ => panic!("unexpected action"),
        }
    }
    assert_eq!(sizes, vec![2, 2, 1]);
    let data: Vec<Vec<u8>> =
        sent_in_all.iter().map(|tx| tx.message.instructions[0].data.clone()).collect();
    let expected: Vec<Vec<u8>> = (0..5u32).map(|i| i.to_le_bytes().to_vec()).collect();
    assert_eq!(data, expected);
}

#[test]
fn statuses_are_asked_for_in_parts() {
    let (mut submission, _) = begin(300, 300);
    sign_batch(&mut submission, 100, [3u8; 32], 200);
    let (sent, first) = ask(&mut submission, 101);
    assert_eq!(sent.len(), 300);
    assert_eq!(first.len(), 256);
    let statuses = first.iter().map(|_| confirmed()).collect();
    let s = step(&mut submission, Event::Statuses(Some(statuses)));
    assert!(matches!(s.notices[0], Notice::Progress { confirmed: 256, total: 300, .. }));
    let second = match s.action {
        Action::GetSignatureStatuses(signatures) => signatures,
        _ => panic!("the rest is not asked for"),
    };
    assert_eq!(second.len(), 44);
    let all: Vec<Signature> = first.into_iter().chain(second).collect();
    assert_eq!(all, sent.iter().map(|tx| tx.signatures[0]).collect::<Vec<_>>());
    let s = step(&mut submission, Event::Statuses(Some((0..44).map(|_| confirmed()).collect())));
    assert_eq!(results(s).len(), 300);
}

#[test]
fn short_reply_settles_what_it_covers() {
    let (mut submission, _) = begin(3, 10);
    sign_batch(&mut submission, 100, [3u8; 32], 200);
    ask(&mut submission, 101);
    let s = step(&mut submission, Event::Statuses(Some(vec![confirmed()])));
    assert!(matches!(s.notices[0], Notice::Progress { confirmed: 1, total: 3, .. }));
    assert!(matches!(s.action, Action::ReadClock));
}

#[test]
fn equal_messages_are_sent_once() {
    let one = messages(1);
    let (mut submission, _) = Submission::begin(vec![one[0].clone(), one[0].clone()], 10);
    sign_batch(&mut submission, 100, [3u8; 32], 200);
    let (sent, signatures) = ask(&mut submission, 101);
    assert_eq!(sent.len(), 1);
    assert_eq!(signatures.len(), 1);
    let s = step(&mut submission, Event::Statuses(Some(vec![confirmed()])));
    assert_eq!(results(s).len(), 1);
}

#[test]
fn failed_height_request_ends_the_submission() {
    let (mut submission, _) = begin(1, 10);
    let s = step(&mut submission, Event::BlockHeight(Err("down".to_string())));
    match s.action {
        Action::Finish(Err(SendError::Rpc(reason))) => assert_eq!(reason, "down"),
        _ => panic!("not failed"),
    }
}

#[test]
fn failed_height_request_while_waiting_ends_the_submission() {
    let (mut submission, _) = begin(1, 10);
    sign_batch(&mut submission, 100, [3u8; 32], 200);
    step(&mut submission, Event::Clock(10 * SECOND));
    let s = step(&mut submission, Event::BlockHeight(Err("down".to_string())));
    match s.action {
        Action::Finish(Err(SendError::Rpc(reason))) => assert_eq!(reason, "down"),
        _ => panic!("not failed"),
    }
}

#[test]
fn failed_blockhash_request_ends_the_submission() {
    let (mut submission, _) = begin(1, 10);
    step(&mut submission, Event::BlockHeight(Ok(100)));
    let s = step(&mut submission, Event::Blockhash(Err("down".to_string())));
    match s.action {
        Action::Finish(Err(SendError::Rpc(reason))) => assert_eq!(reason, "down"),
        _ => panic!("not failed"),
    }
}

#[test]
fn message_that_cannot_be_signed_ends_the_submission() {
    let (mut submission, _) = begin(1, 10);
    step(&mut submission, Event::BlockHeight(Ok(100)));
    let event = Event::Blockhash(Ok(([3u8; 32], 200)));
    assert!(submission.expects(&event));
    let s = submission.step(&vec![keypair(1), keypair(2)], event);
    match s.action {
        Action::Finish(Err(SendError::Signer(e))) => {
            assert_eq!(e, SignerError::KeypairPubkeyMismatch);
        }
        _ => panic!("not failed"),
    }
}

#[test]
fn events_are_expected_one_at_a_time() {
    let (mut submission, _) = begin(1, 10);
    assert!(submission.expects(&Event::BlockHeight(Err("down".to_string()))));
    assert!(!submission.expects(&Event::Blockhash(Ok(([3u8; 32], 200)))));
    assert!(!submission.expects(&Event::LeaderSent(true)));
    assert!(!submission.expects(&Event::RpcSent));
    assert!(!submission.expects(&Event::Statuses(None)));
    sign_batch(&mut submission, 100, [3u8; 32], 200);
    step(&mut submission, Event::Clock(10 * SECOND + 1));
    assert!(submission.expects(&Event::LeaderSent(false)));
    assert!(!submission.expects(&Event::Clock(11 * SECOND)));
}

#[test]
fn jib_advances_a_submission_with_its_signers() {
    let mut jib = match Jib::new(signers(), Network::Devnet, Ok(())) {
        Ok(jib) => jib,
        Err(_) => panic!("no jib"),
    };
    jib.set_instructions(vec![Instruction {
        program_id: [9u8; 32],
        accounts: vec![],
        data: vec![1],
    }]);
    let (mut submission, s) = match jib.hoist(Some([8u8; 32])) {
        Ok(begun) => begun,
        Err(_) => panic!("not hoisted"),
    };
    assert!(matches!(s.notices[1], Notice::BatchStarted { size: 1 }));
    jib.advance(&mut submission, Event::BlockHeight(Ok(100)));
    jib.advance(&mut submission, Event::Blockhash(Ok(([3u8; 32], 200))));
    jib.advance(&mut submission, Event::Clock(10 * SECOND));
    let s = jib.advance(&mut submission, Event::Clock(10 * SECOND + 1));
    match s.action {
        Action::SendToLeader(tx) => assert_eq!(tx.message.recent_blockhash, [3u8; 32]),
        _ => panic!("not sent"),
    }
}

#[test]
fn pending_transactions_are_found_by_their_signatures() {
    let pending = match sign_all(&messages(3), &signers(), &[3u8; 32]) {
        Ok(pending) => pending,
        Err(_) => panic!("not signed"),
    };
    let signatures = signatures_of(&pending);
    assert_eq!(signatures.len(), 3);
    assert_eq!(find(&pending, &signatures[2]), Some(2));
    assert_eq!(find(&pending, &[1u8; 64]), None);
    assert_eq!(signatures[1], pending[1].signatures[0]);
}

#[test]
fn transactions_that_cannot_be_submitted() {
    let signed = match sign_all(&messages(1), &signers(), &[3u8; 32]) {
        Ok(pending) => pending,
        Err(_) => panic!("not signed"),
    };
    assert!(can_submit(&signed, &signers()));
    // Nobody signs the message, so it cannot be told apart by a signature.
    let mut unsigned = messages(1)[0].clone();
    unsigned.header.num_required_signatures = 0;
    assert!(!can_submit(&vec![Transaction::new_unsigned(unsigned.clone())], &vec![]));
    // With a signer too many it is turned away in good time.
    assert!(can_submit(&vec![Transaction::new_unsigned(unsigned)], &signers()));
    let mut long = messages(1)[0].clone();
    long.instructions[0].data = vec![0; 65536];
    assert!(!can_submit(&vec![Transaction::new_unsigned(long)], &signers()));
}
