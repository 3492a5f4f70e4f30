use jib::error::JibError;
use jib::jib::submission_result;
use jib::model::{Message, MessageHeader, Transaction};
use jib::outcome::{JibFailedTransaction, JibResult};

fn transaction() -> Transaction {
    Transaction {
        signatures: vec![[7u8; 64]],
        message: Message {
            header: MessageHeader {
                num_required_signatures: 1,
                num_readonly_signed_accounts: 0,
                num_readonly_unsigned_accounts: 1,
            },
            account_keys: vec![[1u8; 32], [2u8; 32]],
            recent_blockhash: [3u8; 32],
            instructions: vec![],
        },
    }
}

#[test]
fn success_has_a_signature_only() {
    let result = JibResult::Success("abc".to_string());
    assert!(result.is_success());
    assert!(!result.is_failure());
    assert_eq!(result.signature(), Some("abc".to_string()));
    assert_eq!(result.error(), None);
    assert_eq!(result.transaction(), None);
}

#[test]
fn failure_has_a_transaction_and_an_error() {
    let result = JibResult::Failure(JibFailedTransaction {
        transaction: transaction(),
        error: "out of funds".to_string(),
    });
    assert!(!result.is_success());
    assert!(result.is_failure());
    assert_eq!(result.signature(), None);
    assert_eq!(result.error(), Some("out of funds".to_string()));
    assert_eq!(result.transaction(), Some(transaction()));
}

#[test]
fn error_messages() {
    assert_eq!(JibError::NoInstructions.message(), "No instructions to hoist");
    assert_eq!(
        JibError::FailedToCreateTpuClient("refused".to_string()).message(),
        "Failed to create the TPU client: refused"
    );
    assert_eq!(JibError::NoRecentBlockhash.message(), "No recent blockhash");
    assert_eq!(
        JibError::BatchTransactionError("late".to_string()).message(),
        "Send batch transaction failed: late"
    );
    assert_eq!(JibError::TransactionError("late".to_string()).message(), "Transaction Error");
    assert_eq!(JibError::NoSigners.message(), "No signers found");
}

#[test]
fn submission_result_keeps_the_results() {
    let results = vec![JibResult::Success("a".to_string()), JibResult::Success("b".to_string())];
    match submission_result(Ok(results)) {
        Ok(results) => {
            assert_eq!(results.len(), 2);
            assert_eq!(results[1].signature(), Some("b".to_string()));
        }
        Err(_) => panic!("the results are lost"),
    }
}

#[test]
fn submission_result_keeps_the_reason() {
    match submission_result(Err("Max retries exceeded".to_string())) {
        Err(JibError::TransactionError(reason)) => assert_eq!(reason, "Max retries exceeded"),
        _ => panic!("not a transaction error"),
    }
}
