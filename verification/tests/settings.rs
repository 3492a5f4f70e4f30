use jib::error::JibError;
use jib::jib::Jib;
use jib::keypair::Keypair;
use jib::model::Instruction;
use jib::network::Network;
use jib::submission::{Action, Notice};
use solana_sdk::signature::keypair_from_seed;

fn keypair(n: u8) -> Keypair {
    match Keypair::from_bytes(keypair_from_seed(&[n; 32]).unwrap().to_bytes()) {
        Some(k) => k,
        None => panic!("not a key pair"),
    }
}

fn jib(signers: Vec<Keypair>) -> Jib {
    match Jib::new(signers, Network::Testnet, Ok(())) {
        Ok(jib) => jib,
        Err(_) => panic!("no jib"),
    }
}

fn ixs(n: usize) -> Vec<Instruction> {
    (0..n)
        .map(|i| Instruction { program_id: [9u8; 32], accounts: vec![], data: vec![i as u8; 500] })
        .collect()
}

#[test]
fn new_uses_the_address_of_the_network() {
    assert_eq!(jib(vec![]).rpc_url(), "https://api.testnet.solana.com");
}

#[test]
fn new_fails_without_a_client() {
    match Jib::new(vec![keypair(1)], Network::Devnet, Err("refused".to_string())) {
        Err(JibError::FailedToCreateTpuClient(reason)) => assert_eq!(reason, "refused"),
        _ => panic!("made without a client"),
    }
}

#[test]
fn rpc_url_can_be_set() {
    let mut jib = jib(vec![]);
    jib.set_rpc_url("http://localhost:1");
    assert_eq!(jib.rpc_url(), "http://localhost:1");
}

#[test]
fn payer_is_the_first_signer() {
    let mut jib = jib(vec![keypair(1), keypair(2)]);
    assert_eq!(jib.payer().pubkey(), keypair(1).pubkey());
    jib.set_signers(vec![keypair(2)]);
    assert_eq!(jib.payer().pubkey(), keypair(2).pubkey());
}

#[test]
fn pack_needs_instructions_first() {
    let mut jib = jib(vec![]);
    assert!(matches!(jib.check(), Err(JibError::NoInstructions)));
    assert!(!jib.can_pack());
    assert!(matches!(jib.pack(None), Err(JibError::NoInstructions)));
    assert!(matches!(jib.hoist(Some([1u8; 32])), Err(JibError::NoInstructions)));
}

#[test]
fn pack_needs_signers_then() {
    let mut jib = jib(vec![]);
    jib.set_instructions(ixs(1));
    assert!(matches!(jib.check(), Err(JibError::NoSigners)));
    assert!(!jib.can_pack());
    assert!(matches!(jib.pack(None), Err(JibError::NoSigners)));
}

#[test]
fn pack_needs_a_blockhash_last() {
    let mut jib = jib(vec![keypair(1)]);
    jib.set_instructions(ixs(1));
    assert!(jib.check().is_ok());
    assert!(jib.can_pack());
    assert!(matches!(jib.pack(None), Err(JibError::NoRecentBlockhash)));
    assert!(matches!(jib.hoist(None), Err(JibError::NoRecentBlockhash)));
    assert!(jib.pack(Some([1u8; 32])).is_ok());
}

#[test]
fn no_prelude_unless_it_is_set() {
    let mut jib = jib(vec![keypair(1)]);
    jib.set_instructions(ixs(1));
    let packed = jib.pack(Some([1u8; 32])).unwrap();
    assert_eq!(packed[0].message.instructions.len(), 1);
    jib.set_compute_budget(1);
    assert_eq!(jib.pack(Some([1u8; 32])).unwrap()[0].message.instructions.len(), 2);
    jib.set_priority_fee(1);
    assert_eq!(jib.pack(Some([1u8; 32])).unwrap()[0].message.instructions.len(), 3);
    jib.set_compute_budget(200_000);
    jib.set_priority_fee(0);
    assert_eq!(jib.pack(Some([1u8; 32])).unwrap(), packed);
}

#[test]
fn batches_have_ten_transactions_unless_set() {
    let mut jib = jib(vec![keypair(1)]);
    jib.set_instructions(ixs(30));
    let packed = jib.pack(Some([1u8; 32])).unwrap();
    assert_eq!(packed.len(), 15);
    assert!(jib.can_submit(&packed));
    let (_, s) = jib.submit_packed_transactions(packed.clone());
    assert!(matches!(s.notices[0], Notice::Started { total: 15 }));
    assert!(matches!(s.notices[1], Notice::BatchStarted { size: 10 }));
    assert!(matches!(s.action, Action::GetBlockHeight));
    jib.set_batch_size(4);
    let (_, s) = jib.submit_packed_transactions(packed.clone());
    assert!(matches!(s.notices[1], Notice::BatchStarted { size: 4 }));
    jib.set_batch_size(0);
    assert!(!jib.can_submit(&packed));
}

#[test]
fn submitting_nothing_is_finished_at_once() {
    let (_, s) = jib(vec![]).submit_packed_transactions(vec![]);
    match s.action {
        Action::Finish(Ok(results)) => assert_eq!(results.len(), 0),
        _ => panic!("not finished"),
    }
}
