use jib::error::SignerError;
use jib::keypair::Keypair;
use jib::model::{
    AccountMeta, CompiledInstruction, Instruction, Message, MessageHeader, Transaction,
};
use jib::signing::{compile, is_encodable, sign, signer_has, signing_error};
use solana_sdk::hash::Hash as SdkHash;
use solana_sdk::message::Message as SdkMessage;
use solana_sdk::pubkey::Pubkey as SdkPubkey;
use solana_sdk::signature::keypair_from_seed;
use solana_sdk::signer::Signer;

fn keypair(n: u8) -> Keypair {
    match Keypair::from_bytes(keypair_from_seed(&[n; 32]).unwrap().to_bytes()) {
        Some(k) => k,
        None => panic!("not a key pair"),
    }
}

fn message(required: u8, account_keys: Vec<[u8; 32]>) -> Message {
    Message {
        header: MessageHeader {
            num_required_signatures: required,
            num_readonly_signed_accounts: 0,
            num_readonly_unsigned_accounts: 0,
        },
        account_keys,
        recent_blockhash: [0u8; 32],
        instructions: vec![],
    }
}

#[test]
fn keypair_is_read_from_its_bytes() {
    let sdk = keypair_from_seed(&[3u8; 32]).unwrap();
    assert_eq!(keypair(3).pubkey(), sdk.pubkey().to_bytes());
}

#[test]
fn keypair_needs_a_public_key() {
    let mut refused = 0;
    for n in 0..=255u8 {
        let mut bytes = keypair_from_seed(&[3u8; 32]).unwrap().to_bytes();
        for b in bytes.iter_mut().skip(32) {
            *b = n;
        }
        let decodes = solana_sdk::signature::Keypair::from_bytes(&bytes).is_ok();
        assert_eq!(Keypair::from_bytes(bytes).is_some(), decodes);
        if !decodes {
            refused += 1;
        }
    }
    assert!(refused > 0);
}

#[test]
fn signature_is_that_of_the_sdk() {
    let unsigned = message(1, vec![keypair(1).pubkey(), [4u8; 32]]);
    let signed = match sign(&unsigned, &vec![keypair(1)], &[6u8; 32]) {
        Ok(tx) => tx,
        Err(_) => panic!("not signed"),
    };
    assert_eq!(signed.message.recent_blockhash, [6u8; 32]);
    let sdk_message = SdkMessage::new_with_compiled_instructions(
        1,
        0,
        0,
        vec![SdkPubkey::from(keypair(1).pubkey()), SdkPubkey::from([4u8; 32])],
        SdkHash::new_from_array([6u8; 32]),
        vec![],
    );
    let signature = keypair_from_seed(&[1u8; 32]).unwrap().sign_message(&sdk_message.serialize());
    assert_eq!(signed.signatures, vec![<[u8; 64]>::from(signature)]);
}

#[test]
fn signatures_stand_at_the_positions_of_their_keys() {
    let unsigned = message(2, vec![keypair(1).pubkey(), keypair(2).pubkey()]);
    let forward = match sign(&unsigned, &vec![keypair(1), keypair(2)], &[6u8; 32]) {
        Ok(tx) => tx,
        Err(_) => panic!("not signed"),
    };
    let backward = match sign(&unsigned, &vec![keypair(2), keypair(1)], &[6u8; 32]) {
        Ok(tx) => tx,
        Err(_) => panic!("not signed"),
    };
    assert_eq!(forward, backward);
    assert_ne!(forward.signatures[0], forward.signatures[1]);
}

#[test]
fn message_that_asks_for_too_many_signatures() {
    let bad = message(3, vec![keypair(1).pubkey()]);
    assert_eq!(sign(&bad, &vec![keypair(1)], &[6u8; 32]), Err(SignerError::InvalidAccountIndex));
    assert_eq!(signing_error(&bad, &vec![keypair(1)]), Some(SignerError::InvalidAccountIndex));
}

#[test]
fn signer_that_is_not_required() {
    let m = message(1, vec![keypair(1).pubkey(), keypair(2).pubkey()]);
    let signers = vec![keypair(1), keypair(2)];
    assert_eq!(sign(&m, &signers, &[6u8; 32]), Err(SignerError::KeypairPubkeyMismatch));
    assert_eq!(signing_error(&m, &signers), Some(SignerError::KeypairPubkeyMismatch));
}

#[test]
fn signer_that_is_missing() {
    let m = message(2, vec![keypair(1).pubkey(), keypair(2).pubkey()]);
    assert_eq!(sign(&m, &vec![keypair(1)], &[6u8; 32]), Err(SignerError::NotEnoughSigners));
    assert_eq!(signing_error(&m, &vec![keypair(1)]), Some(SignerError::NotEnoughSigners));
}

#[test]
fn key_that_stands_twice_is_signed_once() {
    let m = message(2, vec![keypair(1).pubkey(), keypair(1).pubkey()]);
    assert_eq!(sign(&m, &vec![keypair(1)], &[6u8; 32]), Err(SignerError::NotEnoughSigners));
    assert_eq!(signing_error(&m, &vec![keypair(1)]), Some(SignerError::NotEnoughSigners));
}

#[test]
fn message_without_signatures_needs_no_signer() {
    let m = message(0, vec![[4u8; 32]]);
    assert_eq!(signing_error(&m, &vec![]), None);
    match sign(&m, &vec![], &[6u8; 32]) {
        Ok(tx) => assert_eq!(tx.signatures.len(), 0),
        Err(_) => panic!("not signed"),
    }
}

#[test]
fn long_lists_are_not_encodable() {
    let mut m = message(1, vec![keypair(1).pubkey()]);
    assert!(is_encodable(&m));
    m.instructions.push(CompiledInstruction {
        program_id_index: 0,
        accounts: vec![],
        data: vec![0; 65536],
    });
    assert!(!is_encodable(&m));
    // The stranger is turned away before the message has to be written down.
    assert_eq!(sign(&m, &vec![keypair(2)], &[6u8; 32]), Err(SignerError::KeypairPubkeyMismatch));
}

#[test]
fn signers_are_found_by_their_keys() {
    let signers = vec![keypair(1), keypair(2)];
    assert!(signer_has(&signers, &keypair(2).pubkey()));
    assert!(!signer_has(&signers, &keypair(3).pubkey()));
}

#[test]
fn compiled_transaction_is_unsigned() {
    let ixs = vec![Instruction {
        program_id: [9u8; 32],
        accounts: vec![AccountMeta { pubkey: [1u8; 32], is_signer: false, is_writable: true }],
        data: vec![42],
    }];
    let tx: Transaction = compile(&ixs, &[5u8; 32]);
    assert_eq!(tx.signatures, vec![[0u8; 64]]);
    assert_eq!(tx.message.account_keys, vec![[5u8; 32], [1u8; 32], [9u8; 32]]);
    assert_eq!(tx.message.header.num_required_signatures, 1);
    assert_eq!(tx.message.header.num_readonly_unsigned_accounts, 1);
    assert_eq!(tx.message.instructions[0].program_id_index, 2);
    assert_eq!(tx.message.instructions[0].accounts, vec![1]);
    assert_eq!(tx.message.instructions[0].data, vec![42]);
}
