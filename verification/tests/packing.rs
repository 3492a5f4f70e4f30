use jib::jib::Jib;
use jib::keypair::Keypair;
use jib::model::{AccountMeta, Instruction, Transaction};
use jib::network::Network;
use jib::packing::{can_pack, pack_instructions, prelude_instructions};
use solana_sdk::compute_budget::ComputeBudgetInstruction;
use solana_sdk::hash::Hash as SdkHash;
use solana_sdk::instruction::AccountMeta as SdkAccountMeta;
use solana_sdk::instruction::CompiledInstruction as SdkCompiledInstruction;
use solana_sdk::instruction::Instruction as SdkInstruction;
use solana_sdk::message::Message as SdkMessage;
use solana_sdk::pubkey::Pubkey as SdkPubkey;
use solana_sdk::signature::keypair_from_seed;
use solana_sdk::signature::Keypair as SdkKeypair;
use solana_sdk::signature::Signature as SdkSignature;
use solana_sdk::transaction::Transaction as SdkTransaction;

const BLOCKHASH: [u8; 32] = [5u8; 32];

fn sdk_keypair(n: u8) -> SdkKeypair {
    keypair_from_seed(&[n; 32]).unwrap()
}

fn keypair(n: u8) -> Keypair {
    match Keypair::from_bytes(sdk_keypair(n).to_bytes()) {
        Some(k) => k,
        None => panic!("not a key pair"),
    }
}

/// An instruction without accounts. Beside `payer` and the program, a transaction of such
/// instructions takes 166 bytes, and 3 + prefix + `len` for each of them.
fn ix(tag: u8, len: usize) -> Instruction {
    Instruction { program_id: [9u8; 32], accounts: vec![], data: vec![tag; len] }
}

fn sdk_ix(ix: &Instruction) -> SdkInstruction {
    SdkInstruction {
        program_id: SdkPubkey::from(ix.program_id),
        accounts: ix
            .accounts
            .iter()
            .map(|a| SdkAccountMeta {
                pubkey: SdkPubkey::from(a.pubkey),
                is_signer: a.is_signer,
                is_writable: a.is_writable,
            })
            .collect(),
        data: ix.data.clone(),
    }
}

fn sdk_tx(tx: &Transaction) -> SdkTransaction {
    let m = &tx.message;
    SdkTransaction {
        signatures: tx.signatures.iter().map(|s| SdkSignature::from(*s)).collect(),
        message: SdkMessage::new_with_compiled_instructions(
            m.header.num_required_signatures,
            m.header.num_readonly_signed_accounts,
            m.header.num_readonly_unsigned_accounts,
            m.account_keys.iter().map(|k| SdkPubkey::from(*k)).collect(),
            SdkHash::new_from_array(m.recent_blockhash),
            m.instructions
                .iter()
                .map(|i| {
                    SdkCompiledInstruction::new_from_raw_parts(
                        i.program_id_index,
                        i.data.clone(),
                        i.accounts.clone(),
                    )
                })
                .collect(),
        ),
    }
}

fn pack(budget: u32, fee: u64, ixs: &Vec<Instruction>, signers: &Vec<Keypair>) -> Vec<Transaction> {
    let payer = signers[0].pubkey();
    assert!(can_pack(budget, fee, ixs, &payer, signers));
    pack_instructions(budget, fee, ixs, &payer, signers, &BLOCKHASH)
}

/// The tags of the instructions of each transaction.
fn tags(transactions: &[Transaction]) -> Vec<Vec<u8>> {
    transactions
        .iter()
        .map(|tx| tx.message.instructions.iter().map(|i| i.data[0]).collect())
        .collect()
}

#[test]
fn packed_transaction_is_what_the_sdk_builds_and_signs() {
    let ixs = vec![
        Instruction {
            program_id: [9u8; 32],
            accounts: vec![
                AccountMeta { pubkey: [1u8; 32], is_signer: false, is_writable: true },
                AccountMeta { pubkey: [2u8; 32], is_signer: false, is_writable: false },
                AccountMeta {
                    pubkey: keypair(2).pubkey(),
                    is_signer: true,
                    is_writable: false,
                },
            ],
            data: vec![1, 2, 3],
        },
        ix(4, 10),
    ];
    let signers = vec![keypair(1), keypair(2)];
    let packed = pack(1_000_000, 77, &ixs, &signers);
    assert_eq!(packed.len(), 1);

    let mut expected_ixs = vec![
        ComputeBudgetInstruction::set_compute_unit_limit(1_000_000),
        ComputeBudgetInstruction::set_compute_unit_price(77),
    ];
    expected_ixs.extend(ixs.iter().map(sdk_ix));
    let payer = SdkPubkey::from(signers[0].pubkey());
    let mut expected = SdkTransaction::new_with_payer(&expected_ixs, Some(&payer));
    expected.sign(&[&sdk_keypair(1), &sdk_keypair(2)], SdkHash::new_from_array(BLOCKHASH));
    assert_eq!(sdk_tx(&packed[0]), expected);
    assert!(sdk_tx(&packed[0]).verify().is_ok());
}

#[test]
fn prelude_is_what_the_sdk_builds() {
    let prelude = prelude_instructions(1_400_000, 123_456_789_012);
    assert_eq!(prelude.len(), 2);
    assert_eq!(sdk_ix(&prelude[0]), ComputeBudgetInstruction::set_compute_unit_limit(1_400_000));
    assert_eq!(
        sdk_ix(&prelude[1]),
        ComputeBudgetInstruction::set_compute_unit_price(123_456_789_012)
    );
    assert_eq!(prelude[0].data, vec![2, 0xc0, 0x5c, 0x15, 0]);
    assert_eq!(prelude[1].data[0], 3);
}

#[test]
fn prelude_only_when_set() {
    assert_eq!(prelude_instructions(200_000, 0).len(), 0);
    assert_eq!(prelude_instructions(200_001, 0).len(), 1);
    assert_eq!(prelude_instructions(0, 0).len(), 1);
    let price = prelude_instructions(200_000, 1);
    assert_eq!(price.len(), 1);
    assert_eq!(price[0].data, vec![3, 1, 0, 0, 0, 0, 0, 0, 0]);
}

#[test]
fn instructions_that_fit_share_a_transaction() {
    let ixs = vec![ix(1, 100), ix(2, 100), ix(3, 100)];
    let packed = pack(200_000, 0, &ixs, &vec![keypair(1)]);
    assert_eq!(tags(&packed), vec![vec![1, 2, 3]]);
    assert_eq!(packed[0].message.account_keys[0], keypair(1).pubkey());
    assert_eq!(packed[0].message.account_keys.len(), 2);
}

#[test]
fn groups_are_runs_in_order() {
    let ixs = vec![ix(1, 500), ix(2, 500), ix(3, 500), ix(4, 500)];
    let packed = pack(200_000, 0, &ixs, &vec![keypair(1)]);
    assert_eq!(tags(&packed), vec![vec![1, 2], vec![3, 4]]);
}

#[test]
fn groups_are_full() {
    // 166 + 2 * 504 bytes; another instruction of 60 bytes would make 1237.
    let ixs = vec![ix(1, 500), ix(2, 500), ix(3, 60), ix(4, 500)];
    let packed = pack(200_000, 0, &ixs, &vec![keypair(1)]);
    assert_eq!(tags(&packed), vec![vec![1, 2], vec![3, 4]]);
    assert_eq!(bincode::serialize(&sdk_tx(&packed[0])).unwrap().len(), 1174);
}

#[test]
fn largest_transaction_has_1232_bytes() {
    let packed = pack(200_000, 0, &vec![ix(1, 1062)], &vec![keypair(1)]);
    assert_eq!(tags(&packed), vec![vec![1]]);
    assert_eq!(bincode::serialize(&sdk_tx(&packed[0])).unwrap().len(), 1232);
}

#[test]
fn every_group_starts_with_the_prelude() {
    let ixs = vec![ix(11, 450), ix(12, 450), ix(13, 450), ix(14, 450)];
    let packed = pack(300_000, 9, &ixs, &vec![keypair(1)]);
    assert_eq!(tags(&packed), vec![vec![2, 3, 11, 12], vec![2, 3, 13, 14]]);
    for tx in &packed {
        assert!(bincode::serialize(&sdk_tx(tx)).unwrap().len() <= 1232);
    }
}

#[test]
fn last_instruction_gets_a_transaction_of_its_own() {
    let ixs = vec![ix(1, 500), ix(2, 500), ix(3, 500)];
    let packed = pack(200_000, 0, &ixs, &vec![keypair(1)]);
    assert_eq!(tags(&packed), vec![vec![1, 2], vec![3]]);
}

#[test]
fn instruction_in_the_middle_gets_a_transaction_of_its_own() {
    let ixs = vec![ix(1, 100), ix(2, 1000), ix(3, 1000), ix(4, 20)];
    let packed = pack(200_000, 0, &ixs, &vec![keypair(1)]);
    assert_eq!(tags(&packed), vec![vec![1], vec![2], vec![3, 4]]);
    for tx in &packed {
        assert!(sdk_tx(tx).verify().is_ok());
    }
}

#[test]
fn two_large_instructions_get_a_transaction_each() {
    let packed = pack(200_000, 0, &vec![ix(1, 1000), ix(2, 1000)], &vec![keypair(1)]);
    assert_eq!(tags(&packed), vec![vec![1], vec![2]]);
    for tx in &packed {
        assert_eq!(bincode::serialize(&sdk_tx(tx)).unwrap().len(), 1170);
    }
}

#[test]
fn small_instruction_does_not_join_one_that_fills_a_transaction() {
    let packed = pack(200_000, 0, &vec![ix(1, 100), ix(2, 1060)], &vec![keypair(1)]);
    assert_eq!(tags(&packed), vec![vec![1], vec![2]]);
}

#[test]
fn instructions_are_cut_into_as_few_runs_as_possible() {
    // Two of 500 bytes fit into a transaction, three do not: five instructions need three.
    let ixs: Vec<Instruction> = (1..=5).map(|tag| ix(tag, 500)).collect();
    let packed = pack(200_000, 0, &ixs, &vec![keypair(1)]);
    assert_eq!(tags(&packed), vec![vec![1, 2], vec![3, 4], vec![5]]);
}

#[test]
fn oversized_instruction_is_left_out() {
    let ixs = vec![ix(11, 10), ix(12, 1300), ix(13, 10), ix(14, 10)];
    let packed = pack(300_000, 0, &ixs, &vec![keypair(1)]);
    assert_eq!(tags(&packed), vec![vec![2, 11, 13, 14]]);
    assert!(sdk_tx(&packed[0]).verify().is_ok());
}

#[test]
fn oversized_instruction_does_not_end_a_full_transaction_early() {
    let ixs = vec![ix(1, 500), ix(9, 1063), ix(2, 500), ix(3, 500), ix(9, 2000), ix(4, 500)];
    let packed = pack(200_000, 0, &ixs, &vec![keypair(1)]);
    assert_eq!(tags(&packed), vec![vec![1, 2], vec![3, 4]]);
    for tx in &packed {
        assert!(bincode::serialize(&sdk_tx(tx)).unwrap().len() <= 1232);
    }
}

#[test]
fn only_the_prelude_is_left_of_oversized_instructions() {
    let packed = pack(300_000, 0, &vec![ix(1, 1300), ix(2, 1300)], &vec![keypair(1)]);
    assert_eq!(tags(&packed), vec![vec![2]]);
    assert_eq!(packed[0].signatures, vec![[0u8; 64]]);
    assert_eq!(packed[0].message.recent_blockhash, [0u8; 32]);
    let packed = pack(200_000, 0, &vec![ix(1, 1300)], &vec![keypair(1)]);
    assert_eq!(tags(&packed), vec![Vec::<u8>::new()]);
}

#[test]
fn first_instruction_of_a_longer_run_need_not_be_signable_alone() {
    let signer = AccountMeta { pubkey: keypair(2).pubkey(), is_signer: true, is_writable: false };
    let mut first = ix(1, 900);
    first.accounts = vec![signer];
    let mut last = ix(3, 10);
    last.accounts = vec![signer];
    let packed = pack(200_000, 0, &vec![first, ix(2, 500), last], &vec![keypair(1), keypair(2)]);
    assert_eq!(tags(&packed), vec![vec![1], vec![2, 3]]);
    for tx in &packed {
        assert!(sdk_tx(tx).verify().is_ok());
        let signs: Vec<[u8; 32]> = tx.message.account_keys[..tx.signatures.len()].to_vec();
        assert_eq!(signs, vec![keypair(1).pubkey(), keypair(2).pubkey()]);
    }
}

#[test]
fn cannot_pack_if_a_later_transaction_does_not_need_a_signer() {
    let mut first = ix(1, 900);
    first.accounts =
        vec![AccountMeta { pubkey: keypair(2).pubkey(), is_signer: true, is_writable: false }];
    let signers = vec![keypair(1), keypair(2)];
    let payer = signers[0].pubkey();
    assert!(can_pack(200_000, 0, &vec![first.clone()], &payer, &signers));
    assert!(can_pack(200_000, 0, &vec![first.clone(), ix(2, 10)], &payer, &signers));
    assert!(!can_pack(200_000, 0, &vec![first, ix(2, 500)], &payer, &signers));
}

#[test]
fn cannot_pack_with_a_missing_signer() {
    let ixs = vec![Instruction {
        program_id: [9u8; 32],
        accounts: vec![AccountMeta { pubkey: [8u8; 32], is_signer: true, is_writable: false }],
        data: vec![],
    }];
    let signers = vec![keypair(1)];
    assert!(!can_pack(200_000, 0, &ixs, &signers[0].pubkey(), &signers));
}

#[test]
fn cannot_pack_with_a_signer_too_many() {
    let signers = vec![keypair(1), keypair(2)];
    assert!(!can_pack(200_000, 0, &vec![ix(1, 1)], &signers[0].pubkey(), &signers));
}

#[test]
fn cannot_pack_too_many_readonly_accounts() {
    let accounts: Vec<AccountMeta> = (0..300u32)
        .map(|i| {
            let mut pubkey = [1u8; 32];
            pubkey[0] = (i % 256) as u8;
            pubkey[1] = (i / 256) as u8;
            AccountMeta { pubkey, is_signer: false, is_writable: false }
        })
        .collect();
    let ixs = vec![Instruction { program_id: [9u8; 32], accounts, data: vec![] }];
    let signers = vec![keypair(1)];
    assert!(!can_pack(200_000, 0, &ixs, &signers[0].pubkey(), &signers));
}

#[test]
fn cannot_pack_a_list_too_long_for_the_wire() {
    let signers = vec![keypair(1)];
    let payer = signers[0].pubkey();
    assert!(can_pack(200_000, 0, &vec![ix(1, 65535)], &payer, &signers));
    assert!(!can_pack(200_000, 0, &vec![ix(1, 65536)], &payer, &signers));
}

#[test]
fn jib_packs_with_its_settings() {
    let mut jib = match Jib::new(vec![keypair(1)], Network::Devnet, Ok(())) {
        Ok(jib) => jib,
        Err(_) => panic!("no jib"),
    };
    jib.set_instructions(vec![ix(7, 100)]);
    jib.set_compute_budget(400_000);
    jib.set_priority_fee(5);
    assert!(jib.can_pack());
    let packed = match jib.pack(Some(BLOCKHASH)) {
        Ok(packed) => packed,
        Err(_) => panic!("not packed"),
    };
    assert_eq!(tags(&packed), vec![vec![2, 3, 7]]);
    assert!(jib.can_submit(&packed));
}
