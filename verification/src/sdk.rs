//! The Solana SDK and its wire encoding: the calls whose results are taken on trust.
use solana_sdk::commitment_config::CommitmentConfig;
use solana_sdk::compute_budget::ComputeBudgetInstruction;
use solana_sdk::hash::Hash as SdkHash;
use solana_sdk::instruction::CompiledInstruction as SdkCompiledInstruction;
use solana_sdk::instruction::Instruction as SdkInstruction;
use solana_sdk::message::Message as SdkMessage;
use solana_sdk::pubkey::Pubkey as SdkPubkey;
use solana_sdk::signature::Keypair as SdkKeypair;
use solana_sdk::signature::Signature as SdkSignature;
use solana_sdk::signature::SignerError as SdkSignerError;
use solana_sdk::transaction::Transaction as SdkTransaction;
use solana_transaction_status::TransactionConfirmationStatus as SdkConfirmationStatus;
use solana_transaction_status::TransactionStatus as SdkTransactionStatus;
use vstd::prelude::*;

use crate::error::SignerError;
use crate::keypair::{Keypair, KeypairView};
use crate::keys::{account_set, readonly_set, signer_set};
use crate::model::{
    AccountMeta, Blockhash, CompiledInstruction, Instruction, InstructionView, Message,
    MessageHeader, MessageView, Pubkey, Signature, Transaction, TransactionView, views,
};
use crate::status::{Commitment, ConfirmationStatus, SignatureStatus, satisfies};
use crate::wire::{encodable, wire_len};

verus! {

/// Whether 64 bytes are a secret key and a public key.
pub uninterp spec fn keypair_decodes(bytes: [u8; 64]) -> bool;

/// Calls `Keypair::from_bytes` of the SDK and tells whether it succeeds. Trusted: that depends on
/// the bytes alone.
#[verifier::external_body]
pub(crate) fn decodes_keypair(bytes: &[u8; 64]) -> (r: bool)
    ensures
        r == keypair_decodes(*bytes),
{
    SdkKeypair::from_bytes(bytes).is_ok()
}

/// An instruction in the shape that the SDK's own instructions are encoded in.
pub type RawInstruction = (Pubkey, Vec<(Pubkey, bool, bool)>, Vec<u8>);

/// The instruction that a raw instruction stands for.
pub open spec fn raw_view(raw: RawInstruction) -> InstructionView {
    InstructionView {
        program_id: raw.0,
        accounts: raw.1@.map_values(
            |a: (Pubkey, bool, bool)|
                AccountMeta { pubkey: a.0, is_signer: a.1, is_writable: a.2 },
        ),
        data: raw.2@,
    }
}

/// The message that the SDK compiles instructions into, for a payer.
pub uninterp spec fn compiled_message(
    instructions: Seq<InstructionView>,
    payer: Pubkey,
) -> MessageView;

/// The SDK can count the signers and the read-only accounts of a message in one byte each.
pub open spec fn compilable(instructions: Seq<InstructionView>, payer: Pubkey) -> bool {
    signer_set(instructions, payer).len() <= 255 && readonly_set(instructions, payer).len() <= 255
}

/// The message has the accounts of the instructions, once each, its signers first and the payer
/// in front; it names no block yet.
pub open spec fn has_accounts_of(
    message: MessageView,
    instructions: Seq<InstructionView>,
    payer: Pubkey,
) -> bool {
    &&& message.account_keys.no_duplicates()
    &&& message.account_keys.to_set() == account_set(instructions, payer)
    &&& message.signature_count() == signer_set(instructions, payer).len()
    &&& message.signature_count() <= message.account_keys.len()
    &&& message.account_keys.take(message.signature_count() as int).to_set() == signer_set(
        instructions,
        payer,
    )
    &&& message.account_keys.len() > 0
    &&& message.account_keys[0] == payer
    &&& message.recent_blockhash == vstd::array::spec_array_fill_for_copy_type::<u8, 32>(0)
}

/// The message holds the instructions in their order: the same data, and, as long as a position
/// fits in a byte, the positions of their programs and accounts.
pub open spec fn holds_instructions(
    message: MessageView,
    instructions: Seq<InstructionView>,
) -> bool {
    &&& message.instructions.len() == instructions.len()
    &&& forall|i: int|
        0 <= i < instructions.len() ==> {
            let compiled = #[trigger] message.instructions[i];
            &&& compiled.data == instructions[i].data
            &&& compiled.accounts.len() == instructions[i].accounts.len()
            &&& message.account_keys.len() <= 256 ==> {
                &&& compiled.program_id_index < message.account_keys.len()
                &&& message.account_keys[compiled.program_id_index as int]
                    == instructions[i].program_id
                &&& forall|j: int|
                    0 <= j < compiled.accounts.len() ==> (#[trigger] compiled.accounts[j])
                        < message.account_keys.len()
                        && message.account_keys[compiled.accounts[j] as int]
                        == instructions[i].accounts[j].pubkey
            }
        }
}

/// Calls `Transaction::new_with_payer` of the SDK and hands out the message of the transaction,
/// whose signatures are all blank. Trusted: the message depends on the instructions and the payer
/// alone; it holds their accounts and the instructions as said above. The call panics if the
/// signers, or the accounts that are only read, are too many to count in one byte.
#[verifier::external_body]
pub(crate) fn new_with_payer(instructions: &Vec<RawInstruction>, payer: &Pubkey) -> (r: Message)
    requires
        compilable(instructions@.map_values(|i: RawInstruction| raw_view(i)), *payer),
    ensures
        r@ == compiled_message(instructions@.map_values(|i: RawInstruction| raw_view(i)), *payer),
        has_accounts_of(r@, instructions@.map_values(|i: RawInstruction| raw_view(i)), *payer),
        holds_instructions(r@, instructions@.map_values(|i: RawInstruction| raw_view(i))),
{
    let encoded = bincode::serialize(instructions).unwrap();
    let decoded: Vec<SdkInstruction> = bincode::deserialize(&encoded).unwrap();
    let m = SdkTransaction::new_with_payer(&decoded, Some(&SdkPubkey::from(*payer))).message;
    Message {
        header: MessageHeader {
            num_required_signatures: m.header.num_required_signatures,
            num_readonly_signed_accounts: m.header.num_readonly_signed_accounts,
            num_readonly_unsigned_accounts: m.header.num_readonly_unsigned_accounts,
        },
        account_keys: m.account_keys.iter().map(|k| k.to_bytes()).collect(),
        recent_blockhash: m.recent_blockhash.to_bytes(),
        instructions: m.instructions.into_iter().map(|i| CompiledInstruction {
            program_id_index: i.program_id_index, accounts: i.accounts, data: i.data }).collect(),
    }
}

/// The bytes of a transaction on the wire.
pub uninterp spec fn wire_bytes(transaction: TransactionView) -> Seq<u8>;

/// Calls `bincode::serialize` on a transaction of the SDK. Trusted: the bytes depend on the
/// transaction alone, and there are as many as the wire format prescribes. The call fails if one
/// of the transaction's lists is too long for the format.
#[verifier::external_body]
pub(crate) fn serialize(transaction: &Transaction) -> (r: Vec<u8>)
    requires
        encodable(transaction@.message),
        transaction@.signatures.len() <= 65535,
    ensures
        r@ == wire_bytes(transaction@),
        r@.len() == wire_len(transaction@),
{
    let m = &transaction.message;
    let instructions = m.instructions.iter().map(|i| SdkCompiledInstruction::new_from_raw_parts(
        i.program_id_index, i.data.clone(), i.accounts.clone())).collect();
    let message = SdkMessage::new_with_compiled_instructions(
        m.header.num_required_signatures,
        m.header.num_readonly_signed_accounts,
        m.header.num_readonly_unsigned_accounts,
        m.account_keys.iter().map(|k| SdkPubkey::from(*k)).collect(),
        SdkHash::from(m.recent_blockhash),
        instructions,
    );
    let signatures = transaction.signatures.iter().map(|s| SdkSignature::from(*s)).collect();
    bincode::serialize(&SdkTransaction { signatures, message }).unwrap()
}

/// Some signer has the key `key`.
pub open spec fn has_signer(signers: Seq<KeypairView>, key: Pubkey) -> bool {
    exists|i: int| 0 <= i < signers.len() && (#[trigger] signers[i]).public == key
}

/// The last signer with the key `key`.
pub open spec fn last_signer(signers: Seq<KeypairView>, key: Pubkey) -> KeypairView
    recommends
        has_signer(signers, key),
    decreases signers.len(),
{
    if signers.len() <= 1 || signers.last().public == key {
        signers.last()
    } else {
        last_signer(signers.drop_last(), key)
    }
}

/// Some signer is not among the keys that must sign the message.
pub open spec fn has_stranger(message: MessageView, signers: Seq<KeypairView>) -> bool {
    exists|i: int|
        0 <= i < signers.len() && !message.account_keys.take(
            message.signature_count() as int,
        ).contains((#[trigger] signers[i]).public)
}

/// Nobody signs at some position: no signer has the key there, or the key stands at an earlier
/// position too, which then gets the signature.
pub open spec fn has_gap(message: MessageView, signers: Seq<KeypairView>) -> bool {
    exists|p: int|
        0 <= p < message.signature_count() && (!has_signer(
            signers,
            #[trigger] message.account_keys[p],
        ) || message.account_keys.take(p).contains(message.account_keys[p]))
}

/// Why the signers cannot sign an unsigned message, if they cannot.
pub open spec fn sign_error(
    message: MessageView,
    signers: Seq<KeypairView>,
) -> Option<SignerError> {
    if message.signature_count() > message.account_keys.len() {
        Some(SignerError::InvalidAccountIndex)
    } else if has_stranger(message, signers) {
        Some(SignerError::KeypairPubkeyMismatch)
    } else if has_gap(message, signers) {
        Some(SignerError::NotEnoughSigners)
    } else {
        None
    }
}

/// The signature of a message by a key pair, given by its bytes.
pub uninterp spec fn signature_of(keypair: [u8; 64], message: MessageView) -> Signature;

/// Calls `Transaction::try_sign` of the SDK on an unsigned transaction, given by its bytes, and
/// hands out the signatures. Trusted: it fails exactly as `sign_error` says, since a key pair
/// never fails to sign, and no ed25519 signature is blank (its first half encodes a multiple of
/// the base point, and zeros do not); otherwise it puts the blockhash into the message, and
/// at each position the signature by the last signer with that key, which depends on the key pair
/// and the message alone.
#[verifier::external_body]
#[allow(unused_variables)]
pub(crate) fn try_sign(
    transaction: &Transaction,
    bytes: &Vec<u8>,
    signers: &Vec<Keypair>,
    blockhash: &Blockhash,
) -> (r: Result<Vec<Signature>, SignerError>)
    requires
        transaction@ == TransactionView::unsigned(transaction@.message),
        encodable(transaction@.message),
        bytes@ == wire_bytes(transaction@),
    ensures
        r is Ok <==> sign_error(transaction@.message, views(signers@)) is None,
        r matches Err(e) ==> sign_error(transaction@.message, views(signers@)) == Some(e),
        r matches Ok(s) ==> s@.len() == transaction@.message.signature_count() && forall|p: int|
            0 <= p < s@.len() ==> #[trigger] s@[p] == signature_of(
                last_signer(views(signers@), transaction@.message.account_keys[p]).bytes,
                transaction@.message.with_blockhash(*blockhash),
            ),
{
    let mut tx: SdkTransaction = bincode::deserialize(bytes).unwrap();
    let keypairs: Vec<SdkKeypair> =
        signers.iter().map(|k| SdkKeypair::from_bytes(&k.bytes).unwrap()).collect();
    let keypairs: Vec<&SdkKeypair> = keypairs.iter().collect();
    match tx.try_sign(&keypairs, SdkHash::from(*blockhash)) {
        Ok(()) => Ok(tx.signatures.iter().map(|s| <[u8; 64]>::from(*s)).collect()),
        Err(SdkSignerError::KeypairPubkeyMismatch) => Err(SignerError::KeypairPubkeyMismatch),
        Err(SdkSignerError::NotEnoughSigners) => Err(SignerError::NotEnoughSigners),
        Err(_) => Err(SignerError::InvalidAccountIndex),
    }
}

/// The address of the program that sets the compute budget of a transaction.
pub const COMPUTE_BUDGET_PROGRAM: Pubkey = [
    3, 6, 70, 111, 229, 33, 23, 50, 255, 236, 173, 186, 114, 195, 155, 231, 188, 140, 229, 187, 197,
    247, 18, 107, 44, 67, 155, 58, 64, 0, 0, 0,
];

/// The first `count` bytes of a number, the lowest first.
pub open spec fn le_bytes(n: nat, count: nat) -> Seq<u8>
    decreases count,
{
    if count == 0 {
        Seq::empty()
    } else {
        seq![(n % 256) as u8] + le_bytes(n / 256, (count - 1) as nat)
    }
}

/// An instruction for the compute budget program.
pub open spec fn budget_instruction(tag: u8, argument: Seq<u8>) -> InstructionView {
    InstructionView {
        program_id: COMPUTE_BUDGET_PROGRAM,
        accounts: Seq::empty(),
        data: seq![tag] + argument,
    }
}

/// The instruction that limits a transaction to so many compute units.
pub open spec fn limit_instruction(units: u32) -> InstructionView {
    budget_instruction(2, le_bytes(units as nat, 4))
}

/// The instruction that offers so many micro-lamports for each compute unit.
pub open spec fn price_instruction(micro_lamports: u64) -> InstructionView {
    budget_instruction(3, le_bytes(micro_lamports as nat, 8))
}

/// Calls `ComputeBudgetInstruction::set_compute_unit_limit` of the SDK. Trusted: the instruction
/// has no accounts, and its data is the tag 2 and the four bytes of the limit.
#[verifier::external_body]
pub(crate) fn set_compute_unit_limit(units: u32) -> (r: Instruction)
    ensures
        r@ == limit_instruction(units),
{
    let ix = ComputeBudgetInstruction::set_compute_unit_limit(units);
    Instruction {
        program_id: ix.program_id.to_bytes(),
        accounts: ix.accounts.iter().map(|a| AccountMeta { pubkey: a.pubkey.to_bytes(),
            is_signer: a.is_signer, is_writable: a.is_writable }).collect(),
        data: ix.data,
    }
}

/// Calls `ComputeBudgetInstruction::set_compute_unit_price` of the SDK. Trusted: the instruction
/// has no accounts, and its data is the tag 3 and the eight bytes of the price.
#[verifier::external_body]
pub(crate) fn set_compute_unit_price(micro_lamports: u64) -> (r: Instruction)
    ensures
        r@ == price_instruction(micro_lamports),
{
    let ix = ComputeBudgetInstruction::set_compute_unit_price(micro_lamports);
    Instruction {
        program_id: ix.program_id.to_bytes(),
        accounts: ix.accounts.iter().map(|a| AccountMeta { pubkey: a.pubkey.to_bytes(),
            is_signer: a.is_signer, is_writable: a.is_writable }).collect(),
        data: ix.data,
    }
}

/// A signature as text.
pub uninterp spec fn signature_text(signature: Signature) -> Seq<char>;

/// Calls `to_string` on a signature of the SDK. Trusted: the text, the signature in base 58,
/// depends on the signature alone.
#[verifier::external_body]
pub(crate) fn signature_string(signature: &Signature) -> (r: String)
    ensures
        r@ == signature_text(*signature),
{
    SdkSignature::from(*signature).to_string()
}

/// Calls `TransactionStatus::satisfies_commitment` of the SDK on a status with the same slot,
/// confirmations and confirmation status. Trusted: the answer is that of `satisfies`.
#[verifier::external_body]
pub(crate) fn satisfies_commitment(status: &SignatureStatus, commitment: Commitment) -> (r: bool)
    ensures
        r == satisfies(status@, commitment),
{
    let confirmation_status = match status.confirmation_status {
        None => None,
        Some(ConfirmationStatus::Processed) => Some(SdkConfirmationStatus::Processed),
        Some(ConfirmationStatus::Confirmed) => Some(SdkConfirmationStatus::Confirmed),
        Some(ConfirmationStatus::Finalized) => Some(SdkConfirmationStatus::Finalized),
    };
    let commitment = match commitment {
        Commitment::Processed => CommitmentConfig::processed(),
        Commitment::Confirmed => CommitmentConfig::confirmed(),
        Commitment::Finalized => CommitmentConfig::finalized(),
    };
    let (slot, confirmations) = (status.slot, status.confirmations);
    SdkTransactionStatus { slot, confirmations, status: Ok(()), err: None, confirmation_status }
        .satisfies_commitment(commitment)
}

} // verus!
