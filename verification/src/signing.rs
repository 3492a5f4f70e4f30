//! Building and signing transactions.
use vstd::prelude::*;

use crate::error::SignerError;
use crate::keypair::{Keypair, KeypairView};
use crate::keys::{account_set, is_signer, signer_set};
use crate::model::{
    Blockhash, Instruction, InstructionView, Message, MessageView, Pubkey, Transaction,
    TransactionView, same_bytes, views,
};
use crate::sdk::{
    RawInstruction, compilable, compiled_message, has_accounts_of, has_gap, has_signer,
    has_stranger, holds_instructions, last_signer, new_with_payer, raw_view, serialize, sign_error,
    signature_of, try_sign,
};
use crate::wire::{MAX_LIST_LEN, encodable, lemma_compiled_len, packed_len, wire_len};

verus! {

/// Every list of a transaction of these instructions is short enough for the wire format.
pub open spec fn listable(ixs: Seq<InstructionView>, payer: Pubkey) -> bool {
    &&& account_set(ixs, payer).len() <= MAX_LIST_LEN
    &&& ixs.len() <= MAX_LIST_LEN
    &&& forall|i: int|
        0 <= i < ixs.len() ==> (#[trigger] ixs[i]).accounts.len() <= MAX_LIST_LEN
            && ixs[i].data.len() <= MAX_LIST_LEN
}

/// The signers are exactly those whose signatures a transaction of these instructions needs.
pub open spec fn signable(
    ixs: Seq<InstructionView>,
    payer: Pubkey,
    signers: Seq<KeypairView>,
) -> bool {
    forall|key: Pubkey| #[trigger] is_signer(ixs, payer, key) <==> has_signer(signers, key)
}

/// A transaction of these instructions can be compiled, written down and signed.
pub open spec fn buildable(
    ixs: Seq<InstructionView>,
    payer: Pubkey,
    signers: Seq<KeypairView>,
) -> bool {
    compilable(ixs, payer) && listable(ixs, payer) && signable(ixs, payer, signers)
}

/// The transaction that holds a message, signed for a block.
pub open spec fn signed(
    message: MessageView,
    signers: Seq<KeypairView>,
    blockhash: Blockhash,
) -> TransactionView {
    TransactionView {
        signatures: Seq::new(
            message.signature_count(),
            |p: int|
                signature_of(
                    last_signer(signers, message.account_keys[p]).bytes,
                    message.with_blockhash(blockhash),
                ),
        ),
        message: message.with_blockhash(blockhash),
    }
}

/// Copies an instruction into the shape that the SDK encodes.
fn raw_instruction(ix: &Instruction) -> (r: RawInstruction)
    ensures
        raw_view(r) == ix@,
{
    let mut accounts: Vec<(Pubkey, bool, bool)> = Vec::new();
    let mut j: usize = 0;
    while j < ix.accounts.len()
        invariant
            j <= ix.accounts.len(),
            accounts@.len() == j,
            forall|k: int|
                0 <= k < j ==> (#[trigger] accounts@[k]) == (
                    ix.accounts@[k].pubkey,
                    ix.accounts@[k].is_signer,
                    ix.accounts@[k].is_writable,
                ),
        decreases ix.accounts.len() - j,
    {
        let meta = ix.accounts[j];
        accounts.push((meta.pubkey, meta.is_signer, meta.is_writable));
        j = j + 1;
    }
    let data = ix.data.clone();
    assert(data@ =~= ix.data@);
    let r: RawInstruction = (ix.program_id, accounts, data);
    assert(raw_view(r).accounts =~= ix@.accounts);
    r
}

/// Compiles instructions into an unsigned transaction that `payer` pays for.
pub fn compile(ixs: &Vec<Instruction>, payer: &Pubkey) -> (r: Transaction)
    requires
        compilable(views(ixs@), *payer),
    ensures
        r@ == TransactionView::unsigned(compiled_message(views(ixs@), *payer)),
        has_accounts_of(r@.message, views(ixs@), *payer),
        holds_instructions(r@.message, views(ixs@)),
{
    let mut raw: Vec<RawInstruction> = Vec::new();
    let mut i: usize = 0;
    while i < ixs.len()
        invariant
            i <= ixs.len(),
            raw@.len() == i,
            forall|k: int| 0 <= k < i ==> raw_view(#[trigger] raw@[k]) == ixs@[k]@,
        decreases ixs.len() - i,
    {
        raw.push(raw_instruction(&ixs[i]));
        i = i + 1;
    }
    assert(raw@.map_values(|i: RawInstruction| raw_view(i)) =~= views(ixs@));
    Transaction::new_unsigned(new_with_payer(&raw, payer))
}

/// What the SDK makes of instructions: a message of the size that the instructions determine,
/// which can be written down whenever its lists are short enough, and which exactly the right
/// signers can sign.
pub proof fn lemma_compiled(
    message: MessageView,
    ixs: Seq<InstructionView>,
    payer: Pubkey,
    signers: Seq<KeypairView>,
)
    requires
        has_accounts_of(message, ixs, payer),
        holds_instructions(message, ixs),
    ensures
        message.account_keys.len() == account_set(ixs, payer).len(),
        message.signature_count() > 0,
        listable(ixs, payer) <==> encodable(message),
        forall|tx: TransactionView|
            tx.message.account_keys == message.account_keys && tx.message.instructions
                == message.instructions && tx.signatures.len() == message.signature_count()
                ==> #[trigger] wire_len(tx) == packed_len(ixs, payer),
        sign_error(message, signers) is None <==> signable(ixs, payer, signers),
{
    message.account_keys.unique_seq_to_set();
    lemma_compiled_len(message.instructions, ixs);
    let required = message.account_keys.take(message.signature_count() as int);
    assert(signer_set(ixs, payer) == required.to_set());
    assert(is_signer(ixs, payer, payer));
    assert(required.to_set().contains(payer));
    if listable(ixs, payer) {
        assert forall|i: int| 0 <= i < message.instructions.len() implies (
        #[trigger] message.instructions[i]).accounts.len() <= MAX_LIST_LEN
            && message.instructions[i].data.len() <= MAX_LIST_LEN by {
            assert(ixs[i].accounts.len() <= MAX_LIST_LEN);
        }
    }
    if encodable(message) {
        assert forall|i: int| 0 <= i < ixs.len() implies (#[trigger] ixs[i]).accounts.len()
            <= MAX_LIST_LEN && ixs[i].data.len() <= MAX_LIST_LEN by {
            assert(message.instructions[i].accounts.len() <= MAX_LIST_LEN);
        }
    }
    assert forall|p: int| 0 <= p < message.signature_count() implies !message.account_keys.take(
        p,
    ).contains(#[trigger] message.account_keys[p]) by {
        if message.account_keys.take(p).contains(message.account_keys[p]) {
            let q = choose|q: int|
                0 <= q < p && message.account_keys.take(p)[q] == message.account_keys[p];
            assert(message.account_keys[q] == message.account_keys[p]);
        }
    }
    if sign_error(message, signers) is None {
        assert forall|key: Pubkey| #[trigger] is_signer(ixs, payer, key) <==> has_signer(
            signers,
            key,
        ) by {
            if is_signer(ixs, payer, key) {
                assert(required.to_set().contains(key));
                let p = choose|p: int| 0 <= p < required.len() && required[p] == key;
                assert(message.account_keys[p] == key);
            }
            if has_signer(signers, key) {
                let i = choose|i: int|
                    0 <= i < signers.len() && (#[trigger] signers[i]).public == key;
                assert(required.contains(signers[i].public));
                assert(required.to_set().contains(key));
            }
        }
    }
    if signable(ixs, payer, signers) {
        assert forall|i: int| 0 <= i < signers.len() implies required.contains(
            (#[trigger] signers[i]).public,
        ) by {
            assert(has_signer(signers, signers[i].public));
            assert(is_signer(ixs, payer, signers[i].public));
            assert(required.to_set().contains(signers[i].public));
        }
        assert forall|p: int| 0 <= p < message.signature_count() implies has_signer(
            signers,
            #[trigger] message.account_keys[p],
        ) by {
            assert(required[p] == message.account_keys[p]);
            assert(required.to_set().contains(message.account_keys[p]));
            assert(is_signer(ixs, payer, message.account_keys[p]));
        }
    }
}

/// The signers can be asked to sign the message: it can be written down, or they are turned away
/// before it has to be.
pub open spec fn may_sign(message: MessageView, signers: Seq<KeypairView>) -> bool {
    encodable(message) || sign_error(message, signers) == Some(SignerError::InvalidAccountIndex)
        || sign_error(message, signers) == Some(SignerError::KeypairPubkeyMismatch)
}

/// Tells whether every list of a message is short enough for the wire format.
pub fn is_encodable(message: &Message) -> (r: bool)
    ensures
        r == encodable(message@),
{
    if message.account_keys.len() > MAX_LIST_LEN || message.instructions.len() > MAX_LIST_LEN {
        return false;
    }
    let mut i: usize = 0;
    while i < message.instructions.len()
        invariant
            i <= message.instructions.len(),
            forall|k: int|
                0 <= k < i ==> (#[trigger] message@.instructions[k]).accounts.len() <= MAX_LIST_LEN
                    && message@.instructions[k].data.len() <= MAX_LIST_LEN,
        decreases message.instructions.len() - i,
    {
        assert(message@.instructions[i as int] == message.instructions@[i as int]@);
        if message.instructions[i].accounts.len() > MAX_LIST_LEN
            || message.instructions[i].data.len() > MAX_LIST_LEN {
            return false;
        }
        i = i + 1;
    }
    true
}

/// Tells whether some signer has the key `key`.
pub fn signer_has(signers: &Vec<Keypair>, key: &Pubkey) -> (r: bool)
    ensures
        r == has_signer(views(signers@), *key),
{
    let mut i: usize = 0;
    while i < signers.len()
        invariant
            i <= signers.len(),
            forall|k: int| 0 <= k < i ==> (#[trigger] views(signers@)[k]).public != *key,
        decreases signers.len() - i,
    {
        assert(views(signers@)[i as int] == signers@[i as int]@);
        let public = signers[i].pubkey();
        if same_bytes(&public, key) {
            return true;
        }
        i = i + 1;
    }
    false
}

/// Tells whether `key` is one of the first `n` keys.
fn among(keys: &Vec<Pubkey>, n: usize, key: &Pubkey) -> (r: bool)
    requires
        n <= keys@.len(),
    ensures
        r == keys@.take(n as int).contains(*key),
{
    let mut i: usize = 0;
    while i < n
        invariant
            i <= n <= keys@.len(),
            forall|k: int| 0 <= k < i ==> (#[trigger] keys@[k]) != *key,
        decreases n - i,
    {
        if same_bytes(&keys[i], key) {
            assert(keys@.take(n as int)[i as int] == *key);
            return true;
        }
        i = i + 1;
    }
    assert forall|k: int| 0 <= k < n implies (#[trigger] keys@.take(n as int)[k]) != *key by {
        assert(keys@.take(n as int)[k] == keys@[k]);
    }
    false
}

/// Tells why the signers cannot sign a message, if they cannot.
pub fn signing_error(message: &Message, signers: &Vec<Keypair>) -> (r: Option<SignerError>)
    ensures
        r == sign_error(message@, views(signers@)),
{
    let count: usize = message.header.num_required_signatures as usize;
    if count > message.account_keys.len() {
        return Some(SignerError::InvalidAccountIndex);
    }
    let mut i: usize = 0;
    while i < signers.len()
        invariant
            i <= signers.len(),
            count == message@.signature_count(),
            count <= message@.account_keys.len(),
            forall|k: int|
                0 <= k < i ==> message@.account_keys.take(count as int).contains(
                    (#[trigger] views(signers@)[k]).public,
                ),
        decreases signers.len() - i,
    {
        assert(views(signers@)[i as int] == signers@[i as int]@);
        let public = signers[i].pubkey();
        if !among(&message.account_keys, count, &public) {
            assert(has_stranger(message@, views(signers@)));
            return Some(SignerError::KeypairPubkeyMismatch);
        }
        i = i + 1;
    }
    assert(!has_stranger(message@, views(signers@)));
    let mut p: usize = 0;
    while p < count
        invariant
            p <= count,
            count == message@.signature_count(),
            count <= message@.account_keys.len(),
            !has_stranger(message@, views(signers@)),
            forall|k: int|
                0 <= k < p ==> has_signer(views(signers@), #[trigger] message@.account_keys[k])
                    && !message@.account_keys.take(k).contains(message@.account_keys[k]),
        decreases count - p,
    {
        if !signer_has(signers, &message.account_keys[p]) || among(
            &message.account_keys,
            p,
            &message.account_keys[p],
        ) {
            assert(has_gap(message@, views(signers@)));
            return Some(SignerError::NotEnoughSigners);
        }
        p = p + 1;
    }
    assert(!has_gap(message@, views(signers@)));
    None
}

/// Signs a message for a block with all the signatures that it needs.
pub fn sign(message: &Message, signers: &Vec<Keypair>, blockhash: &Blockhash) -> (r: Result<
    Transaction,
    SignerError,
>)
    requires
        may_sign(message@, views(signers@)),
    ensures
        match r {
            Ok(tx) => sign_error(message@, views(signers@)) is None && tx@ == signed(
                message@,
                views(signers@),
                *blockhash,
            ),
            Err(e) => sign_error(message@, views(signers@)) == Some(e),
        },
{
    if !is_encodable(message) {
        if message.header.num_required_signatures as usize > message.account_keys.len() {
            return Err(SignerError::InvalidAccountIndex);
        }
        return Err(SignerError::KeypairPubkeyMismatch);
    }
    let unsigned = Transaction::new_unsigned(message.clone());
    let bytes = serialize(&unsigned);
    match try_sign(&unsigned, &bytes, signers, blockhash) {
        Ok(signatures) => {
            let mut message = unsigned.message;
            message.recent_blockhash = *blockhash;
            let tx = Transaction { signatures, message };
            assert(tx@.signatures =~= signed(
                unsigned@.message,
                views(signers@),
                *blockhash,
            ).signatures);
            Ok(tx)
        },
        Err(e) => Err(e),
    }
}

} // verus!
