//! Who has to sign, who signs, and what the settings come to in bytes.
use vstd::prelude::*;

use crate::error::SignerError;
use crate::keypair::KeypairView;
use crate::keys::{
    account_set, is_readonly, is_signer, passes_signer, passes_writable, readonly_set, signer_set,
};
use crate::model::{InstructionView, MessageView, Pubkey, TransactionView};
use crate::sdk::{
    has_gap, has_signer, has_stranger, last_signer, le_bytes, limit_instruction, price_instruction,
    sign_error,
};
use crate::signing::buildable;
use crate::submission_model::submittable;
use crate::wire::{compiled_len, instructions_len, packed_len, wire_len};

verus! {

/// The key is one of those that must sign the message.
pub open spec fn must_sign(message: MessageView, key: Pubkey) -> bool {
    exists|p: int|
        0 <= p < message.header.num_required_signatures && p < message.account_keys.len()
            && #[trigger] message.account_keys[p] == key
}

/// The key at the position gets its signature: some signer has it, and it stands at no earlier
/// position.
pub open spec fn is_served(message: MessageView, signers: Seq<KeypairView>, p: int) -> bool {
    &&& exists|i: int|
        0 <= i < signers.len() && (#[trigger] signers[i]).public == message.account_keys[p]
    &&& forall|q: int| 0 <= q < p ==> #[trigger] message.account_keys[q] != message.account_keys[p]
}

/// A message can be signed exactly if it has a key for each signature, every signer must sign it
/// and every key that must sign gets its signature; otherwise the first of these that fails is
/// told.
pub proof fn law_who_can_sign(message: MessageView, signers: Seq<KeypairView>)
    ensures
        sign_error(message, signers) == Some(SignerError::InvalidAccountIndex)
            <==> message.header.num_required_signatures > message.account_keys.len(),
        sign_error(message, signers) == Some(SignerError::KeypairPubkeyMismatch) <==> {
            &&& message.header.num_required_signatures <= message.account_keys.len()
            &&& exists|i: int|
                0 <= i < signers.len() && !must_sign(message, (#[trigger] signers[i]).public)
        },
        sign_error(message, signers) is None <==> {
            &&& message.header.num_required_signatures <= message.account_keys.len()
            &&& forall|i: int|
                0 <= i < signers.len() ==> must_sign(message, (#[trigger] signers[i]).public)
            &&& forall|p: int|
                0 <= p < message.header.num_required_signatures ==> #[trigger] is_served(
                    message,
                    signers,
                    p,
                )
        },
{
    let count = message.header.num_required_signatures as int;
    if count <= message.account_keys.len() {
        let first = message.account_keys.take(count);
        assert forall|key: Pubkey| must_sign(message, key) <==> #[trigger] first.contains(key) by {
            if must_sign(message, key) {
                let p = choose|p: int|
                    0 <= p < count && p < message.account_keys.len()
                        && #[trigger] message.account_keys[p] == key;
                assert(first[p] == key);
            }
            if first.contains(key) {
                let p = choose|p: int| 0 <= p < first.len() && first[p] == key;
                assert(message.account_keys[p] == key);
            }
        }
        if !has_stranger(message, signers) {
            assert forall|i: int| 0 <= i < signers.len() implies must_sign(
                message,
                (#[trigger] signers[i]).public,
            ) by {
                assert(first.contains(signers[i].public));
            }
        } else {
            let i = choose|i: int|
                0 <= i < signers.len() && !first.contains((#[trigger] signers[i]).public);
            assert(!must_sign(message, signers[i].public));
        }
        assert forall|p: int| 0 <= p < count implies (#[trigger] is_served(message, signers, p)
            <==> has_signer(signers, message.account_keys[p]) && !message.account_keys.take(
            p,
        ).contains(message.account_keys[p])) by {
            let before = message.account_keys.take(p);
            if is_served(message, signers, p) && before.contains(message.account_keys[p]) {
                let q = choose|q: int| 0 <= q < before.len() && before[q]
                    == message.account_keys[p];
                assert(message.account_keys[q] == message.account_keys[p]);
            }
            if !before.contains(message.account_keys[p]) {
                assert forall|q: int| 0 <= q < p implies #[trigger] message.account_keys[q]
                    != message.account_keys[p] by {
                    assert(before[q] == message.account_keys[q]);
                }
            }
        }
        if has_gap(message, signers) {
            let p = choose|p: int|
                0 <= p < count && (!has_signer(signers, #[trigger] message.account_keys[p])
                    || message.account_keys.take(p).contains(message.account_keys[p]));
            assert(!is_served(message, signers, p));
        } else {
            assert forall|p: int| 0 <= p < count implies #[trigger] is_served(
                message,
                signers,
                p,
            ) by {
                assert(has_signer(signers, message.account_keys[p]));
            }
        }
    }
}

/// Where several signers have a key, the last of them signs for it.
pub proof fn law_last_signer_signs(signers: Seq<KeypairView>, key: Pubkey)
    requires
        exists|i: int| 0 <= i < signers.len() && (#[trigger] signers[i]).public == key,
    ensures
        last_signer(signers, key).public == key,
        exists|i: int|
            0 <= i < signers.len() && #[trigger] signers[i] == last_signer(signers, key) && forall|
                j: int,
            |
                i < j < signers.len() ==> (#[trigger] signers[j]).public != key,
    decreases signers.len(),
{
    let n = signers.len() - 1;
    let i = choose|i: int| 0 <= i < signers.len() && (#[trigger] signers[i]).public == key;
    if signers.len() <= 1 || signers.last().public == key {
        assert(signers[n] == last_signer(signers, key));
    } else {
        let less = signers.drop_last();
        assert(less[i].public == key);
        law_last_signer_signs(less, key);
        let q = choose|q: int|
            0 <= q < less.len() && #[trigger] less[q] == last_signer(less, key) && forall|j: int|
                q < j < less.len() ==> (#[trigger] less[j]).public != key;
        assert(signers[q] == last_signer(signers, key));
        assert forall|j: int| q < j < signers.len() implies (#[trigger] signers[j]).public
            != key by {
            if j < n {
                assert(less[j].public != key);
            }
        }
    }
}

/// The number that bytes stand for, the lowest first.
pub open spec fn number_of(bytes: Seq<u8>) -> nat
    decreases bytes.len(),
{
    if bytes.len() == 0 {
        0
    } else {
        bytes[0] as nat + 256 * number_of(bytes.skip(1))
    }
}

/// 256 to a power.
spec fn bytes_hold(count: nat) -> nat
    decreases count,
{
    if count == 0 {
        1
    } else {
        256 * bytes_hold((count - 1) as nat)
    }
}

proof fn lemma_le_bytes(n: nat, count: nat)
    requires
        n < bytes_hold(count),
    ensures
        le_bytes(n, count).len() == count,
        number_of(le_bytes(n, count)) == n,
    decreases count,
{
    if count > 0 {
        let less = (count - 1) as nat;
        lemma_le_bytes(n / 256, less);
        assert(le_bytes(n, count).skip(1) =~= le_bytes(n / 256, less));
    }
}

/// The instruction for the compute limit has no accounts; its data is the tag 2 and four bytes that
/// read as the limit. That for the price has the tag 3 and eight bytes that read as the price.
pub proof fn law_settings_in_bytes(units: u32, micro_lamports: u64)
    ensures
        limit_instruction(units).accounts.len() == 0,
        limit_instruction(units).data.len() == 5,
        limit_instruction(units).data[0] == 2,
        number_of(limit_instruction(units).data.skip(1)) == units,
        price_instruction(micro_lamports).accounts.len() == 0,
        price_instruction(micro_lamports).data.len() == 9,
        price_instruction(micro_lamports).data[0] == 3,
        number_of(price_instruction(micro_lamports).data.skip(1)) == micro_lamports,
{
    reveal_with_fuel(bytes_hold, 9);
    assert(bytes_hold(4) == 0x1_0000_0000);
    assert(bytes_hold(8) == 0x1_0000_0000_0000_0000);
    lemma_le_bytes(units as nat, 4);
    lemma_le_bytes(micro_lamports as nat, 8);
    assert(limit_instruction(units).data.skip(1) =~= le_bytes(units as nat, 4));
    assert(price_instruction(micro_lamports).data.skip(1) =~= le_bytes(micro_lamports as nat, 8));
}

/// A group of instructions refers to its payer, its programs and the accounts that it passes; of
/// these the payer signs, and those that are passed as signers.
pub proof fn law_accounts_of_group(ixs: Seq<InstructionView>, payer: Pubkey, key: Pubkey)
    ensures
        account_set(ixs, payer).contains(key) <==> key == payer || exists|i: int|
            0 <= i < ixs.len() && ((#[trigger] ixs[i]).program_id == key || exists|j: int|
                0 <= j < ixs[i].accounts.len() && (#[trigger] ixs[i].accounts[j]).pubkey == key),
        signer_set(ixs, payer).contains(key) <==> key == payer || exists|i: int, j: int|
            0 <= i < ixs.len() && 0 <= j < ixs[i].accounts.len() && (
            #[trigger] ixs[i].accounts[j]).pubkey == key && ixs[i].accounts[j].is_signer,
{
}

/// The bytes in front of a list that give its length: one below 128, two below 16,384, else three.
pub open spec fn length_bytes(n: nat) -> nat {
    if n < 128 {
        1
    } else if n < 16_384 {
        2
    } else {
        3
    }
}

/// A transaction takes 64 bytes for each signature, 32 for each key and for the blockhash, three
/// for the header, and for each instruction one byte, one for each account and its data, with the
/// length in front of each list.
pub proof fn law_wire_size(tx: TransactionView)
    ensures
        wire_len(tx) == length_bytes(tx.signatures.len()) + 64 * tx.signatures.len() + 3
            + length_bytes(tx.message.account_keys.len()) + 32 * tx.message.account_keys.len() + 32
            + length_bytes(tx.message.instructions.len()) + compiled_len(tx.message.instructions),
        tx.message.instructions.len() == 0 ==> compiled_len(tx.message.instructions) == 0,
        tx.message.instructions.len() > 0 ==> compiled_len(tx.message.instructions)
            == compiled_len(tx.message.instructions.drop_last()) + 1 + length_bytes(
            tx.message.instructions.last().accounts.len(),
        ) + tx.message.instructions.last().accounts.len() + length_bytes(
            tx.message.instructions.last().data.len(),
        ) + tx.message.instructions.last().data.len(),
{
}

/// A group of instructions takes as many bytes as its transaction: one signature for each account
/// that signs, one key for each account, and its instructions.
pub proof fn law_packed_size(ixs: Seq<InstructionView>, payer: Pubkey)
    ensures
        packed_len(ixs, payer) == length_bytes(signer_set(ixs, payer).len()) + 64 * signer_set(
            ixs,
            payer,
        ).len() + 3 + length_bytes(account_set(ixs, payer).len()) + 32 * account_set(
            ixs,
            payer,
        ).len() + 32 + length_bytes(ixs.len()) + instructions_len(ixs),
        ixs.len() == 0 ==> instructions_len(ixs) == 0,
        ixs.len() > 0 ==> instructions_len(ixs) == instructions_len(ixs.drop_last()) + 1
            + length_bytes(ixs.last().accounts.len()) + ixs.last().accounts.len() + length_bytes(
            ixs.last().data.len(),
        ) + ixs.last().data.len(),
{
}

/// The accounts that a group only reads are those that it refers to, other than the payer, and
/// never passes as a signer or as writable.
pub proof fn law_accounts_only_read(ixs: Seq<InstructionView>, payer: Pubkey, key: Pubkey)
    ensures
        readonly_set(ixs, payer).contains(key) <==> {
            &&& account_set(ixs, payer).contains(key)
            &&& key != payer
            &&& forall|i: int, j: int|
                0 <= i < ixs.len() && 0 <= j < ixs[i].accounts.len() && (
                #[trigger] ixs[i].accounts[j]).pubkey == key ==> !ixs[i].accounts[j].is_signer
                    && !ixs[i].accounts[j].is_writable
        },
{
    if key != payer {
        assert forall|i: int, j: int|
            is_readonly(ixs, payer, key) && 0 <= i < ixs.len() && 0 <= j < ixs[i].accounts.len()
                && (#[trigger] ixs[i].accounts[j]).pubkey == key implies
            !ixs[i].accounts[j].is_signer && !ixs[i].accounts[j].is_writable by {
            if ixs[i].accounts[j].is_signer {
                assert(passes_signer(ixs[i], key));
            }
            if ixs[i].accounts[j].is_writable {
                assert(passes_writable(ixs[i], key));
            }
        }
    }
}

/// The lists of the message are all short enough to be written down: at most 65,535 long.
pub open spec fn short_lists(message: MessageView) -> bool {
    &&& message.account_keys.len() <= 65_535
    &&& message.instructions.len() <= 65_535
    &&& forall|i: int|
        0 <= i < message.instructions.len() ==> (#[trigger] message.instructions[i]).accounts.len()
            <= 65_535 && message.instructions[i].data.len() <= 65_535
}

/// A message can be submitted if it can be signed, with at least one signature, and written down.
/// One that cannot be signed can be submitted too, and ends in that error; only where a signature
/// is missing has it to be written down first.
pub proof fn law_what_can_be_submitted(message: MessageView, signers: Seq<KeypairView>)
    ensures
        submittable(message, signers) <==> match sign_error(message, signers) {
            None => short_lists(message) && message.header.num_required_signatures > 0,
            Some(SignerError::NotEnoughSigners) => short_lists(message),
            Some(_) => true,
        },
{
}

/// A group can be built into a transaction if at most 255 accounts sign it, at most 255 are only
/// read, its lists are at most 65,535 long, and the signers are exactly those that must sign.
pub proof fn law_what_can_be_built(
    ixs: Seq<InstructionView>,
    payer: Pubkey,
    signers: Seq<KeypairView>,
)
    requires
        signer_set(ixs, payer).len() <= 255,
        readonly_set(ixs, payer).len() <= 255,
        account_set(ixs, payer).len() <= 65_535,
        ixs.len() <= 65_535,
        forall|i: int|
            0 <= i < ixs.len() ==> (#[trigger] ixs[i]).accounts.len() <= 65_535
                && ixs[i].data.len() <= 65_535,
        forall|key: Pubkey|
            #[trigger] signer_set(ixs, payer).contains(key) <==> exists|i: int|
                0 <= i < signers.len() && (#[trigger] signers[i]).public == key,
    ensures
        buildable(ixs, payer, signers),
{
    assert forall|key: Pubkey|
        #[trigger] is_signer(ixs, payer, key) <==> has_signer(signers, key) by {
        assert(signer_set(ixs, payer).contains(key) <==> is_signer(ixs, payer, key));
    }
}

} // verus!
