//! The size of a transaction on the wire.
use vstd::prelude::*;

use crate::keys::{account_set, signer_set};
use crate::model::{CompiledInstructionView, InstructionView, MessageView, Pubkey, TransactionView};

verus! {

/// The longest list that the wire format can hold.
pub const MAX_LIST_LEN: usize = 65535;

/// How many bytes the wire format spends on the length of a list.
pub open spec fn prefix_len(n: nat) -> nat {
    if n < 0x80 {
        1
    } else if n < 0x4000 {
        2
    } else {
        3
    }
}

/// The size of a list of `n` bytes, its length prefix included.
pub open spec fn bytes_len(n: nat) -> nat {
    prefix_len(n) + n
}

/// The size of one instruction that passes `accounts` accounts and `data` bytes.
pub open spec fn instruction_len(accounts: nat, data: nat) -> nat {
    1 + bytes_len(accounts) + bytes_len(data)
}

/// The size of a list of compiled instructions, without its length prefix.
pub open spec fn compiled_len(ixs: Seq<CompiledInstructionView>) -> nat
    decreases ixs.len(),
{
    if ixs.len() == 0 {
        0
    } else {
        compiled_len(ixs.drop_last()) + instruction_len(
            ixs.last().accounts.len(),
            ixs.last().data.len(),
        )
    }
}

/// The size of a list of instructions once they are compiled, without its length prefix.
pub open spec fn instructions_len(ixs: Seq<InstructionView>) -> nat
    decreases ixs.len(),
{
    if ixs.len() == 0 {
        0
    } else {
        instructions_len(ixs.drop_last()) + instruction_len(
            ixs.last().accounts.len(),
            ixs.last().data.len(),
        )
    }
}

/// The size of a transaction with so many signatures, account keys and instructions, whose
/// instructions take `body` bytes.
pub open spec fn total_len(signatures: nat, keys: nat, instructions: nat, body: nat) -> nat {
    prefix_len(signatures) + 64 * signatures + 3 + prefix_len(keys) + 32 * keys + 32 + prefix_len(
        instructions,
    ) + body
}

/// The size of a transaction on the wire.
pub open spec fn wire_len(tx: TransactionView) -> nat {
    total_len(
        tx.signatures.len(),
        tx.message.account_keys.len(),
        tx.message.instructions.len(),
        compiled_len(tx.message.instructions),
    )
}

/// The size on the wire of a transaction of these instructions, paid by `payer`.
pub open spec fn packed_len(ixs: Seq<InstructionView>, payer: Pubkey) -> nat {
    total_len(
        signer_set(ixs, payer).len(),
        account_set(ixs, payer).len(),
        ixs.len(),
        instructions_len(ixs),
    )
}

/// Every list of the message is short enough for the wire format.
pub open spec fn encodable(message: MessageView) -> bool {
    &&& message.account_keys.len() <= MAX_LIST_LEN
    &&& message.instructions.len() <= MAX_LIST_LEN
    &&& forall|i: int|
        0 <= i < message.instructions.len() ==> (#[trigger] message.instructions[i]).accounts.len()
            <= MAX_LIST_LEN && message.instructions[i].data.len() <= MAX_LIST_LEN
}

/// Two lists of instructions with the same argument sizes have the same size on the wire.
pub proof fn lemma_compiled_len(compiled: Seq<CompiledInstructionView>, ixs: Seq<InstructionView>)
    requires
        compiled.len() == ixs.len(),
        forall|i: int|
            0 <= i < ixs.len() ==> (#[trigger] compiled[i]).accounts.len() == ixs[i].accounts.len()
                && compiled[i].data.len() == ixs[i].data.len(),
    ensures
        compiled_len(compiled) == instructions_len(ixs),
    decreases ixs.len(),
{
    if ixs.len() > 0 {
        assert forall|i: int| 0 <= i < ixs.drop_last().len() implies (
        #[trigger] compiled.drop_last()[i]).accounts.len() == ixs.drop_last()[i].accounts.len()
            && compiled.drop_last()[i].data.len() == ixs.drop_last()[i].data.len() by {
            assert(compiled.drop_last()[i] == compiled[i]);
        }
        lemma_compiled_len(compiled.drop_last(), ixs.drop_last());
    }
}

/// Lists of instructions, one after the other, take the space of both.
pub proof fn lemma_instructions_len_add(a: Seq<InstructionView>, b: Seq<InstructionView>)
    ensures
        instructions_len(a + b) == instructions_len(a) + instructions_len(b),
    decreases b.len(),
{
    if b.len() == 0 {
        assert(a + b =~= a);
    } else {
        assert((a + b).drop_last() =~= a + b.drop_last());
        lemma_instructions_len_add(a, b.drop_last());
    }
}

/// A list of instructions takes at least a byte for each, and the space of each.
pub proof fn lemma_instructions_len_least(ixs: Seq<InstructionView>)
    ensures
        instructions_len(ixs) >= ixs.len(),
        forall|i: int|
            0 <= i < ixs.len() ==> instructions_len(ixs) >= (#[trigger] ixs[i]).accounts.len()
                + ixs[i].data.len(),
    decreases ixs.len(),
{
    if ixs.len() > 0 {
        let shorter = ixs.drop_last();
        lemma_instructions_len_least(shorter);
        assert forall|i: int| 0 <= i < ixs.len() implies instructions_len(ixs) >= (
        #[trigger] ixs[i]).accounts.len() + ixs[i].data.len() by {
            if i < shorter.len() {
                assert(shorter[i] == ixs[i]);
            }
        }
    }
}

} // verus!
