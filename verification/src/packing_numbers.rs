//! Packing by the numbers: bytes, accounts and settings.
use vstd::prelude::*;

use crate::keypair::KeypairView;
use crate::keys::account_set;
use crate::model::{Blockhash, InstructionView, MessageView, Pubkey, TransactionView};
use crate::packing::{
    Span, candidate, carries, fits, fitting, group_transactions, groups, packable, packed_runs,
    prelude_of, span_group,
};
use crate::packing_laws::{
    law_fewest_transactions, law_fitting_are_kept, law_groups_are_full, law_groups_are_runs,
    law_groups_fit, law_instructions_kept,
};
use crate::sdk::{compiled_message, holds_instructions, limit_instruction, price_instruction};
use crate::signing::buildable;
use crate::submission_rules::{law_signed, signed_as};
use crate::wire::{packed_len, wire_len};

verus! {

/// The instructions that the settings put in front: the compute limit unless it is 200,000, and
/// then the price unless it is 0, each with the value that is set.
pub open spec fn leading(compute_budget: u32, priority_fee: u64) -> Seq<InstructionView> {
    if compute_budget == 200_000 && priority_fee == 0 {
        Seq::empty()
    } else if priority_fee == 0 {
        seq![limit_instruction(compute_budget)]
    } else if compute_budget == 200_000 {
        seq![price_instruction(priority_fee)]
    } else {
        seq![limit_instruction(compute_budget), price_instruction(priority_fee)]
    }
}

/// The instructions take at most 1232 bytes and refer to at most 64 accounts.
pub open spec fn small_enough(ixs: Seq<InstructionView>, payer: Pubkey) -> bool {
    packed_len(ixs, payer) <= 1232 && account_set(ixs, payer).len() <= 64
}

/// The message's instruction at a position is this one.
pub open spec fn is_instruction(message: MessageView, k: int, ix: InstructionView) -> bool {
    &&& 0 <= k < message.instructions.len()
    &&& message.instructions[k].data == ix.data
    &&& message.instructions[k].program_id_index < message.account_keys.len()
    &&& message.account_keys[message.instructions[k].program_id_index as int] == ix.program_id
    &&& message.instructions[k].accounts.len() == ix.accounts.len()
    &&& forall|j: int|
        0 <= j < ix.accounts.len() ==> (#[trigger] message.instructions[k].accounts[j])
            < message.account_keys.len()
            && message.account_keys[message.instructions[k].accounts[j] as int]
            == ix.accounts[j].pubkey
}

/// The message starts with the compute limit, unless it is 200,000, and then with the price, unless
/// it is 0.
pub open spec fn starts_as_set(
    message: MessageView,
    compute_budget: u32,
    priority_fee: u64,
) -> bool {
    &&& compute_budget != 200_000 ==> is_instruction(message, 0, limit_instruction(compute_budget))
    &&& priority_fee != 0 ==> is_instruction(
        message,
        if compute_budget == 200_000 {
            0
        } else {
            1
        },
        price_instruction(priority_fee),
    )
}

/// Every transaction starts with the compute limit and the price that are set, and with nothing
/// else.
pub proof fn law_prelude_by_settings(compute_budget: u32, priority_fee: u64)
    ensures
        prelude_of(compute_budget, priority_fee) == leading(compute_budget, priority_fee),
{
    assert(prelude_of(compute_budget, priority_fee) =~= leading(compute_budget, priority_fee));
}

/// The transactions hold, behind what the settings put in front, exactly the instructions that with
/// it take at most 1232 bytes and refer to at most 64 accounts, each once and in their order.
pub proof fn law_kept_by_size(
    compute_budget: u32,
    priority_fee: u64,
    ixs: Seq<InstructionView>,
    payer: Pubkey,
)
    ensures
        groups(prelude_of(compute_budget, priority_fee), ixs, payer).map_values(
            |group: Seq<InstructionView>|
                group.skip(leading(compute_budget, priority_fee).len() as int),
        ).flatten() == ixs.filter(
            |ix: InstructionView|
                small_enough(leading(compute_budget, priority_fee).push(ix), payer),
        ),
{
    let prelude = prelude_of(compute_budget, priority_fee);
    law_prelude_by_settings(compute_budget, priority_fee);
    law_instructions_kept(prelude, ixs, payer);
    let pred = |ix: InstructionView| fits(prelude.push(ix), payer);
    let other = |ix: InstructionView|
        small_enough(leading(compute_budget, priority_fee).push(ix), payer);
    assert(pred =~= other);
    let one = |group: Seq<InstructionView>| group.skip(prelude.len() as int);
    let two = |group: Seq<InstructionView>|
        group.skip(leading(compute_budget, priority_fee).len() as int);
    assert(one =~= two);
}

/// Every transaction starts with what the settings put in front, takes at most 1232 bytes and
/// refers to at most 64 accounts; there is at least one.
pub proof fn law_groups_by_size(
    compute_budget: u32,
    priority_fee: u64,
    ixs: Seq<InstructionView>,
    payer: Pubkey,
)
    ensures
        groups(prelude_of(compute_budget, priority_fee), ixs, payer).len() > 0,
        forall|i: int|
            #![trigger groups(prelude_of(compute_budget, priority_fee), ixs, payer)[i]]
            0 <= i < groups(prelude_of(compute_budget, priority_fee), ixs, payer).len() ==> {
                let group = groups(prelude_of(compute_budget, priority_fee), ixs, payer)[i];
                let front = leading(compute_budget, priority_fee);
                &&& front.is_prefix_of(group)
                &&& small_enough(group, payer)
            },
{
    let prelude = prelude_of(compute_budget, priority_fee);
    let all = groups(prelude, ixs, payer);
    law_prelude_by_settings(compute_budget, priority_fee);
    law_groups_are_runs(prelude, ixs, payer);
    law_groups_fit(compute_budget, priority_fee, ixs, payer);
    assert forall|i: int| #![trigger all[i]] 0 <= i < all.len() implies prelude.is_prefix_of(
        all[i],
    ) && small_enough(all[i], payer) by {
        assert(fits(all[i], payer));
        if fitting(prelude, ixs, payer).len() > 0 {
            let run = packed_runs(prelude, ixs, payer)[i];
            assert(all[i] == span_group(prelude, fitting(prelude, ixs, payer), run));
        }
    }
}

/// A transaction is followed by another only if, together with the first instruction of that one,
/// it would take more than 1232 bytes or refer to more than 64 accounts.
pub proof fn law_full_by_size(
    compute_budget: u32,
    priority_fee: u64,
    ixs: Seq<InstructionView>,
    payer: Pubkey,
    i: int,
)
    requires
        0 <= i < groups(prelude_of(compute_budget, priority_fee), ixs, payer).len() - 1,
    ensures
        ({
            let all = groups(prelude_of(compute_budget, priority_fee), ixs, payer);
            let front = leading(compute_budget, priority_fee).len() as int;
            let more = all[i].push(all[i + 1][front]);
            &&& all[i + 1].len() > front
            &&& packed_len(more, payer) > 1232 || account_set(more, payer).len() > 64
        }),
{
    let prelude = prelude_of(compute_budget, priority_fee);
    law_prelude_by_settings(compute_budget, priority_fee);
    law_groups_are_full(prelude, ixs, payer, i);
}

/// An instruction that takes more than 1232 bytes, or refers to more than 64 accounts, with what
/// the settings put in front is left out; any other is kept.
pub proof fn law_left_out_by_size(
    compute_budget: u32,
    priority_fee: u64,
    ixs: Seq<InstructionView>,
    payer: Pubkey,
    k: int,
)
    requires
        0 <= k < ixs.len(),
    ensures
        fitting(prelude_of(compute_budget, priority_fee), ixs, payer).contains(ixs[k]) <==> {
            let more = leading(compute_budget, priority_fee).push(ixs[k]);
            packed_len(more, payer) <= 1232 && account_set(more, payer).len() <= 64
        },
{
    let prelude = prelude_of(compute_budget, priority_fee);
    law_prelude_by_settings(compute_budget, priority_fee);
    law_fitting_are_kept(prelude, ixs, payer);
    let kept = fitting(prelude, ixs, payer);
    if kept.contains(ixs[k]) {
        let q = choose|q: int| 0 <= q < kept.len() && kept[q] == ixs[k];
        assert(fits(prelude.push(kept[q]), payer));
    }
}

/// There are as few transactions as there can be: no cut of the kept instructions into runs that,
/// with what the settings put in front, each take at most 1232 bytes and refer to at most 64
/// accounts has fewer.
pub proof fn law_fewest_by_size(
    compute_budget: u32,
    priority_fee: u64,
    ixs: Seq<InstructionView>,
    payer: Pubkey,
    others: Seq<Span>,
)
    requires
        fitting(prelude_of(compute_budget, priority_fee), ixs, payer).len() > 0,
        others.len() > 0,
        others[0].0 == 0,
        others[others.len() - 1].1 == fitting(
            prelude_of(compute_budget, priority_fee),
            ixs,
            payer,
        ).len(),
        forall|i: int, j: int|
            0 <= i && j == i + 1 && j < others.len() ==> (#[trigger] others[i]).1 == (
            #[trigger] others[j]).0,
        forall|k: int|
            #![trigger others[k]]
            0 <= k < others.len() ==> {
                let kept = fitting(prelude_of(compute_budget, priority_fee), ixs, payer);
                &&& 0 <= others[k].0 <= others[k].1 <= kept.len()
                &&& small_enough(
                    leading(compute_budget, priority_fee) + kept.subrange(
                        others[k].0,
                        others[k].1,
                    ),
                    payer,
                )
            },
    ensures
        groups(prelude_of(compute_budget, priority_fee), ixs, payer).len() <= others.len(),
{
    let prelude = prelude_of(compute_budget, priority_fee);
    let kept = fitting(prelude, ixs, payer);
    law_prelude_by_settings(compute_budget, priority_fee);
    assert forall|k: int| 0 <= k < others.len() implies 0 <= (#[trigger] others[k]).0
        <= others[k].1 <= kept.len() && fits(span_group(prelude, kept, others[k]), payer) by {
        assert(span_group(prelude, kept, others[k]) == leading(compute_budget, priority_fee)
            + kept.subrange(others[k].0, others[k].1));
    }
    law_fewest_transactions(prelude, ixs, payer, others);
}

/// Each group has its transaction: the message that the group compiles to, signed for the block,
/// or, for what the settings put in front alone, not signed at all.
pub proof fn law_transactions_of_groups(
    all: Seq<Seq<InstructionView>>,
    prelude: Seq<InstructionView>,
    payer: Pubkey,
    signers: Seq<KeypairView>,
    blockhash: Blockhash,
)
    ensures
        group_transactions(all, prelude, payer, signers, blockhash).len() == all.len(),
        forall|i: int|
            #![trigger group_transactions(all, prelude, payer, signers, blockhash)[i]]
            0 <= i < all.len() ==> {
                let tx = group_transactions(all, prelude, payer, signers, blockhash)[i];
                let message = compiled_message(all[i], payer);
                if all[i] == prelude {
                    is_unsigned(tx) && tx.message == message
                } else {
                    signed_as(tx, message, signers, blockhash)
                }
            },
{
    let txs = group_transactions(all, prelude, payer, signers, blockhash);
    assert forall|i: int| #![trigger txs[i]] 0 <= i < all.len() implies ({
        let message = compiled_message(all[i], payer);
        if all[i] == prelude {
            is_unsigned(txs[i]) && txs[i].message == message
        } else {
            signed_as(txs[i], message, signers, blockhash)
        }
    }) by {
        law_signed(compiled_message(all[i], payer), signers, blockhash);
        if all[i] == prelude {
            law_unsigned(compiled_message(all[i], payer));
        }
    }
}

/// The transaction has as many signatures as its message asks for, all of zeros.
pub open spec fn is_unsigned(tx: TransactionView) -> bool {
    &&& tx.signatures.len() == tx.message.header.num_required_signatures
    &&& forall|p: int, q: int|
        0 <= p < tx.signatures.len() && 0 <= q < 64 ==> #[trigger] tx.signatures[p]@[q] == 0
}

/// An unsigned transaction holds its message, and a signature of zeros for each that is needed.
pub proof fn law_unsigned(message: MessageView)
    ensures
        TransactionView::unsigned(message).message == message,
        is_unsigned(TransactionView::unsigned(message)),
{
    broadcast use vstd::array::group_array_axioms;

}

/// The transaction is that of the group: the group starts with `front`, takes at most 1232 bytes
/// and refers to at most 64 accounts, and so does the transaction, which holds the group's
/// instructions and no other, is paid for by `payer`, and is signed for the block unless `front` is
/// all there is.
pub open spec fn packs_group(
    tx: TransactionView,
    group: Seq<InstructionView>,
    front: Seq<InstructionView>,
    payer: Pubkey,
    signers: Seq<KeypairView>,
    blockhash: Blockhash,
) -> bool {
    &&& front.is_prefix_of(group)
    &&& small_enough(group, payer)
    &&& wire_len(tx) <= 1232
    &&& tx.message.account_keys.len() <= 64
    &&& tx.message.account_keys.len() > 0
    &&& tx.message.account_keys[0] == payer
    &&& holds_instructions(tx.message, group)
    &&& if group.len() == front.len() {
        is_unsigned(tx) && tx.message == compiled_message(group, payer)
    } else {
        signed_as(tx, compiled_message(group, payer), signers, blockhash)
    }
}

/// The first instruction that stands behind `front` in `next` does not go into `group` any more: it
/// would take more than 1232 bytes or refer to more than 64 accounts.
pub open spec fn too_much(
    group: Seq<InstructionView>,
    next: Seq<InstructionView>,
    front: Seq<InstructionView>,
    payer: Pubkey,
) -> bool {
    &&& next.len() > front.len()
    &&& packed_len(group.push(next[front.len() as int]), payer) > 1232 || account_set(
        group.push(next[front.len() as int]),
        payer,
    ).len() > 64
}

/// The transactions are those of the groups, of which there is at least one. Behind `front` the
/// groups hold, in their order, the instructions that are small enough to stand behind it alone,
/// and each takes in as many as it can.
pub open spec fn packs(
    transactions: Seq<TransactionView>,
    all: Seq<Seq<InstructionView>>,
    front: Seq<InstructionView>,
    ixs: Seq<InstructionView>,
    payer: Pubkey,
    signers: Seq<KeypairView>,
    blockhash: Blockhash,
) -> bool {
    &&& transactions.len() == all.len()
    &&& all.len() > 0
    &&& all.map_values(|group: Seq<InstructionView>| group.skip(front.len() as int)).flatten()
        == ixs.filter(|ix: InstructionView| small_enough(front.push(ix), payer))
    &&& forall|i: int|
        0 <= i < all.len() ==> packs_group(
            transactions[i],
            #[trigger] all[i],
            front,
            payer,
            signers,
            blockhash,
        )
    &&& forall|i: int, j: int|
        0 <= i && j == i + 1 && j < all.len() ==> too_much(
            #[trigger] all[i],
            #[trigger] all[j],
            front,
            payer,
        )
}

/// The transactions of the groups are packed as the limits and the settings ask.
pub(crate) proof fn lemma_packs(
    transactions: Seq<TransactionView>,
    compute_budget: u32,
    priority_fee: u64,
    ixs: Seq<InstructionView>,
    payer: Pubkey,
    signers: Seq<KeypairView>,
    blockhash: Blockhash,
)
    requires
        transactions == group_transactions(
            groups(prelude_of(compute_budget, priority_fee), ixs, payer),
            prelude_of(compute_budget, priority_fee),
            payer,
            signers,
            blockhash,
        ),
        forall|i: int|
            #![trigger transactions[i]]
            0 <= i < transactions.len() ==> carries(
                transactions[i],
                groups(prelude_of(compute_budget, priority_fee), ixs, payer)[i],
                payer,
            ),
    ensures
        packs(
            transactions,
            groups(prelude_of(compute_budget, priority_fee), ixs, payer),
            leading(compute_budget, priority_fee),
            ixs,
            payer,
            signers,
            blockhash,
        ),
{
    let front = leading(compute_budget, priority_fee);
    let prelude = prelude_of(compute_budget, priority_fee);
    let all = groups(prelude, ixs, payer);
    law_prelude_by_settings(compute_budget, priority_fee);
    law_groups_by_size(compute_budget, priority_fee, ixs, payer);
    law_transactions_of_groups(all, prelude, payer, signers, blockhash);
    assert(all.map_values(|group: Seq<InstructionView>| group.skip(front.len() as int)).flatten()
        == ixs.filter(|ix: InstructionView| small_enough(front.push(ix), payer))) by {
        law_kept_by_size(compute_budget, priority_fee, ixs, payer);
        assert((|group: Seq<InstructionView>| group.skip(front.len() as int)) =~= (|
            group: Seq<InstructionView>,
        | group.skip(leading(compute_budget, priority_fee).len() as int)));
        assert((|ix: InstructionView| small_enough(front.push(ix), payer)) =~= (|
            ix: InstructionView,
        | small_enough(leading(compute_budget, priority_fee).push(ix), payer)));
    }
    assert forall|i: int| 0 <= i < all.len() implies packs_group(
        transactions[i],
        #[trigger] all[i],
        front,
        payer,
        signers,
        blockhash,
    ) by {
        assert(carries(transactions[i], all[i], payer));
        assert(front.is_prefix_of(all[i]));
        if all[i].len() == front.len() {
            assert(all[i] =~= prelude);
        }
    }
    assert forall|i: int, j: int| 0 <= i && j == i + 1 && j < all.len() implies too_much(
        #[trigger] all[i],
        #[trigger] all[j],
        front,
        payer,
    ) by {
        law_full_by_size(compute_budget, priority_fee, ixs, payer, i);
    }
}

/// Every transaction that is packed starts with the compute limit and the price that are set.
pub proof fn law_settings_come_first(
    tx: TransactionView,
    group: Seq<InstructionView>,
    compute_budget: u32,
    priority_fee: u64,
    payer: Pubkey,
    signers: Seq<KeypairView>,
    blockhash: Blockhash,
)
    requires
        packs_group(
            tx,
            group,
            leading(compute_budget, priority_fee),
            payer,
            signers,
            blockhash,
        ),
    ensures
        starts_as_set(tx.message, compute_budget, priority_fee),
{
    let front = leading(compute_budget, priority_fee);
    assert forall|k: int| 0 <= k < front.len() implies is_instruction(
        tx.message,
        k,
        #[trigger] front[k],
    ) by {
        assert(group[k] == front[k]);
        let compiled = tx.message.instructions[k];
        assert(compiled.data == group[k].data);
    }
    if compute_budget != 200_000 {
        assert(front[0] == limit_instruction(compute_budget));
    }
    if priority_fee != 0 {
        let k: int = if compute_budget == 200_000 {
            0
        } else {
            1
        };
        assert(front[k] == price_instruction(priority_fee));
    }
}

/// The group is made of what the settings put in front and, behind it, of at least one of the
/// instructions.
pub open spec fn made_of(
    group: Seq<InstructionView>,
    prelude: Seq<InstructionView>,
    ixs: Seq<InstructionView>,
) -> bool {
    &&& prelude.is_prefix_of(group)
    &&& group.len() > prelude.len()
    &&& forall|j: int| prelude.len() <= j < group.len() ==> ixs.contains(#[trigger] group[j])
}

/// Every group that is tried or becomes a transaction is made of the instructions, so they can be
/// packed whenever every such group can be compiled, written down and signed.
pub proof fn law_packable_if_buildable(
    prelude: Seq<InstructionView>,
    ixs: Seq<InstructionView>,
    payer: Pubkey,
    signers: Seq<KeypairView>,
)
    requires
        forall|group: Seq<InstructionView>| #[trigger]
            made_of(group, prelude, ixs) ==> buildable(group, payer, signers),
    ensures
        packable(prelude, ixs, payer, signers),
{
    assert forall|k: int| 0 <= k < ixs.len() implies buildable(
        #[trigger] candidate(prelude, ixs, payer, k),
        payer,
        signers,
    ) by {
        let first = ixs.take(k);
        lemma_groups_made(prelude, first, payer);
        let all = groups(prelude, first, payer);
        let last = all[all.len() - 1];
        let group = candidate(prelude, ixs, payer, k);
        assert(group == last.push(ixs[k]));
        assert forall|j: int| prelude.len() <= j < group.len() implies ixs.contains(
            #[trigger] group[j],
        ) by {
            if j < last.len() {
                assert(first.contains(last[j]));
                let q = choose|q: int| 0 <= q < first.len() && first[q] == last[j];
                assert(ixs[q] == group[j]);
            } else {
                assert(ixs[k] == group[j]);
            }
        }
        assert(prelude.is_prefix_of(group));
        assert(made_of(group, prelude, ixs));
    }
    lemma_groups_made(prelude, ixs, payer);
    let all = groups(prelude, ixs, payer);
    assert forall|i: int| 0 <= i < all.len() && all[i] != prelude implies buildable(
        #[trigger] all[i],
        payer,
        signers,
    ) by {
        assert(prelude.is_prefix_of(all[i]));
        if all[i].len() == prelude.len() {
            assert(all[i] =~= prelude);
        }
        assert(made_of(all[i], prelude, ixs));
    }
}

/// The instructions can be packed exactly if each, behind the last transaction of those before it,
/// and each of the transactions that are signed in the end can be compiled, written down and
/// signed.
pub proof fn law_packable_step_by_step(
    prelude: Seq<InstructionView>,
    ixs: Seq<InstructionView>,
    payer: Pubkey,
    signers: Seq<KeypairView>,
)
    ensures
        packable(prelude, ixs, payer, signers) <==> {
            &&& forall|k: int|
                0 <= k < ixs.len() ==> buildable(
                    groups(prelude, #[trigger] ixs.take(k), payer).last().push(ixs[k]),
                    payer,
                    signers,
                )
            &&& forall|i: int|
                0 <= i < groups(prelude, ixs, payer).len() && groups(prelude, ixs, payer)[i]
                    != prelude ==> buildable(
                    #[trigger] groups(prelude, ixs, payer)[i],
                    payer,
                    signers,
                )
        },
{
    assert(forall|k: int|
        0 <= k < ixs.len() ==> #[trigger] candidate(prelude, ixs, payer, k) == groups(
            prelude,
            ixs.take(k),
            payer,
        ).last().push(ixs[k]));
    if packable(prelude, ixs, payer, signers) {
        assert forall|k: int| 0 <= k < ixs.len() implies buildable(
            groups(prelude, #[trigger] ixs.take(k), payer).last().push(ixs[k]),
            payer,
            signers,
        ) by {
            assert(buildable(candidate(prelude, ixs, payer, k), payer, signers));
        }
    }
}

proof fn lemma_groups_made(
    prelude: Seq<InstructionView>,
    ixs: Seq<InstructionView>,
    payer: Pubkey,
)
    ensures
        groups(prelude, ixs, payer).len() > 0,
        forall|i: int|
            #![trigger groups(prelude, ixs, payer)[i]]
            0 <= i < groups(prelude, ixs, payer).len() ==> prelude.is_prefix_of(
                groups(prelude, ixs, payer)[i],
            ) && forall|j: int|
                prelude.len() <= j < groups(prelude, ixs, payer)[i].len() ==> ixs.contains(
                    #[trigger] groups(prelude, ixs, payer)[i][j],
                ),
{
    let kept = fitting(prelude, ixs, payer);
    let all = groups(prelude, ixs, payer);
    law_groups_are_runs(prelude, ixs, payer);
    lemma_kept_are_from(prelude, ixs, payer);
    assert forall|i: int| #![trigger all[i]] 0 <= i < all.len() implies prelude.is_prefix_of(all[i])
        && forall|j: int|
        prelude.len() <= j < all[i].len() ==> ixs.contains(#[trigger] all[i][j]) by {
        if kept.len() > 0 {
            let run = packed_runs(prelude, ixs, payer)[i];
            assert(all[i] == span_group(prelude, kept, run));
            assert forall|j: int| prelude.len() <= j < all[i].len() implies ixs.contains(
                #[trigger] all[i][j],
            ) by {
                assert(all[i][j] == kept[run.0 + (j - prelude.len())]);
            }
        }
    }
}

proof fn lemma_kept_are_from(
    prelude: Seq<InstructionView>,
    ixs: Seq<InstructionView>,
    payer: Pubkey,
)
    ensures
        forall|q: int|
            0 <= q < fitting(prelude, ixs, payer).len() ==> ixs.contains(
                #[trigger] fitting(prelude, ixs, payer)[q],
            ),
    decreases ixs.len(),
{
    reveal(Seq::filter);
    let kept = fitting(prelude, ixs, payer);
    if ixs.len() > 0 {
        let less = ixs.drop_last();
        let before = fitting(prelude, less, payer);
        lemma_kept_are_from(prelude, less, payer);
        assert forall|q: int| 0 <= q < kept.len() implies ixs.contains(#[trigger] kept[q]) by {
            if q < before.len() {
                assert(kept[q] == before[q]);
                let o = choose|o: int| 0 <= o < less.len() && less[o] == before[q];
                assert(ixs[o] == kept[q]);
            } else {
                assert(ixs[ixs.len() - 1] == kept[q]);
            }
        }
    }
}

} // verus!
