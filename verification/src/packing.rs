//! Packing instructions into transactions that the network accepts.
use vstd::prelude::*;

use crate::keypair::{Keypair, KeypairView};
use crate::keys::{
    account_set, accounts_of, contains_key, is_signer, lemma_account_set_finite,
    lemma_signer_is_account, readonly_of, readonly_set, signer_set, signers_of,
};
use crate::model::{
    Blockhash, Instruction, InstructionView, Pubkey, Transaction, TransactionView, views,
};
use crate::packing_laws::{
    law_groups_fit, lemma_candidate, lemma_drops, lemma_joins, lemma_opens, lemma_pack_begins,
    lemma_pack_ends, lemma_packed_runs, lemma_prelude, pack_under_way,
};
use crate::packing_numbers::{leading, lemma_packs, packs};
use crate::sdk::{
    compilable, compiled_message, has_signer, holds_instructions, limit_instruction,
    price_instruction, serialize, set_compute_unit_limit, set_compute_unit_price,
};
use crate::signing::{
    buildable, compile, lemma_compiled, listable, sign, signable, signed, signer_has,
};
use crate::wire::{
    MAX_LIST_LEN, encodable, lemma_instructions_len_least, packed_len, wire_len,
};

verus! {

/// The largest transaction that the network accepts, in bytes.
pub const MAX_TX_LEN: usize = 1232;

/// The most accounts that a transaction may refer to.
pub const MAX_ACCOUNT_KEYS: usize = 64;

/// The compute units that a transaction may use if it sets no limit.
pub const DEFAULT_COMPUTE_BUDGET: u32 = 200_000;

/// A transaction of these instructions is within the limits of the network.
pub open spec fn fits(ixs: Seq<InstructionView>, payer: Pubkey) -> bool {
    packed_len(ixs, payer) <= MAX_TX_LEN && account_set(ixs, payer).len() <= MAX_ACCOUNT_KEYS
}

/// The instructions that every transaction starts with: the compute limit and the price, each
/// only if it is not the default.
pub open spec fn prelude_of(compute_budget: u32, priority_fee: u64) -> Seq<InstructionView> {
    (if compute_budget != DEFAULT_COMPUTE_BUDGET {
        seq![limit_instruction(compute_budget)]
    } else {
        Seq::empty()
    }) + (if priority_fee != 0 {
        seq![price_instruction(priority_fee)]
    } else {
        Seq::empty()
    })
}

/// A run of consecutive instructions: from the first number up to, and without, the second.
pub type Span = (int, int);

/// The group of a run: the prelude, and then the instructions of the run.
pub open spec fn span_group(
    prelude: Seq<InstructionView>,
    ixs: Seq<InstructionView>,
    span: Span,
) -> Seq<InstructionView> {
    prelude + ixs.subrange(span.0, span.1)
}

/// The runs follow one another without a gap, from position 0 up to `end`.
pub open spec fn consecutive(runs: Seq<Span>, end: int) -> bool {
    &&& runs.len() == 0 ==> end == 0
    &&& runs.len() > 0 ==> runs[0].0 == 0 && runs.last().1 == end
    &&& forall|i: int, j: int|
        0 <= i && j == i + 1 && j < runs.len() ==> (#[trigger] runs[i]).1 == (#[trigger] runs[j]).0
}

/// The instructions that fit into a transaction by themselves, in their order.
pub open spec fn fitting(
    prelude: Seq<InstructionView>,
    ixs: Seq<InstructionView>,
    payer: Pubkey,
) -> Seq<InstructionView> {
    ixs.filter(|ix: InstructionView| fits(prelude.push(ix), payer))
}

/// Every instruction fits into a transaction by itself.
pub open spec fn all_fit_alone(
    prelude: Seq<InstructionView>,
    ixs: Seq<InstructionView>,
    payer: Pubkey,
) -> bool {
    forall|k: int| 0 <= k < ixs.len() ==> fits(prelude.push(#[trigger] ixs[k]), payer)
}

/// The run is not empty, and as long as it can be: its group fits, but not together with the next
/// instruction.
pub open spec fn full_run(
    prelude: Seq<InstructionView>,
    ixs: Seq<InstructionView>,
    payer: Pubkey,
    run: Span,
) -> bool {
    &&& 0 <= run.0 < run.1 <= ixs.len()
    &&& fits(span_group(prelude, ixs, run), payer)
    &&& run.1 < ixs.len() ==> !fits(span_group(prelude, ixs, (run.0, run.1 + 1)), payer)
}

/// The runs are all the instructions, cut into full runs.
pub open spec fn full_runs(
    prelude: Seq<InstructionView>,
    ixs: Seq<InstructionView>,
    payer: Pubkey,
    runs: Seq<Span>,
) -> bool {
    &&& consecutive(runs, ixs.len() as int)
    &&& forall|i: int|
        0 <= i < runs.len() ==> full_run(prelude, ixs, payer, #[trigger] runs[i])
}

/// The instructions, cut into full runs. There is exactly one such cut if they all fit alone.
pub open spec fn cut(
    prelude: Seq<InstructionView>,
    ixs: Seq<InstructionView>,
    payer: Pubkey,
) -> Seq<Span> {
    choose|runs: Seq<Span>| full_runs(prelude, ixs, payer, runs)
}

/// The runs of fitting instructions that become transactions.
pub open spec fn packed_runs(
    prelude: Seq<InstructionView>,
    ixs: Seq<InstructionView>,
    payer: Pubkey,
) -> Seq<Span> {
    cut(prelude, fitting(prelude, ixs, payer), payer)
}

/// The groups that the instructions are packed into, one for each transaction: those of the full
/// runs of fitting instructions, or the prelude alone if no instruction fits.
pub open spec fn groups(
    prelude: Seq<InstructionView>,
    ixs: Seq<InstructionView>,
    payer: Pubkey,
) -> Seq<Seq<InstructionView>> {
    let kept = fitting(prelude, ixs, payer);
    if kept.len() == 0 {
        seq![prelude]
    } else {
        packed_runs(prelude, ixs, payer).map_values(|run: Span| span_group(prelude, kept, run))
    }
}

/// The group that is tried when instruction `k` is packed: the last group of those before, and the
/// instruction.
pub open spec fn candidate(
    prelude: Seq<InstructionView>,
    ixs: Seq<InstructionView>,
    payer: Pubkey,
    k: int,
) -> Seq<InstructionView> {
    groups(prelude, ixs.take(k), payer).last().push(ixs[k])
}

/// Every group that is tried, and every group that becomes a transaction with instructions, can be
/// compiled, written down and signed.
pub open spec fn packable(
    prelude: Seq<InstructionView>,
    ixs: Seq<InstructionView>,
    payer: Pubkey,
    signers: Seq<KeypairView>,
) -> bool {
    &&& forall|k: int|
        0 <= k < ixs.len() ==> buildable(
            #[trigger] candidate(prelude, ixs, payer, k),
            payer,
            signers,
        )
    &&& forall|i: int|
        0 <= i < groups(prelude, ixs, payer).len() && groups(prelude, ixs, payer)[i] != prelude
            ==> buildable(#[trigger] groups(prelude, ixs, payer)[i], payer, signers)
}

/// The transaction of a group: signed, unless it is the prelude alone.
pub open spec fn group_transaction(
    group: Seq<InstructionView>,
    prelude: Seq<InstructionView>,
    payer: Pubkey,
    signers: Seq<KeypairView>,
    blockhash: Blockhash,
) -> TransactionView {
    if group == prelude {
        TransactionView::unsigned(compiled_message(group, payer))
    } else {
        signed(compiled_message(group, payer), signers, blockhash)
    }
}

/// The transactions of a list of groups.
pub open spec fn group_transactions(
    groups: Seq<Seq<InstructionView>>,
    prelude: Seq<InstructionView>,
    payer: Pubkey,
    signers: Seq<KeypairView>,
    blockhash: Blockhash,
) -> Seq<TransactionView> {
    groups.map_values(
        |group: Seq<InstructionView>|
            group_transaction(group, prelude, payer, signers, blockhash),
    )
}

/// The transaction holds the instructions of the group and refers to their accounts, once each;
/// `payer` comes first, and so pays, and the accounts that sign stand before the others; it can be
/// written down, and it has as many signatures, and as many bytes on the wire, as the group
/// determines.
pub open spec fn carries(
    tx: TransactionView,
    group: Seq<InstructionView>,
    payer: Pubkey,
) -> bool {
    &&& holds_instructions(tx.message, group)
    &&& tx.message.account_keys.no_duplicates()
    &&& tx.message.account_keys.to_set() == account_set(group, payer)
    &&& tx.message.account_keys.len() == account_set(group, payer).len()
    &&& tx.message.account_keys.len() > 0
    &&& tx.message.account_keys[0] == payer
    &&& encodable(tx.message)
    &&& tx.signatures.len() == signer_set(group, payer).len()
    &&& tx.message.signature_count() == tx.signatures.len()
    &&& tx.signatures.len() > 0
    &&& tx.message.account_keys.take(tx.signatures.len() as int).to_set() == signer_set(
        group,
        payer,
    )
    &&& wire_len(tx) == packed_len(group, payer)
}

/// The transaction is within the limits of the network.
pub open spec fn within_limits(tx: TransactionView) -> bool {
    wire_len(tx) <= MAX_TX_LEN && tx.message.account_keys.len() <= MAX_ACCOUNT_KEYS
}

/// Makes the instructions that every transaction starts with.
pub fn prelude_instructions(compute_budget: u32, priority_fee: u64) -> (r: Vec<Instruction>)
    ensures
        views(r@) == prelude_of(compute_budget, priority_fee),
{
    let mut instructions: Vec<Instruction> = Vec::new();
    if compute_budget != DEFAULT_COMPUTE_BUDGET {
        instructions.push(set_compute_unit_limit(compute_budget));
    }
    if priority_fee != 0 {
        instructions.push(set_compute_unit_price(priority_fee));
    }
    assert(views(instructions@) =~= prelude_of(compute_budget, priority_fee));
    instructions
}

/// Tells whether the signers are exactly those that a transaction of these instructions needs.
fn can_sign(ixs: &Vec<Instruction>, payer: &Pubkey, signers: &Vec<Keypair>) -> (r: bool)
    ensures
        r == signable(views(ixs@), *payer, views(signers@)),
{
    let required = signers_of(ixs, payer);
    let mut i: usize = 0;
    while i < required.len()
        invariant
            i <= required.len(),
            required@.to_set() == signer_set(views(ixs@), *payer),
            forall|k: int| 0 <= k < i ==> has_signer(views(signers@), #[trigger] required@[k]),
        decreases required.len() - i,
    {
        assert(required@.to_set().contains(required@[i as int]));
        if !signer_has(signers, &required[i]) {
            assert(is_signer(views(ixs@), *payer, required@[i as int]));
            return false;
        }
        i = i + 1;
    }
    let mut j: usize = 0;
    while j < signers.len()
        invariant
            j <= signers.len(),
            required@.to_set() == signer_set(views(ixs@), *payer),
            forall|k: int|
                0 <= k < j ==> required@.contains((#[trigger] views(signers@)[k]).public),
        decreases signers.len() - j,
    {
        assert(views(signers@)[j as int] == signers@[j as int]@);
        let public = signers[j].pubkey();
        if !contains_key(&required, &public) {
            assert(has_signer(views(signers@), public));
            assert(!required@.to_set().contains(public));
            assert(!is_signer(views(ixs@), *payer, public));
            return false;
        }
        j = j + 1;
    }
    assert forall|key: Pubkey| #[trigger] is_signer(views(ixs@), *payer, key) <==> has_signer(
        views(signers@),
        key,
    ) by {
        if is_signer(views(ixs@), *payer, key) {
            assert(required@.to_set().contains(key));
            let k = choose|k: int| 0 <= k < required@.len() && required@[k] == key;
            assert(has_signer(views(signers@), required@[k]));
        }
        if has_signer(views(signers@), key) {
            let k = choose|k: int|
                0 <= k < signers@.len() && (#[trigger] views(signers@)[k]).public == key;
            assert(required@.contains(views(signers@)[k].public));
            assert(required@.to_set().contains(key));
        }
    }
    true
}

/// Tells whether a transaction of these instructions can be compiled and written down.
fn can_compile(ixs: &Vec<Instruction>, payer: &Pubkey) -> (r: bool)
    ensures
        r == (compilable(views(ixs@), *payer) && listable(views(ixs@), *payer)),
{
    let signers = signers_of(ixs, payer);
    let readonly = readonly_of(ixs, payer);
    let accounts = accounts_of(ixs, payer);
    proof {
        signers@.unique_seq_to_set();
        readonly@.unique_seq_to_set();
        accounts@.unique_seq_to_set();
    }
    if signers.len() > 255 || readonly.len() > 255 || accounts.len() > MAX_LIST_LEN || ixs.len()
        > MAX_LIST_LEN {
        return false;
    }
    let mut i: usize = 0;
    while i < ixs.len()
        invariant
            i <= ixs.len(),
            forall|k: int|
                0 <= k < i ==> (#[trigger] views(ixs@)[k]).accounts.len() <= MAX_LIST_LEN
                    && views(ixs@)[k].data.len() <= MAX_LIST_LEN,
        decreases ixs.len() - i,
    {
        assert(views(ixs@)[i as int] == ixs@[i as int]@);
        if ixs[i].accounts.len() > MAX_LIST_LEN || ixs[i].data.len() > MAX_LIST_LEN {
            return false;
        }
        i = i + 1;
    }
    true
}

/// Tells whether a transaction of these instructions can be compiled, written down and signed.
fn can_build(ixs: &Vec<Instruction>, payer: &Pubkey, signers: &Vec<Keypair>) -> (r: bool)
    ensures
        r == buildable(views(ixs@), *payer, views(signers@)),
{
    can_compile(ixs, payer) && can_sign(ixs, payer, signers)
}

/// A transaction that cannot be compiled or written down is over the limits of the network.
proof fn lemma_uncompiled_does_not_fit(ixs: Seq<InstructionView>, payer: Pubkey)
    requires
        !(compilable(ixs, payer) && listable(ixs, payer)),
    ensures
        !fits(ixs, payer),
{
    let accounts = account_set(ixs, payer);
    lemma_account_set_finite(ixs, payer);
    lemma_instructions_len_least(ixs);
    assert forall|key: Pubkey| signer_set(ixs, payer).contains(key) implies accounts.contains(
        key,
    ) by {
        lemma_signer_is_account(ixs, payer, key);
    }
    vstd::set_lib::lemma_len_subset(signer_set(ixs, payer), accounts);
    assert(readonly_set(ixs, payer).subset_of(accounts));
    vstd::set_lib::lemma_len_subset(readonly_set(ixs, payer), accounts);
}

/// Tells whether a transaction of these instructions is within the limits of the network.
fn does_fit(ixs: &Vec<Instruction>, payer: &Pubkey) -> (r: bool)
    ensures
        r == fits(views(ixs@), *payer),
{
    if !can_compile(ixs, payer) {
        proof {
            lemma_uncompiled_does_not_fit(views(ixs@), *payer);
        }
        return false;
    }
    let tx = compile(ixs, payer);
    proof {
        lemma_compiled(tx@.message, views(ixs@), *payer, Seq::empty());
    }
    let bytes = serialize(&tx);
    bytes.len() <= MAX_TX_LEN && tx.message.account_keys.len() <= MAX_ACCOUNT_KEYS
}

/// Makes the group of the prelude and one instruction.
fn lone_group(compute_budget: u32, priority_fee: u64, ix: &Instruction) -> (r: Vec<Instruction>)
    ensures
        views(r@) == prelude_of(compute_budget, priority_fee).push(ix@),
{
    let mut instructions = prelude_instructions(compute_budget, priority_fee);
    instructions.push(ix.clone());
    assert(views(instructions@) =~= prelude_of(compute_budget, priority_fee).push(ix@));
    instructions
}

/// Adds an instruction to a group.
fn join(group: &mut Vec<Instruction>, ix: &Instruction)
    ensures
        views(final(group)@) == views(old(group)@).push(ix@),
{
    group.push(ix.clone());
    assert(views(group@) =~= views(old(group)@).push(ix@));
}

/// Takes the last instruction from a group again.
fn leave(group: &mut Vec<Instruction>)
    requires
        old(group)@.len() > 0,
    ensures
        views(final(group)@) == views(old(group)@).drop_last(),
{
    let _ = group.pop();
    assert(views(group@) =~= views(old(group)@).drop_last());
}

/// Tells whether the instructions can be packed: every group that is tried on the way, and every
/// group that becomes a transaction with instructions, can be compiled, written down and signed.
pub fn can_pack(
    compute_budget: u32,
    priority_fee: u64,
    ixs: &Vec<Instruction>,
    payer: &Pubkey,
    signers: &Vec<Keypair>,
) -> (r: bool)
    ensures
        r == packable(
            prelude_of(compute_budget, priority_fee),
            views(ixs@),
            *payer,
            views(signers@),
        ),
{
    let ghost prelude = prelude_of(compute_budget, priority_fee);
    let ghost all = views(ixs@);
    let ghost kept = fitting(prelude, all, *payer);
    let ghost mut runs: Seq<Span> = Seq::empty();
    let ghost mut start: int = 0;
    let mut group = prelude_instructions(compute_budget, priority_fee);
    let mut n: usize = 0;
    let mut i: usize = 0;
    proof {
        lemma_pack_begins(prelude, all, *payer);
    }
    while i < ixs.len()
        invariant
            i <= ixs.len(),
            n <= i,
            prelude == prelude_of(compute_budget, priority_fee),
            all == views(ixs@),
            kept == fitting(prelude, all, *payer),
            pack_under_way(prelude, all, *payer, runs, start, n as int, i as int),
            views(group@) == span_group(prelude, kept, (start, n as int)),
            forall|k: int|
                0 <= k < i ==> buildable(
                    #[trigger] candidate(prelude, all, *payer, k),
                    *payer,
                    views(signers@),
                ),
            forall|k: int|
                0 <= k < runs.len() ==> buildable(
                    span_group(prelude, kept, #[trigger] runs[k]),
                    *payer,
                    views(signers@),
                ),
        decreases ixs.len() - i,
    {
        proof {
            lemma_candidate(prelude, all, *payer, runs, start, n as int, i as int);
        }
        let ghost open = views(group@);
        join(&mut group, &ixs[i]);
        assert(views(group@) == candidate(prelude, all, *payer, i as int));
        if !can_build(&group, payer, signers) {
            return false;
        }
        if does_fit(&group, payer) {
            proof {
                lemma_joins(prelude, all, *payer, runs, start, n as int, i as int);
            }
            n = n + 1;
        } else {
            let lone = lone_group(compute_budget, priority_fee, &ixs[i]);
            leave(&mut group);
            assert(views(group@) =~= open);
            if does_fit(&lone, payer) {
                proof {
                    lemma_opens(prelude, all, *payer, runs, start, n as int, i as int);
                }
                if !can_build(&group, payer, signers) {
                    proof {
                        let closed = runs.push((start, n as int));
                        lemma_packed_runs(prelude, all, *payer, closed, n as int, n + 1, i + 1);
                        assert(closed[runs.len() as int] == (start, n as int));
                        assert(groups(prelude, all, *payer)[runs.len() as int] == open);
                    }
                    return false;
                }
                proof {
                    runs = runs.push((start, n as int));
                    start = n as int;
                }
                group = lone;
                n = n + 1;
            } else {
                proof {
                    lemma_drops(prelude, all, *payer, runs, start, n as int, i as int);
                }
            }
        }
        i = i + 1;
    }
    proof {
        lemma_pack_ends(prelude, all, *payer, runs, start, n as int);
    }
    let last = n == 0 || can_build(&group, payer, signers);
    proof {
        let expected = groups(prelude, all, *payer);
        if n > 0 {
            let closed = runs.push((start, n as int));
            assert(expected[runs.len() as int] == views(group@));
            assert(expected[runs.len() as int].len() > prelude.len());
            if last {
                assert forall|k: int| 0 <= k < expected.len() implies buildable(
                    #[trigger] expected[k],
                    *payer,
                    views(signers@),
                ) by {
                    if k < runs.len() {
                        assert(closed[k] == runs[k]);
                    }
                }
            }
        }
    }
    last
}

/// Packs instructions into transactions. Each starts with the compute limit and the price, if
/// they are set, and is paid by `payer`.
pub fn pack_instructions(
    compute_budget: u32,
    priority_fee: u64,
    ixs: &Vec<Instruction>,
    payer: &Pubkey,
    signers: &Vec<Keypair>,
    blockhash: &Blockhash,
) -> (r: Vec<Transaction>)
    requires
        packable(
            prelude_of(compute_budget, priority_fee),
            views(ixs@),
            *payer,
            views(signers@),
        ),
    ensures
        views(r@) == group_transactions(
            groups(prelude_of(compute_budget, priority_fee), views(ixs@), *payer),
            prelude_of(compute_budget, priority_fee),
            *payer,
            views(signers@),
            *blockhash,
        ),
        full_runs(
            prelude_of(compute_budget, priority_fee),
            fitting(prelude_of(compute_budget, priority_fee), views(ixs@), *payer),
            *payer,
            packed_runs(prelude_of(compute_budget, priority_fee), views(ixs@), *payer),
        ),
        r@.len() > 0,
        forall|i: int|
            #![trigger r@[i]]
            0 <= i < r@.len() ==> carries(
                r@[i]@,
                groups(prelude_of(compute_budget, priority_fee), views(ixs@), *payer)[i],
                *payer,
            ) && within_limits(r@[i]@),
        packs(
            views(r@),
            groups(prelude_of(compute_budget, priority_fee), views(ixs@), *payer),
            leading(compute_budget, priority_fee),
            views(ixs@),
            *payer,
            views(signers@),
            *blockhash,
        ),
{
    let ghost prelude = prelude_of(compute_budget, priority_fee);
    let ghost all = views(ixs@);
    let ghost kept = fitting(prelude, all, *payer);
    let ghost mut runs: Seq<Span> = Seq::empty();
    let ghost mut start: int = 0;
    let mut packed: Vec<Transaction> = Vec::new();
    let mut current: Option<Transaction> = None;
    let mut group = prelude_instructions(compute_budget, priority_fee);
    let mut n: usize = 0;
    let mut i: usize = 0;
    proof {
        lemma_pack_begins(prelude, all, *payer);
    }
    while i < ixs.len()
        invariant
            i <= ixs.len(),
            n <= i,
            prelude == prelude_of(compute_budget, priority_fee),
            all == views(ixs@),
            kept == fitting(prelude, all, *payer),
            packable(prelude, all, *payer, views(signers@)),
            pack_under_way(prelude, all, *payer, runs, start, n as int, i as int),
            views(group@) == span_group(prelude, kept, (start, n as int)),
            current matches Some(tx) ==> is_group_transaction(
                tx@,
                views(group@),
                *payer,
                views(signers@),
                *blockhash,
            ),
            packed@.len() == runs.len(),
            forall|k: int|
                #![trigger packed@[k]]
                0 <= k < packed@.len() ==> is_group_transaction(
                    packed@[k]@,
                    span_group(prelude, kept, runs[k]),
                    *payer,
                    views(signers@),
                    *blockhash,
                ),
        decreases ixs.len() - i,
    {
        proof {
            lemma_candidate(prelude, all, *payer, runs, start, n as int, i as int);
            assert(buildable(
                candidate(prelude, all, *payer, i as int),
                *payer,
                views(signers@),
            ));
        }
        let ghost open = views(group@);
        join(&mut group, &ixs[i]);
        assert(views(group@) == candidate(prelude, all, *payer, i as int));
        let tx = build(&group, payer, signers, blockhash);
        let bytes = serialize(&tx);
        if bytes.len() <= MAX_TX_LEN && tx.message.account_keys.len() <= MAX_ACCOUNT_KEYS {
            proof {
                lemma_joins(prelude, all, *payer, runs, start, n as int, i as int);
            }
            current = Some(tx);
            n = n + 1;
        } else {
            let lone = lone_group(compute_budget, priority_fee, &ixs[i]);
            leave(&mut group);
            assert(views(group@) =~= open);
            if does_fit(&lone, payer) {
                // The instruction that pushed the transaction over the limits opens the next one.
                let ghost closed = runs.push((start, n as int));
                let ghost packed_before = packed@;
                proof {
                    lemma_opens(prelude, all, *payer, runs, start, n as int, i as int);
                    lemma_packed_runs(prelude, all, *payer, closed, n as int, n + 1, i + 1);
                    assert(closed[runs.len() as int] == (start, n as int));
                    assert(groups(prelude, all, *payer)[runs.len() as int] == open);
                }
                let full = match current {
                    Some(tx) => tx,
                    None => build(&group, payer, signers, blockhash),
                };
                packed.push(full);
                proof {
                    assert forall|k: int| #![trigger packed@[k]] 0 <= k < packed@.len()
                        implies is_group_transaction(
                        packed@[k]@,
                        span_group(prelude, kept, closed[k]),
                        *payer,
                        views(signers@),
                        *blockhash,
                    ) by {
                        if k < packed_before.len() {
                            assert(packed@[k] == packed_before[k]);
                            assert(closed[k] == runs[k]);
                        }
                    }
                    runs = closed;
                    start = n as int;
                }
                current = None;
                group = lone;
                n = n + 1;
            } else {
                proof {
                    lemma_drops(prelude, all, *payer, runs, start, n as int, i as int);
                }
            }
        }
        i = i + 1;
    }
    let ghost expected = groups(prelude, all, *payer);
    let ghost packed_before = packed@;
    proof {
        lemma_pack_ends(prelude, all, *payer, runs, start, n as int);
        lemma_prelude(compute_budget, priority_fee, *payer);
    }
    if n == 0 {
        let bare = compile(&group, payer);
        proof {
            lemma_compiled(bare@.message, prelude, *payer, views(signers@));
        }
        packed.push(bare);
        assert(carries(packed@[0]@, expected[0], *payer));
    } else {
        assert(expected[runs.len() as int] == views(group@));
        let full = match current {
            Some(tx) => tx,
            None => build(&group, payer, signers, blockhash),
        };
        packed.push(full);
        proof {
            assert forall|k: int| #![trigger packed@[k]] 0 <= k < packed@.len()
                implies is_group_transaction(
                packed@[k]@,
                expected[k],
                *payer,
                views(signers@),
                *blockhash,
            ) && expected[k] != prelude by {
                if k < packed_before.len() {
                    assert(packed@[k] == packed_before[k]);
                }
                assert(expected[k].len() > prelude.len());
            }
        }
    }
    proof {
        law_groups_fit(compute_budget, priority_fee, all, *payer);
        assert(views(packed@) =~= group_transactions(
            expected,
            prelude,
            *payer,
            views(signers@),
            *blockhash,
        ));
        assert forall|k: int| #![trigger packed@[k]] 0 <= k < packed@.len() implies carries(
            packed@[k]@,
            expected[k],
            *payer,
        ) && within_limits(packed@[k]@) by {
            assert(fits(expected[k], *payer));
        }
        lemma_packs(
            views(packed@),
            compute_budget,
            priority_fee,
            all,
            *payer,
            views(signers@),
            *blockhash,
        );
    }
    packed
}

/// The transaction is that of the group, signed, and carries it.
spec fn is_group_transaction(
    tx: TransactionView,
    group: Seq<InstructionView>,
    payer: Pubkey,
    signers: Seq<KeypairView>,
    blockhash: Blockhash,
) -> bool {
    tx == signed(compiled_message(group, payer), signers, blockhash) && carries(tx, group, payer)
}

/// Builds the transaction of a group of instructions, signed.
fn build(
    ixs: &Vec<Instruction>,
    payer: &Pubkey,
    signers: &Vec<Keypair>,
    blockhash: &Blockhash,
) -> (r: Transaction)
    requires
        buildable(views(ixs@), *payer, views(signers@)),
    ensures
        is_group_transaction(r@, views(ixs@), *payer, views(signers@), *blockhash),
{
    let unsigned = compile(ixs, payer);
    proof {
        lemma_compiled(unsigned@.message, views(ixs@), *payer, views(signers@));
    }
    match sign(&unsigned.message, signers, blockhash) {
        Ok(tx) => tx,
        Err(_) => {
            assert(false);
            unsigned
        },
    }
}

} // verus!
