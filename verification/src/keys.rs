//! Which accounts a group of instructions refers to, and which of them sign.
use vstd::prelude::*;

use crate::model::{AccountMeta, Instruction, InstructionView, Pubkey, same_bytes, views};

verus! {

/// The instruction passes the account `key` to its program.
pub open spec fn passes(ix: InstructionView, key: Pubkey) -> bool {
    exists|j: int| 0 <= j < ix.accounts.len() && (#[trigger] ix.accounts[j]).pubkey == key
}

/// The instruction needs the signature of the account `key`.
pub open spec fn passes_signer(ix: InstructionView, key: Pubkey) -> bool {
    exists|j: int|
        0 <= j < ix.accounts.len() && (#[trigger] ix.accounts[j]).pubkey == key
            && ix.accounts[j].is_signer
}

/// The instruction may change the account `key`.
pub open spec fn passes_writable(ix: InstructionView, key: Pubkey) -> bool {
    exists|j: int|
        0 <= j < ix.accounts.len() && (#[trigger] ix.accounts[j]).pubkey == key
            && ix.accounts[j].is_writable
}

/// The instruction refers to the account `key`, as its program or as an argument.
pub open spec fn refers_to(ix: InstructionView, key: Pubkey) -> bool {
    ix.program_id == key || passes(ix, key)
}

/// A transaction of these instructions, paid by `payer`, refers to the account `key`.
pub open spec fn is_account(ixs: Seq<InstructionView>, payer: Pubkey, key: Pubkey) -> bool {
    key == payer || exists|i: int| 0 <= i < ixs.len() && refers_to(#[trigger] ixs[i], key)
}

/// A transaction of these instructions, paid by `payer`, needs the signature of `key`.
pub open spec fn is_signer(ixs: Seq<InstructionView>, payer: Pubkey, key: Pubkey) -> bool {
    key == payer || exists|i: int| 0 <= i < ixs.len() && passes_signer(#[trigger] ixs[i], key)
}

/// A transaction of these instructions, paid by `payer`, may change the account `key`.
pub open spec fn is_writable(ixs: Seq<InstructionView>, payer: Pubkey, key: Pubkey) -> bool {
    key == payer || exists|i: int| 0 <= i < ixs.len() && passes_writable(#[trigger] ixs[i], key)
}

/// A transaction of these instructions, paid by `payer`, only reads the account `key`, unsigned.
pub open spec fn is_readonly(ixs: Seq<InstructionView>, payer: Pubkey, key: Pubkey) -> bool {
    is_account(ixs, payer, key) && !is_signer(ixs, payer, key) && !is_writable(ixs, payer, key)
}

/// Every account of a transaction of these instructions, paid by `payer`.
pub open spec fn account_set(ixs: Seq<InstructionView>, payer: Pubkey) -> Set<Pubkey> {
    Set::new(|key: Pubkey| is_account(ixs, payer, key))
}

/// The accounts that sign a transaction of these instructions, paid by `payer`.
pub open spec fn signer_set(ixs: Seq<InstructionView>, payer: Pubkey) -> Set<Pubkey> {
    Set::new(|key: Pubkey| is_signer(ixs, payer, key))
}

/// The accounts that a transaction of these instructions, paid by `payer`, only reads, unsigned.
pub open spec fn readonly_set(ixs: Seq<InstructionView>, payer: Pubkey) -> Set<Pubkey> {
    Set::new(|key: Pubkey| is_readonly(ixs, payer, key))
}

/// Tells whether a key is in a list.
pub fn contains_key(keys: &Vec<Pubkey>, key: &Pubkey) -> (r: bool)
    ensures
        r == keys@.contains(*key),
{
    let mut i: usize = 0;
    while i < keys.len()
        invariant
            i <= keys.len(),
            forall|j: int| 0 <= j < i ==> keys@[j] != *key,
        decreases keys.len() - i,
    {
        if same_bytes(&keys[i], key) {
            return true;
        }
        i = i + 1;
    }
    false
}

/// Tells whether an instruction passes `key` as a signer.
fn instruction_signs(ix: &Instruction, key: &Pubkey) -> (r: bool)
    ensures
        r == passes_signer(ix@, *key),
{
    let mut j: usize = 0;
    while j < ix.accounts.len()
        invariant
            j <= ix.accounts.len(),
            forall|k: int|
                0 <= k < j ==> !((#[trigger] ix.accounts@[k]).pubkey == *key
                    && ix.accounts@[k].is_signer),
        decreases ix.accounts.len() - j,
    {
        let meta: AccountMeta = ix.accounts[j];
        if meta.is_signer && same_bytes(&meta.pubkey, key) {
            assert(ix@.accounts[j as int].pubkey == *key);
            return true;
        }
        j = j + 1;
    }
    false
}

/// Tells whether an instruction passes `key` as writable.
fn instruction_writes(ix: &Instruction, key: &Pubkey) -> (r: bool)
    ensures
        r == passes_writable(ix@, *key),
{
    let mut j: usize = 0;
    while j < ix.accounts.len()
        invariant
            j <= ix.accounts.len(),
            forall|k: int|
                0 <= k < j ==> !((#[trigger] ix.accounts@[k]).pubkey == *key
                    && ix.accounts@[k].is_writable),
        decreases ix.accounts.len() - j,
    {
        let meta: AccountMeta = ix.accounts[j];
        if meta.is_writable && same_bytes(&meta.pubkey, key) {
            assert(ix@.accounts[j as int].pubkey == *key);
            return true;
        }
        j = j + 1;
    }
    false
}

/// Tells whether a transaction of these instructions needs the signature of `key`.
pub fn signs(ixs: &Vec<Instruction>, payer: &Pubkey, key: &Pubkey) -> (r: bool)
    ensures
        r == is_signer(views(ixs@), *payer, *key),
{
    if same_bytes(payer, key) {
        return true;
    }
    let mut i: usize = 0;
    while i < ixs.len()
        invariant
            i <= ixs.len(),
            forall|k: int| 0 <= k < i ==> !passes_signer(#[trigger] views(ixs@)[k], *key),
        decreases ixs.len() - i,
    {
        assert(views(ixs@)[i as int] == ixs@[i as int]@);
        if instruction_signs(&ixs[i], key) {
            return true;
        }
        i = i + 1;
    }
    false
}

/// Tells whether a transaction of these instructions may change the account `key`.
pub fn writes(ixs: &Vec<Instruction>, payer: &Pubkey, key: &Pubkey) -> (r: bool)
    ensures
        r == is_writable(views(ixs@), *payer, *key),
{
    if same_bytes(payer, key) {
        return true;
    }
    let mut i: usize = 0;
    while i < ixs.len()
        invariant
            i <= ixs.len(),
            forall|k: int| 0 <= k < i ==> !passes_writable(#[trigger] views(ixs@)[k], *key),
        decreases ixs.len() - i,
    {
        assert(views(ixs@)[i as int] == ixs@[i as int]@);
        if instruction_writes(&ixs[i], key) {
            return true;
        }
        i = i + 1;
    }
    false
}

/// Adds a key to a list of distinct keys, unless it is there already.
fn add_key(keys: &mut Vec<Pubkey>, key: &Pubkey)
    requires
        old(keys)@.no_duplicates(),
    ensures
        final(keys)@.no_duplicates(),
        forall|k: Pubkey| #[trigger]
            final(keys)@.contains(k) <==> old(keys)@.contains(k) || k == *key,
{
    if !contains_key(keys, key) {
        let ghost before = keys@;
        keys.push(*key);
        assert forall|k: Pubkey| #[trigger]
            keys@.contains(k) <==> before.contains(k) || k == *key by {
            if before.contains(k) {
                let i = choose|i: int| 0 <= i < before.len() && before[i] == k;
                assert(keys@[i] == k);
            }
            assert(keys@[before.len() as int] == *key);
        }
    }
}

/// Adds the accounts of one instruction to a list of distinct keys.
fn add_instruction(keys: &mut Vec<Pubkey>, ix: &Instruction)
    requires
        old(keys)@.no_duplicates(),
    ensures
        final(keys)@.no_duplicates(),
        forall|k: Pubkey| #[trigger]
            final(keys)@.contains(k) <==> old(keys)@.contains(k) || refers_to(ix@, k),
{
    add_key(keys, &ix.program_id);
    let mut j: usize = 0;
    while j < ix.accounts.len()
        invariant
            j <= ix.accounts.len(),
            keys@.no_duplicates(),
            forall|k: Pubkey| #[trigger]
                keys@.contains(k) <==> old(keys)@.contains(k) || k == ix.program_id || exists|m: int|
                    0 <= m < j && (#[trigger] ix@.accounts[m]).pubkey == k,
        decreases ix.accounts.len() - j,
    {
        let ghost before = keys@;
        add_key(keys, &ix.accounts[j].pubkey);
        assert(ix@.accounts[j as int] == ix.accounts@[j as int]);
        j = j + 1;
    }
}

/// Lists every account of a transaction of these instructions once.
pub fn accounts_of(ixs: &Vec<Instruction>, payer: &Pubkey) -> (r: Vec<Pubkey>)
    ensures
        r@.no_duplicates(),
        r@.to_set() == account_set(views(ixs@), *payer),
{
    let mut keys: Vec<Pubkey> = Vec::new();
    add_key(&mut keys, payer);
    let mut i: usize = 0;
    while i < ixs.len()
        invariant
            i <= ixs.len(),
            keys@.no_duplicates(),
            forall|k: Pubkey| #[trigger]
                keys@.contains(k) <==> k == *payer || exists|m: int|
                    0 <= m < i && refers_to(#[trigger] views(ixs@)[m], k),
        decreases ixs.len() - i,
    {
        assert(views(ixs@)[i as int] == ixs@[i as int]@);
        add_instruction(&mut keys, &ixs[i]);
        i = i + 1;
    }
    assert(keys@.to_set() =~= account_set(views(ixs@), *payer));
    keys
}

/// Lists every signer of a transaction of these instructions once.
pub fn signers_of(ixs: &Vec<Instruction>, payer: &Pubkey) -> (r: Vec<Pubkey>)
    ensures
        r@.no_duplicates(),
        r@.to_set() == signer_set(views(ixs@), *payer),
{
    let all: Vec<Pubkey> = accounts_of(ixs, payer);
    let mut keys: Vec<Pubkey> = Vec::new();
    let mut i: usize = 0;
    while i < all.len()
        invariant
            i <= all.len(),
            keys@.no_duplicates(),
            forall|k: Pubkey| #[trigger]
                keys@.contains(k) <==> is_signer(views(ixs@), *payer, k) && exists|m: int|
                    0 <= m < i && #[trigger] all@[m] == k,
        decreases all.len() - i,
    {
        if signs(ixs, payer, &all[i]) {
            add_key(&mut keys, &all[i]);
        }
        i = i + 1;
    }
    proof {
        assert forall|k: Pubkey| is_signer(views(ixs@), *payer, k) implies keys@.contains(k) by {
            lemma_signer_is_account(views(ixs@), *payer, k);
            assert(all@.to_set().contains(k));
        }
        assert(keys@.to_set() =~= signer_set(views(ixs@), *payer));
    }
    keys
}

/// Lists every account that a transaction of these instructions only reads, unsigned, once.
pub fn readonly_of(ixs: &Vec<Instruction>, payer: &Pubkey) -> (r: Vec<Pubkey>)
    ensures
        r@.no_duplicates(),
        r@.to_set() == readonly_set(views(ixs@), *payer),
{
    let all: Vec<Pubkey> = accounts_of(ixs, payer);
    let mut keys: Vec<Pubkey> = Vec::new();
    let mut i: usize = 0;
    while i < all.len()
        invariant
            i <= all.len(),
            keys@.no_duplicates(),
            all@.to_set() == account_set(views(ixs@), *payer),
            forall|k: Pubkey| #[trigger]
                keys@.contains(k) <==> is_readonly(views(ixs@), *payer, k) && exists|m: int|
                    0 <= m < i && #[trigger] all@[m] == k,
        decreases all.len() - i,
    {
        assert(all@.to_set().contains(all@[i as int]));
        if !signs(ixs, payer, &all[i]) && !writes(ixs, payer, &all[i]) {
            add_key(&mut keys, &all[i]);
        }
        i = i + 1;
    }
    proof {
        assert forall|k: Pubkey| is_readonly(views(ixs@), *payer, k) implies keys@.contains(k) by {
            assert(all@.to_set().contains(k));
        }
        assert(keys@.to_set() =~= readonly_set(views(ixs@), *payer));
    }
    keys
}

/// Whoever signs a transaction is one of its accounts.
pub proof fn lemma_signer_is_account(ixs: Seq<InstructionView>, payer: Pubkey, key: Pubkey)
    requires
        is_signer(ixs, payer, key),
    ensures
        is_account(ixs, payer, key),
{
    if key != payer {
        let i = choose|i: int| 0 <= i < ixs.len() && passes_signer(#[trigger] ixs[i], key);
        assert(refers_to(ixs[i], key));
    }
}

/// A transaction refers to finitely many accounts.
pub proof fn lemma_account_set_finite(ixs: Seq<InstructionView>, payer: Pubkey)
    ensures
        account_set(ixs, payer).finite(),
    decreases ixs.len(),
{
    if ixs.len() == 0 {
        assert(account_set(ixs, payer) =~= set![payer]);
    } else {
        let shorter = ixs.drop_last();
        let last = ixs.last();
        lemma_account_set_finite(shorter, payer);
        let passed = last.accounts.map_values(|a: AccountMeta| a.pubkey);
        vstd::seq_lib::seq_to_set_is_finite(passed);
        let all = account_set(shorter, payer).insert(last.program_id).union(passed.to_set());
        assert forall|key: Pubkey| account_set(ixs, payer).contains(key) implies all.contains(
            key,
        ) by {
            if key != payer {
                let i = choose|i: int| 0 <= i < ixs.len() && refers_to(#[trigger] ixs[i], key);
                if i < shorter.len() {
                    assert(refers_to(shorter[i], key));
                } else if key != last.program_id {
                    let j = choose|j: int|
                        0 <= j < last.accounts.len() && (#[trigger] last.accounts[j]).pubkey == key;
                    assert(passed[j] == key);
                }
            }
        }
        vstd::set_lib::lemma_set_subset_finite(all, account_set(ixs, payer));
    }
}

/// Instructions that are all among others refer to no other accounts, and need no other signers.
pub proof fn lemma_fewer_accounts(
    fewer: Seq<InstructionView>,
    more: Seq<InstructionView>,
    payer: Pubkey,
)
    requires
        forall|i: int| 0 <= i < fewer.len() ==> more.contains(#[trigger] fewer[i]),
    ensures
        account_set(fewer, payer).len() <= account_set(more, payer).len(),
        signer_set(fewer, payer).len() <= signer_set(more, payer).len(),
{
    lemma_account_set_finite(more, payer);
    assert forall|key: Pubkey| account_set(fewer, payer).contains(key) implies account_set(
        more,
        payer,
    ).contains(key) by {
        if key != payer {
            let i = choose|i: int| 0 <= i < fewer.len() && refers_to(#[trigger] fewer[i], key);
            let j = choose|j: int| 0 <= j < more.len() && more[j] == fewer[i];
            assert(refers_to(more[j], key));
        }
    }
    assert forall|key: Pubkey| signer_set(fewer, payer).contains(key) implies signer_set(
        more,
        payer,
    ).contains(key) by {
        if key != payer {
            let i = choose|i: int| 0 <= i < fewer.len() && passes_signer(#[trigger] fewer[i], key);
            let j = choose|j: int| 0 <= j < more.len() && more[j] == fewer[i];
            assert(passes_signer(more[j], key));
        }
    }
    assert forall|key: Pubkey| signer_set(more, payer).contains(key) implies account_set(
        more,
        payer,
    ).contains(key) by {
        lemma_signer_is_account(more, payer, key);
    }
    vstd::set_lib::lemma_set_subset_finite(account_set(more, payer), signer_set(more, payer));
    vstd::set_lib::lemma_len_subset(account_set(fewer, payer), account_set(more, payer));
    vstd::set_lib::lemma_len_subset(signer_set(fewer, payer), signer_set(more, payer));
}

} // verus!
