//! The transactions that are signed and not confirmed yet.
use vstd::prelude::*;

use crate::error::SignerError;
use crate::keypair::{Keypair, KeypairView};
use crate::model::{
    Blockhash, Message, MessageView, Signature, Transaction, TransactionView, same_bytes, views,
};
use crate::sdk::sign_error;
use crate::signing::{is_encodable, sign, signed, signing_error};
use crate::submission_model::{
    distinct_ids, has_id, id, id_at, ids_of, index_of_id, messages_of, signed_round, submittable,
    with_transaction,
};
use crate::submission_rules::{lemma_round_rule, round_refused, round_signed};

verus! {

/// Every transaction is known by a signature, and no two by the same.
pub open spec fn identified(pending: Seq<TransactionView>) -> bool {
    &&& distinct_ids(pending)
    &&& forall|i: int| 0 <= i < pending.len() ==> (#[trigger] pending[i]).signatures.len() > 0
}

/// Where no two transactions are known by the same signature, only one position is known by it.
pub proof fn lemma_index_unique(pending: Seq<TransactionView>, signature: Signature, i: int)
    requires
        distinct_ids(pending),
        id_at(pending, signature, i),
    ensures
        has_id(pending, signature),
        index_of_id(pending, signature) == i,
{
    let j = index_of_id(pending, signature);
    assert(id_at(pending, signature, j));
    if i < j {
        assert(id(pending[i]) != id(pending[j]));
    }
    if j < i {
        assert(id(pending[j]) != id(pending[i]));
    }
}

/// Finds the transaction that is known by `signature`.
pub fn find(pending: &Vec<Transaction>, signature: &Signature) -> (r: Option<usize>)
    requires
        identified(views(pending@)),
    ensures
        match r {
            Some(i) => has_id(views(pending@), *signature) && i < pending@.len() && i
                == index_of_id(views(pending@), *signature),
            None => !has_id(views(pending@), *signature),
        },
        match r {
            Some(i) => i < pending@.len() && pending@[i as int]@.signatures[0] == *signature,
            None => forall|i: int|
                0 <= i < pending@.len() ==> (#[trigger] pending@[i])@.signatures[0] != *signature,
        },
{
    let mut i: usize = 0;
    while i < pending.len()
        invariant
            i <= pending.len(),
            identified(views(pending@)),
            forall|k: int| 0 <= k < i ==> id(#[trigger] views(pending@)[k]) != *signature,
        decreases pending.len() - i,
    {
        assert(views(pending@)[i as int].signatures.len() > 0);
        if same_bytes(&pending[i].signatures[0], signature) {
            proof {
                lemma_index_unique(views(pending@), *signature, i as int);
            }
            return Some(i);
        }
        i = i + 1;
    }
    assert forall|k: int| 0 <= k < pending@.len() implies (#[trigger] pending@[k])@.signatures[0]
        != *signature by {
        assert(views(pending@)[k] == pending@[k]@);
    }
    None
}

/// Adding a transaction keeps the transactions apart, and adds at most one.
pub proof fn lemma_with_transaction(pending: Seq<TransactionView>, tx: TransactionView)
    requires
        identified(pending),
        tx.signatures.len() > 0,
    ensures
        identified(with_transaction(pending, tx)),
        pending.len() <= with_transaction(pending, tx).len() <= pending.len() + 1,
        forall|i: int|
            0 <= i < with_transaction(pending, tx).len() ==> #[trigger] with_transaction(
                pending,
                tx,
            )[i] == tx || pending.contains(with_transaction(pending, tx)[i]),
{
    let after = with_transaction(pending, tx);
    if has_id(pending, id(tx)) {
        let p = index_of_id(pending, id(tx));
        assert(id_at(pending, id(tx), p));
        assert forall|i: int, j: int| 0 <= i < j < after.len() implies id(#[trigger] after[i])
            != id(#[trigger] after[j]) by {
            assert(id(pending[i]) != id(pending[j]));
        }
        assert forall|i: int| 0 <= i < after.len() implies #[trigger] after[i] == tx
            || pending.contains(after[i]) by {
            assert(pending.contains(pending[i]));
        }
    } else {
        assert forall|i: int, j: int| 0 <= i < j < after.len() implies id(#[trigger] after[i])
            != id(#[trigger] after[j]) by {
            if j == pending.len() {
                assert(!id_at(pending, id(tx), i));
            } else {
                assert(id(pending[i]) != id(pending[j]));
            }
        }
        assert forall|i: int| 0 <= i < after.len() implies #[trigger] after[i] == tx
            || pending.contains(after[i]) by {
            if i < pending.len() {
                assert(pending.contains(pending[i]));
            }
        }
    }
}

/// Adds a transaction, in place of one that is known by the same signature.
fn insert(pending: &mut Vec<Transaction>, tx: Transaction)
    requires
        identified(views(old(pending)@)),
        tx@.signatures.len() > 0,
    ensures
        views(final(pending)@) == with_transaction(views(old(pending)@), tx@),
        identified(views(final(pending)@)),
        final(pending)@.len() <= old(pending)@.len() + 1,
{
    proof {
        lemma_with_transaction(views(pending@), tx@);
    }
    let ghost before = views(pending@);
    let ghost added = tx@;
    let signature = tx.signatures[0];
    match find(pending, &signature) {
        Some(i) => {
            pending.set(i, tx);
            assert(views(pending@) =~= before.update(i as int, added));
        },
        None => {
            pending.push(tx);
            assert(views(pending@) =~= before.push(added));
        },
    }
}

/// A message that cannot be signed stops the round.
proof fn lemma_round_stops(
    messages: Seq<MessageView>,
    signers: Seq<KeypairView>,
    blockhash: Blockhash,
    n: int,
)
    requires
        0 <= n <= messages.len(),
        signed_round(messages.take(n), signers, blockhash) is Err,
    ensures
        signed_round(messages, signers, blockhash) == signed_round(
            messages.take(n),
            signers,
            blockhash,
        ),
    decreases messages.len() - n,
{
    if n == messages.len() {
        assert(messages.take(n) =~= messages);
    } else {
        assert(messages.take(n + 1).drop_last() =~= messages.take(n));
        lemma_round_stops(messages, signers, blockhash, n + 1);
    }
}

/// What a round of signing gives: transactions that are known by their signatures, at most one for
/// each message, and each a message of the round signed for the block.
pub proof fn lemma_round(
    messages: Seq<MessageView>,
    signers: Seq<KeypairView>,
    blockhash: Blockhash,
)
    requires
        forall|i: int| 0 <= i < messages.len() ==> submittable(#[trigger] messages[i], signers),
    ensures
        signed_round(messages, signers, blockhash) matches Ok(pending) ==> {
            &&& identified(pending)
            &&& pending.len() <= messages.len()
            &&& messages.len() > 0 ==> pending.len() > 0
            &&& forall|i: int|
                0 <= i < pending.len() ==> exists|k: int|
                    0 <= k < messages.len() && #[trigger] pending[i] == signed(
                        #[trigger] messages[k],
                        signers,
                        blockhash,
                    ) && sign_error(messages[k], signers) is None
        },
    decreases messages.len(),
{
    if messages.len() > 0 {
        let shorter = messages.drop_last();
        assert forall|i: int| 0 <= i < shorter.len() implies submittable(
            #[trigger] shorter[i],
            signers,
        ) by {
            assert(submittable(messages[i], signers));
        }
        lemma_round(shorter, signers, blockhash);
        if signed_round(messages, signers, blockhash) is Ok {
            let before = signed_round(shorter, signers, blockhash)->Ok_0;
            let tx = signed(messages.last(), signers, blockhash);
            let pending = with_transaction(before, tx);
            assert(submittable(messages[messages.len() - 1], signers));
            lemma_with_transaction(before, tx);
            if has_id(before, id(tx)) {
                assert(id_at(before, id(tx), index_of_id(before, id(tx))));
            }
            assert forall|i: int| 0 <= i < pending.len() implies exists|k: int|
                0 <= k < messages.len() && #[trigger] pending[i] == signed(
                    #[trigger] messages[k],
                    signers,
                    blockhash,
                ) && sign_error(messages[k], signers) is None by {
                if pending[i] == tx {
                    assert(messages[messages.len() - 1] == messages.last());
                } else {
                    let j = choose|j: int| 0 <= j < before.len() && before[j] == pending[i];
                    assert(before[j] == pending[i]);
                    let k = choose|k: int|
                        0 <= k < shorter.len() && before[j] == signed(
                            #[trigger] shorter[k],
                            signers,
                            blockhash,
                        ) && sign_error(shorter[k], signers) is None;
                    assert(messages[k] == shorter[k]);
                }
            }
        }
    }
}

/// Tells whether the signers can submit the messages of the transactions.
pub fn can_submit(transactions: &Vec<Transaction>, signers: &Vec<Keypair>) -> (r: bool)
    ensures
        r == forall|i: int|
            0 <= i < transactions@.len() ==> submittable(
                (#[trigger] views(transactions@)[i]).message,
                views(signers@),
            ),
{
    let mut i: usize = 0;
    while i < transactions.len()
        invariant
            i <= transactions.len(),
            forall|k: int|
                0 <= k < i ==> submittable(
                    (#[trigger] views(transactions@)[k]).message,
                    views(signers@),
                ),
        decreases transactions.len() - i,
    {
        assert(views(transactions@)[i as int] == transactions@[i as int]@);
        let message = &transactions[i].message;
        let fine = match signing_error(message, signers) {
            None => is_encodable(message) && message.header.num_required_signatures > 0,
            Some(SignerError::NotEnoughSigners) => is_encodable(message),
            Some(_) => true,
        };
        if !fine {
            return false;
        }
        i = i + 1;
    }
    true
}

/// Signs the messages for a block.
pub fn sign_all(messages: &Vec<Message>, signers: &Vec<Keypair>, blockhash: &Blockhash) -> (r:
    Result<Vec<Transaction>, SignerError>)
    requires
        forall|i: int|
            0 <= i < messages@.len() ==> submittable(
                #[trigger] views(messages@)[i],
                views(signers@),
            ),
    ensures
        match r {
            Ok(pending) => signed_round(views(messages@), views(signers@), *blockhash) == Ok::<
                Seq<TransactionView>,
                SignerError,
            >(views(pending@)),
            Err(e) => signed_round(views(messages@), views(signers@), *blockhash) == Err::<
                Seq<TransactionView>,
                SignerError,
            >(e),
        },
        match r {
            Ok(pending) => round_signed(
                views(messages@),
                views(signers@),
                *blockhash,
                views(pending@),
            ),
            Err(e) => round_refused(views(messages@), views(signers@), e),
        },
{
    let ghost all = views(messages@);
    let mut pending: Vec<Transaction> = Vec::new();
    let mut i: usize = 0;
    assert(views(pending@) =~= Seq::empty());
    while i < messages.len()
        invariant
            i <= messages.len(),
            all == views(messages@),
            identified(views(pending@)),
            signed_round(all.take(i as int), views(signers@), *blockhash) == Ok::<
                Seq<TransactionView>,
                SignerError,
            >(views(pending@)),
            forall|k: int|
                0 <= k < messages@.len() ==> submittable(#[trigger] all[k], views(signers@)),
        decreases messages.len() - i,
    {
        proof {
            assert(all[i as int] == messages@[i as int]@);
            assert(submittable(all[i as int], views(signers@)));
            assert(all.take(i + 1).drop_last() =~= all.take(i as int));
        }
        match sign(&messages[i], signers, blockhash) {
            Ok(tx) => {
                insert(&mut pending, tx);
            },
            Err(e) => {
                proof {
                    lemma_round_stops(all, views(signers@), *blockhash, i + 1);
                    lemma_round_rule(all, views(signers@), *blockhash);
                }
                return Err(e);
            },
        }
        i = i + 1;
    }
    assert(all.take(i as int) =~= all);
    proof {
        lemma_round_rule(all, views(signers@), *blockhash);
    }
    Ok(pending)
}

/// Lists the signatures by which the transactions are known.
pub fn signatures_of(pending: &Vec<Transaction>) -> (r: Vec<Signature>)
    requires
        identified(views(pending@)),
    ensures
        r@ == ids_of(views(pending@)),
        r@.len() == pending@.len(),
        forall|i: int|
            0 <= i < pending@.len() ==> #[trigger] r@[i] == pending@[i]@.signatures[0],
{
    let mut r: Vec<Signature> = Vec::new();
    let mut i: usize = 0;
    while i < pending.len()
        invariant
            i <= pending.len(),
            identified(views(pending@)),
            r@ == ids_of(views(pending@)).take(i as int),
        decreases pending.len() - i,
    {
        assert(views(pending@)[i as int].signatures.len() > 0);
        r.push(pending[i].signatures[0]);
        i = i + 1;
        assert(r@ =~= ids_of(views(pending@)).take(i as int));
    }
    assert(ids_of(views(pending@)).take(i as int) =~= ids_of(views(pending@)));
    r
}

/// Copies the messages of the transactions.
pub fn copy_messages(transactions: &Vec<Transaction>) -> (r: Vec<Message>)
    ensures
        views(r@) == messages_of(views(transactions@)),
        r@.len() == transactions@.len(),
        forall|i: int|
            0 <= i < transactions@.len() ==> (#[trigger] r@[i])@ == transactions@[i]@.message,
{
    let mut r: Vec<Message> = Vec::new();
    let mut i: usize = 0;
    while i < transactions.len()
        invariant
            i <= transactions.len(),
            views(r@) == messages_of(views(transactions@)).take(i as int),
        decreases transactions.len() - i,
    {
        let ghost before = views(r@);
        r.push(transactions[i].message.clone());
        i = i + 1;
        assert(views(r@) =~= before.push(transactions@[i - 1]@.message));
        assert(views(r@) =~= messages_of(views(transactions@)).take(i as int));
    }
    assert(messages_of(views(transactions@)).take(i as int) =~= messages_of(views(transactions@)));
    assert forall|k: int| 0 <= k < transactions@.len() implies (#[trigger] r@[k])@
        == transactions@[k]@.message by {
        assert(views(r@)[k] == r@[k]@);
    }
    r
}

} // verus!
