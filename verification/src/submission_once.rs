//! That no message can be executed twice: when a message is signed again, and when it is not sent
//! any more.
use vstd::prelude::*;

use crate::keypair::KeypairView;
use crate::model::{Blockhash, MessageView, Signature, TransactionView};
use crate::outcome::JibResultView;
use crate::pending::{identified, lemma_round};
use crate::signing::signed;
use crate::status::{COMMITMENT, SignatureStatusView, satisfies};
use crate::submission_exact::{
    distinct, lemma_ask_statuses_live, lemma_settle_distinct, lemma_settle_one_live, live,
};
use crate::submission_laws::{
    law_batches_follow, law_results_are_kept, law_sends_only_pending, lemma_settle_keeps,
    lemma_settle_one_keeps, results_so_far,
};
use crate::submission_model::{
    ActionView, EventView, NoticeView, Phase, SubmissionView, has_id, id, id_at, ids_of,
    index_of_id, messages_of, result_of, settles, shorter, signed_round, with_transaction,
};
use crate::submission_rules::sure;
use crate::submission_runs::{
    Run, alike, gives_blockhash, lemma_answered_later, lemma_played, lemma_statuses_asked,
};

verus! {

/// The message has no result yet.
pub open spec fn waits(s: SubmissionView, message: MessageView) -> bool {
    exists|q: int| 0 <= q < live(s).len() && alike(#[trigger] live(s)[q], message)
}

/// The action is to send the message, for whatever block it is signed.
pub open spec fn sends(action: ActionView, message: MessageView) -> bool {
    match action {
        ActionView::SendToLeader(tx) => alike(message, tx.message),
        ActionView::SendToRpc(tx) => alike(message, tx.message),
        _ => false,
    }
}

impl Run {
    /// Event `e` is a sure enough status of the signature of message `i`, which is pending, signed
    /// for that block.
    pub open spec fn settles_at(self, e: int, i: int, blockhash: Blockhash) -> bool {
        &&& self.state(e).pending.contains(self.transaction(i, blockhash))
        &&& exists|j: int, status: SignatureStatusView|
            sure(Some(status)) && #[trigger] self.told_at(
                e,
                j,
                self.transaction(i, blockhash).signatures[0],
                status,
            )
    }

    /// Message `i` has its result after the first `n` events.
    pub open spec fn has_result(self, n: int, i: int) -> bool {
        self.answered(n, results_at(self.state(n), self.action(n)), i)
    }

    /// At event `e` message `i` is signed, with the blockhash of the event.
    pub open spec fn signs_at(self, e: int, i: int) -> bool {
        &&& self.state(e).phase is AwaitingBlockhash
        &&& self.events[e] matches EventView::Blockhash(Ok(_))
        &&& listed(self.state(e).messages, self.messages[i])
    }

    /// The last block height at which the blockhash of event `e` is valid.
    pub open spec fn last_valid_at(self, e: int) -> u64 {
        self.events[e]->Blockhash_0->Ok_0.1
    }

    /// A block height above `height` has been read among the first `n` events.
    pub open spec fn passed(self, n: int, height: u64) -> bool {
        exists|e: int| 0 <= e < n && tells_height_above(#[trigger] self.events[e], height)
    }
}

/// The event is a block height above `height`.
pub open spec fn tells_height_above(event: EventView, height: u64) -> bool {
    event matches EventView::BlockHeight(Ok(h)) && h > height
}

/// The message is among the list, but for its blockhash.
pub open spec fn listed(list: Seq<MessageView>, message: MessageView) -> bool {
    exists|k: int| 0 <= k < list.len() && alike(#[trigger] list[k], message)
}

/// Signing keeps different messages different.
proof fn lemma_sign_round_distinct(
    s: SubmissionView,
    signers: Seq<KeypairView>,
    blockhash: Blockhash,
    last_valid: u64,
)
    requires
        s.well_formed(),
        s.phase is AwaitingBlockhash,
        s.accepts(signers),
        distinct(live(s)),
    ensures
        distinct(live(s.sign_round(signers, blockhash, last_valid).0)),
{
    let after = s.sign_round(signers, blockhash, last_valid).0;
    let all = live(s);
    let count = s.messages.len() as int;
    assert forall|i: int, j: int| 0 <= i < j < s.messages.len() implies !alike(
        #[trigger] s.messages[i],
        #[trigger] s.messages[j],
    ) by {
        assert(all[i] == s.messages[i]);
        assert(all[j] == s.messages[j]);
    }
    if signed_round(s.messages, signers, blockhash) is Ok {
        lemma_round_keeps_distinct(s.messages, signers, blockhash);
        let now = live(after);
        let p = after.pending.len() as int;
        assert forall|i: int, j: int| 0 <= i < j < now.len() implies !alike(
            #[trigger] now[i],
            #[trigger] now[j],
        ) by {
            if j < p {
                assert(messages_of(after.pending)[i] == now[i]);
                assert(messages_of(after.pending)[j] == now[j]);
            } else {
                assert(now[j] == s.rest[j - p]);
                assert(all[count + (j - p)] == s.rest[j - p]);
                if i < p {
                    assert(messages_of(after.pending)[i] == now[i]);
                    assert(listed(s.messages, now[i]));
                    let k = choose|k: int|
                        0 <= k < s.messages.len() && alike(#[trigger] s.messages[k], now[i]);
                    assert(all[k] == s.messages[k]);
                    assert(!alike(all[k], all[count + (j - p)]));
                } else {
                    assert(now[i] == s.rest[i - p]);
                    assert(all[count + (i - p)] == s.rest[i - p]);
                }
            }
        }
    } else {
        assert(live(after) == live(s));
    }
}

/// A round of different messages gives transactions of different messages, all from the round.
proof fn lemma_round_keeps_distinct(
    round: Seq<MessageView>,
    signers: Seq<KeypairView>,
    blockhash: Blockhash,
)
    requires
        distinct(round),
    ensures
        signed_round(round, signers, blockhash) matches Ok(pending) ==> {
            &&& distinct(messages_of(pending))
            &&& forall|k: int|
                0 <= k < pending.len() ==> listed(round, #[trigger] messages_of(pending)[k])
        },
    decreases round.len(),
{
    if round.len() > 0 && signed_round(round, signers, blockhash) is Ok {
        let shorter = round.drop_last();
        assert forall|i: int, j: int| 0 <= i < j < shorter.len() implies !alike(
            #[trigger] shorter[i],
            #[trigger] shorter[j],
        ) by {
            assert(!alike(round[i], round[j]));
        }
        lemma_round_keeps_distinct(shorter, signers, blockhash);
        let before = signed_round(shorter, signers, blockhash)->Ok_0;
        let last = round[round.len() - 1];
        let tx = signed(last, signers, blockhash);
        let pending = with_transaction(before, tx);
        let place = if has_id(before, id(tx)) {
            index_of_id(before, id(tx))
        } else {
            before.len() as int
        };
        if has_id(before, id(tx)) {
            assert(id_at(before, id(tx), place));
        }
        let (old_messages, messages) = (messages_of(before), messages_of(pending));
        assert(alike(last, tx.message));
        assert forall|k: int| 0 <= k < pending.len() && k != place implies messages[k]
            == old_messages[k] && listed(shorter, #[trigger] messages[k]) && !alike(
            messages[k],
            last,
        ) by {
            assert(messages[k] == old_messages[k]);
            let q = choose|q: int|
                0 <= q < shorter.len() && alike(#[trigger] shorter[q], old_messages[k]);
            assert(!alike(round[q], round[round.len() - 1]));
            assert(shorter[q] == round[q]);
        }
        assert(messages[place] == tx.message);
        assert forall|i: int, j: int| 0 <= i < j < messages.len() implies !alike(
            #[trigger] messages[i],
            #[trigger] messages[j],
        ) by {
            if i != place && j != place {
                assert(!alike(old_messages[i], old_messages[j]));
            }
        }
        assert forall|k: int| 0 <= k < pending.len() implies listed(
            round,
            #[trigger] messages[k],
        ) by {
            if k == place {
                assert(alike(round[round.len() - 1], messages[k]));
            } else {
                assert(listed(shorter, messages[k]));
                let q = choose|q: int|
                    0 <= q < shorter.len() && alike(#[trigger] shorter[q], messages[k]);
                assert(alike(round[q], messages[k]));
            }
        }
    }
}

/// The messages that have no result stay different.
pub proof fn lemma_played_distinct(run: Run, n: int)
    requires
        run.sound(),
        distinct(run.messages),
        0 <= n <= run.events.len(),
    ensures
        distinct(live(run.state(n))),
    decreases n,
{
    if n == 0 {
        assert(live(run.state(0)) =~= run.messages);
    } else {
        let s = run.state(n - 1);
        let event = run.events[n - 1];
        let after = run.state(n);
        lemma_played(run, n - 1);
        lemma_played_distinct(run, n - 1);
        assert(s.phase.expects(event));
        match (s.phase, event) {
            (Phase::AwaitingBlockhash, EventView::Blockhash(Ok((blockhash, last_valid)))) => {
                lemma_sign_round_distinct(s, run.signers, blockhash, last_valid);
            },
            (Phase::AwaitingStatuses(from), EventView::Statuses(reply)) => {
                lemma_see_statuses_live(s, from as nat, reply);
                if let Some(statuses) = reply {
                    let signatures = s.queried.subrange(
                        from as int,
                        s.query_end(from as nat) as int,
                    );
                    lemma_settle_distinct(
                        s,
                        signatures,
                        statuses,
                        shorter(signatures.len(), statuses.len()),
                    );
                }
            },
            _ => {
                lemma_other_live(s, run.signers, event);
            },
        }
    }
}

/// Events other than blockhashes and statuses leave the messages that have no result as they are.
proof fn lemma_other_live(s: SubmissionView, signers: Seq<KeypairView>, event: EventView)
    requires
        s.well_formed(),
        s.phase.expects(event),
        !(event is Statuses),
        !(event matches EventView::Blockhash(Ok(_))),
    ensures
        live(s.next(signers, event).0) == live(s),
{
    let after = s.next(signers, event).0;
    match (s.phase, event) {
        (Phase::ArmingTimer, EventView::Clock(now)) => {
            assert(live(after) =~= live(s));
        },
        (Phase::AwaitingBlock(refreshes), EventView::BlockHeight(Ok(height))) => {
            let seen = SubmissionView { block_height: height, queried: ids_of(s.pending), ..s };
            assert(live(seen) == live(s));
            lemma_ask_statuses_live(seen, Seq::empty(), 0);
        },
        _ => {},
    }
}

/// Statuses only take messages away from those that have no result.
proof fn lemma_settle_waits(
    s: SubmissionView,
    signatures: Seq<Signature>,
    statuses: Seq<Option<SignatureStatusView>>,
    count: nat,
    message: MessageView,
)
    requires
        identified(s.pending),
        waits(s.settle(signatures, statuses, count), message),
    ensures
        waits(s, message),
    decreases count,
{
    if count > 0 {
        let m = (count - 1) as nat;
        let before = s.settle(signatures, statuses, m);
        let after = s.settle(signatures, statuses, count);
        lemma_settle_keeps(s, signatures, statuses, m);
        lemma_settle_one_live(before, signatures[count - 1], statuses[count - 1]);
        let q = choose|q: int| 0 <= q < live(after).len() && alike(
            #[trigger] live(after)[q],
            message,
        );
        if settles(before.pending, signatures[count - 1], statuses[count - 1]) {
            let p = index_of_id(before.pending, signatures[count - 1]);
            let k = if q < p {
                q
            } else {
                q + 1
            };
            assert(live(before)[k] == live(after)[q]);
        } else {
            assert(live(before)[q] == live(after)[q]);
        }
        lemma_settle_waits(s, signatures, statuses, m, message);
    }
}

/// Signing only signs messages that have no result.
proof fn lemma_sign_round_waits(
    s: SubmissionView,
    signers: Seq<KeypairView>,
    blockhash: Blockhash,
    last_valid: u64,
    message: MessageView,
)
    requires
        s.well_formed(),
        s.phase is AwaitingBlockhash,
        s.accepts(signers),
        waits(s.sign_round(signers, blockhash, last_valid).0, message),
    ensures
        waits(s, message),
{
    let after = s.sign_round(signers, blockhash, last_valid).0;
    let q = choose|q: int| 0 <= q < live(after).len() && alike(#[trigger] live(after)[q], message);
    lemma_round(s.messages, signers, blockhash);
    if signed_round(s.messages, signers, blockhash) is Ok {
        let p = after.pending.len() as int;
        if q < p {
            assert(live(after)[q] == after.pending[q].message);
            let k = choose|k: int|
                0 <= k < s.messages.len() && after.pending[q] == signed(
                    #[trigger] s.messages[k],
                    signers,
                    blockhash,
                );
            assert(live(s)[k] == s.messages[k]);
        } else {
            assert(live(after)[q] == s.rest[q - p]);
            assert(live(s)[s.messages.len() + (q - p)] == s.rest[q - p]);
        }
    } else {
        assert(live(after) == live(s));
    }
}

/// No event makes a message wait that has its result.
#[verifier::rlimit(40)]
pub proof fn lemma_next_waits(
    s: SubmissionView,
    signers: Seq<KeypairView>,
    event: EventView,
    message: MessageView,
)
    requires
        s.well_formed(),
        s.accepts(signers),
        s.phase.expects(event),
        waits(s.next(signers, event).0, message),
    ensures
        waits(s, message),
{
    let after = s.next(signers, event).0;
    match (s.phase, event) {
        (Phase::AwaitingBlockhash, EventView::Blockhash(Ok((blockhash, last_valid)))) => {
            lemma_sign_round_waits(s, signers, blockhash, last_valid, message);
        },
        (Phase::AwaitingStatuses(from), EventView::Statuses(reply)) => {
            lemma_see_statuses_live(s, from as nat, reply);
            if let Some(statuses) = reply {
                let signatures = s.queried.subrange(from as int, s.query_end(from as nat) as int);
                let count = shorter(signatures.len(), statuses.len());
                lemma_settle_waits(s, signatures, statuses, count, message);
            }
        },
        _ => {
            lemma_other_live(s, signers, event);
        },
    }
}

/// What a reply leaves of the messages that have no result.
proof fn lemma_see_statuses_live(
    s: SubmissionView,
    from: nat,
    reply: Option<Seq<Option<SignatureStatusView>>>,
) -> (settled: SubmissionView)
    requires
        identified(s.pending),
        s.messages.len() == 0,
    ensures
        ({
            let signatures = s.queried.subrange(from as int, s.query_end(from) as int);
            settled == match reply {
                Some(statuses) => s.settle(
                    signatures,
                    statuses,
                    shorter(signatures.len(), statuses.len()),
                ),
                None => s,
            }
        }),
        live(s.see_statuses(from, reply).0) == live(settled),
{
    let signatures = s.queried.subrange(from as int, s.query_end(from) as int);
    let (settled, told) = match reply {
        Some(statuses) => {
            let count = shorter(signatures.len(), statuses.len());
            (s.settle(signatures, statuses, count), s.told(signatures, statuses, count))
        },
        None => (s, Seq::empty()),
    };
    if let Some(statuses) = reply {
        lemma_settle_keeps(
            s,
            signatures,
            statuses,
            shorter(signatures.len(), statuses.len()),
        );
    }
    lemma_ask_statuses_live(
        settled,
        told.push(settled.progress(Some(settled.block_height), "Checking transaction status..."@)),
        s.query_end(from),
    );
    settled
}

/// After a sure enough status of a signature no pending transaction is known by it.
proof fn lemma_settle_clears(
    s: SubmissionView,
    signatures: Seq<Signature>,
    statuses: Seq<Option<SignatureStatusView>>,
    count: nat,
    j: int,
)
    requires
        identified(s.pending),
        0 <= j < count,
        statuses[j] matches Some(status) && satisfies(status, COMMITMENT),
    ensures
        !has_id(s.settle(signatures, statuses, count).pending, signatures[j]),
    decreases count,
{
    let m = (count - 1) as nat;
    let before = s.settle(signatures, statuses, m);
    let after = s.settle(signatures, statuses, count);
    lemma_settle_keeps(s, signatures, statuses, m);
    lemma_settle_one_keeps(before, signatures[count - 1], statuses[count - 1]);
    if j < m {
        lemma_settle_clears(s, signatures, statuses, m, j);
        assert forall|i: int| !id_at(after.pending, signatures[j], i) by {
            if 0 <= i < after.pending.len() {
                assert(before.pending.contains(after.pending[i]));
                let q = choose|q: int|
                    0 <= q < before.pending.len() && before.pending[q] == after.pending[i];
                assert(!id_at(before.pending, signatures[j], q));
            }
        }
    } else if has_id(before.pending, signatures[j]) {
        let p = index_of_id(before.pending, signatures[j]);
        assert(id_at(before.pending, signatures[j], p));
        assert forall|i: int| !id_at(after.pending, signatures[j], i) by {
            if 0 <= i < after.pending.len() {
                let q = if i < p {
                    i
                } else {
                    i + 1
                };
                assert(after.pending[i] == before.pending[q]);
                assert(p < q ==> id(before.pending[p]) != id(before.pending[q]));
                assert(q < p ==> id(before.pending[q]) != id(before.pending[p]));
            }
        }
    }
}

/// Taking note of statuses leaves a transaction pending, or adds its result.
proof fn lemma_settle_pushes(
    s: SubmissionView,
    signatures: Seq<Signature>,
    statuses: Seq<Option<SignatureStatusView>>,
    count: nat,
    tx: TransactionView,
)
    requires
        identified(s.pending),
        s.pending.contains(tx),
    ensures
        s.settle(signatures, statuses, count).pending.contains(tx) || exists|q: int|
            0 <= q < count && #[trigger] pushed(s, signatures, statuses, count, tx, q),
    decreases count,
{
    if count > 0 {
        let m = (count - 1) as nat;
        let before = s.settle(signatures, statuses, m);
        let after = s.settle(signatures, statuses, count);
        lemma_settle_keeps(s, signatures, statuses, m);
        lemma_settle_pushes(s, signatures, statuses, m, tx);
        let (signature, status) = (signatures[count - 1], statuses[count - 1]);
        if before.pending.contains(tx) {
            let k = choose|k: int| 0 <= k < before.pending.len() && before.pending[k] == tx;
            if settles(before.pending, signature, status) {
                let p = index_of_id(before.pending, signature);
                assert(id_at(before.pending, signature, p));
                if p == k {
                    assert(after.results.last() == result_of(tx, status->0));
                    assert(pushed(s, signatures, statuses, count, tx, count - 1));
                } else if k < p {
                    assert(after.pending[k] == tx);
                } else {
                    assert(after.pending[k - 1] == tx);
                }
            }
        } else {
            let q = choose|q: int|
                0 <= q < m && #[trigger] pushed(s, signatures, statuses, m, tx, q);
            let result = result_of(tx, statuses[q]->0);
            let k = choose|k: int| 0 <= k < before.results.len() && before.results[k] == result;
            assert(after.results[k] == result);
            assert(pushed(s, signatures, statuses, count, tx, q));
        }
    }
}

/// Status `q` is a sure enough one of the transaction, and the result that it tells is there after
/// the first `count` statuses.
spec fn pushed(
    s: SubmissionView,
    signatures: Seq<Signature>,
    statuses: Seq<Option<SignatureStatusView>>,
    count: nat,
    tx: TransactionView,
    q: int,
) -> bool {
    &&& signatures[q] == id(tx)
    &&& statuses[q] matches Some(status)
    &&& satisfies(status, COMMITMENT)
    &&& s.settle(signatures, statuses, count).results.contains(result_of(tx, status))
}

/// The results that have come when a submission stands at `s` with the action to be done.
pub open spec fn results_at(s: SubmissionView, action: ActionView) -> Seq<JibResultView> {
    match action {
        ActionView::Finish(Ok(results)) => results,
        _ => results_so_far(s),
    }
}

/// Asking for statuses leaves the results as they are.
pub proof fn lemma_ask_statuses_results(s: SubmissionView, notices: Seq<NoticeView>, from: nat)
    ensures
        results_at(s.ask_statuses(notices, from).0, s.ask_statuses(notices, from).1.action)
            == results_so_far(s),
{
    assert(results_so_far(s) + Seq::<JibResultView>::empty() =~= results_so_far(s));
}

/// The results after a reply are those after its statuses.
pub proof fn lemma_see_statuses_results(
    s: SubmissionView,
    from: nat,
    statuses: Seq<Option<SignatureStatusView>>,
)
    ensures
        ({
            let signatures = s.queried.subrange(from as int, s.query_end(from) as int);
            let count = shorter(signatures.len(), statuses.len());
            let (after, step) = s.see_statuses(from, Some(statuses));
            results_at(after, step.action) == results_so_far(
                s.settle(signatures, statuses, count),
            )
        }),
{
    let signatures = s.queried.subrange(from as int, s.query_end(from) as int);
    let count = shorter(signatures.len(), statuses.len());
    let settled = s.settle(signatures, statuses, count);
    lemma_ask_statuses_results(
        settled,
        s.told(signatures, statuses, count).push(
            settled.progress(Some(settled.block_height), "Checking transaction status..."@),
        ),
        s.query_end(from),
    );
}

/// Every pending transaction is signed with a blockhash that was read.
proof fn lemma_pending_read(run: Run, n: int)
    requires
        run.sound(),
        0 <= n <= run.events.len(),
    ensures
        forall|k: int|
            0 <= k < run.state(n).pending.len() ==> run.blockhash_read(
                n,
                (#[trigger] run.state(n).pending[k]).message.recent_blockhash,
            ),
    decreases n,
{
    if n > 0 {
        let s = run.state(n - 1);
        let event = run.events[n - 1];
        let after = run.state(n);
        lemma_played(run, n - 1);
        lemma_pending_read(run, n - 1);
        assert(s.phase.expects(event));
        lemma_next_pending(s, run.signers, event);
        assert forall|k: int| 0 <= k < after.pending.len() implies run.blockhash_read(
            n,
            (#[trigger] after.pending[k]).message.recent_blockhash,
        ) by {
            let blockhash = after.pending[k].message.recent_blockhash;
            if s.pending.contains(after.pending[k]) {
                let q = choose|q: int|
                    0 <= q < s.pending.len() && s.pending[q] == after.pending[k];
                assert(run.blockhash_read(n - 1, s.pending[q].message.recent_blockhash));
            } else {
                assert(gives_blockhash(run.events[n - 1], blockhash));
            }
        }
    }
}

/// What is pending after an event was so before, or is signed with the blockhash of the event.
#[verifier::rlimit(40)]
proof fn lemma_next_pending(s: SubmissionView, signers: Seq<KeypairView>, event: EventView)
    requires
        s.well_formed(),
        s.accepts(signers),
        s.phase.expects(event),
    ensures
        forall|k: int|
            0 <= k < s.next(signers, event).0.pending.len() ==> s.pending.contains(
                #[trigger] s.next(signers, event).0.pending[k],
            ) || gives_blockhash(
                event,
                s.next(signers, event).0.pending[k].message.recent_blockhash,
            ),
{
    let after = s.next(signers, event).0;
    match (s.phase, event) {
        (Phase::AwaitingBlockhash, EventView::Blockhash(Ok((blockhash, last_valid)))) => {
            lemma_round(s.messages, signers, blockhash);
            assert forall|k: int| 0 <= k < after.pending.len() implies s.pending.contains(
                #[trigger] after.pending[k],
            ) || gives_blockhash(event, after.pending[k].message.recent_blockhash) by {
                if signed_round(s.messages, signers, blockhash) is Err {
                    assert(s.pending[k] == after.pending[k]);
                }
            }
        },
        (Phase::AwaitingStatuses(from), EventView::Statuses(reply)) => {
            if let Some(statuses) = reply {
                let signatures = s.queried.subrange(from as int, s.query_end(from as nat) as int);
                let count = shorter(signatures.len(), statuses.len());
                lemma_settle_keeps(s, signatures, statuses, count);
                let settled = s.settle(signatures, statuses, count);
                assert forall|k: int| 0 <= k < after.pending.len() implies s.pending.contains(
                    #[trigger] after.pending[k],
                ) by {
                    assert(after.pending[k] == settled.pending[k]);
                }
            } else {
                assert forall|k: int| 0 <= k < after.pending.len() implies s.pending.contains(
                    #[trigger] after.pending[k],
                ) by {
                    assert(after.pending[k] == s.pending[k]);
                }
            }
        },
        _ => {
            assert forall|k: int| 0 <= k < after.pending.len() implies s.pending.contains(
                #[trigger] after.pending[k],
            ) by {
                assert(after.pending[k] == s.pending[k]);
            }
        },
    }
}

/// Where no pending transaction is known by the signature of a transaction any more, its message
/// does not wait any more.
proof fn lemma_gone(s: SubmissionView, settled: SubmissionView, tx: TransactionView)
    requires
        distinct(live(s)),
        s.pending.contains(tx),
        forall|q: int|
            0 <= q < settled.pending.len() ==> s.pending.contains(#[trigger] settled.pending[q]),
        settled.messages.len() == 0,
        s.messages.len() == 0,
        settled.rest == s.rest,
        !has_id(settled.pending, id(tx)),
    ensures
        !waits(settled, tx.message),
{
    let all = live(s);
    let k = choose|k: int| 0 <= k < s.pending.len() && s.pending[k] == tx;
    assert(all[k] == tx.message);
    assert forall|q: int| 0 <= q < live(settled).len() implies !alike(
        #[trigger] live(settled)[q],
        tx.message,
    ) by {
        let p = settled.pending.len() as int;
        if q < p {
            assert(live(settled)[q] == settled.pending[q].message);
            assert(s.pending.contains(settled.pending[q]));
            let o = choose|o: int| 0 <= o < s.pending.len() && s.pending[o] == settled.pending[q];
            assert(all[o] == s.pending[o].message);
            assert(o < k ==> !alike(all[o], all[k]));
            assert(k < o ==> !alike(all[k], all[o]));
            assert(!id_at(settled.pending, id(tx), q));
        } else {
            assert(live(settled)[q] == s.rest[q - p]);
            let o = s.pending.len() + (q - p);
            assert(all[o] == s.rest[q - p]);
            assert(!alike(all[k], all[o]));
        }
    }
}

/// After a sure enough status of a pending transaction, its message does not wait any more.
proof fn lemma_see_statuses_gone(
    s: SubmissionView,
    from: nat,
    statuses: Seq<Option<SignatureStatusView>>,
    j: int,
    tx: TransactionView,
)
    requires
        identified(s.pending),
        distinct(live(s)),
        s.messages.len() == 0,
        s.pending.contains(tx),
        0 <= j < s.queried.subrange(from as int, s.query_end(from) as int).len(),
        j < statuses.len(),
        s.queried.subrange(from as int, s.query_end(from) as int)[j] == id(tx),
        statuses[j] matches Some(status) && satisfies(status, COMMITMENT),
    ensures
        !waits(s.see_statuses(from, Some(statuses)).0, tx.message),
{
    let signatures = s.queried.subrange(from as int, s.query_end(from) as int);
    let count = shorter(signatures.len(), statuses.len());
    let settled = lemma_see_statuses_live(s, from, Some(statuses));
    lemma_settle_keeps(s, signatures, statuses, count);
    lemma_settle_clears(s, signatures, statuses, count, j);
    lemma_gone(s, settled, tx);
}

/// Right after its status has come, a message does not wait any more, and has its result.
#[verifier::rlimit(40)]
proof fn lemma_settled(run: Run, e: int, i: int, blockhash: Blockhash)
    requires
        run.sound(),
        distinct(run.messages),
        0 <= i < run.messages.len(),
        0 <= e < run.events.len(),
        run.settles_at(e, i, blockhash),
    ensures
        !waits(run.state(e + 1), run.messages[i]),
        run.has_result(e + 1, i),
{
    let s = run.state(e);
    let tx = run.transaction(i, blockhash);
    let (j, status) = choose|j: int, status: SignatureStatusView|
        sure(Some(status)) && #[trigger] run.told_at(e, j, tx.signatures[0], status);
    lemma_played(run, e);
    lemma_played_distinct(run, e);
    lemma_statuses_asked(run, e);
    assert(s.phase.expects(run.events[e]));
    let from = s.phase->AwaitingStatuses_0;
    let statuses = run.events[e]->Statuses_0->0;
    let after = run.state(e + 1);
    assert(run.played(e + 1) == s.see_statuses(from as nat, Some(statuses)));
    lemma_see_statuses_gone(s, from as nat, statuses, j, tx);
    assert(alike(tx.message, run.messages[i]));
    assert forall|q: int| 0 <= q < live(after).len() implies !alike(
        #[trigger] live(after)[q],
        run.messages[i],
    ) by {
        assert(!alike(live(after)[q], tx.message));
    }
    let signatures = s.queried.subrange(from as int, s.query_end(from as nat) as int);
    let q = lemma_result_comes(s, from as nat, statuses, j, tx);
    let results = results_at(after, run.action(e + 1));
    let result = result_of(tx, statuses[q]->0);
    let k = choose|k: int| 0 <= k < results.len() && results[k] == result;
    lemma_pending_read(run, e);
    let p = choose|p: int| 0 <= p < s.pending.len() && s.pending[p] == tx;
    assert(run.blockhash_read(e, s.pending[p].message.recent_blockhash));
    assert(run.told_at(e, q, tx.signatures[0], statuses[q]->0));
    assert(run.tells_of(e + 1, results[k], i, blockhash, statuses[q]->0));
    assert(run.tells(e + 1, results[k], i));
}

/// A sure enough status of a pending transaction brings its result.
proof fn lemma_result_comes(
    s: SubmissionView,
    from: nat,
    statuses: Seq<Option<SignatureStatusView>>,
    j: int,
    tx: TransactionView,
) -> (q: int)
    requires
        identified(s.pending),
        s.pending.contains(tx),
        0 <= j < s.queried.subrange(from as int, s.query_end(from) as int).len(),
        j < statuses.len(),
        s.queried.subrange(from as int, s.query_end(from) as int)[j] == id(tx),
        statuses[j] matches Some(status) && satisfies(status, COMMITMENT),
    ensures
        0 <= q < s.queried.subrange(from as int, s.query_end(from) as int).len(),
        q < statuses.len(),
        s.queried.subrange(from as int, s.query_end(from) as int)[q] == id(tx),
        statuses[q] matches Some(status) && satisfies(status, COMMITMENT),
        ({
            let (after, step) = s.see_statuses(from, Some(statuses));
            results_at(after, step.action).contains(result_of(tx, statuses[q]->0))
        }),
{
    let signatures = s.queried.subrange(from as int, s.query_end(from) as int);
    let count = shorter(signatures.len(), statuses.len());
    let settled = s.settle(signatures, statuses, count);
    lemma_settle_clears(s, signatures, statuses, count, j);
    lemma_settle_pushes(s, signatures, statuses, count, tx);
    if settled.pending.contains(tx) {
        let k = choose|k: int| 0 <= k < settled.pending.len() && settled.pending[k] == tx;
        assert(id_at(settled.pending, signatures[j], k));
    }
    let q = choose|q: int|
        0 <= q < count && #[trigger] pushed(s, signatures, statuses, count, tx, q);
    lemma_see_statuses_results(s, from, statuses);
    let result = result_of(tx, statuses[q]->0);
    let k = choose|k: int| 0 <= k < settled.results.len() && settled.results[k] == result;
    assert(results_so_far(settled)[settled.done.len() + k] == result);
    q
}

/// Once a sure enough status of a message has come, the message has its result, and from then on it
/// waits for none: it is neither signed again nor sent again.
#[verifier::rlimit(40)]
pub proof fn law_settled_for_good(run: Run, e: int, i: int, blockhash: Blockhash, n: int)
    requires
        run.sound(),
        distinct(run.messages),
        0 <= i < run.messages.len(),
        0 <= e < n <= run.events.len(),
        run.settles_at(e, i, blockhash),
    ensures
        run.has_result(n, i),
        !waits(run.state(n), run.messages[i]),
        !sends(run.action(n), run.messages[i]),
        n < run.events.len() ==> !run.signs_at(n, i),
    decreases n,
{
    let s = run.state(n);
    lemma_played(run, n - 1);
    assert(run.state(n - 1).phase.expects(run.events[n - 1]));
    if n == e + 1 {
        lemma_settled(run, e, i, blockhash);
    } else {
        law_settled_for_good(run, e, i, blockhash, n - 1);
        if waits(s, run.messages[i]) {
            lemma_next_waits(
                run.state(n - 1),
                run.signers,
                run.events[n - 1],
                run.messages[i],
            );
        }
        law_results_are_kept(run.state(n - 1), run.signers, run.events[n - 1]);
        lemma_answered_later(
            run,
            n - 1,
            n,
            results_at(run.state(n - 1), run.action(n - 1)),
            results_at(s, run.action(n)),
            i,
        );
    }
    law_sends_only_pending(run.state(n - 1), run.signers, run.events[n - 1]);
    if sends(run.action(n), run.messages[i]) {
        let tx = match run.action(n) {
            ActionView::SendToLeader(tx) => tx,
            ActionView::SendToRpc(tx) => tx,
            _ => arbitrary(),
        };
        let k = choose|k: int| 0 <= k < s.pending.len() && s.pending[k] == tx;
        assert(live(s)[k] == tx.message);
    }
    if n < run.events.len() && run.signs_at(n, i) {
        let k = choose|k: int|
            0 <= k < s.messages.len() && alike(#[trigger] s.messages[k], run.messages[i]);
        assert(live(s)[s.pending.len() + k] == s.messages[k]);
    }
}

/// Except before a batch has read it, the block height is one that was read.
proof fn lemma_height_read(run: Run, n: int)
    requires
        run.sound(),
        0 <= n <= run.events.len(),
    ensures
        run.state(n).phase is Starting || run.state(n).phase is Finished || exists|e: int|
            0 <= e < n && #[trigger] run.events[e] == EventView::BlockHeight(
                Ok::<u64, Seq<char>>(run.state(n).block_height),
            ),
    decreases n,
{
    if n > 0 {
        let s = run.state(n - 1);
        lemma_played(run, n - 1);
        assert(s.phase.expects(run.events[n - 1]));
        lemma_height_read(run, n - 1);
        lemma_next_height(s, run.signers, run.events[n - 1]);
    }
}

/// An event leaves the block height, or it is the new one.
#[verifier::rlimit(40)]
proof fn lemma_next_height(s: SubmissionView, signers: Seq<KeypairView>, event: EventView)
    requires
        s.well_formed(),
        s.phase.expects(event),
    ensures
        s.next(signers, event).0.block_height == s.block_height || event
            == EventView::BlockHeight(
            Ok::<u64, Seq<char>>(s.next(signers, event).0.block_height),
        ),
        s.phase is Starting ==> s.next(signers, event).0.phase is Finished || event
            == EventView::BlockHeight(
            Ok::<u64, Seq<char>>(s.next(signers, event).0.block_height),
        ),
{
    if let (Phase::AwaitingStatuses(from), EventView::Statuses(Some(statuses))) = (s.phase, event) {
        let signatures = s.queried.subrange(from as int, s.query_end(from as nat) as int);
        lemma_settle_keeps(
            s,
            signatures,
            statuses,
            shorter(signatures.len(), statuses.len()),
        );
    }
}

/// The messages of the round are signed, and the round goes on.
spec fn round_on(s: SubmissionView) -> bool {
    s.messages.len() == 0 && !(s.phase is Starting) && !(s.phase is AwaitingBlockhash)
        && !(s.phase is Finished)
}

/// How a round goes on: it ends with the batch, or the submission ends, or the blockhash has
/// expired, or it goes on with the same blockhash.
#[verifier::rlimit(40)]
proof fn lemma_next_round(s: SubmissionView, signers: Seq<KeypairView>, event: EventView)
    requires
        s.well_formed(),
        s.phase.expects(event),
        round_on(s),
    ensures
        ({
            let after = s.next(signers, event).0;
            ||| after.phase is Finished
            ||| after.phase is Starting && live(after) == s.rest
            ||| after.phase is AwaitingBlockhash && after.block_height > s.last_valid
            ||| round_on(after) && after.last_valid == s.last_valid
        }),
{
    let after = s.next(signers, event).0;
    match (s.phase, event) {
        (Phase::AwaitingBlock(_), EventView::BlockHeight(Ok(height))) => {
            if after.phase is Starting {
                assert(live(after) =~= s.rest);
            }
        },
        (Phase::AwaitingStatuses(from), EventView::Statuses(reply)) => {
            if let Some(statuses) = reply {
                let signatures = s.queried.subrange(from as int, s.query_end(from as nat) as int);
                lemma_settle_keeps(
                    s,
                    signatures,
                    statuses,
                    shorter(signatures.len(), statuses.len()),
                );
            }
            if after.phase is Starting {
                assert(live(after) =~= s.rest);
            }
        },
        _ => {},
    }
}

/// What holds after message `i` was signed at event `a`.
#[verifier::rlimit(40)]
proof fn lemma_after_signing(run: Run, a: int, i: int, n: int)
    requires
        run.sound(),
        distinct(run.messages),
        0 <= i < run.messages.len(),
        0 <= a < n <= run.events.len(),
        run.signs_at(a, i),
    ensures
        !listed(run.state(n).rest, run.messages[i]),
        ({
            ||| run.passed(n, run.last_valid_at(a))
            ||| round_on(run.state(n)) && run.state(n).last_valid == run.last_valid_at(a)
            ||| run.state(n).phase is Finished
            ||| !waits(run.state(n), run.messages[i])
        }),
    decreases n,
{
    let m = run.messages[i];
    let s = run.state(n - 1);
    let event = run.events[n - 1];
    let after = run.state(n);
    lemma_played(run, n - 1);
    assert(s.phase.expects(event));
    law_batches_follow(s, run.signers, event);
    if n == a + 1 {
        lemma_played_distinct(run, a);
        let all = live(s);
        let k = choose|k: int| 0 <= k < s.messages.len() && alike(#[trigger] s.messages[k], m);
        let x = s.pending.len() + k;
        assert(all[x] == s.messages[k]);
        assert forall|q: int| 0 <= q < s.rest.len() implies !alike(#[trigger] s.rest[q], m) by {
            let y = s.pending.len() + s.messages.len() + q;
            assert(all[y] == s.rest[q]);
            assert(!alike(all[x], all[y]));
        }
    } else {
        lemma_after_signing(run, a, i, n - 1);
        assert forall|q: int| 0 <= q < after.rest.len() implies !alike(
            #[trigger] after.rest[q],
            m,
        ) by {
            if after.phase is Starting {
                assert(s.rest[after.messages.len() + q] == after.rest[q]);
            } else {
                assert(s.rest[q] == after.rest[q]);
            }
        }
        let height = run.last_valid_at(a);
        if run.passed(n - 1, height) {
            assert(run.passed(n, height));
        } else if round_on(s) && s.last_valid == height {
            lemma_next_round(s, run.signers, event);
            if after.phase is AwaitingBlockhash {
                lemma_height_read(run, n);
                let e = choose|e: int|
                    0 <= e < n && #[trigger] run.events[e] == EventView::BlockHeight(
                        Ok::<u64, Seq<char>>(after.block_height),
                    );
                assert(tells_height_above(run.events[e], height));
            }
            if after.phase is Starting && waits(after, m) {
                let q = choose|q: int| 0 <= q < live(after).len() && alike(
                    #[trigger] live(after)[q],
                    m,
                );
                assert(s.rest[q] == live(after)[q]);
            }
        } else if waits(after, m) {
            lemma_next_waits(s, run.signers, event, m);
        }
    }
}

/// A message is signed with a further blockhash only after a block height above the last height at
/// which the blockhash before was valid has been read, and only while it waits for its result.
pub proof fn law_signed_again_after_expiry(run: Run, a: int, b: int, i: int)
    requires
        run.sound(),
        distinct(run.messages),
        0 <= i < run.messages.len(),
        0 <= a < b < run.events.len(),
        run.signs_at(a, i),
        run.signs_at(b, i),
    ensures
        run.passed(b, run.last_valid_at(a)),
        waits(run.state(b), run.messages[i]),
        forall|e: int, blockhash: Blockhash|
            0 <= e < b ==> !#[trigger] run.settles_at(e, i, blockhash),
{
    let s = run.state(b);
    lemma_after_signing(run, a, i, b);
    let k = choose|k: int|
        0 <= k < s.messages.len() && alike(#[trigger] s.messages[k], run.messages[i]);
    assert(live(s)[s.pending.len() + k] == s.messages[k]);
    assert forall|e: int, blockhash: Blockhash| 0 <= e < b implies !#[trigger] run.settles_at(
        e,
        i,
        blockhash,
    ) by {
        if run.settles_at(e, i, blockhash) {
            law_settled_for_good(run, e, i, blockhash, b);
        }
    }
}

} // verus!
