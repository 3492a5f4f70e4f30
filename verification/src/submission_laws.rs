//! What holds of every submission.
use vstd::prelude::*;

use crate::error::SendErrorView;
use crate::keypair::KeypairView;
use crate::model::{Blockhash, MessageView, Signature};
use crate::outcome::JibResultView;
use crate::pending::{identified, lemma_round};
use crate::sdk::{has_gap, has_stranger, sign_error};
use crate::signing::signed;
use crate::status::SignatureStatusView;
use crate::submission_model::{
    ActionView, EventView, MAX_BLOCKHASHES, MAX_STATUS_QUERY, NoticeView, Phase,
    RESEND_INTERVAL_NANOS, SubmissionView, has_id, id, id_at, ids_of, index_of_id, settles, shorter,
    signed_round, submittable,
};
use crate::wire::encodable;

verus! {

/// Taking note of a status moves at most one transaction from the pending ones to the results.
pub proof fn lemma_settle_one_keeps(
    s: SubmissionView,
    signature: Signature,
    status: Option<SignatureStatusView>,
)
    requires
        identified(s.pending),
    ensures
        identified(s.settle_one(signature, status).pending),
        s.settle_one(signature, status) == (SubmissionView {
            pending: s.settle_one(signature, status).pending,
            results: s.settle_one(signature, status).results,
            ..s
        }),
        s.settle_one(signature, status).results.len() + s.settle_one(
            signature,
            status,
        ).pending.len() == s.results.len() + s.pending.len(),
        forall|i: int|
            0 <= i < s.settle_one(signature, status).pending.len() ==> s.pending.contains(
                #[trigger] s.settle_one(signature, status).pending[i],
            ),
{
    let after = s.settle_one(signature, status);
    if settles(s.pending, signature, status) {
        let p = index_of_id(s.pending, signature);
        assert(id_at(s.pending, signature, p));
        assert forall|i: int| 0 <= i < after.pending.len() implies s.pending.contains(
            #[trigger] after.pending[i],
        ) && after.pending[i].signatures.len() > 0 by {
            let j = if i < p {
                i
            } else {
                i + 1
            };
            assert(after.pending[i] == s.pending[j]);
        }
        assert forall|i: int, j: int| 0 <= i < j < after.pending.len() implies id(
            #[trigger] after.pending[i],
        ) != id(#[trigger] after.pending[j]) by {
            let a = if i < p {
                i
            } else {
                i + 1
            };
            let b = if j < p {
                j
            } else {
                j + 1
            };
            assert(id(s.pending[a]) != id(s.pending[b]));
        }
    } else {
        assert forall|i: int| 0 <= i < after.pending.len() implies s.pending.contains(
            #[trigger] after.pending[i],
        ) by {
            assert(s.pending[i] == after.pending[i]);
        }
    }
}

/// Taking note of statuses moves transactions from the pending ones to the results.
pub proof fn lemma_settle_keeps(
    s: SubmissionView,
    signatures: Seq<Signature>,
    statuses: Seq<Option<SignatureStatusView>>,
    n: nat,
)
    requires
        identified(s.pending),
    ensures
        identified(s.settle(signatures, statuses, n).pending),
        s.settle(signatures, statuses, n) == (SubmissionView {
            pending: s.settle(signatures, statuses, n).pending,
            results: s.settle(signatures, statuses, n).results,
            ..s
        }),
        s.settle(signatures, statuses, n).results.len() + s.settle(
            signatures,
            statuses,
            n,
        ).pending.len() == s.results.len() + s.pending.len(),
        forall|i: int|
            0 <= i < s.settle(signatures, statuses, n).pending.len() ==> s.pending.contains(
                #[trigger] s.settle(signatures, statuses, n).pending[i],
            ),
    decreases n,
{
    if n > 0 {
        let before = s.settle(signatures, statuses, (n - 1) as nat);
        let after = s.settle(signatures, statuses, n);
        lemma_settle_keeps(s, signatures, statuses, (n - 1) as nat);
        lemma_settle_one_keeps(before, signatures[n - 1], statuses[n - 1]);
        assert forall|i: int| 0 <= i < after.pending.len() implies s.pending.contains(
            #[trigger] after.pending[i],
        ) by {
            let j = choose|j: int| 0 <= j < before.pending.len() && before.pending[j]
                == after.pending[i];
            assert(s.pending.contains(before.pending[j]));
        }
    } else {
        assert forall|i: int| 0 <= i < s.pending.len() implies s.pending.contains(
            #[trigger] s.settle(signatures, statuses, n).pending[i],
        ) by {
            assert(s.pending.contains(s.pending[i]));
        }
    }
}

/// Beginning a batch leaves the submission well-formed.
pub proof fn lemma_begin_batch_keeps(s: SubmissionView, notices: Seq<NoticeView>)
    requires
        s.batch_size > 0,
        s.rest.len() <= usize::MAX,
        s.total <= usize::MAX,
        s.results.len() + s.pending.len() + s.messages.len() <= s.total,
        identified(s.pending),
        s.retries <= MAX_BLOCKHASHES,
        -RESEND_INTERVAL_NANOS <= s.last_resend <= u64::MAX,
    ensures
        s.begin_batch(notices).0.well_formed(),
{
}

/// Beginning a batch asks the signers for no new message.
pub proof fn lemma_begin_batch_accepts(
    s: SubmissionView,
    notices: Seq<NoticeView>,
    signers: Seq<KeypairView>,
)
    requires
        s.batch_size > 0,
        s.accepts(signers),
    ensures
        s.begin_batch(notices).0.accepts(signers),
{
    let after = s.begin_batch(notices).0;
    if s.rest.len() > 0 {
        let n = shorter(s.batch_size as nat, s.rest.len()) as int;
        assert forall|i: int| 0 <= i < after.rest.len() implies submittable(
            #[trigger] after.rest[i],
            signers,
        ) by {
            assert(after.rest[i] == s.rest[n + i]);
        }
        assert forall|i: int| 0 <= i < after.messages.len() implies submittable(
            #[trigger] after.messages[i],
            signers,
        ) by {
            assert(after.messages[i] == s.rest[i]);
        }
    }
}

/// Going on with the pending transactions leaves the submission well-formed.
proof fn lemma_resume_keeps(s: SubmissionView, notices: Seq<NoticeView>, signers: Seq<KeypairView>)
    requires
        (SubmissionView { phase: Phase::CheckingTimer, ..s }).well_formed(),
        s.accepts(signers),
    ensures
        s.resume(notices).0.well_formed(),
        s.resume(notices).0.accepts(signers),
{
    let after = s.resume(notices).0;
    if s.block_height > s.last_valid {
        assert forall|i: int| 0 <= i < after.messages.len() implies submittable(
            #[trigger] after.messages[i],
            signers,
        ) by {
            assert(after.messages[i] == s.pending[i].message);
        }
    }
}

/// Asking for statuses leaves the submission well-formed.
proof fn lemma_ask_statuses_keeps(
    s: SubmissionView,
    notices: Seq<NoticeView>,
    from: nat,
    signers: Seq<KeypairView>,
)
    requires
        (SubmissionView { phase: Phase::CheckingTimer, ..s }).well_formed(),
        s.queried.len() <= usize::MAX,
        s.accepts(signers),
    ensures
        s.ask_statuses(notices, from).0.well_formed(),
        s.ask_statuses(notices, from).0.accepts(signers),
{
    if from >= s.queried.len() {
        if s.pending.len() == 0 {
            let done = SubmissionView {
                done: s.done + s.results,
                results: Seq::empty(),
                ..s
            };
            let told = notices.push(NoticeView::BatchFinished(s.total));
            lemma_begin_batch_keeps(done, told);
            lemma_begin_batch_accepts(done, told, signers);
        } else {
            lemma_resume_keeps(s, notices, signers);
        }
    }
}

/// Signing a round leaves the submission well-formed.
proof fn lemma_sign_round_keeps(
    s: SubmissionView,
    signers: Seq<KeypairView>,
    blockhash: Blockhash,
    last_valid: u64,
)
    requires
        s.well_formed(),
        s.phase is AwaitingBlockhash,
        s.accepts(signers),
    ensures
        s.sign_round(signers, blockhash, last_valid).0.well_formed(),
        s.sign_round(signers, blockhash, last_valid).0.accepts(signers),
{
    lemma_round(s.messages, signers, blockhash);
    if signed_round(s.messages, signers, blockhash) is Ok {
        let after = s.sign_round(signers, blockhash, last_valid).0;
        assert forall|i: int| 0 <= i < after.pending.len() implies submittable(
            (#[trigger] after.pending[i]).message,
            signers,
        ) by {
            let k = choose|k: int|
                0 <= k < s.messages.len() && after.pending[i] == signed(
                    #[trigger] s.messages[k],
                    signers,
                    blockhash,
                ) && sign_error(s.messages[k], signers) is None;
            assert(submittable(s.messages[k], signers));
            lemma_submittable_with_blockhash(s.messages[k], signers, blockhash);
        }
    }
}

/// Whether a message can be submitted does not depend on its blockhash.
pub proof fn lemma_submittable_with_blockhash(
    message: MessageView,
    signers: Seq<KeypairView>,
    blockhash: Blockhash,
)
    ensures
        submittable(message.with_blockhash(blockhash), signers) == submittable(message, signers),
{
    let other = message.with_blockhash(blockhash);
    assert(other.account_keys == message.account_keys);
    assert(has_stranger(other, signers) == has_stranger(message, signers));
    assert(has_gap(other, signers) == has_gap(message, signers));
    assert(encodable(other) == encodable(message));
}

/// Every step leaves the submission well-formed, and the signers able to submit what is left.
#[verifier::rlimit(40)]
pub proof fn law_step_keeps_well_formed(
    s: SubmissionView,
    signers: Seq<KeypairView>,
    event: EventView,
)
    requires
        s.well_formed(),
        s.accepts(signers),
        s.phase.expects(event),
    ensures
        s.next(signers, event).0.well_formed(),
        s.next(signers, event).0.accepts(signers),
{
    match (s.phase, event) {
        (Phase::AwaitingBlockhash, EventView::Blockhash(Ok((blockhash, last_valid)))) => {
            lemma_sign_round_keeps(s, signers, blockhash, last_valid);
        },
        (Phase::ArmingTimer, EventView::Clock(now)) => {
            let armed = SubmissionView { last_resend: now - RESEND_INTERVAL_NANOS, ..s };
            lemma_resume_keeps(armed, Seq::empty(), signers);
        },
        (Phase::AwaitingBlock(refreshes), EventView::BlockHeight(Ok(height))) => {
            let seen = SubmissionView { block_height: height, queried: ids_of(s.pending), ..s };
            lemma_ask_statuses_keeps(seen, Seq::empty(), 0, signers);
        },
        (Phase::AwaitingStatuses(from), EventView::Statuses(reply)) => {
            let signatures = s.queried.subrange(from as int, s.query_end(from as nat) as int);
            let settled = match reply {
                Some(statuses) => s.settle(
                    signatures,
                    statuses,
                    shorter(signatures.len(), statuses.len()),
                ),
                None => s,
            };
            let told = match reply {
                Some(statuses) => s.told(
                    signatures,
                    statuses,
                    shorter(signatures.len(), statuses.len()),
                ),
                None => Seq::empty(),
            };
            if let Some(statuses) = reply {
                lemma_settle_keeps(
                    s,
                    signatures,
                    statuses,
                    shorter(signatures.len(), statuses.len()),
                );
                assert forall|i: int| 0 <= i < settled.pending.len() implies submittable(
                    (#[trigger] settled.pending[i]).message,
                    signers,
                ) by {
                    let j = choose|j: int| 0 <= j < s.pending.len() && s.pending[j]
                        == settled.pending[i];
                    assert(submittable(s.pending[j].message, signers));
                }
            }
            lemma_ask_statuses_keeps(
                settled,
                told.push(
                    settled.progress(Some(settled.block_height), "Checking transaction status..."@),
                ),
                s.query_end(from as nat),
                signers,
            );
        },
        _ => {},
    }
}

/// The action asks for what is waited for.
spec fn asks_for(action: ActionView, phase: Phase) -> bool {
    match phase {
        Phase::Starting => action is GetBlockHeight,
        Phase::AwaitingBlockhash => action is GetLatestBlockhash,
        Phase::ArmingTimer => action is ReadClock,
        Phase::CheckingTimer => action is ReadClock,
        Phase::SendingToLeader(_) => action is SendToLeader,
        Phase::SendingToRpc(_) => action is SendToRpc,
        Phase::StampingTimer => action is ReadClock,
        Phase::AwaitingBlock(_) => action is GetBlockHeight,
        Phase::AwaitingStatuses(_) => action is GetSignatureStatuses,
        Phase::Finished => action is Finish,
    }
}

/// Going on after a status request, or without one, asks for what is then waited for.
proof fn lemma_ask_statuses_asks(s: SubmissionView, notices: Seq<NoticeView>, from: nat)
    ensures
        asks_for(s.ask_statuses(notices, from).1.action, s.ask_statuses(notices, from).0.phase),
{
}

/// Every step asks for what it then waits for.
#[verifier::rlimit(40)]
proof fn lemma_asks(s: SubmissionView, signers: Seq<KeypairView>, event: EventView)
    requires
        s.phase.expects(event),
    ensures
        asks_for(s.next(signers, event).1.action, s.next(signers, event).0.phase),
{
    match (s.phase, event) {
        (Phase::AwaitingBlock(_), EventView::BlockHeight(Ok(height))) => {
            let seen = SubmissionView { block_height: height, queried: ids_of(s.pending), ..s };
            lemma_ask_statuses_asks(seen, Seq::empty(), 0);
        },
        (Phase::AwaitingStatuses(from), EventView::Statuses(reply)) => {
            let signatures = s.queried.subrange(from as int, s.query_end(from as nat) as int);
            let (settled, told) = match reply {
                Some(statuses) => {
                    let n = shorter(signatures.len(), statuses.len());
                    (s.settle(signatures, statuses, n), s.told(signatures, statuses, n))
                },
                None => (s, Seq::empty()),
            };
            lemma_ask_statuses_asks(
                settled,
                told.push(
                    settled.progress(Some(settled.block_height), "Checking transaction status..."@),
                ),
                s.query_end(from as nat),
            );
        },
        _ => {},
    }
}

/// What is waited for after a step is what comes of the action that the step asks for.
#[verifier::rlimit(40)]
pub proof fn law_action_is_awaited(
    s: SubmissionView,
    signers: Seq<KeypairView>,
    event: EventView,
    next_event: EventView,
)
    requires
        s.well_formed(),
        s.phase.expects(event),
    ensures
        s.next(signers, event).0.phase.expects(next_event) <==> s.next(
            signers,
            event,
        ).1.action.answered_by(next_event),
{
    lemma_asks(s, signers, event);
    let after = s.next(signers, event).0.phase;
    let action = s.next(signers, event).1.action;
    assert(asks_for(action, after) ==> (after.expects(next_event) <==> action.answered_by(
        next_event,
    )));
}

/// What is waited for at first is what comes of the first action.
pub proof fn law_first_action_is_awaited(
    messages: Seq<MessageView>,
    batch_size: usize,
    event: EventView,
)
    ensures
        ({
            let (s, step) = SubmissionView::started(messages, batch_size);
            s.phase.expects(event) <==> step.action.answered_by(event)
        }),
{
}

/// A submission is over exactly when it says so.
#[verifier::rlimit(40)]
pub proof fn law_over_when_finished(
    s: SubmissionView,
    signers: Seq<KeypairView>,
    event: EventView,
)
    requires
        s.well_formed(),
        s.phase.expects(event),
    ensures
        s.next(signers, event).0.phase is Finished <==> s.next(signers, event).1.action is Finish,
{
}

/// Only pending transactions are sent, to the leader or to the RPC node.
#[verifier::rlimit(40)]
pub proof fn law_sends_only_pending(
    s: SubmissionView,
    signers: Seq<KeypairView>,
    event: EventView,
)
    requires
        s.well_formed(),
        s.phase.expects(event),
    ensures
        match s.next(signers, event).1.action {
            ActionView::SendToLeader(tx) => s.next(signers, event).0.pending.contains(tx),
            ActionView::SendToRpc(tx) => s.next(signers, event).0.pending.contains(tx),
            _ => true,
        },
{
    let after = s.next(signers, event).0;
    match after.phase {
        Phase::SendingToLeader(k) => {
            assert(after.pending == s.pending);
            assert(s.pending.contains(s.pending[k as int]));
        },
        Phase::SendingToRpc(k) => {
            assert(after.pending == s.pending);
            assert(s.pending.contains(s.pending[k as int]));
        },
        _ => {},
    }
}

/// A transaction that a status settles is no longer pending, and so is not sent again.
pub proof fn law_settled_is_not_pending(
    s: SubmissionView,
    signature: Signature,
    status: Option<SignatureStatusView>,
)
    requires
        s.well_formed(),
        settles(s.pending, signature, status),
    ensures
        !has_id(s.settle_one(signature, status).pending, signature),
{
    let after = s.settle_one(signature, status);
    let p = index_of_id(s.pending, signature);
    assert(id_at(s.pending, signature, p));
    assert forall|i: int| !id_at(after.pending, signature, i) by {
        if 0 <= i < after.pending.len() {
            let j = if i < p {
                i
            } else {
                i + 1
            };
            assert(after.pending[i] == s.pending[j]);
            assert(p < j ==> id(s.pending[p]) != id(s.pending[j]));
            assert(j < p ==> id(s.pending[j]) != id(s.pending[p]));
        }
    }
}

/// The pending transactions are sent only when more than the resend interval has passed since they
/// were all sent last.
pub proof fn law_sending_waits(s: SubmissionView, signers: Seq<KeypairView>, now: u64)
    requires
        s.well_formed(),
        s.phase is CheckingTimer,
    ensures
        s.next(signers, EventView::Clock(now)).1.action is SendToLeader <==> s.pending.len() > 0
            && now - s.last_resend > RESEND_INTERVAL_NANOS,
{
}

/// The time from which the next sending is reckoned is that at which all pending transactions had
/// been sent; after signing it is the resend interval before, so that they are sent at once.
/// Nothing else changes it.
#[verifier::rlimit(40)]
pub proof fn law_sending_is_reckoned(s: SubmissionView, signers: Seq<KeypairView>, event: EventView)
    requires
        s.well_formed(),
        s.phase.expects(event),
    ensures
        s.next(signers, event).0.last_resend == match (s.phase, event) {
            (Phase::StampingTimer, EventView::Clock(now)) => now as int,
            (Phase::ArmingTimer, EventView::Clock(now)) => now - RESEND_INTERVAL_NANOS,
            _ => s.last_resend,
        },
{
    if let (Phase::AwaitingStatuses(from), EventView::Statuses(Some(statuses))) = (s.phase, event) {
        let signatures = s.queried.subrange(from as int, s.query_end(from as nat) as int);
        lemma_settle_adds(
            s,
            signatures,
            statuses,
            shorter(signatures.len(), statuses.len()),
        );
    }
}

/// Taking note of statuses only adds results.
proof fn lemma_settle_adds(
    s: SubmissionView,
    signatures: Seq<Signature>,
    statuses: Seq<Option<SignatureStatusView>>,
    n: nat,
)
    ensures
        s.results.is_prefix_of(s.settle(signatures, statuses, n).results),
        s.settle(signatures, statuses, n).done == s.done,
        s.settle(signatures, statuses, n).rest == s.rest,
        s.settle(signatures, statuses, n).messages == s.messages,
        s.settle(signatures, statuses, n).batch_size == s.batch_size,
        s.settle(signatures, statuses, n).retries == s.retries,
        s.settle(signatures, statuses, n).last_resend == s.last_resend,
    decreases n,
{
    if n > 0 {
        lemma_settle_adds(s, signatures, statuses, (n - 1) as nat);
    }
}

/// The results of the batches that are finished, then those of the present one.
pub open spec fn results_so_far(s: SubmissionView) -> Seq<JibResultView> {
    s.done + s.results
}

/// No step changes or drops a result: those so far stay in front, also of what is handed out at
/// the end.
#[verifier::rlimit(40)]
pub proof fn law_results_are_kept(
    s: SubmissionView,
    signers: Seq<KeypairView>,
    event: EventView,
)
    requires
        s.well_formed(),
        s.phase.expects(event),
    ensures
        match s.next(signers, event).1.action {
            ActionView::Finish(Ok(results)) => results_so_far(s).is_prefix_of(results),
            _ => results_so_far(s).is_prefix_of(results_so_far(s.next(signers, event).0)),
        },
{
    let before = results_so_far(s);
    if let (Phase::AwaitingStatuses(from), EventView::Statuses(Some(statuses))) = (s.phase, event) {
        let signatures = s.queried.subrange(from as int, s.query_end(from as nat) as int);
        let n = shorter(signatures.len(), statuses.len());
        lemma_settle_adds(s, signatures, statuses, n);
        let settled = s.settle(signatures, statuses, n);
        assert(before.is_prefix_of(settled.done + settled.results));
        assert((settled.done + settled.results) + Seq::<JibResultView>::empty() =~= settled.done
            + settled.results);
    } else {
        assert(before + Seq::<JibResultView>::empty() =~= before);
    }
}

/// How many results there are, and how many messages may still lead to one.
pub open spec fn work(s: SubmissionView) -> nat {
    s.done.len() + s.results.len() + s.pending.len() + s.messages.len() + s.rest.len()
}

/// There are never more results than there were messages.
#[verifier::rlimit(40)]
pub proof fn law_no_work_is_added(
    s: SubmissionView,
    signers: Seq<KeypairView>,
    event: EventView,
)
    requires
        s.well_formed(),
        s.accepts(signers),
        s.phase.expects(event),
    ensures
        match s.next(signers, event).1.action {
            ActionView::Finish(Ok(results)) => results.len() <= work(s),
            _ => work(s.next(signers, event).0) <= work(s),
        },
{
    match (s.phase, event) {
        (Phase::AwaitingBlockhash, EventView::Blockhash(Ok((blockhash, last_valid)))) => {
            lemma_round(s.messages, signers, blockhash);
        },
        (Phase::AwaitingStatuses(from), EventView::Statuses(Some(statuses))) => {
            let signatures = s.queried.subrange(from as int, s.query_end(from as nat) as int);
            let n = shorter(signatures.len(), statuses.len());
            lemma_settle_keeps(s, signatures, statuses, n);
        },
        _ => {},
    }
}

/// A batch begins with the next messages, at most as many as the batch size and at least one;
/// until then, and while it lasts, the messages of the later batches stay as they are.
#[verifier::rlimit(40)]
pub proof fn law_batches_follow(s: SubmissionView, signers: Seq<KeypairView>, event: EventView)
    requires
        s.well_formed(),
        s.phase.expects(event),
    ensures
        s.next(signers, event).0.batch_size == s.batch_size,
        if s.next(signers, event).0.phase is Starting {
            let after = s.next(signers, event).0;
            &&& after.messages + after.rest == s.rest
            &&& 0 < after.messages.len() <= s.batch_size
            &&& after.total == after.messages.len()
        } else {
            s.next(signers, event).0.rest == s.rest
        },
{
    if let (Phase::AwaitingStatuses(from), EventView::Statuses(Some(statuses))) = (s.phase, event) {
        let signatures = s.queried.subrange(from as int, s.query_end(from as nat) as int);
        lemma_settle_adds(
            s,
            signatures,
            statuses,
            shorter(signatures.len(), statuses.len()),
        );
    }
    let after = s.next(signers, event).0;
    if after.phase is Starting {
        assert(after.messages + after.rest =~= s.rest);
    }
}

/// A batch starts with the number of blockhashes that may be tried. Each time one has expired there
/// is one less, and another is asked for, or the submission fails after the last. Nothing else
/// changes the number.
#[verifier::rlimit(40)]
pub proof fn law_blockhashes_are_counted(
    s: SubmissionView,
    signers: Seq<KeypairView>,
    event: EventView,
)
    requires
        s.well_formed(),
        s.phase.expects(event),
    ensures
        ({
            let (after, step) = s.next(signers, event);
            let again = step.action is GetLatestBlockhash && !(s.phase is Starting);
            let gives_up = step.action == ActionView::Finish(
                Err::<Seq<JibResultView>, SendErrorView>(
                    SendErrorView::Custom("Max retries exceeded"@),
                ),
            );
            if after.phase is Starting {
                after.retries == MAX_BLOCKHASHES
            } else if again {
                after.retries + 1 == s.retries && after.retries > 0
            } else if gives_up {
                s.retries == 1 && after.retries == 0
            } else {
                after.retries == s.retries
            }
        }),
{
    if let (Phase::AwaitingStatuses(from), EventView::Statuses(Some(statuses))) = (s.phase, event) {
        let signatures = s.queried.subrange(from as int, s.query_end(from as nat) as int);
        lemma_settle_adds(
            s,
            signatures,
            statuses,
            shorter(signatures.len(), statuses.len()),
        );
    }
}

/// Statuses are asked for in parts that the RPC node accepts, one after the other.
#[verifier::rlimit(40)]
pub proof fn law_status_queries_are_small(
    s: SubmissionView,
    signers: Seq<KeypairView>,
    event: EventView,
)
    requires
        s.well_formed(),
        s.phase.expects(event),
    ensures
        s.next(signers, event).1.action matches ActionView::GetSignatureStatuses(signatures) ==> {
            let after = s.next(signers, event).0;
            let from: int = if s.phase is AwaitingStatuses {
                s.query_end(s.phase->AwaitingStatuses_0 as nat) as int
            } else {
                0
            };
            &&& 0 < signatures.len() <= MAX_STATUS_QUERY
            &&& from + signatures.len() <= after.queried.len()
            &&& signatures == after.queried.subrange(from, from + signatures.len())
        },
{
    if let (Phase::AwaitingStatuses(from), EventView::Statuses(Some(statuses))) = (s.phase, event) {
        let signatures = s.queried.subrange(from as int, s.query_end(from as nat) as int);
        lemma_settle_keeps(
            s,
            signatures,
            statuses,
            shorter(signatures.len(), statuses.len()),
        );
    }
}

} // verus!
