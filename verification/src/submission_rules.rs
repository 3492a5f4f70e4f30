//! The rules that every step of a submission keeps to.
use vstd::prelude::*;

use crate::error::{SendErrorView, SignerError};
use crate::keypair::KeypairView;
use crate::model::{Blockhash, MessageView, Signature, TransactionView};
use crate::outcome::JibResultView;
use crate::pending::{identified, lemma_index_unique, lemma_round, lemma_with_transaction};
use crate::progress::{expired_line, progress_line, sending_status, waiting_status};
use crate::sdk::{last_signer, sign_error, signature_of, signature_text};
use crate::signing::signed;
use crate::status::{ConfirmationStatus, SignatureStatusView};
use crate::submission_laws::{lemma_settle_keeps, lemma_settle_one_keeps};
use crate::submission_model::{
    ActionView, EventView, NoticeView, Phase, StepView, SubmissionView, has_id, id, id_at, ids_of,
    index_of_id, settles, shorter, signed_round, submittable, with_transaction,
};

verus! {

/// The transaction is the message, signed for a block: nothing but the blockhash is changed, and at
/// each position stands the signature, over the whole message, of the key at that position.
pub open spec fn signed_as(
    tx: TransactionView,
    message: MessageView,
    signers: Seq<KeypairView>,
    blockhash: Blockhash,
) -> bool {
    &&& tx.message.header == message.header
    &&& tx.message.account_keys == message.account_keys
    &&& tx.message.instructions == message.instructions
    &&& tx.message.recent_blockhash == blockhash
    &&& tx.signatures.len() == message.header.num_required_signatures
    &&& forall|p: int|
        0 <= p < tx.signatures.len() ==> #[trigger] tx.signatures[p] == signature_of(
            last_signer(signers, message.account_keys[p]).bytes,
            tx.message,
        )
}

/// The status is sure: the node calls it confirmed or finalized, or, where it does not tell, counts
/// more than one block since or none any more.
pub open spec fn sure(status: Option<SignatureStatusView>) -> bool {
    status matches Some(s) && match s.confirmation_status {
        Some(c) => c == ConfirmationStatus::Confirmed || c == ConfirmationStatus::Finalized,
        None => s.confirmations matches Some(n) ==> n > 1,
    }
}

/// The result is the outcome that the status tells of the transaction: a success with the text of
/// its signature if there is no error, and otherwise a failure with the transaction and the error.
pub open spec fn outcome_is(
    result: JibResultView,
    tx: TransactionView,
    status: SignatureStatusView,
) -> bool {
    match status.err {
        None => result == JibResultView::Success(signature_text(tx.signatures[0])),
        Some(e) => result == JibResultView::Failure(tx, e),
    }
}

/// One of the first `count` statuses is a sure one of the signature.
pub open spec fn sure_before(
    signatures: Seq<Signature>,
    statuses: Seq<Option<SignatureStatusView>>,
    count: int,
    signature: Signature,
) -> bool {
    exists|j: int|
        0 <= j < count && #[trigger] signatures[j] == signature && sure(statuses[j])
}

/// Status `j` brings a result: it is the first sure one of the signature of a pending transaction.
pub open spec fn brings_result(
    pending: Seq<TransactionView>,
    signatures: Seq<Signature>,
    statuses: Seq<Option<SignatureStatusView>>,
    j: int,
) -> bool {
    &&& sure(statuses[j])
    &&& exists|p: int|
        0 <= p < pending.len() && (#[trigger] pending[p]).signatures[0] == signatures[j]
    &&& !sure_before(signatures, statuses, j, signatures[j])
}

/// The positions, among the first `count`, of the statuses that bring a result.
pub open spec fn bringing(
    pending: Seq<TransactionView>,
    signatures: Seq<Signature>,
    statuses: Seq<Option<SignatureStatusView>>,
    count: nat,
) -> Seq<int> {
    Seq::new(count, |j: int| j).filter(
        |j: int| brings_result(pending, signatures, statuses, j),
    )
}

/// The first `count` statuses have been taken note of: the transactions with a sure status are no
/// longer pending, all others are; each status that brings a result has added the outcome that it
/// tells, in order; and each failure is told.
pub open spec fn noted(
    s: SubmissionView,
    signatures: Seq<Signature>,
    statuses: Seq<Option<SignatureStatusView>>,
    count: nat,
    t: SubmissionView,
    told: Seq<NoticeView>,
) -> bool {
    let hits = bringing(s.pending, signatures, statuses, count);
    &&& t == (SubmissionView { pending: t.pending, results: t.results, ..s })
    &&& identified(t.pending)
    &&& forall|tx: TransactionView| #[trigger]
        t.pending.contains(tx) <==> s.pending.contains(tx) && !sure_before(
            signatures,
            statuses,
            count as int,
            tx.signatures[0],
        )
    &&& t.results.len() == s.results.len() + hits.len()
    &&& s.results.is_prefix_of(t.results)
    &&& forall|m: int|
        0 <= m < hits.len() ==> exists|p: int|
            0 <= p < s.pending.len() && (#[trigger] s.pending[p]).signatures[0]
                == signatures[#[trigger] hits[m]] && outcome_is(
                t.results[s.results.len() + m],
                s.pending[p],
                statuses[hits[m]]->0,
            )
    &&& told == hits.filter(|j: int| statuses[j]->0.err is Some).map_values(
        |j: int| NoticeView::Line("Failed transaction: "@ + statuses[j]->0.description),
    )
}

/// The pending transactions are gone on with, or signed again. While the block height is not above
/// the last at which the blockhash is valid, the clock is read. Once it is, that is told, all
/// pending messages are to be signed again, and one blockhash less may be tried: another is asked
/// for, or the submission fails after the last.
pub open spec fn goes_on(
    t: SubmissionView,
    notices: Seq<NoticeView>,
    after: SubmissionView,
    step: StepView,
) -> bool {
    if t.block_height <= t.last_valid {
        &&& after == (SubmissionView { phase: Phase::CheckingTimer, ..t })
        &&& step == (StepView { notices, pause_millis: 0, action: ActionView::ReadClock })
    } else {
        &&& after == (SubmissionView {
            messages: after.messages,
            pending: Seq::empty(),
            retries: after.retries,
            phase: after.phase,
            ..t
        })
        &&& after.messages.len() == t.pending.len()
        &&& forall|k: int|
            0 <= k < t.pending.len() ==> #[trigger] after.messages[k] == t.pending[k].message
        &&& after.retries + 1 == t.retries
        &&& step.notices == notices.push(NoticeView::Line(expired_line(t.retries as nat)))
        &&& step.pause_millis == 0
        &&& t.retries > 1 ==> after.phase is AwaitingBlockhash && step.action
            == ActionView::GetLatestBlockhash
        &&& t.retries <= 1 ==> after.phase is Finished && step.action == ActionView::Finish(
            Err(SendErrorView::Custom("Max retries exceeded"@)),
        )
    }
}

/// The next batch begins: the next messages, as many as a batch may have or all that are left, with
/// five blockhashes to be tried. If no message is left, the submission ends with all the results.
pub open spec fn batch_begins(
    t: SubmissionView,
    notices: Seq<NoticeView>,
    after: SubmissionView,
    step: StepView,
) -> bool {
    if t.rest.len() == 0 {
        &&& after == (SubmissionView { done: Seq::empty(), phase: Phase::Finished, ..t })
        &&& step == (StepView {
            notices,
            pause_millis: 0,
            action: ActionView::Finish(Ok(t.done)),
        })
    } else {
        &&& after == (SubmissionView {
            rest: after.rest,
            total: after.messages.len(),
            messages: after.messages,
            pending: Seq::empty(),
            results: Seq::empty(),
            retries: 5,
            queried: Seq::empty(),
            phase: Phase::Starting,
            ..t
        })
        &&& after.messages + after.rest == t.rest
        &&& after.messages.len() <= t.batch_size
        &&& after.messages.len() == t.batch_size || after.rest.len() == 0
        &&& step == (StepView {
            notices: notices.push(NoticeView::BatchStarted(after.messages.len())),
            pause_millis: 0,
            action: ActionView::GetBlockHeight,
        })
    }
}

/// The statuses of the signatures from `from` on are asked for, at most 256 at once. Where none is
/// left, the pending transactions are gone on with; where nothing is pending any more, the results
/// of the batch are put behind those before, and the next batch begins.
pub open spec fn asks_on(
    t: SubmissionView,
    notices: Seq<NoticeView>,
    from: int,
    after: SubmissionView,
    step: StepView,
) -> bool {
    let left = t.queried.len() - from;
    if left > 0 {
        &&& after == (SubmissionView { phase: Phase::AwaitingStatuses(from as usize), ..t })
        &&& step == (StepView {
            notices,
            pause_millis: 0,
            action: ActionView::GetSignatureStatuses(
                t.queried.subrange(
                    from,
                    from + if left > 256 {
                        256
                    } else {
                        left
                    },
                ),
            ),
        })
    } else if t.pending.len() > 0 {
        goes_on(t, notices, after, step)
    } else {
        batch_begins(
            (SubmissionView { done: t.done + t.results, results: Seq::empty(), ..t }),
            notices.push(NoticeView::BatchFinished(t.total)),
            after,
            step,
        )
    }
}

/// The next block is waited for: the block height is asked for after half a second, and may be
/// asked for nine times more.
pub open spec fn waits_for_block(
    t: SubmissionView,
    after: SubmissionView,
    step: StepView,
) -> bool {
    &&& after == (SubmissionView { phase: Phase::AwaitingBlock(9), ..t })
    &&& step == (StepView {
        notices: seq![
            NoticeView::Progress(
                t.results.len(),
                t.total,
                progress_line(
                    Some(t.block_height),
                    t.last_valid,
                    waiting_status(t.pending.len()),
                ),
            ),
        ],
        pause_millis: 500,
        action: ActionView::GetBlockHeight,
    })
}

/// Pending transaction `k` has been sent: that is shown, and after ten milliseconds the next one is
/// sent to the leader, or, after the last, the clock is read.
pub open spec fn has_sent(
    s: SubmissionView,
    k: int,
    after: SubmissionView,
    step: StepView,
) -> bool {
    &&& step.notices == seq![
        NoticeView::Progress(
            s.results.len(),
            s.total,
            progress_line(
                None,
                s.last_valid,
                sending_status((k + 1) as nat, s.pending.len()),
            ),
        ),
    ]
    &&& step.pause_millis == 10
    &&& if k + 1 < s.pending.len() {
        &&& after == (SubmissionView { phase: Phase::SendingToLeader((k + 1) as usize), ..s })
        &&& step.action == ActionView::SendToLeader(s.pending[k + 1])
    } else {
        &&& after == (SubmissionView { phase: Phase::StampingTimer, ..s })
        &&& step.action == ActionView::ReadClock
    }
}

/// An event is waited for exactly if it is of the kind that the phase names.
pub proof fn law_what_is_waited_for(phase: Phase, event: EventView)
    ensures
        phase.expects(event) <==> match event {
            EventView::BlockHeight(_) => phase is Starting || phase is AwaitingBlock,
            EventView::Blockhash(_) => phase is AwaitingBlockhash,
            EventView::Clock(_) => phase is ArmingTimer || phase is CheckingTimer
                || phase is StampingTimer,
            EventView::LeaderSent(_) => phase is SendingToLeader,
            EventView::RpcSent => phase is SendingToRpc,
            EventView::Statuses(_) => phase is AwaitingStatuses,
        },
{
}

/// An event comes of an action exactly if it is of the kind that the action asks for; nothing comes
/// of the last.
pub proof fn law_what_comes_of_an_action(action: ActionView, event: EventView)
    ensures
        action.answered_by(event) <==> match event {
            EventView::BlockHeight(_) => action is GetBlockHeight,
            EventView::Blockhash(_) => action is GetLatestBlockhash,
            EventView::Clock(_) => action is ReadClock,
            EventView::LeaderSent(_) => action is SendToLeader,
            EventView::RpcSent => action is SendToRpc,
            EventView::Statuses(_) => action is GetSignatureStatuses,
        },
{
}

/// A submission starts by telling how many messages there are, and with the first batch of them.
pub proof fn law_submission_starts(messages: Seq<MessageView>, batch_size: usize)
    requires
        batch_size > 0,
    ensures
        ({
            let (s, step) = SubmissionView::started(messages, batch_size);
            &&& s.messages + s.rest == messages
            &&& s.batch_size == batch_size
            &&& s.done.len() == 0 && s.results.len() == 0 && s.pending.len() == 0
            &&& s.messages.len() <= batch_size
            &&& s.messages.len() == batch_size || s.rest.len() == 0
            &&& s.total == s.messages.len()
            &&& s.retries == 5
            &&& step.pause_millis == 0
            &&& if messages.len() == 0 {
                &&& s.phase is Finished
                &&& step.notices == seq![NoticeView::Started(0)]
                &&& step.action == ActionView::Finish(Ok(Seq::empty()))
            } else {
                &&& s.phase is Starting
                &&& step.notices == seq![
                    NoticeView::Started(messages.len()),
                    NoticeView::BatchStarted(s.messages.len()),
                ]
                &&& step.action is GetBlockHeight
            }
        }),
{
    let (s, step) = SubmissionView::started(messages, batch_size);
    assert(s.messages + s.rest =~= messages);
}

/// A request for the block height or a blockhash that fails ends the submission with its reason.
pub proof fn law_failed_request_ends(
    s: SubmissionView,
    signers: Seq<KeypairView>,
    event: EventView,
    reason: Seq<char>,
)
    requires
        s.phase.expects(event),
        event == EventView::BlockHeight(Err(reason)) || event == EventView::Blockhash(Err(reason)),
    ensures
        s.next(signers, event).0 == (SubmissionView { phase: Phase::Finished, ..s }),
        s.next(signers, event).1 == (StepView {
            notices: Seq::empty(),
            pause_millis: 0,
            action: ActionView::Finish(Err(SendErrorView::Rpc(reason))),
        }),
{
}

/// At the start of a batch the block height is taken note of, and a blockhash is asked for.
pub proof fn law_batch_asks_for_blockhash(
    s: SubmissionView,
    signers: Seq<KeypairView>,
    height: u64,
)
    requires
        s.phase is Starting,
    ensures
        s.next(signers, EventView::BlockHeight(Ok(height))).0 == (SubmissionView {
            block_height: height,
            phase: Phase::AwaitingBlockhash,
            ..s
        }),
        s.next(signers, EventView::BlockHeight(Ok(height))).1 == (StepView {
            notices: Seq::empty(),
            pause_millis: 0,
            action: ActionView::GetLatestBlockhash,
        }),
{
}

/// A message that is signed is as it was but for the blockhash, and bears the signatures of its
/// keys.
pub proof fn law_signed(message: MessageView, signers: Seq<KeypairView>, blockhash: Blockhash)
    ensures
        signed_as(signed(message, signers, blockhash), message, signers, blockhash),
{
}

/// What a round of signing gives.
pub(crate) proof fn lemma_round_rule(
    messages: Seq<MessageView>,
    signers: Seq<KeypairView>,
    blockhash: Blockhash,
)
    requires
        forall|k: int| 0 <= k < messages.len() ==> submittable(#[trigger] messages[k], signers),
    ensures
        match signed_round(messages, signers, blockhash) {
            Ok(pending) => round_signed(messages, signers, blockhash, pending),
            Err(e) => round_refused(messages, signers, e),
        },
    decreases messages.len(),
{
    if messages.len() > 0 {
        let less = messages.drop_last();
        assert forall|k: int| 0 <= k < less.len() implies submittable(
            #[trigger] less[k],
            signers,
        ) by {
            assert(less[k] == messages[k]);
        }
        lemma_round_rule(less, signers, blockhash);
        let n = messages.len() - 1;
        match signed_round(less, signers, blockhash) {
            Err(e) => {
                lemma_still_refused(messages, signers, e);
            },
            Ok(before) => {
                if sign_error(messages[n], signers) is Some {
                    assert(first_unsigned(messages, signers, n)) by {
                        assert forall|k: int| 0 <= k < n implies sign_error(
                            #[trigger] messages[k],
                            signers,
                        ) is None by {
                            assert(less[k] == messages[k]);
                        }
                    }
                } else {
                    assert(identified(before)) by {
                        lemma_round(less, signers, blockhash);
                    }
                    lemma_round_adds(messages, signers, blockhash, before);
                }
            },
        }
    }
}

/// One message more does not undo an error.
proof fn lemma_still_refused(
    messages: Seq<MessageView>,
    signers: Seq<KeypairView>,
    e: SignerError,
)
    requires
        messages.len() > 0,
        round_refused(messages.drop_last(), signers, e),
    ensures
        round_refused(messages, signers, e),
{
    let less = messages.drop_last();
    let k = choose|k: int|
        0 <= k < less.len() && #[trigger] first_unsigned(less, signers, k) && sign_error(
            less[k],
            signers,
        ) == Some(e);
    assert(messages[k] == less[k]);
    assert forall|j: int| 0 <= j < k implies sign_error(
        #[trigger] messages[j],
        signers,
    ) is None by {
        assert(less[j] == messages[j]);
    }
    assert(first_unsigned(messages, signers, k));
}

/// One message more keeps to the rule.
proof fn lemma_round_adds(
    messages: Seq<MessageView>,
    signers: Seq<KeypairView>,
    blockhash: Blockhash,
    before: Seq<TransactionView>,
)
    requires
        messages.len() > 0,
        identified(before),
        round_signed(messages.drop_last(), signers, blockhash, before),
        submittable(messages.last(), signers),
        sign_error(messages.last(), signers) is None,
    ensures
        round_signed(
            messages,
            signers,
            blockhash,
            with_transaction(before, signed(messages.last(), signers, blockhash)),
        ),
{
    let less = messages.drop_last();
    let n = messages.len() - 1;
    let tx = signed(messages[n], signers, blockhash);
    let pending = with_transaction(before, tx);
    law_signed(messages[n], signers, blockhash);
    lemma_with_transaction(before, tx);
    let place = lemma_place(before, tx);
    assert forall|k: int| 0 <= k < messages.len() implies sign_error(
        #[trigger] messages[k],
        signers,
    ) is None && represented(pending, messages[k], signers, blockhash) by {
        if k < n {
            assert(less[k] == messages[k]);
            assert(represented(before, less[k], signers, blockhash));
            let p = choose|p: int|
                0 <= p < before.len() && same_first_signature(
                    #[trigger] before[p],
                    less[k],
                    signers,
                    blockhash,
                );
            assert(same_first_signature(pending[p], messages[k], signers, blockhash));
        } else {
            assert(tx.message =~= (MessageView { recent_blockhash: blockhash, ..messages[k] }));
            assert(same_first_signature(pending[place], messages[k], signers, blockhash));
        }
    }
    assert forall|p: int, q: int| 0 <= p < q < pending.len() implies (
    #[trigger] pending[p]).signatures[0] != (#[trigger] pending[q]).signatures[0] by {
        assert(id(pending[p]) != id(pending[q]));
    }
    assert forall|p: int| 0 <= p < pending.len() implies is_one_signed(
        #[trigger] pending[p],
        messages,
        signers,
        blockhash,
    ) by {
        if p == place {
            assert(is_last_signed(pending[p], messages, n, signers, blockhash));
        } else {
            assert(pending[p] == before[p]);
            assert(is_one_signed(before[p], less, signers, blockhash));
            let k = choose|k: int|
                0 <= k < less.len() && #[trigger] is_last_signed(
                    before[p],
                    less,
                    k,
                    signers,
                    blockhash,
                );
            assert(less[k] == messages[k]);
            assert forall|j: int| k < j < messages.len() implies !same_first_signature(
                pending[p],
                #[trigger] messages[j],
                signers,
                blockhash,
            ) by {
                if j < n {
                    assert(less[j] == messages[j]);
                } else {
                    assert(tx.message =~= (MessageView {
                        recent_blockhash: blockhash,
                        ..messages[n]
                    }));
                    assert(pending[p].signatures[0] != pending[place].signatures[0]);
                }
            }
            assert(is_last_signed(pending[p], messages, k, signers, blockhash));
        }
    }
}

/// Where a transaction that is added stands; all others stay where they are.
proof fn lemma_place(before: Seq<TransactionView>, tx: TransactionView) -> (place: int)
    ensures
        0 <= place < with_transaction(before, tx).len(),
        before.len() <= with_transaction(before, tx).len(),
        with_transaction(before, tx).len() <= before.len() + 1,
        with_transaction(before, tx)[place] == tx,
        place < before.len() ==> before[place].signatures[0] == tx.signatures[0],
        forall|p: int|
            0 <= p < with_transaction(before, tx).len() && p != place ==> p < before.len()
                && #[trigger] with_transaction(before, tx)[p] == before[p],
{
    if has_id(before, id(tx)) {
        let place = index_of_id(before, id(tx));
        assert(id_at(before, id(tx), place));
        place
    } else {
        before.len() as int
    }
}

/// The transaction has the first signature that the message gets.
pub open spec fn same_first_signature(
    tx: TransactionView,
    message: MessageView,
    signers: Seq<KeypairView>,
    blockhash: Blockhash,
) -> bool {
    tx.signatures[0] == signature_of(
        last_signer(signers, message.account_keys[0]).bytes,
        MessageView { recent_blockhash: blockhash, ..message },
    )
}

/// One of the transactions has the first signature that the message gets.
pub open spec fn represented(
    pending: Seq<TransactionView>,
    message: MessageView,
    signers: Seq<KeypairView>,
    blockhash: Blockhash,
) -> bool {
    exists|p: int|
        0 <= p < pending.len() && same_first_signature(
            #[trigger] pending[p],
            message,
            signers,
            blockhash,
        )
}

/// The transaction is message `k`, signed, and no later message gets its first signature.
pub open spec fn is_last_signed(
    tx: TransactionView,
    messages: Seq<MessageView>,
    k: int,
    signers: Seq<KeypairView>,
    blockhash: Blockhash,
) -> bool {
    &&& signed_as(tx, messages[k], signers, blockhash)
    &&& forall|j: int|
        k < j < messages.len() ==> !same_first_signature(
            tx,
            #[trigger] messages[j],
            signers,
            blockhash,
        )
}

/// The transaction is one of the messages, signed: the last of those that get its first signature.
pub open spec fn is_one_signed(
    tx: TransactionView,
    messages: Seq<MessageView>,
    signers: Seq<KeypairView>,
    blockhash: Blockhash,
) -> bool {
    exists|k: int|
        0 <= k < messages.len() && #[trigger] is_last_signed(tx, messages, k, signers, blockhash)
}

/// Message `k` is the first that cannot be signed.
pub open spec fn first_unsigned(
    messages: Seq<MessageView>,
    signers: Seq<KeypairView>,
    k: int,
) -> bool {
    &&& sign_error(messages[k], signers) is Some
    &&& forall|j: int| 0 <= j < k ==> sign_error(#[trigger] messages[j], signers) is None
}

/// The transactions are what comes of signing the messages: each is one of the messages, signed, no
/// two have the same first signature, and one has that of each message.
pub open spec fn round_signed(
    messages: Seq<MessageView>,
    signers: Seq<KeypairView>,
    blockhash: Blockhash,
    pending: Seq<TransactionView>,
) -> bool {
    &&& forall|k: int|
        0 <= k < messages.len() ==> sign_error(#[trigger] messages[k], signers) is None
    &&& forall|k: int|
        0 <= k < messages.len() ==> represented(
            pending,
            #[trigger] messages[k],
            signers,
            blockhash,
        )
    &&& forall|p: int|
        0 <= p < pending.len() ==> is_one_signed(
            #[trigger] pending[p],
            messages,
            signers,
            blockhash,
        )
    &&& forall|p: int, q: int|
        0 <= p < q < pending.len() ==> (#[trigger] pending[p]).signatures[0] != (
        #[trigger] pending[q]).signatures[0]
}

/// The error is that of the first message that cannot be signed.
pub open spec fn round_refused(
    messages: Seq<MessageView>,
    signers: Seq<KeypairView>,
    e: SignerError,
) -> bool {
    exists|k: int|
        0 <= k < messages.len() && #[trigger] first_unsigned(messages, signers, k) && sign_error(
            messages[k],
            signers,
        ) == Some(e)
}

/// With a blockhash all messages of the round are signed, or the error of the first that cannot be
/// signed ends the submission. Every message then has its first signature among the pending
/// transactions, and these are the messages of the round, signed.
pub proof fn law_blockhash_signs(
    s: SubmissionView,
    signers: Seq<KeypairView>,
    blockhash: Blockhash,
    last_valid: u64,
)
    requires
        s.well_formed(),
        s.accepts(signers),
        s.phase is AwaitingBlockhash,
    ensures
        ({
            let (after, step) = s.next(
                signers,
                EventView::Blockhash(Ok((blockhash, last_valid))),
            );
            &&& step.notices.len() == 0 && step.pause_millis == 0
            &&& match step.action {
                ActionView::Finish(Err(SendErrorView::Signer(e))) => after == (SubmissionView {
                    phase: Phase::Finished,
                    ..s
                }) && round_refused(s.messages, signers, e),
                action => action is ReadClock && after == (SubmissionView {
                    messages: Seq::empty(),
                    pending: after.pending,
                    last_valid,
                    phase: Phase::ArmingTimer,
                    ..s
                }) && round_signed(s.messages, signers, blockhash, after.pending),
            }
        }),
{
    lemma_round_rule(s.messages, signers, blockhash);
}

/// Once the messages are signed, the next sending is due at once, and the submission goes on.
pub proof fn law_sending_is_due(s: SubmissionView, signers: Seq<KeypairView>, now: u64)
    requires
        s.well_formed(),
        s.phase is ArmingTimer,
    ensures
        goes_on(
            (SubmissionView { last_resend: now - 4_000_000_000, ..s }),
            Seq::empty(),
            s.next(signers, EventView::Clock(now)).0,
            s.next(signers, EventView::Clock(now)).1,
        ),
{
    let t = SubmissionView { last_resend: now - 4_000_000_000, ..s };
    lemma_goes_on(t, Seq::empty());
}

/// Going on keeps to its rule.
proof fn lemma_goes_on(t: SubmissionView, notices: Seq<NoticeView>)
    requires
        t.retries > 0,
    ensures
        goes_on(t, notices, t.resume(notices).0, t.resume(notices).1),
{
}

/// The pending transactions are sent, from the first on, when more than four seconds have passed;
/// otherwise the next block is waited for.
pub proof fn law_clock_decides(s: SubmissionView, signers: Seq<KeypairView>, now: u64)
    requires
        s.phase is CheckingTimer,
    ensures
        ({
            let (after, step) = s.next(signers, EventView::Clock(now));
            if now - s.last_resend <= 4_000_000_000 {
                waits_for_block(s, after, step)
            } else if s.pending.len() > 0 {
                &&& after == (SubmissionView { phase: Phase::SendingToLeader(0), ..s })
                &&& step == (StepView {
                    notices: Seq::empty(),
                    pause_millis: 0,
                    action: ActionView::SendToLeader(s.pending[0]),
                })
            } else {
                &&& after == (SubmissionView { phase: Phase::StampingTimer, ..s })
                &&& step == (StepView {
                    notices: Seq::empty(),
                    pause_millis: 0,
                    action: ActionView::ReadClock,
                })
            }
        }),
{
}

/// A transaction that the leader does not take is sent to the RPC node; then, or if the leader
/// takes it, the next one has its turn.
pub proof fn law_each_is_sent(s: SubmissionView, signers: Seq<KeypairView>, k: usize, taken: bool)
    requires
        s.well_formed(),
        s.phase == Phase::SendingToLeader(k),
    ensures
        ({
            let (after, step) = s.next(signers, EventView::LeaderSent(taken));
            if taken {
                has_sent(s, k as int, after, step)
            } else {
                &&& after == (SubmissionView { phase: Phase::SendingToRpc(k), ..s })
                &&& step == (StepView {
                    notices: Seq::empty(),
                    pause_millis: 0,
                    action: ActionView::SendToRpc(s.pending[k as int]),
                })
            }
        }),
{
}

/// After a transaction was sent to the RPC node, the next one has its turn.
pub proof fn law_rpc_node_is_second(s: SubmissionView, signers: Seq<KeypairView>, k: usize)
    requires
        s.well_formed(),
        s.phase == Phase::SendingToRpc(k),
    ensures
        has_sent(
            s,
            k as int,
            s.next(signers, EventView::RpcSent).0,
            s.next(signers, EventView::RpcSent).1,
        ),
{
}

/// When all are sent, the time is taken note of, and the next block is waited for.
pub proof fn law_sending_is_stamped(s: SubmissionView, signers: Seq<KeypairView>, now: u64)
    requires
        s.phase is StampingTimer,
    ensures
        waits_for_block(
            (SubmissionView { last_resend: now as int, ..s }),
            s.next(signers, EventView::Clock(now)).0,
            s.next(signers, EventView::Clock(now)).1,
        ),
{
}

/// Asking on keeps to its rule.
proof fn lemma_asks_on(t: SubmissionView, notices: Seq<NoticeView>, from: nat)
    requires
        t.retries > 0,
        t.batch_size > 0,
        t.queried.len() <= usize::MAX,
        from <= t.queried.len(),
    ensures
        asks_on(
            t,
            notices,
            from as int,
            t.ask_statuses(notices, from).0,
            t.ask_statuses(notices, from).1,
        ),
{
    let (after, step) = t.ask_statuses(notices, from);
    if from >= t.queried.len() {
        if t.pending.len() > 0 {
            lemma_goes_on(t, notices);
        } else if t.rest.len() > 0 {
            assert(after.messages + after.rest =~= t.rest);
        }
    }
}

/// While the block height has not changed it is asked for again, as often as it may be. Then it is
/// taken note of, and the statuses of the first signature of every pending transaction are asked
/// for.
pub proof fn law_block_is_seen(
    s: SubmissionView,
    signers: Seq<KeypairView>,
    refreshes: u32,
    height: u64,
)
    requires
        s.well_formed(),
        s.phase == Phase::AwaitingBlock(refreshes),
    ensures
        ({
            let (after, step) = s.next(signers, EventView::BlockHeight(Ok(height)));
            if height == s.block_height && refreshes > 0 {
                &&& after == (SubmissionView {
                    phase: Phase::AwaitingBlock((refreshes - 1) as u32),
                    ..s
                })
                &&& step == (StepView {
                    notices: Seq::empty(),
                    pause_millis: 500,
                    action: ActionView::GetBlockHeight,
                })
            } else {
                asks_on(
                    (SubmissionView {
                        block_height: height,
                        queried: Seq::new(
                            s.pending.len(),
                            |k: int| s.pending[k].signatures[0],
                        ),
                        ..s
                    }),
                    Seq::empty(),
                    0,
                    after,
                    step,
                )
            }
        }),
{
    let queried = Seq::new(s.pending.len(), |k: int| s.pending[k].signatures[0]);
    assert(queried =~= ids_of(s.pending));
    let t = SubmissionView { block_height: height, queried, ..s };
    lemma_asks_on(t, Seq::empty(), 0);
}

/// What one status more brings.
proof fn lemma_bringing_step(
    pending: Seq<TransactionView>,
    signatures: Seq<Signature>,
    statuses: Seq<Option<SignatureStatusView>>,
    count: nat,
)
    ensures
        bringing(pending, signatures, statuses, count + 1) == (if brings_result(
            pending,
            signatures,
            statuses,
            count as int,
        ) {
            bringing(pending, signatures, statuses, count).push(count as int)
        } else {
            bringing(pending, signatures, statuses, count)
        }),
{
    let pred = |j: int| brings_result(pending, signatures, statuses, j);
    let first = Seq::new(count, |j: int| j);
    assert(Seq::new(count + 1, |j: int| j) =~= first.push(count as int));
    first.lemma_filter_push(count as int, pred);
}

/// Before any status nothing is brought.
proof fn lemma_bringing_none(
    pending: Seq<TransactionView>,
    signatures: Seq<Signature>,
    statuses: Seq<Option<SignatureStatusView>>,
)
    ensures
        bringing(pending, signatures, statuses, 0).len() == 0,
{
    Seq::new(0, |j: int| j).lemma_filter_len(
        |j: int| brings_result(pending, signatures, statuses, j),
    );
}

/// What is told of one status more.
proof fn lemma_told_push(
    statuses: Seq<Option<SignatureStatusView>>,
    hits: Seq<int>,
    j: int,
)
    ensures
        told_lines(statuses, hits.push(j)) == (if statuses[j]->0.err is Some {
            told_lines(statuses, hits).push(
                NoticeView::Line("Failed transaction: "@ + statuses[j]->0.description),
            )
        } else {
            told_lines(statuses, hits)
        }),
{
    let pred = |j: int| statuses[j]->0.err is Some;
    hits.lemma_filter_push(j, pred);
    if statuses[j]->0.err is Some {
        assert(told_lines(statuses, hits.push(j)) =~= told_lines(statuses, hits).push(
            NoticeView::Line("Failed transaction: "@ + statuses[j]->0.description),
        ));
    }
}

/// The lines on the failures among the statuses at these positions.
pub open spec fn told_lines(
    statuses: Seq<Option<SignatureStatusView>>,
    hits: Seq<int>,
) -> Seq<NoticeView> {
    hits.filter(|j: int| statuses[j]->0.err is Some).map_values(
        |j: int| NoticeView::Line("Failed transaction: "@ + statuses[j]->0.description),
    )
}

/// Taking note of statuses keeps to its rule.
#[verifier::rlimit(60)]
proof fn lemma_noted(
    s: SubmissionView,
    signatures: Seq<Signature>,
    statuses: Seq<Option<SignatureStatusView>>,
    count: nat,
)
    requires
        identified(s.pending),
    ensures
        noted(
            s,
            signatures,
            statuses,
            count,
            s.settle(signatures, statuses, count),
            s.told(signatures, statuses, count),
        ),
    decreases count,
{
    let t = s.settle(signatures, statuses, count);
    let told = s.told(signatures, statuses, count);
    if count == 0 {
        lemma_bringing_none(s.pending, signatures, statuses);
        let hits = bringing(s.pending, signatures, statuses, 0);
        assert(hits =~= Seq::empty());
        hits.lemma_filter_len(|j: int| statuses[j]->0.err is Some);
        assert(told =~= told_lines(statuses, hits));
    } else {
        let m = (count - 1) as nat;
        let j = m as int;
        lemma_noted(s, signatures, statuses, m);
        let before = s.settle(signatures, statuses, m);
        let hits = bringing(s.pending, signatures, statuses, m);
        lemma_bringing_step(s.pending, signatures, statuses, m);
        lemma_hit(s, signatures, statuses, m);
        lemma_settle_one_keeps(before, signatures[j], statuses[j]);
        lemma_told_push(statuses, hits, j);
        assert(told_lines(statuses, hits) == s.told(signatures, statuses, m));
        if brings_result(s.pending, signatures, statuses, j) {
            let p = index_of_id(before.pending, signatures[j]);
            assert(id_at(before.pending, signatures[j], p));
            let tx = before.pending[p];
            assert(before.pending.contains(tx));
            let o = choose|o: int| 0 <= o < s.pending.len() && s.pending[o] == tx;
            let more = hits.push(j);
            assert(t.results == before.results.push(t.results.last()));
            assert(outcome_is(t.results.last(), tx, statuses[j]->0));
            assert forall|i: int| 0 <= i < more.len() implies exists|p: int|
                0 <= p < s.pending.len() && (#[trigger] s.pending[p]).signatures[0]
                    == signatures[#[trigger] more[i]] && outcome_is(
                    t.results[s.results.len() + i],
                    s.pending[p],
                    statuses[more[i]]->0,
                ) by {
                if i < hits.len() {
                    assert(more[i] == hits[i]);
                    assert(t.results[s.results.len() + i] == before.results[s.results.len() + i]);
                } else {
                    assert(s.pending[o].signatures[0] == signatures[more[i]]);
                }
            }
            lemma_removed(before.pending, signatures[j]);
        }
        assert forall|tx: TransactionView| #[trigger]
            t.pending.contains(tx) <==> s.pending.contains(tx) && !sure_before(
                signatures,
                statuses,
                count as int,
                tx.signatures[0],
            ) by {
            assert(before.pending.contains(tx) <==> s.pending.contains(tx) && !sure_before(
                signatures,
                statuses,
                j,
                tx.signatures[0],
            ));
            lemma_sure_step(signatures, statuses, j, tx.signatures[0]);
            if before.pending.contains(tx) && !settles(before.pending, signatures[j], statuses[j])
                && sure(statuses[j]) && signatures[j] == tx.signatures[0] {
                let q = choose|q: int| 0 <= q < before.pending.len() && before.pending[q] == tx;
                assert(id_at(before.pending, signatures[j], q));
            }
        }
        assert(told =~= told_lines(
            statuses,
            bringing(s.pending, signatures, statuses, count),
        ));
    }
}

proof fn lemma_sure_step(
    signatures: Seq<Signature>,
    statuses: Seq<Option<SignatureStatusView>>,
    j: int,
    signature: Signature,
)
    requires
        j >= 0,
    ensures
        sure_before(signatures, statuses, j + 1, signature) <==> sure_before(
            signatures,
            statuses,
            j,
            signature,
        ) || (signatures[j] == signature && sure(statuses[j])),
{
    if sure_before(signatures, statuses, j + 1, signature) {
        let q = choose|q: int|
            0 <= q < j + 1 && #[trigger] signatures[q] == signature && sure(statuses[q]);
        if q < j {
            assert(signatures[q] == signature);
        }
    }
    if signatures[j] == signature && sure(statuses[j]) {
        assert(sure_before(signatures, statuses, j + 1, signature));
    }
}

/// A status settles a transaction exactly if it brings a result.
proof fn lemma_hit(
    s: SubmissionView,
    signatures: Seq<Signature>,
    statuses: Seq<Option<SignatureStatusView>>,
    m: nat,
)
    requires
        identified(s.pending),
        noted(
            s,
            signatures,
            statuses,
            m,
            s.settle(signatures, statuses, m),
            s.told(signatures, statuses, m),
        ),
    ensures
        settles(
            s.settle(signatures, statuses, m).pending,
            signatures[m as int],
            statuses[m as int],
        ) <==> brings_result(s.pending, signatures, statuses, m as int),
{
    let before = s.settle(signatures, statuses, m);
    let (signature, status) = (signatures[m as int], statuses[m as int]);
    if settles(before.pending, signature, status) {
        let p = index_of_id(before.pending, signature);
        assert(id_at(before.pending, signature, p));
        assert(before.pending.contains(before.pending[p]));
        let o = choose|o: int| 0 <= o < s.pending.len() && s.pending[o] == before.pending[p];
        assert(s.pending[o].signatures[0] == signature);
    }
    if brings_result(s.pending, signatures, statuses, m as int) {
        let o = choose|o: int|
            0 <= o < s.pending.len() && (#[trigger] s.pending[o]).signatures[0] == signature;
        assert(s.pending.contains(s.pending[o]));
        assert(before.pending.contains(s.pending[o]));
        let p = choose|p: int| 0 <= p < before.pending.len() && before.pending[p] == s.pending[o];
        assert(id_at(before.pending, signature, p));
    }
}

/// Removing the transaction that is known by a signature leaves all others.
proof fn lemma_removed(pending: Seq<TransactionView>, signature: Signature)
    requires
        identified(pending),
        has_id(pending, signature),
    ensures
        forall|tx: TransactionView| #[trigger]
            pending.remove(index_of_id(pending, signature)).contains(tx) <==> pending.contains(tx)
                && tx.signatures[0] != signature,
{
    let p = index_of_id(pending, signature);
    assert(id_at(pending, signature, p));
    let less = pending.remove(p);
    assert forall|tx: TransactionView| #[trigger] less.contains(tx) <==> pending.contains(tx)
        && tx.signatures[0] != signature by {
        if less.contains(tx) {
            let q = choose|q: int| 0 <= q < less.len() && less[q] == tx;
            let o = if q < p {
                q
            } else {
                q + 1
            };
            assert(pending[o] == tx);
            if tx.signatures[0] == signature {
                assert(id_at(pending, signature, o));
                lemma_index_unique(pending, signature, o);
            }
        }
        if pending.contains(tx) && tx.signatures[0] != signature {
            let o = choose|o: int| 0 <= o < pending.len() && pending[o] == tx;
            if o < p {
                assert(less[o] == tx);
            } else {
                assert(less[o - 1] == tx);
            }
        }
    }
}

/// A reply is taken note of as far as it goes along the signatures that were asked for; that is
/// shown, and the next signatures are asked for. Where the request has failed, nothing is taken
/// note of.
#[verifier::rlimit(40)]
pub proof fn law_statuses_are_noted(
    s: SubmissionView,
    signers: Seq<KeypairView>,
    from: usize,
    reply: Option<Seq<Option<SignatureStatusView>>>,
) -> (t: (SubmissionView, Seq<NoticeView>))
    requires
        s.well_formed(),
        s.phase == Phase::AwaitingStatuses(from),
    ensures
        ({
            let left = s.queried.len() - from;
            let asked = if left > 256 {
                256
            } else {
                left
            };
            let (after, step) = s.next(signers, EventView::Statuses(reply));
            &&& match reply {
                Some(statuses) => noted(
                    s,
                    s.queried.subrange(from as int, from + asked),
                    statuses,
                    (if statuses.len() < asked {
                        statuses.len() as int
                    } else {
                        asked
                    }) as nat,
                    t.0,
                    t.1,
                ),
                None => t.0 == s && t.1.len() == 0,
            }
            &&& asks_on(
                t.0,
                t.1.push(
                    NoticeView::Progress(
                        t.0.results.len(),
                        s.total,
                        progress_line(
                            Some(s.block_height),
                            s.last_valid,
                            "Checking transaction status..."@,
                        ),
                    ),
                ),
                from + asked,
                after,
                step,
            )
        }),
{
    let signatures = s.queried.subrange(from as int, s.query_end(from as nat) as int);
    let (settled, told) = match reply {
        Some(statuses) => {
            let count = shorter(signatures.len(), statuses.len());
            (s.settle(signatures, statuses, count), s.told(signatures, statuses, count))
        },
        None => (s, Seq::empty()),
    };
    if let Some(statuses) = reply {
        let count = shorter(signatures.len(), statuses.len());
        lemma_settle_keeps(s, signatures, statuses, count);
        lemma_noted(s, signatures, statuses, count);
    }
    lemma_asks_on(
        settled,
        told.push(settled.progress(Some(settled.block_height), "Checking transaction status..."@)),
        s.query_end(from as nat),
    );
    (settled, told)
}

} // verus!
