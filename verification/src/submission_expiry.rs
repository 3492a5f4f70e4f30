//! That blockhashes are used while they are valid, and replaced once they are not.
use vstd::prelude::*;

use crate::error::SendErrorView;
use crate::keypair::KeypairView;
use crate::model::{Blockhash, MessageView};
use crate::pending::lemma_round;
use crate::status::SignatureStatusView;
use crate::submission_laws::{law_action_is_awaited, lemma_settle_keeps};
use crate::submission_model::{ActionView, EventView, Phase, SubmissionView, shorter};
use crate::submission_rules::{law_statuses_are_noted, sure_before};
use crate::submission_runs::{Run, lemma_played};

verus! {

/// The blockhash of the pending transactions is still valid, wherever they may be sent.
spec fn sends_in_time(s: SubmissionView) -> bool {
    (s.phase is CheckingTimer || s.phase is SendingToLeader || s.phase is SendingToRpc
        || s.phase is StampingTimer || s.phase is AwaitingBlock) ==> s.block_height <= s.last_valid
}

/// An event keeps the sending in time.
#[verifier::rlimit(40)]
proof fn lemma_next_in_time(s: SubmissionView, signers: Seq<KeypairView>, event: EventView)
    requires
        s.well_formed(),
        s.phase.expects(event),
        sends_in_time(s),
    ensures
        sends_in_time(s.next(signers, event).0),
{
    if let (Phase::AwaitingStatuses(from), EventView::Statuses(Some(statuses))) = (s.phase, event) {
        let signatures = s.queried.subrange(from as int, s.query_end(from as nat) as int);
        lemma_settle_keeps(
            s,
            signatures,
            statuses,
            shorter(signatures.len(), statuses.len()),
        );
    }
}

proof fn lemma_in_time(run: Run, n: int)
    requires
        run.sound(),
        0 <= n <= run.events.len(),
    ensures
        sends_in_time(run.state(n)),
    decreases n,
{
    if n > 0 {
        lemma_in_time(run, n - 1);
        lemma_played(run, n - 1);
        assert(run.state(n - 1).phase.expects(run.events[n - 1]));
        lemma_next_in_time(run.state(n - 1), run.signers, run.events[n - 1]);
    }
}

/// Every pending transaction is signed with the blockhash.
pub open spec fn signed_with(s: SubmissionView, blockhash: Blockhash) -> bool {
    forall|k: int|
        0 <= k < s.pending.len() ==> (#[trigger] s.pending[k]).message.recent_blockhash == blockhash
}

/// What an event does to the block height and the blockhash that are known.
#[verifier::rlimit(60)]
proof fn lemma_next_known(s: SubmissionView, signers: Seq<KeypairView>, event: EventView)
    requires
        s.well_formed(),
        s.accepts(signers),
        s.phase.expects(event),
    ensures
        ({
            let after = s.next(signers, event).0;
            &&& match event {
                EventView::BlockHeight(Ok(height)) => after.block_height == height,
                _ => after.block_height == s.block_height,
            }
            &&& match event {
                EventView::Blockhash(Ok((blockhash, last_valid))) => after.phase is Finished || (
                after.last_valid == last_valid && signed_with(after, blockhash)),
                _ => after.last_valid == s.last_valid,
            }
            &&& !(event matches EventView::Blockhash(Ok(_))) ==> forall|b: Blockhash|
                signed_with(s, b) ==> #[trigger] signed_with(after, b)
        }),
{
    let after = s.next(signers, event).0;
    match (s.phase, event) {
        (Phase::AwaitingBlockhash, EventView::Blockhash(Ok((blockhash, _)))) => {
            lemma_round(s.messages, signers, blockhash);
        },
        (Phase::AwaitingStatuses(from), EventView::Statuses(Some(statuses))) => {
            let signatures = s.queried.subrange(from as int, s.query_end(from as nat) as int);
            let count = shorter(signatures.len(), statuses.len());
            lemma_settle_keeps(s, signatures, statuses, count);
            let settled = s.settle(signatures, statuses, count);
            assert forall|b: Blockhash| signed_with(s, b) implies #[trigger] signed_with(
                after,
                b,
            ) by {
                assert forall|k: int| 0 <= k < after.pending.len() implies (
                #[trigger] after.pending[k]).message.recent_blockhash == b by {
                    assert(after.pending[k] == settled.pending[k]);
                    assert(s.pending.contains(settled.pending[k]));
                    let q = choose|q: int|
                        0 <= q < s.pending.len() && s.pending[q] == settled.pending[k];
                    assert(s.pending[q].message.recent_blockhash == b);
                }
            }
        },
        _ => {
            assert(after.pending == s.pending || after.pending.len() == 0);
        },
    }
}

/// The block height that is known is the last one that was read.
pub proof fn law_last_height_counts(run: Run, n: int, e: int, height: u64)
    requires
        run.sound(),
        0 <= e < n <= run.events.len(),
        run.events[e] == EventView::BlockHeight(Ok(height)),
        forall|x: int| e < x < n ==> !(#[trigger] run.events[x] is BlockHeight),
    ensures
        run.state(n).block_height == height,
    decreases n,
{
    lemma_played(run, n - 1);
    assert(run.state(n - 1).phase.expects(run.events[n - 1]));
    lemma_next_known(run.state(n - 1), run.signers, run.events[n - 1]);
    if n > e + 1 {
        law_last_height_counts(run, n - 1, e, height);
    }
}

/// The blockhash that counts is the last one that was read: every pending transaction is signed
/// with it, and its last valid height is the one that is known.
pub proof fn law_last_blockhash_counts(
    run: Run,
    n: int,
    e: int,
    blockhash: Blockhash,
    last_valid: u64,
)
    requires
        run.sound(),
        0 <= e < n <= run.events.len(),
        run.events[e] == EventView::Blockhash(Ok((blockhash, last_valid))),
        forall|x: int| e < x < n ==> !(#[trigger] run.events[x] is Blockhash),
    ensures
        run.state(n).phase is Finished || (run.state(n).last_valid == last_valid && signed_with(
            run.state(n),
            blockhash,
        )),
    decreases n,
{
    let s = run.state(n - 1);
    lemma_played(run, n - 1);
    assert(s.phase.expects(run.events[n - 1]));
    if n == e + 1 {
        lemma_blockhash_counts(s, run.signers, blockhash, last_valid);
    } else {
        law_last_blockhash_counts(run, n - 1, e, blockhash, last_valid);
        assert(!(run.events[n - 1] is Blockhash));
        lemma_blockhash_stays(s, run.signers, run.events[n - 1], blockhash);
    }
}

/// A blockhash that is read counts from then on, unless the submission ends.
proof fn lemma_blockhash_counts(
    s: SubmissionView,
    signers: Seq<KeypairView>,
    blockhash: Blockhash,
    last_valid: u64,
)
    requires
        s.well_formed(),
        s.accepts(signers),
        s.phase is AwaitingBlockhash,
    ensures
        ({
            let after = s.next(signers, EventView::Blockhash(Ok((blockhash, last_valid)))).0;
            after.phase is Finished || (after.last_valid == last_valid && signed_with(
                after,
                blockhash,
            ))
        }),
{
    lemma_next_known(s, signers, EventView::Blockhash(Ok((blockhash, last_valid))));
}

/// Other events leave the blockhash.
proof fn lemma_blockhash_stays(
    s: SubmissionView,
    signers: Seq<KeypairView>,
    event: EventView,
    blockhash: Blockhash,
)
    requires
        s.well_formed(),
        s.accepts(signers),
        s.phase.expects(event),
        !(event is Blockhash),
        signed_with(s, blockhash),
    ensures
        s.next(signers, event).0.last_valid == s.last_valid,
        signed_with(s.next(signers, event).0, blockhash),
{
    lemma_next_known(s, signers, event);
}

/// Nothing is sent once the last block height that was read is above the last at which the
/// blockhash that was read last is valid.
pub proof fn law_nothing_is_sent_late(
    run: Run,
    n: int,
    h: int,
    height: u64,
    e: int,
    blockhash: Blockhash,
    last_valid: u64,
)
    requires
        run.sound(),
        0 <= h < n <= run.events.len(),
        run.events[h] == EventView::BlockHeight(Ok(height)),
        forall|x: int| h < x < n ==> !(#[trigger] run.events[x] is BlockHeight),
        0 <= e < n,
        run.events[e] == EventView::Blockhash(Ok((blockhash, last_valid))),
        forall|x: int| e < x < n ==> !(#[trigger] run.events[x] is Blockhash),
        height > last_valid,
    ensures
        !(run.action(n) is SendToLeader),
        !(run.action(n) is SendToRpc),
{
    law_last_height_counts(run, n, h, height);
    law_last_blockhash_counts(run, n, e, blockhash, last_valid);
    lemma_in_time(run, n);
    lemma_played(run, n - 1);
    let s = run.state(n - 1);
    assert(s.phase.expects(run.events[n - 1]));
    law_action_is_awaited(
        s,
        run.signers,
        run.events[n - 1],
        EventView::LeaderSent(true),
    );
    law_action_is_awaited(
        s,
        run.signers,
        run.events[n - 1],
        EventView::RpcSent,
    );
}

/// Once all statuses of a round have been looked at, the transactions without a sure status are
/// still pending. If the block height is above the last at which their blockhash is valid, exactly
/// their messages are to be signed again, and one blockhash less may be tried: another is asked
/// for, or the submission fails after the last.
#[verifier::rlimit(40)]
pub proof fn law_expired_is_signed_again(
    s: SubmissionView,
    signers: Seq<KeypairView>,
    from: usize,
    statuses: Seq<Option<SignatureStatusView>>,
    left: int,
)
    requires
        s.well_formed(),
        s.phase == Phase::AwaitingStatuses(from),
        s.queried.len() - from <= 256,
        s.queried.len() - from <= statuses.len(),
        s.block_height > s.last_valid,
        0 <= left < s.pending.len(),
        !sure_before(
            s.queried.skip(from as int),
            statuses,
            s.queried.len() - from,
            s.pending[left].signatures[0],
        ),
    ensures
        ({
            let (after, step) = s.next(signers, EventView::Statuses(Some(statuses)));
            &&& after.pending.len() == 0
            &&& forall|k: int|
                0 <= k < s.pending.len() && !sure_before(
                    s.queried.skip(from as int),
                    statuses,
                    s.queried.len() - from,
                    s.pending[k].signatures[0],
                ) ==> after.messages.contains((#[trigger] s.pending[k]).message)
            &&& forall|k: int|
                0 <= k < after.messages.len() ==> is_left(
                    s,
                    from as int,
                    statuses,
                    #[trigger] after.messages[k],
                )
            &&& after.retries + 1 == s.retries
            &&& s.retries > 1 ==> step.action is GetLatestBlockhash
            &&& s.retries == 1 ==> step.action == ActionView::Finish(
                Err(SendErrorView::Custom("Max retries exceeded"@)),
            )
        }),
{
    let count = s.queried.len() - from;
    let signatures = s.queried.skip(from as int);
    assert(s.queried.subrange(from as int, from + count) =~= signatures);
    let (t, told) = law_statuses_are_noted(s, signers, from, Some(statuses));
    let (after, step) = s.next(signers, EventView::Statuses(Some(statuses)));
    let tx = s.pending[left];
    assert(s.pending.contains(tx));
    assert(t.pending.contains(tx));
    assert forall|k: int|
        0 <= k < s.pending.len() && !sure_before(
            signatures,
            statuses,
            count,
            s.pending[k].signatures[0],
        ) implies after.messages.contains((#[trigger] s.pending[k]).message) by {
        assert(s.pending.contains(s.pending[k]));
        assert(t.pending.contains(s.pending[k]));
        let q = choose|q: int| 0 <= q < t.pending.len() && t.pending[q] == s.pending[k];
        assert(after.messages[q] == t.pending[q].message);
    }
    assert forall|k: int| 0 <= k < after.messages.len() implies is_left(
        s,
        from as int,
        statuses,
        #[trigger] after.messages[k],
    ) by {
        assert(after.messages[k] == t.pending[k].message);
        assert(t.pending.contains(t.pending[k]));
        let q = choose|q: int| 0 <= q < s.pending.len() && s.pending[q] == t.pending[k];
        assert(s.pending[q].message == after.messages[k]);
    }
}

/// The message is that of a pending transaction without a sure status.
pub open spec fn is_left(
    s: SubmissionView,
    from: int,
    statuses: Seq<Option<SignatureStatusView>>,
    message: MessageView,
) -> bool {
    exists|k: int|
        0 <= k < s.pending.len() && (#[trigger] s.pending[k]).message == message && !sure_before(
            s.queried.skip(from),
            statuses,
            s.queried.len() - from,
            s.pending[k].signatures[0],
        )
}

} // verus!
