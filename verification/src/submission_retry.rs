//! That what has failed can be submitted again.
use vstd::prelude::*;

use crate::keypair::KeypairView;
use crate::model::{MessageView, Signature, TransactionView};
use crate::outcome::JibResultView;
use crate::pending::identified;
use crate::status::SignatureStatusView;
use crate::submission_exact::{distinct, law_one_result_for_each, live};
use crate::submission_laws::{lemma_settle_keeps, lemma_submittable_with_blockhash, results_so_far};
use crate::submission_model::{
    ActionView, EventView, Phase, SubmissionView, id_at, index_of_id, messages_of, result_of,
    settles, shorter, submittable,
};
use crate::submission_once::{
    lemma_next_waits, lemma_see_statuses_results, listed, results_at, waits,
};
use crate::submission_runs::{Run, alike, lemma_played};

verus! {

/// The failures among the results.
pub open spec fn failures(results: Seq<JibResultView>) -> Seq<JibResultView> {
    results.filter(|r: JibResultView| r is Failure)
}

/// The transactions of the failures among the results.
pub open spec fn failed(results: Seq<JibResultView>) -> Seq<TransactionView> {
    failures(results).map_values(|r: JibResultView| r->Failure_0)
}

/// A failure among the results is one of the results; there are no more failures than results.
proof fn lemma_failures(results: Seq<JibResultView>)
    ensures
        failures(results).len() <= results.len(),
        forall|k: int|
            0 <= k < failures(results).len() ==> (#[trigger] failures(results)[k]) is Failure
                && results.contains(failures(results)[k]),
    decreases results.len(),
{
    reveal(Seq::filter);
    if results.len() > 0 {
        let shorter = results.drop_last();
        lemma_failures(shorter);
        assert forall|k: int| 0 <= k < failures(results).len() implies (
        #[trigger] failures(results)[k]) is Failure && results.contains(failures(results)[k]) by {
            if k < failures(shorter).len() {
                assert(failures(results)[k] == failures(shorter)[k]);
                let q = choose|q: int|
                    0 <= q < shorter.len() && shorter[q] == failures(shorter)[k];
                assert(results[q] == failures(results)[k]);
            } else {
                assert(results[results.len() - 1] == failures(results)[k]);
            }
        }
    }
}

/// The transaction of a failure is one of the messages, signed for some block.
pub open spec fn failures_stem(results: Seq<JibResultView>, messages: Seq<MessageView>) -> bool {
    forall|k: int|
        0 <= k < results.len() && (#[trigger] results[k]) is Failure ==> listed(
            messages,
            results[k]->Failure_0.message,
        )
}

/// A message that waits is one of the messages.
proof fn lemma_waiting_stems(run: Run, n: int, message: MessageView)
    requires
        run.sound(),
        0 <= n <= run.events.len(),
        waits(run.state(n), message),
    ensures
        listed(run.messages, message),
    decreases n,
{
    let s = run.state(n);
    if n == 0 {
        assert(live(s) =~= run.messages);
        let q = choose|q: int| 0 <= q < live(s).len() && alike(#[trigger] live(s)[q], message);
        assert(alike(run.messages[q], message));
    } else {
        lemma_played(run, n - 1);
        assert(run.state(n - 1).phase.expects(run.events[n - 1]));
        lemma_next_waits(run.state(n - 1), run.signers, run.events[n - 1], message);
        lemma_waiting_stems(run, n - 1, message);
    }
}

/// The failures that statuses tell of are pending before.
proof fn lemma_settle_stems(
    s: SubmissionView,
    signatures: Seq<Signature>,
    statuses: Seq<Option<SignatureStatusView>>,
    count: nat,
    messages: Seq<MessageView>,
)
    requires
        identified(s.pending),
        forall|k: int|
            0 <= k < s.pending.len() ==> listed(messages, (#[trigger] s.pending[k]).message),
        failures_stem(results_so_far(s), messages),
    ensures
        failures_stem(results_so_far(s.settle(signatures, statuses, count)), messages),
    decreases count,
{
    if count > 0 {
        let m = (count - 1) as nat;
        lemma_settle_stems(s, signatures, statuses, m, messages);
        lemma_settle_keeps(s, signatures, statuses, m);
        let before = s.settle(signatures, statuses, m);
        let after = s.settle(signatures, statuses, count);
        let (signature, status) = (signatures[count - 1], statuses[count - 1]);
        if settles(before.pending, signature, status) {
            let p = index_of_id(before.pending, signature);
            assert(id_at(before.pending, signature, p));
            let tx = before.pending[p];
            assert(s.pending.contains(before.pending[p]));
            let q = choose|q: int| 0 <= q < s.pending.len() && s.pending[q] == tx;
            assert(listed(messages, s.pending[q].message));
            let (old_results, results) = (results_so_far(before), results_so_far(after));
            assert(results =~= old_results.push(result_of(tx, status->0)));
            assert forall|k: int|
                0 <= k < results.len() && (#[trigger] results[k]) is Failure implies listed(
                messages,
                results[k]->Failure_0.message,
            ) by {
                if k < old_results.len() {
                    assert(results[k] == old_results[k]);
                }
            }
        }
    }
}

/// The transactions of the failures are messages of the submission, signed for some block.
#[verifier::rlimit(40)]
proof fn lemma_failures_stem(run: Run, n: int)
    requires
        run.sound(),
        0 <= n <= run.events.len(),
    ensures
        failures_stem(results_at(run.state(n), run.action(n)), run.messages),
    decreases n,
{
    if n > 0 {
        let s = run.state(n - 1);
        let event = run.events[n - 1];
        lemma_played(run, n - 1);
        lemma_failures_stem(run, n - 1);
        assert(s.phase.expects(event));
        match (s.phase, event) {
            (Phase::AwaitingStatuses(from), EventView::Statuses(Some(statuses))) => {
                let signatures = s.queried.subrange(from as int, s.query_end(from as nat) as int);
                let count = shorter(signatures.len(), statuses.len());
                assert forall|k: int| 0 <= k < s.pending.len() implies listed(
                    run.messages,
                    (#[trigger] s.pending[k]).message,
                ) by {
                    assert(live(s)[k] == s.pending[k].message);
                    lemma_waiting_stems(run, n - 1, s.pending[k].message);
                }
                lemma_settle_stems(s, signatures, statuses, count, run.messages);
                lemma_see_statuses_results(s, from as nat, statuses);
            },
            _ => {
                lemma_other_results(s, run.signers, event);
            },
        }
    }
}

/// Events other than statuses leave the results as they are.
#[verifier::rlimit(40)]
proof fn lemma_other_results(s: SubmissionView, signers: Seq<KeypairView>, event: EventView)
    requires
        s.well_formed(),
        s.phase.expects(event),
        !(event matches EventView::Statuses(Some(_))),
    ensures
        results_at(s.next(signers, event).0, s.next(signers, event).1.action) == results_so_far(s),
{
    assert(results_so_far(s) + Seq::<JibResultView>::empty() =~= results_so_far(s));
}

/// The transactions that have failed can be submitted again. Where they are different, and
/// signatures tell them apart, a second submission that ends well has one result for each of them.
#[verifier::rlimit(40)]
pub proof fn law_failures_can_be_retried(
    first: Run,
    results: Seq<JibResultView>,
    again: Run,
)
    requires
        first.sound(),
        first.outcome() == ActionView::Finish(Ok(results)),
        again.messages == messages_of(failed(results)),
        again.signers == first.signers,
        again.batch_size > 0,
        again.expected(),
        again.told_apart(),
        distinct(again.messages),
    ensures
        again.sound(),
        again.outcome() matches ActionView::Finish(Ok(retried)) ==> {
            &&& retried.len() == failures(results).len()
            &&& again.complete(again.events.len() as int, retried)
        },
{
    let signers = first.signers;
    let n = first.events.len() as int;
    lemma_played(first, n);
    lemma_failures_stem(first, n);
    lemma_failures(results);
    assert forall|k: int| 0 <= k < again.messages.len() implies submittable(
        #[trigger] again.messages[k],
        signers,
    ) by {
        let result = failures(results)[k];
        let message = again.messages[k];
        assert(message == result->Failure_0.message);
        assert(result is Failure && results.contains(result));
        let q = choose|q: int| 0 <= q < results.len() && results[q] == result;
        assert(results[q] is Failure);
        assert(listed(first.messages, results[q]->Failure_0.message));
        let i = choose|i: int|
            0 <= i < first.messages.len() && alike(#[trigger] first.messages[i], message);
        assert(message =~= first.messages[i].with_blockhash(message.recent_blockhash));
        lemma_submittable_with_blockhash(first.messages[i], signers, message.recent_blockhash);
        assert(submittable(first.messages[i], signers));
    }
    law_one_result_for_each(again);
}

} // verus!
