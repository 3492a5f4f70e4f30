//! What a submission of different messages comes to: one result for each, batch by batch.
use vstd::arithmetic::div_mod::{
    lemma_fundamental_div_mod, lemma_fundamental_div_mod_converse,
};
use vstd::prelude::*;

use crate::model::{Blockhash, MessageView, Signature};
use crate::outcome::JibResultView;
use crate::pending::identified;
use crate::signing::signed;
use crate::status::SignatureStatusView;
use crate::submission_laws::lemma_settle_keeps;
use crate::submission_model::{
    ActionView, EventView, NoticeView, Phase, RESEND_INTERVAL_NANOS, SubmissionView, has_id, id,
    id_at, ids_of, index_of_id, messages_of, settles, shorter, signed_round, submittable,
    with_transaction,
};
use crate::submission_runs::{
    Run, alike, gives_blockhash, law_every_message_is_answered, lemma_alike_signed,
    lemma_faithful_later, lemma_played, lemma_played_faithful, lemma_same_faithful,
    lemma_settle_faithful, lemma_statuses_asked, lemma_tells_later, same_contents,
};

verus! {

/// No two of the messages are the same but for their blockhashes.
pub open spec fn distinct(messages: Seq<MessageView>) -> bool {
    forall|i: int, j: int|
        0 <= i < j < messages.len() ==> !alike(#[trigger] messages[i], #[trigger] messages[j])
}

/// The messages that have no result yet: those of the pending transactions, those that are to be
/// signed next, and those of the batches to come.
pub open spec fn live(s: SubmissionView) -> Seq<MessageView> {
    messages_of(s.pending) + s.messages + s.rest
}

impl Run {
    /// One of the results is the outcome of message `i`, and stands in the part of its batch.
    pub open spec fn answered_in_batch(self, n: int, results: Seq<JibResultView>, i: int) -> bool {
        exists|k: int|
            0 <= k < results.len() && k / self.batch_size as int == i / self.batch_size as int
                && self.tells(n, #[trigger] results[k], i)
    }

    /// Result `k` is the outcome of a message of the batch in whose part it stands.
    pub open spec fn founded_in_batch(self, n: int, results: Seq<JibResultView>, k: int) -> bool {
        exists|i: int|
            0 <= i < self.messages.len() && k / self.batch_size as int == i
                / self.batch_size as int && #[trigger] self.tells(n, results[k], i)
    }

    /// Among the first `count` results, those of each batch stand together, in the order of the
    /// batches: the part of batch `b` starts at `b` times the batch size, as its messages do.
    pub open spec fn batch_by_batch(
        self,
        n: int,
        results: Seq<JibResultView>,
        count: int,
    ) -> bool {
        &&& results.len() == count
        &&& forall|i: int| 0 <= i < count ==> #[trigger] self.answered_in_batch(n, results, i)
        &&& forall|k: int| 0 <= k < count ==> #[trigger] self.founded_in_batch(n, results, k)
    }

    /// What holds of a submission of different messages.
    pub open spec fn exact(self, n: int, s: SubmissionView) -> bool {
        &&& distinct(live(s))
        &&& s.batch_size == self.batch_size
        &&& s.results.len() + s.pending.len() + s.messages.len() == s.total
        &&& s.total <= s.batch_size
        &&& s.rest.len() > 0 ==> s.total == s.batch_size
        &&& self.batch_start(s) % self.batch_size as int == 0
        &&& self.batch_by_batch(n, s.done, self.batch_start(s))
    }
}

/// The part of a batch starts at a multiple of the batch size.
proof fn lemma_same_batch(start: int, k: int, size: int)
    requires
        size > 0,
        start % size == 0,
        0 <= k < size,
    ensures
        (start + k) / size == start / size,
        (start + size) % size == 0,
{
    lemma_fundamental_div_mod(start, size);
    let q = start / size;
    assert(size * q == q * size) by (nonlinear_arith);
    assert((q + 1) * size == q * size + size) by (nonlinear_arith);
    lemma_fundamental_div_mod_converse(start + k, size, q, k);
    lemma_fundamental_div_mod_converse(start + size, size, q + 1, 0);
}

/// What has been told of the batches stays told.
proof fn lemma_exact_later(run: Run, n: int, m: int, s: SubmissionView)
    requires
        n <= m,
        run.exact(n, s),
    ensures
        run.exact(m, s),
{
    let size = run.batch_size as int;
    let count = run.batch_start(s);
    assert forall|i: int| 0 <= i < count implies #[trigger] run.answered_in_batch(
        m,
        s.done,
        i,
    ) by {
        assert(run.answered_in_batch(n, s.done, i));
        let k = choose|k: int|
            0 <= k < s.done.len() && k / size == i / size && run.tells(n, #[trigger] s.done[k], i);
        lemma_tells_later(run, n, m, s.done[k], i);
    }
    assert forall|k: int| 0 <= k < count implies #[trigger] run.founded_in_batch(
        m,
        s.done,
        k,
    ) by {
        assert(run.founded_in_batch(n, s.done, k));
        let i = choose|i: int|
            0 <= i < run.messages.len() && k / size == i / size && #[trigger] run.tells(
                n,
                s.done[k],
                i,
            );
        lemma_tells_later(run, n, m, s.done[k], i);
    }
}

/// Where the messages are different, each becomes a transaction of its own, in their order.
pub proof fn lemma_round_distinct(
    run: Run,
    s: SubmissionView,
    round: Seq<MessageView>,
    blockhash: Blockhash,
)
    requires
        run.told_apart(),
        run.blockhash_read(run.events.len() as int, blockhash),
        0 <= run.batch_start(s) <= run.batch_end(s) <= run.messages.len(),
        forall|k: int| 0 <= k < round.len() ==> run.stems(s, #[trigger] round[k]),
        forall|k: int| 0 <= k < round.len() ==> submittable(#[trigger] round[k], run.signers),
        distinct(round),
    ensures
        signed_round(round, run.signers, blockhash) matches Ok(pending) ==> pending
            == round.map_values(|m: MessageView| signed(m, run.signers, blockhash)),
    decreases round.len(),
{
    let signers = run.signers;
    let expected = round.map_values(|m: MessageView| signed(m, signers, blockhash));
    if signed_round(round, signers, blockhash) is Ok {
        if round.len() == 0 {
            assert(expected =~= Seq::empty());
        } else {
            let shorter = round.drop_last();
            assert forall|k: int| 0 <= k < shorter.len() implies run.stems(s, #[trigger] shorter[k])
                && submittable(shorter[k], signers) by {
                assert(shorter[k] == round[k]);
            }
            assert forall|i: int, j: int| 0 <= i < j < shorter.len() implies !alike(
                #[trigger] shorter[i],
                #[trigger] shorter[j],
            ) by {
                assert(!alike(round[i], round[j]));
            }
            lemma_round_distinct(run, s, shorter, blockhash);
            let before = signed_round(shorter, signers, blockhash)->Ok_0;
            let last = round[round.len() - 1];
            let tx = signed(last, signers, blockhash);
            if has_id(before, id(tx)) {
                let p = index_of_id(before, id(tx));
                assert(id_at(before, id(tx), p));
                assert(before[p] == signed(round[p], signers, blockhash));
                assert(run.stems(s, round[p]));
                assert(run.stems(s, last));
                let i = choose|i: int|
                    run.batch_start(s) <= i < run.batch_end(s) && alike(
                        #[trigger] run.messages[i],
                        round[p],
                    );
                let j = choose|j: int|
                    run.batch_start(s) <= j < run.batch_end(s) && alike(
                        #[trigger] run.messages[j],
                        last,
                    );
                lemma_alike_signed(run.messages[i], round[p], signers, blockhash);
                lemma_alike_signed(run.messages[j], last, signers, blockhash);
                assert(id(run.transaction(i, blockhash)) == id(run.transaction(j, blockhash)));
                assert(alike(round[p], round[round.len() - 1]));
            }
            assert(with_transaction(before, tx) == before.push(tx));
            assert(before.push(tx) =~= expected);
        }
    }
}

/// Going on with the pending transactions leaves the messages that have no result as they are.
proof fn lemma_resume_live(s: SubmissionView, notices: Seq<NoticeView>)
    requires
        s.messages.len() == 0,
    ensures
        live(s.resume(notices).0) == live(s),
{
    let after = s.resume(notices).0;
    if s.block_height > s.last_valid {
        assert(live(after) =~= live(s));
    }
}

/// Asking for statuses leaves the messages that have no result as they are.
pub proof fn lemma_ask_statuses_live(s: SubmissionView, notices: Seq<NoticeView>, from: nat)
    requires
        s.messages.len() == 0,
    ensures
        live(s.ask_statuses(notices, from).0) == live(s),
{
    let after = s.ask_statuses(notices, from).0;
    if from >= s.queried.len() {
        if s.pending.len() == 0 {
            assert(live(after) =~= live(s));
        } else {
            lemma_resume_live(s, notices);
        }
    }
}

/// A status takes at most one message from those that have no result.
pub proof fn lemma_settle_one_live(
    s: SubmissionView,
    signature: Signature,
    status: Option<SignatureStatusView>,
)
    requires
        identified(s.pending),
    ensures
        live(s.settle_one(signature, status)) == (if settles(s.pending, signature, status) {
            live(s).remove(index_of_id(s.pending, signature))
        } else {
            live(s)
        }),
        settles(s.pending, signature, status) ==> 0 <= index_of_id(s.pending, signature) < live(
            s,
        ).len(),
{
    let after = s.settle_one(signature, status);
    if settles(s.pending, signature, status) {
        let p = index_of_id(s.pending, signature);
        assert(id_at(s.pending, signature, p));
        assert(live(after) =~= live(s).remove(p));
    }
}

/// Statuses leave the messages that have no result different.
pub proof fn lemma_settle_distinct(
    s: SubmissionView,
    signatures: Seq<Signature>,
    statuses: Seq<Option<SignatureStatusView>>,
    count: nat,
)
    requires
        identified(s.pending),
        distinct(live(s)),
    ensures
        distinct(live(s.settle(signatures, statuses, count))),
    decreases count,
{
    if count > 0 {
        let m = (count - 1) as nat;
        lemma_settle_distinct(s, signatures, statuses, m);
        lemma_settle_keeps(s, signatures, statuses, m);
        let before = s.settle(signatures, statuses, m);
        lemma_settle_one_live(before, signatures[count - 1], statuses[count - 1]);
        if settles(before.pending, signatures[count - 1], statuses[count - 1]) {
            let p = index_of_id(before.pending, signatures[count - 1]);
            let all = live(before);
            let fewer = all.remove(p);
            assert forall|i: int, j: int| 0 <= i < j < fewer.len() implies !alike(
                #[trigger] fewer[i],
                #[trigger] fewer[j],
            ) by {
                let a = if i < p {
                    i
                } else {
                    i + 1
                };
                let b = if j < p {
                    j
                } else {
                    j + 1
                };
                assert(!alike(all[a], all[b]));
            }
        }
    }
}

/// The results of a batch of which nothing is left take their place behind those of the batches
/// before.
proof fn lemma_batch_done(run: Run, n: int, s: SubmissionView)
    requires
        run.batch_size > 0,
        s.messages.len() == 0,
        s.pending.len() == 0,
        run.faithful(n, s),
        run.exact(n, s),
    ensures
        run.batch_by_batch(n, s.done + s.results, run.batch_end(s)),
{
    let size = run.batch_size as int;
    let done = s.done + s.results;
    let (low, high) = (run.batch_start(s), run.batch_end(s));
    assert forall|i: int| 0 <= i < high implies #[trigger] run.answered_in_batch(n, done, i) by {
        if i < low {
            assert(run.answered_in_batch(n, s.done, i));
            let k = choose|k: int|
                0 <= k < s.done.len() && k / size == i / size && run.tells(
                    n,
                    #[trigger] s.done[k],
                    i,
                );
            assert(done[k] == s.done[k]);
        } else {
            assert(run.in_hand(n, s, i));
            let k = choose|k: int|
                0 <= k < s.results.len() && run.tells(n, #[trigger] s.results[k], i);
            assert(done[low + k] == s.results[k]);
            lemma_same_batch(low, k, size);
            lemma_same_batch(low, i - low, size);
        }
    }
    assert forall|k: int| 0 <= k < high implies #[trigger] run.founded_in_batch(n, done, k) by {
        if k < low {
            assert(run.founded_in_batch(n, s.done, k));
            assert(done[k] == s.done[k]);
        } else {
            assert(done[k] == s.results[k - low]);
            assert(run.founded(n, s.results[k - low], low, high));
            let i = choose|i: int| low <= i < high && #[trigger] run.tells(n, done[k], i);
            lemma_same_batch(low, k - low, size);
            lemma_same_batch(low, i - low, size);
            assert(run.tells(n, done[k], i));
        }
    }
}

/// Once nothing of a batch is left, the next one begins, or there is one result for each message.
#[verifier::rlimit(40)]
proof fn lemma_conclude_exact(run: Run, n: int, s: SubmissionView, notices: Seq<NoticeView>)
    requires
        run.batch_size > 0,
        s.messages.len() == 0,
        s.pending.len() == 0,
        run.faithful(n, s),
        run.exact(n, s),
    ensures
        match s.conclude(notices).1.action {
            ActionView::Finish(Ok(results)) => run.batch_by_batch(
                n,
                results,
                run.messages.len() as int,
            ),
            _ => run.exact(n, s.conclude(notices).0),
        },
{
    let after = s.conclude(notices).0;
    let (low, high) = (run.batch_start(s), run.batch_end(s));
    lemma_batch_done(run, n, s);
    if s.rest.len() > 0 {
        lemma_same_batch(low, 0, run.batch_size as int);
        assert(live(after) =~= live(s));
        assert(run.batch_start(after) == high);
        assert(after.done == s.done + s.results);
    }
}

/// Asking for statuses keeps one result for each message; if the submission ends there, there is
/// one for each.
proof fn lemma_ask_statuses_exact(
    run: Run,
    n: int,
    s: SubmissionView,
    notices: Seq<NoticeView>,
    from: nat,
)
    requires
        run.valid(),
        s.messages.len() == 0,
        run.faithful(n, s),
        run.exact(n, s),
    ensures
        match s.ask_statuses(notices, from).1.action {
            ActionView::Finish(Ok(results)) => run.batch_by_batch(
                n,
                results,
                run.messages.len() as int,
            ),
            _ => run.exact(n, s.ask_statuses(notices, from).0),
        },
{
    if from >= s.queried.len() {
        if s.pending.len() == 0 {
            lemma_conclude_exact(run, n, s, notices);
        } else {
            lemma_resume_live(s, notices);
        }
    }
}

/// An event keeps one result for each message; if the submission ends well there, there is one for
/// each.
#[verifier::rlimit(40)]
proof fn lemma_next_exact(run: Run, e: int)
    requires
        run.valid(),
        0 <= e < run.events.len(),
        run.faithful(e, run.state(e)),
        run.exact(e, run.state(e)),
    ensures
        match run.action(e + 1) {
            ActionView::Finish(Ok(results)) => run.batch_by_batch(
                e + 1,
                results,
                run.messages.len() as int,
            ),
            _ => run.exact(e + 1, run.state(e + 1)),
        },
{
    let s = run.state(e);
    let event = run.events[e];
    let after = run.state(e + 1);
    let n = e + 1;
    lemma_played(run, e);
    lemma_statuses_asked(run, e);
    assert(s.phase.expects(event));
    lemma_faithful_later(run, e, n, s);
    lemma_exact_later(run, e, n, s);
    match (s.phase, event) {
        (Phase::AwaitingBlockhash, EventView::Blockhash(Ok((blockhash, last_valid)))) => {
            assert(gives_blockhash(run.events[e], blockhash));
            lemma_sign_round_exact(run, n, s, blockhash, last_valid);
        },
        (Phase::ArmingTimer, EventView::Clock(now)) => {
            let armed = SubmissionView { last_resend: now - RESEND_INTERVAL_NANOS, ..s };
            assert(live(armed) == live(s));
            lemma_resume_live(armed, Seq::empty());
        },
        (Phase::AwaitingBlock(refreshes), EventView::BlockHeight(Ok(height))) => {
            let seen = SubmissionView { block_height: height, queried: ids_of(s.pending), ..s };
            lemma_same_faithful(run, n, s, seen);
            assert(live(seen) == live(s));
            lemma_ask_statuses_exact(run, n, seen, Seq::empty(), 0);
        },
        (Phase::AwaitingStatuses(from), EventView::Statuses(reply)) => {
            let signatures = s.queried.subrange(from as int, s.query_end(from as nat) as int);
            let (settled, told) = match reply {
                Some(statuses) => {
                    let count = shorter(signatures.len(), statuses.len());
                    (s.settle(signatures, statuses, count), s.told(signatures, statuses, count))
                },
                None => (s, Seq::empty()),
            };
            if let Some(statuses) = reply {
                let count = shorter(signatures.len(), statuses.len());
                lemma_settle_keeps(s, signatures, statuses, count);
                lemma_settle_faithful(run, e, s, signatures, statuses, count);
                lemma_settle_distinct(s, signatures, statuses, count);
            }
            lemma_ask_statuses_exact(
                run,
                n,
                settled,
                told.push(
                    settled.progress(Some(settled.block_height), "Checking transaction status..."@),
                ),
                s.query_end(from as nat),
            );
        },
        _ => {
            assert(same_contents(s, after));
            assert(live(after) == live(s));
        },
    }
}

/// Signing a round keeps one result for each message.
proof fn lemma_sign_round_exact(
    run: Run,
    n: int,
    s: SubmissionView,
    blockhash: Blockhash,
    last_valid: u64,
)
    requires
        run.valid(),
        s.well_formed(),
        s.phase is AwaitingBlockhash,
        s.accepts(run.signers),
        n <= run.events.len(),
        run.blockhash_read(n, blockhash),
        run.faithful(n, s),
        run.exact(n, s),
    ensures
        run.exact(n, s.sign_round(run.signers, blockhash, last_valid).0),
{
    let after = s.sign_round(run.signers, blockhash, last_valid).0;
    let all = live(s);
    let p = s.pending.len() as int;
    assert(p == 0);
    assert forall|i: int, j: int| 0 <= i < j < s.messages.len() implies !alike(
        #[trigger] s.messages[i],
        #[trigger] s.messages[j],
    ) by {
        assert(all[i] == s.messages[i]);
        assert(all[j] == s.messages[j]);
    }
    lemma_round_distinct(run, s, s.messages, blockhash);
    if signed_round(s.messages, run.signers, blockhash) is Ok {
        let now = live(after);
        assert(now.len() == all.len());
        assert forall|i: int| 0 <= i < now.len() implies alike(all[i], #[trigger] now[i]) by {
            if i < s.messages.len() {
                assert(now[i] == after.pending[i].message);
                assert(all[i] == s.messages[i]);
            } else {
                assert(now[i] == s.rest[i - s.messages.len()]);
                assert(all[i] == s.rest[i - s.messages.len()]);
            }
        }
        assert forall|i: int, j: int| 0 <= i < j < now.len() implies !alike(
            #[trigger] now[i],
            #[trigger] now[j],
        ) by {
            assert(!alike(all[i], all[j]));
        }
    } else {
        assert(live(after) == live(s));
    }
}

/// What holds after any events of a submission of different messages.
pub proof fn lemma_played_exact(run: Run, n: int)
    requires
        run.valid(),
        distinct(run.messages),
        0 <= n <= run.events.len(),
    ensures
        match run.action(n) {
            ActionView::Finish(Ok(results)) => run.batch_by_batch(
                n,
                results,
                run.messages.len() as int,
            ),
            _ => run.exact(n, run.state(n)),
        },
    decreases n,
{
    if n == 0 {
        let after = run.state(0);
        lemma_fundamental_div_mod_converse(0, run.batch_size as int, 0, 0);
        if run.messages.len() > 0 {
            assert(live(after) =~= run.messages);
            assert(run.batch_start(after) == 0);
            assert(after.done.len() == 0);
            assert(run.exact(0, after));
        }
    } else {
        lemma_played_exact(run, n - 1);
        lemma_played(run, n - 1);
        lemma_played_faithful(run, n - 1);
        assert(run.state(n - 1).phase.expects(run.events[n - 1]));
        lemma_next_exact(run, n - 1);
    }
}

/// When a submission of different messages ends well, there is one result for each message. The
/// results of each batch stand together, in the order of the batches: those of batch `b` start at
/// `b` times the batch size, as its messages do, and tell of them.
pub proof fn law_one_result_for_each(run: Run)
    requires
        run.valid(),
        distinct(run.messages),
    ensures
        run.outcome() matches ActionView::Finish(Ok(results)) ==> {
            &&& results.len() == run.messages.len()
            &&& run.complete(run.events.len() as int, results)
            &&& run.batch_by_batch(
                run.events.len() as int,
                results,
                run.messages.len() as int,
            )
        },
{
    law_every_message_is_answered(run);
    lemma_played_exact(run, run.events.len() as int);
}

} // verus!
