//! What a whole submission comes to: every message gets its result, and nothing else does.
use vstd::prelude::*;

use crate::keypair::KeypairView;
use crate::model::{Blockhash, MessageView, Signature, TransactionView};
use crate::outcome::JibResultView;
use crate::pending::{identified, lemma_round, lemma_with_transaction};
use crate::signing::signed;
use crate::status::SignatureStatusView;
use crate::submission_laws::{
    law_no_work_is_added, law_over_when_finished, law_step_keeps_well_formed,
    lemma_begin_batch_accepts, lemma_begin_batch_keeps, lemma_settle_keeps, lemma_settle_one_keeps,
    work,
};
use crate::submission_model::{
    ActionView, EventView, NoticeView, Phase, RESEND_INTERVAL_NANOS, StepView, SubmissionView,
    has_id, id, id_at, ids_of, index_of_id, result_of, settles, shorter, signed_round, submittable,
    with_transaction,
};
use crate::submission_rules::{outcome_is, sure};

verus! {

/// The two messages are the same but for their blockhashes.
pub open spec fn alike(a: MessageView, b: MessageView) -> bool {
    a.header == b.header && a.account_keys == b.account_keys && a.instructions == b.instructions
}

/// A submission from its beginning on, with everything that happens.
pub struct Run {
    pub messages: Seq<MessageView>,
    pub batch_size: usize,
    pub signers: Seq<KeypairView>,
    pub events: Seq<EventView>,
}

impl Run {
    /// Where the submission stands after the first `n` events, and what is to be done then.
    pub open spec fn played(self, n: int) -> (SubmissionView, StepView)
        decreases n,
    {
        if n <= 0 {
            SubmissionView::started(self.messages, self.batch_size)
        } else {
            self.played(n - 1).0.next(self.signers, self.events[n - 1])
        }
    }

    /// Where the submission stands after the first `n` events.
    pub open spec fn state(self, n: int) -> SubmissionView {
        self.played(n).0
    }

    /// What is to be done after the first `n` events.
    pub open spec fn action(self, n: int) -> ActionView {
        self.played(n).1.action
    }

    /// What is to be done after the last event.
    pub open spec fn outcome(self) -> ActionView {
        self.action(self.events.len() as int)
    }

    /// Every event is what is being waited for when it comes.
    pub open spec fn expected(self) -> bool {
        forall|n: int|
            0 <= n < self.events.len() ==> self.state(n).phase.expects(#[trigger] self.events[n])
    }

    /// The messages can be submitted, and every event is what is being waited for when it comes.
    pub open spec fn sound(self) -> bool {
        &&& self.batch_size > 0
        &&& self.messages.len() <= usize::MAX
        &&& forall|i: int|
            0 <= i < self.messages.len() ==> submittable(#[trigger] self.messages[i], self.signers)
        &&& self.expected()
    }

    /// Two of the messages that get the same signature with a blockhash that is read are the same
    /// message.
    pub open spec fn told_apart(self) -> bool {
        forall|i: int, j: int, blockhash: Blockhash|
            0 <= i < self.messages.len() && 0 <= j < self.messages.len() && self.blockhash_read(
                self.events.len() as int,
                blockhash,
            ) && (#[trigger] self.transaction(i, blockhash)).signatures[0] == (
            #[trigger] self.transaction(j, blockhash)).signatures[0] ==> alike(
                self.messages[i],
                self.messages[j],
            )
    }

    /// The submission is sound, and signatures tell the messages apart.
    pub open spec fn valid(self) -> bool {
        self.sound() && self.told_apart()
    }

    /// Message `i`, signed for a block.
    pub open spec fn transaction(self, i: int, blockhash: Blockhash) -> TransactionView {
        signed(self.messages[i], self.signers, blockhash)
    }

    /// The blockhash is that of one of the first `n` events.
    pub open spec fn blockhash_read(self, n: int, blockhash: Blockhash) -> bool {
        exists|e: int| 0 <= e < n && gives_blockhash(#[trigger] self.events[e], blockhash)
    }

    /// Event `e` is a reply that has the status at the position of the signature among those that
    /// were asked for.
    pub open spec fn told_at(
        self,
        e: int,
        j: int,
        signature: Signature,
        status: SignatureStatusView,
    ) -> bool {
        &&& self.action(e) matches ActionView::GetSignatureStatuses(signatures)
        &&& self.events[e] matches EventView::Statuses(Some(statuses))
        &&& 0 <= j < signatures.len()
        &&& j < statuses.len()
        &&& signatures[j] == signature
        &&& statuses[j] == Some(status)
    }

    /// One of the first `n` events is a reply with this status of the signature.
    pub open spec fn told(self, n: int, signature: Signature, status: SignatureStatusView) -> bool {
        exists|e: int, j: int| 0 <= e < n && #[trigger] self.told_at(e, j, signature, status)
    }

    /// The result is the outcome of message `i`, signed with a blockhash that was read, as a sure
    /// enough status of that transaction's own signature tells it.
    pub open spec fn tells_of(
        self,
        n: int,
        result: JibResultView,
        i: int,
        blockhash: Blockhash,
        status: SignatureStatusView,
    ) -> bool {
        &&& outcome_is(result, self.transaction(i, blockhash), status)
        &&& sure(Some(status))
        &&& self.blockhash_read(n, blockhash)
        &&& self.told(n, self.transaction(i, blockhash).signatures[0], status)
    }

    /// The result is the outcome of message `i`, as the first `n` events tell it.
    pub open spec fn tells(self, n: int, result: JibResultView, i: int) -> bool {
        exists|blockhash: Blockhash, status: SignatureStatusView| #[trigger]
            self.tells_of(n, result, i, blockhash, status)
    }

    /// One of the results is the outcome of message `i`.
    pub open spec fn answered(self, n: int, results: Seq<JibResultView>, i: int) -> bool {
        exists|k: int| 0 <= k < results.len() && self.tells(n, #[trigger] results[k], i)
    }

    /// The result is the outcome of one of the messages from `low` up to `high`.
    pub open spec fn founded(self, n: int, result: JibResultView, low: int, high: int) -> bool {
        exists|i: int| low <= i < high && #[trigger] self.tells(n, result, i)
    }

    /// Every message is answered, and every result is the outcome of one of the messages.
    pub open spec fn complete(self, n: int, results: Seq<JibResultView>) -> bool {
        &&& forall|i: int|
            0 <= i < self.messages.len() ==> #[trigger] self.answered(n, results, i)
        &&& forall|k: int|
            0 <= k < results.len() ==> self.founded(
                n,
                #[trigger] results[k],
                0,
                self.messages.len() as int,
            )
    }

    /// The number of the first message of the present batch.
    pub open spec fn batch_start(self, s: SubmissionView) -> int {
        self.messages.len() - s.rest.len() - s.total
    }

    /// The number of the first message after the present batch.
    pub open spec fn batch_end(self, s: SubmissionView) -> int {
        self.messages.len() - s.rest.len()
    }

    /// The message is one of the present batch, but for its blockhash.
    pub open spec fn stems(self, s: SubmissionView, message: MessageView) -> bool {
        exists|i: int|
            self.batch_start(s) <= i < self.batch_end(s) && alike(
                #[trigger] self.messages[i],
                message,
            )
    }

    /// The transaction is a message of the present batch, signed with a blockhash that was read.
    pub open spec fn stems_signed(self, n: int, s: SubmissionView, tx: TransactionView) -> bool {
        exists|i: int, blockhash: Blockhash|
            self.batch_start(s) <= i < self.batch_end(s) && tx == #[trigger] self.transaction(
                i,
                blockhash,
            ) && self.blockhash_read(n, blockhash)
    }

    /// Message `i` is still to be signed, or it is pending, or it is answered.
    pub open spec fn in_hand(self, n: int, s: SubmissionView, i: int) -> bool {
        ||| exists|k: int|
            0 <= k < s.messages.len() && alike(self.messages[i], #[trigger] s.messages[k])
        ||| exists|k: int, blockhash: Blockhash|
            0 <= k < s.pending.len() && #[trigger] s.pending[k] == #[trigger] self.transaction(
                i,
                blockhash,
            )
        ||| self.answered(n, s.results, i)
    }

    /// Everything in the submission stems from the messages, and every message is in hand.
    pub open spec fn faithful(self, n: int, s: SubmissionView) -> bool {
        &&& 0 <= self.batch_start(s)
        &&& s.rest == self.messages.skip(self.batch_end(s))
        &&& forall|k: int| 0 <= k < s.messages.len() ==> self.stems(s, #[trigger] s.messages[k])
        &&& forall|k: int|
            0 <= k < s.pending.len() ==> self.stems_signed(n, s, #[trigger] s.pending[k])
        &&& forall|k: int|
            0 <= k < s.results.len() ==> self.founded(
                n,
                #[trigger] s.results[k],
                self.batch_start(s),
                self.batch_end(s),
            )
        &&& forall|k: int|
            0 <= k < s.done.len() ==> self.founded(
                n,
                #[trigger] s.done[k],
                0,
                self.batch_start(s),
            )
        &&& forall|i: int|
            self.batch_start(s) <= i < self.batch_end(s) ==> #[trigger] self.in_hand(n, s, i)
        &&& forall|i: int|
            0 <= i < self.batch_start(s) ==> #[trigger] self.answered(n, s.done, i)
    }
}

/// The event gives the blockhash.
pub open spec fn gives_blockhash(event: EventView, blockhash: Blockhash) -> bool {
    event matches EventView::Blockhash(Ok(latest)) && latest.0 == blockhash
}

/// Messages that are alike are signed alike.
pub proof fn lemma_alike_signed(
    a: MessageView,
    b: MessageView,
    signers: Seq<KeypairView>,
    blockhash: Blockhash,
)
    requires
        alike(a, b),
    ensures
        signed(a, signers, blockhash) == signed(b, signers, blockhash),
{
    assert(a.with_blockhash(blockhash) =~= b.with_blockhash(blockhash));
    assert(signed(a, signers, blockhash).signatures =~= signed(b, signers, blockhash).signatures);
}

/// What the events have told stays told.
pub proof fn lemma_tells_later(run: Run, n: int, m: int, result: JibResultView, i: int)
    requires
        n <= m,
        run.tells(n, result, i),
    ensures
        run.tells(m, result, i),
{
    let (blockhash, status) = choose|blockhash: Blockhash, status: SignatureStatusView| #[trigger]
        run.tells_of(n, result, i, blockhash, status);
    let signature = run.transaction(i, blockhash).signatures[0];
    let (e, j) = choose|e: int, j: int|
        0 <= e < n && #[trigger] run.told_at(e, j, signature, status);
    assert(run.told_at(e, j, signature, status));
    assert(run.tells_of(m, result, i, blockhash, status));
}

/// What is answered, or founded, stays so.
pub proof fn lemma_answered_later(
    run: Run,
    n: int,
    m: int,
    results: Seq<JibResultView>,
    more: Seq<JibResultView>,
    i: int,
)
    requires
        n <= m,
        results.is_prefix_of(more),
        run.answered(n, results, i),
    ensures
        run.answered(m, more, i),
{
    let k = choose|k: int| 0 <= k < results.len() && run.tells(n, #[trigger] results[k], i);
    lemma_tells_later(run, n, m, results[k], i);
    assert(more[k] == results[k]);
}

proof fn lemma_founded_later(
    run: Run,
    n: int,
    m: int,
    result: JibResultView,
    low: int,
    high: int,
    lower: int,
    higher: int,
)
    requires
        n <= m,
        lower <= low,
        high <= higher,
        run.founded(n, result, low, high),
    ensures
        run.founded(m, result, lower, higher),
{
    let i = choose|i: int| low <= i < high && #[trigger] run.tells(n, result, i);
    lemma_tells_later(run, n, m, result, i);
}

/// A submission stays faithful as more events come.
pub proof fn lemma_faithful_later(run: Run, n: int, m: int, s: SubmissionView)
    requires
        n <= m,
        run.faithful(n, s),
    ensures
        run.faithful(m, s),
{
    let (low, high) = (run.batch_start(s), run.batch_end(s));
    assert forall|k: int| 0 <= k < s.pending.len() implies run.stems_signed(
        m,
        s,
        #[trigger] s.pending[k],
    ) by {
        let (i, blockhash) = choose|i: int, blockhash: Blockhash|
            low <= i < high && s.pending[k] == #[trigger] run.transaction(i, blockhash)
                && run.blockhash_read(n, blockhash);
        assert(run.blockhash_read(m, blockhash));
    }
    assert forall|k: int| 0 <= k < s.results.len() implies run.founded(
        m,
        #[trigger] s.results[k],
        low,
        high,
    ) by {
        lemma_founded_later(run, n, m, s.results[k], low, high, low, high);
    }
    assert forall|k: int| 0 <= k < s.done.len() implies run.founded(
        m,
        #[trigger] s.done[k],
        0,
        low,
    ) by {
        lemma_founded_later(run, n, m, s.done[k], 0, low, 0, low);
    }
    assert forall|i: int| low <= i < high implies #[trigger] run.in_hand(m, s, i) by {
        assert(run.in_hand(n, s, i));
        if run.answered(n, s.results, i) {
            lemma_answered_later(run, n, m, s.results, s.results, i);
        }
    }
    assert forall|i: int| 0 <= i < low implies #[trigger] run.answered(m, s.done, i) by {
        assert(run.answered(n, s.done, i));
        lemma_answered_later(run, n, m, s.done, s.done, i);
    }
}

/// The two submissions have the same messages, transactions and results.
pub open spec fn same_contents(s: SubmissionView, t: SubmissionView) -> bool {
    &&& t.rest == s.rest
    &&& t.total == s.total
    &&& t.messages == s.messages
    &&& t.pending == s.pending
    &&& t.done == s.done
    &&& t.results == s.results
}

/// A submission with the same contents is as faithful.
pub proof fn lemma_same_faithful(run: Run, n: int, s: SubmissionView, t: SubmissionView)
    requires
        run.faithful(n, s),
        same_contents(s, t),
    ensures
        run.faithful(n, t),
{
    assert forall|k: int| 0 <= k < t.messages.len() implies run.stems(
        t,
        #[trigger] t.messages[k],
    ) by {
        assert(run.stems(s, s.messages[k]));
    }
    assert forall|k: int| 0 <= k < t.pending.len() implies run.stems_signed(
        n,
        t,
        #[trigger] t.pending[k],
    ) by {
        assert(run.stems_signed(n, s, s.pending[k]));
    }
    assert forall|i: int| run.batch_start(t) <= i < run.batch_end(t) implies #[trigger] run.in_hand(
        n,
        t,
        i,
    ) by {
        assert(run.in_hand(n, s, i));
    }
}

/// The round of signing leaves none of the messages out.
proof fn lemma_round_covers(
    run: Run,
    s: SubmissionView,
    round: Seq<MessageView>,
    blockhash: Blockhash,
)
    requires
        run.told_apart(),
        run.blockhash_read(run.events.len() as int, blockhash),
        0 <= run.batch_start(s) <= run.batch_end(s) <= run.messages.len(),
        forall|k: int| 0 <= k < round.len() ==> run.stems(s, #[trigger] round[k]),
        forall|k: int| 0 <= k < round.len() ==> submittable(#[trigger] round[k], run.signers),
    ensures
        signed_round(round, run.signers, blockhash) matches Ok(pending) ==> {
            &&& forall|k: int|
                0 <= k < round.len() ==> pending.contains(
                    signed(#[trigger] round[k], run.signers, blockhash),
                )
            &&& forall|k: int|
                0 <= k < pending.len() ==> exists|i: int|
                    run.batch_start(s) <= i < run.batch_end(s) && #[trigger] pending[k]
                        == #[trigger] run.transaction(i, blockhash)
        },
    decreases round.len(),
{
    let signers = run.signers;
    if round.len() > 0 && signed_round(round, signers, blockhash) is Ok {
        let shorter = round.drop_last();
        assert forall|k: int| 0 <= k < shorter.len() implies run.stems(s, #[trigger] shorter[k])
            && submittable(shorter[k], signers) by {
            assert(shorter[k] == round[k]);
        }
        lemma_round_covers(run, s, shorter, blockhash);
        lemma_round(shorter, signers, blockhash);
        let before = signed_round(shorter, signers, blockhash)->Ok_0;
        let last = round[round.len() - 1];
        let tx = signed(last, signers, blockhash);
        let pending = with_transaction(before, tx);
        assert(submittable(last, signers));
        assert(run.stems(s, last));
        lemma_with_transaction(before, tx);
        let i = choose|i: int|
            run.batch_start(s) <= i < run.batch_end(s) && alike(#[trigger] run.messages[i], last);
        lemma_alike_signed(run.messages[i], last, signers, blockhash);
        assert(run.transaction(i, blockhash) == tx);
        if has_id(before, id(tx)) {
            let p = index_of_id(before, id(tx));
            assert(id_at(before, id(tx), p));
            let j = choose|j: int|
                run.batch_start(s) <= j < run.batch_end(s) && before[p]
                    == #[trigger] run.transaction(j, blockhash);
            assert(id(run.transaction(i, blockhash)) == id(run.transaction(j, blockhash)));
            lemma_alike_signed(run.messages[i], run.messages[j], signers, blockhash);
            assert(before[p] == tx);
            assert(pending =~= before);
            assert(pending[p] == tx);
        } else {
            assert(pending[before.len() as int] == tx);
        }
        assert forall|k: int| 0 <= k < round.len() implies pending.contains(
            signed(#[trigger] round[k], signers, blockhash),
        ) by {
            if k < shorter.len() {
                assert(shorter[k] == round[k]);
                let q = choose|q: int|
                    0 <= q < before.len() && before[q] == signed(round[k], signers, blockhash);
                assert(pending[q] == before[q]);
            }
        }
        assert forall|k: int| 0 <= k < pending.len() implies exists|i: int|
            run.batch_start(s) <= i < run.batch_end(s) && #[trigger] pending[k]
                == #[trigger] run.transaction(i, blockhash) by {
            if pending[k] == tx {
                assert(pending[k] == run.transaction(i, blockhash));
            } else {
                assert(before[k] == pending[k]);
            }
        }
    }
}

/// Signing a round keeps a submission faithful.
proof fn lemma_sign_round_faithful(
    run: Run,
    n: int,
    s: SubmissionView,
    blockhash: Blockhash,
    last_valid: u64,
)
    requires
        run.valid(),
        s.well_formed(),
        s.phase is AwaitingBlockhash,
        s.accepts(run.signers),
        n <= run.events.len(),
        run.blockhash_read(n, blockhash),
        run.faithful(n, s),
    ensures
        run.faithful(n, s.sign_round(run.signers, blockhash, last_valid).0),
{
    let signers = run.signers;
    let after = s.sign_round(signers, blockhash, last_valid).0;
    lemma_round_covers(run, s, s.messages, blockhash);
    if signed_round(s.messages, signers, blockhash) is Ok {
        let (low, high) = (run.batch_start(s), run.batch_end(s));
        assert forall|k: int| 0 <= k < after.pending.len() implies run.stems_signed(
            n,
            after,
            #[trigger] after.pending[k],
        ) by {
            let i = choose|i: int|
                low <= i < high && after.pending[k] == #[trigger] run.transaction(i, blockhash);
            assert(after.pending[k] == run.transaction(i, blockhash));
        }
        assert forall|i: int| low <= i < high implies #[trigger] run.in_hand(n, after, i) by {
            assert(run.in_hand(n, s, i));
            if exists|k: int|
                0 <= k < s.messages.len() && alike(run.messages[i], #[trigger] s.messages[k]) {
                let k = choose|k: int|
                    0 <= k < s.messages.len() && alike(run.messages[i], #[trigger] s.messages[k]);
                lemma_alike_signed(run.messages[i], s.messages[k], signers, blockhash);
                assert(after.pending.contains(signed(s.messages[k], signers, blockhash)));
                let q = choose|q: int|
                    0 <= q < after.pending.len() && after.pending[q] == signed(
                        s.messages[k],
                        signers,
                        blockhash,
                    );
                assert(after.pending[q] == run.transaction(i, blockhash));
            }
        }
    } else {
        lemma_same_faithful(run, n, s, after);
    }
}

/// Going on with the pending transactions keeps a submission faithful.
proof fn lemma_resume_faithful(run: Run, n: int, s: SubmissionView, notices: Seq<NoticeView>)
    requires
        s.messages.len() == 0,
        run.faithful(n, s),
    ensures
        run.faithful(n, s.resume(notices).0),
{
    let after = s.resume(notices).0;
    if s.block_height <= s.last_valid {
        lemma_same_faithful(run, n, s, after);
    } else {
        let (low, high) = (run.batch_start(s), run.batch_end(s));
        assert forall|k: int| 0 <= k < after.messages.len() implies run.stems(
            after,
            #[trigger] after.messages[k],
        ) by {
            assert(run.stems_signed(n, s, s.pending[k]));
            let (i, blockhash) = choose|i: int, blockhash: Blockhash|
                low <= i < high && s.pending[k] == #[trigger] run.transaction(i, blockhash)
                    && run.blockhash_read(n, blockhash);
            assert(after.messages[k] == s.pending[k].message);
            assert(alike(run.messages[i], after.messages[k]));
        }
        assert forall|i: int| low <= i < high implies #[trigger] run.in_hand(n, after, i) by {
            assert(run.in_hand(n, s, i));
            if exists|k: int, blockhash: Blockhash|
                0 <= k < s.pending.len() && #[trigger] s.pending[k] == #[trigger] run.transaction(
                    i,
                    blockhash,
                ) {
                let (k, blockhash) = choose|k: int, blockhash: Blockhash|
                    0 <= k < s.pending.len() && #[trigger] s.pending[k]
                        == #[trigger] run.transaction(i, blockhash);
                assert(after.messages[k] == s.pending[k].message);
                assert(alike(run.messages[i], after.messages[k]));
            }
        }
    }
}

/// Once nothing of a batch is left, the next one begins faithfully, or every message is answered.
#[verifier::rlimit(40)]
proof fn lemma_conclude_faithful(run: Run, n: int, s: SubmissionView, notices: Seq<NoticeView>)
    requires
        s.batch_size > 0,
        s.messages.len() == 0,
        s.pending.len() == 0,
        run.faithful(n, s),
    ensures
        match s.conclude(notices).1.action {
            ActionView::Finish(Ok(results)) => run.complete(n, results),
            _ => run.faithful(n, s.conclude(notices).0),
        },
{
    let after = s.conclude(notices).0;
    let done = s.done + s.results;
    let (low, high) = (run.batch_start(s), run.batch_end(s));
    assert(s.done.is_prefix_of(done));
    assert forall|k: int| 0 <= k < done.len() implies run.founded(
        n,
        #[trigger] done[k],
        0,
        high,
    ) by {
        if k < s.done.len() {
            assert(done[k] == s.done[k]);
            lemma_founded_later(run, n, n, s.done[k], 0, low, 0, high);
        } else {
            assert(done[k] == s.results[k - s.done.len()]);
            lemma_founded_later(run, n, n, done[k], low, high, 0, high);
        }
    }
    assert forall|i: int| 0 <= i < high implies #[trigger] run.answered(n, done, i) by {
        if i < low {
            assert(run.answered(n, s.done, i));
            lemma_answered_later(run, n, n, s.done, done, i);
        } else {
            assert(run.in_hand(n, s, i));
            let k = choose|k: int|
                0 <= k < s.results.len() && run.tells(n, #[trigger] s.results[k], i);
            assert(done[s.done.len() + k] == s.results[k]);
        }
    }
    if s.rest.len() > 0 {
        let count = shorter(s.batch_size as nat, s.rest.len()) as int;
        assert(after.done == done);
        assert(after.rest =~= run.messages.skip(run.batch_end(after)));
        assert(run.batch_start(after) == high);
        assert forall|k: int| 0 <= k < after.messages.len() implies run.stems(
            after,
            #[trigger] after.messages[k],
        ) by {
            assert(after.messages[k] == run.messages[high + k]);
            assert(alike(run.messages[high + k], after.messages[k]));
        }
        assert forall|i: int| high <= i < high + count implies #[trigger] run.in_hand(
            n,
            after,
            i,
        ) by {
            assert(after.messages[i - high] == run.messages[i]);
        }
    }
}

/// Asking for statuses keeps a submission faithful; if it ends there, every message is answered.
proof fn lemma_ask_statuses_faithful(
    run: Run,
    n: int,
    s: SubmissionView,
    notices: Seq<NoticeView>,
    from: nat,
)
    requires
        s.batch_size > 0,
        s.messages.len() == 0,
        run.faithful(n, s),
    ensures
        match s.ask_statuses(notices, from).1.action {
            ActionView::Finish(Ok(results)) => run.complete(n, results),
            _ => run.faithful(n, s.ask_statuses(notices, from).0),
        },
{
    if from < s.queried.len() {
        lemma_same_faithful(run, n, s, s.ask_statuses(notices, from).0);
    } else if s.pending.len() == 0 {
        lemma_conclude_faithful(run, n, s, notices);
    } else {
        lemma_resume_faithful(run, n, s, notices);
    }
}

/// Taking note of a status that the events tell keeps a submission faithful.
proof fn lemma_settle_one_faithful(
    run: Run,
    n: int,
    s: SubmissionView,
    signature: Signature,
    status: Option<SignatureStatusView>,
)
    requires
        identified(s.pending),
        run.faithful(n, s),
        status matches Some(known) ==> run.told(n, signature, known),
    ensures
        run.faithful(n, s.settle_one(signature, status)),
{
    let after = s.settle_one(signature, status);
    if settles(s.pending, signature, status) {
        let (low, high) = (run.batch_start(s), run.batch_end(s));
        let p = index_of_id(s.pending, signature);
        assert(id_at(s.pending, signature, p));
        let tx = s.pending[p];
        let result = result_of(tx, status->0);
        assert(after.results == s.results.push(result));
        assert(s.results.is_prefix_of(after.results));
        lemma_settle_one_keeps(s, signature, status);
        assert forall|k: int| 0 <= k < after.pending.len() implies run.stems_signed(
            n,
            after,
            #[trigger] after.pending[k],
        ) by {
            let q = choose|q: int| 0 <= q < s.pending.len() && s.pending[q] == after.pending[k];
            assert(run.stems_signed(n, s, s.pending[q]));
        }
        assert forall|k: int| 0 <= k < after.results.len() implies run.founded(
            n,
            #[trigger] after.results[k],
            low,
            high,
        ) by {
            if k < s.results.len() {
                assert(after.results[k] == s.results[k]);
            } else {
                assert(run.stems_signed(n, s, tx));
                let (i, blockhash) = choose|i: int, blockhash: Blockhash|
                    low <= i < high && tx == #[trigger] run.transaction(i, blockhash)
                        && run.blockhash_read(n, blockhash);
                assert(run.tells_of(n, after.results[k], i, blockhash, status->0));
                assert(run.tells(n, after.results[k], i));
            }
        }
        assert forall|i: int| low <= i < high implies #[trigger] run.in_hand(n, after, i) by {
            assert(run.in_hand(n, s, i));
            if run.answered(n, s.results, i) {
                lemma_answered_later(run, n, n, s.results, after.results, i);
            } else if exists|k: int, blockhash: Blockhash|
                0 <= k < s.pending.len() && #[trigger] s.pending[k] == #[trigger] run.transaction(
                    i,
                    blockhash,
                ) {
                let (k, blockhash) = choose|k: int, blockhash: Blockhash|
                    0 <= k < s.pending.len() && #[trigger] s.pending[k]
                        == #[trigger] run.transaction(i, blockhash);
                if k == p {
                    assert(run.stems_signed(n, s, tx));
                    let (j, read) = choose|j: int, read: Blockhash|
                        low <= j < high && tx == #[trigger] run.transaction(j, read)
                            && run.blockhash_read(n, read);
                    assert(tx.message.recent_blockhash == blockhash);
                    assert(read == blockhash);
                    assert(run.tells_of(
                        n,
                        after.results[s.results.len() as int],
                        i,
                        blockhash,
                        status->0,
                    ));
                    assert(run.tells(n, after.results[s.results.len() as int], i));
                } else {
                    let q = if k < p {
                        k
                    } else {
                        k - 1
                    };
                    assert(after.pending[q] == run.transaction(i, blockhash));
                }
            } else {
                let k = choose|k: int|
                    0 <= k < s.messages.len() && alike(run.messages[i], #[trigger] s.messages[k]);
                assert(alike(run.messages[i], after.messages[k]));
            }
        }
    }
}

/// Taking note of the statuses of event `e` keeps a submission faithful.
pub proof fn lemma_settle_faithful(
    run: Run,
    e: int,
    s: SubmissionView,
    signatures: Seq<Signature>,
    statuses: Seq<Option<SignatureStatusView>>,
    count: nat,
)
    requires
        0 <= e < run.events.len(),
        identified(s.pending),
        run.faithful(e + 1, s),
        run.action(e) == ActionView::GetSignatureStatuses(signatures),
        run.events[e] == EventView::Statuses(Some(statuses)),
        count <= signatures.len(),
        count <= statuses.len(),
    ensures
        run.faithful(e + 1, s.settle(signatures, statuses, count)),
    decreases count,
{
    if count > 0 {
        let m = (count - 1) as nat;
        lemma_settle_faithful(run, e, s, signatures, statuses, m);
        lemma_settle_keeps(s, signatures, statuses, m);
        if let Some(known) = statuses[count - 1] {
            assert(run.told_at(e, count - 1, signatures[count - 1], known));
        }
        lemma_settle_one_faithful(
            run,
            e + 1,
            s.settle(signatures, statuses, m),
            signatures[count - 1],
            statuses[count - 1],
        );
    }
}

/// An event keeps a submission faithful; if it ends well there, every message is answered.
#[verifier::rlimit(40)]
proof fn lemma_next_faithful(run: Run, e: int)
    requires
        run.valid(),
        0 <= e < run.events.len(),
        run.state(e).well_formed(),
        run.state(e).accepts(run.signers),
        run.state(e).phase matches Phase::AwaitingStatuses(from) ==> run.action(e)
            == ActionView::GetSignatureStatuses(
            run.state(e).queried.subrange(
                from as int,
                run.state(e).query_end(from as nat) as int,
            ),
        ),
        run.faithful(e, run.state(e)),
    ensures
        match run.action(e + 1) {
            ActionView::Finish(Ok(results)) => run.complete(e + 1, results),
            _ => run.faithful(e + 1, run.state(e + 1)),
        },
{
    let s = run.state(e);
    let event = run.events[e];
    let after = run.state(e + 1);
    let n = e + 1;
    assert(s.phase.expects(event));
    lemma_faithful_later(run, e, n, s);
    match (s.phase, event) {
        (Phase::AwaitingBlockhash, EventView::Blockhash(Ok((blockhash, last_valid)))) => {
            assert(gives_blockhash(run.events[e], blockhash));
            lemma_sign_round_faithful(run, n, s, blockhash, last_valid);
        },
        (Phase::ArmingTimer, EventView::Clock(now)) => {
            let armed = SubmissionView { last_resend: now - RESEND_INTERVAL_NANOS, ..s };
            lemma_same_faithful(run, n, s, armed);
            lemma_resume_faithful(run, n, armed, Seq::empty());
        },
        (Phase::AwaitingBlock(refreshes), EventView::BlockHeight(Ok(height))) => {
            let seen = SubmissionView { block_height: height, queried: ids_of(s.pending), ..s };
            lemma_same_faithful(run, n, s, seen);
            lemma_ask_statuses_faithful(run, n, seen, Seq::empty(), 0);
            if height == s.block_height && refreshes > 0 {
                lemma_same_faithful(run, n, s, after);
            }
        },
        (Phase::AwaitingStatuses(from), EventView::Statuses(reply)) => {
            let signatures = s.queried.subrange(from as int, s.query_end(from as nat) as int);
            let (settled, told) = match reply {
                Some(statuses) => {
                    let count = shorter(signatures.len(), statuses.len());
                    (s.settle(signatures, statuses, count), s.told(signatures, statuses, count))
                },
                None => (s, Seq::empty()),
            };
            if let Some(statuses) = reply {
                let count = shorter(signatures.len(), statuses.len());
                lemma_settle_keeps(s, signatures, statuses, count);
                lemma_settle_faithful(run, e, s, signatures, statuses, count);
            }
            lemma_ask_statuses_faithful(
                run,
                n,
                settled,
                told.push(
                    settled.progress(Some(settled.block_height), "Checking transaction status..."@),
                ),
                s.query_end(from as nat),
            );
        },
        _ => {
            lemma_same_faithful(run, n, s, after);
        },
    }
}

/// While statuses are waited for, they have been asked for.
pub proof fn lemma_statuses_asked(run: Run, n: int)
    requires
        run.sound(),
        0 <= n <= run.events.len(),
    ensures
        run.state(n).phase matches Phase::AwaitingStatuses(from) ==> run.action(n)
            == ActionView::GetSignatureStatuses(
            run.state(n).queried.subrange(
                from as int,
                run.state(n).query_end(from as nat) as int,
            ),
        ),
{
    if n > 0 {
        let s = run.state(n - 1);
        lemma_played(run, n - 1);
        assert(s.phase.expects(run.events[n - 1]));
        lemma_next_asks(s, run.signers, run.events[n - 1]);
    }
}

#[verifier::rlimit(40)]
proof fn lemma_next_asks(s: SubmissionView, signers: Seq<KeypairView>, event: EventView)
    requires
        s.well_formed(),
        s.phase.expects(event),
    ensures
        ({
            let (after, step) = s.next(signers, event);
            after.phase matches Phase::AwaitingStatuses(from) ==> step.action
                == ActionView::GetSignatureStatuses(
                after.queried.subrange(from as int, after.query_end(from as nat) as int),
            )
        }),
{
    match (s.phase, event) {
        (Phase::AwaitingBlock(_), EventView::BlockHeight(Ok(height))) => {
            let seen = SubmissionView { block_height: height, queried: ids_of(s.pending), ..s };
            lemma_ask_statuses_asks(seen, Seq::empty(), 0);
        },
        (Phase::AwaitingStatuses(from), EventView::Statuses(reply)) => {
            let signatures = s.queried.subrange(from as int, s.query_end(from as nat) as int);
            let (settled, told) = match reply {
                Some(statuses) => {
                    let count = shorter(signatures.len(), statuses.len());
                    (s.settle(signatures, statuses, count), s.told(signatures, statuses, count))
                },
                None => (s, Seq::empty()),
            };
            if let Some(statuses) = reply {
                let count = shorter(signatures.len(), statuses.len());
                lemma_settle_keeps(s, signatures, statuses, count);
            }
            lemma_ask_statuses_asks(
                settled,
                told.push(
                    settled.progress(Some(settled.block_height), "Checking transaction status..."@),
                ),
                s.query_end(from as nat),
            );
        },
        _ => {},
    }
}

proof fn lemma_ask_statuses_asks(s: SubmissionView, notices: Seq<NoticeView>, from: nat)
    requires
        s.queried.len() <= usize::MAX,
    ensures
        ({
            let (after, step) = s.ask_statuses(notices, from);
            after.phase matches Phase::AwaitingStatuses(start) ==> step.action
                == ActionView::GetSignatureStatuses(
                after.queried.subrange(start as int, after.query_end(start as nat) as int),
            )
        }),
{
}

/// After any events the submission is well-formed and faithful, or it has ended.
pub proof fn lemma_played(run: Run, n: int)
    requires
        run.sound(),
        0 <= n <= run.events.len(),
    ensures
        run.state(n).well_formed(),
        run.state(n).accepts(run.signers),
        run.state(n).phase is Finished <==> run.action(n) is Finish,
        match run.action(n) {
            ActionView::Finish(Ok(results)) => results.len() <= run.messages.len(),
            _ => work(run.state(n)) <= run.messages.len(),
        },
    decreases n,
{
    if n == 0 {
        let initial = SubmissionView::initial(run.messages, run.batch_size);
        let notices = seq![NoticeView::Started(run.messages.len())];
        lemma_begin_batch_keeps(initial, notices);
        lemma_begin_batch_accepts(initial, notices, run.signers);
    } else {
        lemma_played(run, n - 1);
        let s = run.state(n - 1);
        assert(s.phase.expects(run.events[n - 1]));
        law_step_keeps_well_formed(s, run.signers, run.events[n - 1]);
        law_over_when_finished(s, run.signers, run.events[n - 1]);
        law_no_work_is_added(s, run.signers, run.events[n - 1]);
    }
}

/// After any events the submission is faithful, or it has ended and every message is answered.
pub proof fn lemma_played_faithful(run: Run, n: int)
    requires
        run.valid(),
        0 <= n <= run.events.len(),
    ensures
        match run.action(n) {
            ActionView::Finish(Ok(results)) => run.complete(n, results),
            _ => run.faithful(n, run.state(n)),
        },
    decreases n,
{
    if n == 0 {
        let after = run.state(0);
        if run.messages.len() > 0 {
            assert(after.rest =~= run.messages.skip(run.batch_end(after)));
            assert forall|k: int| 0 <= k < after.messages.len() implies run.stems(
                after,
                #[trigger] after.messages[k],
            ) by {
                assert(alike(run.messages[k], after.messages[k]));
            }
            assert forall|i: int|
                run.batch_start(after) <= i < run.batch_end(after) implies #[trigger] run.in_hand(
                0,
                after,
                i,
            ) by {
                assert(after.messages[i] == run.messages[i]);
            }
        }
    } else {
        lemma_played(run, n - 1);
        lemma_played_faithful(run, n - 1);
        assert(run.state(n - 1).phase.expects(run.events[n - 1]));
        lemma_statuses_asked(run, n - 1);
        lemma_next_faithful(run, n - 1);
    }
}

/// When a submission ends well, every message is answered: one of the results is the outcome of
/// the message, signed with a blockhash that was read, as a sure enough status of its own signature
/// tells it. Every result is the outcome of one of the messages, and there are no more results than
/// messages.
pub proof fn law_every_message_is_answered(run: Run)
    requires
        run.valid(),
    ensures
        run.outcome() matches ActionView::Finish(Ok(results)) ==> run.complete(
            run.events.len() as int,
            results,
        ) && results.len() <= run.messages.len(),
{
    let n = run.events.len() as int;
    lemma_played(run, n);
    lemma_played_faithful(run, n);
}

} // verus!
