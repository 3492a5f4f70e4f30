//! Sending transactions and confirming them, as a state machine: what is done at each event.
use vstd::prelude::*;

use crate::error::{SendErrorView, SignerError};
use crate::keypair::KeypairView;
use crate::model::{Blockhash, MessageView, Signature, TransactionView};
use crate::outcome::JibResultView;
use crate::progress::{expired_line, progress_line, sending_status, waiting_status};
use crate::sdk::{sign_error, signature_text};
use crate::signing::{may_sign, signed};
use crate::status::{COMMITMENT, SignatureStatusView, satisfies};

verus! {

/// How many blockhashes are tried for a batch.
pub const MAX_BLOCKHASHES: u32 = 5;

/// How long it takes until the pending transactions are sent again, in nanoseconds.
pub const RESEND_INTERVAL_NANOS: u64 = 4_000_000_000;

/// The pause after each transaction that is sent, in milliseconds: about 100 a second.
pub const SEND_PAUSE_MILLIS: u64 = 10;

/// The pause before the block height is asked for again, in milliseconds.
pub const BLOCK_PAUSE_MILLIS: u64 = 500;

/// How often the block height is asked for until the statuses are looked at all the same.
pub const BLOCK_REFRESHES: u32 = 10;

/// The most signatures whose statuses can be asked for at once.
pub const MAX_STATUS_QUERY: usize = 256;

/// What the machine is waiting for.
#[derive(Clone, Copy, Debug, PartialEq, Eq)]
pub enum Phase {
    /// The block height at which a batch starts.
    Starting,
    /// A blockhash to sign the transactions with.
    AwaitingBlockhash,
    /// The time, to make the next sending due.
    ArmingTimer,
    /// The time, to see whether the transactions are to be sent again.
    CheckingTimer,
    /// Whether the leader took this pending transaction.
    SendingToLeader(usize),
    /// That the RPC node was sent this pending transaction.
    SendingToRpc(usize),
    /// The time at which all pending transactions had been sent.
    StampingTimer,
    /// The block height; it may be asked for so many times more.
    AwaitingBlock(u32),
    /// The statuses of the signatures from this position on.
    AwaitingStatuses(usize),
    /// Nothing: everything is confirmed, or sending has failed.
    Finished,
}

/// The mathematical content of an event.
pub enum EventView {
    BlockHeight(Result<u64, Seq<char>>),
    Blockhash(Result<(Blockhash, u64), Seq<char>>),
    Clock(u64),
    LeaderSent(bool),
    RpcSent,
    Statuses(Option<Seq<Option<SignatureStatusView>>>),
}

/// The mathematical content of an action.
pub enum ActionView {
    GetBlockHeight,
    GetLatestBlockhash,
    ReadClock,
    SendToLeader(TransactionView),
    SendToRpc(TransactionView),
    GetSignatureStatuses(Seq<Signature>),
    Finish(Result<Seq<JibResultView>, SendErrorView>),
}

impl ActionView {
    /// The event is what comes of the action.
    pub open spec fn answered_by(self, event: EventView) -> bool {
        match self {
            ActionView::GetBlockHeight => event is BlockHeight,
            ActionView::GetLatestBlockhash => event is Blockhash,
            ActionView::ReadClock => event is Clock,
            ActionView::SendToLeader(_) => event is LeaderSent,
            ActionView::SendToRpc(_) => event is RpcSent,
            ActionView::GetSignatureStatuses(_) => event is Statuses,
            ActionView::Finish(_) => false,
        }
    }
}

/// The mathematical content of a notice.
pub enum NoticeView {
    Started(nat),
    BatchStarted(nat),
    Progress(nat, nat, Seq<char>),
    Line(Seq<char>),
    BatchFinished(nat),
}

/// The mathematical content of a step.
pub struct StepView {
    pub notices: Seq<NoticeView>,
    pub pause_millis: u64,
    pub action: ActionView,
}

/// The mathematical content of a submission.
#[verifier::ext_equal]
pub struct SubmissionView {
    /// The messages of the batches to come.
    pub rest: Seq<MessageView>,
    /// The most messages of a batch.
    pub batch_size: usize,
    /// The results of the batches that are finished.
    pub done: Seq<JibResultView>,
    /// The number of messages of the batch.
    pub total: nat,
    /// The messages of the batch that are to be signed with the next blockhash.
    pub messages: Seq<MessageView>,
    /// The transactions of the batch that are signed and not confirmed.
    pub pending: Seq<TransactionView>,
    /// The results of the transactions of the batch that are confirmed.
    pub results: Seq<JibResultView>,
    /// How many blockhashes may still be tried, the present one included.
    pub retries: u32,
    /// The last known block height.
    pub block_height: u64,
    /// The last block height at which the present blockhash is valid.
    pub last_valid: u64,
    /// The time since which the next sending is being waited for, in nanoseconds.
    pub last_resend: int,
    /// The signatures whose statuses are being asked for.
    pub queried: Seq<Signature>,
    pub phase: Phase,
}

/// The signature by which a transaction is known.
pub open spec fn id(tx: TransactionView) -> Signature {
    tx.signatures[0]
}

/// The transaction at position `i` is known by `signature`.
pub open spec fn id_at(pending: Seq<TransactionView>, signature: Signature, i: int) -> bool {
    0 <= i < pending.len() && id(pending[i]) == signature
}

/// One of the transactions is known by `signature`.
pub open spec fn has_id(pending: Seq<TransactionView>, signature: Signature) -> bool {
    exists|i: int| id_at(pending, signature, i)
}

/// Where the transaction that is known by `signature` stands.
pub open spec fn index_of_id(pending: Seq<TransactionView>, signature: Signature) -> int {
    choose|i: int| id_at(pending, signature, i)
}

/// No two transactions are known by the same signature.
pub open spec fn distinct_ids(pending: Seq<TransactionView>) -> bool {
    forall|i: int, j: int|
        0 <= i < j < pending.len() ==> id(#[trigger] pending[i]) != id(#[trigger] pending[j])
}

/// The transactions with one more, which replaces one that is known by the same signature.
pub open spec fn with_transaction(
    pending: Seq<TransactionView>,
    tx: TransactionView,
) -> Seq<TransactionView> {
    if has_id(pending, id(tx)) {
        pending.update(index_of_id(pending, id(tx)), tx)
    } else {
        pending.push(tx)
    }
}

/// The messages signed for a block, or why the first that cannot be signed cannot.
pub open spec fn signed_round(
    messages: Seq<MessageView>,
    signers: Seq<KeypairView>,
    blockhash: Blockhash,
) -> Result<Seq<TransactionView>, SignerError>
    decreases messages.len(),
{
    if messages.len() == 0 {
        Ok(Seq::empty())
    } else {
        match signed_round(messages.drop_last(), signers, blockhash) {
            Err(e) => Err(e),
            Ok(pending) => match sign_error(messages.last(), signers) {
                Some(e) => Err(e),
                None => Ok(with_transaction(pending, signed(messages.last(), signers, blockhash))),
            },
        }
    }
}

/// The message can be submitted by the signers: if it can be signed, it has a signature.
pub open spec fn submittable(message: MessageView, signers: Seq<KeypairView>) -> bool {
    may_sign(message, signers) && !(sign_error(message, signers) is None
        && message.signature_count() == 0)
}

/// The result of a transaction that is confirmed with this status.
pub open spec fn result_of(tx: TransactionView, status: SignatureStatusView) -> JibResultView {
    match status.err {
        Some(e) => JibResultView::Failure(tx, e),
        None => JibResultView::Success(signature_text(id(tx))),
    }
}

/// The status settles the transaction that is known by `signature`: it is pending, and the status
/// is sure enough.
pub open spec fn settles(
    pending: Seq<TransactionView>,
    signature: Signature,
    status: Option<SignatureStatusView>,
) -> bool {
    (status matches Some(s) && satisfies(s, COMMITMENT)) && has_id(pending, signature)
}

/// The shorter of two lengths.
pub open spec fn shorter(a: nat, b: nat) -> nat {
    if a < b {
        a
    } else {
        b
    }
}

/// The messages of a transaction each.
pub open spec fn messages_of(pending: Seq<TransactionView>) -> Seq<MessageView> {
    pending.map_values(|tx: TransactionView| tx.message)
}

/// The signatures by which the transactions are known.
pub open spec fn ids_of(pending: Seq<TransactionView>) -> Seq<Signature> {
    pending.map_values(|tx: TransactionView| id(tx))
}

impl Phase {
    /// The event is what the machine is waiting for.
    pub open spec fn expects(self, event: EventView) -> bool {
        match self {
            Phase::Starting => event is BlockHeight,
            Phase::AwaitingBlockhash => event is Blockhash,
            Phase::ArmingTimer => event is Clock,
            Phase::CheckingTimer => event is Clock,
            Phase::SendingToLeader(_) => event is LeaderSent,
            Phase::SendingToRpc(_) => event is RpcSent,
            Phase::StampingTimer => event is Clock,
            Phase::AwaitingBlock(_) => event is BlockHeight,
            Phase::AwaitingStatuses(_) => event is Statuses,
            Phase::Finished => false,
        }
    }
}

impl SubmissionView {
    /// A submission that has not begun.
    pub open spec fn initial(messages: Seq<MessageView>, batch_size: usize) -> Self {
        SubmissionView {
            rest: messages,
            batch_size,
            done: Seq::empty(),
            total: 0,
            messages: Seq::empty(),
            pending: Seq::empty(),
            results: Seq::empty(),
            retries: MAX_BLOCKHASHES,
            block_height: 0,
            last_valid: 0,
            last_resend: 0,
            queried: Seq::empty(),
            phase: Phase::Finished,
        }
    }

    /// How a submission begins, and what is to be done at first.
    pub open spec fn started(messages: Seq<MessageView>, batch_size: usize) -> (Self, StepView) {
        Self::initial(messages, batch_size).begin_batch(seq![NoticeView::Started(messages.len())])
    }

    /// What is shown of the batch.
    pub open spec fn progress(self, block_height: Option<u64>, status: Seq<char>) -> NoticeView {
        NoticeView::Progress(
            self.results.len(),
            self.total,
            progress_line(block_height, self.last_valid, status),
        )
    }

    /// The machine waits for something, and asks for it.
    pub open spec fn wait(
        self,
        phase: Phase,
        notices: Seq<NoticeView>,
        pause_millis: u64,
        action: ActionView,
    ) -> (Self, StepView) {
        (SubmissionView { phase, ..self }, StepView { notices, pause_millis, action })
    }

    /// Sending has failed.
    pub open spec fn fail(self, notices: Seq<NoticeView>, e: SendErrorView) -> (Self, StepView) {
        self.wait(Phase::Finished, notices, 0, ActionView::Finish(Err(e)))
    }

    /// The next batch begins, or everything is confirmed.
    pub open spec fn begin_batch(self, notices: Seq<NoticeView>) -> (Self, StepView) {
        if self.rest.len() == 0 {
            (SubmissionView { done: Seq::empty(), ..self }).wait(
                Phase::Finished,
                notices,
                0,
                ActionView::Finish(Ok(self.done)),
            )
        } else {
            let n = shorter(self.batch_size as nat, self.rest.len());
            (SubmissionView {
                rest: self.rest.skip(n as int),
                total: n,
                messages: self.rest.take(n as int),
                pending: Seq::empty(),
                results: Seq::empty(),
                retries: MAX_BLOCKHASHES,
                queried: Seq::empty(),
                ..self
            }).wait(
                Phase::Starting,
                notices.push(NoticeView::BatchStarted(n)),
                0,
                ActionView::GetBlockHeight,
            )
        }
    }

    /// The machine asks for a blockhash.
    pub open spec fn ask_blockhash(self, notices: Seq<NoticeView>) -> (Self, StepView) {
        self.wait(Phase::AwaitingBlockhash, notices, 0, ActionView::GetLatestBlockhash)
    }

    /// The transactions are signed with a blockhash.
    pub open spec fn sign_round(
        self,
        signers: Seq<KeypairView>,
        blockhash: Blockhash,
        last_valid: u64,
    ) -> (Self, StepView) {
        match signed_round(self.messages, signers, blockhash) {
            Err(e) => self.fail(Seq::empty(), SendErrorView::Signer(e)),
            Ok(pending) => (SubmissionView {
                messages: Seq::empty(),
                pending,
                last_valid,
                ..self
            }).wait(Phase::ArmingTimer, Seq::empty(), 0, ActionView::ReadClock),
        }
    }

    /// The machine goes on with the pending transactions, or signs them again once the blockhash
    /// has expired.
    pub open spec fn resume(self, notices: Seq<NoticeView>) -> (Self, StepView) {
        if self.block_height <= self.last_valid {
            self.wait(Phase::CheckingTimer, notices, 0, ActionView::ReadClock)
        } else {
            self.expire(notices)
        }
    }

    /// The blockhash has expired.
    pub open spec fn expire(self, notices: Seq<NoticeView>) -> (Self, StepView) {
        let told = notices.push(NoticeView::Line(expired_line(self.retries as nat)));
        let expired = SubmissionView {
            messages: messages_of(self.pending),
            pending: Seq::empty(),
            retries: (self.retries - 1) as u32,
            ..self
        };
        if expired.retries > 0 {
            expired.ask_blockhash(told)
        } else {
            expired.fail(told, SendErrorView::Custom("Max retries exceeded"@))
        }
    }

    /// A pending transaction is sent to the leader.
    pub open spec fn send(
        self,
        notices: Seq<NoticeView>,
        pause_millis: u64,
        k: usize,
    ) -> (Self, StepView) {
        self.wait(
            Phase::SendingToLeader(k),
            notices,
            pause_millis,
            ActionView::SendToLeader(self.pending[k as int]),
        )
    }

    /// The pending transactions are sent, if that is due at the time `now`.
    pub open spec fn check_timer(self, now: u64) -> (Self, StepView) {
        if now - self.last_resend > RESEND_INTERVAL_NANOS {
            if self.pending.len() > 0 {
                self.send(Seq::empty(), 0, 0)
            } else {
                self.wait(Phase::StampingTimer, Seq::empty(), 0, ActionView::ReadClock)
            }
        } else {
            self.await_block()
        }
    }

    /// A pending transaction has been sent.
    pub open spec fn sent(self, k: usize) -> (Self, StepView) {
        let n = self.pending.len();
        let notices = seq![self.progress(None, sending_status((k + 1) as nat, n))];
        if k + 1 < n {
            self.send(notices, SEND_PAUSE_MILLIS, (k + 1) as usize)
        } else {
            self.wait(Phase::StampingTimer, notices, SEND_PAUSE_MILLIS, ActionView::ReadClock)
        }
    }

    /// The next block is waited for.
    pub open spec fn await_block(self) -> (Self, StepView) {
        self.wait(
            Phase::AwaitingBlock((BLOCK_REFRESHES - 1) as u32),
            seq![self.progress(Some(self.block_height), waiting_status(self.pending.len()))],
            BLOCK_PAUSE_MILLIS,
            ActionView::GetBlockHeight,
        )
    }

    /// The block height is `height`; if it is still the same it may be asked for again.
    pub open spec fn see_block(self, refreshes: u32, height: u64) -> (Self, StepView) {
        if height == self.block_height && refreshes > 0 {
            self.wait(
                Phase::AwaitingBlock((refreshes - 1) as u32),
                Seq::empty(),
                BLOCK_PAUSE_MILLIS,
                ActionView::GetBlockHeight,
            )
        } else {
            (SubmissionView {
                block_height: height,
                queried: ids_of(self.pending),
                ..self
            }).ask_statuses(Seq::empty(), 0)
        }
    }

    /// The end of the part of the signatures that is asked for from position `from` on.
    pub open spec fn query_end(self, from: nat) -> nat {
        shorter(from + MAX_STATUS_QUERY as nat, self.queried.len())
    }

    /// The statuses of the signatures from position `from` on are asked for.
    pub open spec fn ask_statuses(self, notices: Seq<NoticeView>, from: nat) -> (Self, StepView) {
        if from < self.queried.len() {
            self.wait(
                Phase::AwaitingStatuses(from as usize),
                notices,
                0,
                ActionView::GetSignatureStatuses(
                    self.queried.subrange(from as int, self.query_end(from) as int),
                ),
            )
        } else {
            self.conclude(notices)
        }
    }

    /// All statuses have been looked at.
    pub open spec fn conclude(self, notices: Seq<NoticeView>) -> (Self, StepView) {
        if self.pending.len() == 0 {
            (SubmissionView {
                done: self.done + self.results,
                results: Seq::empty(),
                ..self
            }).begin_batch(notices.push(NoticeView::BatchFinished(self.total)))
        } else {
            self.resume(notices)
        }
    }

    /// A status settles a transaction, or it does not.
    pub open spec fn settle_one(
        self,
        signature: Signature,
        status: Option<SignatureStatusView>,
    ) -> Self {
        if settles(self.pending, signature, status) {
            let i = index_of_id(self.pending, signature);
            SubmissionView {
                pending: self.pending.remove(i),
                results: self.results.push(result_of(self.pending[i], status->0)),
                ..self
            }
        } else {
            self
        }
    }

    /// What is told of a status.
    pub open spec fn told_of(
        self,
        signature: Signature,
        status: Option<SignatureStatusView>,
    ) -> Seq<NoticeView> {
        if settles(self.pending, signature, status) && status->0.err is Some {
            seq![NoticeView::Line("Failed transaction: "@ + status->0.description)]
        } else {
            Seq::empty()
        }
    }

    /// The first `n` statuses settle the transactions of the first `n` signatures.
    pub open spec fn settle(
        self,
        signatures: Seq<Signature>,
        statuses: Seq<Option<SignatureStatusView>>,
        n: nat,
    ) -> Self
        decreases n,
    {
        if n == 0 {
            self
        } else {
            self.settle(signatures, statuses, (n - 1) as nat).settle_one(
                signatures[n - 1],
                statuses[n - 1],
            )
        }
    }

    /// What is told of the first `n` statuses.
    pub open spec fn told(
        self,
        signatures: Seq<Signature>,
        statuses: Seq<Option<SignatureStatusView>>,
        n: nat,
    ) -> Seq<NoticeView>
        decreases n,
    {
        if n == 0 {
            Seq::empty()
        } else {
            let m = (n - 1) as nat;
            self.told(signatures, statuses, m) + self.settle(signatures, statuses, m).told_of(
                signatures[n - 1],
                statuses[n - 1],
            )
        }
    }

    /// The statuses of the signatures from position `from` on have come, or the request failed.
    pub open spec fn see_statuses(
        self,
        from: nat,
        reply: Option<Seq<Option<SignatureStatusView>>>,
    ) -> (Self, StepView) {
        let signatures = self.queried.subrange(from as int, self.query_end(from) as int);
        let (settled, told) = match reply {
            Some(statuses) => {
                let n = shorter(signatures.len(), statuses.len());
                (self.settle(signatures, statuses, n), self.told(signatures, statuses, n))
            },
            None => (self, Seq::empty()),
        };
        settled.ask_statuses(
            told.push(
                settled.progress(Some(settled.block_height), "Checking transaction status..."@),
            ),
            self.query_end(from),
        )
    }

    /// What happens at an event. One that is not waited for changes nothing.
    pub open spec fn next(self, signers: Seq<KeypairView>, event: EventView) -> (Self, StepView) {
        match (self.phase, event) {
            (Phase::Starting, EventView::BlockHeight(Ok(height))) => (SubmissionView {
                block_height: height,
                ..self
            }).ask_blockhash(Seq::empty()),
            (Phase::AwaitingBlockhash, EventView::Blockhash(Ok((blockhash, last_valid)))) => {
                self.sign_round(signers, blockhash, last_valid)
            },
            (Phase::ArmingTimer, EventView::Clock(now)) => (SubmissionView {
                last_resend: now - RESEND_INTERVAL_NANOS,
                ..self
            }).resume(Seq::empty()),
            (Phase::CheckingTimer, EventView::Clock(now)) => self.check_timer(now),
            (Phase::SendingToLeader(k), EventView::LeaderSent(true)) => self.sent(k),
            (Phase::SendingToLeader(k), EventView::LeaderSent(false)) => self.wait(
                Phase::SendingToRpc(k),
                Seq::empty(),
                0,
                ActionView::SendToRpc(self.pending[k as int]),
            ),
            (Phase::SendingToRpc(k), EventView::RpcSent) => self.sent(k),
            (Phase::StampingTimer, EventView::Clock(now)) => (SubmissionView {
                last_resend: now as int,
                ..self
            }).await_block(),
            (Phase::AwaitingBlock(refreshes), EventView::BlockHeight(Ok(height))) => {
                self.see_block(refreshes, height)
            },
            (Phase::AwaitingStatuses(from), EventView::Statuses(reply)) => self.see_statuses(
                from as nat,
                reply,
            ),
            (_, EventView::BlockHeight(Err(reason))) => self.fail(
                Seq::empty(),
                SendErrorView::Rpc(reason),
            ),
            (_, EventView::Blockhash(Err(reason))) => self.fail(
                Seq::empty(),
                SendErrorView::Rpc(reason),
            ),
            _ => self.wait(self.phase, Seq::empty(), 0, ActionView::ReadClock),
        }
    }

    /// What holds between any two events.
    pub open spec fn well_formed(self) -> bool {
        &&& self.batch_size > 0
        &&& self.rest.len() <= usize::MAX
        &&& self.results.len() + self.pending.len() + self.messages.len() <= self.total
        &&& self.total <= usize::MAX
        &&& distinct_ids(self.pending)
        &&& forall|i: int|
            0 <= i < self.pending.len() ==> (#[trigger] self.pending[i]).signatures.len() > 0
        &&& self.retries <= MAX_BLOCKHASHES
        &&& self.phase is Finished || self.retries > 0
        &&& -RESEND_INTERVAL_NANOS <= self.last_resend <= u64::MAX
        &&& match self.phase {
            Phase::Starting => self.pending.len() == 0,
            Phase::AwaitingBlockhash => self.pending.len() == 0,
            Phase::SendingToLeader(k) => k < self.pending.len() && self.messages.len() == 0,
            Phase::SendingToRpc(k) => k < self.pending.len() && self.messages.len() == 0,
            Phase::AwaitingBlock(refreshes) => refreshes < BLOCK_REFRESHES && self.messages.len()
                == 0,
            Phase::AwaitingStatuses(from) => from < self.queried.len() && self.queried.len()
                <= usize::MAX && self.messages.len() == 0,
            Phase::Finished => true,
            _ => self.messages.len() == 0,
        }
    }

    /// The signers can submit all the messages.
    pub open spec fn accepts(self, signers: Seq<KeypairView>) -> bool {
        &&& forall|i: int|
            0 <= i < self.rest.len() ==> submittable(#[trigger] self.rest[i], signers)
        &&& forall|i: int|
            0 <= i < self.messages.len() ==> submittable(#[trigger] self.messages[i], signers)
        &&& forall|i: int|
            0 <= i < self.pending.len() ==> submittable(
                (#[trigger] self.pending[i]).message,
                signers,
            )
    }
}

} // verus!
