//! Sending transactions and confirming them, one event at a time.
use vstd::prelude::*;

use crate::error::SendError;
use crate::keypair::{Keypair, KeypairView};
use crate::model::{Blockhash, Message, Signature, Transaction, views};
use crate::outcome::{JibFailedTransaction, JibResult};
use crate::pending::{copy_messages, find, identified, sign_all, signatures_of};
use crate::progress::{expired_text, progress_text, sending_text, waiting_text};
use crate::sdk::{satisfies_commitment, signature_string};
use crate::status::{COMMITMENT, SignatureStatus, SignatureStatusView};
use crate::submission_laws::{
    law_step_keeps_well_formed, lemma_begin_batch_accepts, lemma_begin_batch_keeps,
    lemma_settle_keeps, lemma_settle_one_keeps,
};
use crate::submission_model::{
    ActionView, BLOCK_PAUSE_MILLIS, BLOCK_REFRESHES, EventView, MAX_BLOCKHASHES, MAX_STATUS_QUERY,
    NoticeView, Phase, RESEND_INTERVAL_NANOS, SEND_PAUSE_MILLIS, StepView, SubmissionView,
    submittable,
};

verus! {

/// What has happened outside the machine.
pub enum Event {
    /// The RPC node has told the block height, or the request has failed for the reason given.
    BlockHeight(Result<u64, String>),
    /// The RPC node has told the latest blockhash and the last block height at which it is valid,
    /// or the request has failed for the reason given.
    Blockhash(Result<(Blockhash, u64), String>),
    /// The clock shows so many nanoseconds.
    Clock(u64),
    /// The transaction was sent to the leader, or it was not.
    LeaderSent(bool),
    /// The transaction was sent to the RPC node; whether it took it does not matter.
    RpcSent,
    /// The RPC node has told the statuses of signatures, or the request has failed.
    Statuses(Option<Vec<Option<SignatureStatus>>>),
}

/// What is to be done outside the machine. What comes of it is the next event.
pub enum Action {
    /// Ask the RPC node for the block height.
    GetBlockHeight,
    /// Ask the RPC node for the latest blockhash.
    GetLatestBlockhash,
    /// Read the clock.
    ReadClock,
    /// Send the transaction to the leader.
    SendToLeader(Transaction),
    /// Send the transaction to the RPC node.
    SendToRpc(Transaction),
    /// Ask the RPC node for the statuses of the signatures.
    GetSignatureStatuses(Vec<Signature>),
    /// Stop: every transaction is confirmed, with these results, or sending has failed.
    Finish(Result<Vec<JibResult>, SendError>),
}

/// What is to be shown.
pub enum Notice {
    /// So many transactions are to be sent in all.
    Started { total: usize },
    /// A batch of so many transactions begins.
    BatchStarted { size: usize },
    /// So many transactions of the batch are confirmed; the text goes beside the percentage.
    Progress { confirmed: usize, total: usize, text: String },
    /// A line of text.
    Line(String),
    /// A batch of so many transactions is confirmed.
    BatchFinished { size: usize },
}

/// What is to be done next.
pub struct Step {
    /// What is to be shown first, in this order.
    pub notices: Vec<Notice>,
    /// How long to wait then, in milliseconds.
    pub pause_millis: u64,
    /// What is to be done then.
    pub action: Action,
}

/// The mathematical content of a status that a node may not know.
pub open spec fn status_view(status: Option<SignatureStatus>) -> Option<SignatureStatusView> {
    match status {
        Some(s) => Some(s@),
        None => None,
    }
}

/// The mathematical content of a list of statuses.
pub open spec fn status_views(statuses: Seq<Option<SignatureStatus>>) -> Seq<
    Option<SignatureStatusView>,
> {
    statuses.map_values(|s: Option<SignatureStatus>| status_view(s))
}

impl View for Event {
    type V = EventView;

    open spec fn view(&self) -> EventView {
        match self {
            Event::BlockHeight(Ok(height)) => EventView::BlockHeight(Ok(*height)),
            Event::BlockHeight(Err(reason)) => EventView::BlockHeight(Err(reason@)),
            Event::Blockhash(Ok(latest)) => EventView::Blockhash(Ok(*latest)),
            Event::Blockhash(Err(reason)) => EventView::Blockhash(Err(reason@)),
            Event::Clock(now) => EventView::Clock(*now),
            Event::LeaderSent(sent) => EventView::LeaderSent(*sent),
            Event::RpcSent => EventView::RpcSent,
            Event::Statuses(Some(statuses)) => EventView::Statuses(
                Some(status_views(statuses@)),
            ),
            Event::Statuses(None) => EventView::Statuses(None),
        }
    }
}

impl View for Action {
    type V = ActionView;

    open spec fn view(&self) -> ActionView {
        match self {
            Action::GetBlockHeight => ActionView::GetBlockHeight,
            Action::GetLatestBlockhash => ActionView::GetLatestBlockhash,
            Action::ReadClock => ActionView::ReadClock,
            Action::SendToLeader(tx) => ActionView::SendToLeader(tx@),
            Action::SendToRpc(tx) => ActionView::SendToRpc(tx@),
            Action::GetSignatureStatuses(signatures) => ActionView::GetSignatureStatuses(
                signatures@,
            ),
            Action::Finish(Ok(results)) => ActionView::Finish(Ok(views(results@))),
            Action::Finish(Err(e)) => ActionView::Finish(Err(e@)),
        }
    }
}

impl View for Notice {
    type V = NoticeView;

    open spec fn view(&self) -> NoticeView {
        match self {
            Notice::Started { total } => NoticeView::Started(*total as nat),
            Notice::BatchStarted { size } => NoticeView::BatchStarted(*size as nat),
            Notice::Progress { confirmed, total, text } => NoticeView::Progress(
                *confirmed as nat,
                *total as nat,
                text@,
            ),
            Notice::Line(text) => NoticeView::Line(text@),
            Notice::BatchFinished { size } => NoticeView::BatchFinished(*size as nat),
        }
    }
}

impl View for Step {
    type V = StepView;

    open spec fn view(&self) -> StepView {
        StepView {
            notices: views(self.notices@),
            pause_millis: self.pause_millis,
            action: self.action@,
        }
    }
}

/// A list of messages on their way to the network, in batches.
pub struct Submission {
    rest: Vec<Message>,
    batch_size: usize,
    done: Vec<JibResult>,
    total: usize,
    messages: Vec<Message>,
    pending: Vec<Transaction>,
    results: Vec<JibResult>,
    retries: u32,
    block_height: u64,
    last_valid: u64,
    last_resend: i128,
    queried: Vec<Signature>,
    phase: Phase,
}

impl View for Submission {
    type V = SubmissionView;

    closed spec fn view(&self) -> SubmissionView {
        SubmissionView {
            rest: views(self.rest@),
            batch_size: self.batch_size,
            done: views(self.done@),
            total: self.total as nat,
            messages: views(self.messages@),
            pending: views(self.pending@),
            results: views(self.results@),
            retries: self.retries,
            block_height: self.block_height,
            last_valid: self.last_valid,
            last_resend: self.last_resend as int,
            queried: self.queried@,
            phase: self.phase,
        }
    }
}

impl Submission {
    /// Shows something, waits, and asks for something.
    fn wait(&mut self, phase: Phase, notices: Vec<Notice>, pause_millis: u64, action: Action) -> (r:
        Step)
        ensures
            (final(self)@, r@) == old(self)@.wait(phase, views(notices@), pause_millis, action@),
    {
        self.phase = phase;
        Step { notices, pause_millis, action }
    }

    /// Stops with an error.
    fn fail(&mut self, notices: Vec<Notice>, e: SendError) -> (r: Step)
        ensures
            (final(self)@, r@) == old(self)@.fail(views(notices@), e@),
    {
        self.wait(Phase::Finished, notices, 0, Action::Finish(Err(e)))
    }

    /// Shows how far the batch is.
    fn progress(&self, block_height: Option<u64>, status: &str) -> (r: Notice)
        ensures
            r@ == self@.progress(block_height, status@),
    {
        Notice::Progress {
            confirmed: self.results.len(),
            total: self.total,
            text: progress_text(block_height, self.last_valid, status),
        }
    }

    /// Begins the next batch, or stops if there is none.
    fn begin_batch(&mut self, notices: Vec<Notice>) -> (r: Step)
        ensures
            (final(self)@, r@) == old(self)@.begin_batch(views(notices@)),
    {
        let ghost before = self@;
        if self.rest.len() == 0 {
            let mut done: Vec<JibResult> = Vec::new();
            std::mem::swap(&mut self.done, &mut done);
            assert(self@.done =~= Seq::empty());
            return self.wait(Phase::Finished, notices, 0, Action::Finish(Ok(done)));
        }
        let n: usize = if self.batch_size < self.rest.len() {
            self.batch_size
        } else {
            self.rest.len()
        };
        let mut chunk = self.rest.split_off(n);
        std::mem::swap(&mut self.rest, &mut chunk);
        self.total = n;
        self.messages = chunk;
        self.pending = Vec::new();
        self.results = Vec::new();
        self.retries = MAX_BLOCKHASHES;
        self.queried = Vec::new();
        proof {
            assert(self@.rest =~= before.rest.skip(n as int));
            assert(self@.messages =~= before.rest.take(n as int));
            assert(self@.pending =~= Seq::empty());
            assert(self@.results =~= Seq::empty());
            assert(self@.queried =~= Seq::empty());
        }
        let ghost told = views(notices@);
        let mut notices = notices;
        notices.push(Notice::BatchStarted { size: n });
        assert(views(notices@) =~= told.push(NoticeView::BatchStarted(n as nat)));
        self.wait(Phase::Starting, notices, 0, Action::GetBlockHeight)
    }

    /// Asks for a blockhash.
    fn ask_blockhash(&mut self, notices: Vec<Notice>) -> (r: Step)
        ensures
            (final(self)@, r@) == old(self)@.ask_blockhash(views(notices@)),
    {
        self.wait(Phase::AwaitingBlockhash, notices, 0, Action::GetLatestBlockhash)
    }

    /// Signs the messages of the batch.
    fn sign_round(&mut self, signers: &Vec<Keypair>, blockhash: &Blockhash, last_valid: u64) -> (r:
        Step)
        requires
            old(self)@.accepts(views(signers@)),
        ensures
            (final(self)@, r@) == old(self)@.sign_round(views(signers@), *blockhash, last_valid),
    {
        let notices: Vec<Notice> = Vec::new();
        assert(views(notices@) =~= Seq::empty());
        assert(self@.messages == views(self.messages@));
        match sign_all(&self.messages, signers, blockhash) {
            Ok(pending) => {
                self.messages = Vec::new();
                self.pending = pending;
                self.last_valid = last_valid;
                assert(self@.messages =~= Seq::empty());
                self.wait(Phase::ArmingTimer, notices, 0, Action::ReadClock)
            },
            Err(e) => self.fail(notices, SendError::Signer(e)),
        }
    }

    /// Goes on with the pending transactions, or signs them again.
    fn resume(&mut self, notices: Vec<Notice>) -> (r: Step)
        requires
            old(self)@.retries > 0,
        ensures
            (final(self)@, r@) == old(self)@.resume(views(notices@)),
    {
        if self.block_height <= self.last_valid {
            self.wait(Phase::CheckingTimer, notices, 0, Action::ReadClock)
        } else {
            self.expire(notices)
        }
    }

    /// Gives the blockhash up.
    fn expire(&mut self, notices: Vec<Notice>) -> (r: Step)
        requires
            old(self)@.retries > 0,
        ensures
            (final(self)@, r@) == old(self)@.expire(views(notices@)),
    {
        let ghost before = self@;
        let ghost told = views(notices@);
        let line = expired_text(self.retries as u64);
        let ghost text = line@;
        let mut notices = notices;
        notices.push(Notice::Line(line));
        assert(views(notices@) =~= told.push(NoticeView::Line(text)));
        self.messages = copy_messages(&self.pending);
        self.pending = Vec::new();
        self.retries = self.retries - 1;
        assert(self@.pending =~= Seq::empty());
        if self.retries > 0 {
            self.ask_blockhash(notices)
        } else {
            self.fail(notices, SendError::Custom("Max retries exceeded".to_owned()))
        }
    }

    /// Sends a pending transaction to the leader.
    fn send(&mut self, notices: Vec<Notice>, pause_millis: u64, k: usize) -> (r: Step)
        requires
            k < old(self)@.pending.len(),
        ensures
            (final(self)@, r@) == old(self)@.send(views(notices@), pause_millis, k),
    {
        let tx = self.pending[k].clone();
        self.wait(Phase::SendingToLeader(k), notices, pause_millis, Action::SendToLeader(tx))
    }

    /// Sends the pending transactions, if that is due.
    fn check_timer(&mut self, now: u64) -> (r: Step)
        requires
            old(self)@.well_formed(),
        ensures
            (final(self)@, r@) == old(self)@.check_timer(now),
    {
        let notices: Vec<Notice> = Vec::new();
        assert(views(notices@) =~= Seq::empty());
        if now as i128 - self.last_resend > RESEND_INTERVAL_NANOS as i128 {
            if self.pending.len() > 0 {
                self.send(notices, 0, 0)
            } else {
                self.wait(Phase::StampingTimer, notices, 0, Action::ReadClock)
            }
        } else {
            self.await_block()
        }
    }

    /// Goes on after a pending transaction has been sent.
    fn sent(&mut self, k: usize) -> (r: Step)
        requires
            k < old(self)@.pending.len(),
        ensures
            (final(self)@, r@) == old(self)@.sent(k),
    {
        let n: usize = self.pending.len();
        let status = sending_text(k + 1, n);
        let notice = self.progress(None, status.as_str());
        let ghost shown = notice@;
        let mut notices: Vec<Notice> = Vec::new();
        notices.push(notice);
        assert(views(notices@) =~= seq![shown]);
        if k + 1 < n {
            self.send(notices, SEND_PAUSE_MILLIS, k + 1)
        } else {
            self.wait(Phase::StampingTimer, notices, SEND_PAUSE_MILLIS, Action::ReadClock)
        }
    }

    /// Waits for the next block.
    fn await_block(&mut self) -> (r: Step)
        ensures
            (final(self)@, r@) == old(self)@.await_block(),
    {
        let status = waiting_text(self.pending.len());
        let notice = self.progress(Some(self.block_height), status.as_str());
        let ghost shown = notice@;
        let mut notices: Vec<Notice> = Vec::new();
        notices.push(notice);
        assert(views(notices@) =~= seq![shown]);
        self.wait(
            Phase::AwaitingBlock(BLOCK_REFRESHES - 1),
            notices,
            BLOCK_PAUSE_MILLIS,
            Action::GetBlockHeight,
        )
    }

    /// Takes note of the block height, or asks for it again if it is still the same.
    fn see_block(&mut self, refreshes: u32, height: u64) -> (r: Step)
        requires
            old(self)@.well_formed(),
            old(self)@.retries > 0,
        ensures
            (final(self)@, r@) == old(self)@.see_block(refreshes, height),
    {
        let notices: Vec<Notice> = Vec::new();
        assert(views(notices@) =~= Seq::empty());
        if height == self.block_height && refreshes > 0 {
            self.wait(
                Phase::AwaitingBlock(refreshes - 1),
                notices,
                BLOCK_PAUSE_MILLIS,
                Action::GetBlockHeight,
            )
        } else {
            self.block_height = height;
            self.queried = signatures_of(&self.pending);
            self.ask_statuses(notices, 0)
        }
    }

    /// The end of the part of the signatures that is asked for from position `from` on.
    fn query_end(&self, from: usize) -> (r: usize)
        requires
            from <= self@.queried.len(),
        ensures
            r as nat == self@.query_end(from as nat),
    {
        if self.queried.len() - from > MAX_STATUS_QUERY {
            from + MAX_STATUS_QUERY
        } else {
            self.queried.len()
        }
    }

    /// Copies the signatures that are asked for from position `from` on.
    fn query(&self, from: usize) -> (r: Vec<Signature>)
        requires
            from <= self@.queried.len(),
        ensures
            r@ == self@.queried.subrange(from as int, self@.query_end(from as nat) as int),
    {
        let end: usize = self.query_end(from);
        let mut r: Vec<Signature> = Vec::new();
        let mut i: usize = from;
        while i < end
            invariant
                from <= i <= end <= self.queried@.len(),
                r@ == self.queried@.subrange(from as int, i as int),
            decreases end - i,
        {
            r.push(self.queried[i]);
            i = i + 1;
            assert(r@ =~= self.queried@.subrange(from as int, i as int));
        }
        r
    }

    /// Asks for the statuses of the signatures from position `from` on, or goes on if there are
    /// none.
    fn ask_statuses(&mut self, notices: Vec<Notice>, from: usize) -> (r: Step)
        requires
            from <= old(self)@.queried.len(),
            old(self)@.retries > 0,
        ensures
            (final(self)@, r@) == old(self)@.ask_statuses(views(notices@), from as nat),
    {
        if from < self.queried.len() {
            let signatures = self.query(from);
            self.wait(
                Phase::AwaitingStatuses(from),
                notices,
                0,
                Action::GetSignatureStatuses(signatures),
            )
        } else {
            self.conclude(notices)
        }
    }

    /// Ends the batch, or goes on with the pending transactions.
    fn conclude(&mut self, notices: Vec<Notice>) -> (r: Step)
        requires
            old(self)@.retries > 0,
        ensures
            (final(self)@, r@) == old(self)@.conclude(views(notices@)),
    {
        if self.pending.len() > 0 {
            return self.resume(notices);
        }
        let ghost before = self@;
        let ghost told = views(notices@);
        let mut results: Vec<JibResult> = Vec::new();
        std::mem::swap(&mut self.results, &mut results);
        self.done.append(&mut results);
        let mut notices = notices;
        notices.push(Notice::BatchFinished { size: self.total });
        proof {
            assert(self@.done =~= before.done + before.results);
            assert(self@.results =~= Seq::empty());
            assert(views(notices@) =~= told.push(NoticeView::BatchFinished(before.total)));
        }
        self.begin_batch(notices)
    }

    /// Takes note of a status.
    fn settle_one(
        &mut self,
        signature: &Signature,
        status: &Option<SignatureStatus>,
        notices: &mut Vec<Notice>,
    )
        requires
            identified(old(self)@.pending),
        ensures
            final(self)@ == old(self)@.settle_one(*signature, status_view(*status)),
            views(final(notices)@) == views(old(notices)@) + old(self)@.told_of(
                *signature,
                status_view(*status),
            ),
    {
        let ghost before = self@;
        let ghost told = views(notices@);
        if let Some(s) = status {
            if satisfies_commitment(s, COMMITMENT) {
                if let Some(i) = find(&self.pending, signature) {
                    let tx = self.pending.remove(i);
                    assert(self@.pending =~= before.pending.remove(i as int));
                    let result = match &s.err {
                        Some(e) => {
                            let mut line: String = "Failed transaction: ".to_owned();
                            line.append(s.description.as_str());
                            let ghost text = line@;
                            notices.push(Notice::Line(line));
                            assert(views(notices@) =~= told + seq![NoticeView::Line(text)]);
                            JibResult::Failure(
                                JibFailedTransaction { transaction: tx, error: e.clone() },
                            )
                        },
                        None => {
                            assert(views(notices@) =~= told + Seq::empty());
                            JibResult::Success(signature_string(signature))
                        },
                    };
                    let ghost outcome = result@;
                    self.results.push(result);
                    assert(self@.results =~= before.results.push(outcome));
                    return;
                }
            }
        }
        assert(views(notices@) =~= told + Seq::empty());
    }

    /// Takes note of the statuses of the signatures from position `from` on.
    fn see_statuses(&mut self, from: usize, reply: Option<Vec<Option<SignatureStatus>>>) -> (r:
        Step)
        requires
            old(self)@.well_formed(),
            old(self)@.retries > 0,
            from < old(self)@.queried.len(),
        ensures
            (final(self)@, r@) == old(self)@.see_statuses(
                from as nat,
                match reply {
                    Some(statuses) => Some(status_views(statuses@)),
                    None => None,
                },
            ),
    {
        let ghost before = self@;
        let end: usize = self.query_end(from);
        let signatures = self.query(from);
        let mut notices: Vec<Notice> = Vec::new();
        assert(views(notices@) =~= Seq::empty());
        if let Some(statuses) = &reply {
            let ghost all = status_views(statuses@);
            let n: usize = if signatures.len() < statuses.len() {
                signatures.len()
            } else {
                statuses.len()
            };
            let mut i: usize = 0;
            while i < n
                invariant
                    i <= n <= signatures@.len(),
                    n <= statuses@.len(),
                    all == status_views(statuses@),
                    self@ == before.settle(signatures@, all, i as nat),
                    views(notices@) == before.told(signatures@, all, i as nat),
                    identified(self@.pending),
                decreases n - i,
            {
                let ghost here = self@;
                assert(all[i as int] == status_view(statuses@[i as int]));
                self.settle_one(&signatures[i], &statuses[i], &mut notices);
                proof {
                    lemma_settle_one_keeps(here, signatures@[i as int], all[i as int]);
                }
                i = i + 1;
            }
            proof {
                lemma_settle_keeps(before, signatures@, all, n as nat);
            }
        }
        let ghost told = views(notices@);
        let notice = self.progress(Some(self.block_height), "Checking transaction status...");
        let ghost shown = notice@;
        notices.push(notice);
        assert(views(notices@) =~= told.push(shown));
        self.ask_statuses(notices, end)
    }

    /// Begins to submit messages, in batches of at most `batch_size`.
    pub fn begin(messages: Vec<Message>, batch_size: usize) -> (r: (Submission, Step))
        requires
            batch_size > 0,
        ensures
            (r.0@, r.1@) == SubmissionView::started(views(messages@), batch_size),
            r.0@.well_formed(),
            forall|signers: Seq<KeypairView>|
                (forall|i: int|
                    0 <= i < messages@.len() ==> submittable(
                        #[trigger] views(messages@)[i],
                        signers,
                    )) ==> #[trigger] r.0@.accepts(signers),
    {
        let ghost all = views(messages@);
        let mut notices: Vec<Notice> = Vec::new();
        notices.push(Notice::Started { total: messages.len() });
        let ghost told = seq![NoticeView::Started(all.len())];
        assert(views(notices@) =~= told);
        let mut submission = Submission {
            rest: messages,
            batch_size,
            done: Vec::new(),
            total: 0,
            messages: Vec::new(),
            pending: Vec::new(),
            results: Vec::new(),
            retries: MAX_BLOCKHASHES,
            block_height: 0,
            last_valid: 0,
            last_resend: 0,
            queried: Vec::new(),
            phase: Phase::Finished,
        };
        proof {
            assert(submission@ =~= SubmissionView::initial(all, batch_size));
            let initial = submission@;
            lemma_begin_batch_keeps(initial, told);
            assert forall|signers: Seq<KeypairView>|
                (forall|i: int| 0 <= i < all.len() ==> submittable(#[trigger] all[i], signers))
                implies #[trigger] initial.begin_batch(told).0.accepts(signers) by {
                lemma_begin_batch_accepts(initial, told, signers);
            }
        }
        let step = submission.begin_batch(notices);
        (submission, step)
    }

    /// Tells whether an event is what the machine is waiting for.
    pub fn expects(&self, event: &Event) -> (r: bool)
        ensures
            r == self@.phase.expects(event@),
    {
        match (self.phase, event) {
            (Phase::Starting, Event::BlockHeight(_)) => true,
            (Phase::AwaitingBlockhash, Event::Blockhash(_)) => true,
            (Phase::ArmingTimer, Event::Clock(_)) => true,
            (Phase::CheckingTimer, Event::Clock(_)) => true,
            (Phase::SendingToLeader(_), Event::LeaderSent(_)) => true,
            (Phase::SendingToRpc(_), Event::RpcSent) => true,
            (Phase::StampingTimer, Event::Clock(_)) => true,
            (Phase::AwaitingBlock(_), Event::BlockHeight(_)) => true,
            (Phase::AwaitingStatuses(_), Event::Statuses(_)) => true,
            _ => false,
        }
    }

    /// Takes an event in, and says what is to be done next.
    pub fn step(&mut self, signers: &Vec<Keypair>, event: Event) -> (r: Step)
        requires
            old(self)@.well_formed(),
            old(self)@.accepts(views(signers@)),
            old(self)@.phase.expects(event@),
        ensures
            (final(self)@, r@) == old(self)@.next(views(signers@), event@),
            final(self)@.well_formed(),
            final(self)@.accepts(views(signers@)),
    {
        proof {
            law_step_keeps_well_formed(self@, views(signers@), event@);
        }
        let notices: Vec<Notice> = Vec::new();
        assert(views(notices@) =~= Seq::empty());
        match (self.phase, event) {
            (Phase::Starting, Event::BlockHeight(Ok(height))) => {
                self.block_height = height;
                self.ask_blockhash(notices)
            },
            (Phase::AwaitingBlockhash, Event::Blockhash(Ok((blockhash, last_valid)))) => {
                self.sign_round(signers, &blockhash, last_valid)
            },
            (Phase::ArmingTimer, Event::Clock(now)) => {
                self.last_resend = now as i128 - RESEND_INTERVAL_NANOS as i128;
                self.resume(notices)
            },
            (Phase::CheckingTimer, Event::Clock(now)) => self.check_timer(now),
            (Phase::SendingToLeader(k), Event::LeaderSent(true)) => self.sent(k),
            (Phase::SendingToLeader(k), Event::LeaderSent(false)) => {
                let tx = self.pending[k].clone();
                self.wait(Phase::SendingToRpc(k), notices, 0, Action::SendToRpc(tx))
            },
            (Phase::SendingToRpc(k), Event::RpcSent) => self.sent(k),
            (Phase::StampingTimer, Event::Clock(now)) => {
                self.last_resend = now as i128;
                self.await_block()
            },
            (Phase::AwaitingBlock(refreshes), Event::BlockHeight(Ok(height))) => {
                self.see_block(refreshes, height)
            },
            (Phase::AwaitingStatuses(from), Event::Statuses(reply)) => {
                self.see_statuses(from, reply)
            },
            (_, Event::BlockHeight(Err(reason))) => self.fail(notices, SendError::Rpc(reason)),
            (_, Event::Blockhash(Err(reason))) => self.fail(notices, SendError::Rpc(reason)),
            _ => self.wait(self.phase, notices, 0, Action::ReadClock),
        }
    }
}

} // verus!
