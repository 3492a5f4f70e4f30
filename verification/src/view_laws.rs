//! What the contracts speak of is what the values hold.
use vstd::prelude::*;

use crate::error::{JibError, JibErrorView, SendError, SendErrorView};
use crate::model::{CompiledInstruction, Instruction, Message, Transaction, views};
use crate::outcome::{JibResult, JibResultView};
use crate::status::SignatureStatus;
use crate::submission::{Action, Event, Notice, Step, status_views};
use crate::submission_model::{ActionView, EventView, NoticeView};

verus! {

/// A list is spoken of element by element, in its order.
pub proof fn law_lists_are_seen<T: View>(s: Seq<T>)
    ensures
        views(s).len() == s.len(),
        forall|i: int| 0 <= i < s.len() ==> #[trigger] views(s)[i] == s[i]@,
{
}

/// All of an instruction, a message and a transaction counts.
pub proof fn law_transactions_are_seen(
    ix: Instruction,
    compiled: CompiledInstruction,
    message: Message,
    tx: Transaction,
)
    ensures
        ix@.program_id == ix.program_id,
        ix@.accounts == ix.accounts@,
        ix@.data == ix.data@,
        compiled@.program_id_index == compiled.program_id_index,
        compiled@.accounts == compiled.accounts@,
        compiled@.data == compiled.data@,
        message@.header == message.header,
        message@.account_keys == message.account_keys@,
        message@.recent_blockhash == message.recent_blockhash,
        message@.instructions == views(message.instructions@),
        tx@.signatures == tx.signatures@,
        tx@.message == tx.message@,
{
}

/// All of a status counts, and a list of statuses is spoken of one by one, with those that are not
/// known.
pub proof fn law_statuses_are_seen(
    status: SignatureStatus,
    statuses: Seq<Option<SignatureStatus>>,
)
    ensures
        status@.slot == status.slot,
        status@.confirmations == status.confirmations,
        status@.confirmation_status == status.confirmation_status,
        status@.description == status.description@,
        match status.err {
            Some(e) => status@.err == Some(e@),
            None => status@.err is None,
        },
        status_views(statuses).len() == statuses.len(),
        forall|i: int|
            0 <= i < statuses.len() ==> match statuses[i] {
                Some(s) => #[trigger] status_views(statuses)[i] == Some(s@),
                None => status_views(statuses)[i] is None,
            },
{
}

/// Every event is spoken of as it is.
pub proof fn law_events_are_seen(event: Event)
    ensures
        match event {
            Event::BlockHeight(Ok(height)) => event@ == EventView::BlockHeight(Ok(height)),
            Event::BlockHeight(Err(reason)) => event@ == EventView::BlockHeight(Err(reason@)),
            Event::Blockhash(Ok((hash, last))) => event@ == EventView::Blockhash(Ok((hash, last))),
            Event::Blockhash(Err(reason)) => event@ == EventView::Blockhash(Err(reason@)),
            Event::Clock(now) => event@ == EventView::Clock(now),
            Event::LeaderSent(sent) => event@ == EventView::LeaderSent(sent),
            Event::RpcSent => event@ == EventView::RpcSent,
            Event::Statuses(Some(statuses)) => event@ == EventView::Statuses(
                Some(status_views(statuses@)),
            ),
            Event::Statuses(None) => event@ == EventView::Statuses(None),
        },
{
}

/// Every step is spoken of as it is: what is shown, how long the pause is, and what is to be done.
pub proof fn law_steps_are_seen(step: Step)
    ensures
        step@.notices == views(step.notices@),
        step@.pause_millis == step.pause_millis,
        match step.action {
            Action::GetBlockHeight => step@.action == ActionView::GetBlockHeight,
            Action::GetLatestBlockhash => step@.action == ActionView::GetLatestBlockhash,
            Action::ReadClock => step@.action == ActionView::ReadClock,
            Action::SendToLeader(tx) => step@.action == ActionView::SendToLeader(tx@),
            Action::SendToRpc(tx) => step@.action == ActionView::SendToRpc(tx@),
            Action::GetSignatureStatuses(list) => step@.action == ActionView::GetSignatureStatuses(
                list@,
            ),
            Action::Finish(Ok(results)) => step@.action == ActionView::Finish(
                Ok(views(results@)),
            ),
            Action::Finish(Err(e)) => step@.action == ActionView::Finish(Err(e@)),
        },
{
}

/// Every notice is spoken of as it is.
pub proof fn law_notices_are_seen(notice: Notice)
    ensures
        match notice {
            Notice::Started { total } => notice@ == NoticeView::Started(total as nat),
            Notice::BatchStarted { size } => notice@ == NoticeView::BatchStarted(size as nat),
            Notice::Progress { confirmed, total, text } => notice@ == NoticeView::Progress(
                confirmed as nat,
                total as nat,
                text@,
            ),
            Notice::Line(text) => notice@ == NoticeView::Line(text@),
            Notice::BatchFinished { size } => notice@ == NoticeView::BatchFinished(size as nat),
        },
{
}

/// Every result and every error is spoken of as it is.
pub proof fn law_outcomes_are_seen(result: JibResult, e: JibError, send: SendError)
    ensures
        match result {
            JibResult::Success(signature) => result@ == JibResultView::Success(signature@),
            JibResult::Failure(failed) => result@ == JibResultView::Failure(
                failed.transaction@,
                failed.error@,
            ),
        },
        match e {
            JibError::NoInstructions => e@ == JibErrorView::NoInstructions,
            JibError::FailedToCreateTpuClient(reason) => e@
                == JibErrorView::FailedToCreateTpuClient(reason@),
            JibError::NoRecentBlockhash => e@ == JibErrorView::NoRecentBlockhash,
            JibError::BatchTransactionError(reason) => e@ == JibErrorView::BatchTransactionError(
                reason@,
            ),
            JibError::TransactionError(reason) => e@ == JibErrorView::TransactionError(reason@),
            JibError::NoSigners => e@ == JibErrorView::NoSigners,
        },
        match send {
            SendError::Rpc(reason) => send@ == SendErrorView::Rpc(reason@),
            SendError::Signer(refused) => send@ == SendErrorView::Signer(refused),
            SendError::Custom(reason) => send@ == SendErrorView::Custom(reason@),
        },
{
}

} // verus!
