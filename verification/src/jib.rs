//! The entry point: what is to be sent, who signs it, and how.
use vstd::prelude::*;

use crate::error::{JibError, JibErrorView};
use crate::keypair::{Keypair, KeypairView};
use crate::model::{
    Blockhash, Instruction, InstructionView, Pubkey, Transaction, TransactionView, views,
};
use crate::network::Network;
use crate::outcome::JibResult;
use crate::packing::{
    DEFAULT_COMPUTE_BUDGET, Span, can_pack, carries, fitting, full_runs, group_transactions, groups,
    pack_instructions, packable, packed_runs, prelude_of, within_limits,
};
use crate::packing_numbers::{
    law_packable_if_buildable, law_prelude_by_settings, law_settings_come_first, leading, made_of,
    packs, starts_as_set,
};
use crate::pending::{can_submit, copy_messages};
use crate::signing::buildable;
use crate::submission::{Event, Step, Submission};
use crate::submission_model::{StepView, SubmissionView, messages_of, submittable};

verus! {

/// How many transactions a batch has unless it is set.
pub const DEFAULT_BATCH_SIZE: usize = 10;

/// The Jib struct is the main entry point for the library.
/// It is used to create a new Jib instance, set the RPC URL, set the instructions, pack the
/// instructions into transactions and finally submit the transactions to the network.
pub struct Jib {
    rpc_url: String,
    signers: Vec<Keypair>,
    ixes: Vec<Instruction>,
    compute_budget: u32,
    priority_fee: u64,
    batch_size: usize,
}

/// The mathematical content of a [`Jib`].
#[verifier::ext_equal]
pub struct JibView {
    pub rpc_url: Seq<char>,
    pub signers: Seq<KeypairView>,
    pub ixes: Seq<InstructionView>,
    pub compute_budget: u32,
    pub priority_fee: u64,
    pub batch_size: usize,
}

impl View for Jib {
    type V = JibView;

    closed spec fn view(&self) -> JibView {
        JibView {
            rpc_url: self.rpc_url@,
            signers: views(self.signers@),
            ixes: views(self.ixes@),
            compute_budget: self.compute_budget,
            priority_fee: self.priority_fee,
            batch_size: self.batch_size,
        }
    }
}

impl JibView {
    /// Why nothing can be packed, if nothing can.
    pub open spec fn obstacle(self) -> Option<JibErrorView> {
        if self.ixes.len() == 0 {
            Some(JibErrorView::NoInstructions)
        } else if self.signers.len() == 0 {
            Some(JibErrorView::NoSigners)
        } else {
            None
        }
    }

    /// The address of the account that pays for the transactions.
    pub open spec fn payer(self) -> Pubkey {
        self.signers[0].public
    }

    /// The instructions that every transaction starts with.
    pub open spec fn prelude(self) -> Seq<InstructionView> {
        prelude_of(self.compute_budget, self.priority_fee)
    }

    /// Every group of instructions that packing tries can be compiled, written down and signed.
    pub open spec fn packable(self) -> bool {
        packable(self.prelude(), self.ixes, self.payer(), self.signers)
    }

    /// The instructions that fit into a transaction by themselves, in their order.
    pub open spec fn fitting(self) -> Seq<InstructionView> {
        fitting(self.prelude(), self.ixes, self.payer())
    }

    /// The fitting instructions, cut into the runs that become transactions.
    pub open spec fn runs(self) -> Seq<Span> {
        packed_runs(self.prelude(), self.ixes, self.payer())
    }

    /// The groups that the instructions are packed into: each is the prelude and one of the runs,
    /// or the only one is the prelude alone.
    pub open spec fn groups(self) -> Seq<Seq<InstructionView>> {
        groups(self.prelude(), self.ixes, self.payer())
    }

    /// The transactions that the instructions are packed into.
    pub open spec fn packed(self, blockhash: Blockhash) -> Seq<TransactionView> {
        group_transactions(
            self.groups(),
            self.prelude(),
            self.payer(),
            self.signers,
            blockhash,
        )
    }

    /// What packing comes to, if the RPC node gives out this blockhash, or none.
    pub open spec fn pack(self, blockhash: Option<Blockhash>) -> Result<
        Seq<TransactionView>,
        JibErrorView,
    > {
        match self.obstacle() {
            Some(e) => Err(e),
            None => match blockhash {
                Some(b) => Ok(self.packed(b)),
                None => Err(JibErrorView::NoRecentBlockhash),
            },
        }
    }

    /// The signers can submit the messages of these transactions.
    pub open spec fn submittable(self, transactions: Seq<TransactionView>) -> bool {
        forall|i: int|
            0 <= i < transactions.len() ==> submittable(
                (#[trigger] transactions[i]).message,
                self.signers,
            )
    }

    /// How these transactions begin to be submitted.
    pub open spec fn submission(self, transactions: Seq<TransactionView>) -> (
        SubmissionView,
        StepView,
    ) {
        SubmissionView::started(messages_of(transactions), self.batch_size)
    }
}

impl Jib {
    /// Create a new Jib instance. You should pass in all the signers you want to use for the
    /// transactions, and what came of setting up a client for the network: nothing, or the reason
    /// why it failed.
    pub fn new(signers: Vec<Keypair>, network: Network, client: Result<(), String>) -> (r: Result<
        Self,
        JibError,
    >)
        ensures
            match client {
                Ok(_) => r matches Ok(jib) && jib@ == (JibView {
                    rpc_url: network.address(),
                    signers: views(signers@),
                    ixes: Seq::empty(),
                    compute_budget: 200_000,
                    priority_fee: 0,
                    batch_size: 10,
                }),
                Err(reason) => r matches Err(e) && e@ == JibErrorView::FailedToCreateTpuClient(
                    reason@,
                ),
            },
    {
        match client {
            Ok(_) => {
                let ixes: Vec<Instruction> = Vec::new();
                assert(views(ixes@) =~= Seq::empty());
                Ok(
                    Jib {
                        rpc_url: network.url().to_owned(),
                        signers,
                        ixes,
                        compute_budget: DEFAULT_COMPUTE_BUDGET,
                        priority_fee: 0,
                        batch_size: DEFAULT_BATCH_SIZE,
                    },
                )
            },
            Err(reason) => Err(JibError::FailedToCreateTpuClient(reason)),
        }
    }

    /// Set the RPC URL to use for the transactions. This defaults to the URL of the network.
    pub fn set_rpc_url(&mut self, url: &str)
        ensures
            final(self)@ == (JibView { rpc_url: url@, ..old(self)@ }),
    {
        self.rpc_url = url.to_owned();
    }

    /// Get the RPC URL that is being used by the Jib instance.
    pub fn rpc_url(&self) -> (r: &str)
        ensures
            r@ == self@.rpc_url,
    {
        self.rpc_url.as_str()
    }

    /// Set the instructions to use for the transactions. This should be a vector of instructions
    /// that you wish to submit to the network.
    pub fn set_instructions(&mut self, ixes: Vec<Instruction>)
        ensures
            final(self)@ == (JibView { ixes: views(ixes@), ..old(self)@ }),
    {
        self.ixes = ixes;
    }

    /// Set the signers to use for the transactions. This should be a vector of signers that you
    /// wish to use to sign the transactions.
    pub fn set_signers(&mut self, signers: Vec<Keypair>)
        ensures
            final(self)@ == (JibView { signers: views(signers@), ..old(self)@ }),
    {
        self.signers = signers;
    }

    /// Set the compute budget to use for the transactions. If not set
    /// no compute budget is set which defaults to the system standard of 200,000.
    pub fn set_compute_budget(&mut self, compute_budget: u32)
        ensures
            final(self)@ == (JibView { compute_budget, ..old(self)@ }),
    {
        self.compute_budget = compute_budget;
    }

    /// Set the priority fee to use for the transactions. If not set no priority fee
    /// is set. Units are micro-lamports per compute unit.
    pub fn set_priority_fee(&mut self, priority_fee: u64)
        ensures
            final(self)@ == (JibView { priority_fee, ..old(self)@ }),
    {
        self.priority_fee = priority_fee;
    }

    /// Set the batch size to use for the transactions. This defaults to 10.
    pub fn set_batch_size(&mut self, batch_size: usize)
        ensures
            final(self)@ == (JibView { batch_size, ..old(self)@ }),
    {
        self.batch_size = batch_size;
    }

    /// Get the first signer that is being used by the Jib instance, the transaction fee payer.
    pub fn payer(&self) -> (r: &Keypair)
        requires
            self@.signers.len() > 0,
        ensures
            r@ == self@.signers[0],
            r@.public == self@.payer(),
    {
        assert(views(self.signers@)[0] == self.signers@[0]@);
        &self.signers[0]
    }

    /// Tells why nothing can be packed, if nothing can.
    pub fn check(&self) -> (r: Result<(), JibError>)
        ensures
            match r {
                Ok(_) => self@.obstacle() is None,
                Err(e) => self@.obstacle() == Some(e@),
            },
            r == if self@.ixes.len() == 0 {
                Err(JibError::NoInstructions)
            } else if self@.signers.len() == 0 {
                Err(JibError::NoSigners)
            } else {
                Ok(())
            },
    {
        if self.ixes.len() == 0 {
            return Err(JibError::NoInstructions);
        }
        if self.signers.len() == 0 {
            return Err(JibError::NoSigners);
        }
        Ok(())
    }

    /// Tells whether the instructions can be packed: every group that is tried on the way can be
    /// compiled, written down and signed.
    pub fn can_pack(&self) -> (r: bool)
        ensures
            r == (self@.obstacle() is None && self@.packable()),
            r ==> self@.ixes.len() > 0 && self@.signers.len() > 0,
            self@.ixes.len() > 0 && self@.signers.len() > 0 && (forall|group: Seq<InstructionView>|
                #[trigger]
                made_of(group, leading(self@.compute_budget, self@.priority_fee), self@.ixes)
                    ==> buildable(group, self@.signers[0].public, self@.signers)) ==> r,
    {
        proof {
            law_prelude_by_settings(self.compute_budget, self.priority_fee);
            if self@.signers.len() > 0 && forall|group: Seq<InstructionView>|
                #[trigger]
                made_of(group, self@.prelude(), self@.ixes) ==> buildable(
                    group,
                    self@.payer(),
                    self@.signers,
                ) {
                law_packable_if_buildable(
                    self@.prelude(),
                    self@.ixes,
                    self@.payer(),
                    self@.signers,
                );
            }
        }
        if self.ixes.len() == 0 || self.signers.len() == 0 {
            return false;
        }
        let payer = self.payer().pubkey();
        can_pack(self.compute_budget, self.priority_fee, &self.ixes, &payer, &self.signers)
    }

    /// Pack the instructions into transactions, given the latest blockhash, unless the RPC node
    /// does not give it out. This will return a vector of transactions that can be submitted to the
    /// network. An instruction that is too large for any transaction is left out. If none is left,
    /// the only transaction is that of the compute budget and the priority fee alone, unsigned.
    pub fn pack(&mut self, latest_blockhash: Option<Blockhash>) -> (r: Result<
        Vec<Transaction>,
        JibError,
    >)
        requires
            old(self)@.obstacle() is None && latest_blockhash is Some ==> old(self)@.packable(),
        ensures
            *final(self) == *old(self),
            match r {
                Ok(transactions) => {
                    &&& old(self)@.pack(latest_blockhash) == Ok::<
                        Seq<TransactionView>,
                        JibErrorView,
                    >(views(transactions@))
                    &&& transactions@.len() > 0
                    &&& forall|i: int|
                        #![trigger transactions@[i]]
                        0 <= i < transactions@.len() ==> carries(
                            transactions@[i]@,
                            old(self)@.groups()[i],
                            old(self)@.payer(),
                        ) && within_limits(transactions@[i]@)
                    &&& full_runs(
                        old(self)@.prelude(),
                        old(self)@.fitting(),
                        old(self)@.payer(),
                        old(self)@.runs(),
                    )
                    &&& old(self)@.submittable(views(transactions@))
                    &&& old(self)@.ixes.len() > 0
                    &&& old(self)@.signers.len() > 0
                    &&& latest_blockhash is Some
                    &&& packs(
                        views(transactions@),
                        old(self)@.groups(),
                        leading(old(self)@.compute_budget, old(self)@.priority_fee),
                        old(self)@.ixes,
                        old(self)@.signers[0].public,
                        old(self)@.signers,
                        latest_blockhash->0,
                    )
                    &&& forall|i: int|
                        #![trigger transactions@[i]]
                        0 <= i < transactions@.len() ==> starts_as_set(
                            transactions@[i]@.message,
                            old(self)@.compute_budget,
                            old(self)@.priority_fee,
                        )
                },
                Err(e) => {
                    &&& old(self)@.pack(latest_blockhash) == Err::<
                        Seq<TransactionView>,
                        JibErrorView,
                    >(e@)
                    &&& if old(self)@.ixes.len() == 0 {
                        e == JibError::NoInstructions
                    } else if old(self)@.signers.len() == 0 {
                        e == JibError::NoSigners
                    } else {
                        latest_blockhash is None && e == JibError::NoRecentBlockhash
                    }
                },
            },
    {
        if self.ixes.len() == 0 {
            return Err(JibError::NoInstructions);
        }
        if self.signers.len() == 0 {
            return Err(JibError::NoSigners);
        }
        let payer = self.payer().pubkey();
        match latest_blockhash {
            Some(blockhash) => {
                let transactions = pack_instructions(
                    self.compute_budget,
                    self.priority_fee,
                    &self.ixes,
                    &payer,
                    &self.signers,
                    &blockhash,
                );
                proof {
                    let all = views(transactions@);
                    assert forall|i: int| 0 <= i < all.len() implies submittable(
                        (#[trigger] all[i]).message,
                        self@.signers,
                    ) by {
                        assert(all[i] == transactions@[i]@);
                        assert(carries(transactions@[i]@, self@.groups()[i], payer));
                    }
                    assert forall|i: int| #![trigger transactions@[i]] 0 <= i < transactions@.len()
                        implies starts_as_set(
                        transactions@[i]@.message,
                        self.compute_budget,
                        self.priority_fee,
                    ) by {
                        assert(all[i] == transactions@[i]@);
                        law_settings_come_first(
                            all[i],
                            self@.groups()[i],
                            self.compute_budget,
                            self.priority_fee,
                            payer,
                            self@.signers,
                            blockhash,
                        );
                    }
                }
                Ok(transactions)
            },
            None => Err(JibError::NoRecentBlockhash),
        }
    }

    /// Pack the instructions into transactions and begin to submit them to the network.
    pub fn hoist(&mut self, latest_blockhash: Option<Blockhash>) -> (r: Result<
        (Submission, Step),
        JibError,
    >)
        requires
            old(self)@.obstacle() is None && latest_blockhash is Some ==> old(self)@.packable()
                && old(self)@.batch_size > 0,
        ensures
            *final(self) == *old(self),
            match r {
                Ok((submission, step)) => {
                    &&& old(self)@.pack(latest_blockhash) is Ok
                    &&& (submission@, step@) == old(self)@.submission(
                        old(self)@.pack(latest_blockhash)->Ok_0,
                    )
                    &&& submission@.well_formed()
                    &&& submission@.accepts(old(self)@.signers)
                    &&& old(self)@.ixes.len() > 0
                    &&& old(self)@.signers.len() > 0
                    &&& latest_blockhash is Some
                    &&& packs(
                        old(self)@.pack(latest_blockhash)->Ok_0,
                        old(self)@.groups(),
                        leading(old(self)@.compute_budget, old(self)@.priority_fee),
                        old(self)@.ixes,
                        old(self)@.signers[0].public,
                        old(self)@.signers,
                        latest_blockhash->0,
                    )
                    &&& (submission@.messages + submission@.rest).len() == old(self)@.pack(
                        latest_blockhash,
                    )->Ok_0.len()
                    &&& forall|i: int|
                        0 <= i < (submission@.messages + submission@.rest).len() ==> #[trigger] (
                        submission@.messages + submission@.rest)[i] == old(self)@.pack(
                            latest_blockhash,
                        )->Ok_0[i].message
                    &&& submission@.batch_size == old(self)@.batch_size
                },
                Err(e) => {
                    &&& old(self)@.pack(latest_blockhash) == Err::<
                        Seq<TransactionView>,
                        JibErrorView,
                    >(e@)
                    &&& if old(self)@.ixes.len() == 0 {
                        e == JibError::NoInstructions
                    } else if old(self)@.signers.len() == 0 {
                        e == JibError::NoSigners
                    } else {
                        latest_blockhash is None && e == JibError::NoRecentBlockhash
                    }
                },
            },
    {
        match self.pack(latest_blockhash) {
            Ok(transactions) => Ok(self.submit_packed_transactions(transactions)),
            Err(e) => Err(e),
        }
    }

    /// Tells whether the transactions can be submitted.
    pub fn can_submit(&self, transactions: &Vec<Transaction>) -> (r: bool)
        ensures
            r == (self@.batch_size > 0 && self@.submittable(views(transactions@))),
            r == (self@.batch_size > 0 && forall|i: int|
                0 <= i < transactions@.len() ==> submittable(
                    (#[trigger] transactions@[i])@.message,
                    self@.signers,
                )),
    {
        proof {
            let all = views(transactions@);
            assert(forall|i: int| 0 <= i < all.len() ==> (#[trigger] transactions@[i])@ == all[i]);
            assert(forall|i: int| 0 <= i < all.len() ==> transactions@[i]@ == #[trigger] all[i]);
        }
        self.batch_size > 0 && can_submit(transactions, &self.signers)
    }

    /// Begin to submit pre-packed transactions to the network. They are signed again, each time
    /// with a fresh blockhash.
    pub fn submit_packed_transactions(&mut self, transactions: Vec<Transaction>) -> (r: (
        Submission,
        Step,
    ))
        requires
            old(self)@.batch_size > 0,
            old(self)@.submittable(views(transactions@)),
        ensures
            *final(self) == *old(self),
            (r.0@, r.1@) == old(self)@.submission(views(transactions@)),
            r.0@.well_formed(),
            r.0@.accepts(old(self)@.signers),
            (r.0@.messages + r.0@.rest).len() == transactions@.len(),
            forall|i: int|
                0 <= i < transactions@.len() ==> #[trigger] (r.0@.messages + r.0@.rest)[i]
                    == transactions@[i]@.message,
            r.0@.batch_size == old(self)@.batch_size,
    {
        let messages = copy_messages(&transactions);
        proof {
            let all = views(messages@);
            assert forall|i: int| 0 <= i < all.len() implies submittable(
                #[trigger] all[i],
                self@.signers,
            ) by {
                assert(all[i] == views(transactions@)[i].message);
            }
        }
        Submission::begin(messages, self.batch_size)
    }

    /// Goes on with a submission after an event, and says what is to be done next.
    pub fn advance(&self, submission: &mut Submission, event: Event) -> (r: Step)
        requires
            old(submission)@.well_formed(),
            old(submission)@.accepts(self@.signers),
            old(submission)@.phase.expects(event@),
        ensures
            (final(submission)@, r@) == old(submission)@.next(self@.signers, event@),
            final(submission)@.well_formed(),
            final(submission)@.accepts(self@.signers),
    {
        submission.step(&self.signers, event)
    }
}

/// What submitting comes to: the results, or the reason why the transactions of a batch could not
/// be confirmed.
pub fn submission_result(outcome: Result<Vec<JibResult>, String>) -> (r: Result<
    Vec<JibResult>,
    JibError,
>)
    ensures
        match outcome {
            Ok(results) => r == Ok::<Vec<JibResult>, JibError>(results),
            Err(reason) => r matches Err(e) && e@ == JibErrorView::TransactionError(reason@),
        },
        outcome matches Err(reason) ==> r matches Err(JibError::TransactionError(told)) && told@
            == reason@,
{
    match outcome {
        Ok(results) => Ok(results),
        Err(reason) => Err(JibError::TransactionError(reason)),
    }
}

} // verus!
