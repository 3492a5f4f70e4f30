//! What the RPC node says about a transaction that was sent.
use vstd::prelude::*;

verus! {

/// How sure a node is of a transaction.
#[derive(Clone, Copy, Debug, PartialEq, Eq)]
pub enum ConfirmationStatus {
    Processed,
    Confirmed,
    Finalized,
}

/// How sure a client wants to be of a transaction.
#[derive(Clone, Copy, Debug, PartialEq, Eq)]
pub enum Commitment {
    Processed,
    Confirmed,
    Finalized,
}

/// How sure the library wants to be of a transaction before it reports it.
pub const COMMITMENT: Commitment = Commitment::Confirmed;

/// The status of a transaction, as the RPC node reports it.
#[derive(Debug)]
pub struct SignatureStatus {
    /// The slot in which the transaction was processed.
    pub slot: u64,
    /// The number of blocks since, or `None` once the transaction cannot be rolled back.
    pub confirmations: Option<usize>,
    /// The error message, if the transaction failed.
    pub err: Option<String>,
    /// How sure the node is, unless its software is too old to tell.
    pub confirmation_status: Option<ConfirmationStatus>,
    /// The whole status in words.
    pub description: String,
}

/// The mathematical content of a [`SignatureStatus`].
pub struct SignatureStatusView {
    pub slot: u64,
    pub confirmations: Option<usize>,
    pub err: Option<Seq<char>>,
    pub confirmation_status: Option<ConfirmationStatus>,
    pub description: Seq<char>,
}

impl View for SignatureStatus {
    type V = SignatureStatusView;

    open spec fn view(&self) -> SignatureStatusView {
        SignatureStatusView {
            slot: self.slot,
            confirmations: self.confirmations,
            err: match self.err {
                Some(e) => Some(e@),
                None => None,
            },
            confirmation_status: self.confirmation_status,
            description: self.description@,
        }
    }
}

/// The status is as sure as the commitment asks. A node that does not tell how sure it is counts
/// as sure from the second block on.
pub open spec fn satisfies(status: SignatureStatusView, commitment: Commitment) -> bool {
    match commitment {
        Commitment::Processed => true,
        Commitment::Confirmed => match status.confirmation_status {
            Some(s) => !(s is Processed),
            None => match status.confirmations {
                Some(n) => n > 1,
                None => true,
            },
        },
        Commitment::Finalized => status.confirmations is None,
    }
}

} // verus!
