//! What can go wrong.
use vstd::prelude::*;

verus! {

/// Why the instructions were not packed or sent.
#[derive(Debug)]
pub enum JibError {
    /// There is nothing to send.
    NoInstructions,
    /// The client of the leaders could not be set up, for the reason given.
    FailedToCreateTpuClient(String),
    /// The RPC node did not give out a recent blockhash.
    NoRecentBlockhash,
    /// A batch could not be sent, for the reason given.
    BatchTransactionError(String),
    /// The transactions of a batch could not be confirmed, for the reason given.
    TransactionError(String),
    /// Nobody pays for the transactions.
    NoSigners,
}

/// The mathematical content of a [`JibError`].
pub enum JibErrorView {
    NoInstructions,
    FailedToCreateTpuClient(Seq<char>),
    NoRecentBlockhash,
    BatchTransactionError(Seq<char>),
    TransactionError(Seq<char>),
    NoSigners,
}

impl View for JibError {
    type V = JibErrorView;

    open spec fn view(&self) -> JibErrorView {
        match self {
            JibError::NoInstructions => JibErrorView::NoInstructions,
            JibError::FailedToCreateTpuClient(reason) => JibErrorView::FailedToCreateTpuClient(
                reason@,
            ),
            JibError::NoRecentBlockhash => JibErrorView::NoRecentBlockhash,
            JibError::BatchTransactionError(reason) => JibErrorView::BatchTransactionError(reason@),
            JibError::TransactionError(reason) => JibErrorView::TransactionError(reason@),
            JibError::NoSigners => JibErrorView::NoSigners,
        }
    }
}

impl JibErrorView {
    /// What is told to the user.
    pub open spec fn message(self) -> Seq<char> {
        match self {
            JibErrorView::NoInstructions => "No instructions to hoist"@,
            JibErrorView::FailedToCreateTpuClient(reason) => "Failed to create the TPU client: "@
                + reason,
            JibErrorView::NoRecentBlockhash => "No recent blockhash"@,
            JibErrorView::BatchTransactionError(reason) => "Send batch transaction failed: "@
                + reason,
            JibErrorView::TransactionError(_) => "Transaction Error"@,
            JibErrorView::NoSigners => "No signers found"@,
        }
    }
}

impl JibError {
    /// What is told to the user.
    pub fn message(&self) -> (r: String)
        ensures
            r@ == self@.message(),
            r@ == match self {
                JibError::NoInstructions => "No instructions to hoist"@,
                JibError::FailedToCreateTpuClient(reason) => "Failed to create the TPU client: "@
                    + reason@,
                JibError::NoRecentBlockhash => "No recent blockhash"@,
                JibError::BatchTransactionError(reason) => "Send batch transaction failed: "@
                    + reason@,
                JibError::TransactionError(_) => "Transaction Error"@,
                JibError::NoSigners => "No signers found"@,
            },
    {
        match self {
            JibError::NoInstructions => "No instructions to hoist".to_owned(),
            JibError::FailedToCreateTpuClient(reason) => {
                "Failed to create the TPU client: ".to_owned().concat(reason.as_str())
            },
            JibError::NoRecentBlockhash => "No recent blockhash".to_owned(),
            JibError::BatchTransactionError(reason) => {
                "Send batch transaction failed: ".to_owned().concat(reason.as_str())
            },
            JibError::TransactionError(_) => "Transaction Error".to_owned(),
            JibError::NoSigners => "No signers found".to_owned(),
        }
    }
}

/// Why a transaction could not be signed.
#[derive(Clone, Copy, Debug, PartialEq, Eq)]
pub enum SignerError {
    /// The message asks for more signatures than it has account keys.
    InvalidAccountIndex,
    /// One of the signers is not a required signer of the message.
    KeypairPubkeyMismatch,
    /// A required signature is missing.
    NotEnoughSigners,
}

/// Why a batch of transactions was not confirmed.
#[derive(Debug)]
pub enum SendError {
    /// A request to the RPC node failed, for the reason given.
    Rpc(String),
    /// A transaction could not be signed.
    Signer(SignerError),
    /// The reason given.
    Custom(String),
}

/// The mathematical content of a [`SendError`].
pub enum SendErrorView {
    Rpc(Seq<char>),
    Signer(SignerError),
    Custom(Seq<char>),
}

impl View for SendError {
    type V = SendErrorView;

    open spec fn view(&self) -> SendErrorView {
        match self {
            SendError::Rpc(reason) => SendErrorView::Rpc(reason@),
            SendError::Signer(e) => SendErrorView::Signer(*e),
            SendError::Custom(reason) => SendErrorView::Custom(reason@),
        }
    }
}

} // verus!
