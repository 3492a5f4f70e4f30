//! What has become of a transaction.
use vstd::prelude::*;

use crate::model::{Transaction, TransactionView};

verus! {

/// A library Result value indicating Success or Failure and containing information about each
/// result type.
#[derive(Debug, PartialEq, Eq)]
pub enum JibResult {
    /// The transaction was successful and contains the signature of the transaction.
    Success(String),
    /// The transaction failed and contains the transaction and error message.
    Failure(JibFailedTransaction),
}

/// A failed transaction with the error message.
#[derive(Debug, PartialEq, Eq)]
pub struct JibFailedTransaction {
    pub transaction: Transaction,
    pub error: String,
}

/// The mathematical content of a [`JibResult`].
pub enum JibResultView {
    /// The signature of the transaction.
    Success(Seq<char>),
    /// The transaction and its error message.
    Failure(TransactionView, Seq<char>),
}

impl View for JibResult {
    type V = JibResultView;

    open spec fn view(&self) -> JibResultView {
        match self {
            JibResult::Success(signature) => JibResultView::Success(signature@),
            JibResult::Failure(failed) => JibResultView::Failure(
                failed.transaction@,
                failed.error@,
            ),
        }
    }
}

impl JibResult {
    /// Returns true if the result is a success.
    pub fn is_success(&self) -> (r: bool)
        ensures
            r == (self@ is Success),
            r == (*self is Success),
    {
        match self {
            JibResult::Success(_) => true,
            JibResult::Failure(_) => false,
        }
    }

    /// Returns true if the result is a failure.
    pub fn is_failure(&self) -> (r: bool)
        ensures
            r == (self@ is Failure),
            r == (*self is Failure),
    {
        !self.is_success()
    }

    /// Returns the transaction of a failure, or None if the result is a success.
    pub fn transaction(&self) -> (r: Option<Transaction>)
        ensures
            match self@ {
                JibResultView::Success(_) => r is None,
                JibResultView::Failure(transaction, _) => r matches Some(t) && t@ == transaction,
            },
            match *self {
                JibResult::Success(_) => r is None,
                JibResult::Failure(failed) => r matches Some(t) && t@ == failed.transaction@,
            },
    {
        match self {
            JibResult::Success(_) => None,
            JibResult::Failure(failed) => Some(failed.transaction.clone()),
        }
    }

    /// Returns the error message of a failure, or None if the result is a success.
    pub fn error(&self) -> (r: Option<String>)
        ensures
            match self@ {
                JibResultView::Success(_) => r is None,
                JibResultView::Failure(_, error) => r matches Some(e) && e@ == error,
            },
            match *self {
                JibResult::Success(_) => r is None,
                JibResult::Failure(failed) => r matches Some(e) && e@ == failed.error@,
            },
    {
        match self {
            JibResult::Success(_) => None,
            JibResult::Failure(failed) => Some(failed.error.clone()),
        }
    }

    /// Returns the signature of a success, or None if the result is a failure.
    pub fn signature(&self) -> (r: Option<String>)
        ensures
            match self@ {
                JibResultView::Success(signature) => r matches Some(s) && s@ == signature,
                JibResultView::Failure(_, _) => r is None,
            },
            match *self {
                JibResult::Success(signature) => r matches Some(s) && s@ == signature@,
                JibResult::Failure(_) => r is None,
            },
    {
        match self {
            JibResult::Success(signature) => Some(signature.clone()),
            JibResult::Failure(_) => None,
        }
    }
}

} // verus!
