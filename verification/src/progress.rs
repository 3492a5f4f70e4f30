//! What is shown while transactions are being sent.
use vstd::prelude::*;

use crate::text::{decimal, decimal_text, pad, padded};

verus! {

/// The width that the status is filled up to.
pub const STATUS_WIDTH: usize = 40;

/// How many blocks are left until the transactions have to be signed again.
pub open spec fn blocks_left(block_height: u64, last_valid: u64) -> nat {
    if last_valid > block_height {
        (last_valid - block_height) as nat
    } else {
        0
    }
}

/// The note on the block height, if it is to be shown.
pub open spec fn height_note(block_height: Option<u64>, last_valid: u64) -> Seq<char> {
    match block_height {
        Some(h) => " [block height "@ + decimal(h as nat) + "; re-sign in "@ + decimal(
            blocks_left(h, last_valid),
        ) + " blocks]"@,
        None => Seq::empty(),
    }
}

/// What is shown beside the percentage: the status, and the note on the block height.
pub open spec fn progress_line(
    block_height: Option<u64>,
    last_valid: u64,
    status: Seq<char>,
) -> Seq<char> {
    padded(status, STATUS_WIDTH as nat) + height_note(block_height, last_valid)
}

/// Writes what is shown beside the percentage.
pub fn progress_text(block_height: Option<u64>, last_valid: u64, status: &str) -> (r: String)
    ensures
        r@ == progress_line(block_height, last_valid, status@),
{
    let mut r = pad(status, STATUS_WIDTH);
    match block_height {
        Some(h) => {
            let left: u64 = if last_valid > h {
                last_valid - h
            } else {
                0
            };
            r.append(" [block height ");
            r.append(decimal_text(h).as_str());
            r.append("; re-sign in ");
            r.append(decimal_text(left).as_str());
            r.append(" blocks]");
            assert(r@ =~= progress_line(block_height, last_valid, status@));
        },
        None => {
            assert(r@ =~= progress_line(block_height, last_valid, status@));
        },
    }
    r
}

/// The status while transactions are being sent.
pub open spec fn sending_status(sent: nat, of: nat) -> Seq<char> {
    "Sending "@ + decimal(sent) + "/"@ + decimal(of) + " transactions"@
}

/// Writes the status while transactions are being sent.
pub fn sending_text(sent: usize, of: usize) -> (r: String)
    ensures
        r@ == sending_status(sent as nat, of as nat),
{
    let mut r: String = "Sending ".to_owned();
    r.append(decimal_text(sent as u64).as_str());
    r.append("/");
    r.append(decimal_text(of as u64).as_str());
    r.append(" transactions");
    r
}

/// The status while the next block is being waited for.
pub open spec fn waiting_status(pending: nat) -> Seq<char> {
    "Waiting for next block, "@ + decimal(pending) + " pending..."@
}

/// Writes the status while the next block is being waited for.
pub fn waiting_text(pending: usize) -> (r: String)
    ensures
        r@ == waiting_status(pending as nat),
{
    let mut r: String = "Waiting for next block, ".to_owned();
    r.append(decimal_text(pending as u64).as_str());
    r.append(" pending...");
    r
}

/// What is told when the transactions have to be signed again.
pub open spec fn expired_line(retries: nat) -> Seq<char> {
    "Blockhash expired. "@ + decimal(retries) + " retries remaining"@
}

/// Writes what is told when the transactions have to be signed again.
pub fn expired_text(retries: u64) -> (r: String)
    ensures
        r@ == expired_line(retries as nat),
{
    let mut r: String = "Blockhash expired. ".to_owned();
    r.append(decimal_text(retries).as_str());
    r.append(" retries remaining");
    r
}

} // verus!
