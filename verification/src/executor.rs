//! The decisions of the bundle sender.

use vstd::prelude::*;
use core::marker::PhantomData;
use crate::address::Address;
use crate::strategy::TxRequest;

verus! {

/// An executor that only reports the actions it is given.
pub struct EchoExecutor<T> {
    marker: PhantomData<T>,
}

impl<T> EchoExecutor<T> {
    /// A new echo executor.
    pub fn new() -> (r: Self) {
        EchoExecutor { marker: PhantomData }
    }
}

/// What the bundle sender does next with a transaction request.
#[derive(Clone, Copy, Debug)]
pub enum SubmissionStep {
    /// The request names no sender: give up.
    MissingSender,
    /// No signer is known for the sender: give up.
    MissingSigner(Address),
    /// The request has no nonce: fetch the sender's transaction count.
    FetchNonce(Address),
    /// Sign the request with the sender's key and send the bundle.
    Sign(Address),
}

/// The next step for `tx`, given the accounts that have signers: it needs
/// a sender, a signer for that sender, and a nonce, in that order.
pub fn next_submission_step(tx: &TxRequest, signers: &Vec<Address>) -> (r: SubmissionStep)
    ensures
        r == (match tx.from {
            None => SubmissionStep::MissingSender,
            Some(a) => if !signers@.contains(a) {
                SubmissionStep::MissingSigner(a)
            } else if tx.nonce is None {
                SubmissionStep::FetchNonce(a)
            } else {
                SubmissionStep::Sign(a)
            },
        }),
{
    let account = match tx.from {
        Some(v) => v,
        None => return SubmissionStep::MissingSender,
    };
    let mut i: usize = 0;
    let mut known = false;
    while i < signers.len()
        invariant
            i <= signers@.len(),
            known <==> exists|j: int| 0 <= j < i && signers@[j] == account,
        decreases signers.len() - i,
    {
        if signers[i] == account {
            known = true;
        }
        i = i + 1;
    }
    if !known {
        return SubmissionStep::MissingSigner(account);
    }
    if tx.nonce.is_none() {
        SubmissionStep::FetchNonce(account)
    } else {
        SubmissionStep::Sign(account)
    }
}

/// The request with its nonce set.
pub fn set_nonce(tx: TxRequest, nonce: u64) -> (r: TxRequest)
    ensures
        r == (TxRequest { nonce: Some(nonce), ..tx }),
{
    TxRequest { nonce: Some(nonce), ..tx }
}

} // verus!
