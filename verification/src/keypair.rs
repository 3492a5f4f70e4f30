//! Keys that sign transactions.
use vstd::prelude::*;

use crate::model::Pubkey;
use crate::sdk::{decodes_keypair, keypair_decodes};

verus! {

/// An ed25519 key pair.
pub struct Keypair {
    pub(crate) bytes: [u8; 64],
    pub(crate) public: Pubkey,
}

/// The mathematical content of a [`Keypair`].
pub struct KeypairView {
    /// The secret key, then the public key.
    pub bytes: [u8; 64],
    /// The public key.
    pub public: Pubkey,
}

impl View for Keypair {
    type V = KeypairView;

    closed spec fn view(&self) -> KeypairView {
        KeypairView { bytes: self.bytes, public: self.public }
    }
}

impl Keypair {
    #[verifier::type_invariant]
    spec fn well_formed(self) -> bool {
        &&& keypair_decodes(self.bytes)
        &&& self.public@ == self.bytes@.subrange(32, 64)
    }

    /// Reads a key pair from its 64 bytes: the secret key, then the public key. There is none if
    /// the second half is not a public key.
    pub fn from_bytes(bytes: [u8; 64]) -> (r: Option<Keypair>)
        ensures
            r is Some <==> keypair_decodes(bytes),
            r matches Some(k) ==> k@.bytes == bytes && k@.public@ == bytes@.subrange(32, 64),
    {
        if !decodes_keypair(&bytes) {
            return None;
        }
        let mut public: Pubkey = [0u8; 32];
        let mut i: usize = 0;
        while i < 32
            invariant
                i <= 32,
                forall|j: int| 0 <= j < i ==> public@[j] == bytes@[32 + j],
            decreases 32 - i,
        {
            public[i] = bytes[32 + i];
            i = i + 1;
        }
        assert(public@ =~= bytes@.subrange(32, 64));
        Some(Keypair { bytes, public })
    }

    /// The public key: the address of the account that the key pair signs for.
    pub fn pubkey(&self) -> (r: Pubkey)
        ensures
            r == self@.public,
    {
        self.public
    }
}

} // verus!
