//! Instructions, messages and transactions as plain values.
use vstd::prelude::*;

verus! {

/// The address of an account.
pub type Pubkey = [u8; 32];

/// The hash that names a recent block.
pub type Blockhash = [u8; 32];

/// An ed25519 signature.
pub type Signature = [u8; 64];

/// The views of the elements of a sequence.
pub open spec fn views<T: View>(s: Seq<T>) -> Seq<T::V> {
    s.map_values(|t: T| t@)
}

/// Tells whether two byte arrays hold the same bytes.
pub fn same_bytes<const N: usize>(a: &[u8; N], b: &[u8; N]) -> (r: bool)
    ensures
        r == (*a == *b),
{
    let mut i: usize = 0;
    while i < N
        invariant
            i <= N,
            forall|j: int| 0 <= j < i ==> a@[j] == b@[j],
        decreases N - i,
    {
        if a[i] != b[i] {
            assert(a@[i as int] != b@[i as int]);
            return false;
        }
        i = i + 1;
    }
    assert(*a =~= *b);
    true
}

/// Copies a list of byte arrays.
pub fn copy_arrays<const N: usize>(v: &Vec<[u8; N]>) -> (r: Vec<[u8; N]>)
    ensures
        r@ == v@,
{
    let mut r: Vec<[u8; N]> = Vec::new();
    let mut i: usize = 0;
    while i < v.len()
        invariant
            i <= v.len(),
            r@ == v@.take(i as int),
        decreases v.len() - i,
    {
        r.push(v[i]);
        i = i + 1;
        assert(r@ =~= v@.take(i as int));
    }
    assert(v@.take(i as int) =~= v@);
    r
}

/// An account that an instruction refers to.
#[derive(Clone, Copy, Debug, PartialEq, Eq)]
pub struct AccountMeta {
    pub pubkey: Pubkey,
    /// True if the transaction must be signed with the account's key.
    pub is_signer: bool,
    /// True if the instruction may change the account.
    pub is_writable: bool,
}

/// A call of an on-chain program.
#[derive(Debug, PartialEq, Eq)]
pub struct Instruction {
    pub program_id: Pubkey,
    pub accounts: Vec<AccountMeta>,
    pub data: Vec<u8>,
}

/// The mathematical content of an [`Instruction`].
#[verifier::ext_equal]
pub struct InstructionView {
    pub program_id: Pubkey,
    pub accounts: Seq<AccountMeta>,
    pub data: Seq<u8>,
}

impl View for Instruction {
    type V = InstructionView;

    open spec fn view(&self) -> InstructionView {
        InstructionView {
            program_id: self.program_id,
            accounts: self.accounts@,
            data: self.data@,
        }
    }
}

impl Clone for Instruction {
    fn clone(&self) -> (r: Self)
        ensures
            r@ == self@,
            r.program_id == self.program_id,
            r.accounts@ == self.accounts@,
            r.data@ == self.data@,
    {
        let accounts = self.accounts.clone();
        let data = self.data.clone();
        assert(accounts@ =~= self.accounts@);
        assert(data@ =~= self.data@);
        Instruction { program_id: self.program_id, accounts, data }
    }
}

/// How many of a message's account keys sign, and which are read-only.
#[derive(Clone, Copy, Debug, PartialEq, Eq)]
pub struct MessageHeader {
    /// The first so many account keys sign the transaction.
    pub num_required_signatures: u8,
    /// The last so many of the signing keys are read-only.
    pub num_readonly_signed_accounts: u8,
    /// The last so many of the other keys are read-only.
    pub num_readonly_unsigned_accounts: u8,
}

/// An instruction that refers to its accounts by their position among the message's account keys.
#[derive(Debug, PartialEq, Eq)]
pub struct CompiledInstruction {
    pub program_id_index: u8,
    pub accounts: Vec<u8>,
    pub data: Vec<u8>,
}

/// The mathematical content of a [`CompiledInstruction`].
#[verifier::ext_equal]
pub struct CompiledInstructionView {
    pub program_id_index: u8,
    pub accounts: Seq<u8>,
    pub data: Seq<u8>,
}

impl View for CompiledInstruction {
    type V = CompiledInstructionView;

    open spec fn view(&self) -> CompiledInstructionView {
        CompiledInstructionView {
            program_id_index: self.program_id_index,
            accounts: self.accounts@,
            data: self.data@,
        }
    }
}

impl Clone for CompiledInstruction {
    fn clone(&self) -> (r: Self)
        ensures
            r@ == self@,
            r.program_id_index == self.program_id_index,
            r.accounts@ == self.accounts@,
            r.data@ == self.data@,
    {
        let accounts = self.accounts.clone();
        let data = self.data.clone();
        assert(accounts@ =~= self.accounts@);
        assert(data@ =~= self.data@);
        CompiledInstruction { program_id_index: self.program_id_index, accounts, data }
    }
}

/// The part of a transaction that is signed.
#[derive(Debug, PartialEq, Eq)]
pub struct Message {
    pub header: MessageHeader,
    /// Every account that the instructions refer to.
    pub account_keys: Vec<Pubkey>,
    pub recent_blockhash: Blockhash,
    pub instructions: Vec<CompiledInstruction>,
}

/// The mathematical content of a [`Message`].
#[verifier::ext_equal]
pub struct MessageView {
    pub header: MessageHeader,
    pub account_keys: Seq<Pubkey>,
    pub recent_blockhash: Blockhash,
    pub instructions: Seq<CompiledInstructionView>,
}

impl View for Message {
    type V = MessageView;

    open spec fn view(&self) -> MessageView {
        MessageView {
            header: self.header,
            account_keys: self.account_keys@,
            recent_blockhash: self.recent_blockhash,
            instructions: views(self.instructions@),
        }
    }
}

impl Clone for Message {
    fn clone(&self) -> (r: Self)
        ensures
            r@ == self@,
            r.header == self.header,
            r.account_keys@ == self.account_keys@,
            r.recent_blockhash == self.recent_blockhash,
            r.instructions@.len() == self.instructions@.len(),
            forall|i: int|
                0 <= i < self.instructions@.len() ==> (#[trigger] r.instructions@[i])@
                    == self.instructions@[i]@,
    {
        let account_keys = copy_arrays(&self.account_keys);
        let instructions = self.instructions.clone();
        assert(views(instructions@) =~= views(self.instructions@));
        Message {
            header: self.header,
            account_keys,
            recent_blockhash: self.recent_blockhash,
            instructions,
        }
    }
}

impl MessageView {
    /// How many signatures the message needs.
    pub open spec fn signature_count(self) -> nat {
        self.header.num_required_signatures as nat
    }

    /// The same message with another blockhash.
    pub open spec fn with_blockhash(self, blockhash: Blockhash) -> MessageView {
        MessageView { recent_blockhash: blockhash, ..self }
    }
}

/// A message and its signatures.
#[derive(Debug, PartialEq, Eq)]
pub struct Transaction {
    pub signatures: Vec<Signature>,
    pub message: Message,
}

/// The mathematical content of a [`Transaction`].
#[verifier::ext_equal]
pub struct TransactionView {
    pub signatures: Seq<Signature>,
    pub message: MessageView,
}

impl View for Transaction {
    type V = TransactionView;

    open spec fn view(&self) -> TransactionView {
        TransactionView { signatures: self.signatures@, message: self.message@ }
    }
}

impl Clone for Transaction {
    fn clone(&self) -> (r: Self)
        ensures
            r@ == self@,
            r.signatures@ == self.signatures@,
            r.message@ == self.message@,
    {
        let signatures = copy_arrays(&self.signatures);
        Transaction { signatures, message: self.message.clone() }
    }
}

/// The signature that stands where nobody has signed yet.
pub open spec fn blank_signature() -> Signature {
    vstd::array::spec_array_fill_for_copy_type::<u8, 64>(0)
}

impl TransactionView {
    /// The transaction that holds a message and no signature yet.
    pub open spec fn unsigned(message: MessageView) -> TransactionView {
        TransactionView {
            signatures: Seq::new(message.signature_count(), |i: int| blank_signature()),
            message,
        }
    }
}

impl Transaction {
    /// Makes an unsigned transaction: one blank signature for each that the message needs.
    pub fn new_unsigned(message: Message) -> (r: Self)
        ensures
            r@ == TransactionView::unsigned(message@),
            r.message == message,
            r.signatures@.len() == message.header.num_required_signatures,
            forall|i: int, j: int|
                0 <= i < r.signatures@.len() && 0 <= j < 64 ==> #[trigger] r.signatures@[i]@[j]
                    == 0,
    {
        broadcast use vstd::array::group_array_axioms;

        let count: u8 = message.header.num_required_signatures;
        let mut signatures: Vec<Signature> = Vec::new();
        let mut i: u8 = 0;
        while i < count
            invariant
                i <= count,
                signatures@ == Seq::new(i as nat, |j: int| blank_signature()),
            decreases count - i,
        {
            signatures.push([0u8; 64]);
            i = i + 1;
            assert(signatures@ =~= Seq::new(i as nat, |j: int| blank_signature()));
        }
        Transaction { signatures, message }
    }
}

} // verus!
