//! Value types of the ledger: identities, the owner-derived account
//! identifier, metadata payloads, receipts and the typed errors.

use vstd::prelude::*;

verus! {

/// An owner identity: the principal recognised as the current holder of a
/// token. Modelled as a plain numeric identity; only equality of identities
/// matters to the ledger.
#[derive(Clone, Copy, PartialEq, Eq, Structural, Debug, Hash)]
pub struct Principal {
    pub id: u64,
}

/// An identity in the form used to key the owner index. Kept distinct from
/// the raw [`Principal`] so that every conversion between the two is
/// explicit.
#[derive(Clone, Copy, PartialEq, Eq, Structural, Debug, Hash)]
pub struct User {
    pub principal: Principal,
}

impl User {
    /// The user keyed by a principal.
    pub open spec fn of(p: Principal) -> User {
        User { principal: p }
    }

    /// Wraps a principal as an owner-index key.
    pub fn principal(p: Principal) -> (u: User)
        ensures
            u == User::of(p),
    {
        User { principal: p }
    }

    /// A user is nothing but the key of its own principal.
    pub proof fn lemma_eta(u: User)
        ensures
            u == User::of(u.principal),
    {
    }
}

/// A stable, owner-derived addressable handle, distinct from the raw
/// identity and recomputed on every ownership change.
#[derive(Clone, Copy, PartialEq, Eq, Structural, Debug, Hash)]
pub struct AccountIdentifier {
    pub value: u64,
}

/// The account identifier that belongs to an owner identity.
pub open spec fn account_of(p: Principal) -> AccountIdentifier {
    AccountIdentifier { value: p.id }
}

impl AccountIdentifier {
    /// Derives the addressable handle of an owner identity.
    pub fn derive(p: Principal) -> (a: AccountIdentifier)
        ensures
            a == account_of(p),
    {
        AccountIdentifier { value: p.id }
    }
}

/// The immutable, mint-time-supplied descriptive payload of a token.
pub type MetadataDesc = Vec<u8>;

/// A dense, monotonically assigned integer identity for a minted token.
pub type TokenIndex = u64;

/// The typed failure kinds of the ledger's operations.
#[derive(Clone, Copy, PartialEq, Eq, Structural, Debug)]
pub enum Error {
    /// The token index was never minted.
    NotFound,
    /// The caller is not the recorded owner for the requested mutation.
    Unauthorized,
    /// A malformed argument, such as a zero listing price.
    InvalidArgument,
    /// An active listing already exists for the token.
    AlreadyListed,
    /// No active listing exists for the token.
    NotListed,
    /// The token store and the owner index disagree: an internal defect,
    /// never a normal user-facing condition.
    InvariantViolation,
}

/// What a successful mint reports: the new token's index and the fixed unit
/// count of a non-fungible token.
#[derive(Clone, Copy, PartialEq, Eq, Structural, Debug)]
pub struct MintReceiptPart {
    pub token_id: u64,
    pub id: u64,
}

/// The result of a mint.
pub type MintReceipt = Result<MintReceiptPart, Error>;

/// One row of a per-user metadata query: a token the user holds, with its
/// metadata descriptor.
pub struct ExtendedMetadataResult {
    pub metadata_desc: MetadataDesc,
    pub token_id: u64,
}

/// Copies a metadata descriptor byte for byte.
pub fn clone_metadata(src: &MetadataDesc) -> (r: MetadataDesc)
    ensures
        r@ == src@,
{
    let mut out: Vec<u8> = Vec::new();
    let mut k: usize = 0;
    while k < src.len()
        invariant
            k <= src@.len(),
            out@.len() == k,
            forall|t: int| 0 <= t < k ==> out@[t] == src@[t],
        decreases src@.len() - k,
    {
        out.push(src[k]);
        k = k + 1;
    }
    proof {
        assert(out@ =~= src@);
    }
    out
}

} // verus!
