//! The token store: source of truth for which tokens exist, who owns each
//! one, and what each one's immutable metadata descriptor is.

use vstd::prelude::*;
use crate::types::account_of;
use crate::types::AccountIdentifier;
use crate::types::MetadataDesc;
use crate::types::Principal;

verus! {

/// The record kept for one minted token. The metadata descriptor never
/// changes after mint; the owner and the derived account identifier change
/// only through a transfer.
pub struct TokenMetadata {
    pub principal: Principal,
    pub account_identifier: AccountIdentifier,
    pub metadata_desc: MetadataDesc,
}

/// The set of minted tokens, dense by construction: the token with index
/// `i` sits at position `i`, so an index is assigned exactly once and is
/// never reused.
pub struct TokenStore {
    pub tokens: Vec<TokenMetadata>,
}

impl TokenStore {
    /// How many tokens have been minted.
    pub open spec fn count(self) -> nat {
        self.tokens@.len()
    }

    /// Whether `i` is the index of a minted token.
    pub open spec fn minted(self, i: u64) -> bool {
        (i as nat) < self.count()
    }

    /// The record of token `i`.
    pub open spec fn record(self, i: u64) -> TokenMetadata {
        self.tokens@[i as int]
    }

    /// Every token's account identifier is the one derived from its owner.
    pub open spec fn wf(self) -> bool {
        forall|j: int|
            0 <= j < self.tokens@.len() ==> (#[trigger] self.tokens@[j]).account_identifier
                == account_of(self.tokens@[j].principal)
    }

    /// An empty store.
    pub fn new() -> (s: TokenStore)
        ensures
            s.count() == 0,
            s.wf(),
    {
        TokenStore { tokens: Vec::new() }
    }

    /// The number of minted tokens.
    pub fn len(&self) -> (n: u64)
        ensures
            n == self.count(),
    {
        self.tokens.len() as u64
    }

    /// Assigns the next sequential index to a fresh record and stores it.
    /// The index equals the count at call time, so no index is ever handed
    /// out twice.
    pub fn mint(&mut self, owner: Principal, metadata_desc: MetadataDesc) -> (i: u64)
        requires
            old(self).wf(),
        ensures
            final(self).wf(),
            i == old(self).count(),
            final(self).count() == old(self).count() + 1,
            final(self).record(i).principal == owner,
            final(self).record(i).account_identifier == account_of(owner),
            final(self).record(i).metadata_desc == metadata_desc,
            forall|j: int| 0 <= j < old(self).tokens@.len() ==> final(self).tokens@[j] == old(self).tokens@[j],
    {
        let i = self.tokens.len() as u64;
        let record = TokenMetadata {
            principal: owner,
            account_identifier: AccountIdentifier::derive(owner),
            metadata_desc,
        };
        self.tokens.push(record);
        i
    }

    /// Looks a token up by index; `None` exactly when it was never minted.
    pub fn get(&self, i: u64) -> (r: Option<&TokenMetadata>)
        ensures
            match r {
                Some(t) => self.minted(i) && *t == self.record(i),
                None => !self.minted(i),
            },
    {
        if i < self.tokens.len() as u64 {
            Some(&self.tokens[i as usize])
        } else {
            None
        }
    }

    /// Records a new owner for token `i` and recomputes the account
    /// identifier from the new owner. The metadata descriptor is untouched.
    pub fn set_owner(&mut self, i: u64, new_owner: Principal)
        requires
            old(self).wf(),
            old(self).minted(i),
        ensures
            final(self).wf(),
            final(self).count() == old(self).count(),
            final(self).record(i).principal == new_owner,
            final(self).record(i).account_identifier == account_of(new_owner),
            final(self).record(i).metadata_desc == old(self).record(i).metadata_desc,
            forall|j: int|
                0 <= j < old(self).tokens@.len() && j != i ==> final(self).tokens@[j] == old(self).tokens@[j],
    {
        let n = self.tokens.len();
        proof {
            assert(i < n);
        }
        let iu: usize = i as usize;
        proof {
            assert(iu as int == i as int);
        }
        let mut record = self.tokens.remove(iu);
        record.principal = new_owner;
        record.account_identifier = AccountIdentifier::derive(new_owner);
        self.tokens.insert(iu, record);
        proof {
            assert(self.tokens@.len() == old(self).tokens@.len());
            assert(self.tokens@[i as int] == record);
            assert forall|j: int|
                0 <= j < old(self).tokens@.len() && j != i ==> self.tokens@[j] == old(self).tokens@[j] by {}
        }
    }

    /// Discards every record.
    pub fn clear(&mut self)
        ensures
            final(self).count() == 0,
            final(self).wf(),
    {
        self.tokens.clear();
    }
}

} // verus!
