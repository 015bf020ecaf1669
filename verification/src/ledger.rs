//! The ledger facade. It composes the token store, the owner index and the
//! listing book, and is the only place allowed to touch more than one of
//! them in a single operation. Its invariant ties the stores together: the
//! token store and the owner index never disagree about who holds what, and
//! the listing book never holds a zero price or two listings for one token.
//!
//! Listings are not cleared when a listed token is transferred: as in the
//! interface this ledger conforms to, a stale listing stays booked and the
//! new owner may delist it.

use vstd::prelude::*;
use crate::listing_book::Listing;
use crate::listing_book::ListingBook;
use crate::owner_index::OwnerIndex;
use crate::token_store::TokenMetadata;
use crate::token_store::TokenStore;
use crate::types::account_of;
use crate::types::clone_metadata;
use crate::types::AccountIdentifier;
use crate::types::Error;
use crate::types::ExtendedMetadataResult;
use crate::types::MetadataDesc;
use crate::types::MintReceipt;
use crate::types::MintReceiptPart;
use crate::types::Principal;
use crate::types::User;

verus! {

/// The ledger: the single authoritative state behind every operation.
pub struct Ledger {
    pub tokens: TokenStore,
    pub user_tokens: OwnerIndex,
    pub listed: ListingBook,
}

impl Ledger {
    /// How many tokens have been minted.
    pub open spec fn token_count(self) -> nat {
        self.tokens.count()
    }

    /// Whether `i` is the index of a minted token.
    pub open spec fn minted(self, i: u64) -> bool {
        self.tokens.minted(i)
    }

    /// The recorded owner of token `i`.
    pub open spec fn owner_of_spec(self, i: u64) -> Principal {
        self.tokens.record(i).principal
    }

    /// The account identifier recorded for token `i`.
    pub open spec fn account_of_spec(self, i: u64) -> AccountIdentifier {
        self.tokens.record(i).account_identifier
    }

    /// The metadata descriptor of token `i`.
    pub open spec fn metadata_of_spec(self, i: u64) -> Seq<u8> {
        self.tokens.record(i).metadata_desc@
    }

    /// The token indices the owner index records for `u`.
    pub open spec fn holdings(self, u: User) -> Seq<u64> {
        self.user_tokens.tokens_of_spec(u)
    }

    /// Whether the owner index records `u` as holding token `i`.
    pub open spec fn holds(self, u: User, i: u64) -> bool {
        self.user_tokens.owns(u, i)
    }

    /// How many tokens `u` holds.
    pub open spec fn balance_spec(self, u: User) -> nat {
        self.holdings(u).len()
    }

    /// Whether an active listing is booked for token `i`.
    pub open spec fn is_listed(self, i: u64) -> bool {
        self.listed.has_listing(i)
    }

    /// The active listing for token `i`, if any.
    pub open spec fn listing_spec(self, i: u64) -> Option<Listing> {
        self.listed.listing_spec(i)
    }

    /// The cross-store invariant. Every held token is minted and its
    /// recorded owner is the holder; every minted token is held by its
    /// recorded owner; the three stores are each well-formed. Together with
    /// the owner index's own well-formedness this makes the holder of each
    /// token unique.
    pub open spec fn inv(self) -> bool {
        &&& self.tokens.wf()
        &&& self.user_tokens.wf()
        &&& self.listed.wf()
        &&& forall|u: User, x: u64|
            #[trigger] self.user_tokens.owns(u, x) ==> self.tokens.minted(x)
                && self.tokens.record(x).principal == u.principal
        &&& forall|x: int|
            0 <= x < self.tokens.tokens@.len() ==> self.user_tokens.owns(
                User::of((#[trigger] self.tokens.tokens@[x]).principal),
                x as u64,
            )
    }

    /// What a transfer returns, as a function of the pre-state.
    pub open spec fn transfer_outcome(self, from: User, to: User, i: u64) -> Result<(), Error> {
        if !self.minted(i) {
            Err(Error::NotFound)
        } else if self.owner_of_spec(i) != from.principal {
            Err(Error::Unauthorized)
        } else {
            Ok(())
        }
    }

    /// What a list returns, as a function of the pre-state.
    pub open spec fn list_outcome(self, from: Principal, i: u64, price: u64) -> Result<
        bool,
        Error,
    > {
        if !self.minted(i) {
            Err(Error::NotFound)
        } else if self.owner_of_spec(i) != from {
            Err(Error::Unauthorized)
        } else if price == 0 {
            Err(Error::InvalidArgument)
        } else if self.is_listed(i) {
            Err(Error::AlreadyListed)
        } else {
            Ok(true)
        }
    }

    /// What a delist returns, as a function of the pre-state.
    pub open spec fn delist_outcome(self, from: Principal, i: u64) -> Result<bool, Error> {
        if !self.minted(i) {
            Err(Error::NotFound)
        } else if self.owner_of_spec(i) != from {
            Err(Error::Unauthorized)
        } else if !self.is_listed(i) {
            Err(Error::NotListed)
        } else {
            Ok(true)
        }
    }

    /// An empty ledger.
    pub fn new() -> (l: Ledger)
        ensures
            l.inv(),
            l.token_count() == 0,
            forall|u: User| #[trigger] l.holdings(u) == Seq::<u64>::empty(),
            forall|i: u64| #[trigger] l.listed.listing_spec(i) is None,
            forall|i: u64| !(#[trigger] l.listed.has_listing(i)),
    {
        let l = Ledger {
            tokens: TokenStore::new(),
            user_tokens: OwnerIndex::new(),
            listed: ListingBook::new(),
        };
        proof {
            assert forall|u: User, x: u64| #[trigger] l.user_tokens.owns(u, x) implies
                l.tokens.minted(x) && l.tokens.record(x).principal == u.principal by {
                assert(l.user_tokens.tokens_of_spec(u) == Seq::<u64>::empty());
            }
        }
        l
    }

    /// Mints a new token for `to` with the given metadata descriptor. The
    /// assigned index equals the supply immediately before the mint, so
    /// indices are dense and never reused; a mint cannot fail.
    #[allow(non_snake_case)]
    pub fn mintNFT(&mut self, to: &Principal, metadata_desc: &MetadataDesc) -> (r: MintReceipt)
        requires
            old(self).inv(),
        ensures
            final(self).inv(),
            final(self).token_count() == old(self).token_count() + 1,
            r == Ok::<MintReceiptPart, Error>(
                MintReceiptPart { token_id: old(self).token_count() as u64, id: 1u64 },
            ),
            final(self).owner_of_spec(old(self).token_count() as u64) == *to,
            final(self).account_of_spec(old(self).token_count() as u64) == account_of(*to),
            final(self).metadata_of_spec(old(self).token_count() as u64) == metadata_desc@,
            forall|j: int|
                0 <= j < old(self).token_count() ==> final(self).tokens.tokens@[j] == old(self).tokens.tokens@[j],
            final(self).holdings(User::of(*to)) == old(self).holdings(User::of(*to)).push(
                old(self).token_count() as u64,
            ),
            final(self).balance_spec(User::of(*to)) == old(self).balance_spec(User::of(*to)) + 1,
            forall|v: User|
                v != User::of(*to) ==> #[trigger] final(self).holdings(v) == old(self).holdings(v),
            final(self).listed == old(self).listed,
    {
        let meta = clone_metadata(metadata_desc);
        let i = self.tokens.mint(*to, meta);
        let u = User::principal(*to);
        proof {
            if self.user_tokens.owns(u, i) {
                assert(old(self).user_tokens.owns(u, i));
                assert(old(self).tokens.minted(i));
            }
        }
        self.user_tokens.add(&u, i);
        proof {
            let ghost of = *old(self);
            assert forall|v: User, x: u64| #[trigger] self.user_tokens.owns(v, x) implies
                self.tokens.minted(x) && self.tokens.record(x).principal == v.principal by {
                if v == u {
                    if x != i {
                        assert(of.user_tokens.owns(v, x));
                    }
                } else {
                    assert(self.user_tokens.tokens_of_spec(v) == of.user_tokens.tokens_of_spec(
                        v,
                    ));
                    assert(of.user_tokens.owns(v, x));
                }
            }
            assert forall|x: int| 0 <= x < self.tokens.tokens@.len() implies self.user_tokens.owns(
                User::of((#[trigger] self.tokens.tokens@[x]).principal),
                x as u64,
            ) by {
                if x < of.tokens.tokens@.len() {
                    assert(self.tokens.tokens@[x] == of.tokens.tokens@[x]);
                    let w = User::of(of.tokens.tokens@[x].principal);
                    assert(of.user_tokens.owns(w, x as u64));
                    if w == u {
                        assert(self.user_tokens.owns(u, x as u64));
                    } else {
                        assert(self.user_tokens.tokens_of_spec(w)
                            == of.user_tokens.tokens_of_spec(w));
                    }
                } else {
                    assert(self.tokens.record(i).principal == *to);
                    assert(self.user_tokens.owns(u, i));
                }
            }
        }
        Ok(MintReceiptPart { token_id: i, id: 1 })
    }

    /// The total number of minted tokens; monotonic, one more per mint.
    pub fn total_supply(&self) -> (r: u64)
        ensures
            r == self.token_count(),
    {
        self.tokens.len()
    }

    /// The metadata descriptor of a token, by raw index.
    pub fn get_metadata(&self, token_id: u64) -> (r: Result<MetadataDesc, Error>)
        ensures
            self.minted(token_id) ==> (r matches Ok(m) && m@ == self.metadata_of_spec(token_id)),
            !self.minted(token_id) ==> r == Err::<MetadataDesc, Error>(Error::NotFound),
    {
        match self.tokens.get(token_id) {
            Some(t) => Ok(clone_metadata(&t.metadata_desc)),
            None => Err(Error::NotFound),
        }
    }

    /// The metadata descriptor of a token, by token identifier.
    pub fn metadata(&self, token_identifier: u64) -> (r: Result<MetadataDesc, Error>)
        ensures
            self.minted(token_identifier) ==> (r matches Ok(m) && m@ == self.metadata_of_spec(
                token_identifier,
            )),
            !self.minted(token_identifier) ==> r == Err::<MetadataDesc, Error>(Error::NotFound),
    {
        self.get_metadata(token_identifier)
    }

    /// The recorded owner of a token.
    pub fn owner_of(&self, token_identifier: u64) -> (r: Result<Principal, Error>)
        ensures
            r == if self.minted(token_identifier) {
                Ok::<Principal, Error>(self.owner_of_spec(token_identifier))
            } else {
                Err::<Principal, Error>(Error::NotFound)
            },
    {
        match self.tokens.get(token_identifier) {
            Some(t) => Ok(t.principal),
            None => Err(Error::NotFound),
        }
    }

    /// The account identifier a token is addressable under: always the one
    /// derived from its current owner.
    pub fn bearer(&self, token_identifier: u64) -> (r: Result<AccountIdentifier, Error>)
        requires
            self.inv(),
        ensures
            r == if self.minted(token_identifier) {
                Ok::<AccountIdentifier, Error>(account_of(self.owner_of_spec(token_identifier)))
            } else {
                Err::<AccountIdentifier, Error>(Error::NotFound)
            },
    {
        match self.tokens.get(token_identifier) {
            Some(t) => Ok(t.account_identifier),
            None => Err(Error::NotFound),
        }
    }

    /// The supply backing a token identifier. As in the interface this
    /// ledger conforms to, the answer is the total minted count, whatever
    /// identifier is asked about.
    pub fn supply(&self, _token_identifier: u64) -> (r: Result<u64, Error>)
        ensures
            r == Ok::<u64, Error>(self.token_count() as u64),
    {
        Ok(self.tokens.len())
    }

    /// How many tokens `user` holds; zero for an identity never seen.
    pub fn balance_of(&self, user: &User) -> (r: u64)
        requires
            self.inv(),
        ensures
            r == self.balance_spec(*user),
    {
        self.user_tokens.balance_of(user)
    }

    /// The indices of the tokens `user` holds; empty if none.
    pub fn get_token_ids_for_user(&self, user: &Principal) -> (r: Vec<u64>)
        requires
            self.inv(),
        ensures
            r@ == self.holdings(User::of(*user)),
    {
        let u = User::principal(*user);
        self.user_tokens.tokens_of(&u)
    }

    /// The metadata of every token `user` holds, each with its index.
    pub fn get_metadata_for_user(&self, user: &Principal) -> (r: Vec<ExtendedMetadataResult>)
        requires
            self.inv(),
        ensures
            r@.len() == self.holdings(User::of(*user)).len(),
            forall|t: int|
                0 <= t < r@.len() ==> (#[trigger] r@[t]).token_id == self.holdings(
                    User::of(*user),
                )[t] && r@[t].metadata_desc@ == self.metadata_of_spec(
                    self.holdings(User::of(*user))[t],
                ),
    {
        let u = User::principal(*user);
        let ids = self.user_tokens.tokens_of(&u);
        let mut out: Vec<ExtendedMetadataResult> = Vec::new();
        let mut k: usize = 0;
        while k < ids.len()
            invariant
                self.inv(),
                ids@ == self.holdings(User::of(*user)),
                k <= ids@.len(),
                out@.len() == k,
                forall|t: int|
                    0 <= t < k ==> (#[trigger] out@[t]).token_id == ids@[t]
                        && out@[t].metadata_desc@ == self.metadata_of_spec(ids@[t]),
            decreases ids@.len() - k,
        {
            let id = ids[k];
            proof {
                assert(self.holdings(User::of(*user)).contains(id));
                assert(self.user_tokens.owns(User::of(*user), id));
            }
            match self.tokens.get(id) {
                Some(t) => {
                    out.push(
                        ExtendedMetadataResult {
                            metadata_desc: clone_metadata(&t.metadata_desc),
                            token_id: id,
                        },
                    );
                },
                None => {
                    // unreachable: the owner index only records minted tokens
                },
            }
            k = k + 1;
        }
        out
    }

    /// The full record of every token `user` holds.
    pub fn get_all_metadata_for_user(&self, user: &User) -> (r: Vec<TokenMetadata>)
        requires
            self.inv(),
        ensures
            r@.len() == self.holdings(*user).len(),
            forall|t: int|
                0 <= t < r@.len() ==> (#[trigger] r@[t]).principal == self.owner_of_spec(
                    self.holdings(*user)[t],
                ) && r@[t].account_identifier == self.account_of_spec(self.holdings(*user)[t])
                    && r@[t].metadata_desc@ == self.metadata_of_spec(self.holdings(*user)[t]),
    {
        let ids = self.user_tokens.tokens_of(user);
        let mut out: Vec<TokenMetadata> = Vec::new();
        let mut k: usize = 0;
        while k < ids.len()
            invariant
                self.inv(),
                ids@ == self.holdings(*user),
                k <= ids@.len(),
                out@.len() == k,
                forall|t: int|
                    0 <= t < k ==> (#[trigger] out@[t]).principal == self.owner_of_spec(ids@[t])
                        && out@[t].account_identifier == self.account_of_spec(ids@[t])
                        && out@[t].metadata_desc@ == self.metadata_of_spec(ids@[t]),
            decreases ids@.len() - k,
        {
            let id = ids[k];
            proof {
                assert(self.holdings(*user).contains(id));
                assert(self.user_tokens.owns(*user, id));
            }
            match self.tokens.get(id) {
                Some(t) => {
                    out.push(
                        TokenMetadata {
                            principal: t.principal,
                            account_identifier: t.account_identifier,
                            metadata_desc: clone_metadata(&t.metadata_desc),
                        },
                    );
                },
                None => {
                    // unreachable: the owner index only records minted tokens
                },
            }
            k = k + 1;
        }
        out
    }

    /// Moves token `token_identifier` from `from` to `to`. All checks are
    /// made before any mutation, so the token store and the owner index move
    /// together or not at all. Any active listing for the token stays
    /// booked.
    pub fn transfer(&mut self, from: &User, to: &User, token_identifier: u64) -> (r: Result<
        (),
        Error,
    >)
        requires
            old(self).inv(),
        ensures
            final(self).inv(),
            r == old(self).transfer_outcome(*from, *to, token_identifier),
            r is Err ==> *final(self) == *old(self),
            final(self).token_count() == old(self).token_count(),
            final(self).listed == old(self).listed,
            r is Ok ==> final(self).owner_of_spec(token_identifier) == to.principal,
            r is Ok ==> final(self).account_of_spec(token_identifier) == account_of(to.principal),
            r is Ok ==> final(self).metadata_of_spec(token_identifier) == old(self).metadata_of_spec(token_identifier),
            r is Ok ==> forall|j: int|
                0 <= j < old(self).tokens.tokens@.len() && j != token_identifier ==> final(self).tokens.tokens@[j] == old(self).tokens.tokens@[j],
            r is Ok ==> final(self).holds(*to, token_identifier),
            r is Ok && *from != *to ==> !final(self).holds(*from, token_identifier),
            r is Ok && *from != *to ==> final(self).balance_spec(*from) + 1 == old(self).balance_spec(*from),
            r is Ok && *from != *to ==> final(self).balance_spec(*to) == old(self).balance_spec(
                *to,
            ) + 1,
            r is Ok && *from != *to ==> final(self).holdings(*to) == old(self).holdings(*to).push(
                token_identifier,
            ),
            r is Ok && *from != *to ==> forall|x: u64|
                x != token_identifier ==> ((#[trigger] final(self).holds(*from, x)) <==> old(self).holds(*from, x)),
            r is Ok && *from == *to ==> final(self).balance_spec(*to) == old(self).balance_spec(
                *to,
            ),
            r is Ok && *from == *to ==> forall|x: u64|
                (#[trigger] final(self).holds(*to, x)) <==> old(self).holds(*to, x),
            r is Ok ==> forall|v: User|
                v != *from && v != *to ==> #[trigger] final(self).holdings(v) == old(self).holdings(v),
    {
        let i = token_identifier;
        let owner: Principal = match self.tokens.get(i) {
            Some(t) => t.principal,
            None => {
                return Err(Error::NotFound);
            },
        };
        if owner != from.principal {
            return Err(Error::Unauthorized);
        }
        proof {
            assert(old(self).tokens.tokens@[i as int].principal == owner);
            assert(old(self).user_tokens.owns(User::of(owner), i));
            User::lemma_eta(*from);
            assert(old(self).user_tokens.owns(*from, i));
        }
        self.tokens.set_owner(i, to.principal);
        let ghost s1 = *self;
        let removed = self.user_tokens.remove(from, i);
        let ghost s2 = *self;
        match removed {
            Ok(()) => {},
            Err(_) => {
                // cannot happen: under the invariant the owner index always
                // records the current owner as the holder
                return Err(Error::InvariantViolation);
            },
        }
        proof {
            if *to != *from && s2.user_tokens.owns(*to, i) {
                assert(s2.user_tokens.tokens_of_spec(*to) == old(self).user_tokens.tokens_of_spec(*to));
                assert(old(self).user_tokens.owns(*to, i));
                User::lemma_eta(*to);
            }
        }
        self.user_tokens.add(to, i);
        proof {
            let ghost of = *old(self);
            assert(of.tokens.tokens@.len() <= usize::MAX) by {
                assert(of.tokens.tokens.len() == of.tokens.tokens@.len());
            }
            // the index and the store agree again: every held token is
            // minted with the holder as its recorded owner
            assert forall|v: User, x: u64| #[trigger] self.user_tokens.owns(v, x) implies
                self.tokens.minted(x) && self.tokens.record(x).principal == v.principal by {
                if v == *to {
                    if x != i {
                        assert(s2.user_tokens.owns(v, x));
                        if v == *from {
                            assert(of.user_tokens.owns(v, x));
                        } else {
                            assert(s2.user_tokens.tokens_of_spec(v)
                                == of.user_tokens.tokens_of_spec(v));
                            assert(of.user_tokens.owns(v, x));
                        }
                        assert(self.tokens.tokens@[x as int] == of.tokens.tokens@[x as int]);
                    }
                } else {
                    assert(self.user_tokens.tokens_of_spec(v) == s2.user_tokens.tokens_of_spec(
                        v,
                    ));
                    assert(s2.user_tokens.owns(v, x));
                    if v == *from {
                        assert(x != i);
                        assert(of.user_tokens.owns(v, x));
                    } else {
                        assert(s2.user_tokens.tokens_of_spec(v)
                            == of.user_tokens.tokens_of_spec(v));
                        assert(of.user_tokens.owns(v, x));
                        if x == i {
                            User::lemma_eta(v);
                            User::lemma_eta(*from);
                            assert(v.principal == of.tokens.record(i).principal);
                        }
                    }
                    assert(x != i);
                    assert(self.tokens.tokens@[x as int] == of.tokens.tokens@[x as int]);
                }
            }
            // every minted token is still held by its recorded owner
            assert forall|x: int| 0 <= x < self.tokens.tokens@.len() implies self.user_tokens.owns(
                User::of((#[trigger] self.tokens.tokens@[x]).principal),
                x as u64,
            ) by {
                if x == i as int {
                    assert(self.tokens.tokens@[x].principal == to.principal);
                    User::lemma_eta(*to);
                    assert(self.user_tokens.owns(*to, i));
                } else {
                    assert(self.tokens.tokens@[x] == of.tokens.tokens@[x]);
                    let w = User::of(of.tokens.tokens@[x].principal);
                    assert(of.user_tokens.owns(w, x as u64));
                    if w == *from {
                        assert(s2.user_tokens.owns(w, x as u64));
                    } else {
                        assert(s2.user_tokens.tokens_of_spec(w)
                            == of.user_tokens.tokens_of_spec(w));
                    }
                    if w == *to {
                        assert(self.user_tokens.owns(w, x as u64));
                    } else {
                        assert(self.user_tokens.tokens_of_spec(w)
                            == s2.user_tokens.tokens_of_spec(w));
                    }
                }
            }
            // holdings of bystanders are untouched
            assert forall|v: User| v != *from && v != *to implies #[trigger] self.holdings(v)
                == of.holdings(v) by {
                assert(self.user_tokens.tokens_of_spec(v) == s2.user_tokens.tokens_of_spec(v));
                assert(s2.user_tokens.tokens_of_spec(v) == of.user_tokens.tokens_of_spec(v));
            }
            if *from != *to {
                assert(self.user_tokens.tokens_of_spec(*from) == s2.user_tokens.tokens_of_spec(
                    *from,
                ));
                assert(s2.user_tokens.tokens_of_spec(*to) == of.user_tokens.tokens_of_spec(*to));
            }
        }
        Ok(())
    }

    /// Books a sale listing for a token: the caller must be the current
    /// owner, the price strictly positive, and the token not already
    /// listed. `now` is the creation timestamp the listing is stamped with.
    pub fn list(&mut self, from: Principal, token_identifier: u64, price: u64, now: u64) -> (r:
        Result<bool, Error>)
        requires
            old(self).inv(),
        ensures
            final(self).inv(),
            r == old(self).list_outcome(from, token_identifier, price),
            r is Err ==> *final(self) == *old(self),
            final(self).tokens == old(self).tokens,
            final(self).user_tokens == old(self).user_tokens,
            r is Ok ==> final(self).listing_spec(token_identifier) == Some(
                Listing { owner: from, token_id: token_identifier, price, time: now },
            ),
            r is Ok ==> forall|x: u64|
                x != token_identifier ==> #[trigger] final(self).listing_spec(x) == old(self).listing_spec(x),
    {
        let i = token_identifier;
        let owner: Principal = match self.tokens.get(i) {
            Some(t) => t.principal,
            None => {
                return Err(Error::NotFound);
            },
        };
        if owner != from {
            return Err(Error::Unauthorized);
        }
        match self.listed.insert(from, i, price, now) {
            Ok(_) => Ok(true),
            Err(e) => Err(e),
        }
    }

    /// Removes the active listing for a token; the caller must be the
    /// token's current owner. A second delist right after a successful one
    /// fails with `NotListed`.
    pub fn delist(&mut self, from: Principal, token_identifier: u64) -> (r: Result<bool, Error>)
        requires
            old(self).inv(),
        ensures
            final(self).inv(),
            r == old(self).delist_outcome(from, token_identifier),
            r is Err ==> *final(self) == *old(self),
            final(self).tokens == old(self).tokens,
            final(self).user_tokens == old(self).user_tokens,
            r is Ok ==> !final(self).is_listed(token_identifier),
            r is Ok ==> forall|x: u64|
                x != token_identifier ==> #[trigger] final(self).listing_spec(x) == old(self).listing_spec(x),
    {
        let i = token_identifier;
        let owner: Principal = match self.tokens.get(i) {
            Some(t) => t.principal,
            None => {
                return Err(Error::NotFound);
            },
        };
        if owner != from {
            return Err(Error::Unauthorized);
        }
        match self.listed.remove(i) {
            Ok(()) => Ok(true),
            Err(e) => Err(e),
        }
    }

    /// The active listing for a token, if any.
    pub fn active_listing_for(&self, token_identifier: u64) -> (r: Option<Listing>)
        requires
            self.inv(),
        ensures
            r == self.listing_spec(token_identifier),
    {
        self.listed.active_listing_for(token_identifier)
    }

    /// Empties the token store and the owner index. The listing book is
    /// left as it is, matching the interface this ledger conforms to.
    pub fn clear(&mut self)
        requires
            old(self).inv(),
        ensures
            final(self).inv(),
            final(self).token_count() == 0,
            forall|u: User| #[trigger] final(self).holdings(u) == Seq::<u64>::empty(),
            final(self).listed == old(self).listed,
    {
        self.tokens.clear();
        self.user_tokens.clear();
        proof {
            assert forall|u: User, x: u64| #[trigger] self.user_tokens.owns(u, x) implies
                self.tokens.minted(x) && self.tokens.record(x).principal == u.principal by {
                assert(self.user_tokens.tokens_of_spec(u) == Seq::<u64>::empty());
            }
        }
    }
}

/// The token store and the owner index never disagree: whoever the owner
/// index records as holding a token is exactly the user keyed by the token's
/// recorded owner — so every minted token has one holder and no more.
pub proof fn lemma_holder_unique(l: Ledger, u: User, i: u64)
    requires
        l.inv(),
        l.holds(u, i),
    ensures
        l.minted(i),
        u == User::of(l.owner_of_spec(i)),
{
    User::lemma_eta(u);
}

/// A successful delist leaves no active listing behind, so an immediate
/// second delist by the same caller on the unchanged ownership is refused
/// with `NotListed`: delisting is not idempotent, it reports the absence.
pub proof fn lemma_second_delist_fails(pre: Ledger, post: Ledger, caller: Principal, i: u64)
    requires
        pre.delist_outcome(caller, i) is Ok,
        post.minted(i) == pre.minted(i),
        post.owner_of_spec(i) == pre.owner_of_spec(i),
        !post.is_listed(i),
    ensures
        post.delist_outcome(caller, i) == Err::<bool, Error>(Error::NotListed),
{
}

/// A listing round trip restores the book: when a list on an unlisted token
/// changes no other token's listing, and a delist then clears that token
/// and changes no other, every token's active listing ends as it began.
pub proof fn lemma_list_delist_round_trip(s0: Ledger, s1: Ledger, s2: Ledger, i: u64)
    requires
        !s0.is_listed(i),
        forall|x: u64| x != i ==> #[trigger] s1.listing_spec(x) == s0.listing_spec(x),
        !s2.is_listed(i),
        forall|x: u64| x != i ==> #[trigger] s2.listing_spec(x) == s1.listing_spec(x),
    ensures
        forall|x: u64| #[trigger] s2.listing_spec(x) == s0.listing_spec(x),
{
    assert forall|x: u64| #[trigger] s2.listing_spec(x) == s0.listing_spec(x) by {
        if x == i {
            assert(s2.listing_spec(i) is None);
            assert(s0.listing_spec(i) is None);
        }
    }
}

impl Default for Ledger {
    /// An empty ledger.
    fn default() -> (l: Ledger)
        ensures
            l.inv(),
            l.token_count() == 0,
            forall|u: User| #[trigger] l.holdings(u) == Seq::<u64>::empty(),
            forall|i: u64| #[trigger] l.listed.listing_spec(i) is None,
            forall|i: u64| !(#[trigger] l.listed.has_listing(i)),
    {
        Ledger::new()
    }
}

} // verus!
