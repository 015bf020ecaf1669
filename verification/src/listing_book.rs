//! The listing book: the set of active sale listings, at most one per
//! token, each with a strictly positive price and the creation timestamp it
//! was booked at. Authorization against current ownership is the facade's
//! business; the book itself only keeps listings.

use vstd::prelude::*;
use crate::types::Error;
use crate::types::Principal;

verus! {

/// An open offer to sell one token at a fixed price.
#[derive(Clone, Copy, PartialEq, Eq, Structural, Debug)]
pub struct Listing {
    pub owner: Principal,
    pub token_id: u64,
    pub price: u64,
    pub time: u64,
}

/// The set of active listings.
pub struct ListingBook {
    pub listed: Vec<Listing>,
}

impl ListingBook {
    /// True if some active listing is booked for token `i`.
    pub open spec fn has_listing(self, i: u64) -> bool {
        exists|j: int| 0 <= j < self.listed@.len() && (#[trigger] self.listed@[j]).token_id == i
    }

    /// The position of token `i`'s listing; meaningful only when
    /// `has_listing(i)`.
    pub open spec fn listing_at(self, i: u64) -> int {
        choose|j: int| 0 <= j < self.listed@.len() && (#[trigger] self.listed@[j]).token_id == i
    }

    /// The active listing for token `i`, if any.
    pub open spec fn listing_spec(self, i: u64) -> Option<Listing> {
        if self.has_listing(i) {
            Some(self.listed@[self.listing_at(i)])
        } else {
            None
        }
    }

    /// Well-formedness: at most one active listing per token, and no zero
    /// price.
    pub open spec fn wf(self) -> bool {
        &&& forall|j: int, k: int|
            0 <= j < self.listed@.len() && 0 <= k < self.listed@.len() && j != k ==> (
            #[trigger] self.listed@[j]).token_id != (#[trigger] self.listed@[k]).token_id
        &&& forall|j: int| 0 <= j < self.listed@.len() ==> (#[trigger] self.listed@[j]).price > 0
    }

    /// In a well-formed book, a listing whose token is `i` is the one and
    /// only listing of `i`.
    pub proof fn lemma_listing_at(self, i: u64, j: int)
        requires
            self.wf(),
            0 <= j < self.listed@.len(),
            self.listed@[j].token_id == i,
        ensures
            self.has_listing(i),
            self.listing_at(i) == j,
            self.listing_spec(i) == Some(self.listed@[j]),
    {
        assert(self.has_listing(i));
        let k = self.listing_at(i);
        assert(0 <= k < self.listed@.len() && self.listed@[k].token_id == i);
    }

    /// When no listing's token is `i`, the book holds nothing for `i`.
    pub proof fn lemma_no_listing(self, i: u64)
        requires
            forall|j: int|
                0 <= j < self.listed@.len() ==> (#[trigger] self.listed@[j]).token_id != i,
        ensures
            !self.has_listing(i),
            self.listing_spec(i) is None,
    {
        if self.has_listing(i) {
            let j = self.listing_at(i);
            assert(0 <= j < self.listed@.len() && self.listed@[j].token_id == i);
        }
    }

    /// An empty book.
    pub fn new() -> (b: ListingBook)
        ensures
            b.wf(),
            forall|i: u64| !(#[trigger] b.has_listing(i)),
            forall|i: u64| #[trigger] b.listing_spec(i) is None,
    {
        let b = ListingBook { listed: Vec::new() };
        proof {
            assert forall|i: u64| !(#[trigger] b.has_listing(i)) by {
                b.lemma_no_listing(i);
            }
            assert forall|i: u64| #[trigger] b.listing_spec(i) is None by {
                b.lemma_no_listing(i);
            }
        }
        b
    }

    /// Finds the position of token `i`'s listing, if one exists.
    fn find_listing(&self, i: u64) -> (r: Option<usize>)
        ensures
            match r {
                Some(j) => j < self.listed@.len() && self.listed@[j as int].token_id == i,
                None => forall|j: int|
                    0 <= j < self.listed@.len() ==> (#[trigger] self.listed@[j]).token_id != i,
            },
    {
        let mut j: usize = 0;
        while j < self.listed.len()
            invariant
                j <= self.listed@.len(),
                forall|k: int| 0 <= k < j ==> (#[trigger] self.listed@[k]).token_id != i,
            decreases self.listed@.len() - j,
        {
            if self.listed[j].token_id == i {
                return Some(j);
            }
            j = j + 1;
        }
        None
    }

    /// The active listing for token `i`, or `None` if it is not listed.
    pub fn active_listing_for(&self, i: u64) -> (r: Option<Listing>)
        requires
            self.wf(),
        ensures
            r == self.listing_spec(i),
    {
        match self.find_listing(i) {
            Some(j) => {
                proof {
                    self.lemma_listing_at(i, j as int);
                }
                Some(self.listed[j])
            },
            None => {
                proof {
                    self.lemma_no_listing(i);
                }
                None
            },
        }
    }

    /// Books a listing for token `i` by `seller` at `price`, stamped with
    /// `now`. Refuses a zero price and a token that is already listed;
    /// whether `seller` may sell `i` at all is checked by the caller against
    /// current ownership, before this call.
    pub fn insert(&mut self, seller: Principal, i: u64, price: u64, now: u64) -> (r: Result<
        Listing,
        Error,
    >)
        requires
            old(self).wf(),
        ensures
            final(self).wf(),
            r is Ok <==> price > 0 && !old(self).has_listing(i),
            price == 0 ==> r == Err::<Listing, Error>(Error::InvalidArgument) && *final(self)
                == *old(self),
            price > 0 && old(self).has_listing(i) ==> r == Err::<Listing, Error>(
                Error::AlreadyListed,
            ) && *final(self) == *old(self),
            r is Ok ==> r == Ok::<Listing, Error>(
                Listing { owner: seller, token_id: i, price, time: now },
            ),
            r is Ok ==> final(self).listing_spec(i) == Some(
                Listing { owner: seller, token_id: i, price, time: now },
            ),
            r is Ok ==> forall|x: u64|
                x != i ==> #[trigger] final(self).listing_spec(x) == old(self).listing_spec(x),
    {
        if price == 0 {
            return Err(Error::InvalidArgument);
        }
        match self.find_listing(i) {
            Some(_) => Err(Error::AlreadyListed),
            None => {
                proof {
                    self.lemma_no_listing(i);
                }
                let listing = Listing { owner: seller, token_id: i, price, time: now };
                self.listed.push(listing);
                proof {
                    let n = old(self).listed@.len() as int;
                    assert(self.listed@[n] == listing);
                    assert(self.wf());
                    self.lemma_listing_at(i, n);
                    assert forall|x: u64| x != i implies #[trigger] self.listing_spec(x) == old(self).listing_spec(x) by {
                        if self.has_listing(x) {
                            let a = self.listing_at(x);
                            assert(0 <= a < self.listed@.len() && self.listed@[a].token_id == x);
                            assert(a != n);
                            old(self).lemma_listing_at(x, a);
                            self.lemma_listing_at(x, a);
                        } else {
                            assert(forall|a: int|
                                0 <= a < old(self).listed@.len() ==> (#[trigger] old(self).listed@[a]).token_id != x) by {
                                if exists|a: int|
                                    0 <= a < old(self).listed@.len() && (#[trigger] old(self).listed@[a]).token_id == x {
                                    let a = choose|a: int|
                                        0 <= a < old(self).listed@.len() && (#[trigger] old(self).listed@[a]).token_id == x;
                                    assert(self.listed@[a].token_id == x);
                                    assert(self.has_listing(x));
                                }
                            }
                            old(self).lemma_no_listing(x);
                        }
                    }
                }
                Ok(listing)
            },
        }
    }

    /// Removes the active listing for token `i`. Fails with `NotListed`
    /// exactly when no active listing exists for `i`.
    pub fn remove(&mut self, i: u64) -> (r: Result<(), Error>)
        requires
            old(self).wf(),
        ensures
            final(self).wf(),
            r is Ok <==> old(self).has_listing(i),
            r is Err ==> *final(self) == *old(self) && r == Err::<(), Error>(Error::NotListed),
            r is Ok ==> !final(self).has_listing(i) && final(self).listing_spec(i) is None,
            r is Ok ==> forall|x: u64|
                x != i ==> #[trigger] final(self).listing_spec(x) == old(self).listing_spec(x),
    {
        match self.find_listing(i) {
            Some(j) => {
                proof {
                    self.lemma_listing_at(i, j as int);
                }
                self.listed.remove(j);
                proof {
                    let jj = j as int;
                    assert forall|a: int| 0 <= a < self.listed@.len() implies self.listed@[a]
                        == old(self).listed@[if a < jj { a } else { a + 1 }] by {}
                    assert forall|a: int, b: int|
                        0 <= a < self.listed@.len() && 0 <= b < self.listed@.len() && a != b
                            implies (#[trigger] self.listed@[a]).token_id != (
                    #[trigger] self.listed@[b]).token_id by {
                        let a0: int = if a < jj { a } else { a + 1 };
                        let b0: int = if b < jj { b } else { b + 1 };
                        assert(self.listed@[a] == old(self).listed@[a0]);
                        assert(self.listed@[b] == old(self).listed@[b0]);
                    }
                    assert forall|a: int| 0 <= a < self.listed@.len() implies (
                    #[trigger] self.listed@[a]).price > 0 by {
                        let a0: int = if a < jj { a } else { a + 1 };
                        assert(self.listed@[a] == old(self).listed@[a0]);
                    }
                    assert(self.wf());
                    assert forall|a: int| 0 <= a < self.listed@.len() implies (
                    #[trigger] self.listed@[a]).token_id != i by {
                        let a0: int = if a < jj { a } else { a + 1 };
                        assert(self.listed@[a] == old(self).listed@[a0]);
                        assert(a0 != jj);
                    }
                    self.lemma_no_listing(i);
                    assert forall|x: u64| x != i implies #[trigger] self.listing_spec(x) == old(self).listing_spec(x) by {
                        if self.has_listing(x) {
                            let a = self.listing_at(x);
                            assert(0 <= a < self.listed@.len() && self.listed@[a].token_id == x);
                            let a0: int = if a < jj { a } else { a + 1 };
                            assert(old(self).listed@[a0] == self.listed@[a]);
                            self.lemma_listing_at(x, a);
                            old(self).lemma_listing_at(x, a0);
                        } else {
                            assert(forall|a: int|
                                0 <= a < old(self).listed@.len() ==> (#[trigger] old(self).listed@[a]).token_id != x) by {
                                if exists|a: int|
                                    0 <= a < old(self).listed@.len() && (#[trigger] old(self).listed@[a]).token_id == x {
                                    let a = choose|a: int|
                                        0 <= a < old(self).listed@.len() && (#[trigger] old(self).listed@[a]).token_id == x;
                                    assert(a != jj);
                                    let a1: int = if a < jj { a } else { a - 1 };
                                    assert(self.listed@[a1] == old(self).listed@[a]);
                                    assert(self.has_listing(x));
                                }
                            }
                            old(self).lemma_no_listing(x);
                        }
                    }
                }
                Ok(())
            },
            None => {
                proof {
                    self.lemma_no_listing(i);
                }
                Err(Error::NotListed)
            },
        }
    }

    /// Discards every listing.
    pub fn clear(&mut self)
        ensures
            final(self).wf(),
            forall|i: u64| !(#[trigger] final(self).has_listing(i)),
            forall|i: u64| #[trigger] final(self).listing_spec(i) is None,
    {
        self.listed.clear();
        proof {
            assert forall|i: u64| !(#[trigger] self.has_listing(i)) by {
                self.lemma_no_listing(i);
            }
            assert forall|i: u64| #[trigger] self.listing_spec(i) is None by {
                self.lemma_no_listing(i);
            }
        }
    }
}

} // verus!
