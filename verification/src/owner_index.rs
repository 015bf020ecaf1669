//! The reverse owner index: a mapping from identity to the token indices it
//! currently holds, maintained incrementally beside the token store. An
//! identity with no tokens keeps no entry; entries are created lazily on the
//! first token received and removed on reaching empty.

use vstd::prelude::*;
use crate::types::Error;
use crate::types::User;

verus! {

/// One owner's entry: the identity and the indices of the tokens it holds.
pub struct OwnerEntry {
    pub owner: User,
    pub tokens: Vec<u64>,
}

/// The reverse index from identity to held token indices.
pub struct OwnerIndex {
    pub entries: Vec<OwnerEntry>,
}

impl OwnerIndex {
    /// True if an entry is recorded for `u`.
    pub open spec fn has_entry(self, u: User) -> bool {
        exists|j: int| 0 <= j < self.entries@.len() && (#[trigger] self.entries@[j]).owner == u
    }

    /// The position of `u`'s entry; meaningful only when `has_entry(u)`.
    pub open spec fn entry_at(self, u: User) -> int {
        choose|j: int| 0 <= j < self.entries@.len() && (#[trigger] self.entries@[j]).owner == u
    }

    /// The token indices held by `u`, in entry order; empty when no entry
    /// exists.
    pub open spec fn tokens_of_spec(self, u: User) -> Seq<u64> {
        if self.has_entry(u) {
            self.entries@[self.entry_at(u)].tokens@
        } else {
            Seq::<u64>::empty()
        }
    }

    /// Whether the index records `u` as holding token `i`.
    pub open spec fn owns(self, u: User, i: u64) -> bool {
        self.tokens_of_spec(u).contains(i)
    }

    /// Well-formedness: each identity has at most one entry, no entry is
    /// empty, and no entry repeats a token index.
    pub open spec fn wf(self) -> bool {
        &&& forall|j: int, k: int|
            0 <= j < self.entries@.len() && 0 <= k < self.entries@.len() && j != k ==> (
            #[trigger] self.entries@[j]).owner != (#[trigger] self.entries@[k]).owner
        &&& forall|j: int|
            0 <= j < self.entries@.len() ==> (#[trigger] self.entries@[j]).tokens@.len() > 0
        &&& forall|j: int|
            0 <= j < self.entries@.len() ==> (#[trigger] self.entries@[j]).tokens@.no_duplicates()
    }

    /// In a well-formed index, an entry whose owner is `u` is the one and
    /// only entry of `u`.
    pub proof fn lemma_entry_at(self, u: User, j: int)
        requires
            self.wf(),
            0 <= j < self.entries@.len(),
            self.entries@[j].owner == u,
        ensures
            self.has_entry(u),
            self.entry_at(u) == j,
            self.tokens_of_spec(u) == self.entries@[j].tokens@,
    {
        assert(self.has_entry(u));
        let k = self.entry_at(u);
        assert(0 <= k < self.entries@.len() && self.entries@[k].owner == u);
    }

    /// When no entry's owner is `u`, `u` holds nothing.
    pub proof fn lemma_no_entry(self, u: User)
        requires
            forall|j: int|
                0 <= j < self.entries@.len() ==> (#[trigger] self.entries@[j]).owner != u,
        ensures
            !self.has_entry(u),
            self.tokens_of_spec(u) == Seq::<u64>::empty(),
    {
        if self.has_entry(u) {
            let j = self.entry_at(u);
            assert(0 <= j < self.entries@.len() && self.entries@[j].owner == u);
        }
    }

    /// When every entry of `self` apart from `u`'s own has a counterpart in
    /// `other` with the same owner and the same tokens, and the two states
    /// record entries for the same identities apart from `u`, then every
    /// identity other than `u` holds the same tokens in both states.
    proof fn lemma_frame(self, other: OwnerIndex, u: User)
        requires
            self.wf(),
            other.wf(),
            forall|v: User| v != u ==> ((#[trigger] self.has_entry(v)) <==> other.has_entry(v)),
            forall|j: int|
                0 <= j < self.entries@.len() && (#[trigger] self.entries@[j]).owner != u
                    ==> exists|k: int|
                    0 <= k < other.entries@.len() && (#[trigger] other.entries@[k]).owner
                        == self.entries@[j].owner && other.entries@[k].tokens@
                        == self.entries@[j].tokens@,
        ensures
            forall|v: User|
                v != u ==> #[trigger] self.tokens_of_spec(v) == other.tokens_of_spec(v),
    {
        assert forall|v: User| v != u implies #[trigger] self.tokens_of_spec(v)
            == other.tokens_of_spec(v) by {
            if self.has_entry(v) {
                let j = self.entry_at(v);
                assert(0 <= j < self.entries@.len() && self.entries@[j].owner == v);
                let k = choose|k: int|
                    0 <= k < other.entries@.len() && (#[trigger] other.entries@[k]).owner
                        == self.entries@[j].owner && other.entries@[k].tokens@
                        == self.entries@[j].tokens@;
                self.lemma_entry_at(v, j);
                other.lemma_entry_at(v, k);
            } else {
                assert(!other.has_entry(v));
            }
        }
    }

    /// An empty index.
    pub fn new() -> (oi: OwnerIndex)
        ensures
            oi.wf(),
            forall|u: User| !(#[trigger] oi.has_entry(u)),
            forall|u: User| #[trigger] oi.tokens_of_spec(u) == Seq::<u64>::empty(),
    {
        let oi = OwnerIndex { entries: Vec::new() };
        proof {
            assert forall|u: User| !(#[trigger] oi.has_entry(u)) by {
                oi.lemma_no_entry(u);
            }
            assert forall|u: User| #[trigger] oi.tokens_of_spec(u) == Seq::<u64>::empty() by {
                oi.lemma_no_entry(u);
            }
        }
        oi
    }

    /// Finds the position of `u`'s entry, if one exists.
    fn find_entry(&self, u: &User) -> (r: Option<usize>)
        ensures
            match r {
                Some(j) => j < self.entries@.len() && self.entries@[j as int].owner == *u,
                None => forall|j: int|
                    0 <= j < self.entries@.len() ==> (#[trigger] self.entries@[j]).owner != *u,
            },
    {
        let mut j: usize = 0;
        while j < self.entries.len()
            invariant
                j <= self.entries@.len(),
                forall|k: int| 0 <= k < j ==> (#[trigger] self.entries@[k]).owner != *u,
            decreases self.entries@.len() - j,
        {
            if self.entries[j].owner == *u {
                return Some(j);
            }
            j = j + 1;
        }
        None
    }

    /// The token indices held by `u`, as a fresh vector; empty when `u`
    /// holds nothing.
    pub fn tokens_of(&self, u: &User) -> (r: Vec<u64>)
        requires
            self.wf(),
        ensures
            r@ == self.tokens_of_spec(*u),
    {
        match self.find_entry(u) {
            Some(j) => {
                proof {
                    self.lemma_entry_at(*u, j as int);
                }
                let src = &self.entries[j].tokens;
                let mut out: Vec<u64> = Vec::new();
                let mut k: usize = 0;
                while k < src.len()
                    invariant
                        k <= src@.len(),
                        out@.len() == k,
                        forall|t: int| 0 <= t < k ==> out@[t] == src@[t],
                    decreases src@.len() - k,
                {
                    out.push(src[k]);
                    k = k + 1;
                }
                proof {
                    assert(out@ =~= src@);
                }
                out
            },
            None => {
                proof {
                    self.lemma_no_entry(*u);
                }
                Vec::new()
            },
        }
    }

    /// How many tokens `u` holds.
    pub fn balance_of(&self, u: &User) -> (r: u64)
        requires
            self.wf(),
        ensures
            r == self.tokens_of_spec(*u).len(),
    {
        match self.find_entry(u) {
            Some(j) => {
                proof {
                    self.lemma_entry_at(*u, j as int);
                }
                self.entries[j].tokens.len() as u64
            },
            None => {
                proof {
                    self.lemma_no_entry(*u);
                }
                0
            },
        }
    }

    /// Appends token `i` to `u`'s holdings, creating the entry if absent.
    pub fn add(&mut self, u: &User, i: u64)
        requires
            old(self).wf(),
            !old(self).owns(*u, i),
        ensures
            final(self).wf(),
            final(self).tokens_of_spec(*u) == old(self).tokens_of_spec(*u).push(i),
            forall|v: User|
                v != *u ==> #[trigger] final(self).tokens_of_spec(v) == old(self).tokens_of_spec(v),
            forall|x: u64|
                #[trigger] final(self).owns(*u, x) <==> (old(self).owns(*u, x) || x == i),
    {
        let found = self.find_entry(u);
        match found {
            Some(j) => {
                proof {
                    self.lemma_entry_at(*u, j as int);
                }
                let mut ent = self.entries.remove(j);
                ent.tokens.push(i);
                self.entries.insert(j, ent);
                proof {
                    let jj = j as int;
                    assert(self.entries@ =~= old(self).entries@.update(jj, self.entries@[jj]));
                    let nt = self.entries@[jj].tokens@;
                    let ot = old(self).entries@[jj].tokens@;
                    assert(nt == ot.push(i));
                    assert(forall|t: int| 0 <= t < ot.len() ==> ot[t] != i) by {
                        assert(!ot.contains(i));
                    }
                    assert(nt.no_duplicates());
                    assert(self.wf());
                    self.lemma_entry_at(*u, jj);
                    assert forall|v: User| v != *u implies ((#[trigger] self.has_entry(v))
                        <==> old(self).has_entry(v)) by {
                        if self.has_entry(v) {
                            let a = self.entry_at(v);
                            assert(0 <= a < self.entries@.len() && self.entries@[a].owner == v);
                            assert(old(self).entries@[a].owner == v);
                            assert(old(self).has_entry(v));
                        }
                        if old(self).has_entry(v) {
                            let a = old(self).entry_at(v);
                            assert(0 <= a < old(self).entries@.len() && old(self).entries@[a].owner == v);
                            assert(self.entries@[a].owner == v);
                            assert(self.has_entry(v));
                        }
                    }
                    assert forall|a: int|
                        0 <= a < self.entries@.len() && (#[trigger] self.entries@[a]).owner != *u
                            implies exists|k: int|
                            0 <= k < old(self).entries@.len() && (#[trigger] old(self).entries@[k]).owner == self.entries@[a].owner && old(self).entries@[k].tokens@ == self.entries@[a].tokens@ by {
                        assert(a != jj);
                        assert(old(self).entries@[a] == self.entries@[a]);
                    }
                    self.lemma_frame(*old(self), *u);
                    assert forall|x: u64| #[trigger]
                        self.owns(*u, x) <==> (old(self).owns(*u, x) || x == i) by {
                        if self.owns(*u, x) {
                            let k = choose|k: int| 0 <= k < nt.len() && nt[k] == x;
                            if k < ot.len() {
                                assert(ot[k] == x);
                                assert(ot.contains(x));
                            }
                        }
                        if old(self).owns(*u, x) {
                            let k = choose|k: int| 0 <= k < ot.len() && ot[k] == x;
                            assert(nt[k] == x);
                            assert(nt.contains(x));
                        }
                        if x == i {
                            assert(nt[ot.len() as int] == i);
                            assert(nt.contains(x));
                        }
                    }
                }
            },
            None => {
                proof {
                    self.lemma_no_entry(*u);
                }
                let mut tokens: Vec<u64> = Vec::new();
                tokens.push(i);
                self.entries.push(OwnerEntry { owner: *u, tokens });
                proof {
                    let n = old(self).entries@.len() as int;
                    assert(self.entries@[n].owner == *u);
                    let nt = self.entries@[n].tokens@;
                    assert(nt == Seq::<u64>::empty().push(i));
                    assert(nt.no_duplicates());
                    assert(forall|a: int|
                        0 <= a < n ==> self.entries@[a] == old(self).entries@[a]);
                    assert(self.wf());
                    self.lemma_entry_at(*u, n);
                    assert(self.tokens_of_spec(*u) == old(self).tokens_of_spec(*u).push(i));
                    assert forall|v: User| v != *u implies ((#[trigger] self.has_entry(v))
                        <==> old(self).has_entry(v)) by {
                        if self.has_entry(v) {
                            let a = self.entry_at(v);
                            assert(0 <= a < self.entries@.len() && self.entries@[a].owner == v);
                            assert(a != n);
                            assert(old(self).entries@[a].owner == v);
                            assert(old(self).has_entry(v));
                        }
                        if old(self).has_entry(v) {
                            let a = old(self).entry_at(v);
                            assert(0 <= a < old(self).entries@.len() && old(self).entries@[a].owner == v);
                            assert(self.entries@[a].owner == v);
                            assert(self.has_entry(v));
                        }
                    }
                    assert forall|a: int|
                        0 <= a < self.entries@.len() && (#[trigger] self.entries@[a]).owner != *u
                            implies exists|k: int|
                            0 <= k < old(self).entries@.len() && (#[trigger] old(self).entries@[k]).owner == self.entries@[a].owner && old(self).entries@[k].tokens@ == self.entries@[a].tokens@ by {
                        assert(a != n);
                        assert(old(self).entries@[a] == self.entries@[a]);
                    }
                    self.lemma_frame(*old(self), *u);
                    assert forall|x: u64| #[trigger]
                        self.owns(*u, x) <==> (old(self).owns(*u, x) || x == i) by {
                        if self.owns(*u, x) {
                            let k = choose|k: int| 0 <= k < nt.len() && nt[k] == x;
                            assert(k == 0);
                        }
                        if x == i {
                            assert(nt[0] == i);
                            assert(nt.contains(x));
                        }
                    }
                }
            },
        }
    }

    /// Removes token `i` from `u`'s holdings; an entry that reaches empty is
    /// deleted outright. Fails with `InvariantViolation` exactly when the
    /// index does not record `u` as holding `i`.
    pub fn remove(&mut self, u: &User, i: u64) -> (r: Result<(), Error>)
        requires
            old(self).wf(),
        ensures
            final(self).wf(),
            r is Ok <==> old(self).owns(*u, i),
            r is Err ==> *final(self) == *old(self) && r == Err::<(), Error>(
                Error::InvariantViolation,
            ),
            r is Ok ==> final(self).tokens_of_spec(*u).len() == old(self).tokens_of_spec(
                *u,
            ).len() - 1,
            r is Ok ==> !final(self).owns(*u, i),
            r is Ok ==> forall|x: u64|
                x != i ==> ((#[trigger] final(self).owns(*u, x)) <==> old(self).owns(*u, x)),
            r is Ok ==> forall|v: User|
                v != *u ==> #[trigger] final(self).tokens_of_spec(v) == old(self).tokens_of_spec(
                    v,
                ),
    {
        let found = self.find_entry(u);
        match found {
            Some(j) => {
                proof {
                    self.lemma_entry_at(*u, j as int);
                }
                let pos = {
                    let tokens = &self.entries[j].tokens;
                    let mut p: usize = 0;
                    let mut r: Option<usize> = None;
                    while p < tokens.len()
                        invariant
                            p <= tokens@.len(),
                            match r {
                                Some(q) => q < tokens@.len() && tokens@[q as int] == i,
                                None => forall|t: int| 0 <= t < p ==> tokens@[t] != i,
                            },
                        decreases tokens@.len() - p,
                    {
                        if r.is_none() && tokens[p] == i {
                            r = Some(p);
                        }
                        p = p + 1;
                    }
                    r
                };
                match pos {
                    Some(p) => {
                        let mut ent = self.entries.remove(j);
                        let ghost ot = ent.tokens@;
                        ent.tokens.remove(p);
                        proof {
                            assert(ot[p as int] == i);
                            assert(ot.contains(i));
                            assert(ent.tokens@ =~= ot.remove(p as int));
                        }
                        if ent.tokens.len() == 0 {
                            proof {
                                assert(ot.len() == 1);
                                self.entry_deleted_frame(*old(self), j as int, *u);
                                assert forall|x: u64| x != i implies ((#[trigger] self.owns(
                                    *u,
                                    x,
                                )) <==> old(self).owns(*u, x)) by {
                                    if old(self).owns(*u, x) {
                                        let k = choose|k: int| 0 <= k < ot.len() && ot[k] == x;
                                        assert(k == 0 && ot[0] == i);
                                    }
                                }
                            }
                        } else {
                            self.entries.insert(j, ent);
                            proof {
                                let jj = j as int;
                                let pp = p as int;
                                assert(self.entries@ =~= old(self).entries@.update(
                                    jj,
                                    self.entries@[jj],
                                ));
                                let nt = self.entries@[jj].tokens@;
                                assert(nt == ot.remove(pp));
                                assert forall|a: int, b: int|
                                    0 <= a < nt.len() && 0 <= b < nt.len() && a != b implies nt[a]
                                    != nt[b] by {
                                    let a0: int = if a < pp { a } else { a + 1 };
                                    let b0: int = if b < pp { b } else { b + 1 };
                                    assert(nt[a] == ot[a0] && nt[b] == ot[b0]);
                                }
                                assert(nt.no_duplicates());
                                assert(self.wf());
                                self.lemma_entry_at(*u, jj);
                                assert forall|v: User| v != *u implies ((#[trigger] self.has_entry(
                                    v,
                                )) <==> old(self).has_entry(v)) by {
                                    if self.has_entry(v) {
                                        let a = self.entry_at(v);
                                        assert(0 <= a < self.entries@.len() && self.entries@[a].owner == v);
                                        assert(old(self).entries@[a].owner == v);
                                        assert(old(self).has_entry(v));
                                    }
                                    if old(self).has_entry(v) {
                                        let a = old(self).entry_at(v);
                                        assert(0 <= a < old(self).entries@.len() && old(self).entries@[a].owner == v);
                                        assert(self.entries@[a].owner == v);
                                        assert(self.has_entry(v));
                                    }
                                }
                                assert forall|a: int|
                                    0 <= a < self.entries@.len() && (#[trigger] self.entries@[a]).owner != *u implies exists|k: int|
                                    0 <= k < old(self).entries@.len() && (#[trigger] old(self).entries@[k]).owner == self.entries@[a].owner && old(self).entries@[k].tokens@ == self.entries@[a].tokens@ by {
                                    assert(a != jj);
                                    assert(old(self).entries@[a] == self.entries@[a]);
                                }
                                self.lemma_frame(*old(self), *u);
                                assert(!nt.contains(i)) by {
                                    if nt.contains(i) {
                                        let k = choose|k: int| 0 <= k < nt.len() && nt[k] == i;
                                        let k0: int = if k < pp { k } else { k + 1 };
                                        assert(ot[k0] == i && ot[pp] == i && k0 != pp);
                                    }
                                }
                                assert forall|x: u64| x != i implies ((#[trigger] self.owns(
                                    *u,
                                    x,
                                )) <==> old(self).owns(*u, x)) by {
                                    if nt.contains(x) {
                                        let k = choose|k: int| 0 <= k < nt.len() && nt[k] == x;
                                        let k0: int = if k < pp { k } else { k + 1 };
                                        assert(ot[k0] == x);
                                        assert(ot.contains(x));
                                    }
                                    if ot.contains(x) {
                                        let k = choose|k: int| 0 <= k < ot.len() && ot[k] == x;
                                        if k < pp {
                                            assert(nt[k] == x);
                                            assert(nt.contains(x));
                                        } else {
                                            assert(k != pp);
                                            assert(nt[k - 1] == x);
                                            assert(nt.contains(x));
                                        }
                                    }
                                }
                            }
                        }
                        Ok(())
                    },
                    None => {
                        proof {
                            assert(!old(self).owns(*u, i));
                        }
                        Err(Error::InvariantViolation)
                    },
                }
            },
            None => {
                proof {
                    self.lemma_no_entry(*u);
                }
                Err(Error::InvariantViolation)
            },
        }
    }

    /// After deleting position `j` — the entry of `u` — from `other`, giving
    /// `self`: the result is well-formed, `u` has no entry left, and every
    /// other identity's holdings agree between the two states.
    proof fn entry_deleted_frame(self, other: OwnerIndex, j: int, u: User)
        requires
            other.wf(),
            0 <= j < other.entries@.len(),
            other.entries@[j].owner == u,
            self.entries@ == other.entries@.remove(j),
        ensures
            self.wf(),
            !self.has_entry(u),
            self.tokens_of_spec(u) == Seq::<u64>::empty(),
            forall|v: User|
                v != u ==> #[trigger] self.tokens_of_spec(v) == other.tokens_of_spec(v),
    {
        assert forall|a: int, b: int|
            0 <= a < self.entries@.len() && 0 <= b < self.entries@.len() && a != b implies (
        #[trigger] self.entries@[a]).owner != (#[trigger] self.entries@[b]).owner by {
            let a0: int = if a < j { a } else { a + 1 };
            let b0: int = if b < j { b } else { b + 1 };
            assert(self.entries@[a] == other.entries@[a0]);
            assert(self.entries@[b] == other.entries@[b0]);
        }
        assert forall|a: int| 0 <= a < self.entries@.len() implies (#[trigger] self.entries@[a]).tokens@.len() > 0 && self.entries@[a].tokens@.no_duplicates() by {
            let a0: int = if a < j { a } else { a + 1 };
            assert(self.entries@[a] == other.entries@[a0]);
        }
        assert(self.wf());
        assert forall|a: int| 0 <= a < self.entries@.len() implies (#[trigger] self.entries@[a]).owner != u by {
            let a0: int = if a < j { a } else { a + 1 };
            assert(self.entries@[a] == other.entries@[a0]);
            assert(a0 != j);
        }
        self.lemma_no_entry(u);
        assert forall|v: User| v != u implies ((#[trigger] self.has_entry(v))
            <==> other.has_entry(v)) by {
            if self.has_entry(v) {
                let a = self.entry_at(v);
                assert(0 <= a < self.entries@.len() && self.entries@[a].owner == v);
                let a0: int = if a < j { a } else { a + 1 };
                assert(other.entries@[a0].owner == v);
                assert(other.has_entry(v));
            }
            if other.has_entry(v) {
                let k = other.entry_at(v);
                assert(0 <= k < other.entries@.len() && other.entries@[k].owner == v);
                assert(k != j);
                let k1: int = if k < j { k } else { k - 1 };
                assert(self.entries@[k1] == other.entries@[k]);
                assert(self.has_entry(v));
            }
        }
        assert forall|a: int|
            0 <= a < self.entries@.len() && (#[trigger] self.entries@[a]).owner != u
                implies exists|k: int|
                0 <= k < other.entries@.len() && (#[trigger] other.entries@[k]).owner
                    == self.entries@[a].owner && other.entries@[k].tokens@
                    == self.entries@[a].tokens@ by {
            let a0: int = if a < j { a } else { a + 1 };
            assert(self.entries@[a] == other.entries@[a0]);
        }
        self.lemma_frame(other, u);
    }

    /// Discards every entry.
    pub fn clear(&mut self)
        ensures
            final(self).wf(),
            forall|u: User| !(#[trigger] final(self).has_entry(u)),
            forall|u: User| #[trigger] final(self).tokens_of_spec(u) == Seq::<u64>::empty(),
    {
        self.entries.clear();
        proof {
            assert forall|u: User| !(#[trigger] self.has_entry(u)) by {
                self.lemma_no_entry(u);
            }
            assert forall|u: User| #[trigger] self.tokens_of_spec(u) == Seq::<u64>::empty() by {
                self.lemma_no_entry(u);
            }
        }
    }
}

} // verus!
