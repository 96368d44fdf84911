//! The registry operations: collection administration, the transfer,
//! approval and burn protocol, and the operator model.
//!
//! Every mutating operation takes the host-attested caller identity as an
//! argument, evaluates its permission predicate against the current state,
//! and either mutates and advances the transaction counter or returns a
//! typed error leaving the state unchanged.

use vstd::prelude::*;

use crate::ident::{anonymous_bytes, Principal};
use crate::model::{
    Collection, CollectionEntry, CollectionV, Error, InsertCollection, Interface, Logo, NftV,
    OperatorEntry, PrincipalSet, State, StateV, keys_unique, lemma_lookup_nft_first,
    lemma_lookup_nft_none, lemma_lookup_nft_update, lemma_plookup_first, lemma_plookup_none,
    lemma_plookup_none_keys, lemma_plookup_push, lemma_plookup_some_of_index,
    lemma_plookup_update, lookup_nft, nft_ids_unique, ops_of, plookup,
};

verus! {

/// Authorization predicate of the transfer protocol: the caller must be the
/// token's owner, its approved spender, a registered operator for `from`,
/// or a custodian of the collection.
pub open spec fn transfer_allowed(c: CollectionV, n: NftV, from: Seq<u8>, caller: Seq<u8>) -> bool {
    ||| n.owner == caller
    ||| n.approved == Some(caller)
    ||| ops_of(c.operators, from).contains(caller)
    ||| c.custodians.contains(caller)
}

/// Authorization predicate of `approve`: as for a transfer, with the
/// operator check keyed by the token's current owner.
pub open spec fn approve_allowed(c: CollectionV, n: NftV, caller: Seq<u8>) -> bool {
    transfer_allowed(c, n, n.owner, caller)
}

/// The exact outcome of `transfer_from_to` on a given state: which error is
/// returned, in the order the checks are made, or the receipt id on success.
pub open spec fn transfer_outcome(
    sv: StateV,
    collection_id: usize,
    token_id: u64,
    from: Seq<u8>,
    to: Seq<u8>,
    caller: Seq<u8>,
) -> Result<u128, Error> {
    if to == anonymous_bytes() {
        Err(Error::InvalidDestination)
    } else {
        match plookup(sv.collections, collection_id) {
            None => Err(Error::NotFound),
            Some(c) => match lookup_nft(c.nfts, token_id) {
                None => Err(Error::NotFound),
                Some(n) => if !transfer_allowed(c, n, from, caller) {
                    Err(Error::Unauthorized)
                } else if n.owner != from {
                    Err(Error::OwnerMismatch)
                } else {
                    Ok((sv.txid + 1) as u128)
                },
            },
        }
    }
}

/// The exact outcome of `approve` on a given state.
pub open spec fn approve_outcome(
    sv: StateV,
    collection_id: usize,
    token_id: u64,
    caller: Seq<u8>,
) -> Result<u128, Error> {
    match plookup(sv.collections, collection_id) {
        None => Err(Error::NotFound),
        Some(c) => match lookup_nft(c.nfts, token_id) {
            None => Err(Error::NotFound),
            Some(n) => if !approve_allowed(c, n, caller) {
                Err(Error::Unauthorized)
            } else {
                Ok((sv.txid + 1) as u128)
            },
        },
    }
}

/// The exact outcome of `burn` on a given state: only the current owner may
/// burn.
pub open spec fn burn_outcome(sv: StateV, collection_id: usize, token_id: u64, caller: Seq<u8>) -> Result<
    u128,
    Error,
> {
    match plookup(sv.collections, collection_id) {
        None => Err(Error::NotFound),
        Some(c) => match lookup_nft(c.nfts, token_id) {
            None => Err(Error::NotFound),
            Some(n) => if n.owner != caller {
                Err(Error::Unauthorized)
            } else {
                Ok((sv.txid + 1) as u128)
            },
        },
    }
}

/// How many tokens of a ledger a given identity owns.
pub open spec fn count_owned(ns: Seq<NftV>, owner: Seq<u8>) -> nat
    decreases ns.len(),
{
    if ns.len() == 0 {
        0
    } else {
        count_owned(ns.drop_last(), owner) + if ns.last().owner == owner {
            1nat
        } else {
            0nat
        }
    }
}

/// The number of tokens across all collections of a registry.
pub open spec fn total_tokens(cs: Seq<(usize, CollectionV)>) -> nat
    decreases cs.len(),
{
    if cs.len() == 0 {
        0
    } else {
        total_tokens(cs.drop_last()) + cs.last().1.nfts.len()
    }
}

/// Prefix sums never exceed the total.
pub proof fn lemma_total_tokens_prefix(cs: Seq<(usize, CollectionV)>, i: int)
    requires
        0 <= i <= cs.len(),
    ensures
        total_tokens(cs.take(i)) <= total_tokens(cs),
    decreases cs.len() - i,
{
    if i == cs.len() {
        assert(cs.take(i) =~= cs);
    } else {
        lemma_total_tokens_prefix(cs, i + 1);
        assert(cs.take(i + 1).drop_last() =~= cs.take(i));
        assert(cs.take(i + 1).last() == cs[i]);
    }
}

impl Collection {
    /// Index of the token with the given id, if any.
    fn find_nft(&self, token_id: u64) -> (r: Option<usize>)
        ensures
            match r {
                Some(i) => {
                    &&& 0 <= i < self@.nfts.len()
                    &&& self@.nfts[i as int].id == token_id
                    &&& forall|j: int| 0 <= j < i ==> self@.nfts[j].id != token_id
                    &&& lookup_nft(self@.nfts, token_id) == Some(self@.nfts[i as int])
                },
                None => lookup_nft(self@.nfts, token_id) == None::<NftV>,
            },
    {
        let n = self.nfts.len();
        let mut i: usize = 0;
        while i < n
            invariant
                n == self.nfts@.len(),
                i <= n,
                forall|j: int| 0 <= j < i ==> self@.nfts[j].id != token_id,
            decreases n - i,
        {
            if self.nfts[i].id == token_id {
                proof {
                    lemma_lookup_nft_first(self@.nfts, token_id, i as int);
                }
                return Some(i);
            }
            i += 1;
        }
        proof {
            lemma_lookup_nft_none(self@.nfts, token_id);
        }
        None
    }

    /// Index of the operator entry registered for `owner`, if any.
    fn find_operator_entry(&self, owner: &Principal) -> (r: Option<usize>)
        ensures
            match r {
                Some(i) => {
                    &&& 0 <= i < self@.operators.len()
                    &&& self@.operators[i as int].0 == owner@
                    &&& forall|j: int| 0 <= j < i ==> self@.operators[j].0 != owner@
                    &&& plookup(self@.operators, owner@) == Some(self@.operators[i as int].1)
                },
                None => plookup(self@.operators, owner@) == None::<Seq<Seq<u8>>>,
            },
    {
        let n = self.operators.len();
        let mut i: usize = 0;
        while i < n
            invariant
                n == self.operators@.len(),
                i <= n,
                forall|j: int| 0 <= j < i ==> self@.operators[j].0 != owner@,
            decreases n - i,
        {
            if self.operators[i].owner.equals(owner) {
                proof {
                    lemma_plookup_first(self@.operators, owner@, i as int);
                }
                return Some(i);
            }
            i += 1;
        }
        proof {
            lemma_plookup_none(self@.operators, owner@);
        }
        None
    }

    /// Whether `who` is a registered operator for `owner`.
    fn has_operator(&self, owner: &Principal, who: &Principal) -> (r: bool)
        ensures
            r == ops_of(self@.operators, owner@).contains(who@),
    {
        match self.find_operator_entry(owner) {
            Some(i) => self.operators[i].operators.contains(who),
            None => {
                proof {
                    assert(ops_of(self@.operators, owner@) =~= Seq::<Seq<u8>>::empty());
                    assert(!ops_of(self@.operators, owner@).contains(who@));
                }
                false
            },
        }
    }
}

impl State {
    /// Advances the transaction counter and returns its new value, the
    /// receipt id of the operation that called it.
    pub fn next_txid(&mut self) -> (r: u128)
        requires
            old(self)@.txid < u128::MAX,
        ensures
            final(self)@.txid == old(self)@.txid + 1,
            r == final(self)@.txid,
            final(self)@.collections == old(self)@.collections,
    {
        self.txid = self.txid + 1;
        self.txid
    }

    /// Index of the collection with the given id, if any.
    fn find_collection(&self, collection_id: usize) -> (r: Option<usize>)
        ensures
            match r {
                Some(i) => {
                    &&& 0 <= i < self@.collections.len()
                    &&& self@.collections[i as int].0 == collection_id
                    &&& forall|j: int| 0 <= j < i ==> self@.collections[j].0 != collection_id
                    &&& plookup(self@.collections, collection_id) == Some(
                        self@.collections[i as int].1,
                    )
                },
                None => plookup(self@.collections, collection_id) == None::<CollectionV>,
            },
    {
        let n = self.collections.len();
        let mut i: usize = 0;
        while i < n
            invariant
                n == self.collections@.len(),
                i <= n,
                forall|j: int| 0 <= j < i ==> self@.collections[j].0 != collection_id,
            decreases n - i,
        {
            if self.collections[i].id == collection_id {
                proof {
                    lemma_plookup_first(self@.collections, collection_id, i as int);
                }
                return Some(i);
            }
            i += 1;
        }
        proof {
            lemma_plookup_none(self@.collections, collection_id);
        }
        None
    }

    /// Stores a collection under an id, replacing any collection already
    /// there.
    fn put_collection(&mut self, collection_id: usize, collection: Collection)
        requires
            old(self).wf(),
            collection@.wf(),
        ensures
            final(self).wf(),
            final(self)@.txid == old(self)@.txid,
            plookup(final(self)@.collections, collection_id) == Some(collection@),
            forall|k: usize|
                k != collection_id ==> plookup(final(self)@.collections, k) == plookup(
                    old(self)@.collections,
                    k,
                ),
    {
        let ghost oldc = self@.collections;
        match self.find_collection(collection_id) {
            Some(i) => {
                self.collections.remove(i);
                self.collections.insert(i, CollectionEntry { id: collection_id, collection });
                proof {
                    assert(self@.collections =~= oldc.update(
                        i as int,
                        (collection_id, collection@),
                    ));
                    assert forall|k: usize| true implies plookup(self@.collections, k) == (if k
                        == collection_id {
                        Some(collection@)
                    } else {
                        plookup(oldc, k)
                    }) by {
                        lemma_plookup_update(oldc, i as int, collection@, k);
                    }
                    assert(keys_unique(self@.collections));
                }
            },
            None => {
                self.collections.push(CollectionEntry { id: collection_id, collection });
                proof {
                    lemma_plookup_none_keys(oldc, collection_id);
                    assert(self@.collections =~= oldc.push((collection_id, collection@)));
                    assert forall|k: usize| true implies plookup(self@.collections, k) == (if k
                        == collection_id {
                        Some(collection@)
                    } else {
                        plookup(oldc, k)
                    }) by {
                        lemma_plookup_push(oldc, collection_id, collection@, k);
                    }
                    lemma_plookup_none_keys(oldc, collection_id);
                    assert forall|a: int, b: int|
                        0 <= a < b < self@.collections.len() implies (#[trigger] self@.collections[a]).0
                        != (#[trigger] self@.collections[b]).0 by {
                        assert(self@.collections[a] == oldc[a]);
                        if b < oldc.len() {
                            assert(self@.collections[b] == oldc[b]);
                        }
                    }
                }
            },
        }
    }

    /// Creates a collection with the given metadata, an empty ledger and
    /// empty permission state, under id `count of collections + 1`, and
    /// returns that id.  Any caller may create a collection; the creator is
    /// not made a custodian.
    pub fn insert_collection(&mut self, collection: InsertCollection) -> (r: usize)
        requires
            old(self).wf(),
            old(self)@.collections.len() < usize::MAX,
        ensures
            final(self).wf(),
            final(self)@.txid == old(self)@.txid,
            r == old(self)@.collections.len() + 1,
            plookup(final(self)@.collections, r) == Some(
                (CollectionV {
                    name: collection.name@,
                    logo: collection.logo@,
                    symbol: collection.symbol@,
                    nfts: Seq::empty(),
                    custodians: Seq::empty(),
                    operators: Seq::empty(),
                }),
            ),
            forall|k: usize|
                k != r ==> plookup(final(self)@.collections, k) == plookup(
                    old(self)@.collections,
                    k,
                ),
    {
        let id = self.collections.len() + 1;
        let fresh = Collection {
            name: collection.name,
            logo: collection.logo,
            symbol: collection.symbol,
            nfts: Vec::new(),
            custodians: PrincipalSet::new(),
            operators: Vec::new(),
        };
        proof {
            assert(fresh@.nfts =~= Seq::<NftV>::empty());
            assert(fresh@.operators =~= Seq::<(Seq<u8>, Seq<Seq<u8>>)>::empty());
            assert(fresh@.wf());
        }
        self.put_collection(id, fresh);
        id
    }

    /// Renames a collection; only a custodian may.
    pub fn set_name_of_collection(&mut self, collection_id: usize, name: String, caller: &Principal) -> (r:
        Result<(), Error>)
        requires
            old(self).wf(),
        ensures
            final(self).wf(),
            final(self)@.txid == old(self)@.txid,
            match plookup(old(self)@.collections, collection_id) {
                None => r == Err::<(), Error>(Error::NotFound) && final(self)@ == old(self)@,
                Some(c) => if !c.custodians.contains(caller@) {
                    r == Err::<(), Error>(Error::Unauthorized) && final(self)@ == old(self)@
                } else {
                    &&& r == Ok::<(), Error>(())
                    &&& plookup(final(self)@.collections, collection_id) == Some(
                        (CollectionV { name: name@, ..c }),
                    )
                    &&& forall|k: usize|
                        k != collection_id ==> plookup(final(self)@.collections, k) == plookup(
                            old(self)@.collections,
                            k,
                        )
                },
            },
    {
        let i = match self.find_collection(collection_id) {
            Some(i) => i,
            None => {
                return Err(Error::NotFound);
            },
        };
        if !self.collections[i].collection.custodians.contains(caller) {
            return Err(Error::Unauthorized);
        }
        let ghost oldc = self@.collections;
        let mut entry = self.collections.remove(i);
        entry.collection.name = name;
        let ghost cv = entry.collection@;
        self.collections.insert(i, entry);
        proof {
            assert(self@.collections =~= oldc.update(i as int, (collection_id, cv)));
            assert forall|k: usize| true implies plookup(self@.collections, k) == (if k
                == collection_id {
                Some(cv)
            } else {
                plookup(oldc, k)
            }) by {
                lemma_plookup_update(oldc, i as int, cv, k);
            }
            assert(keys_unique(self@.collections));
        }
        Ok(())
    }

    /// Changes a collection's symbol; only a custodian may.
    pub fn set_symbol_of_collection(
        &mut self,
        collection_id: usize,
        symbol: String,
        caller: &Principal,
    ) -> (r: Result<(), Error>)
        requires
            old(self).wf(),
        ensures
            final(self).wf(),
            final(self)@.txid == old(self)@.txid,
            match plookup(old(self)@.collections, collection_id) {
                None => r == Err::<(), Error>(Error::NotFound) && final(self)@ == old(self)@,
                Some(c) => if !c.custodians.contains(caller@) {
                    r == Err::<(), Error>(Error::Unauthorized) && final(self)@ == old(self)@
                } else {
                    &&& r == Ok::<(), Error>(())
                    &&& plookup(final(self)@.collections, collection_id) == Some(
                        (CollectionV { symbol: symbol@, ..c }),
                    )
                    &&& forall|k: usize|
                        k != collection_id ==> plookup(final(self)@.collections, k) == plookup(
                            old(self)@.collections,
                            k,
                        )
                },
            },
    {
        let i = match self.find_collection(collection_id) {
            Some(i) => i,
            None => {
                return Err(Error::NotFound);
            },
        };
        if !self.collections[i].collection.custodians.contains(caller) {
            return Err(Error::Unauthorized);
        }
        let ghost oldc = self@.collections;
        let mut entry = self.collections.remove(i);
        entry.collection.symbol = symbol;
        let ghost cv = entry.collection@;
        self.collections.insert(i, entry);
        proof {
            assert(self@.collections =~= oldc.update(i as int, (collection_id, cv)));
            assert forall|k: usize| true implies plookup(self@.collections, k) == (if k
                == collection_id {
                Some(cv)
            } else {
                plookup(oldc, k)
            }) by {
                lemma_plookup_update(oldc, i as int, cv, k);
            }
            assert(keys_unique(self@.collections));
        }
        Ok(())
    }

    /// Replaces a collection's logo; only a custodian may.
    pub fn set_logo_of_collection(&mut self, collection_id: usize, logo: Logo, caller: &Principal) -> (r:
        Result<(), Error>)
        requires
            old(self).wf(),
        ensures
            final(self).wf(),
            final(self)@.txid == old(self)@.txid,
            match plookup(old(self)@.collections, collection_id) {
                None => r == Err::<(), Error>(Error::NotFound) && final(self)@ == old(self)@,
                Some(c) => if !c.custodians.contains(caller@) {
                    r == Err::<(), Error>(Error::Unauthorized) && final(self)@ == old(self)@
                } else {
                    &&& r == Ok::<(), Error>(())
                    &&& plookup(final(self)@.collections, collection_id) == Some(
                        (CollectionV { logo: logo@, ..c }),
                    )
                    &&& forall|k: usize|
                        k != collection_id ==> plookup(final(self)@.collections, k) == plookup(
                            old(self)@.collections,
                            k,
                        )
                },
            },
    {
        let i = match self.find_collection(collection_id) {
            Some(i) => i,
            None => {
                return Err(Error::NotFound);
            },
        };
        if !self.collections[i].collection.custodians.contains(caller) {
            return Err(Error::Unauthorized);
        }
        let ghost oldc = self@.collections;
        let mut entry = self.collections.remove(i);
        entry.collection.logo = logo;
        let ghost cv = entry.collection@;
        self.collections.insert(i, entry);
        proof {
            assert(self@.collections =~= oldc.update(i as int, (collection_id, cv)));
            assert forall|k: usize| true implies plookup(self@.collections, k) == (if k
                == collection_id {
                Some(cv)
            } else {
                plookup(oldc, k)
            }) by {
                lemma_plookup_update(oldc, i as int, cv, k);
            }
            assert(keys_unique(self@.collections));
        }
        Ok(())
    }

    /// The display name of a collection, if the id names one.
    pub fn name_of_collection(&self, collection_id: usize) -> (r: Option<String>)
        ensures
            match plookup(self@.collections, collection_id) {
                Some(c) => r matches Some(s) && s@ == c.name,
                None => r is None,
            },
    {
        match self.find_collection(collection_id) {
            Some(i) => Some(self.collections[i].collection.name.clone()),
            None => None,
        }
    }

    /// The symbol of a collection, if the id names one.
    pub fn symbol_of_collection(&self, collection_id: usize) -> (r: Option<String>)
        ensures
            match plookup(self@.collections, collection_id) {
                Some(c) => r matches Some(s) && s@ == c.symbol,
                None => r is None,
            },
    {
        match self.find_collection(collection_id) {
            Some(i) => Some(self.collections[i].collection.symbol.clone()),
            None => None,
        }
    }

    /// The logo of a collection, if the id names one.
    pub fn logo_of_collection(&self, collection_id: usize) -> (r: Option<Logo>)
        ensures
            match plookup(self@.collections, collection_id) {
                Some(c) => r matches Some(l) && l@ == c.logo,
                None => r is None,
            },
    {
        match self.find_collection(collection_id) {
            Some(i) => Some(self.collections[i].collection.logo.duplicate()),
            None => None,
        }
    }

    /// How many tokens of a collection the given identity owns; zero when
    /// the id names no collection.
    pub fn balance_of_user(&self, collection_id: usize, principal: &Principal) -> (r: usize)
        ensures
            match plookup(self@.collections, collection_id) {
                Some(c) => r == count_owned(c.nfts, principal@),
                None => r == 0,
            },
    {
        let i = match self.find_collection(collection_id) {
            Some(i) => i,
            None => {
                return 0;
            },
        };
        let c = &self.collections[i].collection;
        let n = c.nfts.len();
        let mut count: usize = 0;
        let mut j: usize = 0;
        while j < n
            invariant
                n == c.nfts@.len(),
                j <= n,
                count == count_owned(c@.nfts.take(j as int), principal@),
                count <= j,
            decreases n - j,
        {
            proof {
                assert(c@.nfts.take(j + 1).drop_last() =~= c@.nfts.take(j as int));
                assert(c@.nfts.take(j + 1).last() == c@.nfts[j as int]);
            }
            if c.nfts[j].owner.equals(principal) {
                count += 1;
            }
            j += 1;
        }
        proof {
            assert(c@.nfts.take(n as int) =~= c@.nfts);
        }
        count
    }

    /// The owner of a token, if the collection and token ids name one.
    pub fn owner_of_nft(&self, collection_id: usize, token_id: u64) -> (r: Option<Principal>)
        ensures
            match plookup(self@.collections, collection_id) {
                Some(c) => match lookup_nft(c.nfts, token_id) {
                    Some(n) => r matches Some(p) && p@ == n.owner,
                    None => r is None,
                },
                None => r is None,
            },
    {
        let i = match self.find_collection(collection_id) {
            Some(i) => i,
            None => {
                return None;
            },
        };
        match self.collections[i].collection.find_nft(token_id) {
            Some(j) => Some(self.collections[i].collection.nfts[j].owner.duplicate()),
            None => None,
        }
    }

    /// The number of tokens in one collection, if the id names one.
    pub fn total_supply_of_collection(&self, collection_id: usize) -> (r: Option<usize>)
        ensures
            match plookup(self@.collections, collection_id) {
                Some(c) => r == Some(c.nfts.len() as usize),
                None => r is None,
            },
    {
        match self.find_collection(collection_id) {
            Some(i) => Some(self.collections[i].collection.nfts.len()),
            None => None,
        }
    }

    /// The number of tokens across all collections.
    pub fn total_supply(&self) -> (r: usize)
        requires
            total_tokens(self@.collections) <= usize::MAX,
        ensures
            r == total_tokens(self@.collections),
    {
        let n = self.collections.len();
        let mut total: usize = 0;
        let mut i: usize = 0;
        while i < n
            invariant
                n == self.collections@.len(),
                i <= n,
                total == total_tokens(self@.collections.take(i as int)),
                total_tokens(self@.collections) <= usize::MAX,
            decreases n - i,
        {
            proof {
                assert(self@.collections.take(i + 1).drop_last() =~= self@.collections.take(
                    i as int,
                ));
                assert(self@.collections.take(i + 1).last() == self@.collections[i as int]);
                lemma_total_tokens_prefix(self@.collections, i + 1);
            }
            total += self.collections[i].collection.nfts.len();
            i += 1;
        }
        proof {
            assert(self@.collections.take(n as int) =~= self@.collections);
        }
        total
    }

    /// Grants custodianship; only an existing custodian may.  Returns
    /// whether the custodian set changed.
    pub fn insert_custodian_into_collection(
        &mut self,
        collection_id: usize,
        custodian: Principal,
        caller: &Principal,
    ) -> (r: Result<bool, Error>)
        requires
            old(self).wf(),
        ensures
            final(self).wf(),
            final(self)@.txid == old(self)@.txid,
            match plookup(old(self)@.collections, collection_id) {
                None => r == Err::<bool, Error>(Error::NotFound) && final(self)@ == old(self)@,
                Some(c) => if !c.custodians.contains(caller@) {
                    r == Err::<bool, Error>(Error::Unauthorized) && final(self)@ == old(self)@
                } else {
                    &&& r == Ok::<bool, Error>(!c.custodians.contains(custodian@))
                    &&& match plookup(final(self)@.collections, collection_id) {
                        Some(c2) => {
                            &&& c2 == (CollectionV { custodians: c2.custodians, ..c })
                            &&& forall|x: Seq<u8>|
                                c2.custodians.contains(x) <==> (c.custodians.contains(x) || x
                                    == custodian@)
                        },
                        None => false,
                    }
                    &&& forall|k: usize|
                        k != collection_id ==> plookup(final(self)@.collections, k) == plookup(
                            old(self)@.collections,
                            k,
                        )
                },
            },
    {
        let i = match self.find_collection(collection_id) {
            Some(i) => i,
            None => {
                return Err(Error::NotFound);
            },
        };
        if !self.collections[i].collection.custodians.contains(caller) {
            return Err(Error::Unauthorized);
        }
        let ghost oldc = self@.collections;
        let mut entry = self.collections.remove(i);
        let changed = entry.collection.custodians.insert(custodian);
        let ghost cv = entry.collection@;
        self.collections.insert(i, entry);
        proof {
            assert(self@.collections =~= oldc.update(i as int, (collection_id, cv)));
            assert forall|k: usize| true implies plookup(self@.collections, k) == (if k
                == collection_id {
                Some(cv)
            } else {
                plookup(oldc, k)
            }) by {
                lemma_plookup_update(oldc, i as int, cv, k);
            }
            assert(keys_unique(self@.collections));
        }
        Ok(changed)
    }

    /// Revokes custodianship; only an existing custodian may.  Returns
    /// whether the custodian set changed.
    pub fn remove_custodian_from_collection(
        &mut self,
        collection_id: usize,
        custodian: &Principal,
        caller: &Principal,
    ) -> (r: Result<bool, Error>)
        requires
            old(self).wf(),
        ensures
            final(self).wf(),
            final(self)@.txid == old(self)@.txid,
            match plookup(old(self)@.collections, collection_id) {
                None => r == Err::<bool, Error>(Error::NotFound) && final(self)@ == old(self)@,
                Some(c) => if !c.custodians.contains(caller@) {
                    r == Err::<bool, Error>(Error::Unauthorized) && final(self)@ == old(self)@
                } else {
                    &&& r == Ok::<bool, Error>(c.custodians.contains(custodian@))
                    &&& match plookup(final(self)@.collections, collection_id) {
                        Some(c2) => {
                            &&& c2 == (CollectionV { custodians: c2.custodians, ..c })
                            &&& forall|x: Seq<u8>|
                                c2.custodians.contains(x) <==> (c.custodians.contains(x) && x
                                    != custodian@)
                        },
                        None => false,
                    }
                    &&& forall|k: usize|
                        k != collection_id ==> plookup(final(self)@.collections, k) == plookup(
                            old(self)@.collections,
                            k,
                        )
                },
            },
    {
        let i = match self.find_collection(collection_id) {
            Some(i) => i,
            None => {
                return Err(Error::NotFound);
            },
        };
        if !self.collections[i].collection.custodians.contains(caller) {
            return Err(Error::Unauthorized);
        }
        let ghost oldc = self@.collections;
        let mut entry = self.collections.remove(i);
        let changed = entry.collection.custodians.remove(custodian);
        let ghost cv = entry.collection@;
        self.collections.insert(i, entry);
        proof {
            assert(self@.collections =~= oldc.update(i as int, (collection_id, cv)));
            assert forall|k: usize| true implies plookup(self@.collections, k) == (if k
                == collection_id {
                Some(cv)
            } else {
                plookup(oldc, k)
            }) by {
                lemma_plookup_update(oldc, i as int, cv, k);
            }
            assert(keys_unique(self@.collections));
        }
        Ok(changed)
    }

    /// Whether an identity is a custodian of a collection; unlike the other
    /// read accessors this fails on an unknown collection id.
    pub fn is_custodian_of_collection(&self, collection_id: usize, custodian: &Principal) -> (r:
        Result<bool, Error>)
        ensures
            match plookup(self@.collections, collection_id) {
                Some(c) => r == Ok::<bool, Error>(c.custodians.contains(custodian@)),
                None => r == Err::<bool, Error>(Error::NotFound),
            },
    {
        match self.find_collection(collection_id) {
            Some(i) => Ok(self.collections[i].collection.custodians.contains(custodian)),
            None => Err(Error::NotFound),
        }
    }

    /// Transfers a token.  The destination may not be the anonymous
    /// identity; the supplied `from` must be the actual current owner; the
    /// caller must be owner, approved spender, operator for `from`, or
    /// custodian.  On success the approval is cleared, ownership moves to
    /// `to`, and the advanced transaction counter is returned.
    pub fn transfer_from_to(
        &mut self,
        collection_id: usize,
        token_id: u64,
        from: &Principal,
        to: &Principal,
        caller: &Principal,
    ) -> (r: Result<u128, Error>)
        requires
            old(self).wf(),
            old(self)@.txid < u128::MAX,
        ensures
            final(self).wf(),
            r == transfer_outcome(old(self)@, collection_id, token_id, from@, to@, caller@),
            r is Err ==> final(self)@ == old(self)@,
            r is Ok ==> {
                &&& final(self)@.txid == old(self)@.txid + 1
                &&& forall|k: usize|
                    k != collection_id ==> plookup(final(self)@.collections, k) == plookup(
                        old(self)@.collections,
                        k,
                    )
                &&& match (
                    plookup(old(self)@.collections, collection_id),
                    plookup(final(self)@.collections, collection_id),
                ) {
                    (Some(c), Some(c2)) => {
                        &&& c2 == (CollectionV { nfts: c2.nfts, ..c })
                        &&& forall|t: u64|
                            t != token_id ==> lookup_nft(c2.nfts, t) == lookup_nft(c.nfts, t)
                        &&& match lookup_nft(c.nfts, token_id) {
                            Some(n) => lookup_nft(c2.nfts, token_id) == Some(
                                (NftV { owner: to@, approved: None::<Seq<u8>>, ..n }),
                            ),
                            None => false,
                        }
                    },
                    _ => false,
                }
            },
    {
        if to.is_anonymous() {
            return Err(Error::InvalidDestination);
        }
        let i = match self.find_collection(collection_id) {
            Some(i) => i,
            None => {
                return Err(Error::NotFound);
            },
        };
        let j = match self.collections[i].collection.find_nft(token_id) {
            Some(j) => j,
            None => {
                return Err(Error::NotFound);
            },
        };
        let allowed = {
            let c = &self.collections[i].collection;
            let n = &c.nfts[j];
            n.owner.equals(caller) || (match &n.approved {
                Some(a) => a.equals(caller),
                None => false,
            }) || c.has_operator(from, caller) || c.custodians.contains(caller)
        };
        if !allowed {
            return Err(Error::Unauthorized);
        }
        if !self.collections[i].collection.nfts[j].owner.equals(from) {
            return Err(Error::OwnerMismatch);
        }
        let ghost oldc = self@.collections;
        let ghost oldn = self.collections@[i as int].collection@.nfts;
        let mut entry = self.collections.remove(i);
        let mut nft = entry.collection.nfts.remove(j);
        nft.approved = None;
        nft.owner = to.duplicate();
        let ghost nv = nft@;
        entry.collection.nfts.insert(j, nft);
        let ghost cv = entry.collection@;
        self.collections.insert(i, entry);
        self.txid = self.txid + 1;
        proof {
            assert(cv.nfts =~= oldn.update(j as int, nv));
            assert forall|t: u64| true implies lookup_nft(cv.nfts, t) == (if t == token_id {
                Some(nv)
            } else {
                lookup_nft(oldn, t)
            }) by {
                lemma_lookup_nft_update(oldn, j as int, nv, t);
            }
            assert(nft_ids_unique(cv.nfts));
            assert(cv.wf());
            assert(self@.collections =~= oldc.update(i as int, (collection_id, cv)));
            assert forall|k: usize| true implies plookup(self@.collections, k) == (if k
                == collection_id {
                Some(cv)
            } else {
                plookup(oldc, k)
            }) by {
                lemma_plookup_update(oldc, i as int, cv, k);
            }
            assert(keys_unique(self@.collections));
        }
        Ok(self.txid)
    }

    /// Sets a token's approved spender.  The caller must be owner, approved
    /// spender, operator for the owner, or custodian; the spender is set
    /// unconditionally on success and the advanced counter returned.
    pub fn approve(
        &mut self,
        collection_id: usize,
        token_id: u64,
        user: &Principal,
        caller: &Principal,
    ) -> (r: Result<u128, Error>)
        requires
            old(self).wf(),
            old(self)@.txid < u128::MAX,
        ensures
            final(self).wf(),
            r == approve_outcome(old(self)@, collection_id, token_id, caller@),
            r is Err ==> final(self)@ == old(self)@,
            r is Ok ==> {
                &&& final(self)@.txid == old(self)@.txid + 1
                &&& forall|k: usize|
                    k != collection_id ==> plookup(final(self)@.collections, k) == plookup(
                        old(self)@.collections,
                        k,
                    )
                &&& match (
                    plookup(old(self)@.collections, collection_id),
                    plookup(final(self)@.collections, collection_id),
                ) {
                    (Some(c), Some(c2)) => {
                        &&& c2 == (CollectionV { nfts: c2.nfts, ..c })
                        &&& forall|t: u64|
                            t != token_id ==> lookup_nft(c2.nfts, t) == lookup_nft(c.nfts, t)
                        &&& match lookup_nft(c.nfts, token_id) {
                            Some(n) => lookup_nft(c2.nfts, token_id) == Some(
                                (NftV { approved: Some(user@), ..n }),
                            ),
                            None => false,
                        }
                    },
                    _ => false,
                }
            },
    {
        let i = match self.find_collection(collection_id) {
            Some(i) => i,
            None => {
                return Err(Error::NotFound);
            },
        };
        let j = match self.collections[i].collection.find_nft(token_id) {
            Some(j) => j,
            None => {
                return Err(Error::NotFound);
            },
        };
        let allowed = {
            let c = &self.collections[i].collection;
            let n = &c.nfts[j];
            n.owner.equals(caller) || (match &n.approved {
                Some(a) => a.equals(caller),
                None => false,
            }) || c.has_operator(&n.owner, caller) || c.custodians.contains(caller)
        };
        if !allowed {
            return Err(Error::Unauthorized);
        }
        let ghost oldc = self@.collections;
        let ghost oldn = self.collections@[i as int].collection@.nfts;
        let mut entry = self.collections.remove(i);
        let mut nft = entry.collection.nfts.remove(j);
        nft.approved = Some(user.duplicate());
        let ghost nv = nft@;
        entry.collection.nfts.insert(j, nft);
        let ghost cv = entry.collection@;
        self.collections.insert(i, entry);
        self.txid = self.txid + 1;
        proof {
            assert(cv.nfts =~= oldn.update(j as int, nv));
            assert forall|t: u64| true implies lookup_nft(cv.nfts, t) == (if t == token_id {
                Some(nv)
            } else {
                lookup_nft(oldn, t)
            }) by {
                lemma_lookup_nft_update(oldn, j as int, nv, t);
            }
            assert(nft_ids_unique(cv.nfts));
            assert(cv.wf());
            assert(self@.collections =~= oldc.update(i as int, (collection_id, cv)));
            assert forall|k: usize| true implies plookup(self@.collections, k) == (if k
                == collection_id {
                Some(cv)
            } else {
                plookup(oldc, k)
            }) by {
                lemma_plookup_update(oldc, i as int, cv, k);
            }
            assert(keys_unique(self@.collections));
        }
        Ok(self.txid)
    }

    /// Manages the caller's own operator set.  Self-approval is silently
    /// ignored; granting to the anonymous identity is refused as a no-op;
    /// revoking from the anonymous identity empties the whole set.  The
    /// counter advances even on the no-op branches.
    pub fn set_approval_for_all(
        &mut self,
        collection_id: usize,
        operator: &Principal,
        is_approved: bool,
        caller: &Principal,
    ) -> (r: Result<u128, Error>)
        requires
            old(self).wf(),
            old(self)@.txid < u128::MAX,
        ensures
            final(self).wf(),
            match plookup(old(self)@.collections, collection_id) {
                None => r == Err::<u128, Error>(Error::NotFound) && final(self)@ == old(self)@,
                Some(c) => {
                    &&& r == Ok::<u128, Error>((old(self)@.txid + 1) as u128)
                    &&& final(self)@.txid == old(self)@.txid + 1
                    &&& forall|k: usize|
                        k != collection_id ==> plookup(final(self)@.collections, k) == plookup(
                            old(self)@.collections,
                            k,
                        )
                    &&& match plookup(final(self)@.collections, collection_id) {
                        Some(c2) => {
                            &&& c2 == (CollectionV { operators: c2.operators, ..c })
                            &&& forall|o: Seq<u8>|
                                o != caller@ ==> ops_of(c2.operators, o) == ops_of(c.operators, o)
                            &&& forall|x: Seq<u8>|
                                ops_of(c2.operators, caller@).contains(x) <==> spec_operator_after(
                                    ops_of(c.operators, caller@),
                                    operator@,
                                    is_approved,
                                    caller@,
                                    x,
                                )
                        },
                        None => false,
                    }
                },
            },
    {
        let i = match self.find_collection(collection_id) {
            Some(i) => i,
            None => {
                return Err(Error::NotFound);
            },
        };
        let ghost oldc = self@.collections;
        let mut entry = self.collections.remove(i);
        if !operator.equals(caller) {
            let ghost oldops = entry.collection@.operators;
            let ei = match entry.collection.find_operator_entry(caller) {
                Some(ei) => ei,
                None => {
                    entry.collection.operators.push(
                        OperatorEntry { owner: caller.duplicate(), operators: PrincipalSet::new() },
                    );
                    proof {
                        let newops = entry.collection@.operators;
                        lemma_plookup_none_keys(oldops, caller@);
                        assert(newops =~= oldops.push((caller@, Seq::<Seq<u8>>::empty())));
                        assert forall|k: Seq<u8>| true implies plookup(newops, k) == (if k
                            == caller@ {
                            Some(Seq::<Seq<u8>>::empty())
                        } else {
                            plookup(oldops, k)
                        }) by {
                            lemma_plookup_push(oldops, caller@, Seq::<Seq<u8>>::empty(), k);
                        }
                        lemma_plookup_none_keys(oldops, caller@);
                        assert forall|a: int, b: int|
                            0 <= a < b < newops.len() implies (#[trigger] newops[a]).0 != (#[trigger] newops[b]).0 by {
                            assert(newops[a] == oldops[a]);
                            if b < oldops.len() {
                                assert(newops[b] == oldops[b]);
                            }
                        }
                        assert(ops_of(newops, caller@) =~= ops_of(oldops, caller@));
                    }
                    entry.collection.operators.len() - 1
                },
            };
            let ghost midops = entry.collection@.operators;
            proof {
                if ei == oldops.len() {
                    lemma_plookup_none_keys(oldops, caller@);
                }
                assert(midops[ei as int].0 == caller@);
                assert(forall|jj: int| 0 <= jj < ei ==> (#[trigger] midops[jj]).0 != caller@);
                assert(plookup(midops, caller@) == Some(midops[ei as int].1));
                assert(ops_of(midops, caller@) =~= ops_of(oldops, caller@));
            }
            let mut oentry = entry.collection.operators.remove(ei);
            if operator.is_anonymous() {
                if !is_approved {
                    oentry.operators.clear();
                }
            } else if is_approved {
                oentry.operators.insert(operator.duplicate());
            } else {
                oentry.operators.remove(operator);
            }
            let ghost newset = oentry.operators@;
            entry.collection.operators.insert(ei, oentry);
            proof {
                let newops = entry.collection@.operators;
                assert(newops =~= midops.update(ei as int, (caller@, newset)));
                assert forall|k: Seq<u8>| true implies plookup(newops, k) == (if k == caller@ {
                    Some(newset)
                } else {
                    plookup(midops, k)
                }) by {
                    lemma_plookup_update(midops, ei as int, newset, k);
                }
                assert(keys_unique(newops));
                assert(entry.collection@.wf());
            }
        }
        let ghost cv = entry.collection@;
        self.collections.insert(i, entry);
        self.txid = self.txid + 1;
        proof {
            assert(self@.collections =~= oldc.update(i as int, (collection_id, cv)));
            assert forall|k: usize| true implies plookup(self@.collections, k) == (if k
                == collection_id {
                Some(cv)
            } else {
                plookup(oldc, k)
            }) by {
                lemma_plookup_update(oldc, i as int, cv, k);
            }
            assert(keys_unique(self@.collections));
        }
        Ok(self.txid)
    }

    /// Whether `operator` is in the caller's own operator set; fails on an
    /// unknown collection id.
    pub fn is_approved_for_all(&self, collection_id: usize, operator: &Principal, caller: &Principal) -> (r:
        Result<bool, Error>)
        ensures
            match plookup(self@.collections, collection_id) {
                Some(c) => r == Ok::<bool, Error>(ops_of(c.operators, caller@).contains(operator@)),
                None => r == Err::<bool, Error>(Error::NotFound),
            },
    {
        match self.find_collection(collection_id) {
            Some(i) => Ok(self.collections[i].collection.has_operator(caller, operator)),
            None => Err(Error::NotFound),
        }
    }

    /// Burns a token: only its current owner may; ownership passes to the
    /// anonymous identity and any approval is cleared.  The record remains.
    pub fn burn(&mut self, collection_id: usize, token_id: u64, caller: &Principal) -> (r: Result<
        u128,
        Error,
    >)
        requires
            old(self).wf(),
            old(self)@.txid < u128::MAX,
        ensures
            final(self).wf(),
            r == burn_outcome(old(self)@, collection_id, token_id, caller@),
            r is Err ==> final(self)@ == old(self)@,
            r is Ok ==> {
                &&& final(self)@.txid == old(self)@.txid + 1
                &&& forall|k: usize|
                    k != collection_id ==> plookup(final(self)@.collections, k) == plookup(
                        old(self)@.collections,
                        k,
                    )
                &&& match (
                    plookup(old(self)@.collections, collection_id),
                    plookup(final(self)@.collections, collection_id),
                ) {
                    (Some(c), Some(c2)) => {
                        &&& c2 == (CollectionV { nfts: c2.nfts, ..c })
                        &&& forall|t: u64|
                            t != token_id ==> lookup_nft(c2.nfts, t) == lookup_nft(c.nfts, t)
                        &&& match lookup_nft(c.nfts, token_id) {
                            Some(n) => lookup_nft(c2.nfts, token_id) == Some(
                                (NftV {
                                    owner: anonymous_bytes(),
                                    approved: None::<Seq<u8>>,
                                    ..n
                                }),
                            ),
                            None => false,
                        }
                    },
                    _ => false,
                }
            },
    {
        let i = match self.find_collection(collection_id) {
            Some(i) => i,
            None => {
                return Err(Error::NotFound);
            },
        };
        let j = match self.collections[i].collection.find_nft(token_id) {
            Some(j) => j,
            None => {
                return Err(Error::NotFound);
            },
        };
        if !self.collections[i].collection.nfts[j].owner.equals(caller) {
            return Err(Error::Unauthorized);
        }
        let ghost oldc = self@.collections;
        let ghost oldn = self.collections@[i as int].collection@.nfts;
        let mut entry = self.collections.remove(i);
        let mut nft = entry.collection.nfts.remove(j);
        nft.owner = Principal::anonymous();
        nft.approved = None;
        let ghost nv = nft@;
        entry.collection.nfts.insert(j, nft);
        let ghost cv = entry.collection@;
        self.collections.insert(i, entry);
        self.txid = self.txid + 1;
        proof {
            assert(cv.nfts =~= oldn.update(j as int, nv));
            assert forall|t: u64| true implies lookup_nft(cv.nfts, t) == (if t == token_id {
                Some(nv)
            } else {
                lookup_nft(oldn, t)
            }) by {
                lemma_lookup_nft_update(oldn, j as int, nv, t);
            }
            assert(nft_ids_unique(cv.nfts));
            assert(cv.wf());
            assert(self@.collections =~= oldc.update(i as int, (collection_id, cv)));
            assert forall|k: usize| true implies plookup(self@.collections, k) == (if k
                == collection_id {
                Some(cv)
            } else {
                plookup(oldc, k)
            }) by {
                lemma_plookup_update(oldc, i as int, cv, k);
            }
            assert(keys_unique(self@.collections));
        }
        Ok(self.txid)
    }

    /// Merges a restored registry into this one: restored collections win
    /// on id clashes, and the transaction counter takes the restored value.
    pub fn restore(&mut self, restored: State)
        requires
            old(self).wf(),
            restored.wf(),
        ensures
            final(self).wf(),
            final(self)@.txid == restored@.txid,
            forall|k: usize|
                plookup(final(self)@.collections, k) == (match plookup(restored@.collections, k) {
                    Some(c) => Some(c),
                    None => plookup(old(self)@.collections, k),
                }),
    {
        let ghost rv = restored@.collections;
        let mut rest = restored;
        let ghost n = rv.len();
        let mut i: usize = 0;
        proof {
            assert(rest.collections@.map_values(|e: CollectionEntry| e@) =~= rv.skip(0));
            assert(rest.collections.len() == rest.collections@.len());
            assert(rv.len() == rest.collections@.len());
        }
        while rest.collections.len() > 0
            invariant
                self.wf(),
                n == rv.len(),
                n <= usize::MAX,
                rest.txid == restored.txid,
                i == n - rest.collections@.len(),
                0 <= i <= n,
                rest.collections@.map_values(|e: CollectionEntry| e@) =~= rv.skip(i as int),
                keys_unique(rv),
                forall|m: int| 0 <= m < rv.len() ==> (#[trigger] rv[m].1).wf(),
                self@.txid == old(self)@.txid,
                forall|k: usize|
                    plookup(self@.collections, k) == (if exists|m: int|
                        0 <= m < i && rv[m].0 == k {
                        plookup(rv, k)
                    } else {
                        plookup(old(self)@.collections, k)
                    }),
            decreases rest.collections@.len(),
        {
            let ghost precoll = rest.collections@;
            let entry = rest.collections.remove(0);
            proof {
                assert(precoll.map_values(|e: CollectionEntry| e@) =~= rv.skip(i as int));
                assert(rv.skip(i as int).len() == rv.len() - i);
                assert(i < n);
                assert(entry@ == precoll.map_values(|e: CollectionEntry| e@)[0]);
                assert(rv.skip(i as int)[0] == rv[i as int]);
                assert(entry@ == rv[i as int]);
                assert(rest.collections@ =~= precoll.remove(0));
                assert forall|j: int|
                    0 <= j < rest.collections@.len() implies #[trigger] rv.skip(i + 1)[j]
                    == rest.collections@.map_values(|e: CollectionEntry| e@)[j] by {
                    assert(rest.collections@[j] == precoll[j + 1]);
                    assert(precoll.map_values(|e: CollectionEntry| e@)[j + 1] == precoll[j + 1]@);
                    assert(rv.skip(i as int)[j + 1] == rv[i + 1 + j]);
                    assert(rv.skip(i + 1)[j] == rv[i + 1 + j]);
                }
                assert(rest.collections@.map_values(|e: CollectionEntry| e@) =~= rv.skip(i + 1));
                assert(rv[i as int].1.wf());
                assert(entry.collection@ == rv[i as int].1);
                assert(entry.collection@.wf());
            }
            let ghost prev = self@.collections;
            let id = entry.id;
            self.put_collection(id, entry.collection);
            proof {
                lemma_plookup_first(rv, entry@.0, i as int);
                assert forall|k: usize| true implies plookup(self@.collections, k) == (if exists|
                    m: int,
                |
                    0 <= m < i + 1 && rv[m].0 == k {
                    plookup(rv, k)
                } else {
                    plookup(old(self)@.collections, k)
                }) by {
                    if k == entry@.0 {
                        assert(rv[i as int].0 == k);
                    } else {
                        assert((exists|m: int| 0 <= m < i + 1 && rv[m].0 == k) == (exists|m: int|
                            0 <= m < i && rv[m].0 == k));
                    }
                }
            }
            i += 1;
        }
        self.txid = rest.txid;
        proof {
            assert forall|k: usize| true implies plookup(self@.collections, k) == (match plookup(
                rv,
                k,
            ) {
                Some(c) => Some(c),
                None => plookup(old(self)@.collections, k),
            }) by {
                if exists|m: int| 0 <= m < i && rv[m].0 == k {
                    let m = choose|m: int| 0 <= m < i && rv[m].0 == k;
                    lemma_plookup_some_of_index(rv, m);
                } else {
                    assert(forall|m: int| 0 <= m < rv.len() ==> rv[m].0 != k);
                    lemma_plookup_none(rv, k);
                }
            }
        }
    }
}

/// The registry's capability list.
pub fn supported_interfaces() -> (r: Vec<Interface>)
    ensures
        r@ =~= seq![Interface::Approval, Interface::TransferNotification, Interface::Burn],
{
    let mut v: Vec<Interface> = Vec::new();
    v.push(Interface::Approval);
    v.push(Interface::TransferNotification);
    v.push(Interface::Burn);
    v
}

/// Whether `x` belongs to the caller's operator set after
/// `set_approval_for_all(operator, is_approved)`, given the set before.
pub open spec fn spec_operator_after(
    before: Seq<Seq<u8>>,
    operator: Seq<u8>,
    is_approved: bool,
    caller: Seq<u8>,
    x: Seq<u8>,
) -> bool {
    if operator == caller {
        before.contains(x)
    } else if operator == anonymous_bytes() {
        if is_approved {
            before.contains(x)
        } else {
            false
        }
    } else if is_approved {
        before.contains(x) || x == operator
    } else {
        before.contains(x) && x != operator
    }
}

} // verus!
