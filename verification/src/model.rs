//! The data model of the registry.
//!
//! Exec-level structures hold collections, tokens and permission state as
//! plain vectors; every structure has a mathematical view (`…V`) over `Seq`,
//! and association vectors are read through the first-match lookup functions
//! below.  Well-formedness asks that every association vector has distinct
//! keys, so a lookup names the one entry with that key.

use vstd::prelude::*;

use crate::ident::Principal;

verus! {

/// Why an operation was refused.
#[derive(Clone, Copy, Debug, PartialEq, Eq, Structural)]
pub enum Error {
    /// The collection id or token id names nothing.
    NotFound,
    /// The caller fails the permission predicate of the operation.
    Unauthorized,
    /// The supplied current owner is not the token's actual owner.
    OwnerMismatch,
    /// The transfer destination is the reserved anonymous identity.
    InvalidDestination,
}

/// A capability the registry implements.
#[derive(Clone, Copy, Debug, PartialEq, Eq, Structural)]
pub enum Interface {
    Approval,
    Burn,
    TransferNotification,
}

/// The declared image format of a collection logo.
#[derive(Clone, Copy, Debug, PartialEq, Eq, Structural)]
pub enum LogoExtension {
    Png,
    Jpg,
    Jpeg,
}

/// A collection logo: a binary payload and its declared format.
pub struct Logo {
    pub extension: LogoExtension,
    pub data: Vec<u8>,
}

/// Mathematical view of a [`Logo`].
#[verifier::ext_equal]
pub struct LogoV {
    pub extension: LogoExtension,
    pub data: Seq<u8>,
}

impl View for Logo {
    type V = LogoV;

    open spec fn view(&self) -> LogoV {
        LogoV { extension: self.extension, data: self.data@ }
    }
}

impl Logo {
    /// An owned copy of the logo.
    pub fn duplicate(&self) -> (r: Logo)
        ensures
            r@ == self@,
    {
        let r = Logo {
            extension: self.extension,
            data: vstd::slice::slice_to_vec(self.data.as_slice()),
        };
        proof {
            assert(r@ =~= self@);
        }
        r
    }
}

/// What a metadata part is for.
#[derive(Clone, Copy, Debug, PartialEq, Eq, Structural)]
pub enum MetadataPurpose {
    Preview,
    Rendered,
}

/// A typed scalar or blob attached under a metadata key.
pub enum MetadataValue {
    Text(String),
    Blob(Vec<u8>),
    Nat8(u8),
    Nat16(u16),
    Nat32(u32),
    Nat64(u64),
    Nat(u128),
}

/// Mathematical view of a [`MetadataValue`].
#[verifier::ext_equal]
pub enum MetadataValueV {
    Text(Seq<char>),
    Blob(Seq<u8>),
    Nat8(u8),
    Nat16(u16),
    Nat32(u32),
    Nat64(u64),
    Nat(u128),
}

impl View for MetadataValue {
    type V = MetadataValueV;

    open spec fn view(&self) -> MetadataValueV {
        match self {
            MetadataValue::Text(s) => MetadataValueV::Text(s@),
            MetadataValue::Blob(b) => MetadataValueV::Blob(b@),
            MetadataValue::Nat8(v) => MetadataValueV::Nat8(*v),
            MetadataValue::Nat16(v) => MetadataValueV::Nat16(*v),
            MetadataValue::Nat32(v) => MetadataValueV::Nat32(*v),
            MetadataValue::Nat64(v) => MetadataValueV::Nat64(*v),
            MetadataValue::Nat(v) => MetadataValueV::Nat(*v),
        }
    }
}

/// One key of a metadata part.
pub struct MetadataEntry {
    pub key: String,
    pub value: MetadataValue,
}

impl View for MetadataEntry {
    type V = (Seq<char>, MetadataValueV);

    open spec fn view(&self) -> (Seq<char>, MetadataValueV) {
        (self.key@, self.value@)
    }
}

/// One part of a token's metadata: a purpose, keyed values, and a payload.
pub struct MetadataPart {
    pub purpose: MetadataPurpose,
    pub key_val_data: Vec<MetadataEntry>,
    pub data: Vec<u8>,
}

/// Mathematical view of a [`MetadataPart`].
#[verifier::ext_equal]
pub struct MetadataPartV {
    pub purpose: MetadataPurpose,
    pub key_val_data: Seq<(Seq<char>, MetadataValueV)>,
    pub data: Seq<u8>,
}

impl View for MetadataPart {
    type V = MetadataPartV;

    open spec fn view(&self) -> MetadataPartV {
        MetadataPartV {
            purpose: self.purpose,
            key_val_data: self.key_val_data@.map_values(|e: MetadataEntry| e@),
            data: self.data@,
        }
    }
}

/// A token record: its id, owner, optional approved spender, metadata and
/// content.  A burned token keeps its record; its owner is the anonymous
/// identity.
pub struct Nft {
    pub id: u64,
    pub owner: Principal,
    pub approved: Option<Principal>,
    pub metadata: Vec<MetadataPart>,
    pub content: Vec<u8>,
}

/// Mathematical view of an [`Nft`].
#[verifier::ext_equal]
pub struct NftV {
    pub id: u64,
    pub owner: Seq<u8>,
    pub approved: Option<Seq<u8>>,
    pub metadata: Seq<MetadataPartV>,
    pub content: Seq<u8>,
}

impl View for Nft {
    type V = NftV;

    open spec fn view(&self) -> NftV {
        NftV {
            id: self.id,
            owner: self.owner@,
            approved: match self.approved {
                Some(p) => Some(p@),
                None => None,
            },
            metadata: self.metadata@.map_values(|m: MetadataPart| m@),
            content: self.content@,
        }
    }
}

/// A set of identities, kept as a duplicate-free vector.
pub struct PrincipalSet {
    pub items: Vec<Principal>,
}

impl View for PrincipalSet {
    type V = Seq<Seq<u8>>;

    open spec fn view(&self) -> Seq<Seq<u8>> {
        self.items@.map_values(|p: Principal| p@)
    }
}

/// No identity occurs twice.
pub open spec fn distinct_ids(s: Seq<Seq<u8>>) -> bool {
    forall|i: int, j: int| 0 <= i < j < s.len() ==> s[i] != s[j]
}

impl PrincipalSet {
    pub open spec fn wf(self) -> bool {
        distinct_ids(self@)
    }

    /// The empty set.
    pub fn new() -> (r: PrincipalSet)
        ensures
            r@ =~= Seq::<Seq<u8>>::empty(),
            r.wf(),
    {
        PrincipalSet { items: Vec::new() }
    }

    /// Membership test.
    pub fn contains(&self, p: &Principal) -> (r: bool)
        ensures
            r == self@.contains(p@),
    {
        let n = self.items.len();
        let mut i: usize = 0;
        while i < n
            invariant
                n == self.items@.len(),
                i <= n,
                forall|j: int| 0 <= j < i ==> self@[j] != p@,
            decreases n - i,
        {
            if self.items[i].equals(p) {
                assert(self@[i as int] == p@);
                return true;
            }
            i += 1;
        }
        assert(forall|j: int| 0 <= j < self@.len() ==> self@[j] != p@);
        assert(!self@.contains(p@));
        false
    }

    /// Adds an identity; reports whether the set changed.
    pub fn insert(&mut self, p: Principal) -> (changed: bool)
        requires
            old(self).wf(),
        ensures
            final(self).wf(),
            changed == !old(self)@.contains(p@),
            old(self)@.contains(p@) ==> final(self)@ == old(self)@,
            !old(self)@.contains(p@) ==> final(self)@ =~= old(self)@.push(p@),
            forall|x: Seq<u8>| final(self)@.contains(x) <==> (old(self)@.contains(x) || x == p@),
    {
        if self.contains(&p) {
            return false;
        }
        let ghost oldv = self@;
        self.items.push(p);
        proof {
            assert(self@ =~= oldv.push(p@));
            assert forall|x: Seq<u8>| self@.contains(x) implies (oldv.contains(x) || x == p@) by {
                let i = choose|i: int| 0 <= i < self@.len() && self@[i] == x;
                if i < oldv.len() {
                    assert(oldv[i] == x);
                }
            }
            assert forall|x: Seq<u8>| (oldv.contains(x) || x == p@) implies self@.contains(x) by {
                if oldv.contains(x) {
                    let i = choose|i: int| 0 <= i < oldv.len() && oldv[i] == x;
                    assert(self@[i] == x);
                } else {
                    assert(self@[oldv.len() as int] == p@);
                }
            }
            assert forall|i: int, j: int| 0 <= i < j < self@.len() implies self@[i] != self@[j] by {
                if j == oldv.len() {
                    assert(oldv[i] == self@[i]);
                }
            }
        }
        true
    }

    /// Removes an identity; reports whether the set changed.
    pub fn remove(&mut self, p: &Principal) -> (changed: bool)
        requires
            old(self).wf(),
        ensures
            final(self).wf(),
            changed == old(self)@.contains(p@),
            !old(self)@.contains(p@) ==> final(self)@ == old(self)@,
            forall|x: Seq<u8>| final(self)@.contains(x) <==> (old(self)@.contains(x) && x != p@),
    {
        let n = self.items.len();
        let mut i: usize = 0;
        while i < n
            invariant
                old(self) == self,
                n == self.items@.len(),
                i <= n,
                old(self).wf(),
                forall|j: int| 0 <= j < i ==> self@[j] != p@,
            decreases n - i,
        {
            if self.items[i].equals(p) {
                let ghost oldv = self@;
                let ghost ii = i as int;
                self.items.remove(i);
                proof {
                    assert(self@ =~= oldv.remove(ii));
                    assert(oldv[ii] == p@);
                    assert(oldv.contains(p@));
                    assert forall|x: Seq<u8>| self@.contains(x) implies (oldv.contains(x) && x
                        != p@) by {
                        let k = choose|k: int| 0 <= k < self@.len() && self@[k] == x;
                        if k < ii {
                            assert(oldv[k] == x);
                        } else {
                            assert(oldv[k + 1] == x);
                        }
                    }
                    assert forall|x: Seq<u8>| (oldv.contains(x) && x != p@) implies self@.contains(
                        x,
                    ) by {
                        let k = choose|k: int| 0 <= k < oldv.len() && oldv[k] == x;
                        if k < ii {
                            assert(self@[k] == x);
                        } else {
                            assert(k != ii);
                            assert(self@[k - 1] == x);
                        }
                    }
                    assert forall|a: int, b: int| 0 <= a < b < self@.len() implies self@[a]
                        != self@[b] by {
                        if b < ii {
                        } else if a < ii {
                            assert(self@[a] == oldv[a]);
                            assert(self@[b] == oldv[b + 1]);
                        } else {
                            assert(self@[a] == oldv[a + 1]);
                            assert(self@[b] == oldv[b + 1]);
                        }
                    }
                }
                return true;
            }
            i += 1;
        }
        proof {
            assert(forall|j: int| 0 <= j < self@.len() ==> self@[j] != p@);
            assert(!self@.contains(p@));
        }
        false
    }

    /// Empties the set.
    pub fn clear(&mut self)
        ensures
            final(self).wf(),
            final(self)@ =~= Seq::<Seq<u8>>::empty(),
    {
        self.items = Vec::new();
    }
}

/// The operator sets registered for one owner.
pub struct OperatorEntry {
    pub owner: Principal,
    pub operators: PrincipalSet,
}

impl View for OperatorEntry {
    type V = (Seq<u8>, Seq<Seq<u8>>);

    open spec fn view(&self) -> (Seq<u8>, Seq<Seq<u8>>) {
        (self.owner@, self.operators@)
    }
}

/// A collection: metadata, its token ledger and its permission state.
pub struct Collection {
    pub name: String,
    pub logo: Logo,
    pub symbol: String,
    pub nfts: Vec<Nft>,
    pub custodians: PrincipalSet,
    pub operators: Vec<OperatorEntry>,
}

/// Mathematical view of a [`Collection`].
#[verifier::ext_equal]
pub struct CollectionV {
    pub name: Seq<char>,
    pub logo: LogoV,
    pub symbol: Seq<char>,
    pub nfts: Seq<NftV>,
    pub custodians: Seq<Seq<u8>>,
    pub operators: Seq<(Seq<u8>, Seq<Seq<u8>>)>,
}

impl View for Collection {
    type V = CollectionV;

    open spec fn view(&self) -> CollectionV {
        CollectionV {
            name: self.name@,
            logo: self.logo@,
            symbol: self.symbol@,
            nfts: self.nfts@.map_values(|n: Nft| n@),
            custodians: self.custodians@,
            operators: self.operators@.map_values(|e: OperatorEntry| e@),
        }
    }
}

/// One collection under its id.
pub struct CollectionEntry {
    pub id: usize,
    pub collection: Collection,
}

impl View for CollectionEntry {
    type V = (usize, CollectionV);

    open spec fn view(&self) -> (usize, CollectionV) {
        (self.id, self.collection@)
    }
}

/// The arguments of a collection insertion.
pub struct InsertCollection {
    pub name: String,
    pub logo: Logo,
    pub symbol: String,
}

/// The whole registry: every collection, and the transaction counter.
pub struct State {
    pub collections: Vec<CollectionEntry>,
    pub txid: u128,
}

/// Mathematical view of the registry [`State`].
#[verifier::ext_equal]
pub struct StateV {
    pub collections: Seq<(usize, CollectionV)>,
    pub txid: u128,
}

impl View for State {
    type V = StateV;

    open spec fn view(&self) -> StateV {
        StateV {
            collections: self.collections@.map_values(|e: CollectionEntry| e@),
            txid: self.txid,
        }
    }
}

/// First-match lookup in an association sequence.
pub open spec fn plookup<K, V>(s: Seq<(K, V)>, k: K) -> Option<V>
    decreases s.len(),
{
    if s.len() == 0 {
        None
    } else if s[0].0 == k {
        Some(s[0].1)
    } else {
        plookup(s.drop_first(), k)
    }
}

/// First-match lookup of a token by id.
pub open spec fn lookup_nft(s: Seq<NftV>, id: u64) -> Option<NftV>
    decreases s.len(),
{
    if s.len() == 0 {
        None
    } else if s[0].id == id {
        Some(s[0])
    } else {
        lookup_nft(s.drop_first(), id)
    }
}

/// The operator set registered for `owner`, empty when none is.
pub open spec fn ops_of(os: Seq<(Seq<u8>, Seq<Seq<u8>>)>, owner: Seq<u8>) -> Seq<Seq<u8>> {
    match plookup(os, owner) {
        Some(s) => s,
        None => Seq::empty(),
    }
}

/// No key occurs twice.
pub open spec fn keys_unique<K, V>(s: Seq<(K, V)>) -> bool {
    forall|i: int, j: int| 0 <= i < j < s.len() ==> s[i].0 != s[j].0
}

/// No token id occurs twice.
pub open spec fn nft_ids_unique(s: Seq<NftV>) -> bool {
    forall|i: int, j: int| 0 <= i < j < s.len() ==> s[i].id != s[j].id
}

impl CollectionV {
    /// Well-formedness: ledger and permission state have distinct keys.
    pub open spec fn wf(self) -> bool {
        &&& nft_ids_unique(self.nfts)
        &&& distinct_ids(self.custodians)
        &&& keys_unique(self.operators)
        &&& forall|i: int| 0 <= i < self.operators.len() ==> distinct_ids(#[trigger] self.operators[i].1)
    }
}

impl StateV {
    /// Well-formedness: collection ids are distinct and every collection is
    /// well-formed.
    pub open spec fn wf(self) -> bool {
        &&& keys_unique(self.collections)
        &&& forall|i: int| 0 <= i < self.collections.len() ==> (#[trigger] self.collections[i].1).wf()
    }
}

impl State {
    pub open spec fn wf(self) -> bool {
        self@.wf()
    }

    /// A fresh registry: no collections, counter at zero.
    pub fn new() -> (r: State)
        ensures
            r@.collections =~= Seq::<(usize, CollectionV)>::empty(),
            r@.txid == 0,
            r.wf(),
    {
        State { collections: Vec::new(), txid: 0 }
    }
}


impl PrincipalSet {
    /// Decides whether the set holds no identity twice.
    pub fn check_distinct(&self) -> (r: bool)
        ensures
            r == distinct_ids(self@),
    {
        let n = self.items.len();
        let mut i: usize = 0;
        while i < n
            invariant
                n == self.items@.len(),
                i <= n,
                forall|a: int, b: int| 0 <= a < b < i ==> self@[a] != self@[b],
            decreases n - i,
        {
            let mut j: usize = 0;
            while j < i
                invariant
                    n == self.items@.len(),
                    j <= i < n,
                    forall|b: int| 0 <= b < j ==> self@[b] != self@[i as int],
                decreases i - j,
            {
                if self.items[j].equals(&self.items[i]) {
                    proof {
                        assert(self@[j as int] == self@[i as int]);
                        assert(!distinct_ids(self@));
                    }
                    return false;
                }
                j += 1;
            }
            proof {
                assert forall|a: int, b: int| 0 <= a < b < i + 1 implies self@[a] != self@[b] by {}
            }
            i += 1;
        }
        true
    }
}

impl Collection {
    /// Decides whether the collection is well-formed: distinct token ids,
    /// distinct custodians, distinct operator keys and distinct operator
    /// sets.
    pub fn check_wf(&self) -> (r: bool)
        ensures
            r == self@.wf(),
    {
        let n = self.nfts.len();
        let mut i: usize = 0;
        while i < n
            invariant
                n == self.nfts@.len(),
                i <= n,
                forall|a: int, b: int| 0 <= a < b < i ==> self@.nfts[a].id != self@.nfts[b].id,
            decreases n - i,
        {
            let mut j: usize = 0;
            while j < i
                invariant
                    n == self.nfts@.len(),
                    j <= i < n,
                    forall|b: int| 0 <= b < j ==> self@.nfts[b].id != self@.nfts[i as int].id,
                decreases i - j,
            {
                if self.nfts[j].id == self.nfts[i].id {
                    proof {
                        assert(self@.nfts[j as int].id == self@.nfts[i as int].id);
                        assert(!nft_ids_unique(self@.nfts));
                    }
                    return false;
                }
                j += 1;
            }
            proof {
                assert forall|a: int, b: int|
                    0 <= a < b < i + 1 implies self@.nfts[a].id != self@.nfts[b].id by {}
            }
            i += 1;
        }
        proof {
            assert(nft_ids_unique(self@.nfts));
        }
        if !self.custodians.check_distinct() {
            return false;
        }
        let m = self.operators.len();
        let mut k: usize = 0;
        while k < m
            invariant
                m == self.operators@.len(),
                k <= m,
                forall|a: int, b: int|
                    0 <= a < b < k ==> self@.operators[a].0 != self@.operators[b].0,
                forall|a: int| 0 <= a < k ==> distinct_ids(#[trigger] self@.operators[a].1),
            decreases m - k,
        {
            let mut j: usize = 0;
            while j < k
                invariant
                    m == self.operators@.len(),
                    j <= k < m,
                    forall|b: int| 0 <= b < j ==> self@.operators[b].0 != self@.operators[k as int].0,
                decreases k - j,
            {
                if self.operators[j].owner.equals(&self.operators[k].owner) {
                    proof {
                        assert(self@.operators[j as int].0 == self@.operators[k as int].0);
                        assert(!keys_unique(self@.operators));
                    }
                    return false;
                }
                j += 1;
            }
            if !self.operators[k].operators.check_distinct() {
                proof {
                    assert(!distinct_ids(self@.operators[k as int].1));
                }
                return false;
            }
            proof {
                assert forall|a: int, b: int|
                    0 <= a < b < k + 1 implies self@.operators[a].0 != self@.operators[b].0 by {}
            }
            k += 1;
        }
        proof {
            assert(keys_unique(self@.operators));
        }
        true
    }
}

impl State {
    /// Decides whether the registry is well-formed: distinct collection ids
    /// and every collection well-formed.
    pub fn check_wf(&self) -> (r: bool)
        ensures
            r == self.wf(),
    {
        let n = self.collections.len();
        let mut i: usize = 0;
        while i < n
            invariant
                n == self.collections@.len(),
                i <= n,
                forall|a: int, b: int|
                    0 <= a < b < i ==> self@.collections[a].0 != self@.collections[b].0,
                forall|a: int| 0 <= a < i ==> (#[trigger] self@.collections[a].1).wf(),
            decreases n - i,
        {
            let mut j: usize = 0;
            while j < i
                invariant
                    n == self.collections@.len(),
                    j <= i < n,
                    forall|b: int|
                        0 <= b < j ==> self@.collections[b].0 != self@.collections[i as int].0,
                decreases i - j,
            {
                if self.collections[j].id == self.collections[i].id {
                    proof {
                        assert(self@.collections[j as int].0 == self@.collections[i as int].0);
                        assert(!keys_unique(self@.collections));
                    }
                    return false;
                }
                j += 1;
            }
            if !self.collections[i].collection.check_wf() {
                proof {
                    assert(!(self@.collections[i as int].1).wf());
                }
                return false;
            }
            proof {
                assert forall|a: int, b: int|
                    0 <= a < b < i + 1 implies self@.collections[a].0 != self@.collections[b].0 by {}
            }
            i += 1;
        }
        proof {
            assert(keys_unique(self@.collections));
        }
        true
    }
}

/// A lookup finds the first entry carrying its key.
pub proof fn lemma_plookup_first<K, V>(s: Seq<(K, V)>, k: K, i: int)
    requires
        0 <= i < s.len(),
        s[i].0 == k,
        forall|j: int| 0 <= j < i ==> s[j].0 != k,
    ensures
        plookup(s, k) == Some(s[i].1),
    decreases i,
{
    if i > 0 {
        assert(s.drop_first()[i - 1] == s[i]);
        assert forall|j: int| 0 <= j < i - 1 implies s.drop_first()[j].0 != k by {
            assert(s.drop_first()[j] == s[j + 1]);
        }
        lemma_plookup_first(s.drop_first(), k, i - 1);
    }
}

/// A lookup of an absent key finds nothing.
pub proof fn lemma_plookup_none<K, V>(s: Seq<(K, V)>, k: K)
    requires
        forall|j: int| 0 <= j < s.len() ==> s[j].0 != k,
    ensures
        plookup(s, k) == None::<V>,
    decreases s.len(),
{
    if s.len() > 0 {
        assert forall|j: int| 0 <= j < s.drop_first().len() implies s.drop_first()[j].0 != k by {
            assert(s.drop_first()[j] == s[j + 1]);
        }
        lemma_plookup_none(s.drop_first(), k);
    }
}

/// Replacing the value at the first entry of a key rewrites that key's
/// lookup and no other.
pub proof fn lemma_plookup_update<K, V>(s: Seq<(K, V)>, i: int, v: V, k2: K)
    requires
        0 <= i < s.len(),
        forall|j: int| 0 <= j < i ==> s[j].0 != s[i].0,
    ensures
        k2 == s[i].0 ==> plookup(s.update(i, (s[i].0, v)), k2) == Some(v),
        k2 != s[i].0 ==> plookup(s.update(i, (s[i].0, v)), k2) == plookup(s, k2),
    decreases i,
{
    let t = s.update(i, (s[i].0, v));
    if i == 0 {
        if s[0].0 != k2 {
            assert(t.drop_first() =~= s.drop_first());
        }
    } else {
        assert(t[0] == s[0]);
        if s[0].0 == k2 {
        } else {
            assert(t.drop_first() =~= s.drop_first().update(i - 1, (s[i].0, v)));
            assert(s.drop_first()[i - 1] == s[i]);
            assert forall|j: int| 0 <= j < i - 1 implies (#[trigger] s.drop_first()[j]).0 != s.drop_first()[i - 1].0 by {
                assert(s.drop_first()[j] == s[j + 1]);
            }
            lemma_plookup_update(s.drop_first(), i - 1, v, k2);
        }
    }
}

/// Appending an entry under a fresh key adds that key's lookup and changes
/// no other.
pub proof fn lemma_plookup_push<K, V>(s: Seq<(K, V)>, k: K, v: V, k2: K)
    requires
        forall|j: int| 0 <= j < s.len() ==> s[j].0 != k,
    ensures
        k2 == k ==> plookup(s.push((k, v)), k2) == Some(v),
        k2 != k ==> plookup(s.push((k, v)), k2) == plookup(s, k2),
    decreases s.len(),
{
    let t = s.push((k, v));
    assert(t.len() == s.len() + 1);
    assert(t[s.len() as int] == (k, v));
    if s.len() == 0 {
        assert(t[0] == (k, v));
        assert(t.drop_first() =~= Seq::<(K, V)>::empty());
        if k2 != k {
            assert(plookup(t, k2) == plookup(t.drop_first(), k2));
            assert(plookup(t.drop_first(), k2) == None::<V>);
            assert(plookup(s, k2) == None::<V>);
        }
    } else {
        assert(t[0] == s[0]);
        if s[0].0 == k2 {
            assert(plookup(t, k2) == Some(t[0].1));
            assert(plookup(s, k2) == Some(s[0].1));
        } else {
            assert(t.drop_first() =~= s.drop_first().push((k, v)));
            assert forall|j: int| 0 <= j < s.drop_first().len() implies (#[trigger] s.drop_first()[j]).0
                != k by {
                assert(s.drop_first()[j] == s[j + 1]);
            }
            lemma_plookup_push(s.drop_first(), k, v, k2);
            assert(plookup(t, k2) == plookup(t.drop_first(), k2));
        }
    }
}


/// Any index's key is found by some lookup.
pub proof fn lemma_plookup_some_of_index<K, V>(s: Seq<(K, V)>, i: int)
    requires
        0 <= i < s.len(),
    ensures
        plookup(s, s[i].0) is Some,
    decreases i,
{
    if i > 0 && s[0].0 != s[i].0 {
        assert(s.drop_first()[i - 1] == s[i]);
        lemma_plookup_some_of_index(s.drop_first(), i - 1);
    }
}

/// A key that no lookup finds occurs at no index.
pub proof fn lemma_plookup_none_keys<K, V>(s: Seq<(K, V)>, k: K)
    requires
        plookup(s, k) == None::<V>,
    ensures
        forall|j: int| 0 <= j < s.len() ==> (#[trigger] s[j]).0 != k,
{
    assert forall|j: int| 0 <= j < s.len() implies (#[trigger] s[j]).0 != k by {
        if s[j].0 == k {
            lemma_plookup_some_of_index(s, j);
        }
    }
}

/// A token lookup finds the first record carrying its id.
pub proof fn lemma_lookup_nft_first(s: Seq<NftV>, id: u64, i: int)
    requires
        0 <= i < s.len(),
        s[i].id == id,
        forall|j: int| 0 <= j < i ==> s[j].id != id,
    ensures
        lookup_nft(s, id) == Some(s[i]),
    decreases i,
{
    if i > 0 {
        assert(s.drop_first()[i - 1] == s[i]);
        assert forall|j: int| 0 <= j < i - 1 implies s.drop_first()[j].id != id by {
            assert(s.drop_first()[j] == s[j + 1]);
        }
        lemma_lookup_nft_first(s.drop_first(), id, i - 1);
    }
}

/// A token lookup of an absent id finds nothing.
pub proof fn lemma_lookup_nft_none(s: Seq<NftV>, id: u64)
    requires
        forall|j: int| 0 <= j < s.len() ==> s[j].id != id,
    ensures
        lookup_nft(s, id) == None::<NftV>,
    decreases s.len(),
{
    if s.len() > 0 {
        assert forall|j: int| 0 <= j < s.drop_first().len() implies s.drop_first()[j].id != id by {
            assert(s.drop_first()[j] == s[j + 1]);
        }
        lemma_lookup_nft_none(s.drop_first(), id);
    }
}

/// Replacing the first record of an id rewrites that id's lookup and no
/// other, provided the replacement keeps the id.
pub proof fn lemma_lookup_nft_update(s: Seq<NftV>, i: int, n: NftV, id2: u64)
    requires
        0 <= i < s.len(),
        n.id == s[i].id,
        forall|j: int| 0 <= j < i ==> s[j].id != s[i].id,
    ensures
        id2 == s[i].id ==> lookup_nft(s.update(i, n), id2) == Some(n),
        id2 != s[i].id ==> lookup_nft(s.update(i, n), id2) == lookup_nft(s, id2),
    decreases i,
{
    let t = s.update(i, n);
    if i == 0 {
        if s[0].id != id2 {
            assert(t.drop_first() =~= s.drop_first());
        }
    } else {
        assert(t[0] == s[0]);
        if s[0].id == id2 {
        } else {
            assert(t.drop_first() =~= s.drop_first().update(i - 1, n));
            assert(s.drop_first()[i - 1] == s[i]);
            assert forall|j: int| 0 <= j < i - 1 implies (#[trigger] s.drop_first()[j]).id != s.drop_first()[i - 1].id by {
                assert(s.drop_first()[j] == s[j + 1]);
            }
            lemma_lookup_nft_update(s.drop_first(), i - 1, n, id2);
        }
    }
}

} // verus!
