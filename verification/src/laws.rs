//! Registry-wide laws, stated over the same spec functions the operation
//! contracts use.

use vstd::prelude::*;

use crate::ident::anonymous_bytes;
use crate::model::{lookup_nft, plookup, NftV, StateV};
use crate::registry::{spec_operator_after, transfer_allowed, transfer_outcome};

verus! {

/// Whether a token is owned by a real identity.
pub open spec fn owned_by_real(n: NftV) -> bool {
    n.owner != anonymous_bytes()
}

/// Whether a token is burned, that is, owned by the reserved null identity.
pub open spec fn burned(n: NftV) -> bool {
    n.owner == anonymous_bytes()
}

/// Every token is owned by exactly one identity, and is therefore owned by
/// a real identity exactly when it is not owned by the reserved null
/// identity: never both, never neither.
pub proof fn lemma_ownership_partition(n: NftV)
    ensures
        owned_by_real(n) <==> !burned(n),
        !(owned_by_real(n) && burned(n)),
        owned_by_real(n) || burned(n),
{
}

/// In any registry, every token of every collection is owned by exactly
/// one of: a real identity, or the reserved null identity.
pub proof fn lemma_ownership_partition_everywhere(sv: StateV)
    ensures
        forall|i: int, j: int|
            0 <= i < sv.collections.len() && 0 <= j < sv.collections[i].1.nfts.len() ==> (
            owned_by_real(#[trigger] sv.collections[i].1.nfts[j]) <==> !burned(
                sv.collections[i].1.nfts[j],
            )),
{
}

/// A transfer succeeds exactly when the destination is not the null
/// identity, the collection and token exist, the caller is owner, approved
/// spender, operator for `from`, or custodian, and `from` is the token's
/// actual current owner; the receipt is the strictly increased transaction
/// counter.
pub proof fn lemma_transfer_succeeds_iff(
    sv: StateV,
    collection_id: usize,
    token_id: u64,
    from: Seq<u8>,
    to: Seq<u8>,
    caller: Seq<u8>,
)
    ensures
        (transfer_outcome(sv, collection_id, token_id, from, to, caller) is Ok) <==> ({
            &&& to != anonymous_bytes()
            &&& match plookup(sv.collections, collection_id) {
                Some(c) => match lookup_nft(c.nfts, token_id) {
                    Some(n) => transfer_allowed(c, n, from, caller) && n.owner == from,
                    None => false,
                },
                None => false,
            }
        }),
        (transfer_outcome(sv, collection_id, token_id, from, to, caller) is Ok)
            ==> transfer_outcome(sv, collection_id, token_id, from, to, caller) == Ok::<
            u128,
            crate::model::Error,
        >((sv.txid + 1) as u128),
{
}

/// A burned token is unowned by any real identity: a transfer that names a
/// real identity as the current owner can never succeed, whoever calls it
/// and wherever it would send the token.  (Naming the null identity as
/// `from` is left aside: it matches the stored owner, so only the other
/// checks apply to it.)
pub proof fn lemma_burned_token_refuses_transfer(
    sv: StateV,
    collection_id: usize,
    token_id: u64,
    from: Seq<u8>,
    to: Seq<u8>,
    caller: Seq<u8>,
)
    requires
        match plookup(sv.collections, collection_id) {
            Some(c) => match lookup_nft(c.nfts, token_id) {
                Some(n) => burned(n),
                None => false,
            },
            None => false,
        },
        from != anonymous_bytes(),
    ensures
        transfer_outcome(sv, collection_id, token_id, from, to, caller) is Err,
{
}

/// Granting operator rights to the anonymous identity never changes the
/// caller's operator set; revoking them from the anonymous identity always
/// empties it.
pub proof fn lemma_anonymous_operator_rules(
    before: Seq<Seq<u8>>,
    caller: Seq<u8>,
    x: Seq<u8>,
)
    requires
        caller != anonymous_bytes(),
    ensures
        spec_operator_after(before, anonymous_bytes(), true, caller, x) == before.contains(x),
        !spec_operator_after(before, anonymous_bytes(), false, caller, x),
{
}

} // verus!
