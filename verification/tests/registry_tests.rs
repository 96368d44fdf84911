use nfts_backend::ident::Principal;
use nfts_backend::model::{
    Collection, CollectionEntry, Error, InsertCollection, Interface, Logo, LogoExtension,
    MetadataEntry, MetadataPart, MetadataPurpose, MetadataValue, Nft, OperatorEntry, PrincipalSet,
    State,
};
use nfts_backend::registry::supported_interfaces;

fn p(b: u8) -> Principal {
    Principal::from_bytes(vec![b])
}

fn logo() -> Logo {
    Logo { extension: LogoExtension::Png, data: vec![1, 2, 3] }
}

fn nft(id: u64, owner: &Principal) -> Nft {
    Nft {
        id,
        owner: owner.duplicate(),
        approved: None,
        metadata: vec![],
        content: vec![9, 9],
    }
}

/// A state with one collection (id 1) holding token 7 owned by `x`, with
/// custodian `c`.
fn seeded(x: &Principal, c: &Principal) -> State {
    State {
        collections: vec![CollectionEntry {
            id: 1,
            collection: Collection {
                name: String::from("gallery"),
                logo: logo(),
                symbol: String::from("GAL"),
                nfts: vec![nft(7, x)],
                custodians: PrincipalSet { items: vec![c.duplicate()] },
                operators: vec![],
            },
        }],
        txid: 0,
    }
}

#[test]
fn insert_collection_assigns_sequential_ids() {
    let mut st = State::new();
    let id1 = st.insert_collection(InsertCollection {
        name: String::from("one"),
        logo: logo(),
        symbol: String::from("ONE"),
    });
    assert_eq!(id1, 1);
    let id2 = st.insert_collection(InsertCollection {
        name: String::from("two"),
        logo: logo(),
        symbol: String::from("TWO"),
    });
    assert_eq!(id2, 2);
    assert_eq!(st.name_of_collection(1), Some(String::from("one")));
    assert_eq!(st.symbol_of_collection(2), Some(String::from("TWO")));
    assert_eq!(st.name_of_collection(3), None);
    assert_eq!(st.total_supply_of_collection(1), Some(0));
    assert_eq!(st.total_supply_of_collection(9), None);
    assert_eq!(st.total_supply(), 0);
    // creating a collection does not advance the counter and does not make
    // the creator a custodian
    assert_eq!(st.txid, 0);
    assert_eq!(st.is_custodian_of_collection(1, &p(1)), Ok(false));
}

#[test]
fn custodian_grant_requires_custodian() {
    let a = p(10);
    let b = p(11);
    let x = p(1);
    let mut st = seeded(&x, &a);
    // a non-custodian may not grant custodianship
    assert_eq!(st.insert_custodian_into_collection(1, b.duplicate(), &b), Err(Error::Unauthorized));
    // the seeded custodian may; the first grant changes the set
    assert_eq!(st.insert_custodian_into_collection(1, b.duplicate(), &a), Ok(true));
    // a second identical grant does not
    assert_eq!(st.insert_custodian_into_collection(1, b.duplicate(), &a), Ok(false));
    assert_eq!(st.is_custodian_of_collection(1, &b), Ok(true));
    // removal mirrors insertion
    assert_eq!(st.remove_custodian_from_collection(1, &b, &a), Ok(true));
    assert_eq!(st.remove_custodian_from_collection(1, &b, &a), Ok(false));
    assert_eq!(st.is_custodian_of_collection(1, &b), Ok(false));
    // unknown collection id
    assert_eq!(st.insert_custodian_into_collection(2, b.duplicate(), &a), Err(Error::NotFound));
    assert_eq!(st.is_custodian_of_collection(2, &b), Err(Error::NotFound));
}

#[test]
fn transfer_authorization_and_effects() {
    let x = p(1);
    let y = p(2);
    let z = p(3);
    let c = p(10);
    let mut st = seeded(&x, &c);
    // a stranger may not transfer
    assert_eq!(st.transfer_from_to(1, 7, &x, &z, &y), Err(Error::Unauthorized));
    // the owner may; the counter advances by one
    assert_eq!(st.transfer_from_to(1, 7, &x, &z, &x), Ok(1));
    let owner = st.owner_of_nft(1, 7).unwrap();
    assert!(owner.equals(&z));
    assert_eq!(st.txid, 1);
}

#[test]
fn transfer_rejects_bad_destination_and_ids() {
    let x = p(1);
    let c = p(10);
    let anon = Principal::anonymous();
    let mut st = seeded(&x, &c);
    assert_eq!(st.transfer_from_to(1, 7, &x, &anon, &x), Err(Error::InvalidDestination));
    assert_eq!(st.transfer_from_to(2, 7, &x, &p(3), &x), Err(Error::NotFound));
    assert_eq!(st.transfer_from_to(1, 8, &x, &p(3), &x), Err(Error::NotFound));
    // a wrong `from` is a distinct error from a failed authorization
    assert_eq!(st.transfer_from_to(1, 7, &p(4), &p(3), &x), Err(Error::OwnerMismatch));
    // nothing changed and the counter did not advance
    assert_eq!(st.txid, 0);
    assert!(st.owner_of_nft(1, 7).unwrap().equals(&x));
}

#[test]
fn approval_grants_transfer_rights_and_is_cleared() {
    let x = p(1);
    let w = p(2);
    let z = p(3);
    let c = p(10);
    let mut st = seeded(&x, &c);
    // a stranger may not approve
    assert_eq!(st.approve(1, 7, &w, &w), Err(Error::Unauthorized));
    // the owner approves w
    assert_eq!(st.approve(1, 7, &w, &x), Ok(1));
    // the approved spender can transfer
    assert_eq!(st.transfer_from_to(1, 7, &x, &z, &w), Ok(2));
    assert!(st.owner_of_nft(1, 7).unwrap().equals(&z));
    // the transfer cleared the approval: w is a stranger again
    assert_eq!(st.transfer_from_to(1, 7, &z, &w, &w), Err(Error::Unauthorized));
    assert_eq!(st.approve(1, 9, &w, &x), Err(Error::NotFound));
}

#[test]
fn custodian_may_transfer_any_token() {
    let x = p(1);
    let z = p(3);
    let c = p(10);
    let mut st = seeded(&x, &c);
    assert_eq!(st.transfer_from_to(1, 7, &x, &z, &c), Ok(1));
    assert!(st.owner_of_nft(1, 7).unwrap().equals(&z));
}

#[test]
fn operator_may_transfer_for_owner() {
    let x = p(1);
    let o = p(2);
    let z = p(3);
    let c = p(10);
    let mut st = seeded(&x, &c);
    // x registers o as an operator; the counter advances
    assert_eq!(st.set_approval_for_all(1, &o, true, &x), Ok(1));
    assert_eq!(st.is_approved_for_all(1, &o, &x), Ok(true));
    // the operator transfers on x's behalf
    assert_eq!(st.transfer_from_to(1, 7, &x, &z, &o), Ok(2));
    assert!(st.owner_of_nft(1, 7).unwrap().equals(&z));
}

#[test]
fn burn_only_by_owner_and_is_terminal() {
    let x = p(1);
    let y = p(2);
    let c = p(10);
    let anon = Principal::anonymous();
    let mut st = seeded(&x, &c);
    // neither a stranger nor a custodian may burn
    assert_eq!(st.burn(1, 7, &y), Err(Error::Unauthorized));
    assert_eq!(st.burn(1, 7, &c), Err(Error::Unauthorized));
    assert_eq!(st.burn(2, 7, &x), Err(Error::NotFound));
    // the owner burns; ownership passes to the anonymous identity
    assert_eq!(st.burn(1, 7, &x), Ok(1));
    assert!(st.owner_of_nft(1, 7).unwrap().equals(&anon));
    // the record remains
    assert_eq!(st.total_supply_of_collection(1), Some(1));
    // a transfer naming the old owner now fails
    assert_eq!(st.transfer_from_to(1, 7, &x, &p(3), &x), Err(Error::Unauthorized));
    assert_eq!(st.transfer_from_to(1, 7, &x, &p(3), &c), Err(Error::OwnerMismatch));
}

#[test]
fn set_approval_for_all_anonymous_rules() {
    let x = p(1);
    let o1 = p(2);
    let o2 = p(3);
    let c = p(10);
    let anon = Principal::anonymous();
    let mut st = seeded(&x, &c);
    assert_eq!(st.set_approval_for_all(1, &o1, true, &x), Ok(1));
    assert_eq!(st.set_approval_for_all(1, &o2, true, &x), Ok(2));
    // granting to the anonymous identity is a no-op, but advances the counter
    assert_eq!(st.set_approval_for_all(1, &anon, true, &x), Ok(3));
    assert_eq!(st.is_approved_for_all(1, &o1, &x), Ok(true));
    assert_eq!(st.is_approved_for_all(1, &o2, &x), Ok(true));
    // revoking from the anonymous identity empties the whole set
    assert_eq!(st.set_approval_for_all(1, &anon, false, &x), Ok(4));
    assert_eq!(st.is_approved_for_all(1, &o1, &x), Ok(false));
    assert_eq!(st.is_approved_for_all(1, &o2, &x), Ok(false));
    // self-approval is silently ignored, counter still advances
    assert_eq!(st.set_approval_for_all(1, &x, true, &x), Ok(5));
    assert_eq!(st.is_approved_for_all(1, &x, &x), Ok(false));
    // removing a single operator
    assert_eq!(st.set_approval_for_all(1, &o1, true, &x), Ok(6));
    assert_eq!(st.set_approval_for_all(1, &o1, false, &x), Ok(7));
    assert_eq!(st.is_approved_for_all(1, &o1, &x), Ok(false));
    // the read is keyed by the caller's own identity
    assert_eq!(st.set_approval_for_all(1, &o1, true, &x), Ok(8));
    assert_eq!(st.is_approved_for_all(1, &o1, &o2), Ok(false));
    assert_eq!(st.is_approved_for_all(2, &o1, &x), Err(Error::NotFound));
    assert_eq!(st.set_approval_for_all(2, &o1, true, &x), Err(Error::NotFound));
}

#[test]
fn balances_and_supplies() {
    let x = p(1);
    let y = p(2);
    let c = p(10);
    let mut st = seeded(&x, &c);
    st.collections[0].collection.nfts.push(nft(8, &x));
    st.collections[0].collection.nfts.push(nft(9, &y));
    assert_eq!(st.balance_of_user(1, &x), 2);
    assert_eq!(st.balance_of_user(1, &y), 1);
    assert_eq!(st.balance_of_user(1, &p(5)), 0);
    assert_eq!(st.balance_of_user(4, &x), 0);
    assert_eq!(st.total_supply_of_collection(1), Some(3));
    assert_eq!(st.total_supply(), 3);
    assert!(st.owner_of_nft(1, 9).unwrap().equals(&y));
    assert_eq!(st.owner_of_nft(1, 10).is_none(), true);
}

#[test]
fn set_metadata_accessors_require_custodian() {
    let x = p(1);
    let c = p(10);
    let mut st = seeded(&x, &c);
    assert_eq!(
        st.set_name_of_collection(1, String::from("renamed"), &x),
        Err(Error::Unauthorized)
    );
    assert_eq!(st.set_name_of_collection(9, String::from("renamed"), &c), Err(Error::NotFound));
    assert_eq!(st.set_name_of_collection(1, String::from("renamed"), &c), Ok(()));
    assert_eq!(st.name_of_collection(1), Some(String::from("renamed")));
    assert_eq!(st.set_symbol_of_collection(1, String::from("RNM"), &c), Ok(()));
    assert_eq!(st.symbol_of_collection(1), Some(String::from("RNM")));
    let new_logo = Logo { extension: LogoExtension::Jpeg, data: vec![7] };
    assert_eq!(st.set_logo_of_collection(1, new_logo, &c), Ok(()));
    let got = st.logo_of_collection(1).unwrap();
    assert!(matches!(got.extension, LogoExtension::Jpeg));
    assert_eq!(got.data, vec![7]);
    // none of these advance the counter
    assert_eq!(st.txid, 0);
}

#[test]
fn next_txid_is_strictly_increasing() {
    let mut st = State::new();
    assert_eq!(st.next_txid(), 1);
    assert_eq!(st.next_txid(), 2);
    assert_eq!(st.txid, 2);
}

#[test]
fn supported_interfaces_lists_capabilities() {
    let v = supported_interfaces();
    assert_eq!(v.len(), 3);
    assert!(matches!(v[0], Interface::Approval));
    assert!(matches!(v[1], Interface::TransferNotification));
    assert!(matches!(v[2], Interface::Burn));
}

#[test]
fn metadata_is_stored_with_token() {
    let x = p(1);
    let c = p(10);
    let mut st = seeded(&x, &c);
    st.collections[0].collection.nfts[0].metadata.push(MetadataPart {
        purpose: MetadataPurpose::Rendered,
        key_val_data: vec![MetadataEntry {
            key: String::from("width"),
            value: MetadataValue::Nat16(512),
        }],
        data: vec![1],
    });
    assert_eq!(st.collections[0].collection.nfts[0].metadata.len(), 1);
    // an operator entry can be held directly too
    st.collections[0].collection.operators.push(OperatorEntry {
        owner: x.duplicate(),
        operators: PrincipalSet { items: vec![p(2)] },
    });
    assert_eq!(st.is_approved_for_all(1, &p(2), &x), Ok(true));
}
