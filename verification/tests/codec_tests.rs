use nfts_backend::codec::{decode_state, encode_state};
use nfts_backend::ident::Principal;
use nfts_backend::model::{
    Collection, CollectionEntry, Logo, LogoExtension, MetadataEntry, MetadataPart,
    MetadataPurpose, MetadataValue, Nft, OperatorEntry, PrincipalSet, State,
};

fn p(b: u8) -> Principal {
    Principal::from_bytes(vec![b])
}

/// A registry exercising every part of the format: several collections,
/// tokens with approvals and metadata of every value kind, custodians,
/// operators, and a non-ASCII name.
fn rich_state() -> State {
    let x = p(1);
    let y = p(2);
    State {
        collections: vec![
            CollectionEntry {
                id: 1,
                collection: Collection {
                    name: String::from("galérie ✓"),
                    logo: Logo { extension: LogoExtension::Jpeg, data: vec![255, 216, 255] },
                    symbol: String::from("GAL"),
                    nfts: vec![
                        Nft {
                            id: 7,
                            owner: x.duplicate(),
                            approved: Some(y.duplicate()),
                            metadata: vec![MetadataPart {
                                purpose: MetadataPurpose::Preview,
                                key_val_data: vec![
                                    MetadataEntry {
                                        key: String::from("title"),
                                        value: MetadataValue::Text(String::from("señal")),
                                    },
                                    MetadataEntry {
                                        key: String::from("raw"),
                                        value: MetadataValue::Blob(vec![0, 1, 2]),
                                    },
                                    MetadataEntry {
                                        key: String::from("b"),
                                        value: MetadataValue::Nat8(8),
                                    },
                                    MetadataEntry {
                                        key: String::from("w"),
                                        value: MetadataValue::Nat16(1600),
                                    },
                                    MetadataEntry {
                                        key: String::from("d"),
                                        value: MetadataValue::Nat32(70000),
                                    },
                                    MetadataEntry {
                                        key: String::from("q"),
                                        value: MetadataValue::Nat64(1 << 40),
                                    },
                                    MetadataEntry {
                                        key: String::from("n"),
                                        value: MetadataValue::Nat(1 << 100),
                                    },
                                ],
                                data: vec![42],
                            }],
                            content: vec![5, 6, 7],
                        },
                        Nft {
                            id: 9,
                            owner: y.duplicate(),
                            approved: None,
                            metadata: vec![],
                            content: vec![],
                        },
                    ],
                    custodians: PrincipalSet { items: vec![p(10), p(11)] },
                    operators: vec![OperatorEntry {
                        owner: x.duplicate(),
                        operators: PrincipalSet { items: vec![p(20), p(21)] },
                    }],
                },
            },
            CollectionEntry {
                id: 2,
                collection: Collection {
                    name: String::new(),
                    logo: Logo { extension: LogoExtension::Png, data: vec![] },
                    symbol: String::new(),
                    nfts: vec![],
                    custodians: PrincipalSet { items: vec![] },
                    operators: vec![],
                },
            },
        ],
        txid: 123456789012345678901234567890,
    }
}

#[test]
fn round_trip_reproduces_the_registry() {
    let st = rich_state();
    let blob = encode_state(&st);
    let back = decode_state(blob.as_slice()).expect("a valid blob decodes");
    // the counter survives exactly
    assert_eq!(back.txid, st.txid);
    // the collections survive: compare through the public surface
    assert_eq!(back.name_of_collection(1), Some(String::from("galérie ✓")));
    assert_eq!(back.symbol_of_collection(1), Some(String::from("GAL")));
    assert_eq!(back.name_of_collection(2), Some(String::new()));
    let l = back.logo_of_collection(1).unwrap();
    assert!(matches!(l.extension, LogoExtension::Jpeg));
    assert_eq!(l.data, vec![255, 216, 255]);
    assert!(back.owner_of_nft(1, 7).unwrap().equals(&p(1)));
    assert!(back.owner_of_nft(1, 9).unwrap().equals(&p(2)));
    assert_eq!(back.total_supply(), 2);
    assert_eq!(back.is_custodian_of_collection(1, &p(10)), Ok(true));
    assert_eq!(back.is_custodian_of_collection(1, &p(12)), Ok(false));
    assert_eq!(back.is_approved_for_all(1, &p(20), &p(1)), Ok(true));
    assert_eq!(back.is_approved_for_all(1, &p(20), &p(2)), Ok(false));
    // the approval and metadata survive structurally
    let n = &back.collections[0].collection.nfts[0];
    assert!(n.approved.as_ref().unwrap().equals(&p(2)));
    assert_eq!(n.metadata.len(), 1);
    assert_eq!(n.metadata[0].key_val_data.len(), 7);
    assert_eq!(n.metadata[0].key_val_data[0].key, "title");
    match &n.metadata[0].key_val_data[0].value {
        MetadataValue::Text(t) => assert_eq!(t, "señal"),
        _ => panic!("wrong value kind"),
    }
    match &n.metadata[0].key_val_data[6].value {
        MetadataValue::Nat(v) => assert_eq!(*v, 1 << 100),
        _ => panic!("wrong value kind"),
    }
    assert_eq!(n.content, vec![5, 6, 7]);
}

#[test]
fn decoding_rejects_garbage_and_truncation() {
    assert!(decode_state(&[]).is_none());
    assert!(decode_state(&[1, 2, 3]).is_none());
    let st = rich_state();
    let blob = encode_state(&st);
    // a truncated blob is refused
    assert!(decode_state(&blob[..blob.len() - 1]).is_none());
    // trailing bytes are refused
    let mut long = blob.clone();
    long.push(0);
    assert!(decode_state(long.as_slice()).is_none());
}

#[test]
fn decoding_rejects_duplicate_keys() {
    // two collections under the same id cannot come from a well-formed
    // registry; the decoder refuses the blob
    let dup = State {
        collections: vec![
            CollectionEntry {
                id: 1,
                collection: Collection {
                    name: String::from("a"),
                    logo: Logo { extension: LogoExtension::Png, data: vec![] },
                    symbol: String::new(),
                    nfts: vec![],
                    custodians: PrincipalSet { items: vec![] },
                    operators: vec![],
                },
            },
            CollectionEntry {
                id: 1,
                collection: Collection {
                    name: String::from("b"),
                    logo: Logo { extension: LogoExtension::Png, data: vec![] },
                    symbol: String::new(),
                    nfts: vec![],
                    custodians: PrincipalSet { items: vec![] },
                    operators: vec![],
                },
            },
        ],
        txid: 0,
    };
    let blob = encode_state(&dup);
    assert!(decode_state(blob.as_slice()).is_none());
}

#[test]
fn restore_merges_and_overwrites_counter() {
    let mut fresh = State::new();
    let id = fresh.insert_collection(nfts_backend::model::InsertCollection {
        name: String::from("local"),
        logo: Logo { extension: LogoExtension::Png, data: vec![] },
        symbol: String::from("LOC"),
    });
    assert_eq!(id, 1);
    let restored = rich_state();
    fresh.restore(restored);
    // the restored counter wins
    assert_eq!(fresh.txid, 123456789012345678901234567890);
    // a clashing id is overwritten by the restored collection
    assert_eq!(fresh.name_of_collection(1), Some(String::from("galérie ✓")));
    assert_eq!(fresh.name_of_collection(2), Some(String::new()));
    assert!(fresh.owner_of_nft(1, 7).unwrap().equals(&p(1)));
}

#[test]
fn upgrade_cycle_through_blob() {
    // the shape of a process replacement: serialize, start fresh, restore
    let mut before = rich_state();
    assert_eq!(before.set_approval_for_all(1, &p(30), true, &p(1)).is_ok(), true);
    let blob = encode_state(&before);
    let mut after = State::new();
    let restored = decode_state(blob.as_slice()).expect("own blob decodes");
    after.restore(restored);
    assert_eq!(after.txid, before.txid);
    assert_eq!(after.is_approved_for_all(1, &p(30), &p(1)), Ok(true));
    assert_eq!(after.balance_of_user(1, &p(2)), 1);
}
