use std::cell::Cell;
use std::rc::Rc;

use sube::codec::{Registry, TypeDef, Value};
use sube::meta::{
    normalize, EntryKind, Metadata, Pallet, RawCurrent, RawCurrentEntry, RawCurrentKind,
    RawCurrentPallet, RawLegacyEntry, RawLegacyKind, RawLegacyPallet, RawMetadata, StorageEntry,
};
use sube::{Backend, Error, StorageKey, Sube};

struct FakeBackend {
    meta: Metadata,
    stored: Vec<(Vec<u8>, Vec<u8>)>,
    meta_calls: Rc<Cell<u32>>,
    query_calls: Rc<Cell<u32>>,
}

impl Backend for FakeBackend {
    fn query_bytes(&self, key: &StorageKey) -> Result<Vec<u8>, Error> {
        self.query_calls.set(self.query_calls.get() + 1);
        for (k, v) in &self.stored {
            if k == &key.0 {
                return Ok(v.clone());
            }
        }
        // an absent key is a valid chain state: an empty result
        Ok(Vec::new())
    }

    fn submit(&self, _ext: &[u8]) -> Result<(), Error> {
        Ok(())
    }

    fn metadata(&self) -> Result<Metadata, Error> {
        self.meta_calls.set(self.meta_calls.get() + 1);
        Ok(self.meta.clone())
    }
}

fn system_number_meta() -> Metadata {
    Metadata {
        pallets: vec![Pallet {
            name: b"System".to_vec(),
            entries: vec![StorageEntry {
                name: b"Number".to_vec(),
                kind: EntryKind::Plain { value_ty: 0 },
            }],
        }],
        registry: Registry {
            types: vec![TypeDef::U32],
        },
    }
}

fn client_with(
    stored: Vec<(Vec<u8>, Vec<u8>)>,
) -> (Sube<FakeBackend>, Rc<Cell<u32>>, Rc<Cell<u32>>) {
    let meta_calls = Rc::new(Cell::new(0));
    let query_calls = Rc::new(Cell::new(0));
    let backend = FakeBackend {
        meta: system_number_meta(),
        stored,
        meta_calls: meta_calls.clone(),
        query_calls: query_calls.clone(),
    };
    (Sube::new(backend), meta_calls, query_calls)
}

#[test]
fn metadata_is_fetched_once() {
    let (mut client, meta_calls, _q) = client_with(vec![]);
    assert!(client.metadata().is_ok());
    assert!(client.metadata().is_ok());
    assert!(client.metadata().is_ok());
    assert_eq!(meta_calls.get(), 1);
}

#[test]
fn supplied_metadata_is_never_fetched() {
    let meta_calls = Rc::new(Cell::new(0));
    let backend = FakeBackend {
        meta: system_number_meta(),
        stored: vec![],
        meta_calls: meta_calls.clone(),
        query_calls: Rc::new(Cell::new(0)),
    };
    let mut client = Sube::new_with_meta(backend, system_number_meta());
    assert!(client.metadata().is_ok());
    assert_eq!(meta_calls.get(), 0);
}

#[test]
fn query_decodes_system_number() {
    let key = StorageKey::from_path(&system_number_meta(), "system/number").unwrap();
    let (mut client, _m, _q) = client_with(vec![(key.0.clone(), vec![5, 0, 0, 0])]);
    let value = client.query("system/number").unwrap();
    assert!(matches!(value, Value::U32(5)));
}

#[test]
fn absent_key_yields_empty_bytes() {
    let (client, _m, _q) = client_with(vec![]);
    let key = StorageKey::from_path(&system_number_meta(), "system/number").unwrap();
    let bytes = client.query_bytes(&key).unwrap();
    assert!(bytes.is_empty());
}

#[test]
fn malformed_path_fails_before_any_network_access() {
    let (mut client, meta_calls, query_calls) = client_with(vec![]);
    let r = client.query("onlyonesegment");
    assert!(matches!(r, Err(Error::ParseStorageItem)));
    assert_eq!(meta_calls.get(), 0);
    assert_eq!(query_calls.get(), 0);
}

#[test]
fn unknown_pallet_is_not_found_not_bad_metadata() {
    let (mut client, _m, query_calls) = client_with(vec![]);
    let r = client.query("NoSuchPallet/item");
    assert!(matches!(r, Err(Error::StorageKeyNotFound)));
    assert_eq!(query_calls.get(), 0);
}

#[test]
fn normalize_current_format() {
    let raw = RawMetadata::Current(RawCurrent {
        pallets: vec![RawCurrentPallet {
            name: b"System".to_vec(),
            entries: vec![
                RawCurrentEntry {
                    name: b"Number".to_vec(),
                    kind: RawCurrentKind::Plain { value_ty: 0 },
                },
                RawCurrentEntry {
                    name: b"Account".to_vec(),
                    kind: RawCurrentKind::Keyed {
                        hasher_codes: vec![2],
                        key_tys: vec![0],
                        value_ty: 0,
                    },
                },
            ],
        }],
        types: vec![TypeDef::U32],
    });
    let m = normalize(raw).unwrap();
    assert_eq!(m.pallets.len(), 1);
    assert_eq!(m.pallets[0].entries.len(), 2);
    assert!(matches!(
        m.pallets[0].entries[0].kind,
        EntryKind::Plain { value_ty: 0 }
    ));
    match &m.pallets[0].entries[1].kind {
        EntryKind::Mapped { hashers, key_tys, value_ty } => {
            assert_eq!(hashers.len(), 1);
            assert_eq!(key_tys, &vec![0]);
            assert_eq!(*value_ty, 0);
        }
        _ => panic!("expected a map entry"),
    }
}

#[test]
fn normalize_rejects_bad_hasher_code() {
    let raw = RawMetadata::Current(RawCurrent {
        pallets: vec![RawCurrentPallet {
            name: b"P".to_vec(),
            entries: vec![RawCurrentEntry {
                name: b"E".to_vec(),
                kind: RawCurrentKind::Keyed {
                    hasher_codes: vec![9],
                    key_tys: vec![0],
                    value_ty: 0,
                },
            }],
        }],
        types: vec![TypeDef::U32],
    });
    assert!(matches!(normalize(raw), Err(Error::BadMetadata)));
}

#[test]
fn normalize_rejects_dangling_type_reference() {
    let raw = RawMetadata::Current(RawCurrent {
        pallets: vec![RawCurrentPallet {
            name: b"P".to_vec(),
            entries: vec![RawCurrentEntry {
                name: b"E".to_vec(),
                kind: RawCurrentKind::Plain { value_ty: 5 },
            }],
        }],
        types: vec![TypeDef::U32],
    });
    assert!(matches!(normalize(raw), Err(Error::BadMetadata)));
}

fn legacy_pallets(arity: usize) -> Vec<RawLegacyPallet> {
    vec![RawLegacyPallet {
        name: b"Assets".to_vec(),
        entries: vec![RawLegacyEntry {
            name: b"Holdings".to_vec(),
            kind: RawLegacyKind::Keyed {
                hasher_codes: vec![5; arity],
                key_ty_names: vec![b"u32".to_vec(); arity],
                value_ty_name: b"u128".to_vec(),
            },
        }],
    }]
}

#[test]
fn legacy_formats_differ_on_map_arity() {
    // three keys fit only the later legacy format
    let r1 = normalize(RawMetadata::LegacyV1(legacy_pallets(3)));
    assert!(matches!(r1, Err(Error::BadMetadata)));
    let r2 = normalize(RawMetadata::LegacyV2(legacy_pallets(3))).unwrap();
    match &r2.pallets[0].entries[0].kind {
        EntryKind::Mapped { hashers, key_tys, value_ty } => {
            assert_eq!(hashers.len(), 3);
            assert_eq!(key_tys, &vec![2, 2, 2]);
            assert_eq!(*value_ty, 4);
        }
        _ => panic!("expected a map entry"),
    }
    // two keys fit both
    assert!(normalize(RawMetadata::LegacyV1(legacy_pallets(2))).is_ok());
}

#[test]
fn legacy_unknown_type_name_is_bad_metadata() {
    let raw = RawMetadata::LegacyV2(vec![RawLegacyPallet {
        name: b"P".to_vec(),
        entries: vec![RawLegacyEntry {
            name: b"E".to_vec(),
            kind: RawLegacyKind::Plain {
                value_ty_name: b"FancyStruct".to_vec(),
            },
        }],
    }]);
    assert!(matches!(normalize(raw), Err(Error::BadMetadata)));
}

#[test]
fn normalized_legacy_key_derivation_end_to_end() {
    let raw = RawMetadata::LegacyV2(legacy_pallets(1));
    let m = normalize(raw).unwrap();
    let key = StorageKey::from_path(&m, "assets/holdings/7").unwrap();
    // twox64-concat of the u32 key: 32 + 8 + 4 bytes
    assert_eq!(key.0.len(), 32 + 8 + 4);
    assert_eq!(&key.0[40..], &[7, 0, 0, 0]);
}

#[test]
fn node_message_is_preserved_verbatim() {
    let e = Error::Node(String::from("custom node text"));
    assert_eq!(e.message(), "custom node text");
    assert_eq!(Error::StorageKeyNotFound.message(), "storage key not found");
}
