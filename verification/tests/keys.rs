use sube::camel::camel_bytes;
use sube::codec::{Registry, TypeDef};
use sube::hashing::HashKind;
use sube::meta::{EntryKind, Metadata, Pallet, StorageEntry};
use sube::camel::to_camel;
use sube::{Error, StorageKey};

fn plain_meta() -> Metadata {
    Metadata {
        pallets: vec![Pallet {
            name: b"System".to_vec(),
            entries: vec![StorageEntry {
                name: b"Number".to_vec(),
                kind: EntryKind::Plain { value_ty: 0 },
            }],
        }],
        registry: Registry {
            types: vec![TypeDef::U32],
        },
    }
}

fn map_meta(hashers: Vec<HashKind>, key_tys: Vec<u32>) -> Metadata {
    Metadata {
        pallets: vec![Pallet {
            name: b"Balances".to_vec(),
            entries: vec![StorageEntry {
                name: b"Account".to_vec(),
                kind: EntryKind::Mapped {
                    hashers,
                    key_tys,
                    value_ty: 0,
                },
            }],
        }],
        registry: Registry {
            types: vec![TypeDef::U32],
        },
    }
}

#[test]
fn camel_basic() {
    assert_eq!(to_camel("system"), "System");
    assert_eq!(to_camel("foo-bar-baz"), "FooBarBaz");
    assert_eq!(to_camel("-leading"), "Leading");
    assert_eq!(to_camel(""), "");
}

#[test]
fn camel_collapses_any_non_alphanumeric_separator() {
    assert_eq!(to_camel("a_b"), "AB");
    assert_eq!(to_camel("foo_bar-baz"), "FooBarBaz");
    assert_eq!(to_camel("a.b c"), "ABC");
    assert_eq!(to_camel("u32"), "U32");
}

#[test]
fn camel_idempotent_on_samples() {
    for term in ["system", "foo-bar", "Already", "x", "-x-y-"] {
        let once = to_camel(term);
        let twice = to_camel(&once);
        assert_eq!(once, twice);
    }
}

#[test]
fn camel_bytes_matches_string_form() {
    assert_eq!(camel_bytes(b"timestamp-now"), b"TimestampNow".to_vec());
}

#[test]
fn plain_key_is_two_name_hashes() {
    let meta = plain_meta();
    let key = StorageKey::from_path(&meta, "system/number").unwrap();
    assert_eq!(key.0.len(), 32);
    assert_eq!(
        key.render(),
        "0x26aa394eea5630e07c48ae0c9558cef702a5c1b19ab7a04f536c519aca4983ac"
    );
    assert_eq!(key.ty_id(), 0);
}

#[test]
fn plain_key_ignores_outer_slashes() {
    let meta = plain_meta();
    let a = StorageKey::from_path(&meta, "system/number").unwrap();
    let b = StorageKey::from_path(&meta, "/system/number/").unwrap();
    assert_eq!(a.0, b.0);
}

#[test]
fn plain_rejects_extra_segments() {
    let meta = plain_meta();
    let r = StorageKey::from_path(&meta, "system/number/extra");
    assert!(matches!(r, Err(Error::ParseStorageItem)));
}

#[test]
fn malformed_path_is_parse_error() {
    let meta = plain_meta();
    let r = StorageKey::from_path(&meta, "onlyonesegment");
    assert!(matches!(r, Err(Error::ParseStorageItem)));
}

#[test]
fn unknown_pallet_is_not_found() {
    let meta = plain_meta();
    let r = StorageKey::from_path(&meta, "NoSuchPallet/item");
    assert!(matches!(r, Err(Error::StorageKeyNotFound)));
    let r2 = StorageKey::from_path(&meta, "system/nosuchitem");
    assert!(matches!(r2, Err(Error::StorageKeyNotFound)));
}

#[test]
fn map_key_blake2_concat_carries_the_key() {
    let meta = map_meta(vec![HashKind::Blake2_128Concat], vec![0]);
    let pubkey_hex = "d43593c715fdd31c61141abd04a99fd6822c8558854ccde39a5684e7a56da27d";
    let path = format!("balances/account/0x{}", pubkey_hex);
    let key = StorageKey::from_path(&meta, &path).unwrap();
    // two 16-byte name hashes, one 16-byte digest, then the 32 key bytes
    assert_eq!(key.0.len(), 32 + 16 + 32);
    let rendered = key.render();
    assert!(rendered.starts_with("0xc2261276cc9d1f8598ea4b6a74b15c2fb99d880ec681799c0cf30e8886371da9"));
    assert!(rendered.ends_with(pubkey_hex));
}

#[test]
fn map_arity_is_enforced() {
    let meta = map_meta(vec![HashKind::Twox64Concat], vec![0]);
    assert!(matches!(
        StorageKey::from_path(&meta, "balances/account"),
        Err(Error::ParseStorageItem)
    ));
    assert!(matches!(
        StorageKey::from_path(&meta, "balances/account/1/2"),
        Err(Error::ParseStorageItem)
    ));
    assert!(StorageKey::from_path(&meta, "balances/account/7").is_ok());
}

#[test]
fn map_key_widths_add_up() {
    // twox64-concat of an encoded u32 key: 32 + 8 + 4 bytes
    let meta = map_meta(vec![HashKind::Twox64Concat], vec![0]);
    let key = StorageKey::from_path(&meta, "balances/account/7").unwrap();
    assert_eq!(key.0.len(), 32 + 8 + 4);
    // identity keeps just the encoded bytes
    let meta2 = map_meta(vec![HashKind::Identity], vec![0]);
    let key2 = StorageKey::from_path(&meta2, "balances/account/7").unwrap();
    assert_eq!(key2.0.len(), 32 + 4);
    assert_eq!(&key2.0[32..], &[7, 0, 0, 0]);
}

#[test]
fn two_key_map_concatenates_in_order() {
    let meta = map_meta(
        vec![HashKind::Identity, HashKind::Identity],
        vec![0, 0],
    );
    let key = StorageKey::from_path(&meta, "balances/account/1/2").unwrap();
    assert_eq!(&key.0[32..], &[1, 0, 0, 0, 2, 0, 0, 0]);
}

#[test]
fn bad_segment_is_bad_key() {
    let meta = map_meta(vec![HashKind::Identity], vec![0]);
    assert!(matches!(
        StorageKey::from_path(&meta, "balances/account/notanumber"),
        Err(Error::BadKey)
    ));
    // a decimal too large for the declared u32 key
    assert!(matches!(
        StorageKey::from_path(&meta, "balances/account/4294967296"),
        Err(Error::BadKey)
    ));
    // odd-length hex body
    assert!(matches!(
        StorageKey::from_path(&meta, "balances/account/0xabc"),
        Err(Error::BadKey)
    ));
}

#[test]
fn render_is_zero_x_hex() {
    let key = StorageKey(vec![0u8, 15, 255], 9);
    assert_eq!(key.render(), "0x000fff");
}
