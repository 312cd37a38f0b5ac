//! Client-side query engine for a blockchain's key-value storage layer.
//!
//! Given a human-readable path such as `"system/number"` and the chain's
//! self-describing metadata, the library derives the exact binary storage
//! key the node expects, and decodes the raw bytes stored under that key
//! into a structured value using the chain's own type registry.

use vstd::prelude::*;
use vstd::string::{StrSliceExecFns, StringExecFns, StringSliceAdditionalSpecFns};

pub mod camel;
pub mod codec;
pub mod hashing;
pub mod meta;
pub mod paths;

use crate::camel::{camel, camel_bytes};
use crate::codec::{decode_value, Registry, Value};
use crate::hashing::{apply_hasher, twox128, xx128_of};
use crate::meta::{lookup_entry, EntryKind, Metadata};
use crate::paths::{
    encode_segment, map_parts, map_parts_width, path_segments, seg_enc, segs_encodable, split_path,
};

verus! {

/// The greatest value-tree nesting the client's own decoder follows: a
/// stored value nested deeper than this decodes as `Decode` through
/// `Sube::query`, while `codec::decode_value` lets a caller pick any
/// depth of their own.
pub const DECODE_DEPTH: u64 = 64;

/// Everything that can go wrong while resolving a path, talking to a
/// node, or decoding a value.
#[derive(Clone, Debug)]
pub enum Error {
    /// Transport-level connectivity or protocol fault.
    ChainUnavailable,
    /// A caller-supplied argument is invalid independent of chain state.
    BadInput,
    /// A key segment cannot be encoded into its declared type.
    BadKey,
    /// Fetched metadata fails to parse or normalize.
    BadMetadata,
    /// A byte buffer is shorter than a type requires, or a discriminant
    /// or length prefix is malformed.
    Decode,
    /// A decode was attempted before any metadata was available.
    NoMetadataLoaded,
    /// The node accepted the request but reported an application error;
    /// the message is preserved verbatim.
    Node(String),
    /// The path is malformed or the number of key segments does not
    /// match the entry's declared arity.
    ParseStorageItem,
    /// The pallet or storage item is absent from the metadata.
    StorageKeyNotFound,
}

impl Error {
    /// A short human-readable account of the error; for `Node` it is
    /// the node's own message, verbatim.
    pub fn message(&self) -> (r: String)
        ensures
            self matches Error::Node(m) ==> r@ == m@,
            self is ChainUnavailable ==> r@ == "chain unavailable"@,
            self is BadInput ==> r@ == "bad input"@,
            self is BadKey ==> r@ == "bad key"@,
            self is BadMetadata ==> r@ == "bad metadata"@,
            self is Decode ==> r@ == "decode failed"@,
            self is NoMetadataLoaded ==> r@ == "no metadata loaded"@,
            self is ParseStorageItem ==> r@ == "cannot parse storage item"@,
            self is StorageKeyNotFound ==> r@ == "storage key not found"@,
    {
        match self {
            Error::ChainUnavailable => String::from_str("chain unavailable"),
            Error::BadInput => String::from_str("bad input"),
            Error::BadKey => String::from_str("bad key"),
            Error::BadMetadata => String::from_str("bad metadata"),
            Error::Decode => String::from_str("decode failed"),
            Error::NoMetadataLoaded => String::from_str("no metadata loaded"),
            Error::Node(m) => m.clone(),
            Error::ParseStorageItem => String::from_str("cannot parse storage item"),
            Error::StorageKeyNotFound => String::from_str("storage key not found"),
        }
    }
}

/// The outcome that deriving a storage key from a path owes: the key's
/// bytes and the stored value's type on success, and the exact error on
/// each kind of failure.
pub open spec fn from_path_spec(m: Metadata, sb: Seq<u8>) -> Result<(Seq<u8>, u32), Error> {
    let segs = path_segments(sb);
    if segs.len() < 2 {
        Err(Error::ParseStorageItem)
    } else {
        let pallet = camel(segs[0]);
        let item = camel(segs[1]);
        let keys = segs.skip(2);
        match lookup_entry(m, pallet, item) {
            None => Err(Error::StorageKeyNotFound),
            Some(entry) => match entry.kind {
                EntryKind::Plain { value_ty } => {
                    if keys.len() == 0 {
                        Ok((xx128_of(pallet) + xx128_of(item), value_ty))
                    } else {
                        Err(Error::ParseStorageItem)
                    }
                },
                EntryKind::Mapped { hashers, key_tys, value_ty } => {
                    if hashers@.len() != key_tys@.len() {
                        Err(Error::BadMetadata)
                    } else if keys.len() != hashers@.len() {
                        Err(Error::ParseStorageItem)
                    } else if !segs_encodable(m.registry.types@, key_tys@, keys) {
                        Err(Error::BadKey)
                    } else {
                        Ok(
                            (
                                xx128_of(pallet) + xx128_of(item) + map_parts(
                                    m.registry.types@,
                                    hashers@,
                                    key_tys@,
                                    keys,
                                ),
                                value_ty,
                            ),
                        )
                    }
                },
            },
        }
    }
}

/// The width a derived key owes: the two 16-byte name hashes, plus, for
/// a map, the width each key position's hashing scheme contributes.
pub open spec fn expected_key_width(m: Metadata, sb: Seq<u8>) -> nat {
    let segs = path_segments(sb);
    if segs.len() < 2 {
        0nat
    } else {
        match lookup_entry(m, camel(segs[0]), camel(segs[1])) {
            None => 0nat,
            Some(entry) => match entry.kind {
                EntryKind::Plain { .. } => 32nat,
                EntryKind::Mapped { hashers, key_tys, .. } => (32 + map_parts_width(
                    m.registry.types@,
                    hashers@,
                    key_tys@,
                    segs.skip(2),
                )) as nat,
            },
        }
    }
}

/// The ASCII byte of a hex digit, lower case.
pub open spec fn hex_digit_byte(n: u8) -> u8 {
    if n < 10 {
        (48 + n) as u8
    } else {
        (87 + n) as u8
    }
}

pub open spec fn hex_digit_char(n: u8) -> char {
    hex_digit_byte(n) as char
}

/// The lower-case hex spelling of a byte string, two digits per byte.
pub open spec fn hex_chars(s: Seq<u8>) -> Seq<char>
    decreases s.len(),
{
    if s.len() == 0 {
        Seq::empty()
    } else {
        seq![hex_digit_char(s[0] / 16), hex_digit_char(s[0] % 16)] + hex_chars(s.drop_first())
    }
}

/// The ASCII bytes of the hex spelling, two digits per byte.
pub open spec fn hex_digit_bytes(s: Seq<u8>) -> Seq<u8>
    decreases s.len(),
{
    if s.len() == 0 {
        Seq::empty()
    } else {
        seq![hex_digit_byte(s[0] / 16), hex_digit_byte(s[0] % 16)] + hex_digit_bytes(
            s.drop_first(),
        )
    }
}

proof fn lemma_hex_digit_bytes_chars(s: Seq<u8>)
    ensures
        hex_digit_bytes(s).len() == 2 * s.len(),
        crate::camel::chars_of_bytes(hex_digit_bytes(s)) == hex_chars(s),
        crate::camel::ascii_bytes(hex_digit_bytes(s)),
    decreases s.len(),
{
    if s.len() == 0 {
        assert(crate::camel::chars_of_bytes(hex_digit_bytes(s)) =~= hex_chars(s));
    } else {
        lemma_hex_digit_bytes_chars(s.drop_first());
        let d0 = hex_digit_byte(s[0] / 16);
        let d1 = hex_digit_byte(s[0] % 16);
        let tail = hex_digit_bytes(s.drop_first());
        assert(hex_digit_bytes(s) == seq![d0, d1] + tail);
        assert forall|j: int|
            0 <= j < hex_digit_bytes(s).len() implies crate::camel::chars_of_bytes(
            hex_digit_bytes(s),
        )[j] == hex_chars(s)[j] && hex_digit_bytes(s)[j] < 128 by {
            if j == 0 {
                assert((seq![d0, d1] + tail)[0] == d0);
            } else if j == 1 {
                assert((seq![d0, d1] + tail)[1] == d1);
            } else {
                assert((seq![d0, d1] + tail)[j] == tail[j - 2]);
                assert(crate::camel::chars_of_bytes(tail)[j - 2] == hex_chars(s.drop_first())[j
                    - 2]);
                assert(hex_chars(s)[j] == hex_chars(s.drop_first())[j - 2]);
            }
        }
        assert(crate::camel::chars_of_bytes(hex_digit_bytes(s)) =~= hex_chars(s));
    }
}

fn hex_digits_exec(s: &[u8]) -> (r: Vec<u8>)
    ensures
        r@ == hex_digit_bytes(s@),
{
    let mut r: Vec<u8> = Vec::new();
    let mut k: usize = 0;
    proof {
        assert(s@.skip(0) =~= s@);
        assert(hex_digit_bytes(s@) =~= r@ + hex_digit_bytes(s@));
    }
    while k < s.len()
        invariant
            k <= s.len(),
            hex_digit_bytes(s@) == r@ + hex_digit_bytes(s@.skip(k as int)),
        decreases s.len() - k,
    {
        proof {
            assert(s@.skip(k as int)[0] == s@[k as int]);
            assert(s@.skip(k as int).drop_first() =~= s@.skip(k + 1));
        }
        let b = s[k];
        let hi = b / 16;
        let lo = b % 16;
        r.push(if hi < 10 {
            48 + hi
        } else {
            87 + hi
        });
        r.push(if lo < 10 {
            48 + lo
        } else {
            87 + lo
        });
        k += 1;
        proof {
            assert(hex_digit_bytes(s@) =~= r@ + hex_digit_bytes(s@.skip(k as int)));
        }
    }
    proof {
        assert(s@.skip(s@.len() as int) =~= Seq::<u8>::empty());
        assert(hex_digit_bytes(s@) =~= r@);
    }
    r
}

/// A binary storage key in its raw form, paired with the type
/// identifier of the value stored under it. Immutable once derived.
#[derive(Clone, Debug)]
pub struct StorageKey(pub Vec<u8>, pub u32);

impl StorageKey {
    /// The raw key bytes, as a transport sends them.
    pub fn as_bytes(&self) -> (r: &[u8])
        ensures
            r@ == self.0@,
    {
        self.0.as_slice()
    }

    /// The type identifier of the stored value.
    pub fn ty_id(&self) -> (r: u32)
        ensures
            r == self.1,
    {
        self.1
    }

    /// The key as a `0x`-prefixed lower-case hex string, as transports
    /// put it on the wire.
    pub fn render(&self) -> (r: String)
        ensures
            r@ == seq!['0', 'x'] + hex_chars(self.0@),
    {
        let digits = hex_digits_exec(self.0.as_slice());
        proof {
            lemma_hex_digit_bytes_chars(self.0@);
        }
        let h = crate::camel::ascii_to_string(digits);
        let mut s = String::from_str("0x");
        s.append(h.as_str());
        proof {
            reveal_strlit("0x");
            assert(s@ =~= seq!['0', 'x'] + hex_chars(self.0@));
        }
        s
    }

    /// Derives the storage key a path names against the given metadata.
    ///
    /// The path is split on `/` with outer separators ignored; the
    /// first segment names the pallet, the second the storage item,
    /// both camel-case normalized; the rest are map keys in declared
    /// order. A path with fewer than two segments, or a key count that
    /// differs from the entry's declared arity, is `ParseStorageItem`;
    /// an unknown pallet or item is `StorageKeyNotFound`; a key segment
    /// that cannot be encoded at its declared type is `BadKey`.
    pub fn from_path(meta: &Metadata, uri: &str) -> (r: Result<StorageKey, Error>)
        ensures
            match r {
                Ok(sk) => from_path_spec(*meta, uri.spec_bytes()) == Ok::<(Seq<u8>, u32), Error>(
                    (sk.0@, sk.1),
                ) && sk.0@.len() == expected_key_width(*meta, uri.spec_bytes()),
                Err(e) => from_path_spec(*meta, uri.spec_bytes()) == Err::<(Seq<u8>, u32), Error>(
                    e,
                ),
            },
    {
        let sb = uri.as_bytes_vec();
        let segs = split_path(sb.as_slice());
        let ghost segsv = path_segments(uri.spec_bytes());
        proof {
            let mv = segs@.map_values(|v: Vec<u8>| v@);
            assert(forall|j: int| 0 <= j < segs@.len() ==> #[trigger] mv[j] == segs@[j]@);
        }
        if segs.len() < 2 {
            return Err(Error::ParseStorageItem);
        }
        let pallet = camel_bytes(segs[0].as_slice());
        let item = camel_bytes(segs[1].as_slice());
        proof {
            assert(pallet@ == camel(segsv[0]));
            assert(item@ == camel(segsv[1]));
        }
        match meta.storage_entry(pallet.as_slice(), item.as_slice()) {
            None => Err(Error::StorageKeyNotFound),
            Some((p, e)) => {
                let entry = &meta.pallets[p].entries[e];
                let mut key = twox128(pallet.as_slice());
                let mut ih = twox128(item.as_slice());
                key.append(&mut ih);
                proof {
                    assert(key@ =~= xx128_of(camel(segsv[0])) + xx128_of(camel(segsv[1])));
                }
                match &entry.kind {
                    EntryKind::Plain { value_ty } => {
                        if segs.len() == 2 {
                            Ok(StorageKey(key, *value_ty))
                        } else {
                            proof {
                                assert(segsv.skip(2).len() == segsv.len() - 2);
                            }
                            Err(Error::ParseStorageItem)
                        }
                    },
                    EntryKind::Mapped { hashers, key_tys, value_ty } => {
                        if hashers.len() != key_tys.len() {
                            return Err(Error::BadMetadata);
                        }
                        if segs.len() - 2 != hashers.len() {
                            return Err(Error::ParseStorageItem);
                        }
                        let ghost keys = segsv.skip(2);
                        let ghost prefix = key@;
                        let ghost regt = meta.registry.types@;
                        let n = hashers.len();
                        let mut k: usize = 0;
                        proof {
                            assert(hashers@.skip(0) =~= hashers@);
                            assert(key_tys@.skip(0) =~= key_tys@);
                            assert(keys.skip(0) =~= keys);
                        }
                        while k < n
                            invariant
                                k <= n,
                                n + 2 <= usize::MAX,
                                segsv == path_segments(uri.spec_bytes()),
                                segsv.len() >= 2,
                                lookup_entry(*meta, camel(segsv[0]), camel(segsv[1])) == Some(
                                    *entry,
                                ),
                                entry.kind == (EntryKind::Mapped {
                                    hashers: *hashers,
                                    key_tys: *key_tys,
                                    value_ty: *value_ty,
                                }),
                                prefix == xx128_of(camel(segsv[0])) + xx128_of(camel(segsv[1])),
                                n == hashers@.len(),
                                n == key_tys@.len(),
                                n + 2 == segs@.len(),
                                segs@.map_values(|v: Vec<u8>| v@) == segsv,
                                keys == segsv.skip(2),
                                keys.len() == n,
                                regt == meta.registry.types@,
                                forall|j: int|
                                    0 <= j < k ==> (#[trigger] seg_enc(
                                        regt,
                                        key_tys@[j],
                                        keys[j],
                                    )) is Some,
                                key@ + map_parts(
                                    regt,
                                    hashers@.skip(k as int),
                                    key_tys@.skip(k as int),
                                    keys.skip(k as int),
                                ) == prefix + map_parts(regt, hashers@, key_tys@, keys),
                                key@.len() + map_parts_width(
                                    regt,
                                    hashers@.skip(k as int),
                                    key_tys@.skip(k as int),
                                    keys.skip(k as int),
                                ) == 32 + map_parts_width(regt, hashers@, key_tys@, keys),
                            decreases n - k,
                        {
                            proof {
                                assert(hashers@.skip(k as int)[0] == hashers@[k as int]);
                                assert(hashers@.skip(k as int).drop_first() =~= hashers@.skip(
                                    k + 1,
                                ));
                                assert(key_tys@.skip(k as int)[0] == key_tys@[k as int]);
                                assert(key_tys@.skip(k as int).drop_first() =~= key_tys@.skip(
                                    k + 1,
                                ));
                                assert(keys.skip(k as int)[0] == keys[k as int]);
                                assert(keys.skip(k as int).drop_first() =~= keys.skip(k + 1));
                                assert(keys[k as int] == segsv[k + 2]);
                                assert(segs@.map_values(|v: Vec<u8>| v@)[k + 2] == segs@[k + 2]@);
                            }
                            match encode_segment(&meta.registry, key_tys[k], segs[2 + k].as_slice())
                                {
                                None => {
                                    proof {
                                        assert(seg_enc(regt, key_tys@[k as int], keys[k as int])
                                            is None);
                                        assert(!segs_encodable(regt, key_tys@, keys));
                                    }
                                    return Err(Error::BadKey);
                                },
                                Some(encv) => {
                                    let part = apply_hasher(hashers[k], encv.as_slice());
                                    crate::codec::push_all(&mut key, part.as_slice());
                                    k += 1;
                                    proof {
                                        assert(key@ + map_parts(
                                            regt,
                                            hashers@.skip(k as int),
                                            key_tys@.skip(k as int),
                                            keys.skip(k as int),
                                        ) =~= prefix + map_parts(regt, hashers@, key_tys@, keys));
                                    }
                                },
                            }
                        }
                        proof {
                            assert(hashers@.skip(n as int) =~= Seq::<
                                crate::hashing::HashKind,
                            >::empty());
                            assert(key@ =~= prefix + map_parts(regt, hashers@, key_tys@, keys));
                            assert(segs_encodable(regt, key_tys@, keys));
                        }
                        Ok(StorageKey(key, *value_ty))
                    },
                }
            },
        }
    }
}

/// The capability contract a transport implements: fetch the bytes at
/// a storage key, hand a signed payload to the network, and fetch the
/// chain's current metadata in normalized form.
///
/// Transport faults are reported as `ChainUnavailable`; an error the
/// node itself reported is `Node` with the node's message preserved.
/// An absent storage key is a valid chain state, not an error:
/// implementations return an empty byte vector for it.
pub trait Backend {
    /// Fetches the current value stored under a key.
    fn query_bytes(&self, key: &StorageKey) -> Result<Vec<u8>, Error>;

    /// Hands a pre-encoded, pre-signed extrinsic to the network. The
    /// payload is never inspected or constructed here.
    fn submit(&self, ext: &[u8]) -> Result<(), Error>;

    /// Fetches and normalizes the chain's current metadata. Expected to
    /// be called at most once per client lifetime.
    fn metadata(&self) -> Result<Metadata, Error>;
}

/// A client over one backend, with a metadata view fetched lazily on
/// first use and cached for the client's lifetime.
pub struct Sube<B> {
    backend: B,
    meta: Option<Metadata>,
}

impl<B: Backend> Sube<B> {
    /// The cached metadata, if any has been fetched or supplied.
    pub closed spec fn cached(self) -> Option<Metadata> {
        self.meta
    }

    pub fn new(backend: B) -> (r: Self)
        ensures
            r.cached() is None,
    {
        Sube { backend, meta: None }
    }

    pub fn new_with_meta(backend: B, meta: Metadata) -> (r: Self)
        ensures
            r.cached() == Some(meta),
    {
        Sube { backend, meta: Some(meta) }
    }

    /// Returns the chain metadata, fetching it through the backend on
    /// first use and caching it: once a view is cached, every later
    /// call returns that same view without consulting the backend
    /// again. A failed fetch leaves the cache empty, so a later call
    /// may retry; no half-written view is ever observable.
    pub fn metadata(&mut self) -> (r: Result<&Metadata, Error>)
        ensures
            old(self).cached() is Some ==> *final(self) == *old(self),
            match r {
                Ok(m) => final(self).cached() == Some(*m) && (old(self).cached() is Some ==> Some(
                    *m,
                ) == old(self).cached()),
                Err(_) => *final(self) == *old(self) && old(self).cached() is None,
            },
    {
        if self.meta.is_some() {
            return Ok(self.meta.as_ref().unwrap());
        }
        match self.backend.metadata() {
            Ok(m) => {
                self.meta = Some(m);
                Ok(self.meta.as_ref().unwrap())
            },
            Err(e) => Err(e),
        }
    }

    /// Derives the storage key a path names, fetching and caching the
    /// metadata first if none is cached yet. A path without at least a
    /// pallet and an item segment fails with `ParseStorageItem` before
    /// any backend access.
    pub fn key_from_path(&mut self, path: &str) -> (r: Result<StorageKey, Error>)
        ensures
            path_segments(path.spec_bytes()).len() < 2 ==> *final(self) == *old(self) && (
            r matches Err(e) && e == Error::ParseStorageItem),
            match r {
                Ok(sk) => final(self).cached() matches Some(m) && from_path_spec(
                    m,
                    path.spec_bytes(),
                ) == Ok::<(Seq<u8>, u32), Error>((sk.0@, sk.1)),
                Err(e) => final(self).cached() matches Some(m) ==> from_path_spec(
                    m,
                    path.spec_bytes(),
                ) == Err::<(Seq<u8>, u32), Error>(e),
            },
    {
        let sb = path.as_bytes_vec();
        let segs = split_path(sb.as_slice());
        if segs.len() < 2 {
            proof {
                assert(path_segments(path.spec_bytes()).len() == segs@.map_values(
                    |v: Vec<u8>| v@,
                ).len());
            }
            return Err(Error::ParseStorageItem);
        }
        match self.metadata() {
            Ok(meta) => StorageKey::from_path(meta, path),
            Err(e) => Err(e),
        }
    }

    /// Queries the chain storage through a path: derives the key,
    /// fetches the raw bytes through the backend, and decodes them at
    /// the entry's declared value type against the cached registry. A
    /// malformed path fails before any backend access.
    pub fn query(&mut self, path: &str) -> (r: Result<Value, Error>)
        ensures
            path_segments(path.spec_bytes()).len() < 2 ==> *final(self) == *old(self) && (
            r matches Err(e) && e == Error::ParseStorageItem),
            r is Ok ==> final(self).cached() is Some,
            final(self).cached() matches Some(m) ==> (r is Ok ==> from_path_spec(
                m,
                path.spec_bytes(),
            ) is Ok),
            final(self).cached() matches Some(m) ==> (from_path_spec(
                m,
                path.spec_bytes(),
            ) matches Err(e0) ==> r == Err::<Value, Error>(e0)),
    {
        let key = match self.key_from_path(path) {
            Ok(k) => k,
            Err(e) => {
                return Err(e);
            },
        };
        let bytes = match self.backend.query_bytes(&key) {
            Ok(b) => b,
            Err(e) => {
                return Err(e);
            },
        };
        match &self.meta {
            Some(m) => match decode_value(&m.registry, key.1, bytes.as_slice(), DECODE_DEPTH) {
                Ok((v, _consumed)) => Ok(v),
                Err(e) => Err(e),
            },
            None => Err(Error::NoMetadataLoaded),
        }
    }

    /// The raw bytes stored under a key, straight from the backend.
    pub fn query_bytes(&self, key: &StorageKey) -> Result<Vec<u8>, Error> {
        self.backend.query_bytes(key)
    }

    /// The chain's type registry, fetching the metadata first if none
    /// is cached.
    pub fn registry(&mut self) -> (r: Result<&Registry, Error>)
        ensures
            match r {
                Ok(reg) => final(self).cached() matches Some(m) && *reg == m.registry,
                Err(_) => *final(self) == *old(self) && old(self).cached() is None,
            },
    {
        match self.metadata() {
            Ok(m) => Ok(&m.registry),
            Err(e) => Err(e),
        }
    }
}

impl<B: Backend> From<B> for Sube<B> {
    /// Wraps a backend in a client with an empty metadata cache.
    fn from(backend: B) -> (r: Sube<B>)
        ensures
            r.cached() is None,
    {
        Sube { backend, meta: None }
    }
}

impl<B: Backend> vstd::std_specs::convert::FromSpecImpl<B> for Sube<B> {
    closed spec fn obeys_from_spec() -> bool {
        true
    }

    closed spec fn from_spec(b: B) -> Self {
        Sube { backend: b, meta: None }
    }
}

} // verus!
