//! The normalized, version-independent view of the chain's metadata:
//! pallets, their storage entries, and the type registry, presented
//! uniformly whatever wire format the metadata arrived in.

use vstd::prelude::*;

use crate::codec::{Registry, TypeDef};
use crate::Error;
use crate::hashing::HashKind;

verus! {

/// The shape of a storage entry: a single value, or a map keyed by one
/// encoded key per declared hasher, in order.
#[derive(Clone, Debug)]
pub enum EntryKind {
    Plain { value_ty: u32 },
    Mapped { hashers: Vec<HashKind>, key_tys: Vec<u32>, value_ty: u32 },
}

/// One named storage entry of a pallet.
#[derive(Clone, Debug)]
pub struct StorageEntry {
    pub name: Vec<u8>,
    pub kind: EntryKind,
}

/// One pallet: its camel-case name and its storage entries.
#[derive(Clone, Debug)]
pub struct Pallet {
    pub name: Vec<u8>,
    pub entries: Vec<StorageEntry>,
}

/// The normalized metadata, immutable once built.
#[derive(Clone, Debug)]
pub struct Metadata {
    pub pallets: Vec<Pallet>,
    pub registry: Registry,
}

/// A map entry is well formed when each declared key position carries
/// both a hasher and a key type.
pub open spec fn wf_entry(e: StorageEntry) -> bool {
    match e.kind {
        EntryKind::Plain { .. } => true,
        EntryKind::Mapped { hashers, key_tys, .. } => hashers@.len() == key_tys@.len(),
    }
}

pub open spec fn wf_metadata(m: Metadata) -> bool {
    forall|p: int, e: int|
        0 <= p < m.pallets@.len() && 0 <= e < m.pallets@[p].entries@.len() ==> wf_entry(
            #[trigger] m.pallets@[p].entries@[e],
        )
}

/// The first pallet carrying the given name.
pub open spec fn find_pallet(ps: Seq<Pallet>, name: Seq<u8>) -> Option<Pallet>
    decreases ps.len(),
{
    if ps.len() == 0 {
        None
    } else if ps[0].name@ == name {
        Some(ps[0])
    } else {
        find_pallet(ps.drop_first(), name)
    }
}

/// The first entry carrying the given name.
pub open spec fn find_entry(es: Seq<StorageEntry>, name: Seq<u8>) -> Option<StorageEntry>
    decreases es.len(),
{
    if es.len() == 0 {
        None
    } else if es[0].name@ == name {
        Some(es[0])
    } else {
        find_entry(es.drop_first(), name)
    }
}

/// The storage entry a pallet and item name resolve to: a case-
/// sensitive exact match against the normalized names, none when the
/// pallet or the item is absent.
pub open spec fn lookup_entry(m: Metadata, pallet: Seq<u8>, item: Seq<u8>) -> Option<StorageEntry> {
    match find_pallet(m.pallets@, pallet) {
        None => None,
        Some(p) => find_entry(p.entries@, item),
    }
}

/// Compares two byte strings.
pub fn bytes_eq(a: &[u8], b: &[u8]) -> (r: bool)
    ensures
        r == (a@ == b@),
{
    if a.len() != b.len() {
        return false;
    }
    let mut k: usize = 0;
    while k < a.len()
        invariant
            k <= a.len(),
            a.len() == b.len(),
            forall|j: int| 0 <= j < k ==> a@[j] == b@[j],
        decreases a.len() - k,
    {
        if a[k] != b[k] {
            return false;
        }
        k += 1;
    }
    proof {
        assert(a@ =~= b@);
    }
    true
}

fn find_entry_exec(es: &Vec<StorageEntry>, name: &[u8]) -> (r: Option<usize>)
    ensures
        match r {
            Some(j) => j < es.len() && find_entry(es@, name@) == Some(es@[j as int]),
            None => find_entry(es@, name@) is None,
        },
{
    let mut k: usize = 0;
    proof {
        assert(es@.skip(0) =~= es@);
    }
    while k < es.len()
        invariant
            k <= es.len(),
            find_entry(es@, name@) == find_entry(es@.skip(k as int), name@),
        decreases es.len() - k,
    {
        proof {
            assert(es@.skip(k as int)[0] == es@[k as int]);
            assert(es@.skip(k as int).drop_first() =~= es@.skip(k + 1));
        }
        if bytes_eq(es[k].name.as_slice(), name) {
            return Some(k);
        }
        k += 1;
    }
    None
}

impl Metadata {
    /// Finds the storage entry named by a pallet and an item: the
    /// indices of the pallet and of the entry within it, or none when
    /// either name is absent.
    pub fn storage_entry(&self, pallet: &[u8], item: &[u8]) -> (r: Option<(usize, usize)>)
        ensures
            match r {
                Some((p, e)) => p < self.pallets@.len() && e < self.pallets@[p as int].entries@.len()
                    && lookup_entry(*self, pallet@, item@) == Some(
                    self.pallets@[p as int].entries@[e as int],
                ),
                None => lookup_entry(*self, pallet@, item@) is None,
            },
    {
        let mut k: usize = 0;
        proof {
            assert(self.pallets@.skip(0) =~= self.pallets@);
        }
        while k < self.pallets.len()
            invariant
                k <= self.pallets@.len(),
                find_pallet(self.pallets@, pallet@) == find_pallet(
                    self.pallets@.skip(k as int),
                    pallet@,
                ),
            decreases self.pallets@.len() - k,
        {
            proof {
                assert(self.pallets@.skip(k as int)[0] == self.pallets@[k as int]);
                assert(self.pallets@.skip(k as int).drop_first() =~= self.pallets@.skip(k + 1));
            }
            if bytes_eq(self.pallets[k].name.as_slice(), pallet) {
                match find_entry_exec(&self.pallets[k].entries, item) {
                    Some(e) => {
                        return Some((k, e));
                    },
                    None => {
                        return None;
                    },
                }
            }
            k += 1;
        }
        None
    }
}

/// The hasher encoding the wire formats share: one code per scheme, in
/// the order the formats declare them.
pub open spec fn hasher_of_code(c: u8) -> Option<HashKind> {
    if c == 0 {
        Some(HashKind::Blake2_128)
    } else if c == 1 {
        Some(HashKind::Blake2_256)
    } else if c == 2 {
        Some(HashKind::Blake2_128Concat)
    } else if c == 3 {
        Some(HashKind::Twox128)
    } else if c == 4 {
        Some(HashKind::Twox256)
    } else if c == 5 {
        Some(HashKind::Twox64Concat)
    } else if c == 6 {
        Some(HashKind::Identity)
    } else {
        None
    }
}

fn map_hasher(c: u8) -> (r: Option<HashKind>)
    ensures
        r == hasher_of_code(c),
{
    if c == 0 {
        Some(HashKind::Blake2_128)
    } else if c == 1 {
        Some(HashKind::Blake2_256)
    } else if c == 2 {
        Some(HashKind::Blake2_128Concat)
    } else if c == 3 {
        Some(HashKind::Twox128)
    } else if c == 4 {
        Some(HashKind::Twox256)
    } else if c == 5 {
        Some(HashKind::Twox64Concat)
    } else if c == 6 {
        Some(HashKind::Identity)
    } else {
        None
    }
}

/// The fixed table of value and key types a legacy format can name.
pub open spec fn legacy_types() -> Seq<TypeDef> {
    seq![TypeDef::U8, TypeDef::U16, TypeDef::U32, TypeDef::U64, TypeDef::U128, TypeDef::Bool]
}

/// The registry identifier a legacy type name maps to in the fixed
/// table, if the name is known.
pub open spec fn known_ty(name: Seq<u8>) -> Option<u32> {
    if name == seq![117u8, 56u8] {
        Some(0u32)
    } else if name == seq![117u8, 49u8, 54u8] {
        Some(1u32)
    } else if name == seq![117u8, 51u8, 50u8] {
        Some(2u32)
    } else if name == seq![117u8, 54u8, 52u8] {
        Some(3u32)
    } else if name == seq![117u8, 49u8, 50u8, 56u8] {
        Some(4u32)
    } else if name == seq![98u8, 111u8, 111u8, 108u8] {
        Some(5u32)
    } else {
        None
    }
}

fn known_ty_exec(name: &[u8]) -> (r: Option<u32>)
    ensures
        r == known_ty(name@),
{
    let n_u8: Vec<u8> = vec![117, 56];
    let n_u16: Vec<u8> = vec![117, 49, 54];
    let n_u32: Vec<u8> = vec![117, 51, 50];
    let n_u64: Vec<u8> = vec![117, 54, 52];
    let n_u128: Vec<u8> = vec![117, 49, 50, 56];
    let n_bool: Vec<u8> = vec![98, 111, 111, 108];
    proof {
        assert(n_u8@ =~= seq![117u8, 56u8]);
        assert(n_u16@ =~= seq![117u8, 49u8, 54u8]);
        assert(n_u32@ =~= seq![117u8, 51u8, 50u8]);
        assert(n_u64@ =~= seq![117u8, 54u8, 52u8]);
        assert(n_u128@ =~= seq![117u8, 49u8, 50u8, 56u8]);
        assert(n_bool@ =~= seq![98u8, 111u8, 111u8, 108u8]);
    }
    if bytes_eq(name, n_u8.as_slice()) {
        Some(0)
    } else if bytes_eq(name, n_u16.as_slice()) {
        Some(1)
    } else if bytes_eq(name, n_u32.as_slice()) {
        Some(2)
    } else if bytes_eq(name, n_u64.as_slice()) {
        Some(3)
    } else if bytes_eq(name, n_u128.as_slice()) {
        Some(4)
    } else if bytes_eq(name, n_bool.as_slice()) {
        Some(5)
    } else {
        None
    }
}

/// A storage entry as an older wire format declares it: one hasher code
/// and type name per key, from a small closed set.
#[derive(Clone, Debug)]
pub enum RawLegacyKind {
    Plain { value_ty_name: Vec<u8> },
    Keyed { hasher_codes: Vec<u8>, key_ty_names: Vec<Vec<u8>>, value_ty_name: Vec<u8> },
}

#[derive(Clone, Debug)]
pub struct RawLegacyEntry {
    pub name: Vec<u8>,
    pub kind: RawLegacyKind,
}

#[derive(Clone, Debug)]
pub struct RawLegacyPallet {
    pub name: Vec<u8>,
    pub entries: Vec<RawLegacyEntry>,
}

/// A storage entry as the current wire format declares it: hasher codes
/// and identifiers into the shared type registry.
#[derive(Clone, Debug)]
pub enum RawCurrentKind {
    Plain { value_ty: u32 },
    Keyed { hasher_codes: Vec<u8>, key_tys: Vec<u32>, value_ty: u32 },
}

#[derive(Clone, Debug)]
pub struct RawCurrentEntry {
    pub name: Vec<u8>,
    pub kind: RawCurrentKind,
}

#[derive(Clone, Debug)]
pub struct RawCurrentPallet {
    pub name: Vec<u8>,
    pub entries: Vec<RawCurrentEntry>,
}

#[derive(Clone, Debug)]
pub struct RawCurrent {
    pub pallets: Vec<RawCurrentPallet>,
    pub types: Vec<TypeDef>,
}

/// The version-tagged union of raw metadata formats. The first legacy
/// format knows plain entries and maps of one or two keys; the second
/// added maps of any arity; the current format replaces the closed
/// type-name set with references into a shared registry.
#[derive(Clone, Debug)]
pub enum RawMetadata {
    LegacyV1(Vec<RawLegacyPallet>),
    LegacyV2(Vec<RawLegacyPallet>),
    Current(RawCurrent),
}

pub open spec fn wf_legacy_kind(k: RawLegacyKind, many: bool) -> bool {
    match k {
        RawLegacyKind::Plain { value_ty_name } => known_ty(value_ty_name@) is Some,
        RawLegacyKind::Keyed { hasher_codes, key_ty_names, value_ty_name } => {
            &&& 1 <= hasher_codes@.len()
            &&& hasher_codes@.len() == key_ty_names@.len()
            &&& many || hasher_codes@.len() <= 2
            &&& known_ty(value_ty_name@) is Some
            &&& forall|j: int|
                0 <= j < hasher_codes@.len() ==> hasher_of_code(#[trigger] hasher_codes@[j]) is Some
            &&& forall|j: int|
                0 <= j < key_ty_names@.len() ==> known_ty((#[trigger] key_ty_names@[j])@) is Some
        },
    }
}

pub open spec fn legacy_pallet_wf(rp: RawLegacyPallet, many: bool) -> bool {
    forall|e: int|
        0 <= e < rp.entries@.len() ==> wf_legacy_kind((#[trigger] rp.entries@[e]).kind, many)
}

pub open spec fn wf_legacy(ps: Seq<RawLegacyPallet>, many: bool) -> bool {
    forall|p: int| 0 <= p < ps.len() ==> legacy_pallet_wf(#[trigger] ps[p], many)
}

pub open spec fn wf_current_kind(k: RawCurrentKind, n_types: int) -> bool {
    match k {
        RawCurrentKind::Plain { value_ty } => value_ty < n_types,
        RawCurrentKind::Keyed { hasher_codes, key_tys, value_ty } => {
            &&& 1 <= hasher_codes@.len()
            &&& hasher_codes@.len() == key_tys@.len()
            &&& value_ty < n_types
            &&& forall|j: int|
                0 <= j < hasher_codes@.len() ==> hasher_of_code(#[trigger] hasher_codes@[j]) is Some
            &&& forall|j: int| 0 <= j < key_tys@.len() ==> #[trigger] key_tys@[j] < n_types
        },
    }
}

pub open spec fn current_pallet_wf(rp: RawCurrentPallet, n_types: int) -> bool {
    forall|e: int|
        0 <= e < rp.entries@.len() ==> wf_current_kind((#[trigger] rp.entries@[e]).kind, n_types)
}

pub open spec fn wf_current(rc: RawCurrent) -> bool {
    forall|p: int|
        0 <= p < rc.pallets@.len() ==> current_pallet_wf(
            #[trigger] rc.pallets@[p],
            rc.types@.len() as int,
        )
}

/// Whether a raw blob is well formed for its declared version: every
/// hasher code and type reference resolves, and a multi-key map does
/// not appear in the one format that cannot carry it.
pub open spec fn wf_raw(raw: RawMetadata) -> bool {
    match raw {
        RawMetadata::LegacyV1(ps) => wf_legacy(ps@, false),
        RawMetadata::LegacyV2(ps) => wf_legacy(ps@, true),
        RawMetadata::Current(rc) => wf_current(rc),
    }
}

pub open spec fn legacy_kind_norm(k: RawLegacyKind, nk: EntryKind) -> bool {
    match k {
        RawLegacyKind::Plain { value_ty_name } => nk == (EntryKind::Plain {
            value_ty: known_ty(value_ty_name@)->Some_0,
        }),
        RawLegacyKind::Keyed { hasher_codes, key_ty_names, value_ty_name } => match nk {
            EntryKind::Mapped { hashers, key_tys, value_ty } => {
                &&& hashers@.len() == hasher_codes@.len()
                &&& key_tys@.len() == key_ty_names@.len()
                &&& forall|j: int|
                    0 <= j < hasher_codes@.len() ==> #[trigger] hashers@[j] == hasher_of_code(
                        hasher_codes@[j],
                    )->Some_0
                &&& forall|j: int|
                    0 <= j < key_ty_names@.len() ==> #[trigger] key_tys@[j] == known_ty(
                        key_ty_names@[j]@,
                    )->Some_0
                &&& value_ty == known_ty(value_ty_name@)->Some_0
            },
            _ => false,
        },
    }
}

pub open spec fn current_kind_norm(k: RawCurrentKind, nk: EntryKind) -> bool {
    match k {
        RawCurrentKind::Plain { value_ty } => nk == (EntryKind::Plain { value_ty }),
        RawCurrentKind::Keyed { hasher_codes, key_tys, value_ty } => match nk {
            EntryKind::Mapped { hashers, key_tys: nk_keys, value_ty: nk_val } => {
                &&& hashers@.len() == hasher_codes@.len()
                &&& forall|j: int|
                    0 <= j < hasher_codes@.len() ==> #[trigger] hashers@[j] == hasher_of_code(
                        hasher_codes@[j],
                    )->Some_0
                &&& nk_keys@ == key_tys@
                &&& nk_val == value_ty
            },
            _ => false,
        },
    }
}

pub open spec fn legacy_pallet_rel(rp: RawLegacyPallet, np: Pallet) -> bool {
    &&& np.name@ == rp.name@
    &&& np.entries@.len() == rp.entries@.len()
    &&& forall|e: int|
        0 <= e < rp.entries@.len() ==> (#[trigger] np.entries@[e]).name@ == rp.entries@[e].name@
            && legacy_kind_norm(rp.entries@[e].kind, np.entries@[e].kind)
}

pub open spec fn current_pallet_rel(rp: RawCurrentPallet, np: Pallet) -> bool {
    &&& np.name@ == rp.name@
    &&& np.entries@.len() == rp.entries@.len()
    &&& forall|e: int|
        0 <= e < rp.entries@.len() ==> (#[trigger] np.entries@[e]).name@ == rp.entries@[e].name@
            && current_kind_norm(rp.entries@[e].kind, np.entries@[e].kind)
}

/// How a normalized view corresponds to a raw blob: names preserved in
/// order, every hasher code and type name mapped to its scheme or
/// identifier, and the registry carried over (the fixed table for the
/// legacy formats).
pub open spec fn norm_rel(raw: RawMetadata, m: Metadata) -> bool {
    match raw {
        RawMetadata::LegacyV1(ps) => {
            &&& m.registry.types@ == legacy_types()
            &&& m.pallets@.len() == ps@.len()
            &&& forall|p: int|
                0 <= p < ps@.len() ==> legacy_pallet_rel(ps@[p], #[trigger] m.pallets@[p])
        },
        RawMetadata::LegacyV2(ps) => {
            &&& m.registry.types@ == legacy_types()
            &&& m.pallets@.len() == ps@.len()
            &&& forall|p: int|
                0 <= p < ps@.len() ==> legacy_pallet_rel(ps@[p], #[trigger] m.pallets@[p])
        },
        RawMetadata::Current(rc) => {
            &&& m.registry.types@ == rc.types@
            &&& m.pallets@.len() == rc.pallets@.len()
            &&& forall|p: int|
                0 <= p < rc.pallets@.len() ==> current_pallet_rel(
                    rc.pallets@[p],
                    #[trigger] m.pallets@[p],
                )
        },
    }
}

fn copy_bytes(v: &Vec<u8>) -> (r: Vec<u8>)
    ensures
        r@ == v@,
{
    vstd::slice::slice_to_vec(v.as_slice())
}

fn map_hashers(codes: &Vec<u8>) -> (r: Result<Vec<HashKind>, Error>)
    ensures
        match r {
            Ok(hs) => hs@.len() == codes@.len() && (forall|j: int|
                0 <= j < codes@.len() ==> hasher_of_code(#[trigger] codes@[j]) is Some) && (forall|
                j: int,
            |
                0 <= j < codes@.len() ==> #[trigger] hs@[j] == hasher_of_code(codes@[j])->Some_0),
            Err(e) => !(forall|j: int|
                0 <= j < codes@.len() ==> hasher_of_code(#[trigger] codes@[j]) is Some) && e
                == Error::BadMetadata,
        },
{
    let mut hs: Vec<HashKind> = Vec::new();
    let mut k: usize = 0;
    while k < codes.len()
        invariant
            k <= codes@.len(),
            hs@.len() == k,
            forall|j: int| 0 <= j < k ==> hasher_of_code(#[trigger] codes@[j]) is Some,
            forall|j: int| 0 <= j < k ==> #[trigger] hs@[j] == hasher_of_code(codes@[j])->Some_0,
        decreases codes@.len() - k,
    {
        match map_hasher(codes[k]) {
            Some(h) => {
                hs.push(h);
            },
            None => {
                return Err(Error::BadMetadata);
            },
        }
        k += 1;
    }
    Ok(hs)
}

fn map_known(names: &Vec<Vec<u8>>) -> (r: Result<Vec<u32>, Error>)
    ensures
        match r {
            Ok(ids) => ids@.len() == names@.len() && (forall|j: int|
                0 <= j < names@.len() ==> known_ty((#[trigger] names@[j])@) is Some) && (forall|
                j: int,
            |
                0 <= j < names@.len() ==> #[trigger] ids@[j] == known_ty(names@[j]@)->Some_0),
            Err(e) => !(forall|j: int|
                0 <= j < names@.len() ==> known_ty((#[trigger] names@[j])@) is Some) && e
                == Error::BadMetadata,
        },
{
    let mut ids: Vec<u32> = Vec::new();
    let mut k: usize = 0;
    while k < names.len()
        invariant
            k <= names@.len(),
            ids@.len() == k,
            forall|j: int| 0 <= j < k ==> known_ty((#[trigger] names@[j])@) is Some,
            forall|j: int| 0 <= j < k ==> #[trigger] ids@[j] == known_ty(names@[j]@)->Some_0,
        decreases names@.len() - k,
    {
        match known_ty_exec(names[k].as_slice()) {
            Some(id) => {
                ids.push(id);
            },
            None => {
                return Err(Error::BadMetadata);
            },
        }
        k += 1;
    }
    Ok(ids)
}

fn normalize_legacy_entry(re: &RawLegacyEntry, many: bool) -> (r: Result<StorageEntry, Error>)
    ensures
        match r {
            Ok(ne) => wf_legacy_kind(re.kind, many) && ne.name@ == re.name@ && legacy_kind_norm(
                re.kind,
                ne.kind,
            ),
            Err(e) => !wf_legacy_kind(re.kind, many) && e == Error::BadMetadata,
        },
{
    let name = copy_bytes(&re.name);
    match &re.kind {
        RawLegacyKind::Plain { value_ty_name } => match known_ty_exec(value_ty_name.as_slice()) {
            Some(id) => Ok(StorageEntry { name, kind: EntryKind::Plain { value_ty: id } }),
            None => Err(Error::BadMetadata),
        },
        RawLegacyKind::Keyed { hasher_codes, key_ty_names, value_ty_name } => {
            if hasher_codes.len() < 1 || hasher_codes.len() != key_ty_names.len() {
                return Err(Error::BadMetadata);
            }
            if !many && hasher_codes.len() > 2 {
                return Err(Error::BadMetadata);
            }
            let hashers = match map_hashers(hasher_codes) {
                Ok(hs) => hs,
                Err(e) => {
                    return Err(e);
                },
            };
            let key_tys = match map_known(key_ty_names) {
                Ok(ids) => ids,
                Err(e) => {
                    return Err(e);
                },
            };
            match known_ty_exec(value_ty_name.as_slice()) {
                Some(id) => Ok(
                    StorageEntry {
                        name,
                        kind: EntryKind::Mapped { hashers, key_tys, value_ty: id },
                    },
                ),
                None => Err(Error::BadMetadata),
            }
        },
    }
}

fn normalize_current_entry(re: &RawCurrentEntry, n_types: usize) -> (r: Result<StorageEntry, Error>)
    ensures
        match r {
            Ok(ne) => wf_current_kind(re.kind, n_types as int) && ne.name@ == re.name@
                && current_kind_norm(re.kind, ne.kind),
            Err(e) => !wf_current_kind(re.kind, n_types as int) && e == Error::BadMetadata,
        },
{
    let name = copy_bytes(&re.name);
    match &re.kind {
        RawCurrentKind::Plain { value_ty } => {
            if (*value_ty as usize) < n_types {
                Ok(StorageEntry { name, kind: EntryKind::Plain { value_ty: *value_ty } })
            } else {
                Err(Error::BadMetadata)
            }
        },
        RawCurrentKind::Keyed { hasher_codes, key_tys, value_ty } => {
            if hasher_codes.len() < 1 || hasher_codes.len() != key_tys.len() {
                return Err(Error::BadMetadata);
            }
            if (*value_ty as usize) >= n_types {
                return Err(Error::BadMetadata);
            }
            let mut k: usize = 0;
            while k < key_tys.len()
                invariant
                    k <= key_tys@.len(),
                    re.kind == (RawCurrentKind::Keyed {
                        hasher_codes: *hasher_codes,
                        key_tys: *key_tys,
                        value_ty: *value_ty,
                    }),
                    forall|j: int| 0 <= j < k ==> (#[trigger] key_tys@[j] as usize) < n_types,
                decreases key_tys@.len() - k,
            {
                if (key_tys[k] as usize) >= n_types {
                    proof {
                        assert(!(key_tys@[k as int] < n_types as int));
                    }
                    return Err(Error::BadMetadata);
                }
                k += 1;
            }
            let hashers = match map_hashers(hasher_codes) {
                Ok(hs) => hs,
                Err(e) => {
                    return Err(e);
                },
            };
            let keys_copy = {
                let mut kc: Vec<u32> = Vec::new();
                let mut j: usize = 0;
                while j < key_tys.len()
                    invariant
                        j <= key_tys@.len(),
                        kc@ == key_tys@.take(j as int),
                    decreases key_tys@.len() - j,
                {
                    kc.push(key_tys[j]);
                    j += 1;
                    proof {
                        assert(kc@ =~= key_tys@.take(j as int));
                    }
                }
                proof {
                    assert(key_tys@.take(key_tys@.len() as int) =~= key_tys@);
                }
                kc
            };
            Ok(
                StorageEntry {
                    name,
                    kind: EntryKind::Mapped { hashers, key_tys: keys_copy, value_ty: *value_ty },
                },
            )
        },
    }
}

fn normalize_legacy_pallet(rp: &RawLegacyPallet, many: bool) -> (r: Result<Pallet, Error>)
    ensures
        match r {
            Ok(np) => legacy_pallet_wf(*rp, many) && legacy_pallet_rel(*rp, np),
            Err(e) => !legacy_pallet_wf(*rp, many) && e == Error::BadMetadata,
        },
{
    let name = copy_bytes(&rp.name);
    let mut entries: Vec<StorageEntry> = Vec::new();
    let mut k: usize = 0;
    while k < rp.entries.len()
        invariant
            k <= rp.entries@.len(),
            entries@.len() == k,
            forall|e: int| 0 <= e < k ==> wf_legacy_kind((#[trigger] rp.entries@[e]).kind, many),
            forall|e: int|
                0 <= e < k ==> (#[trigger] entries@[e]).name@ == rp.entries@[e].name@
                    && legacy_kind_norm(rp.entries@[e].kind, entries@[e].kind),
        decreases rp.entries@.len() - k,
    {
        match normalize_legacy_entry(&rp.entries[k], many) {
            Ok(ne) => {
                entries.push(ne);
            },
            Err(e) => {
                return Err(e);
            },
        }
        k += 1;
    }
    Ok(Pallet { name, entries })
}

fn normalize_current_pallet(rp: &RawCurrentPallet, n_types: usize) -> (r: Result<Pallet, Error>)
    ensures
        match r {
            Ok(np) => current_pallet_wf(*rp, n_types as int) && current_pallet_rel(*rp, np),
            Err(e) => !current_pallet_wf(*rp, n_types as int) && e == Error::BadMetadata,
        },
{
    let name = copy_bytes(&rp.name);
    let mut entries: Vec<StorageEntry> = Vec::new();
    let mut k: usize = 0;
    while k < rp.entries.len()
        invariant
            k <= rp.entries@.len(),
            entries@.len() == k,
            forall|e: int|
                0 <= e < k ==> wf_current_kind((#[trigger] rp.entries@[e]).kind, n_types as int),
            forall|e: int|
                0 <= e < k ==> (#[trigger] entries@[e]).name@ == rp.entries@[e].name@
                    && current_kind_norm(rp.entries@[e].kind, entries@[e].kind),
        decreases rp.entries@.len() - k,
    {
        match normalize_current_entry(&rp.entries[k], n_types) {
            Ok(ne) => {
                entries.push(ne);
            },
            Err(e) => {
                return Err(e);
            },
        }
        k += 1;
    }
    Ok(Pallet { name, entries })
}

fn normalize_legacy(ps: &Vec<RawLegacyPallet>, many: bool) -> (r: Result<Vec<Pallet>, Error>)
    ensures
        match r {
            Ok(nps) => wf_legacy(ps@, many) && nps@.len() == ps@.len() && (forall|p: int|
                0 <= p < ps@.len() ==> legacy_pallet_rel(ps@[p], #[trigger] nps@[p])),
            Err(e) => !wf_legacy(ps@, many) && e == Error::BadMetadata,
        },
{
    let mut nps: Vec<Pallet> = Vec::new();
    let mut k: usize = 0;
    while k < ps.len()
        invariant
            k <= ps@.len(),
            nps@.len() == k,
            forall|p: int| 0 <= p < k ==> legacy_pallet_wf(#[trigger] ps@[p], many),
            forall|p: int| 0 <= p < k ==> legacy_pallet_rel(ps@[p], #[trigger] nps@[p]),
        decreases ps@.len() - k,
    {
        match normalize_legacy_pallet(&ps[k], many) {
            Ok(np) => {
                nps.push(np);
            },
            Err(e) => {
                return Err(e);
            },
        }
        k += 1;
    }
    Ok(nps)
}

fn legacy_registry() -> (r: Registry)
    ensures
        r.types@ == legacy_types(),
{
    let types = vec![
        TypeDef::U8,
        TypeDef::U16,
        TypeDef::U32,
        TypeDef::U64,
        TypeDef::U128,
        TypeDef::Bool,
    ];
    proof {
        assert(types@ =~= legacy_types());
    }
    Registry { types }
}

/// Normalizes a raw metadata blob of any supported version into the
/// single version-independent view: exactly the well-formed blobs
/// normalize, and anything else is `BadMetadata`.
pub fn normalize(raw: RawMetadata) -> (r: Result<Metadata, Error>)
    ensures
        match r {
            Ok(m) => wf_raw(raw) && norm_rel(raw, m),
            Err(e) => !wf_raw(raw) && e == Error::BadMetadata,
        },
{
    match raw {
        RawMetadata::LegacyV1(ps) => match normalize_legacy(&ps, false) {
            Ok(pallets) => Ok(Metadata { pallets, registry: legacy_registry() }),
            Err(e) => Err(e),
        },
        RawMetadata::LegacyV2(ps) => match normalize_legacy(&ps, true) {
            Ok(pallets) => Ok(Metadata { pallets, registry: legacy_registry() }),
            Err(e) => Err(e),
        },
        RawMetadata::Current(rc) => {
            let RawCurrent { pallets: rps, types } = rc;
            let n_types = types.len();
            let mut pallets: Vec<Pallet> = Vec::new();
            let mut k: usize = 0;
            while k < rps.len()
                invariant
                    k <= rps@.len(),
                    pallets@.len() == k,
                    n_types == types@.len(),
                    raw is Current,
                    rps@ == raw->Current_0.pallets@,
                    types@ == raw->Current_0.types@,
                    forall|p: int|
                        0 <= p < k ==> current_pallet_wf(#[trigger] rps@[p], n_types as int),
                    forall|p: int|
                        0 <= p < k ==> current_pallet_rel(rps@[p], #[trigger] pallets@[p]),
                decreases rps@.len() - k,
            {
                match normalize_current_pallet(&rps[k], n_types) {
                    Ok(np) => {
                        pallets.push(np);
                    },
                    Err(e) => {
                        proof {
                            assert(!current_pallet_wf(rps@[k as int], n_types as int));
                        }
                        return Err(e);
                    },
                }
                k += 1;
            }
            Ok(Metadata { pallets, registry: Registry { types } })
        },
    }
}

/// A normalized view is well formed: every map entry pairs each
/// declared hasher with a key type.
pub proof fn lemma_normalize_wf(raw: RawMetadata, m: Metadata)
    requires
        wf_raw(raw),
        norm_rel(raw, m),
    ensures
        wf_metadata(m),
{
    assert forall|p: int, e: int|
        0 <= p < m.pallets@.len() && 0 <= e < m.pallets@[p].entries@.len() implies wf_entry(
        m.pallets@[p].entries@[e],
    ) by {
        match raw {
            RawMetadata::LegacyV1(ps) => {
                assert(legacy_pallet_rel(ps@[p], m.pallets@[p]));
                assert(legacy_pallet_wf(ps@[p], false));
                assert(wf_legacy_kind(ps@[p].entries@[e].kind, false));
                assert(legacy_kind_norm(ps@[p].entries@[e].kind, m.pallets@[p].entries@[e].kind));
            },
            RawMetadata::LegacyV2(ps) => {
                assert(legacy_pallet_rel(ps@[p], m.pallets@[p]));
                assert(legacy_pallet_wf(ps@[p], true));
                assert(wf_legacy_kind(ps@[p].entries@[e].kind, true));
                assert(legacy_kind_norm(ps@[p].entries@[e].kind, m.pallets@[p].entries@[e].kind));
            },
            RawMetadata::Current(rc) => {
                assert(current_pallet_rel(rc.pallets@[p], m.pallets@[p]));
                assert(current_pallet_wf(rc.pallets@[p], rc.types@.len() as int));
                assert(wf_current_kind(rc.pallets@[p].entries@[e].kind, rc.types@.len() as int));
                assert(current_kind_norm(
                    rc.pallets@[p].entries@[e].kind,
                    m.pallets@[p].entries@[e].kind,
                ));
            },
        }
    }
}

} // verus!
