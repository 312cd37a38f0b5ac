//! Registry-driven value encoding and decoding.
//!
//! Values travel as a concatenation of little-endian scalars, compact
//! length prefixes and discriminant bytes, shaped by type descriptors
//! looked up in a registry by integer identifier. Decoding consumes
//! exactly the bytes the shape dictates and reports how many.

use vstd::arithmetic::div_mod::{lemma_fundamental_div_mod, lemma_mod_multiples_vanish};
use vstd::prelude::*;
use vstd::slice::{slice_subrange, slice_to_vec};

use crate::Error;

verus! {

/// The little-endian bytes of `v`, truncated or zero-padded to `n` bytes.
pub open spec fn le_bytes(v: nat, n: nat) -> Seq<u8>
    decreases n,
{
    if n == 0 {
        Seq::empty()
    } else {
        seq![(v % 256) as u8] + le_bytes(v / 256, (n - 1) as nat)
    }
}

/// The number read from a little-endian byte sequence.
pub open spec fn le_val(s: Seq<u8>) -> nat
    decreases s.len(),
{
    if s.len() == 0 {
        0nat
    } else {
        (s[0] + 256 * le_val(s.drop_first())) as nat
    }
}

/// 256 to the `n`.
pub open spec fn pow256(n: nat) -> nat
    decreases n,
{
    if n == 0 {
        1nat
    } else {
        256 * pow256((n - 1) as nat)
    }
}

/// The least number of bytes that can carry `v`.
pub open spec fn byte_len(v: nat) -> nat
    decreases v,
{
    if v == 0 {
        0nat
    } else {
        1 + byte_len(v / 256)
    }
}

pub proof fn lemma_le_bytes_len(v: nat, n: nat)
    ensures
        le_bytes(v, n).len() == n,
    decreases n,
{
    if n > 0 {
        lemma_le_bytes_len(v / 256, (n - 1) as nat);
    }
}

pub proof fn lemma_pow256_pos(n: nat)
    ensures
        pow256(n) >= 1,
    decreases n,
{
    if n > 0 {
        lemma_pow256_pos((n - 1) as nat);
    }
}

proof fn lemma_div_ordering_helper(v: nat, n: nat)
    requires
        n > 0,
        v < pow256(n),
    ensures
        v / 256 < pow256((n - 1) as nat),
{
    let p = pow256((n - 1) as nat);
    lemma_pow256_pos((n - 1) as nat);
    assert(v < 256 * p);
    assert(v / 256 < p) by (nonlinear_arith)
        requires
            v < 256 * p,
            v >= 0,
            p > 0,
    ;
}

/// Reading back the little-endian bytes of `v` returns `v`.
pub proof fn lemma_le_roundtrip(v: nat, n: nat)
    requires
        v < pow256(n),
    ensures
        le_val(le_bytes(v, n)) == v,
    decreases n,
{
    if n == 0 {
    } else {
        lemma_div_ordering_helper(v, n);
        lemma_le_roundtrip(v / 256, (n - 1) as nat);
        lemma_le_bytes_len(v / 256, (n - 1) as nat);
        assert(le_bytes(v, n).drop_first() =~= le_bytes(v / 256, (n - 1) as nat));
        lemma_fundamental_div_mod(v as int, 256);
    }
}

/// `byte_len(v) <= n` exactly when `v` fits in `n` bytes.
pub proof fn lemma_byte_len_le(v: nat, n: nat)
    ensures
        byte_len(v) <= n <==> v < pow256(n),
    decreases n,
{
    if n == 0 {
        lemma_pow256_pos(n);
    } else {
        lemma_byte_len_le(v / 256, (n - 1) as nat);
        let p = pow256((n - 1) as nat);
        lemma_pow256_pos((n - 1) as nat);
        assert(v / 256 < p <==> v < 256 * p) by (nonlinear_arith)
            requires
                v >= 0,
                p >= 1,
        ;
        if v == 0 {
            lemma_pow256_pos(n);
        }
    }
}

pub proof fn lemma_le_val_bound(s: Seq<u8>)
    ensures
        le_val(s) < pow256(s.len() as nat),
    decreases s.len(),
{
    if s.len() == 0 {
    } else {
        lemma_le_val_bound(s.drop_first());
        let t = le_val(s.drop_first());
        let p = pow256((s.len() - 1) as nat);
        assert(256 * t <= 256 * (p - 1)) by (nonlinear_arith)
            requires
                t <= p - 1,
        ;
    }
}

/// The compact encoding of an unsigned integer: two mode bits in the
/// first byte select a one-, two- or four-byte form with the value
/// shifted past the mode bits, or a length-prefixed little-endian form.
pub open spec fn compact_enc(v: u128) -> Seq<u8> {
    if v < 64 {
        seq![(v * 4) as u8]
    } else if v < 16384 {
        le_bytes((v * 4 + 1) as nat, 2)
    } else if v < 1073741824 {
        le_bytes((v * 4 + 2) as nat, 4)
    } else {
        seq![(((byte_len(v as nat) - 4) * 4 + 3) as u8)] + le_bytes(v as nat, byte_len(v as nat))
    }
}

/// Decoding a compact integer at position `i` of `s`: the value and the
/// number of bytes consumed, or nothing when the buffer is too short or
/// the length nibble exceeds what a 16-byte integer can carry.
pub open spec fn dec_compact(s: Seq<u8>, i: int) -> Option<(u128, int)> {
    if !(0 <= i < s.len()) {
        None
    } else {
        let m = s[i] % 4;
        if m == 0 {
            Some(((s[i] / 4) as u128, 1))
        } else if m == 1 {
            if i + 2 <= s.len() {
                Some(((le_val(s.subrange(i, i + 2)) / 4) as u128, 2))
            } else {
                None
            }
        } else if m == 2 {
            if i + 4 <= s.len() {
                Some(((le_val(s.subrange(i, i + 4)) / 4) as u128, 4))
            } else {
                None
            }
        } else {
            let n = s[i] / 4 + 4;
            if n <= 16 && i + 1 + n <= s.len() {
                Some(((le_val(s.subrange(i + 1, i + 1 + n))) as u128, 1 + n))
            } else {
                None
            }
        }
    }
}

proof fn lemma_mod4_of_first(x: nat, n: nat)
    requires
        n >= 1,
    ensures
        le_bytes(x, n)[0] == (x % 256) as u8,
        (x % 256) % 4 == x % 4,
{
    assert(le_bytes(x, n)[0] == (x % 256) as u8);
    lemma_fundamental_div_mod(x as int, 256);
    assert(x == 256 * (x as int / 256) + x % 256);
    assert((4 * (64 * (x as int / 256)) + (x % 256)) % 4 == (x % 256) % 4) by {
        lemma_mod_multiples_vanish(64 * (x as int / 256), (x % 256) as int, 4);
    }
    assert(4 * (64 * (x as int / 256)) == 256 * (x as int / 256)) by (nonlinear_arith);
}

/// Decoding a compact encoding laid at position `i` of `s` returns the
/// encoded value and consumes exactly the encoding's length.
pub proof fn lemma_compact_roundtrip(v: u128, s: Seq<u8>, i: int)
    requires
        0 <= i,
        i + compact_enc(v).len() <= s.len(),
        s.subrange(i, i + compact_enc(v).len()) == compact_enc(v),
    ensures
        dec_compact(s, i) == Some((v, compact_enc(v).len() as int)),
{
    let e = compact_enc(v);
    assert(s[i] == e[0]) by {
        assert(s.subrange(i, i + e.len())[0] == s[i]);
    }
    if v < 64 {
        assert(e == seq![(v * 4) as u8]);
        assert(v * 4 < 256);
        assert(s[i] % 4 == 0);
        assert(s[i] / 4 == v);
    } else if v < 16384 {
        let x = (v * 4 + 1) as nat;
        lemma_le_bytes_len(x, 2);
        assert(x < pow256(2)) by {
            reveal_with_fuel(pow256, 3);
        }
        lemma_mod4_of_first(x, 2);
        assert(s[i] % 4 == 1);
        assert(s.subrange(i, i + 2) =~= e) by {
            assert(forall|j: int|
                0 <= j < 2 ==> #[trigger] s.subrange(i, i + 2)[j] == s.subrange(i, i + e.len())[j]);
        }
        lemma_le_roundtrip(x, 2);
        assert(le_val(s.subrange(i, i + 2)) == x);
        assert(x / 4 == v);
    } else if v < 1073741824 {
        let x = (v * 4 + 2) as nat;
        lemma_le_bytes_len(x, 4);
        assert(x < pow256(4)) by {
            reveal_with_fuel(pow256, 5);
        }
        lemma_mod4_of_first(x, 4);
        assert(s[i] % 4 == 2);
        assert(s.subrange(i, i + 4) =~= e) by {
            assert(forall|j: int|
                0 <= j < 4 ==> #[trigger] s.subrange(i, i + 4)[j] == s.subrange(i, i + e.len())[j]);
        }
        lemma_le_roundtrip(x, 4);
        assert(le_val(s.subrange(i, i + 4)) == x);
        assert(x / 4 == v);
    } else {
        let b = byte_len(v as nat);
        assert((v as nat) < pow256(16)) by {
            reveal_with_fuel(pow256, 17);
        }
        assert(b <= 16) by {
            lemma_byte_len_le(v as nat, 16);
        }
        assert(b >= 4) by {
            lemma_byte_len_le(v as nat, 3);
            reveal_with_fuel(pow256, 4);
        }
        let h = (((b - 4) * 4 + 3)) as u8;
        assert(e[0] == h);
        assert((b - 4) * 4 + 3 <= 51);
        assert(h % 4 == 3) by {
            lemma_mod_multiples_vanish((b - 4) as int, 3, 4);
        }
        assert(h / 4 == b - 4) by {
            lemma_fundamental_div_mod(h as int, 4);
            lemma_mod_multiples_vanish((b - 4) as int, 3, 4);
        }
        assert(s[i] / 4 + 4 == b);
        lemma_le_bytes_len(v as nat, b);
        assert(e.len() == 1 + b);
        assert(s.subrange(i + 1, i + 1 + b) =~= le_bytes(v as nat, b)) by {
            assert(forall|j: int|
                0 <= j < b ==> #[trigger] s.subrange(i + 1, i + 1 + b)[j] == s.subrange(i, i + e.len())[j + 1]);
        }
        lemma_byte_len_le(v as nat, b);
        lemma_le_roundtrip(v as nat, b);
    }
}

/// One variant of a tagged union: its name, the discriminant byte that
/// selects it on the wire, and its field type identifiers in order.
#[derive(Clone, Debug)]
pub struct VariantDef {
    pub name: Vec<u8>,
    pub index: u8,
    pub fields: Vec<u32>,
}

/// A type descriptor. Fields and elements refer to other descriptors by
/// their identifier in the registry, so types may be recursive.
#[derive(Clone, Debug)]
pub enum TypeDef {
    /// A boolean: one byte, zero or one.
    Bool,
    /// Fixed-width little-endian unsigned integers.
    U8,
    U16,
    U32,
    U64,
    U128,
    /// A compact-encoded unsigned integer.
    Compact,
    /// A sequence with a compact length prefix; the element type.
    Sequence(u32),
    /// A fixed-size array: the length and the element type.
    Array(u32, u32),
    /// A tuple of the given field types, no prefix.
    Tuple(Vec<u32>),
    /// A composite with ordered fields, encoded like a tuple.
    Composite(Vec<u32>),
    /// A tagged union: one discriminant byte, then the variant's fields.
    Variants(Vec<VariantDef>),
    /// A bit sequence: a compact bit count, then the packed bytes.
    Bits,
}

/// The chain's catalog of type descriptors, addressed by identifier.
#[derive(Clone, Debug)]
pub struct Registry {
    pub types: Vec<TypeDef>,
}

/// A structured value mirroring a type descriptor's shape.
#[derive(Debug)]
pub enum Value {
    /// A boolean scalar.
    Bool(bool),
    /// Fixed-width unsigned scalars, little-endian on the wire.
    U8(u8),
    U16(u16),
    U32(u32),
    U64(u64),
    U128(u128),
    /// A compact-encoded unsigned integer.
    Compact(u128),
    /// The ordered children of a sequence, array, tuple or composite.
    List(Vec<Value>),
    /// A tagged union value: the variant's discriminant and its fields.
    Variant(u8, Vec<Value>),
    /// A bit sequence: the number of bits and the bytes they are packed in.
    Bits(u64, Vec<u8>),
}

/// The mathematical model of a structured value.
pub enum SpecValue {
    Bool(bool),
    U8(u8),
    U16(u16),
    U32(u32),
    U64(u64),
    U128(u128),
    Compact(u128),
    List(Seq<SpecValue>),
    Variant(u8, Seq<SpecValue>),
    Bits(u64, Seq<u8>),
}

/// The model of an executable value.
pub open spec fn sv(v: Value) -> SpecValue
    decreases v,
{
    match v {
        Value::Bool(b) => SpecValue::Bool(b),
        Value::U8(x) => SpecValue::U8(x),
        Value::U16(x) => SpecValue::U16(x),
        Value::U32(x) => SpecValue::U32(x),
        Value::U64(x) => SpecValue::U64(x),
        Value::U128(x) => SpecValue::U128(x),
        Value::Compact(x) => SpecValue::Compact(x),
        Value::List(vs) => SpecValue::List(sv_list(vs@)),
        Value::Variant(ix, vs) => SpecValue::Variant(ix, sv_list(vs@)),
        Value::Bits(n, bs) => SpecValue::Bits(n, bs@),
    }
}

/// The models of a list of executable values, in order.
pub open spec fn sv_list(vs: Seq<Value>) -> Seq<SpecValue>
    decreases vs,
{
    if vs.len() == 0 {
        Seq::empty()
    } else {
        seq![sv(vs[0])] + sv_list(vs.drop_first())
    }
}

impl View for Value {
    type V = SpecValue;

    open spec fn view(&self) -> SpecValue {
        sv(*self)
    }
}

pub proof fn lemma_sv_list(vs: Seq<Value>)
    ensures
        sv_list(vs).len() == vs.len(),
        forall|j: int| 0 <= j < vs.len() ==> sv_list(vs)[j] == sv(vs[j]),
    decreases vs,
{
    if vs.len() > 0 {
        lemma_sv_list(vs.drop_first());
        assert forall|j: int| 0 <= j < vs.len() implies sv_list(vs)[j] == sv(vs[j]) by {
            if j > 0 {
                assert(sv_list(vs)[j] == sv_list(vs.drop_first())[j - 1]);
                assert(vs.drop_first()[j - 1] == vs[j]);
            }
        }
    }
}

/// The descriptor an identifier resolves to, if it is in range.
pub open spec fn resolve(reg: Seq<TypeDef>, ty: int) -> Option<TypeDef> {
    if 0 <= ty < reg.len() {
        Some(reg[ty])
    } else {
        None
    }
}

/// The first variant carrying the given discriminant.
pub open spec fn find_variant(vars: Seq<VariantDef>, ix: u8) -> Option<VariantDef>
    decreases vars.len(),
{
    if vars.len() == 0 {
        None
    } else if vars[0].index == ix {
        Some(vars[0])
    } else {
        find_variant(vars.drop_first(), ix)
    }
}

/// Whether `v` is a representable value of type `ty`: its tree has the
/// shape the descriptor declares, with lengths that the wire can carry.
pub open spec fn val_matches(reg: Seq<TypeDef>, ty: int, v: SpecValue) -> bool
    decreases v,
{
    match resolve(reg, ty) {
        None => false,
        Some(td) => match td {
            TypeDef::Bool => v is Bool,
            TypeDef::U8 => v is U8,
            TypeDef::U16 => v is U16,
            TypeDef::U32 => v is U32,
            TypeDef::U64 => v is U64,
            TypeDef::U128 => v is U128,
            TypeDef::Compact => v is Compact,
            TypeDef::Sequence(e) => match v {
                SpecValue::List(vs) => vs.len() <= usize::MAX && matches_list(reg, e as int, vs),
                _ => false,
            },
            TypeDef::Array(n, e) => match v {
                SpecValue::List(vs) => vs.len() == n && matches_list(reg, e as int, vs),
                _ => false,
            },
            TypeDef::Tuple(tys) => match v {
                SpecValue::List(vs) => vs.len() == tys@.len() && matches_zip(reg, tys@, vs),
                _ => false,
            },
            TypeDef::Composite(tys) => match v {
                SpecValue::List(vs) => vs.len() == tys@.len() && matches_zip(reg, tys@, vs),
                _ => false,
            },
            TypeDef::Variants(vars) => match v {
                SpecValue::Variant(ix, vs) => match find_variant(vars@, ix) {
                    Some(d) => vs.len() == d.fields@.len() && matches_zip(reg, d.fields@, vs),
                    None => false,
                },
                _ => false,
            },
            TypeDef::Bits => match v {
                SpecValue::Bits(n, bs) => bs.len() == (n as nat + 7) / 8,
                _ => false,
            },
        },
    }
}

pub open spec fn matches_list(reg: Seq<TypeDef>, ety: int, vs: Seq<SpecValue>) -> bool
    decreases vs,
{
    if vs.len() == 0 {
        true
    } else {
        val_matches(reg, ety, vs[0]) && matches_list(reg, ety, vs.drop_first())
    }
}

pub open spec fn matches_zip(reg: Seq<TypeDef>, tys: Seq<u32>, vs: Seq<SpecValue>) -> bool
    decreases vs,
{
    if vs.len() == 0 {
        true
    } else if tys.len() == 0 {
        false
    } else {
        val_matches(reg, tys[0] as int, vs[0]) && matches_zip(reg, tys.drop_first(), vs.drop_first())
    }
}

/// The encoding of `v` at type `ty`. Meaningful when `val_matches`
/// holds; empty on a shape mismatch.
pub open spec fn enc(reg: Seq<TypeDef>, ty: int, v: SpecValue) -> Seq<u8>
    decreases v,
{
    match resolve(reg, ty) {
        None => Seq::empty(),
        Some(td) => match td {
            TypeDef::Bool => match v {
                SpecValue::Bool(b) => seq![if b { 1u8 } else { 0u8 }],
                _ => Seq::empty(),
            },
            TypeDef::U8 => match v {
                SpecValue::U8(x) => le_bytes(x as nat, 1),
                _ => Seq::empty(),
            },
            TypeDef::U16 => match v {
                SpecValue::U16(x) => le_bytes(x as nat, 2),
                _ => Seq::empty(),
            },
            TypeDef::U32 => match v {
                SpecValue::U32(x) => le_bytes(x as nat, 4),
                _ => Seq::empty(),
            },
            TypeDef::U64 => match v {
                SpecValue::U64(x) => le_bytes(x as nat, 8),
                _ => Seq::empty(),
            },
            TypeDef::U128 => match v {
                SpecValue::U128(x) => le_bytes(x as nat, 16),
                _ => Seq::empty(),
            },
            TypeDef::Compact => match v {
                SpecValue::Compact(x) => compact_enc(x),
                _ => Seq::empty(),
            },
            TypeDef::Sequence(e) => match v {
                SpecValue::List(vs) => compact_enc(vs.len() as u128) + enc_list(reg, e as int, vs),
                _ => Seq::empty(),
            },
            TypeDef::Array(_n, e) => match v {
                SpecValue::List(vs) => enc_list(reg, e as int, vs),
                _ => Seq::empty(),
            },
            TypeDef::Tuple(tys) => match v {
                SpecValue::List(vs) => enc_zip(reg, tys@, vs),
                _ => Seq::empty(),
            },
            TypeDef::Composite(tys) => match v {
                SpecValue::List(vs) => enc_zip(reg, tys@, vs),
                _ => Seq::empty(),
            },
            TypeDef::Variants(vars) => match v {
                SpecValue::Variant(ix, vs) => match find_variant(vars@, ix) {
                    Some(d) => seq![ix] + enc_zip(reg, d.fields@, vs),
                    None => Seq::empty(),
                },
                _ => Seq::empty(),
            },
            TypeDef::Bits => match v {
                SpecValue::Bits(n, bs) => compact_enc(n as u128) + bs,
                _ => Seq::empty(),
            },
        },
    }
}

pub open spec fn enc_list(reg: Seq<TypeDef>, ety: int, vs: Seq<SpecValue>) -> Seq<u8>
    decreases vs,
{
    if vs.len() == 0 {
        Seq::empty()
    } else {
        enc(reg, ety, vs[0]) + enc_list(reg, ety, vs.drop_first())
    }
}

pub open spec fn enc_zip(reg: Seq<TypeDef>, tys: Seq<u32>, vs: Seq<SpecValue>) -> Seq<u8>
    decreases vs,
{
    if vs.len() == 0 || tys.len() == 0 {
        Seq::empty()
    } else {
        enc(reg, tys[0] as int, vs[0]) + enc_zip(reg, tys.drop_first(), vs.drop_first())
    }
}

/// The nesting depth of a value tree; decoding it needs this much fuel.
pub open spec fn sheight(v: SpecValue) -> nat
    decreases v,
{
    match v {
        SpecValue::List(vs) => 1 + height_list(vs),
        SpecValue::Variant(_ix, vs) => 1 + height_list(vs),
        _ => 1nat,
    }
}

pub open spec fn height_list(vs: Seq<SpecValue>) -> nat
    decreases vs,
{
    if vs.len() == 0 {
        0nat
    } else {
        let h = sheight(vs[0]);
        let t = height_list(vs.drop_first());
        if h > t {
            h
        } else {
            t
        }
    }
}

/// Decoding at type `ty` from position `i` of `s`: the value and the
/// number of bytes consumed, or nothing when the bytes are malformed,
/// too short, or the nesting outruns `fuel`.
pub open spec fn dec(reg: Seq<TypeDef>, ty: int, s: Seq<u8>, i: int, fuel: nat) -> Option<
    (SpecValue, int),
>
    decreases fuel, 0int,
{
    if fuel == 0 {
        None
    } else {
        match resolve(reg, ty) {
            None => None,
            Some(td) => match td {
                TypeDef::Bool => {
                    if 0 <= i && i + 1 <= s.len() {
                        if s[i] == 0 {
                            Some((SpecValue::Bool(false), 1))
                        } else if s[i] == 1 {
                            Some((SpecValue::Bool(true), 1))
                        } else {
                            None
                        }
                    } else {
                        None
                    }
                },
                TypeDef::U8 => {
                    if 0 <= i && i + 1 <= s.len() {
                        Some((SpecValue::U8(le_val(s.subrange(i, i + 1)) as u8), 1))
                    } else {
                        None
                    }
                },
                TypeDef::U16 => {
                    if 0 <= i && i + 2 <= s.len() {
                        Some((SpecValue::U16(le_val(s.subrange(i, i + 2)) as u16), 2))
                    } else {
                        None
                    }
                },
                TypeDef::U32 => {
                    if 0 <= i && i + 4 <= s.len() {
                        Some((SpecValue::U32(le_val(s.subrange(i, i + 4)) as u32), 4))
                    } else {
                        None
                    }
                },
                TypeDef::U64 => {
                    if 0 <= i && i + 8 <= s.len() {
                        Some((SpecValue::U64(le_val(s.subrange(i, i + 8)) as u64), 8))
                    } else {
                        None
                    }
                },
                TypeDef::U128 => {
                    if 0 <= i && i + 16 <= s.len() {
                        Some((SpecValue::U128(le_val(s.subrange(i, i + 16)) as u128), 16))
                    } else {
                        None
                    }
                },
                TypeDef::Compact => match dec_compact(s, i) {
                    Some((x, k)) => Some((SpecValue::Compact(x), k)),
                    None => None,
                },
                TypeDef::Sequence(e) => match dec_compact(s, i) {
                    Some((cnt, k)) => {
                        if cnt <= usize::MAX as u128 {
                            match dec_list(reg, e as int, s, i + k, cnt as nat, (fuel - 1) as nat) {
                                Some((vs, j)) => Some((SpecValue::List(vs), k + j)),
                                None => None,
                            }
                        } else {
                            None
                        }
                    },
                    None => None,
                },
                TypeDef::Array(n, e) => {
                    match dec_list(reg, e as int, s, i, n as nat, (fuel - 1) as nat) {
                        Some((vs, j)) => Some((SpecValue::List(vs), j)),
                        None => None,
                    }
                },
                TypeDef::Tuple(tys) => match dec_zip(reg, tys@, s, i, (fuel - 1) as nat) {
                    Some((vs, j)) => Some((SpecValue::List(vs), j)),
                    None => None,
                },
                TypeDef::Composite(tys) => match dec_zip(reg, tys@, s, i, (fuel - 1) as nat) {
                    Some((vs, j)) => Some((SpecValue::List(vs), j)),
                    None => None,
                },
                TypeDef::Variants(vars) => {
                    if 0 <= i && i < s.len() {
                        match find_variant(vars@, s[i]) {
                            Some(d) => {
                                match dec_zip(reg, d.fields@, s, i + 1, (fuel - 1) as nat) {
                                    Some((vs, j)) => Some((SpecValue::Variant(s[i], vs), 1 + j)),
                                    None => None,
                                }
                            },
                            None => None,
                        }
                    } else {
                        None
                    }
                },
                TypeDef::Bits => match dec_compact(s, i) {
                    Some((cnt, k)) => {
                        if cnt <= u64::MAX as u128 {
                            let nb = (cnt as nat + 7) / 8;
                            if i + k + nb <= s.len() {
                                Some(
                                    (
                                        SpecValue::Bits(
                                            cnt as u64,
                                            s.subrange(i + k, i + k + nb as int),
                                        ),
                                        k + nb,
                                    ),
                                )
                            } else {
                                None
                            }
                        } else {
                            None
                        }
                    },
                    None => None,
                },
            },
        }
    }
}

pub open spec fn dec_list(
    reg: Seq<TypeDef>,
    ety: int,
    s: Seq<u8>,
    i: int,
    n: nat,
    fuel: nat,
) -> Option<(Seq<SpecValue>, int)>
    decreases fuel, n,
{
    if n == 0 {
        Some((Seq::empty(), 0))
    } else {
        match dec(reg, ety, s, i, fuel) {
            Some((v, k)) => match dec_list(reg, ety, s, i + k, (n - 1) as nat, fuel) {
                Some((vs, j)) => Some((seq![v] + vs, k + j)),
                None => None,
            },
            None => None,
        }
    }
}

pub open spec fn dec_zip(
    reg: Seq<TypeDef>,
    tys: Seq<u32>,
    s: Seq<u8>,
    i: int,
    fuel: nat,
) -> Option<(Seq<SpecValue>, int)>
    decreases fuel, tys.len(),
{
    if tys.len() == 0 {
        Some((Seq::empty(), 0))
    } else {
        match dec(reg, tys[0] as int, s, i, fuel) {
            Some((v, k)) => match dec_zip(reg, tys.drop_first(), s, i + k, fuel) {
                Some((vs, j)) => Some((seq![v] + vs, k + j)),
                None => None,
            },
            None => None,
        }
    }
}

proof fn lemma_subrange_split(s: Seq<u8>, i: int, x: Seq<u8>, y: Seq<u8>)
    requires
        0 <= i,
        i + x.len() + y.len() <= s.len(),
        s.subrange(i, i + x.len() + y.len()) == x + y,
    ensures
        s.subrange(i, i + x.len()) == x,
        s.subrange(i + x.len(), i + x.len() + y.len()) == y,
{
    let a = x.len() as int;
    let b = y.len() as int;
    assert(s.subrange(i, i + a) =~= x) by {
        assert(forall|j: int|
            0 <= j < a ==> #[trigger] s.subrange(i, i + a)[j] == s.subrange(i, i + a + b)[j]);
    }
    assert(s.subrange(i + a, i + a + b) =~= y) by {
        assert(forall|j: int|
            0 <= j < b ==> #[trigger] s.subrange(i + a, i + a + b)[j] == s.subrange(
                i,
                i + a + b,
            )[j + a]);
    }
}

proof fn lemma_pow256_table()
    ensures
        pow256(1) == 0x100,
        pow256(2) == 0x10000,
        pow256(4) == 0x100000000,
        pow256(8) == 0x10000000000000000,
        pow256(16) > u128::MAX,
{
    reveal_with_fuel(pow256, 17);
}

/// Decoding reads back exactly the value that was encoded, consuming
/// exactly the bytes the encoding produced, wherever the encoding lies
/// in a longer buffer.
pub proof fn lemma_dec_enc(reg: Seq<TypeDef>, ty: int, v: SpecValue, s: Seq<u8>, i: int, fuel: nat)
    requires
        val_matches(reg, ty, v),
        0 <= i,
        i + enc(reg, ty, v).len() <= s.len(),
        s.subrange(i, i + enc(reg, ty, v).len()) == enc(reg, ty, v),
        fuel >= sheight(v) + 1,
    ensures
        dec(reg, ty, s, i, fuel) == Some((v, enc(reg, ty, v).len() as int)),
    decreases v, 0int,
{
    let e = enc(reg, ty, v);
    let td = resolve(reg, ty)->Some_0;
    lemma_pow256_table();
    match td {
        TypeDef::Bool => {
            assert(s[i] == e[0]) by {
                assert(s.subrange(i, i + e.len())[0] == s[i]);
            }
        },
        TypeDef::U8 => {
            let x = v->U8_0;
            lemma_le_bytes_len(x as nat, 1);
            assert(s.subrange(i, i + 1) =~= e);
            lemma_le_roundtrip(x as nat, 1);
        },
        TypeDef::U16 => {
            let x = v->U16_0;
            lemma_le_bytes_len(x as nat, 2);
            assert(s.subrange(i, i + 2) =~= e);
            lemma_le_roundtrip(x as nat, 2);
        },
        TypeDef::U32 => {
            let x = v->U32_0;
            lemma_le_bytes_len(x as nat, 4);
            assert(s.subrange(i, i + 4) =~= e);
            lemma_le_roundtrip(x as nat, 4);
        },
        TypeDef::U64 => {
            let x = v->U64_0;
            lemma_le_bytes_len(x as nat, 8);
            assert(s.subrange(i, i + 8) =~= e);
            lemma_le_roundtrip(x as nat, 8);
        },
        TypeDef::U128 => {
            let x = v->U128_0;
            lemma_le_bytes_len(x as nat, 16);
            assert(s.subrange(i, i + 16) =~= e);
            lemma_le_roundtrip(x as nat, 16);
        },
        TypeDef::Compact => {
            lemma_compact_roundtrip(v->Compact_0, s, i);
        },
        TypeDef::Sequence(ety) => {
            let vs = v->List_0;
            let cl = compact_enc(vs.len() as u128);
            let el = enc_list(reg, ety as int, vs);
            assert(e == cl + el);
            lemma_subrange_split(s, i, cl, el);
            lemma_compact_roundtrip(vs.len() as u128, s, i);
            let k = cl.len() as int;
            lemma_dec_enc_list(reg, ety as int, vs, s, i + k, (fuel - 1) as nat);
        },
        TypeDef::Array(_n, ety) => {
            let vs = v->List_0;
            lemma_dec_enc_list(reg, ety as int, vs, s, i, (fuel - 1) as nat);
        },
        TypeDef::Tuple(tys) => {
            let vs = v->List_0;
            lemma_dec_enc_zip(reg, tys@, vs, s, i, (fuel - 1) as nat);
        },
        TypeDef::Composite(tys) => {
            let vs = v->List_0;
            lemma_dec_enc_zip(reg, tys@, vs, s, i, (fuel - 1) as nat);
        },
        TypeDef::Variants(vars) => {
            let ix = v->Variant_0;
            let vs = v->Variant_1;
            let d = find_variant(vars@, ix)->Some_0;
            let ez = enc_zip(reg, d.fields@, vs);
            assert(e == seq![ix] + ez);
            lemma_subrange_split(s, i, seq![ix], ez);
            assert(s[i] == ix) by {
                assert(s.subrange(i, i + 1)[0] == s[i]);
            }
            lemma_dec_enc_zip(reg, d.fields@, vs, s, i + 1, (fuel - 1) as nat);
        },
        TypeDef::Bits => {
            let n = v->Bits_0;
            let bs = v->Bits_1;
            let cl = compact_enc(n as u128);
            assert(e == cl + bs);
            lemma_subrange_split(s, i, cl, bs);
            lemma_compact_roundtrip(n as u128, s, i);
        },
    }
}

proof fn lemma_dec_enc_list(
    reg: Seq<TypeDef>,
    ety: int,
    vs: Seq<SpecValue>,
    s: Seq<u8>,
    i: int,
    fuel: nat,
)
    requires
        matches_list(reg, ety, vs),
        0 <= i,
        i + enc_list(reg, ety, vs).len() <= s.len(),
        s.subrange(i, i + enc_list(reg, ety, vs).len()) == enc_list(reg, ety, vs),
        fuel >= height_list(vs) + 1,
    ensures
        dec_list(reg, ety, s, i, vs.len() as nat, fuel) == Some(
            (vs, enc_list(reg, ety, vs).len() as int),
        ),
    decreases vs, 0int,
{
    if vs.len() == 0 {
    } else {
        let e0 = enc(reg, ety, vs[0]);
        let rest = enc_list(reg, ety, vs.drop_first());
        assert(enc_list(reg, ety, vs) == e0 + rest);
        lemma_subrange_split(s, i, e0, rest);
        lemma_dec_enc(reg, ety, vs[0], s, i, fuel);
        lemma_dec_enc_list(reg, ety, vs.drop_first(), s, i + e0.len(), fuel);
        assert(seq![vs[0]] + vs.drop_first() =~= vs);
    }
}

proof fn lemma_dec_enc_zip(
    reg: Seq<TypeDef>,
    tys: Seq<u32>,
    vs: Seq<SpecValue>,
    s: Seq<u8>,
    i: int,
    fuel: nat,
)
    requires
        matches_zip(reg, tys, vs),
        vs.len() == tys.len(),
        0 <= i,
        i + enc_zip(reg, tys, vs).len() <= s.len(),
        s.subrange(i, i + enc_zip(reg, tys, vs).len()) == enc_zip(reg, tys, vs),
        fuel >= height_list(vs) + 1,
    ensures
        dec_zip(reg, tys, s, i, fuel) == Some((vs, enc_zip(reg, tys, vs).len() as int)),
    decreases vs, 0int,
{
    if vs.len() == 0 {
        assert(tys.len() == 0);
    } else {
        let e0 = enc(reg, tys[0] as int, vs[0]);
        let rest = enc_zip(reg, tys.drop_first(), vs.drop_first());
        assert(enc_zip(reg, tys, vs) == e0 + rest);
        lemma_subrange_split(s, i, e0, rest);
        lemma_dec_enc(reg, tys[0] as int, vs[0], s, i, fuel);
        lemma_dec_enc_zip(reg, tys.drop_first(), vs.drop_first(), s, i + e0.len(), fuel);
        assert(seq![vs[0]] + vs.drop_first() =~= vs);
    }
}

/// Decoding is a left-inverse of encoding: for every representable
/// value of every supported type shape, decoding the encoding (with any
/// trailing bytes after it) returns the value and consumes exactly the
/// bytes the encoding produced.
pub proof fn lemma_decode_encode(reg: Seq<TypeDef>, ty: int, v: SpecValue, rest: Seq<u8>, fuel: nat)
    requires
        val_matches(reg, ty, v),
        fuel >= sheight(v) + 1,
    ensures
        dec(reg, ty, enc(reg, ty, v) + rest, 0, fuel) == Some(
            (v, enc(reg, ty, v).len() as int),
        ),
{
    let e = enc(reg, ty, v);
    let s = e + rest;
    assert(s.subrange(0, e.len() as int) =~= e);
    lemma_dec_enc(reg, ty, v, s, 0, fuel);
}

/// An absent storage value arrives as an empty byte sequence; wherever
/// the value type permits an empty representation, those bytes decode
/// to it without error.
pub proof fn lemma_empty_bytes_decode(reg: Seq<TypeDef>, ty: int, v: SpecValue, fuel: nat)
    requires
        val_matches(reg, ty, v),
        enc(reg, ty, v).len() == 0,
        fuel >= sheight(v) + 1,
    ensures
        dec(reg, ty, Seq::empty(), 0, fuel) == Some((v, 0int)),
{
    lemma_decode_encode(reg, ty, v, Seq::empty(), fuel);
    assert(enc(reg, ty, v) + Seq::<u8>::empty() =~= Seq::<u8>::empty());
}

proof fn lemma_pow256_mono(a: nat, b: nat)
    requires
        a <= b,
    ensures
        pow256(a) <= pow256(b),
    decreases b,
{
    if a < b && b > 0 {
        lemma_pow256_mono(a, (b - 1) as nat);
        lemma_pow256_pos((b - 1) as nat);
    }
}

/// Appends every byte of `src` to `dst`.
pub fn push_all(dst: &mut Vec<u8>, src: &[u8])
    ensures
        final(dst)@ == old(dst)@ + src@,
{
    let mut k: usize = 0;
    proof {
        assert(dst@ =~= dst@ + src@.subrange(0, 0));
    }
    while k < src.len()
        invariant
            k <= src.len(),
            dst@ == old(dst)@ + src@.subrange(0, k as int),
        decreases src.len() - k,
    {
        dst.push(src[k]);
        k += 1;
        proof {
            assert(old(dst)@ + src@.subrange(0, k as int) =~= dst@);
        }
    }
    proof {
        assert(src@.subrange(0, src@.len() as int) =~= src@);
    }
}

/// Reads `w` little-endian bytes at `i` as one number.
fn le_decode(s: &[u8], i: usize, w: usize) -> (r: u128)
    requires
        i + w <= s.len(),
        w <= 16,
    ensures
        r as nat == le_val(s@.subrange(i as int, i + w)),
{
    let mut acc: u128 = 0;
    let mut j: usize = 0;
    proof {
        assert(s@.subrange(i + w, i + w) =~= Seq::<u8>::empty());
    }
    while j < w
        invariant
            j <= w,
            w <= 16,
            i + w <= s.len(),
            acc as nat == le_val(s@.subrange(i + w - j, i + w)),
        decreases w - j,
    {
        proof {
            lemma_le_val_bound(s@.subrange(i + w - j, i + w));
            lemma_pow256_mono(j as nat, 15);
            reveal_with_fuel(pow256, 17);
            assert((acc as nat) * 256 + 255 < pow256(16)) by (nonlinear_arith)
                requires
                    (acc as nat) < pow256(15),
                    pow256(16) == 256 * pow256(15),
            ;
        }
        let b = s[i + w - 1 - j];
        acc = acc * 256 + (b as u128);
        j += 1;
        proof {
            let p = i + w - j;
            assert(s@.subrange(p, i + w).drop_first() =~= s@.subrange(p + 1, i + w));
            assert(s@.subrange(p, i + w)[0] == s@[p]);
        }
    }
    acc
}

/// Writes `v` as `n` little-endian bytes.
pub fn le_encode(v: u128, n: usize) -> (r: Vec<u8>)
    ensures
        r@ == le_bytes(v as nat, n as nat),
{
    let mut r: Vec<u8> = Vec::new();
    let mut x = v;
    let mut k: usize = 0;
    proof {
        assert(le_bytes(v as nat, n as nat) =~= r@ + le_bytes(v as nat, n as nat));
    }
    while k < n
        invariant
            k <= n,
            le_bytes(v as nat, n as nat) == r@ + le_bytes(x as nat, (n - k) as nat),
        decreases n - k,
    {
        let b = (x % 256) as u8;
        r.push(b);
        x = x / 256;
        k += 1;
        proof {
            assert(le_bytes(v as nat, n as nat) =~= r@ + le_bytes(x as nat, (n - k) as nat));
        }
    }
    proof {
        assert(le_bytes(v as nat, n as nat) =~= r@);
    }
    r
}

fn byte_len_exec(v: u128) -> (r: usize)
    ensures
        r as nat == byte_len(v as nat),
        r <= 16,
{
    proof {
        reveal_with_fuel(pow256, 17);
        lemma_byte_len_le(v as nat, 16);
    }
    let mut x = v;
    let mut b: usize = 0;
    while x > 0
        invariant
            byte_len(v as nat) == b + byte_len(x as nat),
            b <= byte_len(v as nat),
            byte_len(v as nat) <= 16,
        decreases x,
    {
        assert(x / 256 < x) by (nonlinear_arith)
            requires
                x > 0,
        ;
        x = x / 256;
        b += 1;
    }
    b
}

/// Writes the compact encoding of `v`.
pub fn encode_compact(v: u128) -> (r: Vec<u8>)
    ensures
        r@ == compact_enc(v),
{
    if v < 64 {
        let b = (v as u8) * 4;
        let r = vec![b];
        proof {
            assert(r@ =~= compact_enc(v));
        }
        r
    } else if v < 16384 {
        le_encode(v * 4 + 1, 2)
    } else if v < 1073741824 {
        le_encode(v * 4 + 2, 4)
    } else {
        let b = byte_len_exec(v);
        proof {
            reveal_with_fuel(pow256, 4);
            lemma_byte_len_le(v as nat, 3);
        }
        let head = ((b - 4) * 4 + 3) as u8;
        let mut r = vec![head];
        let mut tail = le_encode(v, b);
        r.append(&mut tail);
        proof {
            assert(r@ =~= compact_enc(v));
        }
        r
    }
}

/// Reads a compact integer at `i`.
pub fn decode_compact(s: &[u8], i: usize) -> (r: Result<(u128, usize), Error>)
    requires
        i <= s.len(),
    ensures
        match r {
            Ok((x, k)) => dec_compact(s@, i as int) == Some((x, k as int)) && i + k <= s.len() && k
                >= 1,
            Err(e) => dec_compact(s@, i as int) is None && e == Error::Decode,
        },
{
    if i >= s.len() {
        return Err(Error::Decode);
    }
    let first = s[i];
    let m = first % 4;
    if m == 0 {
        Ok(((first / 4) as u128, 1))
    } else if m == 1 {
        if s.len() - i >= 2 {
            let w = le_decode(s, i, 2);
            Ok((w / 4, 2))
        } else {
            Err(Error::Decode)
        }
    } else if m == 2 {
        if s.len() - i >= 4 {
            let w = le_decode(s, i, 4);
            Ok((w / 4, 4))
        } else {
            Err(Error::Decode)
        }
    } else {
        let n = (first / 4 + 4) as usize;
        if n <= 16 && n <= s.len() - i - 1 {
            let w = le_decode(s, i + 1, n);
            Ok((w, 1 + n))
        } else {
            Err(Error::Decode)
        }
    }
}

fn find_variant_exec(vars: &Vec<VariantDef>, ix: u8) -> (r: Option<usize>)
    ensures
        match r {
            Some(j) => j < vars.len() && find_variant(vars@, ix) == Some(vars@[j as int]),
            None => find_variant(vars@, ix) is None,
        },
{
    let mut k: usize = 0;
    proof {
        assert(vars@.skip(0) =~= vars@);
    }
    while k < vars.len()
        invariant
            k <= vars.len(),
            find_variant(vars@, ix) == find_variant(vars@.skip(k as int), ix),
        decreases vars.len() - k,
    {
        proof {
            assert(vars@.skip(k as int)[0] == vars@[k as int]);
            assert(vars@.skip(k as int).drop_first() =~= vars@.skip(k + 1));
        }
        if vars[k].index == ix {
            return Some(k);
        }
        k += 1;
    }
    None
}

/// Decodes one value of type `ty` at position `i`, within `fuel`
/// levels of nesting.
pub fn decode_at(reg: &Registry, ty: u32, s: &[u8], i: usize, fuel: u64) -> (r: Result<
    (Value, usize),
    Error,
>)
    requires
        i <= s.len(),
    ensures
        match r {
            Ok((v, k)) => dec(reg.types@, ty as int, s@, i as int, fuel as nat) == Some(
                (v@, k as int),
            ) && i + k <= s.len(),
            Err(e) => dec(reg.types@, ty as int, s@, i as int, fuel as nat) is None && e
                == Error::Decode,
        },
    decreases fuel, 0int,
{
    if fuel == 0 {
        return Err(Error::Decode);
    }
    if (ty as usize) >= reg.types.len() {
        return Err(Error::Decode);
    }
    let td = &reg.types[ty as usize];
    match td {
        TypeDef::Bool => {
            if s.len() - i >= 1 {
                if s[i] == 0 {
                    Ok((Value::Bool(false), 1))
                } else if s[i] == 1 {
                    Ok((Value::Bool(true), 1))
                } else {
                    Err(Error::Decode)
                }
            } else {
                Err(Error::Decode)
            }
        },
        TypeDef::U8 => {
            if s.len() - i >= 1 {
                let x = le_decode(s, i, 1);
                Ok((Value::U8(x as u8), 1))
            } else {
                Err(Error::Decode)
            }
        },
        TypeDef::U16 => {
            if s.len() - i >= 2 {
                let x = le_decode(s, i, 2);
                Ok((Value::U16(x as u16), 2))
            } else {
                Err(Error::Decode)
            }
        },
        TypeDef::U32 => {
            if s.len() - i >= 4 {
                let x = le_decode(s, i, 4);
                Ok((Value::U32(x as u32), 4))
            } else {
                Err(Error::Decode)
            }
        },
        TypeDef::U64 => {
            if s.len() - i >= 8 {
                let x = le_decode(s, i, 8);
                Ok((Value::U64(x as u64), 8))
            } else {
                Err(Error::Decode)
            }
        },
        TypeDef::U128 => {
            if s.len() - i >= 16 {
                let x = le_decode(s, i, 16);
                Ok((Value::U128(x), 16))
            } else {
                Err(Error::Decode)
            }
        },
        TypeDef::Compact => {
            match decode_compact(s, i) {
                Ok((x, k)) => Ok((Value::Compact(x), k)),
                Err(e) => Err(e),
            }
        },
        TypeDef::Sequence(e) => {
            let ety = *e;
            match decode_compact(s, i) {
                Ok((cnt, k)) => {
                    if cnt <= usize::MAX as u128 {
                        match decode_list(reg, ety, s, i + k, cnt as usize, fuel - 1) {
                            Ok((vs, j)) => Ok((Value::List(vs), k + j)),
                            Err(er) => Err(er),
                        }
                    } else {
                        Err(Error::Decode)
                    }
                },
                Err(er) => Err(er),
            }
        },
        TypeDef::Array(n, e) => {
            let cnt = *n as usize;
            let ety = *e;
            match decode_list(reg, ety, s, i, cnt, fuel - 1) {
                Ok((vs, j)) => Ok((Value::List(vs), j)),
                Err(er) => Err(er),
            }
        },
        TypeDef::Tuple(tys) => {
            proof {
                assert(tys@.skip(0) =~= tys@);
            }
            match decode_zip(reg, tys, 0, s, i, fuel - 1) {
                Ok((vs, j)) => Ok((Value::List(vs), j)),
                Err(er) => Err(er),
            }
        },
        TypeDef::Composite(tys) => {
            proof {
                assert(tys@.skip(0) =~= tys@);
            }
            match decode_zip(reg, tys, 0, s, i, fuel - 1) {
                Ok((vs, j)) => Ok((Value::List(vs), j)),
                Err(er) => Err(er),
            }
        },
        TypeDef::Variants(vars) => {
            if s.len() - i >= 1 {
                let ix = s[i];
                match find_variant_exec(vars, ix) {
                    Some(j) => {
                        let fields = &vars[j].fields;
                        proof {
                            assert(fields@.skip(0) =~= fields@);
                        }
                        match decode_zip(reg, fields, 0, s, i + 1, fuel - 1) {
                            Ok((vs, j2)) => Ok((Value::Variant(ix, vs), 1 + j2)),
                            Err(er) => Err(er),
                        }
                    },
                    None => Err(Error::Decode),
                }
            } else {
                Err(Error::Decode)
            }
        },
        TypeDef::Bits => {
            match decode_compact(s, i) {
                Ok((cnt, k)) => {
                    if cnt <= u64::MAX as u128 {
                        let nb128 = (cnt + 7) / 8;
                        if nb128 <= (s.len() - (i + k)) as u128 {
                            let nb = nb128 as usize;
                            let bytes = slice_to_vec(slice_subrange(s, i + k, i + k + nb));
                            Ok((Value::Bits(cnt as u64, bytes), k + nb))
                        } else {
                            Err(Error::Decode)
                        }
                    } else {
                        Err(Error::Decode)
                    }
                },
                Err(er) => Err(er),
            }
        },
    }
}

fn decode_list(reg: &Registry, ety: u32, s: &[u8], i: usize, n: usize, fuel: u64) -> (r: Result<
    (Vec<Value>, usize),
    Error,
>)
    requires
        i <= s.len(),
    ensures
        match r {
            Ok((vs, k)) => dec_list(reg.types@, ety as int, s@, i as int, n as nat, fuel as nat)
                == Some((sv_list(vs@), k as int)) && i + k <= s.len(),
            Err(e) => dec_list(reg.types@, ety as int, s@, i as int, n as nat, fuel as nat) is None
                && e == Error::Decode,
        },
    decreases fuel, n,
{
    if n == 0 {
        let vs: Vec<Value> = Vec::new();
        proof {
            assert(sv_list(vs@) =~= Seq::<SpecValue>::empty());
        }
        Ok((vs, 0))
    } else {
        match decode_at(reg, ety, s, i, fuel) {
            Ok((v, k)) => {
                match decode_list(reg, ety, s, i + k, n - 1, fuel) {
                    Ok((mut vs, j)) => {
                        let ghost tail = vs@;
                        vs.insert(0, v);
                        proof {
                            assert(vs@ =~= seq![v] + tail);
                            assert(vs@.drop_first() =~= tail);
                            assert(sv_list(vs@) =~= seq![v@] + sv_list(tail));
                        }
                        Ok((vs, k + j))
                    },
                    Err(er) => Err(er),
                }
            },
            Err(er) => Err(er),
        }
    }
}

fn decode_zip(
    reg: &Registry,
    tys: &Vec<u32>,
    from: usize,
    s: &[u8],
    i: usize,
    fuel: u64,
) -> (r: Result<(Vec<Value>, usize), Error>)
    requires
        i <= s.len(),
        from <= tys.len(),
    ensures
        match r {
            Ok((vs, k)) => dec_zip(reg.types@, tys@.skip(from as int), s@, i as int, fuel as nat)
                == Some((sv_list(vs@), k as int)) && i + k <= s.len(),
            Err(e) => dec_zip(
                reg.types@,
                tys@.skip(from as int),
                s@,
                i as int,
                fuel as nat,
            ) is None && e == Error::Decode,
        },
    decreases fuel, tys.len() - from,
{
    if from == tys.len() {
        let vs: Vec<Value> = Vec::new();
        proof {
            assert(tys@.skip(from as int) =~= Seq::<u32>::empty());
            assert(sv_list(vs@) =~= Seq::<SpecValue>::empty());
        }
        Ok((vs, 0))
    } else {
        proof {
            assert(tys@.skip(from as int)[0] == tys@[from as int]);
            assert(tys@.skip(from as int).drop_first() =~= tys@.skip(from + 1));
        }
        match decode_at(reg, tys[from], s, i, fuel) {
            Ok((v, k)) => {
                match decode_zip(reg, tys, from + 1, s, i + k, fuel) {
                    Ok((mut vs, j)) => {
                        let ghost tail = vs@;
                        vs.insert(0, v);
                        proof {
                            assert(vs@ =~= seq![v] + tail);
                            assert(vs@.drop_first() =~= tail);
                            assert(sv_list(vs@) =~= seq![v@] + sv_list(tail));
                        }
                        Ok((vs, k + j))
                    },
                    Err(er) => Err(er),
                }
            },
            Err(er) => Err(er),
        }
    }
}

/// Decodes one value of type `ty` from the start of `bytes`, with
/// `depth` as the greatest nesting the decoder will follow: the value
/// and how many bytes it consumed, or `Decode` when the buffer is too
/// short or malformed for the type's shape.
pub fn decode_value(reg: &Registry, ty: u32, bytes: &[u8], depth: u64) -> (r: Result<
    (Value, usize),
    Error,
>)
    ensures
        match r {
            Ok((v, k)) => dec(reg.types@, ty as int, bytes@, 0, depth as nat) == Some(
                (v@, k as int),
            ) && k <= bytes.len(),
            Err(e) => dec(reg.types@, ty as int, bytes@, 0, depth as nat) is None && e
                == Error::Decode,
        },
{
    decode_at(reg, ty, bytes, 0, depth)
}

/// Encodes `v` at type `ty`: the encoding exactly when the value's
/// shape matches the descriptor, `BadInput` otherwise.
pub fn encode_value(reg: &Registry, ty: u32, v: &Value) -> (r: Result<Vec<u8>, Error>)
    ensures
        match r {
            Ok(out) => val_matches(reg.types@, ty as int, v@) && out@ == enc(
                reg.types@,
                ty as int,
                v@,
            ),
            Err(e) => !val_matches(reg.types@, ty as int, v@) && e == Error::BadInput,
        },
    decreases v, 0int,
{
    if (ty as usize) >= reg.types.len() {
        return Err(Error::BadInput);
    }
    let td = &reg.types[ty as usize];
    match td {
        TypeDef::Bool => match v {
            Value::Bool(b) => {
                let r = vec![if *b { 1u8 } else { 0u8 }];
                proof {
                    assert(r@ =~= enc(reg.types@, ty as int, v@));
                }
                Ok(r)
            },
            _ => Err(Error::BadInput),
        },
        TypeDef::U8 => match v {
            Value::U8(x) => Ok(le_encode(*x as u128, 1)),
            _ => Err(Error::BadInput),
        },
        TypeDef::U16 => match v {
            Value::U16(x) => Ok(le_encode(*x as u128, 2)),
            _ => Err(Error::BadInput),
        },
        TypeDef::U32 => match v {
            Value::U32(x) => Ok(le_encode(*x as u128, 4)),
            _ => Err(Error::BadInput),
        },
        TypeDef::U64 => match v {
            Value::U64(x) => Ok(le_encode(*x as u128, 8)),
            _ => Err(Error::BadInput),
        },
        TypeDef::U128 => match v {
            Value::U128(x) => Ok(le_encode(*x, 16)),
            _ => Err(Error::BadInput),
        },
        TypeDef::Compact => match v {
            Value::Compact(x) => Ok(encode_compact(*x)),
            _ => Err(Error::BadInput),
        },
        TypeDef::Sequence(e) => match v {
            Value::List(vs) => {
                proof {
                    lemma_sv_list(vs@);
                }
                let len = vs.len();
                let mut out = encode_compact(len as u128);
                match encode_list_from(reg, *e, vs, 0) {
                    Ok(mut tail) => {
                        out.append(&mut tail);
                        proof {
                            assert(vs@.skip(0) =~= vs@);
                            assert(out@ =~= enc(reg.types@, ty as int, v@));
                        }
                        Ok(out)
                    },
                    Err(er) => {
                        proof {
                            assert(vs@.skip(0) =~= vs@);
                        }
                        Err(er)
                    },
                }
            },
            _ => Err(Error::BadInput),
        },
        TypeDef::Array(n, e) => match v {
            Value::List(vs) => {
                proof {
                    lemma_sv_list(vs@);
                    assert(vs@.skip(0) =~= vs@);
                }
                if vs.len() == (*n as usize) {
                    encode_list_from(reg, *e, vs, 0)
                } else {
                    Err(Error::BadInput)
                }
            },
            _ => Err(Error::BadInput),
        },
        TypeDef::Tuple(tys) => match v {
            Value::List(vs) => {
                proof {
                    lemma_sv_list(vs@);
                    assert(vs@.skip(0) =~= vs@);
                    assert(tys@.skip(0) =~= tys@);
                }
                if vs.len() == tys.len() {
                    encode_zip_from(reg, tys, vs, 0)
                } else {
                    Err(Error::BadInput)
                }
            },
            _ => Err(Error::BadInput),
        },
        TypeDef::Composite(tys) => match v {
            Value::List(vs) => {
                proof {
                    lemma_sv_list(vs@);
                    assert(vs@.skip(0) =~= vs@);
                    assert(tys@.skip(0) =~= tys@);
                }
                if vs.len() == tys.len() {
                    encode_zip_from(reg, tys, vs, 0)
                } else {
                    Err(Error::BadInput)
                }
            },
            _ => Err(Error::BadInput),
        },
        TypeDef::Variants(vars) => match v {
            Value::Variant(ix, vs) => {
                proof {
                    lemma_sv_list(vs@);
                    assert(vs@.skip(0) =~= vs@);
                }
                match find_variant_exec(vars, *ix) {
                    Some(j) => {
                        let fields = &vars[j].fields;
                        proof {
                            assert(fields@.skip(0) =~= fields@);
                        }
                        if vs.len() == fields.len() {
                            match encode_zip_from(reg, fields, vs, 0) {
                                Ok(mut tail) => {
                                    let mut out = vec![*ix];
                                    out.append(&mut tail);
                                    proof {
                                        assert(out@ =~= enc(reg.types@, ty as int, v@));
                                    }
                                    Ok(out)
                                },
                                Err(er) => Err(er),
                            }
                        } else {
                            Err(Error::BadInput)
                        }
                    },
                    None => Err(Error::BadInput),
                }
            },
            _ => Err(Error::BadInput),
        },
        TypeDef::Bits => match v {
            Value::Bits(n, bs) => {
                let nb = ((*n as u128) + 7) / 8;
                if (bs.len() as u128) == nb {
                    let mut out = encode_compact(*n as u128);
                    push_all(&mut out, bs.as_slice());
                    proof {
                        assert(out@ =~= enc(reg.types@, ty as int, v@));
                    }
                    Ok(out)
                } else {
                    Err(Error::BadInput)
                }
            },
            _ => Err(Error::BadInput),
        },
    }
}

fn encode_list_from(reg: &Registry, ety: u32, vs: &Vec<Value>, from: usize) -> (r: Result<
    Vec<u8>,
    Error,
>)
    requires
        from <= vs.len(),
    ensures
        match r {
            Ok(out) => matches_list(reg.types@, ety as int, sv_list(vs@.skip(from as int)))
                && out@ == enc_list(reg.types@, ety as int, sv_list(vs@.skip(from as int))),
            Err(e) => !matches_list(reg.types@, ety as int, sv_list(vs@.skip(from as int))) && e
                == Error::BadInput,
        },
    decreases vs, vs.len() - from,
{
    if from == vs.len() {
        let out: Vec<u8> = Vec::new();
        proof {
            assert(vs@.skip(from as int) =~= Seq::<Value>::empty());
            assert(sv_list(vs@.skip(from as int)) =~= Seq::<SpecValue>::empty());
            assert(out@ =~= enc_list(reg.types@, ety as int, sv_list(vs@.skip(from as int))));
        }
        Ok(out)
    } else {
        proof {
            assert(vs@.skip(from as int)[0] == vs@[from as int]);
            assert(vs@.skip(from as int).drop_first() =~= vs@.skip(from + 1));
            lemma_sv_list(vs@.skip(from as int));
            assert(sv_list(vs@.skip(from as int)).drop_first() =~= sv_list(vs@.skip(from + 1)));
            assert(sv_list(vs@.skip(from as int))[0] == sv(vs@[from as int]));
        }
        match encode_value(reg, ety, &vs[from]) {
            Ok(mut head) => {
                match encode_list_from(reg, ety, vs, from + 1) {
                    Ok(mut tail) => {
                        head.append(&mut tail);
                        proof {
                            assert(head@ =~= enc_list(
                                reg.types@,
                                ety as int,
                                sv_list(vs@.skip(from as int)),
                            ));
                        }
                        Ok(head)
                    },
                    Err(er) => Err(er),
                }
            },
            Err(er) => Err(er),
        }
    }
}

fn encode_zip_from(reg: &Registry, tys: &Vec<u32>, vs: &Vec<Value>, from: usize) -> (r: Result<
    Vec<u8>,
    Error,
>)
    requires
        from <= vs.len(),
        vs.len() == tys.len(),
    ensures
        match r {
            Ok(out) => matches_zip(
                reg.types@,
                tys@.skip(from as int),
                sv_list(vs@.skip(from as int)),
            ) && out@ == enc_zip(
                reg.types@,
                tys@.skip(from as int),
                sv_list(vs@.skip(from as int)),
            ),
            Err(e) => !matches_zip(
                reg.types@,
                tys@.skip(from as int),
                sv_list(vs@.skip(from as int)),
            ) && e == Error::BadInput,
        },
    decreases vs, vs.len() - from,
{
    if from == vs.len() {
        let out: Vec<u8> = Vec::new();
        proof {
            assert(vs@.skip(from as int) =~= Seq::<Value>::empty());
            assert(tys@.skip(from as int) =~= Seq::<u32>::empty());
            assert(sv_list(vs@.skip(from as int)) =~= Seq::<SpecValue>::empty());
            assert(out@ =~= enc_zip(
                reg.types@,
                tys@.skip(from as int),
                sv_list(vs@.skip(from as int)),
            ));
        }
        Ok(out)
    } else {
        proof {
            assert(vs@.skip(from as int)[0] == vs@[from as int]);
            assert(vs@.skip(from as int).drop_first() =~= vs@.skip(from + 1));
            assert(tys@.skip(from as int)[0] == tys@[from as int]);
            assert(tys@.skip(from as int).drop_first() =~= tys@.skip(from + 1));
            lemma_sv_list(vs@.skip(from as int));
            assert(sv_list(vs@.skip(from as int)).drop_first() =~= sv_list(vs@.skip(from + 1)));
            assert(sv_list(vs@.skip(from as int))[0] == sv(vs@[from as int]));
        }
        match encode_value(reg, tys[from], &vs[from]) {
            Ok(mut head) => {
                match encode_zip_from(reg, tys, vs, from + 1) {
                    Ok(mut tail) => {
                        head.append(&mut tail);
                        proof {
                            assert(head@ =~= enc_zip(
                                reg.types@,
                                tys@.skip(from as int),
                                sv_list(vs@.skip(from as int)),
                            ));
                        }
                        Ok(head)
                    },
                    Err(er) => Err(er),
                }
            },
            Err(er) => Err(er),
        }
    }
}

} // verus!
