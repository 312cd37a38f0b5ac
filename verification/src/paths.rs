//! Path handling: `/`-delimited paths are trimmed and split into
//! segments, and each map-key segment is encoded into its declared
//! type's native binary form.
//!
//! A segment starting with `0x` supplies pre-encoded key bytes in hex,
//! whatever the key's type; otherwise a decimal segment is accepted
//! for the unsigned integer and compact key types.

use vstd::prelude::*;

use crate::codec::{compact_enc, encode_compact, le_bytes, le_encode, resolve, Registry, TypeDef};
use crate::hashing::{apply_hasher, hash_apply, hash_width, HashKind};

verus! {

/// The byte value of the path separator `/`.
pub open spec fn slash() -> u8 {
    47
}

pub open spec fn trim_lead(s: Seq<u8>) -> Seq<u8>
    decreases s.len(),
{
    if s.len() > 0 && s[0] == slash() {
        trim_lead(s.drop_first())
    } else {
        s
    }
}

pub open spec fn trim_trail(s: Seq<u8>) -> Seq<u8>
    decreases s.len(),
{
    if s.len() > 0 && s.last() == slash() {
        trim_trail(s.drop_last())
    } else {
        s
    }
}

/// The path with leading and trailing separators removed.
pub open spec fn trim_slashes(s: Seq<u8>) -> Seq<u8> {
    trim_trail(trim_lead(s))
}

/// The segments of a path: splitting on the separator, where an empty
/// path yields one empty segment and adjacent separators yield empty
/// segments between them.
pub open spec fn split_slash(s: Seq<u8>) -> Seq<Seq<u8>>
    decreases s.len(),
{
    if s.len() == 0 {
        seq![Seq::<u8>::empty()]
    } else if s[0] == slash() {
        seq![Seq::<u8>::empty()] + split_slash(s.drop_first())
    } else {
        let rest = split_slash(s.drop_first());
        seq![seq![s[0]] + rest[0]] + rest.drop_first()
    }
}

pub proof fn lemma_split_nonempty(s: Seq<u8>)
    ensures
        split_slash(s).len() >= 1,
    decreases s.len(),
{
    if s.len() > 0 {
        lemma_split_nonempty(s.drop_first());
    }
}

/// The segments of a whole path.
pub open spec fn path_segments(sb: Seq<u8>) -> Seq<Seq<u8>> {
    split_slash(trim_slashes(sb))
}

/// Splits a path into its segments, trimming outer separators first.
pub fn split_path(s: &[u8]) -> (r: Vec<Vec<u8>>)
    ensures
        r@.map_values(|v: Vec<u8>| v@) == path_segments(s@),
        r@.len() >= 1,
{
    let mut start: usize = 0;
    proof {
        assert(s@.skip(0) =~= s@);
    }
    while start < s.len() && s[start] == 47
        invariant
            start <= s.len(),
            trim_lead(s@) == trim_lead(s@.skip(start as int)),
        decreases s.len() - start,
    {
        proof {
            assert(s@.skip(start as int)[0] == s@[start as int]);
            assert(s@.skip(start as int).drop_first() =~= s@.skip(start + 1));
        }
        start += 1;
    }
    proof {
        if start < s.len() {
            assert(s@.skip(start as int)[0] == s@[start as int]);
        }
        assert(trim_lead(s@) =~= s@.skip(start as int));
    }
    let mut end: usize = s.len();
    while end > start && s[end - 1] == 47
        invariant
            start <= end <= s.len(),
            trim_trail(s@.skip(start as int)) == trim_trail(
                s@.subrange(start as int, end as int),
            ),
        decreases end,
    {
        proof {
            assert(s@.subrange(start as int, end as int).last() == s@[end - 1]);
            assert(s@.subrange(start as int, end as int).drop_last() =~= s@.subrange(
                start as int,
                end - 1,
            ));
        }
        end -= 1;
    }
    let ghost t = s@.subrange(start as int, end as int);
    proof {
        if end > start {
            assert(s@.subrange(start as int, end as int).last() == s@[end - 1]);
        }
        assert(trim_trail(t) =~= t);
        assert(trim_slashes(s@) == t);
    }
    let mut segs: Vec<Vec<u8>> = Vec::new();
    let mut cur: Vec<u8> = Vec::new();
    let mut i: usize = start;
    proof {
        assert(t.skip(0) =~= t);
        lemma_split_nonempty(t);
        assert(segs@.map_values(|v: Vec<u8>| v@) =~= Seq::<Seq<u8>>::empty());
        assert(cur@ + split_slash(t)[0] =~= split_slash(t)[0]);
        assert(split_slash(t) =~= segs@.map_values(|v: Vec<u8>| v@) + seq![cur@ + split_slash(
            t.skip(i - start),
        )[0]] + split_slash(t.skip(i - start)).drop_first());
    }
    while i < end
        invariant
            start <= i <= end <= s.len(),
            t == s@.subrange(start as int, end as int),
            split_slash(t) == segs@.map_values(|v: Vec<u8>| v@) + seq![cur@ + split_slash(
                t.skip(i - start),
            )[0]] + split_slash(t.skip(i - start)).drop_first(),
        decreases end - i,
    {
        proof {
            lemma_split_nonempty(t.skip(i + 1 - start));
            assert(t.skip(i - start)[0] == s@[i as int]);
            assert(t.skip(i - start).drop_first() =~= t.skip(i + 1 - start));
        }
        let b = s[i];
        if b == 47 {
            let ghost old_segs = segs@;
            let ghost old_cur = cur@;
            let done = cur;
            cur = Vec::new();
            segs.push(done);
            proof {
                assert(old_cur + Seq::<u8>::empty() =~= old_cur);
                assert(segs@.map_values(|v: Vec<u8>| v@) =~= old_segs.map_values(
                    |v: Vec<u8>| v@,
                ) + seq![old_cur]);
                assert(split_slash(t) =~= segs@.map_values(|v: Vec<u8>| v@) + seq![cur@
                    + split_slash(t.skip(i + 1 - start))[0]] + split_slash(
                    t.skip(i + 1 - start),
                ).drop_first());
            }
        } else {
            let ghost old_cur = cur@;
            cur.push(b);
            proof {
                let rest = split_slash(t.skip(i + 1 - start));
                assert(split_slash(t.skip(i - start)) == seq![seq![s@[i as int]] + rest[0]]
                    + rest.drop_first());
                assert(old_cur + (seq![s@[i as int]] + rest[0]) =~= cur@ + rest[0]);
                assert(split_slash(t) =~= segs@.map_values(|v: Vec<u8>| v@) + seq![cur@ + rest[0]]
                    + rest.drop_first());
            }
        }
        i += 1;
    }
    proof {
        assert(t.skip(end - start) =~= Seq::<u8>::empty());
        assert(cur@ + Seq::<u8>::empty() =~= cur@);
    }
    segs.push(cur);
    proof {
        assert(segs@.map_values(|v: Vec<u8>| v@) =~= split_slash(t));
        lemma_split_nonempty(t);
    }
    segs
}

/// Ten to the `n`.
pub open spec fn pow10(n: nat) -> nat
    decreases n,
{
    if n == 0 {
        1nat
    } else {
        10 * pow10((n - 1) as nat)
    }
}

pub open spec fn all_digits(s: Seq<u8>) -> bool {
    forall|j: int| 0 <= j < s.len() ==> 48 <= #[trigger] s[j] <= 57
}

/// The number a decimal segment spells.
pub open spec fn dec_val(s: Seq<u8>) -> nat
    decreases s.len(),
{
    if s.len() == 0 {
        0nat
    } else {
        (dec_val(s.drop_last()) * 10 + (s.last() - 48)) as nat
    }
}

pub proof fn lemma_dec_val_bound(s: Seq<u8>)
    requires
        all_digits(s),
    ensures
        dec_val(s) < pow10(s.len() as nat),
    decreases s.len(),
{
    if s.len() > 0 {
        assert(all_digits(s.drop_last()));
        lemma_dec_val_bound(s.drop_last());
        let d = dec_val(s.drop_last());
        let p = pow10((s.len() - 1) as nat);
        assert(d * 10 <= (p - 1) * 10) by (nonlinear_arith)
            requires
                d <= p - 1,
        ;
    }
}

pub open spec fn hex_nibble_ok(b: u8) -> bool {
    (48 <= b <= 57) || (97 <= b <= 102) || (65 <= b <= 70)
}

pub open spec fn hex_nibble(b: u8) -> u8 {
    if 48 <= b <= 57 {
        (b - 48) as u8
    } else if 97 <= b <= 102 {
        (b - 87) as u8
    } else if 65 <= b <= 70 {
        (b - 55) as u8
    } else {
        0
    }
}

/// A valid hex body: even length, every byte a hex digit.
pub open spec fn hex_ok(s: Seq<u8>) -> bool {
    s.len() % 2 == 0 && forall|j: int| 0 <= j < s.len() ==> hex_nibble_ok(#[trigger] s[j])
}

/// The bytes a hex body spells, two digits each.
pub open spec fn hex_bytes(s: Seq<u8>) -> Seq<u8>
    decreases s.len(),
{
    if s.len() < 2 {
        Seq::empty()
    } else {
        seq![(hex_nibble(s[0]) * 16 + hex_nibble(s[1])) as u8] + hex_bytes(s.skip(2))
    }
}

/// A segment in raw-bytes form: `0x` followed by hex digits.
pub open spec fn is_hex_form(seg: Seq<u8>) -> bool {
    seg.len() >= 2 && seg[0] == 48 && seg[1] == 120
}

/// The encoding of one key segment at its declared type: hex segments
/// supply the encoded bytes directly; decimal segments are encoded as
/// the declared fixed-width or compact unsigned integer; anything else
/// cannot be encoded.
pub open spec fn seg_enc(reg: Seq<TypeDef>, ty: u32, seg: Seq<u8>) -> Option<Seq<u8>> {
    if is_hex_form(seg) {
        if hex_ok(seg.skip(2)) {
            Some(hex_bytes(seg.skip(2)))
        } else {
            None
        }
    } else if all_digits(seg) && 1 <= seg.len() <= 38 {
        let v = dec_val(seg);
        match resolve(reg, ty as int) {
            Some(TypeDef::U8) => if v < 256 {
                Some(le_bytes(v, 1))
            } else {
                None
            },
            Some(TypeDef::U16) => if v < 65536 {
                Some(le_bytes(v, 2))
            } else {
                None
            },
            Some(TypeDef::U32) => if v < 4294967296 {
                Some(le_bytes(v, 4))
            } else {
                None
            },
            Some(TypeDef::U64) => if v < 0x10000000000000000 {
                Some(le_bytes(v, 8))
            } else {
                None
            },
            Some(TypeDef::U128) => Some(le_bytes(v, 16)),
            Some(TypeDef::Compact) => Some(compact_enc(v as u128)),
            _ => None,
        }
    } else {
        None
    }
}

fn parse_decimal(seg: &[u8]) -> (r: Option<u128>)
    ensures
        match r {
            Some(v) => all_digits(seg@) && 1 <= seg@.len() <= 38 && v as nat == dec_val(seg@),
            None => !(all_digits(seg@) && 1 <= seg@.len() <= 38),
        },
{
    if seg.len() < 1 || seg.len() > 38 {
        return None;
    }
    let mut acc: u128 = 0;
    let mut k: usize = 0;
    proof {
        assert(seg@.take(0) =~= Seq::<u8>::empty());
    }
    while k < seg.len()
        invariant
            k <= seg@.len() <= 38,
            all_digits(seg@.take(k as int)),
            acc as nat == dec_val(seg@.take(k as int)),
        decreases seg.len() - k,
    {
        let b = seg[k];
        if b < 48 || b > 57 {
            return None;
        }
        proof {
            lemma_dec_val_bound(seg@.take(k as int));
            lemma_pow10_le(k as nat, 37);
            lemma_pow10_38();
            assert((acc as nat) * 10 + 9 < pow10(38)) by (nonlinear_arith)
                requires
                    (acc as nat) < pow10(37),
                    pow10(38) == 10 * pow10(37),
            ;
        }
        acc = acc * 10 + ((b - 48) as u128);
        k += 1;
        proof {
            assert(seg@.take(k as int).drop_last() =~= seg@.take(k - 1));
            assert(seg@.take(k as int).last() == b);
            assert(all_digits(seg@.take(k as int)));
        }
    }
    proof {
        assert(seg@.take(seg@.len() as int) =~= seg@);
    }
    Some(acc)
}

proof fn lemma_pow10_38()
    ensures
        pow10(38) < 0x100000000000000000000000000000000,
        pow10(38) == 10 * pow10(37),
{
    reveal_with_fuel(pow10, 39);
}

proof fn lemma_pow10_le(a: nat, b: nat)
    requires
        a <= b,
    ensures
        pow10(a) <= pow10(b),
    decreases b,
{
    if a < b && b > 0 {
        lemma_pow10_le(a, (b - 1) as nat);
        lemma_pow10_pos((b - 1) as nat);
    }
}

proof fn lemma_pow10_pos(n: nat)
    ensures
        pow10(n) >= 1,
    decreases n,
{
    if n > 0 {
        lemma_pow10_pos((n - 1) as nat);
    }
}

fn decode_hex_body(s: &[u8]) -> (r: Option<Vec<u8>>)
    ensures
        match r {
            Some(v) => hex_ok(s@) && v@ == hex_bytes(s@),
            None => !hex_ok(s@),
        },
{
    if s.len() % 2 != 0 {
        return None;
    }
    let mut out: Vec<u8> = Vec::new();
    let mut k: usize = 0;
    proof {
        assert(s@.skip(0) =~= s@);
    }
    while k < s.len()
        invariant
            k <= s@.len(),
            k % 2 == 0,
            s@.len() % 2 == 0,
            forall|j: int| 0 <= j < k ==> hex_nibble_ok(#[trigger] s@[j]),
            hex_bytes(s@) == out@ + hex_bytes(s@.skip(k as int)),
        decreases s.len() - k,
    {
        let hi = s[k];
        let lo = s[k + 1];
        let hi_ok = (48 <= hi && hi <= 57) || (97 <= hi && hi <= 102) || (65 <= hi && hi <= 70);
        let lo_ok = (48 <= lo && lo <= 57) || (97 <= lo && lo <= 102) || (65 <= lo && lo <= 70);
        if !hi_ok || !lo_ok {
            return None;
        }
        let hv = if 48 <= hi && hi <= 57 {
            hi - 48
        } else if 97 <= hi && hi <= 102 {
            hi - 87
        } else {
            hi - 55
        };
        let lv = if 48 <= lo && lo <= 57 {
            lo - 48
        } else if 97 <= lo && lo <= 102 {
            lo - 87
        } else {
            lo - 55
        };
        proof {
            assert(s@.skip(k as int)[0] == s@[k as int]);
            assert(s@.skip(k as int)[1] == s@[k + 1]);
            assert(s@.skip(k as int).skip(2) =~= s@.skip(k + 2));
        }
        out.push(hv * 16 + lv);
        k += 2;
        proof {
            assert(hex_bytes(s@) =~= out@ + hex_bytes(s@.skip(k as int)));
        }
    }
    proof {
        assert(s@.skip(s@.len() as int) =~= Seq::<u8>::empty());
        assert(hex_bytes(s@) =~= out@);
    }
    Some(out)
}

/// Encodes one key segment at its declared type.
pub fn encode_segment(reg: &Registry, ty: u32, seg: &[u8]) -> (r: Option<Vec<u8>>)
    ensures
        match r {
            Some(v) => seg_enc(reg.types@, ty, seg@) == Some(v@),
            None => seg_enc(reg.types@, ty, seg@) is None,
        },
{
    if seg.len() >= 2 && seg[0] == 48 && seg[1] == 120 {
        let body = vstd::slice::slice_subrange(seg, 2, seg.len());
        return decode_hex_body(body);
    }
    match parse_decimal(seg) {
        None => None,
        Some(v) => {
            if (ty as usize) >= reg.types.len() {
                return None;
            }
            match &reg.types[ty as usize] {
                TypeDef::U8 => {
                    if v < 256 {
                        Some(le_encode(v, 1))
                    } else {
                        None
                    }
                },
                TypeDef::U16 => {
                    if v < 65536 {
                        Some(le_encode(v, 2))
                    } else {
                        None
                    }
                },
                TypeDef::U32 => {
                    if v < 4294967296 {
                        Some(le_encode(v, 4))
                    } else {
                        None
                    }
                },
                TypeDef::U64 => {
                    if v < 0x10000000000000000 {
                        Some(le_encode(v, 8))
                    } else {
                        None
                    }
                },
                TypeDef::U128 => Some(le_encode(v, 16)),
                TypeDef::Compact => Some(encode_compact(v)),
                _ => None,
            }
        },
    }
}

/// What the map keys contribute to a storage key: each segment encoded
/// at its declared type, hashed with its position's scheme, in order.
pub open spec fn map_parts(
    reg: Seq<TypeDef>,
    hashers: Seq<HashKind>,
    key_tys: Seq<u32>,
    segs: Seq<Seq<u8>>,
) -> Seq<u8>
    decreases segs.len(),
{
    if segs.len() == 0 || hashers.len() == 0 || key_tys.len() == 0 {
        Seq::empty()
    } else {
        hash_apply(hashers[0], seg_enc(reg, key_tys[0], segs[0])->Some_0) + map_parts(
            reg,
            hashers.drop_first(),
            key_tys.drop_first(),
            segs.drop_first(),
        )
    }
}

/// The combined width of the map keys' contributions.
pub open spec fn map_parts_width(
    reg: Seq<TypeDef>,
    hashers: Seq<HashKind>,
    key_tys: Seq<u32>,
    segs: Seq<Seq<u8>>,
) -> nat
    decreases segs.len(),
{
    if segs.len() == 0 || hashers.len() == 0 || key_tys.len() == 0 {
        0nat
    } else {
        hash_width(hashers[0], seg_enc(reg, key_tys[0], segs[0])->Some_0.len()) + map_parts_width(
            reg,
            hashers.drop_first(),
            key_tys.drop_first(),
            segs.drop_first(),
        )
    }
}

/// Whether every key segment encodes at its declared type.
pub open spec fn segs_encodable(reg: Seq<TypeDef>, key_tys: Seq<u32>, segs: Seq<Seq<u8>>) -> bool {
    forall|k: int|
        0 <= k < segs.len() ==> (#[trigger] seg_enc(reg, key_tys[k], segs[k])) is Some
}

} // verus!
