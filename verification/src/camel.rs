//! Camel-case normalization of path tokens.
//!
//! Path tokens are lower-case words delimited by hyphens, underscores
//! or other non-alphanumeric separators; the chain's metadata names
//! pallets and storage items in camel case. Normalization collapses
//! the separators and upper-cases the first letter of each word. It
//! works on bytes: ASCII letters are folded, digits and letters pass
//! through unchanged.

use vstd::prelude::*;
use vstd::string::StrSliceExecFns;
use vstd::string::StringSliceAdditionalSpecFns;

verus! {

/// A separator is any byte that is not an ASCII digit or letter:
/// hyphens, underscores and the rest are all collapsed alike.
pub open spec fn is_sep(b: u8) -> bool {
    !((48 <= b && b <= 57) || (65 <= b && b <= 90) || (97 <= b && b <= 122))
}

/// ASCII upper-casing of one byte; bytes outside `a..=z` are unchanged.
pub open spec fn upper_byte(b: u8) -> u8 {
    if 97 <= b && b <= 122 {
        (b - 32) as u8
    } else {
        b
    }
}

/// Camel normalization of `s`, where `new_word` says whether the next
/// non-separator byte starts a word.
pub open spec fn camel_rec(s: Seq<u8>, new_word: bool) -> Seq<u8>
    decreases s.len(),
{
    if s.len() == 0 {
        Seq::empty()
    } else if is_sep(s[0]) {
        camel_rec(s.drop_first(), true)
    } else if new_word {
        seq![upper_byte(s[0])] + camel_rec(s.drop_first(), false)
    } else {
        seq![s[0]] + camel_rec(s.drop_first(), false)
    }
}

/// Camel normalization of a whole token: leading separators are
/// stripped and the first byte starts a word.
pub open spec fn camel(s: Seq<u8>) -> Seq<u8> {
    camel_rec(s, true)
}

/// Holds when no byte of `s` is a separator.
pub open spec fn no_sep(s: Seq<u8>) -> bool {
    forall|j: int| 0 <= j < s.len() ==> !is_sep(#[trigger] s[j])
}

/// A sequence is already in camel form when it holds no separator and
/// its first byte, if any, is a fixed point of upper-casing.
pub open spec fn is_camel(s: Seq<u8>) -> bool {
    &&& no_sep(s)
    &&& s.len() > 0 ==> upper_byte(s[0]) == s[0]
}

proof fn lemma_camel_rec_no_sep(s: Seq<u8>, new_word: bool)
    ensures
        no_sep(camel_rec(s, new_word)),
    decreases s.len(),
{
    if s.len() == 0 {
        assert(no_sep(camel_rec(s, new_word)));
    } else if is_sep(s[0]) {
        lemma_camel_rec_no_sep(s.drop_first(), true);
        assert(camel_rec(s, new_word) == camel_rec(s.drop_first(), true));
    } else {
        lemma_camel_rec_no_sep(s.drop_first(), false);
        let head = if new_word {
            upper_byte(s[0])
        } else {
            s[0]
        };
        let rest = camel_rec(s.drop_first(), false);
        assert(camel_rec(s, new_word) == seq![head] + rest);
        assert(!is_sep(head));
        assert forall|j: int| 0 <= j < camel_rec(s, new_word).len() implies !is_sep(camel_rec(
            s,
            new_word,
        )[j]) by {
            if j == 0 {
                assert((seq![head] + rest)[0] == head);
            } else {
                assert((seq![head] + rest)[j] == rest[j - 1]);
            }
        }
        assert(no_sep(camel_rec(s, new_word)));
    }
}

proof fn lemma_camel_rec_first_upper(s: Seq<u8>)
    ensures
        camel_rec(s, true).len() > 0 ==> upper_byte(camel_rec(s, true)[0]) == camel_rec(s, true)[0],
    decreases s.len(),
{
    if s.len() == 0 {
    } else if is_sep(s[0]) {
        lemma_camel_rec_first_upper(s.drop_first());
    }
}

proof fn lemma_camel_rec_fixed(s: Seq<u8>, new_word: bool)
    requires
        no_sep(s),
        new_word ==> s.len() > 0 ==> upper_byte(s[0]) == s[0],
    ensures
        camel_rec(s, new_word) == s,
    decreases s.len(),
{
    if s.len() == 0 {
        assert(camel_rec(s, new_word) =~= s);
    } else {
        assert forall|j: int| 0 <= j < s.drop_first().len() implies !is_sep(
            s.drop_first()[j],
        ) by {
            assert(s.drop_first()[j] == s[j + 1]);
        }
        assert(no_sep(s.drop_first()));
        lemma_camel_rec_fixed(s.drop_first(), false);
        assert(camel_rec(s, new_word) =~= s);
    }
}

/// A token already in camel form is returned unchanged.
pub proof fn lemma_camel_of_camel_form(s: Seq<u8>)
    requires
        is_camel(s),
    ensures
        camel(s) == s,
{
    lemma_camel_rec_fixed(s, true);
}

/// Camel normalization always yields a sequence in camel form.
pub proof fn lemma_camel_form(s: Seq<u8>)
    ensures
        is_camel(camel(s)),
{
    lemma_camel_rec_no_sep(s, true);
    lemma_camel_rec_first_upper(s);
}

/// Camel normalization is idempotent: normalizing an already-normalized
/// token returns it unchanged.
pub proof fn lemma_camel_idempotent(s: Seq<u8>)
    ensures
        camel(camel(s)) == camel(s),
{
    lemma_camel_form(s);
    lemma_camel_of_camel_form(camel(s));
}

/// The characters spelled by an ASCII byte sequence.
pub open spec fn chars_of_bytes(s: Seq<u8>) -> Seq<char> {
    s.map(|_i: int, b: u8| b as char)
}

fn exec_upper_byte(b: u8) -> (r: u8)
    ensures
        r == upper_byte(b),
{
    if 97 <= b && b <= 122 {
        b - 32
    } else {
        b
    }
}

fn exec_is_sep(b: u8) -> (r: bool)
    ensures
        r == is_sep(b),
{
    !((48 <= b && b <= 57) || (65 <= b && b <= 90) || (97 <= b && b <= 122))
}

/// Camel normalization of a byte token.
pub fn camel_bytes(s: &[u8]) -> (r: Vec<u8>)
    ensures
        r@ == camel(s@),
{
    let mut r: Vec<u8> = Vec::new();
    let mut new_word = true;
    let mut i: usize = 0;
    proof {
        assert(s@.skip(0) =~= s@);
        assert(camel(s@) =~= r@ + camel_rec(s@, true));
    }
    while i < s.len()
        invariant
            i <= s.len(),
            camel(s@) == r@ + camel_rec(s@.skip(i as int), new_word),
        decreases s.len() - i,
    {
        proof {
            assert(s@.skip(i as int).drop_first() =~= s@.skip(i + 1));
            assert(s@.skip(i as int)[0] == s@[i as int]);
        }
        let b = s[i];
        if exec_is_sep(b) {
            new_word = true;
        } else if new_word {
            let u = exec_upper_byte(b);
            r.push(u);
            new_word = false;
            proof {
                assert(camel(s@) =~= r@ + camel_rec(s@.skip(i + 1), false));
            }
        } else {
            r.push(b);
            proof {
                assert(camel(s@) =~= r@ + camel_rec(s@.skip(i + 1), false));
            }
        }
        i += 1;
    }
    proof {
        assert(s@.skip(i as int) =~= Seq::<u8>::empty());
        assert(camel(s@) =~= r@);
    }
    r
}

/// Holds when every byte of `s` is in the ASCII range.
pub open spec fn ascii_bytes(s: Seq<u8>) -> bool {
    forall|j: int| 0 <= j < s.len() ==> #[trigger] s[j] < 128
}

proof fn lemma_camel_rec_ascii(s: Seq<u8>, new_word: bool)
    requires
        ascii_bytes(s),
    ensures
        ascii_bytes(camel_rec(s, new_word)),
    decreases s.len(),
{
    if s.len() == 0 {
    } else {
        assert forall|j: int| 0 <= j < s.drop_first().len() implies s.drop_first()[j] < 128 by {
            assert(s.drop_first()[j] == s[j + 1]);
        }
        if is_sep(s[0]) {
            lemma_camel_rec_ascii(s.drop_first(), true);
        } else {
            lemma_camel_rec_ascii(s.drop_first(), false);
            let head = if new_word {
                upper_byte(s[0])
            } else {
                s[0]
            };
            let rest = camel_rec(s.drop_first(), false);
            assert(camel_rec(s, new_word) == seq![head] + rest);
            assert(head < 128);
            assert forall|j: int| 0 <= j < camel_rec(s, new_word).len() implies camel_rec(
                s,
                new_word,
            )[j] < 128 by {
                if j == 0 {
                    assert((seq![head] + rest)[0] == head);
                } else {
                    assert((seq![head] + rest)[j] == rest[j - 1]);
                }
            }
        }
    }
}

/// Relies on String::from_utf8: ASCII bytes are valid UTF-8 and decode
/// to one character per byte.
#[verifier::external_body]
pub(crate) fn ascii_to_string(b: Vec<u8>) -> (r: String)
    requires
        ascii_bytes(b@),
    ensures
        r@ == chars_of_bytes(b@),
{
    String::from_utf8(b).expect("bytes are ASCII")
}

/// Camel-case normalization of one path token, as the chain's metadata
/// spells its names: separators dropped, the first letter of each word
/// upper-cased.
pub fn to_camel(term: &str) -> (r: String)
    requires
        term.is_ascii(),
    ensures
        r@ == chars_of_bytes(camel(term.spec_bytes())),
{
    broadcast use vstd::string::is_ascii_spec_bytes;

    let bytes = term.as_bytes_vec();
    proof {
        assert(ascii_bytes(bytes@));
        lemma_camel_rec_ascii(bytes@, true);
    }
    let c = camel_bytes(bytes.as_slice());
    ascii_to_string(c)
}

} // verus!
