//! Sample values as ordered integer keys.
//!
//! A sample value reaches the library as the 64-bit word of a binary
//! floating-point number: a sign bit above 63 bits of magnitude. Such words do
//! not compare as the numbers do. `to_key` turns a word into a key that does:
//! keys of words with the sign bit come first, the larger magnitude first;
//! keys of words without it follow, the smaller magnitude first. `from_key`
//! turns a key back into its word.

use vstd::prelude::*;

verus! {

pub const SIGN: u64 = 0x8000_0000_0000_0000;

pub open spec fn spec_to_key(word: u64) -> u64 {
    if word & SIGN == 0 {
        word | SIGN
    } else {
        !word
    }
}

pub open spec fn spec_from_key(key: u64) -> u64 {
    if key & SIGN == 0 {
        !key
    } else {
        key & !SIGN
    }
}

/// The key of a word.
#[verifier::when_used_as_spec(spec_to_key)]
pub fn to_key(word: u64) -> (key: u64)
    ensures
        key == spec_to_key(word),
{
    if word & SIGN == 0 {
        word | SIGN
    } else {
        !word
    }
}

/// The word of a key.
#[verifier::when_used_as_spec(spec_from_key)]
pub fn from_key(key: u64) -> (word: u64)
    ensures
        word == spec_from_key(key),
{
    if key & SIGN == 0 {
        !key
    } else {
        key & !SIGN
    }
}

/// `to_key` and `from_key` undo each other: every word has one key and
/// every key one word.
pub proof fn lemma_key_round_trip(x: u64)
    ensures
        from_key(to_key(x)) == x,
        to_key(from_key(x)) == x,
{
    assert(x & 0x8000_0000_0000_0000 == 0 ==> ((x | 0x8000_0000_0000_0000)
        & 0x8000_0000_0000_0000 != 0 && (x | 0x8000_0000_0000_0000) & !0x8000_0000_0000_0000u64
        == x)) by (bit_vector);
    assert(x & 0x8000_0000_0000_0000 != 0 ==> ((!x) & 0x8000_0000_0000_0000 == 0 && !(!x) == x))
        by (bit_vector);
    assert(x & 0x8000_0000_0000_0000 == 0 ==> ((!x) & 0x8000_0000_0000_0000 != 0 && !(!x) == x))
        by (bit_vector);
    assert(x & 0x8000_0000_0000_0000 != 0 ==> ((x & !0x8000_0000_0000_0000u64)
        & 0x8000_0000_0000_0000 == 0 && (x & !0x8000_0000_0000_0000u64) | 0x8000_0000_0000_0000
        == x)) by (bit_vector);
}

/// The order of the keys: among words without the sign bit it is the order
/// of the words, among words with the sign bit it is the reverse, and every
/// word with the sign bit comes before every word without it.
pub proof fn lemma_key_order(a: u64, b: u64)
    ensures
        a & SIGN == 0 && b & SIGN == 0 ==> (to_key(a) < to_key(b) <==> a < b),
        a & SIGN != 0 && b & SIGN != 0 ==> (to_key(a) < to_key(b) <==> a > b),
        a & SIGN != 0 && b & SIGN == 0 ==> to_key(a) < to_key(b),
{
    assert(a & 0x8000_0000_0000_0000 == 0 && b & 0x8000_0000_0000_0000 == 0 ==> ((a
        | 0x8000_0000_0000_0000) < (b | 0x8000_0000_0000_0000) <==> a < b)) by (bit_vector);
    assert(a & 0x8000_0000_0000_0000 != 0 && b & 0x8000_0000_0000_0000 != 0 ==> ((!a) < (!b) <==> a
        > b)) by (bit_vector);
    assert(a & 0x8000_0000_0000_0000 != 0 && b & 0x8000_0000_0000_0000 == 0 ==> (!a) < (b
        | 0x8000_0000_0000_0000)) by (bit_vector);
}

} // verus!
