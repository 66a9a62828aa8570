//! Word packing and little-endian integer layout used by nodes in the arena.

use vstd::prelude::*;

verus! {

/// Largest tower height a node may have.
pub const MAX_HEIGHT: usize = 20;

/// A tower grows by one more level while a fresh 32-bit draw stays below this
/// threshold (one third of the `u32` range).
pub const HEIGHT_INCREASE: u32 = 0x5555_5555;

/// Largest key size that the packed word can hold (2^27 - 1 bytes).
pub const MAX_KEY_SIZE: u32 = 0x07ff_ffff;

/// Largest height that the packed word can hold (5 bits).
pub const MAX_ENCODED_HEIGHT: u8 = 31;

/// Largest value size; the top bit of the length field marks a removed entry.
pub const MAX_VALUE_SIZE: u32 = 0x7fff_ffff;

/// Length field of the value word of a removed entry.
pub const REMOVED: u32 = 0xffff_ffff;

/// The packed word for a key size and a tower height: the height sits in the
/// five high bits, the key size in the 27 low bits.
pub open spec fn spec_encode_key_size_and_height(key_size: u32, height: u8) -> u32 {
    (height as int * 0x0800_0000 + key_size as int) as u32
}

/// The key size and the height that a packed word holds.
pub open spec fn spec_decode_key_size_and_height(word: u32) -> (u32, u8) {
    ((word as int % 0x0800_0000) as u32, (word as int / 0x0800_0000) as u8)
}

/// The 64-bit value word for an offset and a length field: the offset sits
/// in the low half, the length field in the high half.
pub open spec fn spec_encode_value(offset: u32, size: u32) -> u64 {
    (size as int * 0x1_0000_0000 + offset as int) as u64
}

/// The offset and the length field that a value word holds.
pub open spec fn spec_decode_value(word: u64) -> (u32, u32) {
    ((word as int % 0x1_0000_0000) as u32, (word as int / 0x1_0000_0000) as u32)
}

/// Whether a length field marks a removed entry (its top bit is set).
pub open spec fn spec_is_removed(size: u32) -> bool {
    size >= 0x8000_0000
}

/// Packs a key size and a tower height into one word.
pub fn encode_key_size_and_height(key_size: u32, height: u8) -> (word: u32)
    requires
        key_size <= MAX_KEY_SIZE,
        height <= MAX_ENCODED_HEIGHT,
    ensures
        word == spec_encode_key_size_and_height(key_size, height),
        spec_decode_key_size_and_height(word) == (key_size, height),
        word == ((height as u32) << 27) | key_size,
{
    let h: u32 = height as u32;
    assert(h * 0x0800_0000 + key_size == (h << 27) | key_size) by (bit_vector)
        requires
            h <= 31,
            key_size <= 0x07ff_ffff,
    ;
    h * 0x0800_0000 + key_size
}

/// Splits a packed word into key size and tower height.
pub fn decode_key_size_and_height(word: u32) -> (r: (u32, u8))
    ensures
        r == spec_decode_key_size_and_height(word),
        r.0 <= MAX_KEY_SIZE,
        r.1 <= MAX_ENCODED_HEIGHT,
        spec_encode_key_size_and_height(r.0, r.1) == word,
        r.0 == word & 0x07ff_ffff,
        r.1 as u32 == word >> 27,
{
    assert(word % 0x0800_0000 == word & 0x07ff_ffff) by (bit_vector);
    assert(word / 0x0800_0000 == word >> 27) by (bit_vector);
    (word % 0x0800_0000, (word / 0x0800_0000) as u8)
}

/// Packs a value offset and a length field into the 64-bit value word.
pub fn encode_value(offset: u32, size: u32) -> (word: u64)
    ensures
        word == spec_encode_value(offset, size),
        spec_decode_value(word) == (offset, size),
        word == ((size as u64) << 32) | (offset as u64),
{
    let s: u64 = size as u64;
    let o: u64 = offset as u64;
    assert(s * 0x1_0000_0000 + o == (s << 32) | o) by (bit_vector)
        requires
            s <= 0xffff_ffff,
            o <= 0xffff_ffff,
    ;
    s * 0x1_0000_0000 + o
}

/// Splits a value word into offset and length field.
pub fn decode_value(word: u64) -> (r: (u32, u32))
    ensures
        r == spec_decode_value(word),
        spec_encode_value(r.0, r.1) == word,
{
    ((word % 0x1_0000_0000) as u32, (word / 0x1_0000_0000) as u32)
}

/// Whether a length field marks a removed entry.
pub fn is_removed(size: u32) -> (b: bool)
    ensures
        b == spec_is_removed(size),
        b == (size & 0x8000_0000 != 0),
{
    assert((size >= 0x8000_0000) == (size & 0x8000_0000 != 0)) by (bit_vector);
    size >= 0x8000_0000
}

/// A value word is read and replaced as a whole, so its two halves always
/// belong together: decoding what was encoded gives back both fields.
pub proof fn lemma_value_word_round_trip(offset: u32, size: u32)
    ensures
        spec_decode_value(spec_encode_value(offset, size)) == (offset, size),
{
}

/// Two value words are equal only if both their fields are equal.
pub proof fn lemma_value_word_injective(o1: u32, s1: u32, o2: u32, s2: u32)
    requires
        spec_encode_value(o1, s1) == spec_encode_value(o2, s2),
    ensures
        o1 == o2,
        s1 == s2,
{
    lemma_value_word_round_trip(o1, s1);
    lemma_value_word_round_trip(o2, s2);
}

/// The 32-bit integer stored little-endian in four bytes starting at `at`.
#[verifier::opaque]
pub open spec fn spec_u32_le(bytes: Seq<u8>, at: int) -> u32 {
    (bytes[at] as int + bytes[at + 1] as int * 0x100 + bytes[at + 2] as int * 0x1_0000 + bytes[at
        + 3] as int * 0x100_0000) as u32
}

/// The 64-bit integer stored little-endian in eight bytes starting at `at`.
#[verifier::opaque]
pub open spec fn spec_u64_le(bytes: Seq<u8>, at: int) -> u64 {
    (spec_u32_le(bytes, at) as int + spec_u32_le(bytes, at + 4) as int * 0x1_0000_0000) as u64
}

/// Reads the little-endian 32-bit integer at `at`.
pub fn load_u32_le(bytes: &[u8], at: usize) -> (x: u32)
    requires
        at + 4 <= bytes@.len(),
    ensures
        x == spec_u32_le(bytes@, at as int),
{
    reveal(spec_u32_le);
    let _n: usize = bytes.len();
    let b0: u32 = bytes[at] as u32;
    let b1: u32 = bytes[at + 1] as u32;
    let b2: u32 = bytes[at + 2] as u32;
    let b3: u32 = bytes[at + 3] as u32;
    b0 + b1 * 0x100 + b2 * 0x1_0000 + b3 * 0x100_0000
}

/// Reads the little-endian 64-bit integer at `at`.
pub fn load_u64_le(bytes: &[u8], at: usize) -> (x: u64)
    requires
        at + 8 <= bytes@.len(),
    ensures
        x == spec_u64_le(bytes@, at as int),
{
    reveal(spec_u64_le);
    let _n: usize = bytes.len();
    let lo: u64 = load_u32_le(bytes, at) as u64;
    let hi: u64 = load_u32_le(bytes, at + 4) as u64;
    lo + hi * 0x1_0000_0000
}

/// Appends the four bytes of `x`, least significant first.
pub fn push_u32_le(out: &mut Vec<u8>, x: u32)
    ensures
        final(out)@.len() == old(out)@.len() + 4,
        final(out)@.subrange(0, old(out)@.len() as int) == old(out)@,
        spec_u32_le(final(out)@, old(out)@.len() as int) == x,
{
    let ghost before = out@;
    let q1: u32 = x / 0x100;
    let q2: u32 = q1 / 0x100;
    let q3: u32 = q2 / 0x100;
    let b0: u8 = (x % 0x100) as u8;
    let b1: u8 = (q1 % 0x100) as u8;
    let b2: u8 = (q2 % 0x100) as u8;
    let b3: u8 = q3 as u8;
    assert(x == b0 + b1 * 0x100 + b2 * 0x1_0000 + b3 * 0x100_0000);
    out.push(b0);
    out.push(b1);
    out.push(b2);
    out.push(b3);
    proof {
        reveal(spec_u32_le);
        assert(out@.subrange(0, before.len() as int) =~= before);
    }
}

/// The eight bytes of `x`, least significant first.
pub fn u64_to_le_bytes(x: u64) -> (out: Vec<u8>)
    ensures
        out@.len() == 8,
        spec_u64_le(out@, 0) == x,
{
    let mut out: Vec<u8> = Vec::new();
    push_u32_le(&mut out, (x % 0x1_0000_0000) as u32);
    let ghost mid = out@;
    push_u32_le(&mut out, (x / 0x1_0000_0000) as u32);
    proof {
        reveal(spec_u64_le);
        reveal(spec_u32_le);
        assert(out@.subrange(0, 4) == mid);
        assert(out@[0] == mid[0] && out@[1] == mid[1] && out@[2] == mid[2] && out@[3] == mid[3]);
    }
    out
}

} // verus!
