//! The deterministic 32-bit key digests that pick a bucket: the legacy
//! additive hash used by default, and the improved Jenkins lookup3-style
//! hash selected by the incompatible-hash creation flag.

use vstd::prelude::*;
use vstd::wrapping::u32_specs;

verus! {

/// The byte at `i`, widened, or zero past the end of the key.
pub open spec fn byte_or_zero(key: Seq<u8>, i: int) -> u32 {
    if 0 <= i < key.len() {
        key[i] as u32
    } else {
        0u32
    }
}

/// A little-endian 32-bit word read at `off`, zero-padded past the end.
pub open spec fn le_word(key: Seq<u8>, off: int) -> u32 {
    byte_or_zero(key, off) | (byte_or_zero(key, off + 1) << 8) | (byte_or_zero(key, off + 2)
        << 16) | (byte_or_zero(key, off + 3) << 24)
}

/// Rotate a 32-bit word left by `k` bits, for `0 < k < 32`.
pub open spec fn rot(x: u32, k: u32) -> u32 {
    (x << k) | (x >> (32 - k) as u32)
}

/// One step of the legacy hash: add the byte, shifted, with wraparound.
pub open spec fn legacy_step(value: u32, byte: u8, shift: u32) -> u32 {
    u32_specs::wrapping_add(value, (byte as u32) << shift)
}

/// The legacy hash's accumulation over the key from index `i` on, with the
/// running shift amount (five more bits per byte, modulo 24).
pub open spec fn legacy_rec(key: Seq<u8>, i: int, value: u32, shift: u32) -> u32
    decreases key.len() - i,
{
    if i < 0 || i >= key.len() {
        value
    } else {
        legacy_rec(key, i + 1, legacy_step(value, key[i], shift), ((shift + 5) % 24) as u32)
    }
}

/// The legacy hash: seed from the length, fold in each byte at a rotating
/// shift, then scramble with a linear-congruential step.
#[verifier::opaque]
pub open spec fn spec_legacy_hash(key: Seq<u8>) -> u32 {
    let seed = u32_specs::wrapping_mul(0x238F13AF, (key.len() % 0x1_0000_0000) as u32);
    u32_specs::wrapping_add(
        u32_specs::wrapping_mul(1103515243, legacy_rec(key, 0, seed, 0)),
        12345,
    )
}

/// The lookup3 mixing round over the three running words.
pub open spec fn mix(a: u32, b: u32, c: u32) -> (u32, u32, u32) {
    let a = u32_specs::wrapping_sub(a, c);
    let a = a ^ rot(c, 4);
    let c = u32_specs::wrapping_add(c, b);
    let b = u32_specs::wrapping_sub(b, a);
    let b = b ^ rot(a, 6);
    let a = u32_specs::wrapping_add(a, c);
    let c = u32_specs::wrapping_sub(c, b);
    let c = c ^ rot(b, 8);
    let b = u32_specs::wrapping_add(b, a);
    let a = u32_specs::wrapping_sub(a, c);
    let a = a ^ rot(c, 16);
    let c = u32_specs::wrapping_add(c, b);
    let b = u32_specs::wrapping_sub(b, a);
    let b = b ^ rot(a, 19);
    let a = u32_specs::wrapping_add(a, c);
    let c = u32_specs::wrapping_sub(c, b);
    let c = c ^ rot(b, 4);
    let b = u32_specs::wrapping_add(b, a);
    (a, b, c)
}

/// The lookup3 final scramble; the hash is the last word.
pub open spec fn final_mix(a: u32, b: u32, c: u32) -> u32 {
    let c = c ^ b;
    let c = u32_specs::wrapping_sub(c, rot(b, 14));
    let a = a ^ c;
    let a = u32_specs::wrapping_sub(a, rot(c, 11));
    let b = b ^ a;
    let b = u32_specs::wrapping_sub(b, rot(a, 25));
    let c = c ^ b;
    let c = u32_specs::wrapping_sub(c, rot(b, 16));
    let a = a ^ c;
    let a = u32_specs::wrapping_sub(a, rot(c, 4));
    let b = b ^ a;
    let b = u32_specs::wrapping_sub(b, rot(a, 14));
    let c = c ^ b;
    let c = u32_specs::wrapping_sub(c, rot(b, 24));
    c
}

/// Absorb one twelve-byte block into the running words.
pub open spec fn absorb(key: Seq<u8>, off: int, a: u32, b: u32, c: u32) -> (u32, u32, u32) {
    (
        u32_specs::wrapping_add(a, le_word(key, off)),
        u32_specs::wrapping_add(b, le_word(key, off + 4)),
        u32_specs::wrapping_add(c, le_word(key, off + 8)),
    )
}

/// The improved hash's walk: full blocks are absorbed and mixed; the final
/// short block (zero-padded) is absorbed and scrambled. An empty key skips
/// straight to the seed word.
pub open spec fn jenkins_rec(key: Seq<u8>, off: int, a: u32, b: u32, c: u32) -> u32
    decreases key.len() - off,
{
    if key.len() - off > 12 {
        let (a2, b2, c2) = absorb(key, off, a, b, c);
        let (a3, b3, c3) = mix(a2, b2, c2);
        jenkins_rec(key, off + 12, a3, b3, c3)
    } else if key.len() - off <= 0 {
        c
    } else {
        let (a2, b2, c2) = absorb(key, off, a, b, c);
        final_mix(a2, b2, c2)
    }
}

/// The improved hash: a Jenkins lookup3-style digest of the key's bytes.
#[verifier::opaque]
pub open spec fn spec_jenkins_hash(key: Seq<u8>) -> u32 {
    let init = u32_specs::wrapping_add(0xdeadbeef, (key.len() % 0x1_0000_0000) as u32);
    jenkins_rec(key, 0, init, init, init)
}

/// The digest a database computes for a key, by hash variant.
#[verifier::opaque]
pub open spec fn spec_hash(key: Seq<u8>, improved: bool) -> u32 {
    if improved {
        spec_jenkins_hash(key)
    } else {
        spec_legacy_hash(key)
    }
}

/// The byte at `off + d`, widened, or zero past the end of the key.
fn byte_at(key: &[u8], off: usize, d: usize) -> (r: u32)
    requires
        d <= 11,
    ensures
        r == byte_or_zero(key@, off + d),
{
    let n = key.len();
    if off < n && d < n - off {
        key[off + d] as u32
    } else {
        0
    }
}

/// A little-endian 32-bit word read at `off + d`, zero-padded past the end.
fn load_word(key: &[u8], off: usize, d: usize) -> (r: u32)
    requires
        d <= 8,
    ensures
        r == le_word(key@, off + d),
{
    let b0 = byte_at(key, off, d);
    let b1 = byte_at(key, off, d + 1);
    let b2 = byte_at(key, off, d + 2);
    let b3 = byte_at(key, off, d + 3);
    b0 | (b1 << 8u32) | (b2 << 16u32) | (b3 << 24u32)
}

/// One lookup3 mixing round.
fn mix_exec(a: u32, b: u32, c: u32) -> (r: (u32, u32, u32))
    ensures
        r == mix(a, b, c),
{
    let a = a.wrapping_sub(c);
    let a = a ^ (c << 4u32 | c >> 28u32);
    let c = c.wrapping_add(b);
    let b = b.wrapping_sub(a);
    let b = b ^ (a << 6u32 | a >> 26u32);
    let a = a.wrapping_add(c);
    let c = c.wrapping_sub(b);
    let c = c ^ (b << 8u32 | b >> 24u32);
    let b = b.wrapping_add(a);
    let a = a.wrapping_sub(c);
    let a = a ^ (c << 16u32 | c >> 16u32);
    let c = c.wrapping_add(b);
    let b = b.wrapping_sub(a);
    let b = b ^ (a << 19u32 | a >> 13u32);
    let a = a.wrapping_add(c);
    let c = c.wrapping_sub(b);
    let c = c ^ (b << 4u32 | b >> 28u32);
    let b = b.wrapping_add(a);
    (a, b, c)
}

/// The lookup3 final scramble.
fn final_mix_exec(a: u32, b: u32, c: u32) -> (r: u32)
    ensures
        r == final_mix(a, b, c),
{
    let c = c ^ b;
    let c = c.wrapping_sub(b << 14u32 | b >> 18u32);
    let a = a ^ c;
    let a = a.wrapping_sub(c << 11u32 | c >> 21u32);
    let b = b ^ a;
    let b = b.wrapping_sub(a << 25u32 | a >> 7u32);
    let c = c ^ b;
    let c = c.wrapping_sub(b << 16u32 | b >> 16u32);
    let a = a ^ c;
    let a = a.wrapping_sub(c << 4u32 | c >> 28u32);
    let b = b ^ a;
    let b = b.wrapping_sub(a << 14u32 | a >> 18u32);
    let c = c ^ b;
    let c = c.wrapping_sub(b << 24u32 | b >> 8u32);
    c
}

/// The improved Jenkins lookup3-style hash of a key.
pub fn jenkins_hash_bytes(key: &[u8]) -> (r: u32)
    ensures
        r == spec_jenkins_hash(key@),
{
    proof {
        reveal(spec_jenkins_hash);
    }
    let n = key.len();
    let init = 0xdeadbeefu32.wrapping_add(((n as u64) % 0x1_0000_0000u64) as u32);
    let mut a = init;
    let mut b = init;
    let mut c = init;
    let mut off: usize = 0;
    while n - off > 12
        invariant
            off <= n,
            n == key@.len(),
            jenkins_rec(key@, off as int, a, b, c) == jenkins_rec(key@, 0, init, init, init),
        decreases n - off,
    {
        let a2 = a.wrapping_add(load_word(key, off, 0));
        let b2 = b.wrapping_add(load_word(key, off, 4));
        let c2 = c.wrapping_add(load_word(key, off, 8));
        let (a3, b3, c3) = mix_exec(a2, b2, c2);
        a = a3;
        b = b3;
        c = c3;
        off = off + 12;
    }
    if n - off == 0 {
        c
    } else {
        let a2 = a.wrapping_add(load_word(key, off, 0));
        let b2 = b.wrapping_add(load_word(key, off, 4));
        let c2 = c.wrapping_add(load_word(key, off, 8));
        final_mix_exec(a2, b2, c2)
    }
}

/// Generate the jenkins hash of a key.
pub fn jenkins_hash(key: Vec<u8>) -> (r: u32)
    ensures
        r == spec_jenkins_hash(key@),
{
    jenkins_hash_bytes(key.as_slice())
}

/// The legacy hash of a key.
pub fn legacy_hash_bytes(key: &[u8]) -> (r: u32)
    ensures
        r == spec_legacy_hash(key@),
{
    proof {
        reveal(spec_legacy_hash);
    }
    let n = key.len();
    let seed = 0x238F13AFu32.wrapping_mul(((n as u64) % 0x1_0000_0000u64) as u32);
    let mut value = seed;
    let mut shift: u32 = 0;
    let mut i: usize = 0;
    while i < n
        invariant
            i <= n,
            n == key@.len(),
            shift < 24,
            legacy_rec(key@, i as int, value, shift) == legacy_rec(key@, 0, seed, 0),
        decreases n - i,
    {
        value = value.wrapping_add((key[i] as u32) << shift);
        shift = (shift + 5) % 24;
        i = i + 1;
    }
    1103515243u32.wrapping_mul(value).wrapping_add(12345)
}

/// The digest a database computes for a key, by hash variant.
pub fn hash_key(key: &[u8], improved: bool) -> (r: u32)
    ensures
        r == spec_hash(key@, improved),
{
    proof {
        reveal(spec_hash);
    }
    if improved {
        jenkins_hash_bytes(key)
    } else {
        legacy_hash_bytes(key)
    }
}

} // verus!
