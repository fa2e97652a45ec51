//! Keys of the hash map: what a key type provides, and the key types that
//! the library provides it for.
//!
//! A key stands for its view. Two keys are the same key when their views are
//! equal, and the hash of a key is a function of its view, so that the same
//! key always probes from the same slot.

use vstd::prelude::*;
use vstd::utf8::{encode_utf8, encode_utf8_decode_utf8};

verus! {

/// A type whose values can be keys of a `CroMap`.
pub trait HashKey: View + Sized {
    /// The hash of the key that has the view `v`.
    spec fn hash_spec(v: Self::V) -> u64;

    /// Computes the hash of the key.
    fn hash_code(&self) -> (h: u64)
        ensures
            h == Self::hash_spec(self@),
    ;

    /// Decides whether two keys are the same key.
    fn same(&self, other: &Self) -> (b: bool)
        ensures
            b == (self@ == other@),
    ;
}

/// A way of hashing the keys of a table. The hash of a key is a function
/// of its view, so that the same key always probes from the same slot.
pub trait HashStrategy<K: View> {
    /// The hash that the strategy gives the key with the view `v`.
    spec fn hash_of(&self, v: K::V) -> u64;

    /// Computes the hash of `key`.
    fn hash(&self, key: &K) -> (h: u64)
        ensures
            h == self.hash_of(key@),
    ;
}

/// The strategy that gives each key the hash of its type.
#[derive(Clone, Copy, Debug)]
pub struct KeyHash;

impl<K: HashKey> HashStrategy<K> for KeyHash {
    open spec fn hash_of(&self, v: K::V) -> u64 {
        K::hash_spec(v)
    }

    fn hash(&self, key: &K) -> (h: u64) {
        key.hash_code()
    }
}

/// A strategy that mixes a seed into the hash of the key type, so that
/// tables with different seeds lay the same keys out differently.
#[derive(Clone, Copy, Debug)]
pub struct SeededHash {
    seed: u64,
}

impl SeededHash {
    /// The seed of the strategy.
    pub closed spec fn spec_seed(&self) -> u64 {
        self.seed
    }

    /// A strategy with the given seed.
    pub fn new(seed: u64) -> (hasher: Self)
        ensures
            hasher.spec_seed() == seed,
    {
        SeededHash { seed }
    }

    /// The seed of the strategy.
    pub fn seed(&self) -> (seed: u64)
        ensures
            seed == self.spec_seed(),
    {
        self.seed
    }
}

impl<K: HashKey> HashStrategy<K> for SeededHash {
    /// The hash of the key type, xor-ed with the seed and multiplied by the
    /// FNV prime, modulo 2^64.
    open spec fn hash_of(&self, v: K::V) -> u64 {
        (K::hash_spec(v) ^ self.spec_seed()).wrapping_mul(FNV_PRIME)
    }

    fn hash(&self, key: &K) -> (h: u64) {
        (key.hash_code() ^ self.seed).wrapping_mul(FNV_PRIME)
    }
}

/// The offset basis of the 64-bit FNV-1a hash.
pub const FNV_OFFSET: u64 = 0xcbf2_9ce4_8422_2325;

/// The prime of the 64-bit FNV-1a hash.
pub const FNV_PRIME: u64 = 0x0000_0100_0000_01b3;

/// The 64-bit FNV-1a hash of a byte string: starting from the offset basis,
/// each byte in turn is xor-ed in and the result multiplied by the prime,
/// modulo 2^64.
pub open spec fn fnv1a(bytes: Seq<u8>) -> u64
    decreases bytes.len(),
{
    if bytes.len() == 0 {
        FNV_OFFSET
    } else {
        (fnv1a(bytes.drop_last()) ^ (bytes.last() as u64)).wrapping_mul(FNV_PRIME)
    }
}

/// Computes the FNV-1a hash of a byte string.
pub fn fnv1a_of(bytes: &[u8]) -> (h: u64)
    ensures
        h == fnv1a(bytes@),
{
    let mut h: u64 = FNV_OFFSET;
    let mut i: usize = 0;
    while i < bytes.len()
        invariant
            i <= bytes@.len(),
            h == fnv1a(bytes@.subrange(0, i as int)),
        decreases bytes@.len() - i,
    {
        assert(bytes@.subrange(0, i + 1).drop_last() =~= bytes@.subrange(0, i as int));
        h = (h ^ (bytes[i] as u64)).wrapping_mul(FNV_PRIME);
        i = i + 1;
    }
    assert(bytes@.subrange(0, i as int) =~= bytes@);
    h
}

/// Decides whether two byte strings are equal.
pub fn same_bytes(a: &[u8], b: &[u8]) -> (r: bool)
    ensures
        r == (a@ == b@),
{
    if a.len() != b.len() {
        return false;
    }
    let mut i: usize = 0;
    while i < a.len()
        invariant
            i <= a@.len(),
            a@.len() == b@.len(),
            a@.subrange(0, i as int) == b@.subrange(0, i as int),
        decreases a@.len() - i,
    {
        if a[i] != b[i] {
            return false;
        }
        assert(a@.subrange(0, i + 1) =~= a@.subrange(0, i as int).push(a@[i as int]));
        assert(b@.subrange(0, i + 1) =~= b@.subrange(0, i as int).push(b@[i as int]));
        i = i + 1;
    }
    assert(a@.subrange(0, i as int) =~= a@);
    assert(b@.subrange(0, i as int) =~= b@);
    true
}

/// Two strings with the same UTF-8 encoding are the same string.
pub proof fn lemma_encoding_tells_apart(a: Seq<char>, b: Seq<char>)
    requires
        encode_utf8(a) == encode_utf8(b),
    ensures
        a == b,
{
    encode_utf8_decode_utf8(a);
    encode_utf8_decode_utf8(b);
}

impl<'a> HashKey for &'a str {
    /// The FNV-1a hash of the UTF-8 encoding of the string.
    open spec fn hash_spec(v: Seq<char>) -> u64 {
        fnv1a(encode_utf8(v))
    }

    fn hash_code(&self) -> (h: u64) {
        fnv1a_of(self.as_bytes())
    }

    fn same(&self, other: &Self) -> (b: bool) {
        proof {
            if encode_utf8(self@) == encode_utf8(other@) {
                lemma_encoding_tells_apart(self@, other@);
            }
        }
        same_bytes(self.as_bytes(), other.as_bytes())
    }
}

impl HashKey for String {
    /// The FNV-1a hash of the UTF-8 encoding of the string.
    open spec fn hash_spec(v: Seq<char>) -> u64 {
        fnv1a(encode_utf8(v))
    }

    fn hash_code(&self) -> (h: u64) {
        fnv1a_of(self.as_str().as_bytes())
    }

    fn same(&self, other: &Self) -> (b: bool) {
        proof {
            if encode_utf8(self@) == encode_utf8(other@) {
                lemma_encoding_tells_apart(self@, other@);
            }
        }
        same_bytes(self.as_str().as_bytes(), other.as_str().as_bytes())
    }
}

impl HashKey for u64 {
    /// The key itself.
    open spec fn hash_spec(v: u64) -> u64 {
        v
    }

    fn hash_code(&self) -> (h: u64) {
        *self
    }

    fn same(&self, other: &Self) -> (b: bool) {
        *self == *other
    }
}

impl HashKey for u8 {
    /// The key itself.
    open spec fn hash_spec(v: u8) -> u64 {
        v as u64
    }

    fn hash_code(&self) -> (h: u64) {
        *self as u64
    }

    fn same(&self, other: &Self) -> (b: bool) {
        *self == *other
    }
}

impl HashKey for u16 {
    /// The key itself.
    open spec fn hash_spec(v: u16) -> u64 {
        v as u64
    }

    fn hash_code(&self) -> (h: u64) {
        *self as u64
    }

    fn same(&self, other: &Self) -> (b: bool) {
        *self == *other
    }
}

impl HashKey for u32 {
    /// The key itself.
    open spec fn hash_spec(v: u32) -> u64 {
        v as u64
    }

    fn hash_code(&self) -> (h: u64) {
        *self as u64
    }

    fn same(&self, other: &Self) -> (b: bool) {
        *self == *other
    }
}

impl HashKey for usize {
    /// The key itself.
    open spec fn hash_spec(v: usize) -> u64 {
        v as u64
    }

    fn hash_code(&self) -> (h: u64) {
        *self as u64
    }

    fn same(&self, other: &Self) -> (b: bool) {
        *self == *other
    }
}

impl HashKey for i8 {
    /// The low 64 bits of the key in two's complement.
    open spec fn hash_spec(v: i8) -> u64 {
        v as u64
    }

    fn hash_code(&self) -> (h: u64) {
        #[verifier::truncate]
        (*self as u64)
    }

    fn same(&self, other: &Self) -> (b: bool) {
        *self == *other
    }
}

impl HashKey for i16 {
    /// The low 64 bits of the key in two's complement.
    open spec fn hash_spec(v: i16) -> u64 {
        v as u64
    }

    fn hash_code(&self) -> (h: u64) {
        #[verifier::truncate]
        (*self as u64)
    }

    fn same(&self, other: &Self) -> (b: bool) {
        *self == *other
    }
}

impl HashKey for i32 {
    /// The low 64 bits of the key in two's complement.
    open spec fn hash_spec(v: i32) -> u64 {
        v as u64
    }

    fn hash_code(&self) -> (h: u64) {
        #[verifier::truncate]
        (*self as u64)
    }

    fn same(&self, other: &Self) -> (b: bool) {
        *self == *other
    }
}

impl HashKey for i64 {
    /// The low 64 bits of the key in two's complement.
    open spec fn hash_spec(v: i64) -> u64 {
        v as u64
    }

    fn hash_code(&self) -> (h: u64) {
        #[verifier::truncate]
        (*self as u64)
    }

    fn same(&self, other: &Self) -> (b: bool) {
        *self == *other
    }
}

impl HashKey for isize {
    /// The low 64 bits of the key in two's complement.
    open spec fn hash_spec(v: isize) -> u64 {
        v as u64
    }

    fn hash_code(&self) -> (h: u64) {
        #[verifier::truncate]
        (*self as u64)
    }

    fn same(&self, other: &Self) -> (b: bool) {
        *self == *other
    }
}

impl HashKey for char {
    /// The code point of the character.
    open spec fn hash_spec(v: char) -> u64 {
        v as u64
    }

    fn hash_code(&self) -> (h: u64) {
        *self as u64
    }

    fn same(&self, other: &Self) -> (b: bool) {
        *self == *other
    }
}

impl HashKey for bool {
    /// One for `true`, nothing for `false`.
    open spec fn hash_spec(v: bool) -> u64 {
        if v {
            1
        } else {
            0
        }
    }

    fn hash_code(&self) -> (h: u64) {
        if *self {
            1
        } else {
            0
        }
    }

    fn same(&self, other: &Self) -> (b: bool) {
        *self == *other
    }
}

} // verus!
