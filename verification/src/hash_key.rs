use vstd::prelude::*;

verus! {

use vstd::string::StrSliceExecFns;

/// A key type for the bucketed hash map.
///
/// `hash_of` is the hash function as the map's contracts see it: a pure
/// function of the key's view, so keys with equal views always hash
/// identically — all a bucketed map needs, since it derives bucket indices
/// from the hash by modulo. Any total, deterministic hash is acceptable.
/// `hash_code` computes that hash, and `key_eq` decides view equality.
pub trait HashKey: View + Sized {
    /// The hash of a key whose view is `key`.
    spec fn hash_of(key: Self::V) -> u64;

    /// Computes this key's hash.
    fn hash_code(&self) -> (h: u64)
        ensures
            h == Self::hash_of(self@),
    ;

    /// Whether this key equals `other` (their views coincide).
    fn key_eq(&self, other: &Self) -> (eq: bool)
        ensures
            eq == (self@ == other@),
    ;
}

impl HashKey for u32 {
    open spec fn hash_of(key: u32) -> u64 {
        key as u64
    }

    fn hash_code(&self) -> (h: u64) {
        *self as u64
    }

    fn key_eq(&self, other: &Self) -> (eq: bool) {
        *self == *other
    }
}

impl HashKey for u64 {
    open spec fn hash_of(key: u64) -> u64 {
        key
    }

    fn hash_code(&self) -> (h: u64) {
        *self
    }

    fn key_eq(&self, other: &Self) -> (eq: bool) {
        *self == *other
    }
}

impl HashKey for usize {
    open spec fn hash_of(key: usize) -> u64 {
        key as u64
    }

    fn hash_code(&self) -> (h: u64) {
        *self as u64
    }

    fn key_eq(&self, other: &Self) -> (eq: bool) {
        *self == *other
    }
}

impl HashKey for bool {
    open spec fn hash_of(key: bool) -> u64 {
        if key {
            1
        } else {
            0
        }
    }

    fn hash_code(&self) -> (h: u64) {
        if *self {
            1
        } else {
            0
        }
    }

    fn key_eq(&self, other: &Self) -> (eq: bool) {
        *self == *other
    }
}

impl HashKey for i32 {
    open spec fn hash_of(key: i32) -> u64 {
        (key + 0x8000_0000) as u64
    }

    fn hash_code(&self) -> (h: u64) {
        (*self as i64 + 0x8000_0000i64) as u64
    }

    fn key_eq(&self, other: &Self) -> (eq: bool) {
        *self == *other
    }
}

impl HashKey for i64 {
    open spec fn hash_of(key: i64) -> u64 {
        (key + 0x8000_0000_0000_0000) as u64
    }

    fn hash_code(&self) -> (h: u64) {
        (*self as i128 + 0x8000_0000_0000_0000i128) as u64
    }

    fn key_eq(&self, other: &Self) -> (eq: bool) {
        *self == *other
    }
}

/// A content hash of a character sequence, kept below 2^32: each character
/// folds into the accumulator as `h * 33 + c`, modulo 2^32.
pub open spec fn string_hash(chars: Seq<char>) -> u64
    decreases chars.len(),
{
    if chars.len() == 0 {
        5381u64
    } else {
        ((string_hash(chars.drop_last()) * 33 + (chars.last() as u64)) % 0x1_0000_0000) as u64
    }
}

impl HashKey for String {
    open spec fn hash_of(key: Seq<char>) -> u64 {
        string_hash(key)
    }

    fn hash_code(&self) -> (h: u64) {
        let n = self.as_str().unicode_len();
        let mut h: u64 = 5381;
        let mut i: usize = 0;
        while i < n
            invariant
                n == self@.len(),
                i <= n,
                h == string_hash(self@.subrange(0, i as int)),
                h < 0x1_0000_0000,
            decreases n - i,
        {
            let c = self.as_str().get_char(i);
            h = (h * 33 + (c as u64)) % 0x1_0000_0000;
            i = i + 1;
            proof {
                let prefix = self@.subrange(0, i as int);
                assert(prefix.drop_last() =~= self@.subrange(0, i - 1));
                assert(prefix.last() == self@[i - 1]);
            }
        }
        proof {
            assert(self@.subrange(0, self@.len() as int) =~= self@);
        }
        h
    }

    fn key_eq(&self, other: &Self) -> (eq: bool) {
        *self == *other
    }
}

} // verus!
