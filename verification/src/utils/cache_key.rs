//! Keys of caches.

use vstd::prelude::*;

use crate::utils::text::{chars_of, same_text};

verus! {

/// A key of a cache.
pub trait CacheKey: View + Sized {
    /// The number by which keys are spread over the parts of a cache.
    spec fn hash_of(key: Self::V) -> u64;

    /// Whether two keys are the same.
    fn same_key(&self, other: &Self) -> (r: bool)
        ensures
            r == (self@ == other@),
    ;

    /// The number by which keys are spread over the parts of a cache.
    fn shard_hash(&self) -> (r: u64)
        ensures
            r == Self::hash_of(self@),
    ;
}

impl CacheKey for u64 {
    open spec fn hash_of(key: u64) -> u64 {
        key
    }

    fn same_key(&self, other: &u64) -> (r: bool) {
        *self == *other
    }

    fn shard_hash(&self) -> (r: u64) {
        *self
    }
}

/// A hash with characters mixed in, one after the other.
pub open spec fn text_hash(text: Seq<char>) -> u64
    decreases text.len(),
{
    if text.len() == 0 {
        0xcbf2_9ce4_8422_2325
    } else {
        (((text_hash(text.drop_last()) ^ (text.last() as u64)) * 0x100_0000_01b3)
            % 0x1_0000_0000_0000_0000) as u64
    }
}

/// A hash of a text.
pub fn hash_text(text: &str) -> (r: u64)
    ensures
        r == text_hash(text@),
{
    let chars = chars_of(text);
    let mut hash: u64 = 0xcbf2_9ce4_8422_2325;
    let mut i: usize = 0;
    while i < chars.len()
        invariant
            i <= chars@.len(),
            chars@ == text@,
            hash == text_hash(text@.subrange(0, i as int)),
        decreases chars.len() - i,
    {
        proof {
            let longer = text@.subrange(0, i + 1);
            assert(longer.drop_last() =~= text@.subrange(0, i as int));
            assert(longer.last() == chars@[i as int]);
        }
        hash = (hash ^ (chars[i] as u64)).wrapping_mul(0x100_0000_01b3);
        i = i + 1;
    }
    assert(text@.subrange(0, text@.len() as int) =~= text@);
    hash
}

impl CacheKey for String {
    open spec fn hash_of(key: Seq<char>) -> u64 {
        text_hash(key)
    }

    fn same_key(&self, other: &String) -> (r: bool) {
        same_text(self.as_str(), other.as_str())
    }

    fn shard_hash(&self) -> (r: u64) {
        hash_text(self.as_str())
    }
}

impl<'a> CacheKey for &'a str {
    open spec fn hash_of(key: Seq<char>) -> u64 {
        text_hash(key)
    }

    fn same_key(&self, other: &&'a str) -> (r: bool) {
        same_text(*self, *other)
    }

    fn shard_hash(&self) -> (r: u64) {
        hash_text(*self)
    }
}

} // verus!
