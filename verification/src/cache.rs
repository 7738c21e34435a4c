//! The header cache that the chain notifier looks headers up in.

use std::collections::HashMap;

use vstd::prelude::*;

use crate::header::{BlockHash, ValidatedBlockHeader};

verus! {

/// The `Cache` trait defines behavior for managing a block header cache, where block headers
/// are keyed by block hash.
///
/// Used by the chain notifier to store headers along the best chain. Implementations may
/// define their own cache eviction policy: a cache that is not [`unbounded`](Cache::unbounded)
/// may drop entries whenever it is changed. It never holds an entry other than the one that
/// was last inserted under a hash.
pub trait Cache {
    /// The headers that the cache holds, by the hash they were inserted under.
    spec fn entries(&self) -> Map<BlockHash, ValidatedBlockHeader>;

    /// Whether the cache keeps every entry until it is removed.
    spec fn unbounded(&self) -> bool;

    /// Retrieves the block header keyed by the given block hash.
    fn get(&self, block_hash: &BlockHash) -> (found: Option<&ValidatedBlockHeader>)
        ensures
            found == (if self.entries().contains_key(*block_hash) {
                Some(&self.entries()[*block_hash])
            } else {
                None
            }),
    ;

    /// Inserts a block header keyed by the given block hash.
    fn insert(&mut self, block_hash: BlockHash, block_header: ValidatedBlockHeader)
        ensures
            final(self).unbounded() == old(self).unbounded(),
            final(self).entries().submap_of(old(self).entries().insert(block_hash, block_header)),
            old(self).unbounded() ==> final(self).entries() == old(self).entries().insert(
                block_hash,
                block_header,
            ),
    ;

    /// Removes the block header keyed by the given block hash.
    fn remove(&mut self, block_hash: &BlockHash) -> (removed: Option<ValidatedBlockHeader>)
        ensures
            removed == (if old(self).entries().contains_key(*block_hash) {
                Some(old(self).entries()[*block_hash])
            } else {
                None
            }),
            final(self).unbounded() == old(self).unbounded(),
            final(self).entries().submap_of(old(self).entries().remove(*block_hash)),
            old(self).unbounded() ==> final(self).entries() == old(self).entries().remove(
                *block_hash,
            ),
    ;
}

/// Whether no two entries of `bucket` have the same hash.
spec fn distinct(bucket: Seq<(BlockHash, ValidatedBlockHeader)>) -> bool {
    forall|i: int, j: int|
        0 <= i < j < bucket.len() ==> (#[trigger] bucket[i]).0 != (#[trigger] bucket[j]).0
}

/// Whether some entry of `bucket` has the hash `block_hash`.
spec fn holds(bucket: Seq<(BlockHash, ValidatedBlockHeader)>, block_hash: BlockHash) -> bool {
    exists|i: int| 0 <= i < bucket.len() && (#[trigger] bucket[i]).0 == block_hash
}

/// Where the entry with the hash `block_hash` stands in `bucket`.
spec fn place(bucket: Seq<(BlockHash, ValidatedBlockHeader)>, block_hash: BlockHash) -> int {
    choose|i: int| 0 <= i < bucket.len() && (#[trigger] bucket[i]).0 == block_hash
}

/// The header that `bucket` holds under `block_hash`, if any.
spec fn lookup(
    bucket: Seq<(BlockHash, ValidatedBlockHeader)>,
    block_hash: BlockHash,
) -> Option<ValidatedBlockHeader> {
    if holds(bucket, block_hash) {
        Some(bucket[place(bucket, block_hash)].1)
    } else {
        None
    }
}

/// In a bucket of distinct hashes, an entry is what the bucket holds under its hash.
proof fn lemma_lookup_at(bucket: Seq<(BlockHash, ValidatedBlockHeader)>, i: int)
    requires
        distinct(bucket),
        0 <= i < bucket.len(),
    ensures
        lookup(bucket, bucket[i].0) == Some(bucket[i].1),
{
    assert(holds(bucket, bucket[i].0));
    let at = place(bucket, bucket[i].0);
    assert(bucket[at].0 == bucket[i].0);
}

/// Finds the place of the entry with the hash `block_hash`, if there is one.
fn find(bucket: &Vec<(BlockHash, ValidatedBlockHeader)>, block_hash: &BlockHash) -> (found: Option<
    usize,
>)
    requires
        distinct(bucket@),
    ensures
        match found {
            Some(i) => i < bucket.len() && bucket[i as int].0 == *block_hash,
            None => !holds(bucket@, *block_hash),
        },
{
    let mut i: usize = 0;
    while i < bucket.len()
        invariant
            i <= bucket.len(),
            forall|j: int| 0 <= j < i ==> (#[trigger] bucket[j]).0 != *block_hash,
        decreases bucket.len() - i,
    {
        if bucket[i].0 == *block_hash {
            return Some(i);
        }
        i = i + 1;
    }
    None
}

/// Takes the entry with the hash `block_hash` out of the bucket, if there is one.
fn take(bucket: &mut Vec<(BlockHash, ValidatedBlockHeader)>, block_hash: &BlockHash) -> (taken:
    Option<ValidatedBlockHeader>)
    requires
        distinct(old(bucket)@),
    ensures
        distinct(final(bucket)@),
        taken == lookup(old(bucket)@, *block_hash),
        forall|other: BlockHash|
            #![trigger lookup(final(bucket)@, other)]
            lookup(final(bucket)@, other) == (if other == *block_hash {
                None
            } else {
                lookup(old(bucket)@, other)
            }),
{
    let ghost before = bucket@;
    match find(bucket, block_hash) {
        Some(i) => {
            let entry = bucket.swap_remove(i);
            proof {
                let after = bucket@;
                lemma_lookup_at(before, i as int);
                assert forall|other: BlockHash| #![trigger lookup(after, other)] lookup(after, other)
                    == (if other == *block_hash {
                    None
                } else {
                    lookup(before, other)
                }) by {
                    if holds(after, other) {
                        let at = place(after, other);
                        let came = if at == i {
                            before.len() - 1
                        } else {
                            at
                        };
                        assert(before[came] == after[at]);
                        lemma_lookup_at(before, came);
                        lemma_lookup_at(after, at);
                    }
                    if holds(before, other) && other != *block_hash {
                        let at = place(before, other);
                        let went = if at == before.len() - 1 {
                            i as int
                        } else {
                            at
                        };
                        assert(after[went] == before[at]);
                        lemma_lookup_at(after, went);
                    }
                }
            }
            Some(entry.1)
        },
        None => None,
    }
}

/// Puts `block_header` into the bucket under `block_hash`, in place of what the bucket held
/// under that hash.
fn put(
    bucket: &mut Vec<(BlockHash, ValidatedBlockHeader)>,
    block_hash: BlockHash,
    block_header: ValidatedBlockHeader,
)
    requires
        distinct(old(bucket)@),
    ensures
        distinct(final(bucket)@),
        forall|other: BlockHash|
            #![trigger lookup(final(bucket)@, other)]
            lookup(final(bucket)@, other) == (if other == block_hash {
                Some(block_header)
            } else {
                lookup(old(bucket)@, other)
            }),
{
    take(bucket, &block_hash);
    let ghost between = bucket@;
    bucket.push((block_hash, block_header));
    proof {
        let after = bucket@;
        assert(distinct(after)) by {
            assert forall|i: int, j: int| 0 <= i < j < after.len() implies (#[trigger] after[i]).0 != (
            #[trigger] after[j]).0 by {
                if j == after.len() - 1 {
                    assert(lookup(between, block_hash) is None);
                    assert(between[i].0 != block_hash);
                } else {
                    assert(between[i].0 != between[j].0);
                }
            }
        }
        lemma_lookup_at(after, after.len() - 1);
        assert forall|other: BlockHash| #![trigger lookup(after, other)] lookup(after, other) == (
        if other == block_hash {
            Some(block_header)
        } else {
            lookup(between, other)
        }) by {
            if other != block_hash {
                if holds(after, other) {
                    let at = place(after, other);
                    assert(between[at] == after[at]);
                    lemma_lookup_at(between, at);
                    lemma_lookup_at(after, at);
                }
                if holds(between, other) {
                    let at = place(between, other);
                    assert(after[at] == between[at]);
                    lemma_lookup_at(after, at);
                }
            }
        }
    }
}

/// The bucket that a hash belongs to: the number that its first eight bytes stand for.
spec fn bucket_of(block_hash: BlockHash) -> u64 {
    (block_hash.bytes[0] as u64) | (block_hash.bytes[1] as u64) << 8 | (block_hash.bytes[2] as u64)
        << 16 | (block_hash.bytes[3] as u64) << 24 | (block_hash.bytes[4] as u64) << 32 | (
    block_hash.bytes[5] as u64) << 40 | (block_hash.bytes[6] as u64) << 48 | (
    block_hash.bytes[7] as u64) << 56
}

/// Computes the bucket that a hash belongs to.
fn bucket_key(block_hash: &BlockHash) -> (key: u64)
    ensures
        key == bucket_of(*block_hash),
{
    (block_hash.bytes[0] as u64) | (block_hash.bytes[1] as u64) << 8 | (block_hash.bytes[2] as u64)
        << 16 | (block_hash.bytes[3] as u64) << 24 | (block_hash.bytes[4] as u64) << 32 | (
    block_hash.bytes[5] as u64) << 40 | (block_hash.bytes[6] as u64) << 48 | (
    block_hash.bytes[7] as u64) << 56
}

/// Unbounded cache of block headers keyed by block hash.
///
/// The headers are kept in a hash map of buckets, one for each value of the first eight bytes
/// of the block hash.
pub struct UnboundedCache {
    buckets: HashMap<u64, Vec<(BlockHash, ValidatedBlockHeader)>>,
}

impl UnboundedCache {
    #[verifier::type_invariant]
    spec fn hashes_distinct(&self) -> bool {
        forall|key: u64| #[trigger] self.buckets@.contains_key(key) ==> distinct(self.buckets@[key]@)
    }

    /// The header held under `block_hash`, if any.
    spec fn found(&self, block_hash: BlockHash) -> Option<ValidatedBlockHeader> {
        if self.buckets@.contains_key(bucket_of(block_hash)) {
            lookup(self.buckets@[bucket_of(block_hash)]@, block_hash)
        } else {
            None
        }
    }

    /// Creates an empty cache.
    pub fn new() -> (cache: Self)
        ensures
            cache.entries() == Map::<BlockHash, ValidatedBlockHeader>::empty(),
    {
        let cache = UnboundedCache { buckets: HashMap::new() };
        assert(cache.entries() =~= Map::<BlockHash, ValidatedBlockHeader>::empty());
        cache
    }
}

impl Cache for UnboundedCache {
    closed spec fn entries(&self) -> Map<BlockHash, ValidatedBlockHeader> {
        Map::new(
            |block_hash: BlockHash| self.found(block_hash) is Some,
            |block_hash: BlockHash| self.found(block_hash)->0,
        )
    }

    open spec fn unbounded(&self) -> bool {
        true
    }

    fn get(&self, block_hash: &BlockHash) -> (found: Option<&ValidatedBlockHeader>) {
        proof {
            use_type_invariant(self);
        }
        let key = bucket_key(block_hash);
        match self.buckets.get(&key) {
            Some(bucket) => {
                assert(self.buckets@.contains_key(key));
                match find(bucket, block_hash) {
                    Some(i) => {
                        proof {
                            lemma_lookup_at(bucket@, i as int);
                        }
                        Some(&bucket[i].1)
                    },
                    None => None,
                }
            },
            None => None,
        }
    }

    fn insert(&mut self, block_hash: BlockHash, block_header: ValidatedBlockHeader) {
        proof {
            use_type_invariant(&*self);
        }
        let ghost before = *self;
        let key = bucket_key(&block_hash);
        let mut buckets: HashMap<u64, Vec<(BlockHash, ValidatedBlockHeader)>> = HashMap::new();
        std::mem::swap(&mut self.buckets, &mut buckets);
        let mut bucket = match buckets.remove(&key) {
            Some(bucket) => bucket,
            None => Vec::new(),
        };
        let ghost old_bucket = bucket@;
        assert(before.buckets@.contains_key(key) ==> old_bucket == before.buckets@[key]@);
        assert(!before.buckets@.contains_key(key) ==> old_bucket.len() == 0);
        put(&mut bucket, block_hash, block_header);
        let ghost new_bucket = bucket@;
        buckets.insert(key, bucket);
        assert forall|other: u64| #[trigger] buckets@.contains_key(other) implies distinct(
            buckets@[other]@,
        ) by {
            if other != key {
                assert(before.buckets@.contains_key(other));
            }
        }
        self.buckets = buckets;
        proof {
            assert forall|other: BlockHash| self.found(other) == (if other == block_hash {
                Some(block_header)
            } else {
                before.found(other)
            }) by {
                if bucket_of(other) == key {
                    assert(self.found(other) == lookup(new_bucket, other));
                    if !before.buckets@.contains_key(key) {
                        assert(lookup(old_bucket, other) is None);
                    }
                } else {
                    assert(self.buckets@.contains_key(bucket_of(other))
                        == before.buckets@.contains_key(bucket_of(other)));
                }
            }
            assert(self.entries() =~= before.entries().insert(block_hash, block_header));
        }
    }

    fn remove(&mut self, block_hash: &BlockHash) -> (removed: Option<ValidatedBlockHeader>) {
        proof {
            use_type_invariant(&*self);
        }
        let ghost before = *self;
        let key = bucket_key(block_hash);
        let mut buckets: HashMap<u64, Vec<(BlockHash, ValidatedBlockHeader)>> = HashMap::new();
        std::mem::swap(&mut self.buckets, &mut buckets);
        let removed = match buckets.remove(&key) {
            Some(bucket) => {
                let mut bucket = bucket;
                let ghost old_bucket = bucket@;
                assert(before.buckets@.contains_key(key) && old_bucket == before.buckets@[key]@);
                let removed = take(&mut bucket, block_hash);
                let ghost new_bucket = bucket@;
                if bucket.len() > 0 {
                    buckets.insert(key, bucket);
                }
                assert forall|other: u64| #[trigger] buckets@.contains_key(other) implies distinct(
                    buckets@[other]@,
                ) by {
                    if other != key {
                        assert(before.buckets@.contains_key(other));
                    }
                }
                self.buckets = buckets;
                proof {
                    assert forall|other: BlockHash| self.found(other) == (if other == *block_hash {
                        None
                    } else {
                        before.found(other)
                    }) by {
                        if bucket_of(other) == key {
                            assert(new_bucket.len() == 0 ==> !holds(new_bucket, other));
                            assert(self.found(other) == lookup(new_bucket, other));
                        } else {
                            assert(self.buckets@.contains_key(bucket_of(other))
                                == before.buckets@.contains_key(bucket_of(other)));
                        }
                    }
                }
                removed
            },
            None => {
                assert(!before.buckets@.contains_key(key));
                assert(buckets@ == before.buckets@);
                self.buckets = buckets;
                None
            },
        };
        assert(self.entries() =~= before.entries().remove(*block_hash));
        removed
    }
}

} // verus!
