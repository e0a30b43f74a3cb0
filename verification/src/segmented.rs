//! Sharding of the cache over independent segments.
//!
//! Every key is routed by a deterministic hash to exactly one segment, so two
//! keys in different segments never contend and a put to one segment leaves
//! every other segment untouched. The global weight budget is divided evenly
//! across the segments, which makes the overall bound approximate by design:
//! each segment enforces its own share independently.

use vstd::prelude::*;

verus! {

use crate::cache::Cache;
use crate::cache::DefaultLifecycle;
use crate::cache::Weigher;

pub const FNV_OFFSET_BASIS: u64 = 0xcbf29ce484222325;

pub const FNV_PRIME: u64 = 0x100000001b3;

/// The 64-bit FNV-1a digest of a byte string, the routing hash of the
/// sharded cache. It is a pure function of the bytes, so routing is
/// deterministic for a fixed segment count.
pub open spec fn fnv1a(bytes: Seq<u8>) -> u64
    decreases bytes.len(),
{
    if bytes.len() == 0 {
        FNV_OFFSET_BASIS
    } else {
        (fnv1a(bytes.drop_last()) ^ (bytes.last() as u64)).wrapping_mul(FNV_PRIME)
    }
}

/// Which of `count` segments a key routes to.
pub open spec fn shard_spec(key: Seq<u8>, count: int) -> int {
    (fnv1a(key) as int) % count
}

/// Computes the FNV-1a digest of `key`.
fn fnv1a_digest(key: &Vec<u8>) -> (h: u64)
    ensures
        h == fnv1a(key@),
{
    let mut h: u64 = FNV_OFFSET_BASIS;
    let n = key.len();
    let mut i: usize = 0;
    proof {
        assert(key@.subrange(0, 0) =~= Seq::<u8>::empty());
    }
    while i < n
        invariant
            n == key@.len(),
            i <= n,
            h == fnv1a(key@.subrange(0, i as int)),
        decreases n - i,
    {
        h = (h ^ (key[i] as u64)).wrapping_mul(FNV_PRIME);
        proof {
            assert(key@.subrange(0, i + 1).drop_last() =~= key@.subrange(0, i as int));
            assert(key@.subrange(0, i + 1).last() == key@[i as int]);
        }
        i = i + 1;
    }
    proof {
        assert(key@.subrange(0, n as int) =~= key@);
    }
    h
}

/// Routes a key to one of `segments` shards: the index every operation on
/// that key must use. Callers that hold each segment behind its own lock
/// use this to pick the lock, exactly as [`SegmentedCache`] does itself.
pub fn shard_for(key: &Vec<u8>, segments: usize) -> (i: usize)
    requires
        segments > 0,
    ensures
        i == shard_spec(key@, segments as int),
        i < segments,
{
    let h = fnv1a_digest(key);
    (h % (segments as u64)) as usize
}

/// A cache sharded over `S` independent segments, each a [`Cache`] with an
/// even share of the total weight budget. The segments are externally
/// synchronized, like the single segment itself.
pub struct SegmentedCache<V, W> {
    segments: Vec<Cache<V, W, DefaultLifecycle>>,
}

impl<V, W: Weigher<V>> SegmentedCache<V, W> {
    /// How many segments the cache has.
    pub closed spec fn seg_count(self) -> int {
        self.segments@.len() as int
    }

    /// The segment at index `i`.
    pub closed spec fn segment(self, i: int) -> Cache<V, W, DefaultLifecycle> {
        self.segments@[i]
    }

    /// The weight budget of each segment.
    pub open spec fn segment_capacity(self) -> int {
        self.segment(0).capacity()
    }

    /// The segment index that `key` routes to; every operation on `key`
    /// touches this segment and no other.
    pub open spec fn shard_of(self, key: Seq<u8>) -> int {
        shard_spec(key, self.seg_count())
    }

    /// There is at least one segment, all segments satisfy their own
    /// invariant, and all share one budget.
    pub open spec fn wf(self) -> bool {
        &&& self.seg_count() > 0
        &&& forall|i: int| 0 <= i < self.seg_count() ==> (#[trigger] self.segment(i)).wf()
        &&& forall|i: int|
            0 <= i < self.seg_count() ==> (#[trigger] self.segment(i)).capacity()
                == self.segment_capacity()
    }

    /// Creates `segments` empty segments, each with an even share of
    /// `max_weight`. A zero segment count is a programming error and is
    /// excluded outright.
    pub fn new(segments: usize, max_weight: usize) -> (cache: Self)
        requires
            segments > 0,
        ensures
            cache.wf(),
            cache.seg_count() == segments,
            cache.segment_capacity() == max_weight as int / segments as int,
            forall|i: int|
                0 <= i < cache.seg_count() ==> {
                    &&& (#[trigger] cache.segment(i)).entries() == Map::<Seq<u8>, V>::empty()
                    &&& cache.segment(i).load() == 0
                    &&& cache.segment(i).log() == Seq::<(Seq<u8>, V)>::empty()
                },
    {
        let weight_per_segment = max_weight / segments;
        let mut pool: Vec<Cache<V, W, DefaultLifecycle>> = Vec::new();
        let mut i: usize = 0;
        while i < segments
            invariant
                i <= segments,
                pool@.len() == i,
                forall|j: int|
                    0 <= j < i as int ==> {
                        &&& (#[trigger] pool@[j]).wf()
                        &&& pool@[j].capacity() == weight_per_segment
                        &&& pool@[j].entries() == Map::<Seq<u8>, V>::empty()
                        &&& pool@[j].load() == 0
                        &&& pool@[j].log() == Seq::<(Seq<u8>, V)>::empty()
                    },
            decreases segments - i,
        {
            pool.push(Cache::new(weight_per_segment));
            i = i + 1;
        }
        Self { segments: pool }
    }

    /// Routes `key` to its segment index. Routing depends only on the key
    /// bytes and the segment count, so it is deterministic per key.
    fn shard_index(&self, key: &Vec<u8>) -> (i: usize)
        requires
            self.seg_count() > 0,
        ensures
            i == self.shard_of(key@),
            i < self.seg_count(),
    {
        shard_for(key, self.segments.len())
    }

    /// Everything a sharded put guarantees: the key's own segment went
    /// through a full [`Cache::put_post`] step, and every other segment is
    /// untouched.
    pub open spec fn put_post(pre: Self, post: Self, key: Seq<u8>, value: V) -> bool {
        &&& post.wf()
        &&& post.seg_count() == pre.seg_count()
        &&& post.segment_capacity() == pre.segment_capacity()
        &&& Cache::put_post(
            pre.segment(pre.shard_of(key)),
            post.segment(pre.shard_of(key)),
            key,
            value,
        )
        &&& forall|j: int|
            0 <= j < pre.seg_count() && j != pre.shard_of(key) ==> #[trigger] post.segment(j)
                == pre.segment(j)
    }

    /// Binds `key` to `value` in the one segment the key routes to.
    pub fn put(&mut self, key: Vec<u8>, value: V)
        requires
            old(self).wf(),
            W::spec_weigh(key@, value) <= old(self).segment_capacity(),
        ensures
            Self::put_post(*old(self), *final(self), key@, value),
    {
        let slot = self.shard_index(&key);
        let segment = &mut self.segments[slot];
        proof {
            assert(*segment == old(self).segment(slot as int));
            assert(old(self).segment(slot as int).wf());
            assert(old(self).segment(slot as int).capacity() == old(self).segment_capacity());
        }
        segment.put(key, value);
        proof {
            assert(self.segments@ =~= old(self).segments@.update(slot as int, *final(segment)));
            assert forall|j: int|
                0 <= j < self.seg_count() implies (#[trigger] self.segment(j)).wf() && self.segment(
                j,
            ).capacity() == self.segment_capacity() by {
                if j != slot as int {
                    assert(self.segment(j) == old(self).segment(j));
                }
            }
        }
    }

    /// Reads the value bound to `key` from the one segment the key routes
    /// to, marking the entry visited there on a hit.
    pub fn get(&mut self, key: &Vec<u8>) -> (r: Option<&V>)
        requires
            old(self).wf(),
        ensures
            final(self).wf(),
            final(self).seg_count() == old(self).seg_count(),
            final(self).segment_capacity() == old(self).segment_capacity(),
            ({
                let s = old(self).shard_of(key@);
                let segment = old(self).segment(s);
                &&& final(self).segment(s).entries() == segment.entries()
                &&& final(self).segment(s).load() == segment.load()
                &&& final(self).segment(s).log() == segment.log()
                &&& match r {
                    Some(v) => segment.entries().dom().contains(key@) && *v
                        == segment.entries()[key@],
                    None => !segment.entries().dom().contains(key@),
                }
                &&& segment.entries().dom().contains(key@) ==> final(self).segment(s).visited(
                    key@,
                )
                &&& forall|j: int|
                    0 <= j < old(self).seg_count() && j != s ==> #[trigger] final(self).segment(j)
                        == old(self).segment(j)
            }),
    {
        let slot = self.shard_index(key);
        let segment = &mut self.segments[slot];
        proof {
            assert(*segment == old(self).segment(slot as int));
            assert(old(self).segment(slot as int).wf());
            assert(old(self).segment(slot as int).capacity() == old(self).segment_capacity());
        }
        segment.touch(key);
        proof {
            assert(self.segments@ =~= old(self).segments@.update(slot as int, *final(segment)));
            assert forall|j: int|
                0 <= j < self.seg_count() implies (#[trigger] self.segment(j)).wf() && self.segment(
                j,
            ).capacity() == self.segment_capacity() by {
                if j != slot as int {
                    assert(self.segment(j) == old(self).segment(j));
                }
            }
            assert(self.segment(slot as int).table_wf());
        }
        let segment_ref = &self.segments[slot];
        segment_ref.peek(key)
    }
}

/// Law: routing is deterministic per key, and puts whose keys route to
/// different segments do not interfere — after both puts, each key is bound
/// to its own value, whichever order the puts ran in.
pub proof fn lemma_sharded_puts_do_not_interfere<V, W: Weigher<V>>(
    s0: SegmentedCache<V, W>,
    s1: SegmentedCache<V, W>,
    s2: SegmentedCache<V, W>,
    key1: Seq<u8>,
    value1: V,
    key2: Seq<u8>,
    value2: V,
)
    requires
        s0.shard_of(key1) != s0.shard_of(key2),
        SegmentedCache::put_post(s0, s1, key1, value1),
        SegmentedCache::put_post(s1, s2, key2, value2),
    ensures
        s2.segment(s2.shard_of(key1)).lookup(key1) == Some(value1),
        s2.segment(s2.shard_of(key2)).lookup(key2) == Some(value2),
{
    assert(s1.shard_of(key1) == s0.shard_of(key1));
    assert(s2.segment(s0.shard_of(key1)) == s1.segment(s0.shard_of(key1)));
}

} // verus!
