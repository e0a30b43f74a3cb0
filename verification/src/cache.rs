//! A single-segment, weight-bounded associative cache with SIEVE eviction.
//!
//! The segment owns a lookup table (keys, values, and visited bits kept in
//! step), a circular queue of eviction records, and a sweeping hand. Eviction
//! runs inside `put` until the candidate entry fits under the weight budget:
//! a visited record is demoted and spared, an unvisited one is evicted, and a
//! stale record (its key already removed) is discarded silently.

use core::marker::PhantomData;
use vstd::prelude::*;

verus! {

use crate::model::count_set;
use crate::model::distinct_keys;
use crate::model::entries_weight;
use crate::model::lemma_count_set_clear;
use crate::model::lemma_entries_weight_element_bound;
use crate::model::lemma_entries_weight_swap_remove;
use crate::model::lemma_entries_weight_update;
use crate::model::lemma_pairs_map_characterization;
use crate::model::lemma_pairs_map_len;
use crate::model::pairs_map;

/// Computes the capacity cost charged for an entry. The cost is a pure
/// function of the key and the value.
pub trait Weigher<V> {
    /// The mathematical weight of an entry.
    spec fn spec_weigh(key: Seq<u8>, value: V) -> nat;

    /// Computes the weight of an entry, agreeing with `spec_weigh`.
    fn weigh(key: &Vec<u8>, value: &V) -> (w: usize)
        ensures
            w == Self::spec_weigh(key@, *value),
    ;
}

/// Charges a constant weight of one for every entry, making the budget a
/// plain entry count.
#[derive(Debug, Clone)]
pub struct One;

impl<V> Weigher<V> for One {
    open spec fn spec_weigh(key: Seq<u8>, value: V) -> nat {
        1
    }

    fn weigh(_key: &Vec<u8>, _value: &V) -> (w: usize) {
        1
    }
}

/// Observes entries at the moment they are truly evicted. The callback
/// receives ownership of the evicted key and value; it never fires for a
/// caller-driven removal or for stale-record cleanup.
pub trait Lifecycle<V> {
    fn on_eviction(&self, key: Vec<u8>, value: V);
}

/// Ignores every eviction.
#[derive(Debug, Clone, Copy, Default)]
pub struct DefaultLifecycle;

impl<V> Lifecycle<V> for DefaultLifecycle {
    fn on_eviction(&self, _key: Vec<u8>, _value: V) {
    }
}

/// One externally synchronized cache segment.
///
/// The lookup table is kept as three columns (`keys`, `values`, `flags`) that
/// always have the same length; `sieve_pool` holds one eviction record per
/// tracked key (plus possibly stale records for removed keys), and
/// `sieve_hand` is the sweep cursor into it.
pub struct Cache<V, W, L> {
    keys: Vec<Vec<u8>>,
    values: Vec<V>,
    flags: Vec<bool>,
    sieve_pool: Vec<Vec<u8>>,
    sieve_hand: usize,
    max_weight: usize,
    weight: usize,
    lifecycle: L,
    evicted: Ghost<Seq<(Seq<u8>, V)>>,
    weigher: PhantomData<W>,
}

impl<V, W: Weigher<V>, L: Lifecycle<V>> Cache<V, W, L> {
    /// The live entries of the lookup table, in table order.
    pub closed spec fn entry_seq(self) -> Seq<(Seq<u8>, V)> {
        Seq::new(self.keys@.len(), |i: int| (self.keys@[i]@, self.values@[i]))
    }

    /// The live entries as a map from key to value.
    pub open spec fn entries(self) -> Map<Seq<u8>, V> {
        pairs_map(self.entry_seq())
    }

    /// What a lookup of `key` observes.
    pub open spec fn lookup(self, key: Seq<u8>) -> Option<V> {
        if self.entries().dom().contains(key) {
            Some(self.entries()[key])
        } else {
            None
        }
    }

    /// The keys of the eviction records, in queue order.
    pub closed spec fn queue(self) -> Seq<Seq<u8>> {
        self.sieve_pool@.map_values(|k: Vec<u8>| k@)
    }

    /// The sweep hand.
    pub closed spec fn hand(self) -> int {
        self.sieve_hand as int
    }

    /// The configured weight budget.
    pub closed spec fn capacity(self) -> int {
        self.max_weight as int
    }

    /// The tracked weight.
    pub closed spec fn load(self) -> int {
        self.weight as int
    }

    /// Every (key, value) pair handed to the lifecycle so far, oldest first.
    pub closed spec fn log(self) -> Seq<(Seq<u8>, V)> {
        self.evicted@
    }

    /// Whether the live entry for `key` is marked visited.
    pub closed spec fn visited(self, key: Seq<u8>) -> bool {
        exists|i: int|
            0 <= i < self.keys@.len() && self.keys@[i]@ == key && self.flags@[i]
    }

    /// The three table columns have the same length.
    pub closed spec fn cols_wf(self) -> bool {
        self.values@.len() == self.keys@.len() && self.flags@.len() == self.keys@.len()
    }

    /// The lookup table invariant: columns in step, no duplicate keys, and
    /// the tracked weight equal to the summed entry weights and within the
    /// budget. Weight accuracy and the capacity bound live here.
    pub open spec fn table_wf(self) -> bool {
        &&& self.cols_wf()
        &&& distinct_keys(self.entry_seq())
        &&& self.load() == entries_weight::<V, W>(self.entry_seq())
        &&& self.load() <= self.capacity()
    }

    /// Every live key has an eviction record in the queue. (A record may
    /// outlive its entry; the converse containment does not hold.)
    pub open spec fn queue_wf(self) -> bool {
        forall|i: int|
            0 <= i < self.entry_seq().len() ==> self.queue().contains(
                #[trigger] self.entry_seq()[i].0,
            )
    }

    /// The hand indexes into the queue, or rests at zero when the queue is
    /// empty.
    pub open spec fn hand_wf(self) -> bool {
        if self.queue().len() == 0 {
            self.hand() == 0
        } else {
            0 <= self.hand() < self.queue().len()
        }
    }

    /// The segment invariant, established by the constructors and preserved
    /// by every operation.
    pub open spec fn wf(self) -> bool {
        self.table_wf() && self.queue_wf() && self.hand_wf()
    }
}

impl<V, W: Weigher<V>, L: Lifecycle<V> + Default> Cache<V, W, L> {
    /// Creates an empty segment with the given weight budget and the default
    /// lifecycle.
    pub fn new(max_weight: usize) -> (cache: Self)
        ensures
            cache.wf(),
            cache.entries() == Map::<Seq<u8>, V>::empty(),
            cache.queue() == Seq::<Seq<u8>>::empty(),
            cache.capacity() == max_weight,
            cache.load() == 0,
            cache.log() == Seq::<(Seq<u8>, V)>::empty(),
    {
        Self::new_with_lifecycle(max_weight, Default::default())
    }
}

impl<V, W: Weigher<V>, L: Lifecycle<V>> Cache<V, W, L> {
    /// Creates an empty segment with the given weight budget and lifecycle.
    pub fn new_with_lifecycle(max_weight: usize, lifecycle: L) -> (cache: Self)
        ensures
            cache.wf(),
            cache.entries() == Map::<Seq<u8>, V>::empty(),
            cache.queue() == Seq::<Seq<u8>>::empty(),
            cache.capacity() == max_weight,
            cache.load() == 0,
            cache.log() == Seq::<(Seq<u8>, V)>::empty(),
    {
        let cache = Self {
            keys: Vec::new(),
            values: Vec::new(),
            flags: Vec::new(),
            sieve_pool: Vec::new(),
            sieve_hand: 0,
            max_weight,
            weight: 0,
            lifecycle,
            evicted: Ghost(Seq::empty()),
            weigher: PhantomData,
        };
        proof {
            assert(cache.entry_seq() =~= Seq::<(Seq<u8>, V)>::empty());
            assert(cache.queue() =~= Seq::<Seq<u8>>::empty());
            assert(cache.entries() =~= Map::<Seq<u8>, V>::empty());
        }
        cache
    }

    /// The tracked weight of the segment.
    pub fn tracked_weight(&self) -> (w: usize)
        ensures
            w == self.load(),
    {
        self.weight
    }

    /// How many entries are live.
    pub fn len(&self) -> (n: usize)
        ensures
            self.table_wf() ==> n == self.entries().len(),
    {
        proof {
            if self.table_wf() {
                lemma_pairs_map_len(self.entry_seq());
            }
        }
        self.keys.len()
    }

    /// How many eviction records the sieve queue holds, stale ones included.
    pub fn sieve_len(&self) -> (n: usize)
        ensures
            n == self.queue().len(),
    {
        self.sieve_pool.len()
    }

    /// Reads the value bound to `key`, marking the entry visited on a hit.
    /// A miss has no effect. The entry keeps its place in the sieve queue:
    /// SIEVE never reorders on access, only the visited bit changes.
    pub fn get(&mut self, key: &Vec<u8>) -> (r: Option<&V>)
        requires
            old(self).wf(),
        ensures
            final(self).wf(),
            final(self).entries() == old(self).entries(),
            final(self).queue() == old(self).queue(),
            final(self).hand() == old(self).hand(),
            final(self).load() == old(self).load(),
            final(self).capacity() == old(self).capacity(),
            final(self).log() == old(self).log(),
            match r {
                Some(v) => old(self).entries().dom().contains(key@) && *v == old(
                    self,
                ).entries()[key@],
                None => !old(self).entries().dom().contains(key@),
            },
            old(self).entries().dom().contains(key@) ==> final(self).visited(key@),
            forall|k: Seq<u8>| k != key@ ==> final(self).visited(k) == old(self).visited(k),
    {
        proof {
            lemma_pairs_map_characterization(self.entry_seq());
        }
        match self.find_key(key) {
            Some(i) => {
                self.flags[i] = true;
                proof {
                    assert(self.entry_seq() =~= old(self).entry_seq());
                    assert(self.queue() =~= old(self).queue());
                    assert(old(self).entry_seq()[i as int].0 == key@);
                    assert forall|k: Seq<u8>| k != key@ implies self.visited(k) == old(
                        self,
                    ).visited(k) by {
                        assert(forall|j: int|
                            0 <= j < self.keys@.len() && j != i ==> self.flags@[j] == old(
                                self,
                            ).flags@[j]);
                    }
                }
                Some(&self.values[i])
            },
            None => {
                proof {
                    assert(self.queue() =~= old(self).queue());
                }
                None
            },
        }
    }

    /// Marks `key` visited if it is live, reporting whether it was: the
    /// write half of a read. The sharded cache touches through a mutable
    /// borrow first and then reads through a shared one.
    pub(crate) fn touch(&mut self, key: &Vec<u8>) -> (hit: bool)
        requires
            old(self).wf(),
        ensures
            final(self).wf(),
            final(self).entries() == old(self).entries(),
            final(self).queue() == old(self).queue(),
            final(self).hand() == old(self).hand(),
            final(self).load() == old(self).load(),
            final(self).capacity() == old(self).capacity(),
            final(self).log() == old(self).log(),
            hit == old(self).entries().dom().contains(key@),
            hit ==> final(self).visited(key@),
            forall|k: Seq<u8>| k != key@ ==> final(self).visited(k) == old(self).visited(k),
    {
        proof {
            lemma_pairs_map_characterization(self.entry_seq());
        }
        match self.find_key(key) {
            Some(i) => {
                self.flags[i] = true;
                proof {
                    assert(self.entry_seq() =~= old(self).entry_seq());
                    assert(self.queue() =~= old(self).queue());
                    assert(old(self).entry_seq()[i as int].0 == key@);
                    assert forall|k: Seq<u8>| k != key@ implies self.visited(k) == old(
                        self,
                    ).visited(k) by {
                        assert(forall|j: int|
                            0 <= j < self.keys@.len() && j != i ==> self.flags@[j] == old(
                                self,
                            ).flags@[j]);
                    }
                }
                true
            },
            None => {
                proof {
                    assert(self.queue() =~= old(self).queue());
                }
                false
            },
        }
    }

    /// Reads the value bound to `key` without touching the visited bit.
    pub(crate) fn peek(&self, key: &Vec<u8>) -> (r: Option<&V>)
        requires
            self.table_wf(),
        ensures
            match r {
                Some(v) => self.entries().dom().contains(key@) && *v == self.entries()[key@],
                None => !self.entries().dom().contains(key@),
            },
    {
        proof {
            lemma_pairs_map_characterization(self.entry_seq());
        }
        match self.find_key(key) {
            Some(i) => {
                proof {
                    assert(self.entry_seq()[i as int] == (key@, self.values@[i as int]));
                }
                Some(&self.values[i])
            },
            None => None,
        }
    }

    /// Everything `remove` guarantees. On a hit the binding disappears and
    /// its weight is released; on a miss nothing changes at all. Either way
    /// the sieve queue is left alone — a record for a removed key goes stale
    /// and is discarded by a later sweep — and no lifecycle callback fires.
    pub open spec fn remove_post(pre: Self, post: Self, key: Seq<u8>, removed: Option<V>) -> bool {
        &&& post.capacity() == pre.capacity()
        &&& post.queue() == pre.queue()
        &&& post.hand() == pre.hand()
        &&& post.log() == pre.log()
        &&& match removed {
            Some(v) => {
                &&& pre.entries().dom().contains(key)
                &&& v == pre.entries()[key]
                &&& post.entries() == pre.entries().remove(key)
                &&& post.load() == pre.load() - W::spec_weigh(key, v)
            },
            None => {
                &&& !pre.entries().dom().contains(key)
                &&& post == pre
            },
        }
    }

    /// Deletes `key` from the lookup table, returning the removed value on a
    /// hit and nothing on a miss; a miss is an ordinary outcome, not an
    /// error. The matching eviction record is not unlinked eagerly.
    pub fn remove(&mut self, key: &Vec<u8>) -> (removed: Option<V>)
        requires
            old(self).table_wf(),
        ensures
            final(self).table_wf(),
            Self::remove_post(*old(self), *final(self), key@, removed),
            old(self).wf() ==> final(self).wf(),
    {
        proof {
            lemma_pairs_map_characterization(self.entry_seq());
        }
        match self.find_key(key) {
            Some(i) => {
                let ghost pre_seq = self.entry_seq();
                let k = self.keys.swap_remove(i);
                let v = self.values.swap_remove(i);
                self.flags.swap_remove(i);
                proof {
                    assert(self.entry_seq() =~= pre_seq.update(i as int, pre_seq.last()).drop_last());
                    crate::model::lemma_pairs_map_swap_remove(pre_seq, i as int);
                    lemma_entries_weight_swap_remove::<V, W>(pre_seq, i as int);
                    lemma_entries_weight_element_bound::<V, W>(pre_seq, i as int);
                }
                let w = W::weigh(&k, &v);
                match self.weight.checked_sub(w) {
                    Some(new_weight) => {
                        self.weight = new_weight;
                    },
                    None => {
                        // Unreachable while the weight stays accurate; clamp
                        // defensively rather than corrupt the budget.
                        self.weight = 0;
                    },
                }
                proof {
                    if old(self).wf() {
                        assert forall|j: int| 0 <= j < self.entry_seq().len() implies self.queue(
                        ).contains(#[trigger] self.entry_seq()[j].0) by {
                            assert(self.entry_seq()[j] == (if j == i as int {
                                pre_seq[pre_seq.len() - 1]
                            } else {
                                pre_seq[j]
                            }));
                        }
                    }
                }
                Some(v)
            },
            None => {
                None
            },
        }
    }

    /// Everything `put` guarantees, relating the segment before the call to
    /// the segment after it: the put key is bound to the put value, no other
    /// binding appears or changes, the invariant (weight accuracy and the
    /// capacity bound included) holds again, and the eviction log grows by
    /// exactly the pairs that were truly evicted to make room — each of them
    /// live beforehand, gone afterwards (unless the put key itself was
    /// evicted on the way to being re-inserted), and no key twice. A
    /// candidate that already fits evicts nothing at all.
    pub open spec fn put_post(pre: Self, post: Self, key: Seq<u8>, value: V) -> bool {
        &&& post.wf()
        &&& post.capacity() == pre.capacity()
        &&& post.lookup(key) == Some(value)
        &&& post.visited(key)
        &&& forall|k: Seq<u8>|
            k != key && #[trigger] post.entries().dom().contains(k) ==> pre.entries().dom().contains(
                k,
            ) && post.entries()[k] == pre.entries()[k]
        &&& pre.load() + W::spec_weigh(key, value) <= pre.capacity() ==> post.log()
            == pre.log() && post.entries() == pre.entries().insert(key, value)
        &&& pre.log().is_prefix_of(post.log())
        &&& forall|n: int|
            pre.log().len() <= n < post.log().len() ==> {
                &&& pre.entries().contains_pair(
                    (#[trigger] post.log()[n]).0,
                    post.log()[n].1,
                )
                &&& post.log()[n].0 != key ==> !post.entries().dom().contains(post.log()[n].0)
            }
        &&& forall|m: int, n: int|
            pre.log().len() <= m < n < post.log().len() ==> (#[trigger] post.log()[m]).0 != (
            #[trigger] post.log()[n]).0
        &&& forall|k: Seq<u8>|
            #[trigger] pre.entries().dom().contains(k) && !post.entries().dom().contains(k)
                ==> exists|n: int|
                pre.log().len() <= n < post.log().len() && (#[trigger] post.log()[n]).0 == k
    }

    /// Binds `key` to `value`, first evicting until the candidate fits under
    /// the weight budget. An existing binding is replaced in place and
    /// re-marked visited; a new key is appended to the tail of the sieve
    /// queue with its visited bit set.
    pub fn put(&mut self, key: Vec<u8>, value: V)
        requires
            old(self).wf(),
            W::spec_weigh(key@, value) <= old(self).capacity(),
        ensures
            Self::put_post(*old(self), *final(self), key@, value),
    {
        let entry_weight = self.make_room_for(&key, &value);
        let ghost mid = *self;
        self.weight = self.weight + entry_weight;
        proof {
            lemma_pairs_map_characterization(mid.entry_seq());
        }
        match self.find_key(&key) {
            Some(i) => {
                let replaced_weight = W::weigh(&key, &self.values[i]);
                proof {
                    assert(mid.entry_seq()[i as int] == (key@, mid.values@[i as int]));
                    lemma_entries_weight_element_bound::<V, W>(mid.entry_seq(), i as int);
                }
                self.weight = self.weight - replaced_weight;
                self.values[i] = value;
                self.flags[i] = true;
                proof {
                    assert(self.entry_seq() =~= mid.entry_seq().update(
                        i as int,
                        (key@, value),
                    ));
                    crate::model::lemma_pairs_map_update_value(mid.entry_seq(), i as int, value);
                    lemma_entries_weight_update::<V, W>(
                        mid.entry_seq(),
                        i as int,
                        (key@, value),
                    );
                    assert(self.queue() =~= mid.queue());
                    assert forall|j: int| 0 <= j < self.entry_seq().len() implies self.queue(
                    ).contains(#[trigger] self.entry_seq()[j].0) by {
                        assert(self.entry_seq()[j].0 == mid.entry_seq()[j].0);
                    }
                    assert(self.visited(key@)) by {
                        assert(self.keys@[i as int]@ == key@ && self.flags@[i as int]);
                    }
                    lemma_pairs_map_characterization(self.entry_seq());
                    assert(self.entries() == mid.entries().insert(key@, value));
                    assert(self.load() == entries_weight::<V, W>(self.entry_seq()));
                }
            },
            None => {
                let table_key = key.clone();
                proof {
                    assert forall|q: int| 0 <= q < key@.len() implies table_key@[q] == key@[q]
                    by {
                        assert(cloned::<u8>(key@[q], table_key@[q]));
                    }
                    assert(table_key@ =~= key@);
                }
                self.keys.push(table_key);
                self.values.push(value);
                self.flags.push(true);
                self.sieve_pool.push(key);
                proof {
                    let ghost n = mid.entry_seq().len();
                    assert(self.keys@[n as int]@ == key@);
                    assert(self.entry_seq() =~= mid.entry_seq().push((key@, value)));
                    crate::model::lemma_pairs_map_push(mid.entry_seq(), (key@, value));
                    assert(self.queue() =~= mid.queue().push(key@));
                    assert forall|j: int| 0 <= j < self.entry_seq().len() implies self.queue(
                    ).contains(#[trigger] self.entry_seq()[j].0) by {
                        if j < n {
                            assert(self.entry_seq()[j].0 == mid.entry_seq()[j].0);
                            let p = choose|p: int|
                                0 <= p < mid.queue().len() && mid.queue()[p] == mid.entry_seq()[j].0;
                            assert(self.queue()[p] == mid.entry_seq()[j].0);
                        } else {
                            assert(self.queue()[self.queue().len() - 1] == key@);
                        }
                    }
                    assert(self.visited(key@)) by {
                        assert(self.keys@[n as int]@ == key@ && self.flags@[n as int]);
                    }
                    lemma_pairs_map_characterization(self.entry_seq());
                    assert(self.entries() == mid.entries().insert(key@, value));
                    assert(self.entry_seq().drop_last() =~= mid.entry_seq());
                    assert(self.load() == entries_weight::<V, W>(self.entry_seq()));
                }
            },
        }
        proof {
            assert(self.log() == mid.log());
            assert forall|k: Seq<u8>|
                k != key@ && #[trigger] self.entries().dom().contains(k) implies old(
                self,
            ).entries().dom().contains(k) && self.entries()[k] == old(self).entries()[k] by {
                assert(mid.entries().dom().contains(k));
                assert(self.entries()[k] == mid.entries()[k]);
            }
            assert forall|n: int|
                old(self).log().len() <= n < self.log().len() && (#[trigger] self.log()[n]).0
                    != key@ implies !self.entries().dom().contains(self.log()[n].0) by {
                assert(!mid.entries().dom().contains(self.log()[n].0));
            }
            assert forall|k: Seq<u8>|
                #[trigger] old(self).entries().dom().contains(k) && !self.entries().dom().contains(
                    k,
                ) implies exists|n: int|
                old(self).log().len() <= n < self.log().len() && (#[trigger] self.log()[n]).0
                    == k by {
                assert(k != key@);
                assert(!mid.entries().dom().contains(k));
            }
        }
    }

    /// Runs the room-making sweep until the candidate entry fits beside the
    /// current load. A visited record is demoted and spared; an unvisited
    /// one is evicted, its entry handed to the lifecycle; a stale record is
    /// discarded without a callback. Returns the candidate's weight.
    fn make_room_for(&mut self, key: &Vec<u8>, value: &V) -> (entry_weight: usize)
        requires
            old(self).wf(),
            W::spec_weigh(key@, *value) <= old(self).capacity(),
        ensures
            final(self).wf(),
            final(self).capacity() == old(self).capacity(),
            entry_weight == W::spec_weigh(key@, *value),
            final(self).load() + entry_weight <= final(self).capacity(),
            old(self).load() + entry_weight <= old(self).capacity() ==> *final(self) == *old(
                self,
            ),
            forall|k: Seq<u8>| #[trigger]
                final(self).entries().dom().contains(k) ==> old(self).entries().dom().contains(k)
                    && final(self).entries()[k] == old(self).entries()[k],
            old(self).log().is_prefix_of(final(self).log()),
            forall|n: int|
                old(self).log().len() <= n < final(self).log().len() ==> {
                    &&& old(self).entries().contains_pair(
                        (#[trigger] final(self).log()[n]).0,
                        final(self).log()[n].1,
                    )
                    &&& !final(self).entries().dom().contains(final(self).log()[n].0)
                },
            forall|m: int, n: int|
                old(self).log().len() <= m < n < final(self).log().len() ==> (
                #[trigger] final(self).log()[m]).0 != (#[trigger] final(self).log()[n]).0,
            forall|k: Seq<u8>| #[trigger]
                old(self).entries().dom().contains(k) && !final(self).entries().dom().contains(k)
                    ==> exists|n: int|
                    old(self).log().len() <= n < final(self).log().len() && (
                    #[trigger] final(self).log()[n]).0 == k,
    {
        let ghost pre = *old(self);
        let entry_weight = W::weigh(key, value);
        while entry_weight > self.max_weight - self.weight
            invariant
                self.wf(),
                self.max_weight == pre.max_weight,
                entry_weight == W::spec_weigh(key@, *value),
                entry_weight <= self.max_weight,
                pre.load() + entry_weight <= pre.capacity() ==> *self == pre,
                forall|k: Seq<u8>| #[trigger]
                    self.entries().dom().contains(k) ==> pre.entries().dom().contains(k)
                        && self.entries()[k] == pre.entries()[k],
                pre.log().is_prefix_of(self.log()),
                forall|n: int|
                    pre.log().len() <= n < self.log().len() ==> {
                        &&& pre.entries().contains_pair(
                            (#[trigger] self.log()[n]).0,
                            self.log()[n].1,
                        )
                        &&& !self.entries().dom().contains(self.log()[n].0)
                    },
                forall|m: int, n: int|
                    pre.log().len() <= m < n < self.log().len() ==> (#[trigger] self.log()[m]).0
                        != (#[trigger] self.log()[n]).0,
                forall|k: Seq<u8>| #[trigger]
                    pre.entries().dom().contains(k) && !self.entries().dom().contains(k)
                        ==> exists|n: int|
                        pre.log().len() <= n < self.log().len() && (#[trigger] self.log()[n]).0
                            == k,
            decreases self.sieve_pool@.len(), count_set(self.flags@),
        {
            proof {
                lemma_pairs_map_characterization(self.entry_seq());
                lemma_pairs_map_len(self.entry_seq());
                assert(self.queue().len() > 0) by {
                    if self.entry_seq().len() == 0 {
                        assert(self.entry_seq() =~= Seq::<(Seq<u8>, V)>::empty());
                        assert(self.load() == 0);
                    } else {
                        assert(self.queue().contains(self.entry_seq()[0].0));
                    }
                }
            }
            let ghost loop_start = *self;
            let hand = self.sieve_hand;
            let idx_opt = self.find_key(&self.sieve_pool[hand]);
            let mut demoted = false;
            if let Some(i) = idx_opt {
                if self.flags[i] {
                    // The record is visited: demote it and advance the hand,
                    // sparing the entry this pass.
                    self.flags[i] = false;
                    let pool_len = self.sieve_pool.len();
                    proof {
                        assert(hand < pool_len);
                    }
                    self.sieve_hand = (hand + 1) % pool_len;
                    demoted = true;
                    proof {
                        assert(self.flags@ =~= loop_start.flags@.update(i as int, false));
                        assert(self.entry_seq() =~= loop_start.entry_seq());
                        assert(self.queue() =~= loop_start.queue());
                        lemma_count_set_clear(loop_start.flags@, i as int);
                    }
                }
            }
            if !demoted {
                // The record is unvisited or stale: unlink it in one swap
                // and try to evict the entry it names.
                let ghost queue0 = self.queue();
                let record_key = self.sieve_pool.swap_remove(hand);
                proof {
                    assert(self.queue() =~= queue0.update(hand as int, queue0.last()).drop_last());
                }
                let ghost mid = *self;
                let removed = self.remove(&record_key);
                proof {
                    assert(mid.entry_seq() =~= loop_start.entry_seq());
                    assert(queue0 == loop_start.queue());
                    assert(queue0[hand as int] == record_key@);
                    assert forall|j: int| 0 <= j < self.entry_seq().len() implies self.queue(
                    ).contains(#[trigger] self.entry_seq()[j].0) by {
                        let k2 = self.entry_seq()[j].0;
                        lemma_pairs_map_characterization(self.entry_seq());
                        assert(self.entries().dom().contains(k2));
                        assert(k2 != record_key@);
                        assert(loop_start.entries().dom().contains(k2));
                        lemma_pairs_map_characterization(loop_start.entry_seq());
                        let jj = choose|jj: int|
                            0 <= jj < loop_start.entry_seq().len() && loop_start.entry_seq()[jj].0
                                == k2;
                        assert(loop_start.queue().contains(loop_start.entry_seq()[jj].0));
                        let p = choose|p: int| 0 <= p < queue0.len() && queue0[p] == k2;
                        assert(p != hand as int);
                        if p == queue0.len() - 1 {
                            assert(self.queue()[hand as int] == k2);
                        } else {
                            assert(self.queue()[p] == queue0[p]);
                        }
                    }
                }
                match removed {
                    Some(evicted_value) => {
                        proof {
                            assert(mid.entries() == loop_start.entries());
                            assert(loop_start.entries().dom().contains(record_key@));
                            assert(evicted_value == loop_start.entries()[record_key@]);
                            assert(pre.entries().dom().contains(record_key@));
                            assert(pre.entries()[record_key@] == loop_start.entries()[
                                record_key@]);
                        }
                        let ghost evicted_pair = (record_key@, evicted_value);
                        self.evicted = Ghost(self.evicted@.push(evicted_pair));
                        self.lifecycle.on_eviction(record_key, evicted_value);
                        proof {
                            assert(self.log() =~= mid.log().push(evicted_pair));
                            assert(self.log().len() == loop_start.log().len() + 1);
                            assert(self.log().last() == evicted_pair);
                            assert(pre.entries().contains_pair(evicted_pair.0, evicted_pair.1));
                            assert(self.entries() == loop_start.entries().remove(record_key@));
                        }
                    },
                    None => {
                        proof {
                            assert(self.log() == loop_start.log());
                            assert(self.entries() == loop_start.entries());
                        }
                    },
                }
                if self.sieve_hand == self.sieve_pool.len() {
                    self.sieve_hand = 0;
                }
            }
            proof {
                assert forall|k: Seq<u8>|
                    #[trigger] self.entries().dom().contains(k) implies pre.entries(
                ).dom().contains(k) && self.entries()[k] == pre.entries()[k] by {
                    assert(loop_start.entries().dom().contains(k));
                    assert(self.entries()[k] == loop_start.entries()[k]);
                }
                assert forall|k: Seq<u8>|
                    #[trigger] pre.entries().dom().contains(k) && !self.entries(
                ).dom().contains(k) implies exists|n: int|
                    pre.log().len() <= n < self.log().len() && (#[trigger] self.log()[n]).0
                        == k by {
                    if loop_start.entries().dom().contains(k) {
                        // the binding disappeared in this very iteration, so
                        // the newest log entry names it
                        let n = self.log().len() - 1;
                        assert(pre.log().len() <= n && self.log()[n].0 == k);
                    } else {
                        let n = choose|n: int|
                            pre.log().len() <= n < loop_start.log().len() && (
                            #[trigger] loop_start.log()[n]).0 == k;
                        assert(self.log()[n] == loop_start.log()[n]);
                    }
                }
            }
        }
        entry_weight
    }

    /// Finds the table index of `key`, if the key is live.
    fn find_key(&self, key: &Vec<u8>) -> (r: Option<usize>)
        ensures
            match r {
                Some(i) => i < self.keys@.len() && self.keys@[i as int]@ == key@,
                None => forall|i: int| 0 <= i < self.keys@.len() ==> self.keys@[i]@ != key@,
            },
    {
        let n = self.keys.len();
        let mut i: usize = 0;
        while i < n
            invariant
                n == self.keys@.len(),
                i <= n,
                forall|j: int| 0 <= j < i ==> self.keys@[j]@ != key@,
            decreases n - i,
        {
            if self.keys[i] == *key {
                return Some(i);
            }
            i = i + 1;
        }
        None
    }
}


/// Law (capacity invariant): after any put returns, the tracked weight of
/// the segment is within its budget.
pub proof fn lemma_capacity_invariant<V, W: Weigher<V>, L: Lifecycle<V>>(
    pre: Cache<V, W, L>,
    post: Cache<V, W, L>,
    key: Seq<u8>,
    value: V,
)
    requires
        Cache::put_post(pre, post, key, value),
    ensures
        post.load() <= post.capacity(),
{
}

/// Law (weight accuracy): in every reachable segment state the tracked
/// weight equals the summed weigher cost of the live entries.
pub proof fn lemma_weight_accuracy<V, W: Weigher<V>, L: Lifecycle<V>>(cache: Cache<V, W, L>)
    requires
        cache.wf(),
    ensures
        cache.load() == entries_weight::<V, W>(cache.entry_seq()),
        pairs_map(cache.entry_seq()) == cache.entries(),
{
}

/// Law (get/put coherence): a put followed immediately by a get of the same
/// key, with nothing in between, observes exactly the value that was put.
pub proof fn lemma_put_get_coherence<V, W: Weigher<V>, L: Lifecycle<V>>(
    pre: Cache<V, W, L>,
    post: Cache<V, W, L>,
    key: Seq<u8>,
    value: V,
)
    requires
        Cache::put_post(pre, post, key, value),
    ensures
        post.lookup(key) == Some(value),
{
}

/// Law (miss after removal): once a key is removed it misses until it is
/// put again.
pub proof fn lemma_removed_key_misses<V, W: Weigher<V>, L: Lifecycle<V>>(
    pre: Cache<V, W, L>,
    post: Cache<V, W, L>,
    key: Seq<u8>,
    removed: Option<V>,
)
    requires
        Cache::remove_post(pre, post, key, removed),
    ensures
        post.lookup(key) == None::<V>,
{
}

/// Law (miss after eviction): a key that a put evicted — other than the put
/// key itself — misses afterwards.
pub proof fn lemma_evicted_key_misses<V, W: Weigher<V>, L: Lifecycle<V>>(
    pre: Cache<V, W, L>,
    post: Cache<V, W, L>,
    key: Seq<u8>,
    value: V,
    n: int,
)
    requires
        Cache::put_post(pre, post, key, value),
        pre.log().len() <= n < post.log().len(),
        post.log()[n].0 != key,
    ensures
        post.lookup(post.log()[n].0) == None::<V>,
{
}

/// Law (lifecycle firing): the pairs a put appends to the eviction log are
/// exactly the bindings the put made disappear — each was live beforehand
/// with that very value, each key occurs at most once, and none of them
/// (except a re-inserted put key) is retrievable afterwards.
pub proof fn lemma_lifecycle_matches_evictions<V, W: Weigher<V>, L: Lifecycle<V>>(
    pre: Cache<V, W, L>,
    post: Cache<V, W, L>,
    key: Seq<u8>,
    value: V,
)
    requires
        Cache::put_post(pre, post, key, value),
    ensures
        forall|n: int|
            pre.log().len() <= n < post.log().len() ==> pre.entries().contains_pair(
                (#[trigger] post.log()[n]).0,
                post.log()[n].1,
            ),
        forall|m: int, n: int|
            pre.log().len() <= m < n < post.log().len() ==> (#[trigger] post.log()[m]).0 != (
            #[trigger] post.log()[n]).0,
        forall|k: Seq<u8>|
            #[trigger] pre.entries().dom().contains(k) && !post.entries().dom().contains(k)
                ==> exists|n: int|
                pre.log().len() <= n < post.log().len() && (#[trigger] post.log()[n]).0 == k,
{
}

/// Law (no needless eviction): a put whose candidate entry already fits
/// beside the current load evicts nothing — the lifecycle log is untouched
/// and the entries change only by the new binding.
pub proof fn lemma_no_eviction_when_room<V, W: Weigher<V>, L: Lifecycle<V>>(
    pre: Cache<V, W, L>,
    post: Cache<V, W, L>,
    key: Seq<u8>,
    value: V,
)
    requires
        Cache::put_post(pre, post, key, value),
        pre.load() + W::spec_weigh(key, value) <= pre.capacity(),
    ensures
        post.log() == pre.log(),
        post.entries() == pre.entries().insert(key, value),
{
}

/// Law (stale-record cleanup is silent): a put never logs an eviction for a
/// key that was already absent when the put began — in particular not for a
/// key removed earlier, whose stale sieve record a sweep may discard — and
/// such a key stays absent. Chaining this over any run of puts shows that no
/// number of sweeps ever fires the lifecycle for a removed key.
pub proof fn lemma_stale_cleanup_fires_no_callback<V, W: Weigher<V>, L: Lifecycle<V>>(
    pre: Cache<V, W, L>,
    post: Cache<V, W, L>,
    absent: Seq<u8>,
    key: Seq<u8>,
    value: V,
)
    requires
        Cache::put_post(pre, post, key, value),
        !pre.entries().dom().contains(absent),
        absent != key,
    ensures
        forall|n: int|
            pre.log().len() <= n < post.log().len() ==> (#[trigger] post.log()[n]).0 != absent,
        !post.entries().dom().contains(absent),
{
    assert forall|n: int|
        pre.log().len() <= n < post.log().len() implies (#[trigger] post.log()[n]).0
        != absent by {
        assert(pre.entries().contains_pair(post.log()[n].0, post.log()[n].1));
    }
    if post.entries().dom().contains(absent) {
        assert(pre.entries().dom().contains(absent));
    }
}

} // verus!
