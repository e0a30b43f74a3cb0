//! The store behind the wire layer: a sharded cache of memstore items, and
//! the two request kinds the protocol maps onto it.

use vstd::prelude::*;

verus! {

use crate::cache::Weigher;
use crate::messages;
use crate::segmented::SegmentedCache;
use crate::types::clamp_usize;
use crate::types::decode;
use crate::types::model_size;
use crate::types::wire_malformed;
use crate::types::MemstoreItem;
use crate::types::MemstoreValue;
use crate::types::MemstoreWeigher;

/// The in-process store: a sharded cache keyed by raw bytes, holding
/// [`MemstoreItem`] payloads priced by [`MemstoreWeigher`].
pub struct RMemstoreServer {
    cache: SegmentedCache<MemstoreItem, MemstoreWeigher>,
}

impl RMemstoreServer {
    /// The underlying sharded cache.
    pub closed spec fn store(self) -> SegmentedCache<MemstoreItem, MemstoreWeigher> {
        self.cache
    }

    /// The store's invariant: that of its sharded cache.
    pub open spec fn wf(self) -> bool {
        self.store().wf()
    }

    /// The weight budget of each segment.
    pub open spec fn capacity(self) -> int {
        self.store().segment_capacity()
    }

    /// What a get of `key` observes: the binding in the one segment the key
    /// routes to.
    pub open spec fn lookup(self, key: Seq<u8>) -> Option<MemstoreItem> {
        self.store().segment(self.store().shard_of(key)).lookup(key)
    }

    /// Creates an empty store with `segments` segments sharing `cache_bytes`
    /// of weight budget. A zero segment count is a programming error and is
    /// excluded outright.
    pub fn new(segments: usize, cache_bytes: usize) -> (server: Self)
        requires
            segments > 0,
        ensures
            server.wf(),
            server.store().seg_count() == segments,
            server.capacity() == cache_bytes as int / segments as int,
            forall|k: Seq<u8>| #[trigger] server.lookup(k) == None::<MemstoreItem>,
    {
        let server = Self { cache: SegmentedCache::new(segments, cache_bytes) };
        proof {
            assert forall|k: Seq<u8>| #[trigger]
                server.lookup(k) == None::<MemstoreItem> by {
                let s = server.store().shard_of(k);
                assert(0 <= s < server.store().seg_count());
                assert(server.store().segment(s).entries() == Map::<Seq<u8>, MemstoreItem>::empty());
            }
        }
        server
    }

    /// Binds `key` to `value` in the segment the key routes to.
    pub fn put(&mut self, key: Vec<u8>, value: MemstoreItem)
        requires
            old(self).wf(),
            MemstoreWeigher::spec_weigh(key@, value) <= old(self).capacity(),
        ensures
            SegmentedCache::put_post(old(self).store(), final(self).store(), key@, value),
    {
        self.cache.put(key, value)
    }

    /// Reads the value bound to `key`, returning an owned copy of the item
    /// so that nothing aliases the store's own state. The hit marks the
    /// entry visited; no binding changes.
    pub fn get(&mut self, key: &Vec<u8>) -> (r: Option<MemstoreItem>)
        requires
            old(self).wf(),
        ensures
            final(self).wf(),
            final(self).store().seg_count() == old(self).store().seg_count(),
            final(self).capacity() == old(self).capacity(),
            forall|k: Seq<u8>| #[trigger] final(self).lookup(k) == old(self).lookup(k),
            match r {
                Some(item) => old(self).lookup(key@) matches Some(stored) && item@ == stored@,
                None => old(self).lookup(key@) == None::<MemstoreItem>,
            },
    {
        let found = self.cache.get(key);
        let result = match found {
            Some(item) => Some(item.clone()),
            None => None,
        };
        proof {
            let s = old(self).store().shard_of(key@);
            assert forall|k: Seq<u8>| #[trigger]
                final(self).lookup(k) == old(self).lookup(k) by {
                let sk = old(self).store().shard_of(k);
                assert(0 <= sk < old(self).store().seg_count());
                if sk != s {
                    assert(final(self).store().segment(sk) == old(self).store().segment(sk));
                } else {
                    assert(final(self).store().segment(sk).entries() == old(self).store().segment(
                        sk,
                    ).entries());
                }
            }
        }
        result
    }
}

impl messages::Put {
    /// Handles a put request. A request without a value, or with a
    /// malformed one, is answered with nothing and changes nothing; a
    /// well-formed request binds its key and is acknowledged.
    pub fn run(self, server: &mut RMemstoreServer) -> (r: Option<messages::response::Kind>)
        requires
            old(server).wf(),
            match self.value {
                Some(v) => !wire_malformed(v) ==> clamp_usize(
                    model_size(decode(v)) + self.key@.len(),
                ) <= old(server).capacity(),
                None => true,
            },
        ensures
            final(server).wf(),
            match self.value {
                None => r == None::<messages::response::Kind> && *final(server) == *old(server),
                Some(v) => if wire_malformed(v) {
                    r == None::<messages::response::Kind> && *final(server) == *old(server)
                } else {
                    &&& r == Some(messages::response::Kind::Ack(true))
                    &&& exists|item: MemstoreItem|
                        (#[trigger] item@) == decode(v) && SegmentedCache::put_post(
                            old(server).store(),
                            final(server).store(),
                            self.key@,
                            item,
                        )
                },
            },
    {
        match self.value {
            None => None,
            Some(value) => {
                match MemstoreValue::try_from(value) {
                    Err(_) => None,
                    Ok(decoded) => {
                        let item = MemstoreItem::new(decoded);
                        let ghost witness = item;
                        server.put(self.key, item);
                        proof {
                            assert(witness@ == decode(value));
                        }
                        Some(messages::response::Kind::Ack(true))
                    },
                }
            },
        }
    }
}

impl messages::Get {
    /// Handles a get request. A hit answers with the stored value encoded
    /// back onto the wire; a miss answers with nothing, which the wire
    /// layer keeps distinct from a present-but-empty value. No binding
    /// changes either way.
    pub fn run(self, server: &mut RMemstoreServer) -> (r: Option<messages::response::Kind>)
        requires
            old(server).wf(),
        ensures
            final(server).wf(),
            forall|k: Seq<u8>| #[trigger] final(server).lookup(k) == old(server).lookup(k),
            match old(server).lookup(self.key@) {
                Some(stored) => r matches Some(
                    messages::response::Kind::Value(wire),
                ) && !wire_malformed(wire) && decode(wire) == stored@,
                None => r == None::<messages::response::Kind>,
            },
    {
        let item = server.get(&self.key);
        match item {
            Some(item) => Some(
                messages::response::Kind::Value(messages::Value::from(item.into_value())),
            ),
            None => None,
        }
    }
}

} // verus!
