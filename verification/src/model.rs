//! The mathematical model of a cache segment's lookup table: an association
//! sequence of (key, value) pairs, the finite map it denotes, and the total
//! weight it carries.

use vstd::prelude::*;

verus! {

use crate::cache::Weigher;

/// No key occurs twice in the association sequence.
pub open spec fn distinct_keys<V>(entries: Seq<(Seq<u8>, V)>) -> bool {
    forall|i: int, j: int| 0 <= i < j < entries.len() ==> entries[i].0 != entries[j].0
}

/// The finite map denoted by an association sequence; a later binding wins.
pub open spec fn pairs_map<V>(entries: Seq<(Seq<u8>, V)>) -> Map<Seq<u8>, V>
    decreases entries.len(),
{
    if entries.len() == 0 {
        Map::empty()
    } else {
        pairs_map(entries.drop_last()).insert(entries.last().0, entries.last().1)
    }
}

/// The total weight charged for the entries under the weigher `W`.
pub open spec fn entries_weight<V, W: Weigher<V>>(entries: Seq<(Seq<u8>, V)>) -> nat
    decreases entries.len(),
{
    if entries.len() == 0 {
        0
    } else {
        entries_weight::<V, W>(entries.drop_last()) + W::spec_weigh(
            entries.last().0,
            entries.last().1,
        )
    }
}

/// How many flags in the sequence are set; the termination measure of the
/// eviction sweep shrinks this whenever it demotes a visited entry.
pub open spec fn count_set(flags: Seq<bool>) -> nat
    decreases flags.len(),
{
    if flags.len() == 0 {
        0
    } else {
        count_set(flags.drop_last()) + (if flags.last() {
            1nat
        } else {
            0nat
        })
    }
}

/// With distinct keys, the denoted map has exactly the keys of the sequence,
/// each bound to the value stored beside it.
pub proof fn lemma_pairs_map_characterization<V>(entries: Seq<(Seq<u8>, V)>)
    requires
        distinct_keys(entries),
    ensures
        forall|k: Seq<u8>| #[trigger]
            pairs_map(entries).dom().contains(k) ==> exists|i: int|
                0 <= i < entries.len() && entries[i].0 == k,
        forall|i: int|
            0 <= i < entries.len() ==> pairs_map(entries).dom().contains(#[trigger] entries[i].0)
                && pairs_map(entries)[entries[i].0] == entries[i].1,
    decreases entries.len(),
{
    if entries.len() > 0 {
        let prefix = entries.drop_last();
        let last = entries.last();
        assert(forall|i: int| 0 <= i < prefix.len() ==> #[trigger] prefix[i] == entries[i]);
        assert(distinct_keys(prefix));
        lemma_pairs_map_characterization(prefix);
        assert forall|k: Seq<u8>| #[trigger] pairs_map(entries).dom().contains(k) implies exists|i: int|
            0 <= i < entries.len() && entries[i].0 == k by {
            if k == last.0 {
                assert(entries[entries.len() - 1].0 == k);
            } else {
                assert(pairs_map(prefix).dom().contains(k));
                let i = choose|i: int| 0 <= i < prefix.len() && prefix[i].0 == k;
                assert(entries[i].0 == k);
            }
        }
        assert forall|i: int| 0 <= i < entries.len() implies pairs_map(entries).dom().contains(
            #[trigger] entries[i].0,
        ) && pairs_map(entries)[entries[i].0] == entries[i].1 by {
            if i < entries.len() - 1 {
                assert(prefix[i] == entries[i]);
                assert(entries[i].0 != last.0);
                assert(pairs_map(prefix).dom().contains(entries[i].0));
                assert(pairs_map(entries)[entries[i].0] == pairs_map(prefix)[entries[i].0]);
            }
        }
    }
}

/// With distinct keys, the denoted map is finite and has one entry per pair.
pub proof fn lemma_pairs_map_len<V>(entries: Seq<(Seq<u8>, V)>)
    requires
        distinct_keys(entries),
    ensures
        pairs_map(entries).dom().finite(),
        pairs_map(entries).dom().len() == entries.len(),
    decreases entries.len(),
{
    if entries.len() > 0 {
        let prefix = entries.drop_last();
        assert(forall|i: int| 0 <= i < prefix.len() ==> #[trigger] prefix[i] == entries[i]);
        assert(distinct_keys(prefix));
        lemma_pairs_map_len(prefix);
        lemma_pairs_map_characterization(prefix);
        assert(!pairs_map(prefix).dom().contains(entries.last().0)) by {
            if pairs_map(prefix).dom().contains(entries.last().0) {
                let i = choose|i: int|
                    0 <= i < prefix.len() && prefix[i].0 == entries.last().0;
                assert(entries[i].0 == entries[entries.len() - 1].0);
            }
        }
    }
}

/// Appending a pair with a fresh key binds it in the denoted map and keeps
/// the keys distinct.
pub proof fn lemma_pairs_map_push<V>(entries: Seq<(Seq<u8>, V)>, p: (Seq<u8>, V))
    requires
        distinct_keys(entries),
        forall|j: int| 0 <= j < entries.len() ==> (#[trigger] entries[j]).0 != p.0,
    ensures
        distinct_keys(entries.push(p)),
        pairs_map(entries.push(p)) == pairs_map(entries).insert(p.0, p.1),
{
    let pushed = entries.push(p);
    assert(pushed.drop_last() =~= entries);
    assert(forall|j: int| 0 <= j < entries.len() ==> #[trigger] pushed[j] == entries[j]);
}

/// Replacing the value beside the key at `i` re-binds exactly that key.
pub proof fn lemma_pairs_map_update_value<V>(entries: Seq<(Seq<u8>, V)>, i: int, v: V)
    requires
        distinct_keys(entries),
        0 <= i < entries.len(),
    ensures
        distinct_keys(entries.update(i, (entries[i].0, v))),
        pairs_map(entries.update(i, (entries[i].0, v))) == pairs_map(entries).insert(
            entries[i].0,
            v,
        ),
{
    let k = entries[i].0;
    let updated = entries.update(i, (k, v));
    assert(forall|j: int|
        0 <= j < entries.len() ==> (#[trigger] updated[j]).0 == entries[j].0);
    assert(distinct_keys(updated));
    lemma_pairs_map_characterization(entries);
    lemma_pairs_map_characterization(updated);
    assert forall|k2: Seq<u8>|
        #![trigger pairs_map(updated).dom().contains(k2)]
        #![trigger pairs_map(entries).insert(k, v).dom().contains(k2)]
        true implies {
        &&& pairs_map(updated).dom().contains(k2) == pairs_map(entries).insert(k, v).dom().contains(
            k2,
        )
        &&& pairs_map(updated).dom().contains(k2) ==> pairs_map(updated)[k2] == pairs_map(
            entries,
        ).insert(k, v)[k2]
    } by {
        if pairs_map(updated).dom().contains(k2) {
            let j = choose|j: int| 0 <= j < updated.len() && updated[j].0 == k2;
            assert(entries[j].0 == k2);
            if j == i {
                assert(pairs_map(updated)[k2] == v);
            } else {
                assert(updated[j] == entries[j]);
                assert(k2 != k);
            }
        }
        if pairs_map(entries).insert(k, v).dom().contains(k2) {
            if k2 == k {
                assert(updated[i].0 == k2);
            } else {
                let j = choose|j: int| 0 <= j < entries.len() && entries[j].0 == k2;
                assert(updated[j].0 == k2);
            }
        }
    }
    assert(pairs_map(updated) =~= pairs_map(entries).insert(k, v));
}

/// Removing the pair at `i` by swapping in the last pair and dropping the
/// tail unbinds exactly that key.
pub proof fn lemma_pairs_map_swap_remove<V>(entries: Seq<(Seq<u8>, V)>, i: int)
    requires
        distinct_keys(entries),
        0 <= i < entries.len(),
    ensures
        distinct_keys(entries.update(i, entries.last()).drop_last()),
        pairs_map(entries.update(i, entries.last()).drop_last()) == pairs_map(entries).remove(
            entries[i].0,
        ),
{
    let k = entries[i].0;
    let sr = entries.update(i, entries.last()).drop_last();
    assert(forall|j: int|
        0 <= j < sr.len() ==> #[trigger] sr[j] == (if j == i {
            entries[entries.len() - 1]
        } else {
            entries[j]
        }));
    assert forall|m: int, n: int| 0 <= m < n < sr.len() implies sr[m].0 != sr[n].0 by {
        if m == i {
            assert(sr[m] == entries[entries.len() - 1]);
        }
    }
    lemma_pairs_map_characterization(entries);
    lemma_pairs_map_characterization(sr);
    assert forall|k2: Seq<u8>|
        #![trigger pairs_map(sr).dom().contains(k2)]
        #![trigger pairs_map(entries).remove(k).dom().contains(k2)]
        true implies {
        &&& pairs_map(sr).dom().contains(k2) == pairs_map(entries).remove(k).dom().contains(k2)
        &&& pairs_map(sr).dom().contains(k2) ==> pairs_map(sr)[k2] == pairs_map(entries).remove(
            k,
        )[k2]
    } by {
        if pairs_map(sr).dom().contains(k2) {
            let j = choose|j: int| 0 <= j < sr.len() && sr[j].0 == k2;
            if j == i {
                assert(entries[entries.len() - 1].0 == k2);
                assert(k2 != k);
            } else {
                assert(entries[j].0 == k2);
                assert(k2 != k);
            }
        }
        if pairs_map(entries).remove(k).dom().contains(k2) {
            let j = choose|j: int| 0 <= j < entries.len() && entries[j].0 == k2;
            assert(k2 != k);
            assert(j != i);
            if j == entries.len() - 1 {
                if i < entries.len() - 1 {
                    assert(sr[i].0 == k2);
                }
            } else {
                assert(sr[j].0 == k2);
            }
        }
    }
    assert(pairs_map(sr) =~= pairs_map(entries).remove(k));
}

/// Updating one pair shifts the total weight by the difference of the old and
/// new entry weights.
pub proof fn lemma_entries_weight_update<V, W: Weigher<V>>(
    entries: Seq<(Seq<u8>, V)>,
    i: int,
    p: (Seq<u8>, V),
)
    requires
        0 <= i < entries.len(),
    ensures
        entries_weight::<V, W>(entries.update(i, p)) + W::spec_weigh(entries[i].0, entries[i].1)
            == entries_weight::<V, W>(entries) + W::spec_weigh(p.0, p.1),
    decreases entries.len(),
{
    let updated = entries.update(i, p);
    if i == entries.len() - 1 {
        assert(updated.drop_last() =~= entries.drop_last());
        assert(updated.last() == p);
    } else {
        assert(updated.drop_last() =~= entries.drop_last().update(i, p));
        assert(updated.last() == entries.last());
        lemma_entries_weight_update::<V, W>(entries.drop_last(), i, p);
        assert(entries.drop_last()[i] == entries[i]);
    }
}

/// Removing the pair at `i` by swapping in the last pair and dropping the
/// tail subtracts exactly that pair's weight.
pub proof fn lemma_entries_weight_swap_remove<V, W: Weigher<V>>(entries: Seq<(Seq<u8>, V)>, i: int)
    requires
        0 <= i < entries.len(),
    ensures
        entries_weight::<V, W>(entries.update(i, entries.last()).drop_last()) + W::spec_weigh(
            entries[i].0,
            entries[i].1,
        ) == entries_weight::<V, W>(entries),
{
    let swapped = entries.update(i, entries.last());
    lemma_entries_weight_update::<V, W>(entries, i, entries.last());
    assert(swapped.last() == entries.last());
}

/// Every single entry weighs no more than the whole table.
pub proof fn lemma_entries_weight_element_bound<V, W: Weigher<V>>(
    entries: Seq<(Seq<u8>, V)>,
    i: int,
)
    requires
        0 <= i < entries.len(),
    ensures
        W::spec_weigh(entries[i].0, entries[i].1) <= entries_weight::<V, W>(entries),
    decreases entries.len(),
{
    if i < entries.len() - 1 {
        lemma_entries_weight_element_bound::<V, W>(entries.drop_last(), i);
        assert(entries.drop_last()[i] == entries[i]);
    }
}

/// Clearing a set flag lowers the count of set flags.
pub proof fn lemma_count_set_clear(flags: Seq<bool>, i: int)
    requires
        0 <= i < flags.len(),
        flags[i],
    ensures
        count_set(flags.update(i, false)) < count_set(flags),
    decreases flags.len(),
{
    let updated = flags.update(i, false);
    if i == flags.len() - 1 {
        assert(updated.drop_last() =~= flags.drop_last());
    } else {
        assert(updated.drop_last() =~= flags.drop_last().update(i, false));
        assert(updated.last() == flags.last());
        lemma_count_set_clear(flags.drop_last(), i);
    }
}

} // verus!
