//! The engine's general laws, proved over the abstract store model that the
//! executable operations are verified to implement.

use vstd::prelude::*;
use crate::model::{
    VectorModel, SegmentModel, StoreModel, segment_inv, store_inv, segments_get, store_get,
    store_flush, store_insert, newest_segment_with_key, store_delete_found, store_delete,
    lemma_newest_segment, lemma_no_segment_with_key,
};

verus! {

/// A lookup of a key just inserted returns the inserted value, whether or
/// not the insert triggered a flush.
pub proof fn lemma_insert_then_get(s: StoreModel, key: u64, value: VectorModel)
    ensures
        store_get(store_insert(s, key, value), key) == Some(value),
{
    let buffered = StoreModel { memtable: s.memtable.insert(key, value), ..s };
    if buffered.memtable.len() >= s.flush_threshold {
        let flushed = store_flush(buffered);
        assert(flushed.segments.last().contents.contains_key(key));
    }
}

/// Memtable-first precedence: two inserts of the same key with no flush
/// between them leave the second value visible; the first is overwritten
/// wholesale.
pub proof fn lemma_memtable_first_precedence(
    s: StoreModel,
    key: u64,
    value1: VectorModel,
    value2: VectorModel,
)
    ensures
        store_get(store_insert(store_insert(s, key, value1), key, value2), key) == Some(value2),
{
    lemma_insert_then_get(store_insert(s, key, value1), key, value2);
}

/// Flushing preserves visibility: a lookup of any key returns the same
/// value before and after a flush, so every key inserted before the
/// threshold-crossing insert remains retrievable with its value.
pub proof fn lemma_flush_preserves_get(s: StoreModel, key: u64)
    ensures
        store_get(store_flush(s), key) == store_get(s, key),
{
    let flushed = store_flush(s);
    let sealed = SegmentModel { contents: s.memtable, tombstones: Set::<u64>::empty() };
    assert(flushed.segments.last() == sealed);
    assert(flushed.segments.drop_last() =~= s.segments);
    if s.memtable.contains_key(key) {
        assert(segments_get(flushed.segments, key) == Some(s.memtable[key]));
    } else {
        assert(segments_get(flushed.segments, key) == segments_get(s.segments, key));
    }
}

/// Inserting one key never disturbs another key's lookup, whether or not
/// the insert triggered a flush: after a run of distinct inserts that
/// crosses the flush threshold, every previously inserted key is still
/// retrievable with its value.
pub proof fn lemma_insert_preserves_other_gets(
    s: StoreModel,
    key: u64,
    value: VectorModel,
    other: u64,
)
    requires
        other != key,
    ensures
        store_get(store_insert(s, key, value), other) == store_get(s, other),
{
    let buffered = StoreModel { memtable: s.memtable.insert(key, value), ..s };
    if buffered.memtable.len() >= s.flush_threshold {
        lemma_flush_preserves_get(buffered, other);
    }
}

/// Once a lookup has passed every segment newer than `i` without a hit, a
/// tombstone at segment `i` makes the lookup miss.
proof fn lemma_segments_get_tombstoned(segs: Seq<SegmentModel>, key: u64, i: int)
    requires
        0 <= i < segs.len(),
        segs[i].tombstones.contains(key),
        forall|t: int|
            i < t < segs.len() ==> !(#[trigger] segs[t]).contents.contains_key(key)
                && !segs[t].tombstones.contains(key),
    ensures
        segments_get(segs, key) is None,
    decreases segs.len(),
{
    if i < segs.len() - 1 {
        assert(forall|t: int|
            0 <= t < segs.len() - 1 ==> #[trigger] segs.drop_last()[t] == segs[t]);
        lemma_segments_get_tombstoned(segs.drop_last(), key, i);
    }
}

/// A tombstone shadows every older generation: deleting a key that is not
/// buffered in the memtable but lives in some segment makes a lookup miss,
/// even though older segments still physically hold readable records for it.
pub proof fn lemma_tombstone_shadows(s: StoreModel, key: u64)
    requires
        store_inv(s),
        !s.memtable.contains_key(key),
        store_delete_found(s, key),
    ensures
        store_get(store_delete(s, key), key) is None,
{
    let i = newest_segment_with_key(s.segments, key);
    if i < 0 {
        lemma_newest_with_key_found(s.segments, key);
        assert(false);
    }
    lemma_newest_props(s.segments, key);
    let seg = s.segments[i];
    let deleted = store_delete(s, key);
    let segs2 = deleted.segments;
    assert(segs2 == s.segments.update(i, SegmentModel {
        tombstones: seg.tombstones.insert(key),
        ..seg
    }));
    assert forall|t: int|
        i < t < segs2.len() implies !(#[trigger] segs2[t]).contents.contains_key(key)
            && !segs2[t].tombstones.contains(key) by {
        assert(segs2[t] == s.segments[t]);
        assert(segment_inv(s.segments[t]));
    }
    lemma_segments_get_tombstoned(segs2, key, i);
}

/// When some segment holds the key, the newest-segment search finds one.
proof fn lemma_newest_with_key_found(segs: Seq<SegmentModel>, key: u64)
    requires
        exists|t: int| 0 <= t < segs.len() && (#[trigger] segs[t]).contents.contains_key(key),
    ensures
        newest_segment_with_key(segs, key) >= 0,
    decreases segs.len(),
{
    if !segs.last().contents.contains_key(key) {
        let t = choose|t: int|
            0 <= t < segs.len() && (#[trigger] segs[t]).contents.contains_key(key);
        assert(segs.drop_last()[t] == segs[t]);
        lemma_newest_with_key_found(segs.drop_last(), key);
    }
}

/// The newest segment holding the key does hold it, and no newer segment
/// does.
proof fn lemma_newest_props(segs: Seq<SegmentModel>, key: u64)
    requires
        newest_segment_with_key(segs, key) >= 0,
    ensures
        newest_segment_with_key(segs, key) < segs.len(),
        segs[newest_segment_with_key(segs, key)].contents.contains_key(key),
        forall|t: int|
            newest_segment_with_key(segs, key) < t < segs.len() ==> !(
            #[trigger] segs[t]).contents.contains_key(key),
    decreases segs.len(),
{
    if !segs.last().contents.contains_key(key) {
        lemma_newest_props(segs.drop_last(), key);
        let i = newest_segment_with_key(segs, key);
        assert forall|t: int| i < t < segs.len() implies !(
        #[trigger] segs[t]).contents.contains_key(key) by {
            if t < segs.len() - 1 {
                assert(segs.drop_last()[t] == segs[t]);
                assert(!segs.drop_last()[t].contents.contains_key(key));
            }
        }
    }
}

/// A delete while the key is still buffered needs no tombstone: flushing the
/// remaining memtable yields a segment with no record and no tombstone for
/// the key.
pub proof fn lemma_delete_before_flush(s: StoreModel, key: u64)
    requires
        s.memtable.contains_key(key),
    ensures
        !store_flush(store_delete(s, key)).segments.last().contents.contains_key(key),
        !store_flush(store_delete(s, key)).segments.last().tombstones.contains(key),
        store_flush(store_delete(s, key)).segments.last().contents == s.memtable.remove(key),
{
}

/// Deleting a key the store does not hold fails and changes nothing.
pub proof fn lemma_delete_unknown_unchanged(s: StoreModel, key: u64)
    requires
        !store_delete_found(s, key),
    ensures
        store_delete(s, key) == s,
{
    assert(forall|t: int|
        0 <= t < s.segments.len() ==> !(#[trigger] s.segments[t]).contents.contains_key(key));
    lemma_no_segment_with_key(s.segments, key);
}

} // verus!
