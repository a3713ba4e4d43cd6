//! The mathematical model of the engine: the abstract state of the memtable,
//! of each segment, and of the whole store, together with the transition
//! functions that the executable operations are proved to implement.

use vstd::prelude::*;

verus! {

/// The abstract value of a stored vector: its identifier and the bit
/// patterns of its 64-bit components.
#[verifier::ext_equal]
pub struct VectorModel {
    pub id: u64,
    pub data: Seq<u64>,
}

/// The abstract state of one immutable segment: the records it holds and the
/// keys tombstoned against it.
#[verifier::ext_equal]
pub struct SegmentModel {
    pub contents: Map<u64, VectorModel>,
    pub tombstones: Set<u64>,
}

/// The abstract state of the whole engine.
#[verifier::ext_equal]
pub struct StoreModel {
    pub memtable: Map<u64, VectorModel>,
    pub segments: Seq<SegmentModel>,
    pub flush_threshold: nat,
    pub max_open_segments: nat,
}

/// A segment never tombstones a key it does not index: the engine places a
/// tombstone only on a segment whose index holds the key.
pub open spec fn segment_inv(seg: SegmentModel) -> bool {
    seg.tombstones.subset_of(seg.contents.dom())
}

/// The state invariant that every engine operation preserves.
pub open spec fn store_inv(s: StoreModel) -> bool {
    forall|i: int| 0 <= i < s.segments.len() ==> segment_inv(#[trigger] s.segments[i])
}

/// Recency-ordered lookup across the segments, newest to oldest: the first
/// segment that tombstones the key hides every older copy; otherwise the
/// first segment that indexes the key supplies the value.
pub open spec fn segments_get(segs: Seq<SegmentModel>, key: u64) -> Option<VectorModel>
    decreases segs.len(),
{
    if segs.len() == 0 {
        None
    } else if segs.last().tombstones.contains(key) {
        None
    } else if segs.last().contents.contains_key(key) {
        Some(segs.last().contents[key])
    } else {
        segments_get(segs.drop_last(), key)
    }
}

/// What `get` returns: the memtable is authoritative when it holds the key;
/// otherwise the segments are consulted newest to oldest.
pub open spec fn store_get(s: StoreModel, key: u64) -> Option<VectorModel> {
    if s.memtable.contains_key(key) {
        Some(s.memtable[key])
    } else {
        segments_get(s.segments, key)
    }
}

/// Flushing seals the whole memtable as one new segment, appended as the
/// newest generation with an empty tombstone set, and clears the memtable.
pub open spec fn store_flush(s: StoreModel) -> StoreModel {
    StoreModel {
        memtable: Map::empty(),
        segments: s.segments.push(
            SegmentModel { contents: s.memtable, tombstones: Set::empty() },
        ),
        ..s
    }
}

/// Inserting writes into the memtable, overwriting any prior value, and
/// flushes when the memtable has reached the threshold.
pub open spec fn store_insert(s: StoreModel, key: u64, value: VectorModel) -> StoreModel {
    let buffered = StoreModel { memtable: s.memtable.insert(key, value), ..s };
    if buffered.memtable.len() >= s.flush_threshold {
        store_flush(buffered)
    } else {
        buffered
    }
}

/// The position of the newest segment whose records hold the key, or -1 when
/// no segment does.
pub open spec fn newest_segment_with_key(segs: Seq<SegmentModel>, key: u64) -> int
    decreases segs.len(),
{
    if segs.len() == 0 {
        -1
    } else if segs.last().contents.contains_key(key) {
        segs.len() - 1
    } else {
        newest_segment_with_key(segs.drop_last(), key)
    }
}

/// Whether a delete of `key` succeeds: the key is in the memtable or in some
/// segment's records.
pub open spec fn store_delete_found(s: StoreModel, key: u64) -> bool {
    s.memtable.contains_key(key) || exists|i: int|
        0 <= i < s.segments.len() && (#[trigger] s.segments[i]).contents.contains_key(key)
}

/// Deleting removes the key from the memtable when present; otherwise it
/// tombstones the newest segment that indexes the key; otherwise it leaves
/// the state unchanged (and the operation reports that the key was absent).
pub open spec fn store_delete(s: StoreModel, key: u64) -> StoreModel {
    if s.memtable.contains_key(key) {
        StoreModel { memtable: s.memtable.remove(key), ..s }
    } else {
        let i = newest_segment_with_key(s.segments, key);
        if i >= 0 {
            let seg = s.segments[i];
            StoreModel {
                segments: s.segments.update(
                    i,
                    SegmentModel { tombstones: seg.tombstones.insert(key), ..seg },
                ),
                ..s
            }
        } else {
            s
        }
    }
}

/// The map held by an association list, later entries overriding earlier
/// ones (the lists the engine builds never repeat a key).
pub open spec fn assoc_to_map<V>(s: Seq<(u64, V)>) -> Map<u64, V>
    decreases s.len(),
{
    if s.len() == 0 {
        Map::empty()
    } else {
        assoc_to_map(s.drop_last()).insert(s.last().0, s.last().1)
    }
}

/// The keys of an association list are strictly increasing.
pub open spec fn keys_strictly_sorted<V>(s: Seq<(u64, V)>) -> bool {
    forall|j1: int, j2: int| 0 <= j1 < j2 < s.len() ==> (#[trigger] s[j1]).0 < (#[trigger] s[j2]).0
}

/// The set of values held by a sequence.
pub open spec fn seq_to_set(s: Seq<u64>) -> Set<u64> {
    Set::new(|k: u64| s.contains(k))
}

/// No value occurs twice in the sequence.
pub open spec fn seq_distinct(s: Seq<u64>) -> bool {
    forall|j1: int, j2: int| 0 <= j1 < j2 < s.len() ==> s[j1] != s[j2]
}

/// On a list with distinct keys, the derived map holds exactly the listed
/// pairs, and as many of them as the list.
pub proof fn lemma_assoc_to_map<V>(s: Seq<(u64, V)>)
    requires
        forall|j1: int, j2: int|
            0 <= j1 < j2 < s.len() ==> (#[trigger] s[j1]).0 != (#[trigger] s[j2]).0,
    ensures
        forall|k: u64|
            assoc_to_map(s).contains_key(k) <==> exists|j: int|
                0 <= j < s.len() && (#[trigger] s[j]).0 == k,
        forall|j: int|
            0 <= j < s.len() ==> assoc_to_map(s).contains_key((#[trigger] s[j]).0)
                && assoc_to_map(s)[s[j].0] == s[j].1,
        assoc_to_map(s).dom().finite(),
        assoc_to_map(s).len() == s.len(),
    decreases s.len(),
{
    if s.len() == 0 {
        assert(assoc_to_map(s) =~= Map::<u64, V>::empty());
    } else {
        let prefix = s.drop_last();
        lemma_assoc_to_map(prefix);
        let last = s.last();
        assert forall|j: int| 0 <= j < s.len() implies assoc_to_map(s).contains_key(
            (#[trigger] s[j]).0,
        ) && assoc_to_map(s)[s[j].0] == s[j].1 by {
            if j < s.len() - 1 {
                assert(prefix[j] == s[j]);
                assert(s[j].0 != last.0);
            }
        }
        assert forall|k: u64| assoc_to_map(s).contains_key(k) implies exists|j: int|
            0 <= j < s.len() && (#[trigger] s[j]).0 == k by {
            if k != last.0 {
                let j = choose|j: int| 0 <= j < prefix.len() && (#[trigger] prefix[j]).0 == k;
                assert(s[j].0 == k);
            } else {
                assert(s[s.len() - 1].0 == k);
            }
        }
        assert(!assoc_to_map(prefix).contains_key(last.0));
    }
}

/// A sequence without repeats holds as many values as the set it describes.
pub proof fn lemma_seq_to_set_len(s: Seq<u64>)
    requires
        seq_distinct(s),
    ensures
        seq_to_set(s).finite(),
        seq_to_set(s).len() == s.len(),
    decreases s.len(),
{
    if s.len() == 0 {
        assert(seq_to_set(s) =~= Set::<u64>::empty());
    } else {
        let prefix = s.drop_last();
        lemma_seq_to_set_len(prefix);
        assert forall|k: u64| prefix.contains(k) implies s.contains(k) by {
            let j = choose|j: int| 0 <= j < prefix.len() && prefix[j] == k;
            assert(s[j] == k);
        }
        assert forall|k: u64| s.contains(k) && k != s.last() implies prefix.contains(k) by {
            let j = choose|j: int| 0 <= j < s.len() && s[j] == k;
            assert(j < s.len() - 1);
            assert(prefix[j] == k);
        }
        assert(!prefix.contains(s.last()));
        assert(seq_to_set(s) =~= seq_to_set(prefix).insert(s.last()));
    }
}


/// Replacing the value at position `j` updates the derived map at that
/// entry's key.
pub proof fn lemma_assoc_update<V>(s: Seq<(u64, V)>, j: int, value: V)
    requires
        forall|j1: int, j2: int|
            0 <= j1 < j2 < s.len() ==> (#[trigger] s[j1]).0 != (#[trigger] s[j2]).0,
        0 <= j < s.len(),
    ensures
        assoc_to_map(s.update(j, (s[j].0, value))) == assoc_to_map(s).insert(s[j].0, value),
{
    let s2 = s.update(j, (s[j].0, value));
    assert(forall|t: int| 0 <= t < s2.len() ==> (#[trigger] s2[t]).0 == s[t].0);
    lemma_assoc_to_map(s);
    lemma_assoc_to_map(s2);
    let m1 = assoc_to_map(s2);
    let m2 = assoc_to_map(s).insert(s[j].0, value);
    assert forall|k: u64| m1.contains_key(k) implies m2.contains_key(k) && m1[k] == m2[k] by {
        let t = choose|t: int| 0 <= t < s2.len() && (#[trigger] s2[t]).0 == k;
        assert(s[t].0 == k);
        if t != j {
            assert(s2[t] == s[t]);
            assert(k != s[j].0);
        }
    }
    assert forall|k: u64| m2.contains_key(k) implies m1.contains_key(k) by {
        if k == s[j].0 {
            assert(s2[j].0 == k);
        } else {
            let t = choose|t: int| 0 <= t < s.len() && (#[trigger] s[t]).0 == k;
            assert(s2[t].0 == k);
        }
    }
    assert(m1 =~= m2);
}

/// Inserting a pair with a fresh key at any position inserts it into the
/// derived map.
pub proof fn lemma_assoc_insert<V>(s: Seq<(u64, V)>, j: int, key: u64, value: V)
    requires
        forall|j1: int, j2: int|
            0 <= j1 < j2 < s.len() ==> (#[trigger] s[j1]).0 != (#[trigger] s[j2]).0,
        0 <= j <= s.len(),
        forall|t: int| 0 <= t < s.len() ==> (#[trigger] s[t]).0 != key,
    ensures
        assoc_to_map(s.insert(j, (key, value))) == assoc_to_map(s).insert(key, value),
{
    let s2 = s.insert(j, (key, value));
    assert(forall|t: int| 0 <= t < j ==> #[trigger] s2[t] == s[t]);
    assert(s2[j] == (key, value));
    assert(forall|t: int| j < t < s2.len() ==> #[trigger] s2[t] == s[t - 1]);
    assert forall|t1: int, t2: int|
        0 <= t1 < t2 < s2.len() implies (#[trigger] s2[t1]).0 != (#[trigger] s2[t2]).0 by {
        if t1 != j && t2 != j {
            let u1: int = if t1 < j { t1 } else { t1 - 1 };
            let u2: int = if t2 < j { t2 } else { t2 - 1 };
            assert(s2[t1] == s[u1] && s2[t2] == s[u2]);
        }
    }
    lemma_assoc_to_map(s);
    lemma_assoc_to_map(s2);
    let m1 = assoc_to_map(s2);
    let m2 = assoc_to_map(s).insert(key, value);
    assert forall|k: u64| m1.contains_key(k) implies m2.contains_key(k) && m1[k] == m2[k] by {
        let t = choose|t: int| 0 <= t < s2.len() && (#[trigger] s2[t]).0 == k;
        if t != j {
            let u: int = if t < j { t } else { t - 1 };
            assert(s2[t] == s[u]);
            assert(k != key);
        }
    }
    assert forall|k: u64| m2.contains_key(k) implies m1.contains_key(k) by {
        if k == key {
            assert(s2[j].0 == k);
        } else {
            let t = choose|t: int| 0 <= t < s.len() && (#[trigger] s[t]).0 == k;
            let u: int = if t < j { t } else { t + 1 };
            assert(s2[u].0 == k);
        }
    }
    assert(m1 =~= m2);
}

/// Removing the entry at position `j` removes that entry's key from the
/// derived map.
pub proof fn lemma_assoc_remove<V>(s: Seq<(u64, V)>, j: int)
    requires
        forall|j1: int, j2: int|
            0 <= j1 < j2 < s.len() ==> (#[trigger] s[j1]).0 != (#[trigger] s[j2]).0,
        0 <= j < s.len(),
    ensures
        assoc_to_map(s.remove(j)) == assoc_to_map(s).remove(s[j].0),
{
    let s2 = s.remove(j);
    assert(forall|t: int| 0 <= t < j ==> #[trigger] s2[t] == s[t]);
    assert(forall|t: int| j <= t < s2.len() ==> #[trigger] s2[t] == s[t + 1]);
    lemma_assoc_to_map(s);
    lemma_assoc_to_map(s2);
    let m1 = assoc_to_map(s2);
    let m2 = assoc_to_map(s).remove(s[j].0);
    assert forall|k: u64| m1.contains_key(k) implies m2.contains_key(k) && m1[k] == m2[k] by {
        let t = choose|t: int| 0 <= t < s2.len() && (#[trigger] s2[t]).0 == k;
        let u: int = if t < j { t } else { t + 1 };
        assert(s2[t] == s[u]);
        assert(k != s[j].0);
    }
    assert forall|k: u64| m2.contains_key(k) implies m1.contains_key(k) by {
        let t = choose|t: int| 0 <= t < s.len() && (#[trigger] s[t]).0 == k;
        let u: int = if t < j { t } else { t - 1 };
        assert(s2[u].0 == k);
    }
    assert(m1 =~= m2);
}

/// Appending a value to a sequence inserts it into the described set.
pub proof fn lemma_seq_to_set_push(s: Seq<u64>, x: u64)
    ensures
        seq_to_set(s.push(x)) == seq_to_set(s).insert(x),
{
    assert forall|k: u64| seq_to_set(s.push(x)).contains(k) implies seq_to_set(s).insert(
        x,
    ).contains(k) by {
        let t = choose|t: int| 0 <= t < s.push(x).len() && s.push(x)[t] == k;
        if t < s.len() {
            assert(s[t] == k);
        }
    }
    assert forall|k: u64| seq_to_set(s).insert(x).contains(k) implies seq_to_set(
        s.push(x),
    ).contains(k) by {
        if k == x {
            assert(s.push(x)[s.len() as int] == k);
        } else {
            let t = choose|t: int| 0 <= t < s.len() && s[t] == k;
            assert(s.push(x)[t] == k);
        }
    }
    assert(seq_to_set(s.push(x)) =~= seq_to_set(s).insert(x));
}

/// When segment `i` holds the key and every newer segment does not, segment
/// `i` is the newest one holding it.
pub proof fn lemma_newest_segment(segs: Seq<SegmentModel>, key: u64, i: int)
    requires
        0 <= i < segs.len(),
        segs[i].contents.contains_key(key),
        forall|t: int| i < t < segs.len() ==> !(#[trigger] segs[t]).contents.contains_key(key),
    ensures
        newest_segment_with_key(segs, key) == i,
    decreases segs.len(),
{
    if i == segs.len() - 1 {
    } else {
        assert(!segs.last().contents.contains_key(key));
        assert(forall|t: int|
            0 <= t < segs.len() - 1 ==> #[trigger] segs.drop_last()[t] == segs[t]);
        lemma_newest_segment(segs.drop_last(), key, i);
    }
}

/// When no segment holds the key, no segment is the newest one holding it.
pub proof fn lemma_no_segment_with_key(segs: Seq<SegmentModel>, key: u64)
    requires
        forall|t: int| 0 <= t < segs.len() ==> !(#[trigger] segs[t]).contents.contains_key(key),
    ensures
        newest_segment_with_key(segs, key) == -1,
    decreases segs.len(),
{
    if segs.len() > 0 {
        assert(forall|t: int|
            0 <= t < segs.len() - 1 ==> #[trigger] segs.drop_last()[t] == segs[t]);
        lemma_no_segment_with_key(segs.drop_last(), key);
    }
}

} // verus!
