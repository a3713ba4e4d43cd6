//! The LSM engine: the ordered in-memory memtable, the immutable segments
//! with their key-to-offset indexes and tombstone sets, and the insert, get,
//! delete and flush operations, each proved to implement its transition of
//! the abstract store model.

use vstd::prelude::*;
use crate::codec::{
    spec_decode_record, decode_record, encode_record, lemma_record_round_trip,
    lemma_decode_stable, MAX_VEC_DATA_LEN,
};
use crate::error::LsmError;
use crate::model::{
    VectorModel, SegmentModel, StoreModel, segment_inv, store_inv, segments_get, store_get,
    store_flush, store_insert, newest_segment_with_key, store_delete_found, store_delete,
    assoc_to_map, keys_strictly_sorted, seq_to_set, seq_distinct, lemma_assoc_to_map,
    lemma_seq_to_set_len, lemma_assoc_update, lemma_assoc_insert, lemma_assoc_remove,
    lemma_seq_to_set_push, lemma_newest_segment, lemma_no_segment_with_key,
};
use crate::vector::Vector;

verus! {

/// One immutable segment: the bytes of its record stream (the image of its
/// backing file), the key-to-offset index built when the segment was
/// created, and the keys tombstoned against it.
struct Segment {
    data: Vec<u8>,
    index: Vec<(u64, usize)>,
    tombstones: Vec<u64>,
    contents: Ghost<Map<u64, VectorModel>>,
}

impl View for Segment {
    type V = SegmentModel;

    closed spec fn view(&self) -> SegmentModel {
        SegmentModel { contents: self.contents@, tombstones: seq_to_set(self.tombstones@) }
    }
}

impl Segment {
    /// The segment's representation invariant: the index is sorted by key
    /// and lists exactly the segment's records, the record at each indexed
    /// offset parses to that index entry's key and its stored vector, and
    /// every tombstone names an indexed key.
    closed spec fn wf(&self) -> bool {
        &&& keys_strictly_sorted(self.index@)
        &&& (forall|j: int|
            0 <= j < self.index@.len() ==> spec_decode_record(
                self.data@,
                (#[trigger] self.index@[j]).1 as int,
            ) == Some((self.index@[j].0, self.contents@[self.index@[j].0])))
        &&& (forall|j: int|
            0 <= j < self.index@.len() ==> self.contents@.contains_key(
                (#[trigger] self.index@[j]).0,
            ))
        &&& (forall|k: u64|
            self.contents@.contains_key(k) ==> exists|j: int|
                0 <= j < self.index@.len() && (#[trigger] self.index@[j]).0 == k)
        &&& seq_distinct(self.tombstones@)
        &&& (forall|t: int|
            0 <= t < self.tombstones@.len() ==> self.contents@.contains_key(
                #[trigger] self.tombstones@[t],
            ))
    }

    /// A well-formed segment satisfies the abstract segment invariant.
    proof fn lemma_inv(&self)
        requires
            self.wf(),
        ensures
            segment_inv(self@),
    {
        assert forall|k: u64| self@.tombstones.contains(k) implies self@.contents.contains_key(
            k,
        ) by {
            let t = choose|t: int| 0 <= t < self.tombstones@.len() && self.tombstones@[t] == k;
        }
    }

    /// Whether this segment tombstones the key.
    fn has_tombstone(&self, key: u64) -> (r: bool)
        ensures
            r == self@.tombstones.contains(key),
    {
        let mut t: usize = 0;
        while t < self.tombstones.len()
            invariant
                t <= self.tombstones@.len(),
                forall|u: int| 0 <= u < t ==> self.tombstones@[u] != key,
            decreases self.tombstones@.len() - t,
        {
            if self.tombstones[t] == key {
                return true;
            }
            t += 1;
        }
        false
    }

    /// Looks the key up in the segment's index, returning the byte offset of
    /// its record when the segment holds it.
    fn find_offset(&self, key: u64) -> (r: Option<usize>)
        requires
            self.wf(),
        ensures
            match r {
                Some(off) => self@.contents.contains_key(key) && spec_decode_record(
                    self.data@,
                    off as int,
                ) == Some((key, self@.contents[key])),
                None => !self@.contents.contains_key(key),
            },
    {
        let mut lo: usize = 0;
        let mut hi: usize = self.index.len();
        while lo < hi
            invariant
                self.wf(),
                lo <= hi <= self.index@.len(),
                forall|t: int| 0 <= t < lo ==> (#[trigger] self.index@[t]).0 < key,
                forall|t: int|
                    hi <= t < self.index@.len() ==> (#[trigger] self.index@[t]).0 > key,
            decreases hi - lo,
        {
            let mid: usize = lo + (hi - lo) / 2;
            if self.index[mid].0 < key {
                lo = mid + 1;
            } else if self.index[mid].0 > key {
                hi = mid;
            } else {
                return Some(self.index[mid].1);
            }
        }
        proof {
            if self@.contents.contains_key(key) {
                let j = choose|j: int|
                    0 <= j < self.index@.len() && (#[trigger] self.index@[j]).0 == key;
            }
        }
        None
    }
}

/// The LSM engine: the memtable (an association list ordered by key), the
/// segments from oldest to newest, and the configuration.
pub struct LSMTree {
    memtable: Vec<(u64, Vector)>,
    sstables: Vec<Segment>,
    sstable_size: usize,
    max_open_sstables: usize,
}

impl View for LSMTree {
    type V = StoreModel;

    closed spec fn view(&self) -> StoreModel {
        StoreModel {
            memtable: assoc_to_map(self.mem_entries()),
            segments: self.sstables@.map_values(|s: Segment| s@),
            flush_threshold: self.sstable_size as nat,
            max_open_segments: self.max_open_sstables as nat,
        }
    }
}

impl LSMTree {
    /// The memtable's entries with their abstract values, in memtable order.
    closed spec fn mem_entries(&self) -> Seq<(u64, VectorModel)> {
        self.memtable@.map_values(|p: (u64, Vector)| (p.0, p.1@))
    }

    /// The engine's representation invariant: the memtable is strictly
    /// sorted by key, every buffered vector is small enough to encode, and
    /// every segment is well formed.
    pub closed spec fn wf(&self) -> bool {
        &&& keys_strictly_sorted(self.mem_entries())
        &&& (forall|j: int|
            0 <= j < self.memtable@.len() ==> (#[trigger] self.memtable@[j]).1@.data.len()
                <= MAX_VEC_DATA_LEN)
        &&& (forall|i: int| 0 <= i < self.sstables@.len() ==> (#[trigger] self.sstables@[i]).wf())
    }

    /// A well-formed engine satisfies the abstract store invariant.
    pub proof fn lemma_inv(&self)
        requires
            self.wf(),
        ensures
            store_inv(self@),
    {
        assert forall|i: int| 0 <= i < self@.segments.len() implies segment_inv(
            #[trigger] self@.segments[i],
        ) by {
            assert(self@.segments[i] == self.sstables@[i]@);
            self.sstables@[i].lemma_inv();
        }
    }

    /// The keys of the memtable's entries never repeat.
    proof fn lemma_mem_keys_distinct(&self)
        requires
            self.wf(),
        ensures
            forall|j1: int, j2: int|
                0 <= j1 < j2 < self.mem_entries().len() ==> (#[trigger] self.mem_entries()[j1]).0
                    != (#[trigger] self.mem_entries()[j2]).0,
    {
    }

    /// Creates an empty engine with the given flush threshold and advisory
    /// cap on retained open segments.
    pub fn new(flush_threshold: usize, max_open_segments: usize) -> (r: LSMTree)
        ensures
            r.wf(),
            r@ == (StoreModel {
                memtable: Map::<u64, VectorModel>::empty(),
                segments: Seq::<SegmentModel>::empty(),
                flush_threshold: flush_threshold as nat,
                max_open_segments: max_open_segments as nat,
            }),
    {
        let r = LSMTree {
            memtable: Vec::new(),
            sstables: Vec::new(),
            sstable_size: flush_threshold,
            max_open_sstables: max_open_segments,
        };
        proof {
            assert(r.mem_entries() =~= Seq::<(u64, VectorModel)>::empty());
            assert(assoc_to_map(r.mem_entries()) =~= Map::<u64, VectorModel>::empty());
            assert(r.sstables@.map_values(|s: Segment| s@) =~= Seq::<SegmentModel>::empty());
        }
        r
    }

    /// The configured flush threshold.
    pub fn flush_threshold(&self) -> (r: usize)
        ensures
            r as nat == self@.flush_threshold,
    {
        self.sstable_size
    }

    /// The configured advisory cap on retained open segments (declared by
    /// the engine but not enforced by any eviction behaviour).
    pub fn max_open_segments(&self) -> (r: usize)
        ensures
            r as nat == self@.max_open_segments,
    {
        self.max_open_sstables
    }

    /// How many entries the memtable holds.
    pub fn memtable_len(&self) -> (r: usize)
        requires
            self.wf(),
        ensures
            r as nat == self@.memtable.len(),
    {
        proof {
            self.lemma_mem_keys_distinct();
            lemma_assoc_to_map(self.mem_entries());
        }
        self.memtable.len()
    }

    /// How many segments the engine holds.
    pub fn sstable_count(&self) -> (r: usize)
        ensures
            r as nat == self@.segments.len(),
    {
        self.sstables.len()
    }

    /// How many keys are tombstoned against the given segment.
    pub fn tombstone_count(&self, i: usize) -> (r: usize)
        requires
            self.wf(),
            i < self@.segments.len(),
        ensures
            r as nat == self@.segments[i as int].tombstones.len(),
    {
        proof {
            assert(self@.segments[i as int] == self.sstables@[i as int]@);
            lemma_seq_to_set_len(self.sstables@[i as int].tombstones@);
        }
        self.sstables[i].tombstones.len()
    }

    /// Whether the given segment's records hold the key (regardless of any
    /// tombstone).
    pub fn segment_has_key(&self, i: usize, key: u64) -> (r: bool)
        requires
            self.wf(),
            i < self@.segments.len(),
        ensures
            r == self@.segments[i as int].contents.contains_key(key),
    {
        proof {
            assert(self@.segments[i as int] == self.sstables@[i as int]@);
        }
        self.sstables[i].find_offset(key).is_some()
    }

    /// The position at which `key` stands or would be inserted in the
    /// memtable: every earlier entry's key is smaller.
    fn memtable_position(&self, key: u64) -> (j: usize)
        requires
            self.wf(),
        ensures
            j <= self.memtable@.len(),
            forall|t: int| 0 <= t < j ==> (#[trigger] self.memtable@[t]).0 < key,
            j < self.memtable@.len() ==> self.memtable@[j as int].0 >= key,
    {
        let mut lo: usize = 0;
        let mut hi: usize = self.memtable.len();
        while lo < hi
            invariant
                self.wf(),
                lo <= hi <= self.memtable@.len(),
                forall|t: int| 0 <= t < lo ==> (#[trigger] self.memtable@[t]).0 < key,
                forall|t: int|
                    hi <= t < self.memtable@.len() ==> (#[trigger] self.memtable@[t]).0 >= key,
            decreases hi - lo,
        {
            let mid: usize = lo + (hi - lo) / 2;
            if self.memtable[mid].0 < key {
                proof {
                    assert forall|t: int| 0 <= t < mid + 1 implies (
                    #[trigger] self.memtable@[t]).0 < key by {
                        if t < mid {
                            assert(self.mem_entries()[t].0 < self.mem_entries()[mid as int].0);
                        }
                    }
                }
                lo = mid + 1;
            } else {
                proof {
                    assert forall|t: int| mid <= t < self.memtable@.len() implies (
                    #[trigger] self.memtable@[t]).0 >= key by {
                        if t > mid {
                            assert(self.mem_entries()[mid as int].0 < self.mem_entries()[t].0);
                        }
                    }
                }
                hi = mid;
            }
        }
        lo
    }

    /// Inserts or overwrites the memtable entry for `key`.
    fn memtable_put(&mut self, key: u64, value: Vector)
        requires
            old(self).wf(),
            value@.data.len() <= MAX_VEC_DATA_LEN,
        ensures
            final(self).wf(),
            final(self)@ == (StoreModel {
                memtable: old(self)@.memtable.insert(key, value@),
                ..old(self)@
            }),
    {
        let j = self.memtable_position(key);
        proof {
            old(self).lemma_mem_keys_distinct();
        }
        if j < self.memtable.len() && self.memtable[j].0 == key {
            self.memtable.remove(j);
            self.memtable.insert(j, (key, value));
            proof {
                assert(self.memtable@ =~= old(self).memtable@.update(j as int, (key, value)));
                assert(self.mem_entries() =~= old(self).mem_entries().update(
                    j as int,
                    (key, value@),
                ));
                assert(old(self).mem_entries()[j as int].0 == key);
                lemma_assoc_update(old(self).mem_entries(), j as int, value@);
                assert(forall|t: int|
                    0 <= t < self.mem_entries().len() ==> (#[trigger] self.mem_entries()[t]).0
                        == old(self).mem_entries()[t].0);
                assert(self@ =~= (StoreModel {
                    memtable: old(self)@.memtable.insert(key, value@),
                    ..old(self)@
                }));
            }
        } else {
            self.memtable.insert(j, (key, value));
            proof {
                assert(self.mem_entries() =~= old(self).mem_entries().insert(
                    j as int,
                    (key, value@),
                ));
                let oldm = old(self).mem_entries();
                assert forall|t: int| 0 <= t < oldm.len() implies (#[trigger] oldm[t]).0
                    != key by {
                    if t >= j {
                        assert(oldm[j as int].0 == old(self).memtable@[j as int].0);
                        assert(oldm[j as int].0 >= key && oldm[j as int].0 != key);
                        if t > j {
                            assert(oldm[j as int].0 < oldm[t].0);
                        }
                    }
                }
                lemma_assoc_insert(oldm, j as int, key, value@);
                let newm = self.mem_entries();
                assert forall|t1: int, t2: int|
                    0 <= t1 < t2 < newm.len() implies (#[trigger] newm[t1]).0
                        < (#[trigger] newm[t2]).0 by {
                    let u1: int = if t1 < j { t1 } else { t1 - 1 };
                    let u2: int = if t2 < j { t2 } else { t2 - 1 };
                    if t2 > j {
                        assert(oldm[j as int].0 == old(self).memtable@[j as int].0);
                        assert(oldm[j as int].0 >= key);
                        if u2 > j {
                            assert(oldm[j as int].0 < oldm[u2].0);
                        }
                        assert(oldm[u2].0 >= key);
                        assert(oldm[u2].0 != key);
                    }
                    if t1 != j && t2 != j {
                        assert(newm[t1] == oldm[u1] && newm[t2] == oldm[u2]);
                        if t1 < j && t2 > j {
                            assert(oldm[u1].0 < key);
                        }
                    } else if t1 == j {
                        assert(newm[t1].0 == key);
                        assert(newm[t2] == oldm[u2]);
                    } else {
                        assert(newm[t1] == oldm[u1]);
                        assert(newm[t2].0 == key);
                        assert(oldm[u1].0 < key);
                    }
                }
                assert(self@ =~= (StoreModel {
                    memtable: old(self)@.memtable.insert(key, value@),
                    ..old(self)@
                }));
            }
        }
    }

    /// Removes the memtable entry for `key`, reporting whether one was
    /// there.
    fn memtable_remove(&mut self, key: u64) -> (found: bool)
        requires
            old(self).wf(),
        ensures
            final(self).wf(),
            found == old(self)@.memtable.contains_key(key),
            found ==> final(self)@ == (StoreModel {
                memtable: old(self)@.memtable.remove(key),
                ..old(self)@
            }),
            !found ==> *final(self) == *old(self),
    {
        proof {
            old(self).lemma_mem_keys_distinct();
            lemma_assoc_to_map(old(self).mem_entries());
        }
        match self.memtable_find(key) {
            Some(j) => {
                self.memtable.remove(j);
                proof {
                    assert(old(self).mem_entries()[j as int].0 == key);
                    assert(self.mem_entries() =~= old(self).mem_entries().remove(j as int));
                    lemma_assoc_remove(old(self).mem_entries(), j as int);
                    let oldm = old(self).mem_entries();
                    let newm = self.mem_entries();
                    assert forall|t1: int, t2: int|
                        0 <= t1 < t2 < newm.len() implies (#[trigger] newm[t1]).0
                            < (#[trigger] newm[t2]).0 by {
                        let u1: int = if t1 < j { t1 } else { t1 + 1 };
                        let u2: int = if t2 < j { t2 } else { t2 + 1 };
                        assert(newm[t1] == oldm[u1] && newm[t2] == oldm[u2]);
                    }
                    assert(self@ =~= (StoreModel {
                        memtable: old(self)@.memtable.remove(key),
                        ..old(self)@
                    }));
                }
                true
            },
            None => {
                false
            },
        }
    }

    /// Encodes every memtable entry, in ascending key order, appending each
    /// record to `buf` and recording the byte offset of each record's start
    /// in the returned index.
    pub fn write_buffer(&self, buf: &mut Vec<u8>) -> (index: Vec<(u64, usize)>)
        requires
            self.wf(),
        ensures
            keys_strictly_sorted(index@),
            index@.len() == self@.memtable.len(),
            forall|j: int|
                0 <= j < index@.len() ==> self@.memtable.contains_key((#[trigger] index@[j]).0)
                    && spec_decode_record(final(buf)@, index@[j].1 as int) == Some(
                    (index@[j].0, self@.memtable[index@[j].0]),
                ),
            forall|k: u64|
                self@.memtable.contains_key(k) ==> exists|j: int|
                    0 <= j < index@.len() && (#[trigger] index@[j]).0 == k,
            final(buf)@.subrange(0, old(buf)@.len() as int) == old(buf)@,
            index@.len() == 0 ==> final(buf)@ == old(buf)@,
            index@.len() > 0 ==> index@[0].1 == old(buf)@.len(),
            forall|j: int|
                0 <= j < index@.len() ==> (#[trigger] index@[j]).1 + crate::codec::spec_record_bytes(
                    index@[j].0,
                    self@.memtable[index@[j].0],
                ).len() == (if j + 1 < index@.len() {
                    index@[j + 1].1 as int
                } else {
                    final(buf)@.len() as int
                }),
    {
        proof {
            self.lemma_mem_keys_distinct();
            lemma_assoc_to_map(self.mem_entries());
        }
        let mut index: Vec<(u64, usize)> = Vec::new();
        let mut i: usize = 0;
        while i < self.memtable.len()
            invariant
                self.wf(),
                i <= self.memtable@.len(),
                index@.len() == i,
                forall|j: int| 0 <= j < i ==> (#[trigger] index@[j]).0 == self.mem_entries()[j].0,
                forall|j: int|
                    0 <= j < i ==> spec_decode_record(buf@, (#[trigger] index@[j]).1 as int)
                        == Some((self.mem_entries()[j].0, self.mem_entries()[j].1)),
                buf@.subrange(0, old(buf)@.len() as int) == old(buf)@,
                i == 0 ==> buf@ == old(buf)@,
                i > 0 ==> index@[0].1 == old(buf)@.len(),
                forall|j: int|
                    0 <= j < i ==> (#[trigger] index@[j]).1
                        + crate::codec::spec_record_bytes(
                        self.mem_entries()[j].0,
                        self.mem_entries()[j].1,
                    ).len() == (if j + 1 < i {
                        index@[j + 1].1 as int
                    } else {
                        buf@.len() as int
                    }),
            decreases self.memtable@.len() - i,
        {
            let key: u64 = self.memtable[i].0;
            let off: usize = buf.len();
            let ghost prev = buf@;
            encode_record(buf, key, &self.memtable[i].1);
            proof {
                let v = self.mem_entries()[i as int].1;
                assert(buf@.subrange(off as int, off as int + crate::codec::spec_record_bytes(
                    key,
                    v,
                ).len() as int) =~= crate::codec::spec_record_bytes(key, v));
                lemma_record_round_trip(buf@, off as int, key, v);
                assert forall|j: int| 0 <= j < i implies spec_decode_record(
                    buf@,
                    (#[trigger] index@[j]).1 as int,
                ) == Some((self.mem_entries()[j].0, self.mem_entries()[j].1)) by {
                    assert(buf@.subrange(0, prev.len() as int) =~= prev);
                    lemma_decode_stable(prev, buf@, index@[j].1 as int);
                }
            }
            index.push((key, off));
            proof {
                assert(buf@.subrange(0, old(buf)@.len() as int) =~= old(buf)@);
            }
            i += 1;
        }
        proof {
            assert forall|j: int|
                0 <= j < index@.len() implies (#[trigger] index@[j]).1
                    + crate::codec::spec_record_bytes(
                    index@[j].0,
                    self@.memtable[index@[j].0],
                ).len() == (if j + 1 < index@.len() {
                    index@[j + 1].1 as int
                } else {
                    buf@.len() as int
                }) by {
                assert(index@[j].0 == self.mem_entries()[j].0);
                assert(self@.memtable[index@[j].0] == self.mem_entries()[j].1);
            }
            assert forall|j1: int, j2: int|
                0 <= j1 < j2 < index@.len() implies (#[trigger] index@[j1]).0
                    < (#[trigger] index@[j2]).0 by {
                assert(self.mem_entries()[j1].0 < self.mem_entries()[j2].0);
            }
            assert forall|k: u64| self@.memtable.contains_key(k) implies exists|j: int|
                0 <= j < index@.len() && (#[trigger] index@[j]).0 == k by {
                let j = choose|j: int|
                    0 <= j < self.mem_entries().len() && (#[trigger] self.mem_entries()[j]).0 == k;
                assert(index@[j].0 == k);
            }
        }
        index
    }

    /// Seals the whole memtable as one new segment, appended as the newest
    /// generation with an empty tombstone set, and clears the memtable.
    pub fn flush_memtable(&mut self) -> (r: Result<(), LsmError>)
        requires
            old(self).wf(),
        ensures
            final(self).wf(),
            final(self)@ == store_flush(old(self)@),
            r is Ok,
    {
        let mut buf: Vec<u8> = Vec::new();
        let index = self.write_buffer(&mut buf);
        let ghost contents = self@.memtable;
        let seg = Segment { data: buf, index, tombstones: Vec::new(), contents: Ghost(contents) };
        proof {
            assert(seg.wf());
            assert(seg@ =~= (SegmentModel { contents, tombstones: Set::<u64>::empty() }));
        }
        self.sstables.push(seg);
        self.memtable = Vec::new();
        proof {
            assert(self.mem_entries() =~= Seq::<(u64, VectorModel)>::empty());
            assert(assoc_to_map(self.mem_entries()) =~= Map::<u64, VectorModel>::empty());
            assert(self.sstables@.map_values(|s: Segment| s@) =~= old(self).sstables@.map_values(
                |s: Segment| s@,
            ).push(seg@));
            assert(self@ =~= store_flush(old(self)@));
        }
        Ok(())
    }

    /// Inserts the value under the key, overwriting any buffered value, and
    /// flushes the memtable when it has reached the configured threshold.
    /// One insert causes at most one flush.
    pub fn insert(&mut self, key: u64, value: Vector) -> (r: Result<(), LsmError>)
        requires
            old(self).wf(),
            value@.data.len() <= MAX_VEC_DATA_LEN,
        ensures
            final(self).wf(),
            final(self)@ == store_insert(old(self)@, key, value@),
            r is Ok,
    {
        let ghost v = value@;
        self.memtable_put(key, value);
        proof {
            self.lemma_mem_keys_distinct();
            lemma_assoc_to_map(self.mem_entries());
            assert(self@.memtable.len() == self.memtable@.len());
        }
        if self.memtable.len() >= self.sstable_size {
            let _ = self.flush_memtable();
            proof {
                assert(self@ =~= store_insert(old(self)@, key, v));
            }
        } else {
            proof {
                assert(self@ =~= store_insert(old(self)@, key, v));
            }
        }
        Ok(())
    }

    /// Looks the key up: the memtable's value when buffered, else the newest
    /// segment generation's value, unless a newer generation tombstones the
    /// key.
    pub fn get(&self, key: u64) -> (r: Option<Vector>)
        requires
            self.wf(),
        ensures
            match r {
                Some(v) => store_get(self@, key) == Some(v@),
                None => store_get(self@, key) is None,
            },
    {
        proof {
            self.lemma_mem_keys_distinct();
            lemma_assoc_to_map(self.mem_entries());
        }
        if let Some(j) = self.memtable_find(key) {
            let v = self.memtable[j].1.clone();
            proof {
                assert(self.mem_entries()[j as int] == (key, v@));
            }
            return Some(v);
        }
        let ghost segs = self@.segments;
        proof {
            assert(!self@.memtable.contains_key(key));
            assert(segs.take(segs.len() as int) =~= segs);
        }
        let mut i: usize = self.sstables.len();
        while i > 0
            invariant
                self.wf(),
                i <= self.sstables@.len(),
                segs == self@.segments,
                !self@.memtable.contains_key(key),
                segments_get(segs, key) == segments_get(segs.take(i as int), key),
            decreases i,
        {
            i -= 1;
            let seg = &self.sstables[i];
            proof {
                assert(segs[i as int] == seg@);
                assert(segs.take(i as int + 1).last() == seg@);
                assert(segs.take(i as int + 1).drop_last() =~= segs.take(i as int));
            }
            if seg.has_tombstone(key) {
                return None;
            }
            match seg.find_offset(key) {
                Some(off) => {
                    let res = decode_record(seg.data.as_slice(), off);
                    match res {
                        Ok((k, v)) => {
                            proof {
                                assert(v@ == seg@.contents[key]);
                                assert(segments_get(segs.take(i as int + 1), key) == Some(
                                    seg@.contents[key],
                                ));
                            }
                            return Some(v);
                        },
                        Err(_) => {
                            proof {
                                assert(false);
                            }
                            return None;
                        },
                    }
                },
                None => {
                },
            }
        }
        proof {
            assert(segs.take(0) =~= Seq::<SegmentModel>::empty());
        }
        None
    }

    /// The position of the newest segment whose records hold the key, if
    /// any segment's do.
    fn newest_sstable_with_key(&self, key: u64) -> (r: Option<usize>)
        requires
            self.wf(),
        ensures
            match r {
                Some(i) => i < self@.segments.len()
                    && self@.segments[i as int].contents.contains_key(key)
                    && newest_segment_with_key(self@.segments, key) == i as int,
                None => !exists|t: int|
                    0 <= t < self@.segments.len() && (#[trigger] self@.segments[t]).contents.contains_key(key),
            },
    {
        let ghost segs = self@.segments;
        let mut i: usize = self.sstables.len();
        while i > 0
            invariant
                self.wf(),
                i <= self.sstables@.len(),
                segs == self@.segments,
                forall|t: int|
                    i <= t < segs.len() ==> !(#[trigger] segs[t]).contents.contains_key(key),
            decreases i,
        {
            i -= 1;
            proof {
                assert(segs[i as int] == self.sstables@[i as int]@);
            }
            if self.sstables[i].find_offset(key).is_some() {
                proof {
                    lemma_newest_segment(segs, key, i as int);
                }
                return Some(i);
            }
        }
        None
    }

    /// Deletes the key: removes it from the memtable when buffered there;
    /// otherwise tombstones the newest segment that indexes it; otherwise
    /// fails with a not-found error and changes nothing.
    pub fn delete(&mut self, key: u64) -> (r: Result<(), LsmError>)
        requires
            old(self).wf(),
        ensures
            final(self).wf(),
            final(self)@ == store_delete(old(self)@, key),
            r is Ok <==> store_delete_found(old(self)@, key),
            r is Err ==> r == Err::<(), LsmError>(LsmError::NotFound),
    {
        if self.memtable_remove(key) {
            proof {
                assert(self@ =~= store_delete(old(self)@, key));
            }
            return Ok(());
        }
        match self.newest_sstable_with_key(key) {
            Some(i) => {
                let ghost oldseg = self.sstables@[i as int];
                let already = self.sstables[i].has_tombstone(key);
                if !already {
                    self.sstables[i].tombstones.push(key);
                }
                proof {
                    let news = self.sstables@[i as int];
                    let oldsegs = old(self)@.segments;
                    assert(self.sstables@ =~= old(self).sstables@.update(i as int, news));
                    if !already {
                        lemma_seq_to_set_push(oldseg.tombstones@, key);
                        assert(news@ =~= (SegmentModel {
                            tombstones: oldseg@.tombstones.insert(key),
                            ..oldseg@
                        }));
                        assert(news.wf());
                    } else {
                        assert(news == oldseg);
                        assert(oldseg@.tombstones.insert(key) =~= oldseg@.tombstones);
                        assert(news@ =~= (SegmentModel {
                            tombstones: oldseg@.tombstones.insert(key),
                            ..oldseg@
                        }));
                    }
                    assert(self@.segments =~= oldsegs.update(
                        i as int,
                        SegmentModel { tombstones: oldseg@.tombstones.insert(key), ..oldseg@ },
                    ));
                    assert(self@ =~= store_delete(old(self)@, key));
                }
                Ok(())
            },
            None => {
                proof {
                    lemma_no_segment_with_key(old(self)@.segments, key);
                    assert(self@ =~= store_delete(old(self)@, key));
                }
                Err(LsmError::NotFound)
            },
        }
    }

    /// The byte image of the given segment's record stream, as written to
    /// its backing file: it holds a parsable record for every key the
    /// segment indexes.
    pub fn segment_bytes(&self, i: usize) -> (r: &Vec<u8>)
        requires
            self.wf(),
            i < self@.segments.len(),
        ensures
            forall|k: u64|
                self@.segments[i as int].contents.contains_key(k) ==> exists|off: int|
                    spec_decode_record(r@, off) == Some(
                        (k, #[trigger] self@.segments[i as int].contents[k]),
                    ),
    {
        let seg = &self.sstables[i];
        proof {
            assert(self@.segments[i as int] == seg@);
            assert forall|k: u64| seg@.contents.contains_key(k) implies exists|off: int|
                spec_decode_record(seg.data@, off) == Some(
                    (k, #[trigger] seg@.contents[k]),
                ) by {
                let j = choose|j: int|
                    0 <= j < seg.index@.len() && (#[trigger] seg.index@[j]).0 == k;
                let off = seg.index@[j].1 as int;
                assert(spec_decode_record(seg.data@, off) == Some((k, seg@.contents[k])));
            }
        }
        &seg.data
    }

    /// Parses the record starting at `offset` of a growable in-memory
    /// buffer, returning its key and vector.
    pub fn read_value_from_buffer(&self, buf: &Vec<u8>, offset: usize) -> (r: Result<
        (u64, Vector),
        LsmError,
    >)
        ensures
            match r {
                Ok((key, v)) => spec_decode_record(buf@, offset as int) == Some((key, v@)),
                Err(e) => spec_decode_record(buf@, offset as int) is None && e
                    == LsmError::MalformedRecord,
            },
    {
        decode_record(buf.as_slice(), offset)
    }

    /// Parses the record starting at `offset` of a read-only mapped byte
    /// range, returning its key and vector.  The semantics are identical to
    /// reading from an in-memory buffer.
    pub fn read_value_from_sstable(&self, data: &[u8], offset: usize) -> (r: Result<
        (u64, Vector),
        LsmError,
    >)
        ensures
            match r {
                Ok((key, v)) => spec_decode_record(data@, offset as int) == Some((key, v@)),
                Err(e) => spec_decode_record(data@, offset as int) is None && e
                    == LsmError::MalformedRecord,
            },
    {
        decode_record(data, offset)
    }

    /// The position of the memtable entry holding the key, if any.
    fn memtable_find(&self, key: u64) -> (r: Option<usize>)
        requires
            self.wf(),
        ensures
            match r {
                Some(j) => j < self.memtable@.len() && self.memtable@[j as int].0 == key,
                None => forall|j: int|
                    0 <= j < self.memtable@.len() ==> (#[trigger] self.memtable@[j]).0 != key,
            },
    {
        let j = self.memtable_position(key);
        if j < self.memtable.len() && self.memtable[j].0 == key {
            Some(j)
        } else {
            proof {
                assert forall|t: int| 0 <= t < self.memtable@.len() implies (
                #[trigger] self.memtable@[t]).0 != key by {
                    if t >= j {
                        assert(self.memtable@[j as int].0 >= key);
                        if t > j {
                            assert(self.mem_entries()[j as int].0 < self.mem_entries()[t].0);
                        }
                    }
                }
            }
            None
        }
    }
}

} // verus!
