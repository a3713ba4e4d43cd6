use lsmstore::error::LsmError;
use lsmstore::lsm::LSMTree;
use lsmstore::vector::Vector;

fn vec_of(id: u64, components: &[f64]) -> Vector {
    let mut bits: Vec<u64> = Vec::new();
    for c in components {
        bits.push(c.to_bits());
    }
    Vector::new(id, bits)
}

#[test]
fn round_trip_one_record() {
    let lsm = LSMTree::new(10, 10);
    let mut buf: Vec<u8> = Vec::new();
    let v = vec_of(7, &[1.5, -2.25, 0.0]);
    lsmstore::codec::encode_record(&mut buf, 7, &v);
    let (key, decoded) = lsm.read_value_from_buffer(&buf, 0).unwrap();
    assert_eq!(key, 7);
    assert_eq!(decoded, v);
}

#[test]
fn round_trip_second_record_at_offset() {
    let lsm = LSMTree::new(10, 10);
    let mut buf: Vec<u8> = Vec::new();
    let v1 = vec_of(1, &[3.0]);
    let v2 = vec_of(2, &[4.0, 5.0]);
    lsmstore::codec::encode_record(&mut buf, 1, &v1);
    let offset = buf.len();
    lsmstore::codec::encode_record(&mut buf, 2, &v2);
    let (key, decoded) = lsm.read_value_from_sstable(&buf, offset).unwrap();
    assert_eq!(key, 2);
    assert_eq!(decoded, v2);
}

#[test]
fn record_layout_exact_bytes() {
    let mut buf: Vec<u8> = Vec::new();
    let v = Vector::new(2, vec![3u64]);
    lsmstore::codec::encode_record(&mut buf, 1, &v);
    let expected: Vec<u8> = vec![
        1, 0, 0, 0, 0, 0, 0, 0, // key, little endian
        20, 0, 0, 0, // body length: 12 + 8 * 1
        2, 0, 0, 0, 0, 0, 0, 0, // identifier
        1, 0, 0, 0, // component count
        3, 0, 0, 0, 0, 0, 0, 0, // component
    ];
    assert_eq!(buf, expected);
}

#[test]
fn malformed_record_truncated_header() {
    let lsm = LSMTree::new(10, 10);
    let buf: Vec<u8> = vec![1, 2, 3];
    assert_eq!(
        lsm.read_value_from_buffer(&buf, 0),
        Err(LsmError::MalformedRecord)
    );
}

#[test]
fn malformed_record_length_overruns_buffer() {
    let lsm = LSMTree::new(10, 10);
    let mut buf: Vec<u8> = Vec::new();
    let v = Vector::new(2, vec![3u64]);
    lsmstore::codec::encode_record(&mut buf, 1, &v);
    buf.truncate(buf.len() - 1);
    assert_eq!(
        lsm.read_value_from_buffer(&buf, 0),
        Err(LsmError::MalformedRecord)
    );
}

#[test]
fn memtable_first_precedence() {
    let mut lsm = LSMTree::new(10, 10);
    let v1 = vec_of(1, &[1.0]);
    let v2 = vec_of(1, &[2.0, 3.0]);
    let _ = lsm.insert(1, v1);
    let _ = lsm.insert(1, v2.clone());
    assert_eq!(lsm.get(1).unwrap(), v2);
    assert_eq!(lsm.memtable_len(), 1);
}

#[test]
fn flush_preserves_visibility() {
    let mut lsm = LSMTree::new(3, 10);
    let values: Vec<Vector> = (0..3).map(|i| vec_of(i, &[i as f64, 0.5])).collect();
    for (i, v) in values.iter().enumerate() {
        let _ = lsm.insert(i as u64, v.clone());
    }
    assert_eq!(lsm.sstable_count(), 1);
    assert_eq!(lsm.memtable_len(), 0);
    for (i, v) in values.iter().enumerate() {
        assert_eq!(lsm.get(i as u64).unwrap(), *v);
    }
}

#[test]
fn tombstone_shadows_older_generations() {
    let mut lsm = LSMTree::new(1, 10);
    let v1 = vec_of(1, &[1.0]);
    let v2 = vec_of(2, &[2.0]);
    let _ = lsm.insert(1, v1); // flushes: segment 0 holds key 1
    let _ = lsm.insert(2, v2); // flushes: segment 1 holds key 2
    assert_eq!(lsm.sstable_count(), 2);
    assert!(lsm.delete(1).is_ok());
    assert!(lsm.get(1).is_none());
    // the shadowed record is still present in the older segment
    assert!(lsm.segment_has_key(0, 1));
    assert_eq!(lsm.tombstone_count(0), 1);
}

#[test]
fn delete_before_flush_needs_no_tombstone() {
    let mut lsm = LSMTree::new(10, 10);
    let _ = lsm.insert(1, vec_of(1, &[1.0]));
    let _ = lsm.insert(2, vec_of(2, &[2.0]));
    assert!(lsm.delete(1).is_ok());
    let _ = lsm.flush_memtable();
    assert_eq!(lsm.sstable_count(), 1);
    assert!(!lsm.segment_has_key(0, 1));
    assert!(lsm.segment_has_key(0, 2));
    assert_eq!(lsm.tombstone_count(0), 0);
    assert!(lsm.get(1).is_none());
}

#[test]
fn delete_unknown_key_fails() {
    let mut lsm = LSMTree::new(10, 10);
    assert_eq!(lsm.delete(42), Err(LsmError::NotFound));
    let _ = lsm.insert(1, vec_of(1, &[1.0]));
    assert_eq!(lsm.delete(42), Err(LsmError::NotFound));
}

#[test]
fn threshold_scenario() {
    let mut lsm = LSMTree::new(10, 10);
    let values: Vec<Vector> = (0..10).map(|i| vec_of(i, &[i as f64, -1.0])).collect();
    for i in 0..9 {
        let _ = lsm.insert(i as u64, values[i].clone());
        assert_eq!(lsm.sstable_count(), 0);
    }
    let _ = lsm.insert(9, values[9].clone());
    assert_eq!(lsm.sstable_count(), 1);
    assert_eq!(lsm.memtable_len(), 0);
    assert_eq!(lsm.get(5).unwrap(), values[5]);
    assert!(lsm.delete(5).is_ok());
    assert_eq!(lsm.tombstone_count(0), 1);
    assert!(lsm.get(5).is_none());
    assert_eq!(lsm.get(3).unwrap(), values[3]);
}

#[test]
fn flush_of_empty_memtable_makes_empty_segment() {
    let mut lsm = LSMTree::new(10, 10);
    let _ = lsm.flush_memtable();
    assert_eq!(lsm.sstable_count(), 1);
    assert!(!lsm.segment_has_key(0, 1));
    assert!(lsm.get(1).is_none());
}

#[test]
fn reinsert_after_delete_is_visible() {
    let mut lsm = LSMTree::new(1, 10);
    let _ = lsm.insert(1, vec_of(1, &[1.0]));
    assert!(lsm.delete(1).is_ok());
    assert!(lsm.get(1).is_none());
    let v2 = vec_of(1, &[9.0]);
    let _ = lsm.insert(1, v2.clone());
    assert_eq!(lsm.get(1).unwrap(), v2);
}

#[test]
fn config_getters() {
    let lsm = LSMTree::new(10, 7);
    assert_eq!(lsm.flush_threshold(), 10);
    assert_eq!(lsm.max_open_segments(), 7);
    assert_eq!(lsm.sstable_count(), 0);
    assert_eq!(lsm.memtable_len(), 0);
}

#[test]
fn empty_vector_round_trips() {
    let lsm = LSMTree::new(10, 10);
    let mut buf: Vec<u8> = Vec::new();
    let v = Vector::new(5, Vec::new());
    lsmstore::codec::encode_record(&mut buf, 5, &v);
    assert_eq!(buf.len(), 24);
    let (key, decoded) = lsm.read_value_from_buffer(&buf, 0).unwrap();
    assert_eq!(key, 5);
    assert_eq!(decoded, v);
    assert_eq!(decoded.data().len(), 0);
}
