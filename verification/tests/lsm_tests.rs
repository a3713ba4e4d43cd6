use lsmstore::lsm::LSMTree;
use lsmstore::vector::Vector;
use rand::RngExt;

#[test]
fn test_write_read_buf() {
    let mut lsm = LSMTree::new(10, 10);
    let k1: u64 = 1;
    let v1 = Vector::new(k1, vec![0.0f64.to_bits(), 1.0f64.to_bits()]);
    let _ = lsm.insert(1, v1.clone());
    let mut buf: Vec<u8> = Vec::new();
    let _index = lsm.write_buffer(&mut buf);

    let Ok((k2, v2)) = lsm.read_value_from_buffer(&buf, 0) else {
        panic!("could not read from buffer")
    };

    assert_eq!(k1, k2);
    assert_eq!(v1, v2);
    assert_eq!(v1.id(), v2.id());
    assert_eq!(v1.data(), v2.data());
}

#[test]
fn test_write_read_memtable() {
    let mut rng = rand::rng();
    let mut lsm = LSMTree::new(10, 10);
    let v0 = Vector::new(
        5,
        vec![
            rng.random::<f64>().to_bits(),
            rng.random::<f64>().to_bits(),
            rng.random::<f64>().to_bits(),
        ],
    );

    for i in 0..8 {
        if i == 5 {
            let _ = lsm.insert(5, v0.clone());
        } else {
            let _ = lsm.insert(
                i,
                Vector::new(
                    i,
                    vec![
                        rng.random::<f64>().to_bits(),
                        rng.random::<f64>().to_bits(),
                        rng.random::<f64>().to_bits(),
                    ],
                ),
            );
        }
    }

    let val = lsm.get(5);
    assert_eq!(val.unwrap().id(), 5);
}

#[test]
fn test_write_read_sstable() {
    let mut rng = rand::rng();
    let mut lsm = LSMTree::new(10, 10);
    let v0 = Vector::new(
        49,
        vec![
            rng.random::<f64>().to_bits(),
            rng.random::<f64>().to_bits(),
            rng.random::<f64>().to_bits(),
        ],
    );

    for i in 0..100 {
        if i == 49 {
            let _ = lsm.insert(49, v0.clone());
        } else {
            let _ = lsm.insert(
                i,
                Vector::new(
                    i,
                    vec![
                        rng.random::<f64>().to_bits(),
                        rng.random::<f64>().to_bits(),
                        rng.random::<f64>().to_bits(),
                    ],
                ),
            );
        }
    }

    let _ = lsm.flush_memtable();

    let val = lsm.get(49);
    assert_eq!(val.unwrap().id(), 49);
}

#[test]
fn test_delete_from_memtable() {
    let mut lsm = LSMTree::new(10, 10);
    let k1: u64 = 1;
    let v1 = Vector::new(k1, vec![0.0f64.to_bits(), 1.0f64.to_bits()]);
    let _ = lsm.insert(1, v1.clone());
    assert!(lsm.delete(1).is_ok());

    assert_eq!(lsm.memtable_len(), 0);
}

#[test]
fn test_delete_from_sstable() {
    let mut lsm = LSMTree::new(10, 10);
    let k1: u64 = 1;
    let v1 = Vector::new(k1, vec![0.0f64.to_bits(), 1.0f64.to_bits()]);
    let _ = lsm.insert(1, v1.clone());
    let _ = lsm.flush_memtable();
    assert!(lsm.delete(1).is_ok());

    assert_eq!(lsm.memtable_len(), 0);
    assert_eq!(lsm.tombstone_count(0), 1);
}

#[test]
fn test_delete_no_key() {
    let mut lsm = LSMTree::new(10, 10);
    let result = lsm.delete(1);
    assert!(result.is_err());
    assert!(matches!(result, Err(_)));
}

#[test]
fn test_delete_prevents_get_memtable() {
    let mut lsm = LSMTree::new(10, 10);
    let k1: u64 = 1;
    let v1 = Vector::new(k1, vec![0.0f64.to_bits(), 1.0f64.to_bits()]);
    let _ = lsm.insert(1, v1.clone());
    assert!(lsm.delete(1).is_ok());

    assert!(lsm.get(1).is_none());
}

#[test]
fn test_delete_prevents_get_sstable() {
    let mut lsm = LSMTree::new(10, 10);
    let k1: u64 = 1;
    let v1 = Vector::new(k1, vec![0.0f64.to_bits(), 1.0f64.to_bits()]);
    let _ = lsm.insert(1, v1.clone());
    let _ = lsm.flush_memtable();
    assert!(lsm.delete(1).is_ok());

    assert!(lsm.get(1).is_none());
}
