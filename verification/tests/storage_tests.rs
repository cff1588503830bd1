use heapstore::heapfile::HeapFile;
use heapstore::errors::StorageError;
use heapstore::registry::{decode_registry, encode_registry};
use heapstore::storage_manager::{Permissions, StorageManager, TransactionId};

fn get_byte_vec(size: usize) -> Vec<u8> {
    let mut v = Vec::new();
    let mut x: u8 = 11;
    for i in 0..size {
        x = x.wrapping_mul(41).wrapping_add(i as u8);
        v.push(x);
    }
    v
}

#[test]
fn hs_sm_a_insert() {
    let mut sm = StorageManager::new_test_sm();
    let cid = 1;
    sm.create_table(cid).unwrap();

    let bytes = get_byte_vec(40);
    let tid = TransactionId::new();

    let val1 = sm.insert_value(cid, bytes.clone(), tid);
    assert_eq!(1, sm.get_num_pages(cid));
    assert_eq!(0, val1.page_id.unwrap());
    assert_eq!(0, val1.slot_id.unwrap());

    let p1 = sm
        .get_page(cid, 0, tid, Permissions::ReadOnly, false)
        .unwrap();

    let val2 = sm.insert_value(cid, bytes, tid);
    assert_eq!(1, sm.get_num_pages(cid));
    assert_eq!(0, val2.page_id.unwrap());
    assert_eq!(1, val2.slot_id.unwrap());

    let p2 = sm
        .get_page(cid, 0, tid, Permissions::ReadOnly, false)
        .unwrap();
    assert_ne!(p1.get_bytes()[..], p2.get_bytes()[..]);
}

#[test]
fn hs_sm_b_iter_small() {
    let mut sm = StorageManager::new_test_sm();
    let cid = 1;
    sm.create_table(cid).unwrap();
    let tid = TransactionId::new();

    // One page of records.
    let mut byte_vec: Vec<Vec<u8>> = vec![
        get_byte_vec(400),
        get_byte_vec(400),
        get_byte_vec(400),
    ];
    for val in &byte_vec {
        sm.insert_value(cid, val.clone(), tid);
    }
    let mut iter = sm.get_iterator(cid, tid, Permissions::ReadOnly);
    let mut i = 0;
    while let Some(x) = iter.next() {
        assert_eq!(byte_vec[i], x);
        i += 1;
    }
    assert_eq!(byte_vec.len(), i);

    // Enough records to spill onto a second page.
    let mut byte_vec2: Vec<Vec<u8>> = vec![
        get_byte_vec(400),
        get_byte_vec(400),
        get_byte_vec(400),
        get_byte_vec(400),
    ];
    for val in &byte_vec2 {
        sm.insert_value(cid, val.clone(), tid);
    }
    byte_vec.append(&mut byte_vec2);
    let mut iter = sm.get_iterator(cid, tid, Permissions::ReadOnly);
    let mut i = 0;
    while let Some(x) = iter.next() {
        assert_eq!(byte_vec[i], x);
        i += 1;
    }
    assert_eq!(byte_vec.len(), i);

    // And a third.
    let mut byte_vec2: Vec<Vec<u8>> = vec![
        get_byte_vec(300),
        get_byte_vec(500),
        get_byte_vec(400),
    ];
    for val in &byte_vec2 {
        sm.insert_value(cid, val.clone(), tid);
    }
    byte_vec.append(&mut byte_vec2);
    let mut iter = sm.get_iterator(cid, tid, Permissions::ReadOnly);
    let mut i = 0;
    while let Some(x) = iter.next() {
        assert_eq!(byte_vec[i], x);
        i += 1;
    }
    assert_eq!(byte_vec.len(), i);
}

#[test]
fn sm_two_page_scan_scenario() {
    // A page holds ten 400-byte records (each costs 406 of the 4088 free
    // bytes), so fourteen of them must spill onto a second page; the scan
    // still yields all of them in insertion order.
    let mut sm = StorageManager::new_test_sm();
    sm.create_table(1).unwrap();
    let tid = TransactionId::new();
    let mut recs = Vec::new();
    for _ in 0..14 {
        recs.push(get_byte_vec(400));
    }
    for r in &recs {
        sm.insert_value(1, r.clone(), tid);
    }
    let mut iter = sm.get_iterator(1, tid, Permissions::ReadOnly);
    let mut i = 0;
    while let Some(x) = iter.next() {
        assert_eq!(recs[i], x);
        i += 1;
    }
    assert_eq!(14, i);
    assert!(sm.get_num_pages(1) >= 2);
}

#[test]
fn sm_delete_then_iterate() {
    let mut sm = StorageManager::new_test_sm();
    sm.create_table(4).unwrap();
    let tid = TransactionId::new();
    let a = get_byte_vec(50);
    let b = get_byte_vec(60);
    let c = get_byte_vec(70);
    let _va = sm.insert_value(4, a.clone(), tid);
    let vb = sm.insert_value(4, b.clone(), tid);
    let _vc = sm.insert_value(4, c.clone(), tid);
    sm.delete_value(vb, tid).unwrap();
    let mut iter = sm.get_iterator(4, tid, Permissions::ReadOnly);
    let mut got = Vec::new();
    while let Some(x) = iter.next() {
        got.push(x);
    }
    assert_eq!(vec![a, c], got);
}

#[test]
fn sm_update_value_moves_record() {
    let mut sm = StorageManager::new_test_sm();
    sm.create_table(9).unwrap();
    let tid = TransactionId::new();
    let a = get_byte_vec(30);
    let b = get_byte_vec(35);
    let va = sm.insert_value(9, a, tid);
    let vb = sm.update_value(b.clone(), va, tid).unwrap();
    let back = sm.get_value(vb, tid, Permissions::ReadOnly).unwrap();
    assert_eq!(b, back);
}

#[test]
fn sm_persistence_round_trip() {
    // Create a container, insert a record, persist the heap-file image and
    // the registry; rebuild a manager from them and read the record back.
    let mut sm = StorageManager::new_test_sm();
    sm.create_table(7).unwrap();
    let tid = TransactionId::new();
    let rec = get_byte_vec(120);
    sm.insert_value(7, rec.clone(), tid);

    let image = sm.container_image(7).unwrap();
    let ids = sm.container_ids();
    let mut entries: Vec<(u16, Vec<u8>)> = Vec::new();
    for cid in &ids {
        entries.push((*cid, format!("containers/heapfile_{}", cid).into_bytes()));
    }
    let doc = encode_registry(&entries);

    // "Restart": rebuild from the persisted bytes alone.
    let parsed = decode_registry(&doc).unwrap();
    assert_eq!(entries, parsed);
    let mut sm2 = StorageManager::new("".to_string());
    for (cid, _path) in &parsed {
        let hf = HeapFile::from_image(&image).unwrap();
        sm2.attach_container(*cid, hf).unwrap();
    }
    let mut iter = sm2.get_iterator(7, tid, Permissions::ReadOnly);
    assert_eq!(Some(rec), iter.next());
    assert_eq!(None, iter.next());
}

#[test]
fn registry_round_trip_empty_and_many() {
    let entries: Vec<(u16, Vec<u8>)> = Vec::new();
    let doc = encode_registry(&entries);
    assert_eq!(Some(entries), decode_registry(&doc));

    let entries = vec![
        (1u16, b"containers/heapfile_1".to_vec()),
        (42u16, b"containers/heapfile_42".to_vec()),
        (7u16, Vec::new()),
    ];
    let doc = encode_registry(&entries);
    assert_eq!(Some(entries), decode_registry(&doc));
    // A truncated document is rejected.
    let doc2 = encode_registry(&vec![(3u16, b"x".to_vec())]);
    assert_eq!(None, decode_registry(&doc2[..doc2.len() - 1].to_vec()));
}

#[test]
fn hf_image_round_trip() {
    let mut sm = StorageManager::new_test_sm();
    sm.create_table(2).unwrap();
    let tid = TransactionId::new();
    sm.insert_value(2, get_byte_vec(10), tid);
    sm.insert_value(2, get_byte_vec(4000), tid);
    let img = sm.container_image(2).unwrap();
    let hf2 = HeapFile::from_image(&img).unwrap();
    assert_eq!(img, hf2.to_image());
    // An image with a corrupted page is an input/output failure.
    let mut bad = img.clone();
    let n = bad.len();
    bad[n - 1] ^= 0xFF;
    assert!(HeapFile::from_image(&bad).is_err());
}

#[test]
fn sm_unknown_container_is_recoverable() {
    let mut sm = StorageManager::new_test_sm();
    sm.create_table(3).unwrap();
    let tid = TransactionId::new();
    let vid = sm.insert_value(3, get_byte_vec(12), tid);
    let mut stray = vid;
    stray.container_id = 99;
    assert_eq!(Err(StorageError::ContainerNotFound), sm.delete_value(stray, tid));
    assert_eq!(
        Err(StorageError::ContainerNotFound),
        sm.update_value(get_byte_vec(5), stray, tid).map(|_| ())
    );
    // The real record is untouched.
    assert!(sm.get_value(vid, tid, Permissions::ReadOnly).is_ok());
}
