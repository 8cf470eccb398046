use cachekv::{Aes256Cipher, Db, Direction, Encrypt, IteratorMode, Store, VecStore,
    prepare_nonce};

#[test]
fn vec_store_point_ops() {
    let mut s = VecStore::new();
    assert_eq!(s.get(b"a").unwrap(), None);
    s.put(b"a", b"1").unwrap();
    s.put(b"b", b"2").unwrap();
    assert_eq!(s.get(b"a").unwrap(), Some(b"1".to_vec()));
    s.put(b"a", b"3").unwrap();
    assert_eq!(s.get(b"a").unwrap(), Some(b"3".to_vec()));
    s.delete(b"a").unwrap();
    assert_eq!(s.get(b"a").unwrap(), None);
    assert_eq!(s.get(b"b").unwrap(), Some(b"2".to_vec()));
}

#[test]
fn vec_store_ordered_scans() {
    let mut s = VecStore::new();
    // Inserted out of order; scans follow byte order.
    s.put(b"banana", b"2").unwrap();
    s.put(b"apple", b"1").unwrap();
    s.put(b"cherry", b"3").unwrap();
    let first = s.first_at_or_after(b"").unwrap().unwrap();
    assert_eq!(first.0, b"apple".to_vec());
    let next = s.first_after(b"apple").unwrap().unwrap();
    assert_eq!(next.0, b"banana".to_vec());
    let last = s.last().unwrap().unwrap();
    assert_eq!(last.0, b"cherry".to_vec());
    let before = s.last_before(b"cherry").unwrap().unwrap();
    assert_eq!(before.0, b"banana".to_vec());
    assert!(s.first_after(b"cherry").unwrap().is_none());
}

#[test]
fn db_put_get_round_trip() {
    let mut db: Db<u64, VecStore> = Db::open(VecStore::new());
    assert!(db.get(&7).unwrap().is_none());
    db.put(&7, &"seven".to_string()).unwrap();
    let v = db.get(&7).unwrap().unwrap();
    assert_eq!(v.to_inner::<String>().unwrap(), "seven");
    assert!(db.contains_key(&7).unwrap());
    db.delete(&7).unwrap();
    assert!(!db.contains_key(&7).unwrap());
}

#[test]
fn db_iteration_follows_domain_order() {
    let mut db: Db<u64, VecStore> = Db::open(VecStore::new());
    for k in [5u64, 1, 9, 3] {
        db.put(&k, &(k * 10)).unwrap();
    }
    let mut it = db.iter(IteratorMode::Start).unwrap();
    let mut keys = Vec::new();
    while let Some(kv) = it.next().unwrap() {
        keys.push(kv.key().unwrap());
        let _: u64 = kv.value().unwrap();
    }
    assert_eq!(keys, vec![1, 3, 5, 9]);

    let mut rev = db.iter(IteratorMode::End).unwrap();
    let mut rkeys = Vec::new();
    while let Some(kv) = rev.next().unwrap() {
        rkeys.push(kv.key().unwrap());
    }
    assert_eq!(rkeys, vec![9, 5, 3, 1]);

    let mut from = db.iter(IteratorMode::From(4, Direction::Forward)).unwrap();
    assert_eq!(from.next().unwrap().unwrap().key().unwrap(), 5);
    let mut back = db.iter(IteratorMode::From(4, Direction::Reverse)).unwrap();
    assert_eq!(back.next().unwrap().unwrap().key().unwrap(), 3);
}

#[test]
fn encrypted_db_round_trip() {
    let key = [7u8; 32];
    let mut db: Db<String, VecStore> = Db::open_encrypted(VecStore::new(), &key);
    db.put(&"k".to_string(), &"secret value".to_string()).unwrap();
    let v = db.get(&"k".to_string()).unwrap().unwrap();
    assert_eq!(v.to_inner::<String>().unwrap(), "secret value");
}

#[test]
fn cipher_round_trip_and_tamper_detection() {
    let cipher = Aes256Cipher::new(&[42u8; 32]);
    let nonce = b"key-bytes-used-as-nonce";
    let ct = cipher.encrypt(b"plaintext payload", nonce).unwrap();
    assert_ne!(ct.as_slice(), b"plaintext payload".as_slice());
    let pt = cipher.decrypt(&ct, nonce).unwrap();
    assert_eq!(pt, b"plaintext payload".to_vec());

    // Tampering with any ciphertext byte makes decryption fail.
    for i in 0..ct.len() {
        let mut bad = ct.clone();
        bad[i] ^= 1;
        assert!(cipher.decrypt(&bad, nonce).is_err(), "tampered byte {i} accepted");
    }

    // A different nonce fails as well.
    assert!(cipher.decrypt(&ct, b"another nonce").is_err());
}

#[test]
fn nonce_derivation_truncates_or_pads() {
    assert_eq!(prepare_nonce(b"0123456789abcdef"), b"0123456789ab".to_vec());
    assert_eq!(prepare_nonce(b"0123456789ab"), b"0123456789ab".to_vec());
    assert_eq!(prepare_nonce(b"short"), b"short\0\0\0\0\0\0\0".to_vec());
    assert_eq!(prepare_nonce(b""), vec![0u8; 12]);
}

#[test]
fn same_key_same_nonce_same_ciphertext() {
    // The nonce is a pure function of the key bytes, so rewriting the same
    // key and value reproduces the same stored bytes.
    let cipher = Aes256Cipher::new(&[1u8; 32]);
    let a = cipher.encrypt(b"v", b"some-key").unwrap();
    let b = cipher.encrypt(b"v", b"some-key").unwrap();
    assert_eq!(a, b);
}
