use kvsys::kvstorage::KVStorage;
use kvsys::kvstorage::Key;
use kvsys::util::gen_key;
use kvsys::util::gen_key_n;
use kvsys::util::gen_value;

#[test]
fn test_encode_raw() {
    let flat = [0x40u8, 0x49, 0x0f, 0xd0, 0xca, 0xfe, 0xba, 0xbe];
    let expected = 0x40490fd0cafebabeu64;
    let encoded = Key::encode_raw(&flat);
    assert_eq!(encoded, expected);

    let decoded = Key::decode(encoded);
    assert_eq!(decoded, Key::from_slice(&flat));
}

#[test]
fn test_encode() {
    let flat = [0x00u8, 0x00, 0x00, 0x00, 0x00, 0x3c, 0x9a, 0x0e];
    let flat = Key::from_slice(&flat);
    let expected = 0x3c9a0eu64;
    let encoded = flat.encode();
    assert_eq!(encoded, expected);

    let decoded = Key::decode(encoded);
    assert_eq!(decoded, flat);
}

#[test]
fn test_encode_key() {
    let flat: [u8; 8] = [0x40, 0x49, 0x0f, 0xd0, 0xca, 0xfe, 0xba, 0xbe];
    let expected = 0x40490fd0cafebabeu64;
    let encoded = Key::encode_raw(&flat);
    assert_eq!(encoded, expected);

    let decoded = Key::decode(encoded);
    assert_eq!(decoded.data, flat);
}

#[test]
fn test_encode_key_2() {
    let flat: [u8; 8] = [0x00, 0x00, 0x00, 0x00, 0x00, 0x3c, 0x9a, 0x0e];
    let expected = 0x3c9a0eu64;
    let encoded = Key::encode_raw(&flat);
    assert_eq!(encoded, expected);

    let decoded = Key::decode(encoded);
    assert_eq!(decoded.data, flat);
}

#[test]
fn test_basic_rw() {
    let mut kv = KVStorage::new();

    let (key, value) = (gen_key(), gen_value());
    kv.put(&key, &value).unwrap();

    assert_eq!(kv.get(&key).unwrap(), value);
}

#[test]
fn test_persist_storage() {
    let (key, value) = (gen_key(), gen_value());

    let log;
    {
        let mut kv = KVStorage::new();
        kv.put(&key, &value).unwrap();
        log = kv.log_bytes().clone();
    }

    {
        let kv = KVStorage::from_existing_file(log).unwrap();
        assert_eq!(kv.get(&key).unwrap(), value);
    }
}

#[test]
fn test_rw_some() {
    let mut kv = KVStorage::new();

    let mut keys = Vec::new();
    let mut values = Vec::new();
    for i in 0..255 {
        let (key, value) = (gen_key_n(i), gen_value());
        keys.push(key);
        values.push(value);
        kv.put(&key, &value).unwrap();
    }

    for i in 0..255 {
        let key = keys[i];
        let value = values[i];
        assert_eq!(kv.get(&key).unwrap(), value);
    }
}

#[test]
fn test_persist_some() {
    let mut keys = Vec::new();
    let mut values = Vec::new();
    let log;
    {
        let mut kv = KVStorage::new();
        for i in 0..255 {
            let (key, value) = (gen_key_n(i), gen_value());
            keys.push(key);
            values.push(value);
            kv.put(&key, &value).unwrap();
        }
        log = kv.log_bytes().clone();
    }

    {
        let kv = KVStorage::from_existing_file(log).unwrap();
        for i in 0..255 {
            let key = keys[i];
            let value = values[i];
            assert_eq!(kv.get(&key).unwrap(), value);
        }
    }
}

#[test]
fn test_persist_with_delete() {
    let mut keys = Vec::new();
    let mut keys_to_delete = Vec::new();
    let mut values = Vec::new();
    let log;
    {
        let mut kv = KVStorage::new();
        for i in 0..255 {
            let (key, value) = (gen_key_n(i), gen_value());
            keys.push(key);
            if rand::random() {
                values.push(Some(value));
            } else {
                values.push(None);
                keys_to_delete.push(key)
            }
            kv.put(&key, &value).unwrap();
        }

        for key in keys_to_delete.iter() {
            kv.delete(key).unwrap();
        }
        log = kv.log_bytes().clone();
    }

    {
        let kv = KVStorage::from_existing_file(log).unwrap();
        for i in 0..255 {
            let key = keys[i];
            if let Some(value) = values[i] {
                assert_eq!(kv.get(&key).unwrap(), value);
            } else {
                assert!(kv.get(&key).is_none());
            }
        }
    }
}

#[test]
fn fresh_engine_get_after_put() {
    let mut kv = KVStorage::new();
    let key = gen_key_n(0);
    let other = gen_key_n(1);
    let value = gen_value();
    kv.put(&key, &value).unwrap();
    assert_eq!(kv.get(&key).unwrap(), value);
    assert!(kv.get(&other).is_none());
}

#[test]
fn overwrite_and_log_length() {
    let mut kv = KVStorage::new();
    let key = gen_key();
    let (v1, v2) = (gen_value(), gen_value());
    kv.put(&key, &v1).unwrap();
    kv.put(&key, &v2).unwrap();
    assert_eq!(kv.get(&key).unwrap(), v2);
    assert_eq!(kv.log_bytes().len(), 530);
}

#[test]
fn delete_then_get_and_repeat() {
    let mut kv = KVStorage::new();
    let key = gen_key();
    let value = gen_value();
    assert_eq!(kv.delete(&key).unwrap(), 0);
    kv.put(&key, &value).unwrap();
    assert_eq!(kv.delete(&key).unwrap(), 1);
    assert!(kv.get(&key).is_none());
    // The tombstone keeps the key in the index, so deleting again still
    // reports one affected entry.
    assert_eq!(kv.delete(&key).unwrap(), 1);
    assert_eq!(kv.log_bytes().len(), 265 + 9 + 9);
}

#[test]
fn scan_ranges() {
    let mut kv = KVStorage::new();
    let mut values = Vec::new();
    for i in 0..255 {
        let value = gen_value();
        values.push(value);
        kv.put(&gen_key_n(i), &value).unwrap();
    }

    let all = kv.scan(&gen_key_n(0), &gen_key_n(255));
    assert_eq!(all.len(), 255);
    for (i, (k, v)) in all.iter().enumerate() {
        assert_eq!(*k, gen_key_n(i as u64));
        assert_eq!(*v, values[i]);
    }

    let window = kv.scan(&gen_key_n(10), &gen_key_n(20));
    assert_eq!(window.len(), 10);
    for (i, (k, _)) in window.iter().enumerate() {
        assert_eq!(*k, gen_key_n(10 + i as u64));
    }
}

#[test]
fn scan_skips_tombstones() {
    let mut kv = KVStorage::new();
    for i in 0..10 {
        kv.put(&gen_key_n(i), &gen_value()).unwrap();
    }
    kv.delete(&gen_key_n(3)).unwrap();
    kv.delete(&gen_key_n(7)).unwrap();
    let pairs = kv.scan(&gen_key_n(0), &gen_key_n(10));
    assert_eq!(pairs.len(), 8);
    for (k, _) in pairs.iter() {
        let n = k.encode();
        assert!(n != 3 && n != 7);
    }
}

#[test]
fn recovery_rejects_corrupt_log() {
    // An unknown tag byte.
    assert!(KVStorage::from_existing_file(vec![0x58, 1, 2, 3]).is_err());
    // A truncated PUT record.
    let mut kv = KVStorage::new();
    kv.put(&gen_key(), &gen_value()).unwrap();
    let mut log = kv.log_bytes().clone();
    log.pop();
    assert!(KVStorage::from_existing_file(log).is_err());
    // A dangling delete is tolerated.
    let mut dangling = vec![0x44];
    dangling.extend_from_slice(&[0u8; 8]);
    let recovered = KVStorage::from_existing_file(dangling).unwrap();
    assert!(recovered.get(&gen_key_n(0)).is_none());
}

#[test]
fn key_order_matches_encoding() {
    let k1 = Key::from_slice(&[0, 0, 0, 0, 0, 0, 1, 0]);
    let k2 = Key::from_slice(&[0, 0, 0, 0, 0, 0, 0, 255]);
    assert!(k1.encode() > k2.encode());
    let k3 = Key::from_slice(&[1, 0, 0, 0, 0, 0, 0, 0]);
    assert!(k3.encode() > k1.encode());
    assert_eq!(gen_key_n(0x40490fd0cafebabe).data, [0x40, 0x49, 0x0f, 0xd0, 0xca, 0xfe, 0xba, 0xbe]);
}

#[test]
fn compare_is_lexicographic() {
    let a = Key::from_slice(&[0, 0, 0, 0, 0, 0, 0, 255]);
    let b = Key::from_slice(&[0, 0, 0, 0, 0, 0, 1, 0]);
    assert_eq!(Key::compare(&a, &b), std::cmp::Ordering::Less);
    assert_eq!(Key::compare(&b, &a), std::cmp::Ordering::Greater);
    assert_eq!(Key::compare(&a, &a), std::cmp::Ordering::Equal);
}

#[test]
fn log_is_append_only() {
    let mut kv = KVStorage::new();
    let mut prefix = kv.log_bytes().clone();
    for i in 0..20 {
        if i % 3 == 0 && i > 0 {
            kv.delete(&gen_key_n(i / 3)).unwrap();
        } else {
            kv.put(&gen_key_n(i), &gen_value()).unwrap();
        }
        let now = kv.log_bytes();
        assert!(now.len() >= prefix.len());
        assert_eq!(&now[..prefix.len()], prefix.as_slice());
        prefix = now.clone();
    }
}
