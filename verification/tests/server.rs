use kvsys::kvserver::handle_request;
use kvsys::kvserver::scan_reply_chunks;
use kvsys::kvserver::KVServerConfig;
use kvsys::kvserver::protocol::ReplyChunk;
use kvsys::kvserver::protocol::Request;
use kvsys::kvstorage::KVStorage;
use kvsys::kvstorage::Key;
use kvsys::kvstorage::Value;
use kvsys::util::gen_key;
use kvsys::util::gen_key_n;
use kvsys::util::gen_value;

#[test]
fn handle_put_then_get() {
    let mut kv = KVStorage::new();
    let key = gen_key();
    let value = gen_value();

    let (chunks, close) = handle_request(&mut kv, Request::Put(key, value));
    assert!(!close);
    assert_eq!(chunks.len(), 1);
    match ReplyChunk::deserialize(chunks[0].clone()).unwrap() {
        ReplyChunk::Success => (),
        _ => panic!(),
    }

    let (chunks, close) = handle_request(&mut kv, Request::Get(key));
    assert!(!close);
    assert_eq!(chunks.len(), 1);
    match ReplyChunk::deserialize(chunks[0].clone()).unwrap() {
        ReplyChunk::SingleValue(v) => assert_eq!(v.unwrap(), value),
        _ => panic!(),
    }
}

#[test]
fn handle_get_missing() {
    let mut kv = KVStorage::new();
    let (chunks, _) = handle_request(&mut kv, Request::Get(gen_key()));
    match ReplyChunk::deserialize(chunks[0].clone()).unwrap() {
        ReplyChunk::SingleValue(v) => assert!(v.is_none()),
        _ => panic!(),
    }
}

#[test]
fn handle_delete_counts() {
    let mut kv = KVStorage::new();
    let key = gen_key();
    kv.put(&key, &gen_value()).unwrap();

    let (chunks, _) = handle_request(&mut kv, Request::Del(key));
    match ReplyChunk::deserialize(chunks[0].clone()).unwrap() {
        ReplyChunk::Number(n) => assert_eq!(n, 1),
        _ => panic!(),
    }

    let (chunks, _) = handle_request(&mut kv, Request::Del(gen_key_n(0x1234567890abcdef)));
    match ReplyChunk::deserialize(chunks[0].clone()).unwrap() {
        ReplyChunk::Number(n) => assert_eq!(n, 0),
        _ => panic!(),
    }
}

#[test]
fn handle_close() {
    let mut kv = KVStorage::new();
    let (chunks, close) = handle_request(&mut kv, Request::Close);
    assert!(close);
    assert!(chunks.is_empty());
}

fn reassemble(chunks: &[Vec<u8>]) -> Vec<(Key, Value)> {
    let mut out = Vec::new();
    assert!(chunks.last().unwrap().is_empty());
    for chunk in &chunks[..chunks.len() - 1] {
        assert!(!chunk.is_empty());
        match ReplyChunk::deserialize(chunk.clone()).unwrap() {
            ReplyChunk::KVPairs(ps) => out.extend(ps),
            _ => panic!(),
        }
    }
    out
}

#[test]
fn handle_scan_chunking_600() {
    let mut kv = KVStorage::new();
    let mut values = Vec::new();
    for i in 0..600 {
        let v = gen_value();
        values.push(v);
        kv.put(&gen_key_n(i), &v).unwrap();
    }

    let (chunks, close) = handle_request(&mut kv, Request::Scan(gen_key_n(0), gen_key_n(600)));
    assert!(!close);
    // 600 pairs travel as 248 + 248 + 104, then the empty sentinel.
    assert_eq!(chunks.len(), 4);
    let sizes: Vec<usize> = chunks[..3]
        .iter()
        .map(|c| match ReplyChunk::deserialize(c.clone()).unwrap() {
            ReplyChunk::KVPairs(ps) => ps.len(),
            _ => panic!(),
        })
        .collect();
    assert_eq!(sizes, vec![248, 248, 104]);
    assert!(chunks[3].is_empty());

    let pairs = reassemble(&chunks);
    assert_eq!(pairs.len(), 600);
    for (i, (k, v)) in pairs.iter().enumerate() {
        assert_eq!(*k, gen_key_n(i as u64));
        assert_eq!(*v, values[i]);
    }
}

#[test]
fn handle_scan_254() {
    let mut kv = KVStorage::new();
    for i in 0..255 {
        kv.put(&gen_key_n(i), &gen_value()).unwrap();
    }
    let (chunks, _) = handle_request(&mut kv, Request::Scan(gen_key_n(0), gen_key_n(254)));
    let pairs = reassemble(&chunks);
    assert_eq!(pairs.len(), 254);
}

#[test]
fn scan_chunks_empty_result() {
    let pairs: Vec<(Key, Value)> = Vec::new();
    let chunks = scan_reply_chunks(&pairs);
    assert_eq!(chunks.len(), 1);
    assert!(chunks[0].is_empty());
}

#[test]
fn scan_chunks_exact_multiple() {
    let mut pairs: Vec<(Key, Value)> = Vec::new();
    for i in 0..496 {
        pairs.push((gen_key_n(i), gen_value()));
    }
    let chunks = scan_reply_chunks(&pairs);
    assert_eq!(chunks.len(), 3);
    assert!(chunks[2].is_empty());
}

#[test]
fn default_config() {
    let config = KVServerConfig::from_default();
    assert_eq!(config.db_file, "data.kv");
    assert_eq!(config.listen_port, 1926);
    assert_eq!(config.threads, 4);
}
