use kvsys::kvserver::protocol::ReplyChunk;
use kvsys::kvserver::protocol::Request;
use kvsys::kvserver::protocol::ServerReplyChunk;
use kvsys::util::gen_key;
use kvsys::util::gen_value;

#[test]
fn request_serialize_scan() {
    for _ in 1..10 {
        let key1 = gen_key();
        let key2 = gen_key();
        let req = Request::Scan(key1, key2);
        let req1 = Request::deserialize_from(req.serialize()).unwrap();
        match req1 {
            Request::Scan(k1, k2) => {
                assert_eq!(k1, key1);
                assert_eq!(k2, key2);
            }
            _ => panic!(),
        }
    }
}

#[test]
fn request_serialize_put() {
    for _ in 1..10 {
        let key = gen_key();
        let value = gen_value();
        let req = Request::Put(key, value);
        let req1 = Request::deserialize_from(req.serialize()).unwrap();
        match req1 {
            Request::Put(k, v) => {
                assert_eq!(k, key);
                assert_eq!(v, value);
            }
            _ => panic!(),
        }
    }
}

#[test]
fn request_serialize_get() {
    for _ in 1..10 {
        let key = gen_key();
        let req = Request::Get(key);
        let req1 = Request::deserialize_from(req.serialize()).unwrap();
        match req1 {
            Request::Get(k) => {
                assert_eq!(k, key);
            }
            _ => panic!(),
        }
    }
}

#[test]
fn request_serialize_delete() {
    for _ in 1..10 {
        let key = gen_key();
        let req = Request::Del(key);
        let req1 = Request::deserialize_from(req.serialize()).unwrap();
        match req1 {
            Request::Del(k) => {
                assert_eq!(k, key);
            }
            _ => panic!(),
        }
    }
}

#[test]
fn request_serialize_close() {
    for _ in 1..10 {
        let req = Request::Close;
        let req1 = Request::deserialize_from(req.serialize()).unwrap();
        match req1 {
            Request::Close => (),
            _ => panic!(),
        }
    }
}

#[test]
fn reply_serialize_single_value() {
    for _ in 0..10 {
        let value = gen_value();
        let chunk =
            ReplyChunk::deserialize(ServerReplyChunk::SingleValue(Some(value)).serialize())
                .unwrap();
        match chunk {
            ReplyChunk::SingleValue(v) => {
                assert_eq!(v.unwrap(), value)
            }
            _ => panic!(),
        }
    }
}

#[test]
fn reply_serialize_number() {
    for _ in 0..10 {
        let num: u64 = rand::random();
        let chunk = ReplyChunk::deserialize(ServerReplyChunk::Number(num).serialize()).unwrap();
        match chunk {
            ReplyChunk::Number(n) => {
                assert_eq!(n, num);
            }
            _ => panic!(),
        }
    }
}

#[test]
fn reply_serialize_kv_pairs() {
    for _ in 0..10 {
        let mut pairs = Vec::new();
        for _ in 0..16 {
            let key = gen_key();
            let value = gen_value();
            pairs.push((key, value));
        }
        let chunk =
            ReplyChunk::deserialize(ServerReplyChunk::KVPairs(pairs.as_slice()).serialize())
                .unwrap();
        match chunk {
            ReplyChunk::KVPairs(ps) => {
                assert_eq!(ps.len(), pairs.len());
                for ((k1, v1), (k2, v2)) in ps.iter().zip(pairs.iter()) {
                    assert_eq!(k1, k2);
                    assert_eq!(v1, v2);
                }
            }
            _ => panic!(),
        }
    }
}

#[test]
fn reply_serialize_none_value() {
    let chunk = ReplyChunk::deserialize(ServerReplyChunk::SingleValue(None).serialize()).unwrap();
    match chunk {
        ReplyChunk::SingleValue(v) => assert!(v.is_none()),
        _ => panic!(),
    }
}

#[test]
fn reply_serialize_success_and_error() {
    match ReplyChunk::deserialize(ServerReplyChunk::Success.serialize()).unwrap() {
        ReplyChunk::Success => (),
        _ => panic!(),
    }
    match ReplyChunk::deserialize(ServerReplyChunk::Error.serialize()).unwrap() {
        ReplyChunk::Error => (),
        _ => panic!(),
    }
}

#[test]
fn request_deserialize_rejects_bad_input() {
    assert!(Request::deserialize_from(vec![0x47]).is_err());
    assert!(Request::deserialize_from(vec![0x47, 1, 2, 3, 4, 5, 6, 7, 8, 9]).is_err());
    assert!(Request::deserialize_from(vec![0x58, 0, 0, 0, 0, 0, 0, 0, 0]).is_err());
    let mut close_with_junk = vec![0x43];
    close_with_junk.push(0);
    assert!(Request::deserialize_from(close_with_junk).is_err());
}

#[test]
fn reply_deserialize_rejects_bad_input() {
    assert!(ReplyChunk::deserialize(vec![0x53, 1, 2, 3]).is_err());
    assert!(ReplyChunk::deserialize(vec![0x4e, 1, 2, 3]).is_err());
    assert!(ReplyChunk::deserialize(vec![0x50, 1, 2, 3]).is_err());
    assert!(ReplyChunk::deserialize(vec![0x41, 0]).is_err());
    assert!(ReplyChunk::deserialize(vec![0x45, 0]).is_err());
    assert!(ReplyChunk::deserialize(vec![0x59]).is_err());
}

#[test]
fn number_reply_exact_bytes() {
    let bytes = ServerReplyChunk::Number(0x0102030405060708).serialize();
    assert_eq!(bytes, vec![0x4e, 1, 2, 3, 4, 5, 6, 7, 8]);
}
