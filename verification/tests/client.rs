use kvsys::kvclient::check_key_size;
use kvsys::kvclient::check_value_size;
use kvsys::kvclient::interpret_delete_reply;
use kvsys::kvclient::interpret_get_reply;
use kvsys::kvclient::interpret_put_reply;
use kvsys::kvclient::interpret_scan_chunk;
use kvsys::kvclient::parse_command;
use kvsys::kvclient::split_words;
use kvsys::kvclient::Command;
use kvsys::kvserver::protocol::ReplyChunk;
use kvsys::util::gen_value;

#[test]
fn split_words_basic() {
    let ws = split_words(b"  put abcdefgh  hello  ");
    assert_eq!(ws.len(), 3);
    assert_eq!(ws[0], b"put".to_vec());
    assert_eq!(ws[1], b"abcdefgh".to_vec());
    assert_eq!(ws[2], b"hello".to_vec());
    assert!(split_words(b"   \t \n").is_empty());
}

#[test]
fn parse_get() {
    match parse_command("get 12345678").unwrap() {
        Command::Get(k) => assert_eq!(&k.data, b"12345678"),
        _ => panic!(),
    }
}

#[test]
fn parse_put_pads_value() {
    match parse_command("put 12345678 hello").unwrap() {
        Command::Put(k, v) => {
            assert_eq!(&k.data, b"12345678");
            assert_eq!(&v.data[..5], b"hello");
            assert!(v.data[5..].iter().all(|&b| b == 0));
        }
        _ => panic!(),
    }
}

#[test]
fn parse_scan() {
    match parse_command("scan aaaaaaaa bbbbbbbb").unwrap() {
        Command::Scan(k1, k2) => {
            assert_eq!(&k1.data, b"aaaaaaaa");
            assert_eq!(&k2.data, b"bbbbbbbb");
        }
        _ => panic!(),
    }
}

#[test]
fn parse_delete_both_spellings() {
    match parse_command("del 12345678").unwrap() {
        Command::Delete(k) => assert_eq!(&k.data, b"12345678"),
        _ => panic!(),
    }
    match parse_command("delete 12345678").unwrap() {
        Command::Delete(k) => assert_eq!(&k.data, b"12345678"),
        _ => panic!(),
    }
}

#[test]
fn parse_close() {
    match parse_command("close").unwrap() {
        Command::Close => (),
        _ => panic!(),
    }
}

#[test]
fn parse_rejects_bad_lines() {
    assert!(parse_command("").is_err());
    assert!(parse_command("   ").is_err());
    assert!(parse_command("frobnicate 12345678").is_err());
    assert!(parse_command("get").is_err());
    assert!(parse_command("get 123").is_err());
    assert!(parse_command("get 12345678 extra").is_err());
    assert!(parse_command("put 12345678").is_err());
    assert!(parse_command("scan 12345678").is_err());
    assert!(parse_command("del 123456789").is_err());
}

#[test]
fn check_sizes() {
    assert!(check_key_size(b"12345678").is_ok());
    assert!(check_key_size(b"1234567").is_err());
    assert!(check_key_size(b"123456789").is_err());

    let v = check_value_size(b"xy").unwrap();
    assert_eq!(&v.data[..2], b"xy");
    assert!(v.data[2..].iter().all(|&b| b == 0));
    assert!(check_value_size(&[1u8; 256]).is_ok());
    assert!(check_value_size(&[1u8; 257]).is_err());
}

#[test]
fn interpret_replies() {
    let value = gen_value();
    assert_eq!(
        interpret_get_reply(ReplyChunk::SingleValue(Some(value))).unwrap(),
        Some(value)
    );
    assert!(interpret_get_reply(ReplyChunk::Success).is_err());

    assert!(interpret_put_reply(ReplyChunk::Success).is_ok());
    assert!(interpret_put_reply(ReplyChunk::Error).is_err());
    assert!(interpret_put_reply(ReplyChunk::Number(1)).is_err());

    assert_eq!(interpret_delete_reply(ReplyChunk::Number(7)).unwrap(), 7);
    assert!(interpret_delete_reply(ReplyChunk::Error).is_err());

    let pairs = vec![];
    assert!(interpret_scan_chunk(ReplyChunk::KVPairs(pairs)).is_ok());
    assert!(interpret_scan_chunk(ReplyChunk::Success).is_err());
}
