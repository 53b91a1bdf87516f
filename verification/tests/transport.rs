use kvsys::chunktps::ack_ok_bytes;
use kvsys::chunktps::ack_terminate_bytes;
use kvsys::chunktps::classify_ack;
use kvsys::chunktps::frame_encode;
use kvsys::chunktps::parse_frame_header;
use kvsys::chunktps::AckKind;

#[test]
fn frame_round_trip() {
    let payloads: Vec<Vec<u8>> = vec![
        b"this is the first message to send".to_vec(),
        b"deadbeef,cafebabe".to_vec(),
        b"\x32\x33\xff\xff\xfe\x7c\xde\xad\xbe\xef".to_vec(),
        Vec::new(),
        vec![0u8; 65535],
    ];
    for payload in payloads {
        let frame = frame_encode(&payload);
        assert_eq!(frame.len(), 6 + payload.len());
        let mut header = [0u8; 6];
        header.copy_from_slice(&frame[..6]);
        let size = parse_frame_header(&header).unwrap();
        assert_eq!(size, payload.len());
        assert_eq!(&frame[6..], payload.as_slice());
    }
}

#[test]
fn frame_header_layout() {
    let payload = vec![7u8; 0x1234];
    let frame = frame_encode(&payload);
    assert_eq!(&frame[..4], &[0xde, 0xad, 0xbe, 0xef]);
    assert_eq!(frame[4], 0x12);
    assert_eq!(frame[5], 0x34);
}

#[test]
fn bad_magic_rejected() {
    let header = [0xde, 0xad, 0xbe, 0xee, 0x00, 0x10];
    assert!(parse_frame_header(&header).is_err());
}

#[test]
fn ack_classification() {
    let mut ok = [0u8; 5];
    ok.copy_from_slice(&ack_ok_bytes());
    assert_eq!(classify_ack(&ok), AckKind::Accepted);

    let mut te = [0u8; 5];
    te.copy_from_slice(&ack_terminate_bytes());
    assert_eq!(classify_ack(&te), AckKind::Terminated);

    let junk = [1u8, 2, 3, 4, 5];
    assert_eq!(classify_ack(&junk), AckKind::Unknown);
}
