use groceries_bmesh_core::message::{check_frame, compress_frame, decompress_frame, CoreMessage, NetMessage, MAX_MESSAGE_SIZE};
use groceries_bmesh_core::setup::{get_key, topic_id};

#[test]
fn frame_round_trip() {
    let data: Vec<u8> = (0..255u8).chain(0..255u8).collect();
    let frame = compress_frame(&data).unwrap();
    assert_ne!(frame, data);
    assert_eq!(&frame[0..2], &[0x1f, 0x8b]);
    assert_eq!(decompress_frame(&frame), Some(data));
}

#[test]
fn repetitive_data_compresses() {
    let data = vec![7u8; 1000];
    let frame = compress_frame(&data).unwrap();
    assert!(frame.len() < 100);
    assert_eq!(decompress_frame(&frame).unwrap(), data);
}

#[test]
fn not_a_gzip_stream_decompresses_to_nothing() {
    assert_eq!(decompress_frame(b"definitely not gzip"), None);
}

#[test]
fn frame_at_the_limit_is_sent_and_one_byte_more_is_not() {
    let ok = vec![1u8; MAX_MESSAGE_SIZE];
    assert_eq!(check_frame(ok.clone()), Ok(ok));
    let big = vec![1u8; MAX_MESSAGE_SIZE + 1];
    assert_eq!(check_frame(big.clone()), Err(big));
    assert_eq!(check_frame(vec![]), Ok(vec![]));
}

#[test]
fn framing_keeps_the_body() {
    let m = NetMessage::new(CoreMessage::Blob { ticket: "t".to_string() });
    assert!(matches!(m.body, CoreMessage::Blob { ref ticket } if ticket == "t"));
}

#[test]
fn key_bytes_repeat_the_id() {
    assert_eq!(get_key(5), [5u8; 32]);
    assert_eq!(get_key(0), [0u8; 32]);
}

#[test]
fn topic_is_the_digest_of_its_name() {
    assert_eq!(
        topic_id(),
        vec![
            28, 220, 15, 81, 118, 239, 168, 105, 136, 133, 127, 74, 108, 152, 127, 37, 156, 135, 87, 60, 36, 94,
            233, 238, 187, 61, 169, 161, 101, 225, 77, 240
        ]
    );
}
