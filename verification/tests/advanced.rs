use rle::error::MyError;
use rle::rle_adv::{decode, encode, Decoder, Encoder};

#[test]
fn trivial_test() {
    let input: Vec<u8> = vec![];
    let output = encode(&input);
    assert_eq!(Vec::<u8>::new(), output);
}

#[test]
fn same_bytes_encode() {
    let input = vec![4_u8, 4, 4, 4];
    let output = encode(&input);
    assert_eq!(vec![4_u8, 4], output);
}

#[test]
fn different_bytes_encode() {
    let input = vec![0_u8, 1, 11, 13, 42, 101];
    let output = encode(&input);
    assert_eq!(vec![250, 0_u8, 1, 11, 13, 42, 101], output);
}

#[test]
fn some_bytes_encode() {
    let input = vec![0_u8, 1, 1, 1, 42, 42, 101];
    let output = encode(&input);
    assert_eq!(vec![255, 0_u8, 3, 1, 2, 42, 255, 101], output);
}

#[test]
fn adv_empty_decodes_to_empty() {
    assert_eq!(Vec::<u8>::new(), decode(&vec![]).unwrap());
}

#[test]
fn adv_run_of_127_is_one_record() {
    assert_eq!(vec![127, 7], encode(&vec![7; 127]));
}

#[test]
fn adv_run_of_128_adds_a_literal() {
    assert_eq!(vec![127, 7, 255, 7], encode(&vec![7; 128]));
}

#[test]
fn adv_lone_control_byte_is_truncated() {
    assert_eq!(Err(MyError::TruncatedRecord), decode(&vec![5]));
}

#[test]
fn adv_short_literal_is_truncated() {
    // control byte 254 announces two literal bytes; only one follows
    assert_eq!(Err(MyError::TruncatedRecord), decode(&vec![254, 1]));
}

#[test]
fn adv_control_bytes_the_encoder_never_writes() {
    assert_eq!(Err(MyError::InvalidControlByte), decode(&vec![0, 7]));
    assert_eq!(Err(MyError::InvalidControlByte), decode(&vec![1, 7]));
    assert_eq!(Err(MyError::InvalidControlByte), decode(&vec![128, 7]));
}

#[test]
fn adv_round_trip_mixed() {
    let origin: Vec<u8> = vec![0, 1, 1, 1, 42, 42, 101];
    let encoded = encode(&origin);
    assert_eq!(vec![255, 0, 3, 1, 2, 42, 255, 101], encoded);
    assert_eq!(origin, decode(&encoded).unwrap());
}

#[test]
fn adv_round_trip_long() {
    let mut origin: Vec<u8> = Vec::new();
    for i in 0..1000u32 {
        origin.push((i % 251) as u8);
        if i % 7 == 0 {
            origin.push((i % 251) as u8);
        }
    }
    let encoded = encode(&origin);
    assert_eq!(origin, decode(&encoded).unwrap());
}

#[test]
fn adv_reencode_is_canonical() {
    let origin: Vec<u8> = vec![0, 1, 1, 1, 42, 42, 101, 9, 9, 9, 9];
    let encoded = encode(&origin);
    let decoded = decode(&encoded).unwrap();
    assert_eq!(encoded, encode(&decoded));
}

#[test]
fn encoder_state_spans_chunks() {
    // the same bytes fed whole or in small chunks give the same stream
    let origin: Vec<u8> = vec![0, 1, 1, 1, 42, 42, 101, 3, 3, 3, 3, 3, 7, 8];
    let mut enc = Encoder::new();
    let mut out: Vec<u8> = Vec::new();
    for chunk in origin.chunks(3) {
        enc.push_chunk(&chunk.to_vec(), &mut out);
    }
    enc.finish(&mut out);
    assert_eq!(encode(&origin), out);
}

#[test]
fn decoder_records_span_chunks() {
    let origin: Vec<u8> = vec![0, 1, 1, 1, 42, 42, 101, 3, 3, 3, 3, 3, 7, 8];
    let encoded = encode(&origin);
    let mut dec = Decoder::new();
    let mut out: Vec<u8> = Vec::new();
    for chunk in encoded.chunks(3) {
        assert!(dec.push_chunk(&chunk.to_vec(), &mut out).is_ok());
    }
    assert!(dec.finish().is_ok());
    assert_eq!(origin, out);
}

#[test]
fn decoder_stops_on_bad_control_byte() {
    let mut dec = Decoder::new();
    let mut out: Vec<u8> = Vec::new();
    assert_eq!(
        Err(MyError::InvalidControlByte),
        dec.push_chunk(&vec![2, 9, 0, 5], &mut out)
    );
}

#[test]
fn decoder_reports_truncation_at_finish() {
    let mut dec = Decoder::new();
    let mut out: Vec<u8> = Vec::new();
    assert!(dec.push_chunk(&vec![5], &mut out).is_ok());
    assert_eq!(Err(MyError::TruncatedRecord), dec.finish());
}
