use rle::error::MyError;
use rle::rle_naive::{decode, encode, Packer, Unpacker};

#[test]
fn test_trivial() {
    assert_eq!(Vec::<u8>::new(), encode(&vec![]));
    assert_eq!(Vec::<u8>::new(), decode(&vec![]).unwrap())
}

#[test]
fn zip_n_bytes() {
    assert_eq!(vec![4, 4], encode(&vec![4, 4, 4, 4]));
}

#[test]
fn compress() {
    assert_eq!(
        vec![2, 4, 1, 11, 3, 0, 1, 21],
        encode(&vec![4, 4, 11, 0, 0, 0, 21])
    )
}

#[test]
fn wiki_rle_example() {
    let example = b"WWWWWWWWWWWWBWWWWWWWWWWWWBBBWWWWWWWWWWWWWWWWWWWWWWWWBWWWWWWWWWWWWWW";
    let compressed = [
        12, b'W', 1, b'B', 12, b'W', 3, b'B', 24, b'W', 1, b'B', 14, b'W',
    ];
    assert_eq!(compressed, encode(&example.to_vec()).as_slice());
    assert_eq!(example, decode(&compressed.to_vec()).unwrap().as_slice())
}

#[test]
fn encode_decode() {
    let origin = b"Hello, World!";
    let encoded = encode(&origin.to_vec());
    let decoded = decode(&encoded).unwrap();
    assert_eq!(origin, decoded.as_slice());
}

#[test]
fn from_compressed() {
    assert_eq!(
        vec![42, 4, 4, 4, 4, 4, 101],
        decode(&vec![1, 42, 5, 4, 1, 101]).unwrap()
    );
}

#[test]
fn naive_run_of_255_is_one_pair() {
    assert_eq!(vec![255, 9], encode(&vec![9; 255]));
}

#[test]
fn naive_run_of_256_is_two_pairs() {
    assert_eq!(vec![255, 9, 1, 9], encode(&vec![9; 256]));
}

#[test]
fn naive_odd_input_is_truncated() {
    assert_eq!(Err(MyError::TruncatedRecord), decode(&vec![1, 2, 3]));
    assert_eq!(Err(MyError::TruncatedRecord), decode(&vec![7]));
}

#[test]
fn naive_round_trip_mixed() {
    let origin: Vec<u8> = vec![0, 0, 0, 5, 5, 1, 2, 3, 3, 3, 3, 255, 255];
    let encoded = encode(&origin);
    assert_eq!(origin, decode(&encoded).unwrap());
}

#[test]
fn naive_reencode_is_canonical() {
    let origin: Vec<u8> = vec![4, 4, 11, 0, 0, 0, 21];
    let encoded = encode(&origin);
    let decoded = decode(&encoded).unwrap();
    assert_eq!(encoded, encode(&decoded));
}

#[test]
fn packer_runs_span_chunks() {
    // the same bytes fed whole or in small chunks give the same stream
    let origin: Vec<u8> = vec![8, 8, 8, 8, 8, 8, 8, 2, 2, 9, 1, 1, 1];
    let mut packer = Packer::new();
    let mut out: Vec<u8> = Vec::new();
    for chunk in origin.chunks(3) {
        packer.push_chunk(&chunk.to_vec(), &mut out);
    }
    packer.finish(&mut out);
    assert_eq!(encode(&origin), out);
}

#[test]
fn unpacker_matches_decode() {
    let encoded: Vec<u8> = vec![3, 8, 2, 2, 1, 9, 3, 1];
    let mut unpacker = Unpacker::new();
    let mut out: Vec<u8> = Vec::new();
    for chunk in encoded.chunks(3) {
        unpacker.push_chunk(&chunk.to_vec(), &mut out);
    }
    assert!(unpacker.finish().is_ok());
    assert_eq!(decode(&encoded).unwrap(), out);
}

#[test]
fn unpacker_reports_dangling_count() {
    let mut unpacker = Unpacker::new();
    let mut out: Vec<u8> = Vec::new();
    unpacker.push_chunk(&vec![2, 4, 5], &mut out);
    assert_eq!(Err(MyError::TruncatedRecord), unpacker.finish());
}
