use mnist_idx::idx::{count_mismatch, DecodeError, MnistData};
use std::io::Write;

fn be32(v: u32) -> [u8; 4] {
    [(v >> 24) as u8, (v >> 16) as u8, (v >> 8) as u8, v as u8]
}

fn image_file(n: u32, rows: u32, cols: u32, payload: &[u8]) -> Vec<u8> {
    let mut f = Vec::new();
    f.extend_from_slice(&be32(2051));
    f.extend_from_slice(&be32(n));
    f.extend_from_slice(&be32(rows));
    f.extend_from_slice(&be32(cols));
    f.extend_from_slice(payload);
    f
}

fn label_file(n: u32, payload: &[u8]) -> Vec<u8> {
    let mut f = Vec::new();
    f.extend_from_slice(&be32(2049));
    f.extend_from_slice(&be32(n));
    f.extend_from_slice(payload);
    f
}

fn gzip(bytes: &[u8]) -> Vec<u8> {
    let mut enc = flate2::write::GzEncoder::new(Vec::new(), flate2::Compression::default());
    enc.write_all(bytes).unwrap();
    enc.finish().unwrap()
}

#[test]
fn decode_image_header() {
    let path = b"data/train-images-idx3-ubyte".to_vec();
    let payload: Vec<u8> = (1..=8).collect();
    let raw = image_file(2, 2, 2, &payload);
    let d = MnistData::new(&path, raw, false).unwrap();
    assert_eq!(d.sizes, vec![2, 2, 2]);
    assert_eq!(d.data, payload);
}

#[test]
fn decode_label_header() {
    let path = b"data/train-labels-idx1-ubyte".to_vec();
    let raw = label_file(2, &[7, 9]);
    let d = MnistData::new(&path, raw, false).unwrap();
    assert_eq!(d.sizes, vec![2]);
    assert_eq!(d.data, vec![7, 9]);
}

#[test]
fn decode_invalid_magic() {
    let path = b"data/bogus-ubyte".to_vec();
    let mut raw = be32(1234).to_vec();
    raw.extend_from_slice(&[0, 0, 0, 1]);
    match MnistData::new(&path, raw, false) {
        Err(DecodeError::InvalidMagicNumber { magic, path: p }) => {
            assert_eq!(magic, 1234);
            assert_eq!(p, path);
        }
        other => panic!("expected InvalidMagicNumber, got {:?}", other),
    }
}

#[test]
fn decode_truncated_stream() {
    let path = b"short".to_vec();
    match MnistData::new(&path, vec![0, 0, 8], false) {
        Err(DecodeError::TruncatedHeader) => {}
        other => panic!("expected TruncatedHeader, got {:?}", other),
    }
    // a complete magic but an image header cut short
    let mut raw = be32(2051).to_vec();
    raw.extend_from_slice(&be32(2));
    raw.extend_from_slice(&be32(2));
    match MnistData::new(&path, raw, false) {
        Err(DecodeError::TruncatedHeader) => {}
        other => panic!("expected TruncatedHeader, got {:?}", other),
    }
}

#[test]
fn decompression_transparency() {
    let plain_path = b"data/foo-ubyte".to_vec();
    let gz_path = b"data/foo-ubyte.gz".to_vec();
    let payload: Vec<u8> = (0..12).collect();
    let raw = image_file(3, 2, 2, &payload);
    let compressed = gzip(&raw);
    let plain = MnistData::new(&plain_path, raw, false).unwrap();
    let unzipped = MnistData::new(&gz_path, compressed, false).unwrap();
    assert_eq!(plain.sizes, unzipped.sizes);
    assert_eq!(plain.data, unzipped.data);
}

#[test]
fn corrupt_gzip_rejected() {
    let gz_path = b"data/foo-ubyte.gz".to_vec();
    match MnistData::new(&gz_path, vec![1, 2, 3, 4, 5], false) {
        Err(DecodeError::CorruptCompression) => {}
        other => panic!("expected CorruptCompression, got {:?}", other),
    }
}

#[test]
fn orientation_fix_worked_example() {
    // rows = 2, cols = 2, one item [a, b, c, d] becomes [b, d, a, c]
    let path = b"emnist-ubyte".to_vec();
    let raw = image_file(1, 2, 2, &[10, 20, 30, 40]);
    let d = MnistData::new(&path, raw, true).unwrap();
    assert_eq!(d.sizes, vec![1, 2, 2]);
    assert_eq!(d.data, vec![20, 40, 10, 30]);
}

#[test]
fn orientation_fix_in_place() {
    let mut data: Vec<u8> = vec![1, 2, 3, 4];
    MnistData::rotate_and_mirror_images(&mut data, 1, 2, 2);
    assert_eq!(data, vec![2, 4, 1, 3]);
}

#[test]
fn orientation_fix_non_square() {
    // rows = 2, cols = 3: transpose remap gives [0,3,1,4,2,5], row reversal
    // of the 2 x 3 reading gives [4,2,5,0,3,1]
    let mut data: Vec<u8> = vec![0, 1, 2, 3, 4, 5];
    MnistData::rotate_and_mirror_images(&mut data, 1, 2, 3);
    assert_eq!(data, vec![4, 2, 5, 0, 3, 1]);
}

#[test]
fn orientation_fix_per_item_and_tail() {
    let mut data: Vec<u8> = vec![1, 2, 3, 4, 5, 6, 7, 8, 99];
    MnistData::rotate_and_mirror_images(&mut data, 2, 2, 2);
    assert_eq!(data, vec![2, 4, 1, 3, 6, 8, 5, 7, 99]);
}

#[test]
fn orientation_fix_short_payload_rejected() {
    let path = b"emnist-ubyte".to_vec();
    let raw = image_file(1, 2, 2, &[10, 20, 30]);
    match MnistData::new(&path, raw, true) {
        Err(DecodeError::ShortPayload) => {}
        other => panic!("expected ShortPayload, got {:?}", other),
    }
}

#[test]
fn decode_idempotent() {
    let path = b"data/foo-ubyte".to_vec();
    let payload: Vec<u8> = (0..8).collect();
    let a = MnistData::new(&path, image_file(2, 2, 2, &payload), false).unwrap();
    let b = MnistData::new(&path, image_file(2, 2, 2, &payload), false).unwrap();
    assert_eq!(a.sizes, b.sizes);
    assert_eq!(a.data, b.data);
}

#[test]
fn count_mismatch_warning() {
    let path = b"x-ubyte".to_vec();
    let images = MnistData::new(&path, image_file(2, 1, 1, &[5, 6]), false).unwrap();
    let labels = MnistData::new(&path, label_file(2, &[1, 2]), false).unwrap();
    let fewer = MnistData::new(&path, label_file(1, &[1]), false).unwrap();
    assert!(!count_mismatch(&images, &labels));
    assert!(count_mismatch(&images, &fewer));
}
