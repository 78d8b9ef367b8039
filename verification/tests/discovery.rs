use mnist_idx::discover::{find_data_files, get_magic_number, FileProbe, ScanError};
use mnist_idx::pairing::pick_label;

fn be32(v: u32) -> [u8; 4] {
    [(v >> 24) as u8, (v >> 16) as u8, (v >> 8) as u8, v as u8]
}

fn probe(path: &[u8], head: &[u8]) -> FileProbe {
    FileProbe { path: path.to_vec(), head: head.to_vec() }
}

#[test]
fn magic_number_sniffing() {
    assert_eq!(get_magic_number(&be32(2051).to_vec()), Some(2051));
    assert_eq!(get_magic_number(&vec![0, 0, 8, 1, 77]), Some(2049));
    assert_eq!(get_magic_number(&vec![0, 0, 8]), None);
    assert_eq!(get_magic_number(&Vec::new()), None);
}

#[test]
fn scan_classifies_and_sorts() {
    // two images and one label, deliberately out of order, plus noise:
    // a wrong magic, a head too short to sniff, and a name without the
    // "ubyte" suffix
    let entries = vec![
        probe(b"data/b-images-ubyte", &be32(2051)),
        probe(b"data/z-labels-ubyte", &be32(2049)),
        probe(b"data/a-images-ubyte", &be32(2051)),
        probe(b"data/other-ubyte", &be32(1234)),
        probe(b"data/unreadable-ubyte", &[0, 8]),
        probe(b"data/images.bin", &be32(2051)),
    ];
    let (images, labels) = find_data_files(&entries).unwrap();
    assert_eq!(
        images,
        vec![b"data/a-images-ubyte".to_vec(), b"data/b-images-ubyte".to_vec()]
    );
    assert_eq!(labels, vec![b"data/z-labels-ubyte".to_vec()]);
}

#[test]
fn scan_fails_without_images() {
    let entries = vec![probe(b"data/z-labels-ubyte", &be32(2049))];
    match find_data_files(&entries) {
        Err(ScanError::NoImagesFound) => {}
        other => panic!("expected NoImagesFound, got {:?}", other.map(|_| ())),
    }
}

#[test]
fn scan_fails_without_labels() {
    let entries = vec![probe(b"data/a-images-ubyte", &be32(2051))];
    match find_data_files(&entries) {
        Err(ScanError::NoLabelsFound) => {}
        other => panic!("expected NoLabelsFound, got {:?}", other.map(|_| ())),
    }
}

#[test]
fn pairing_tiebreak_last_wins() {
    // both stems share prefix length 4 with "img-0x"; the tie goes to the
    // later, lexicographically greater candidate
    let image = b"img-0x.ubyte".to_vec();
    let labels = vec![b"img-00.ubyte".to_vec(), b"img-01.ubyte".to_vec()];
    assert_eq!(pick_label(&image, &labels), 1);
}

#[test]
fn pairing_prefers_longest_stem_prefix() {
    let image = b"data/train-images-idx3-ubyte".to_vec();
    let labels = vec![
        b"data/t10k-labels-idx1-ubyte".to_vec(),
        b"data/train-labels-idx1-ubyte".to_vec(),
    ];
    assert_eq!(pick_label(&image, &labels), 1);

    let image10k = b"data/t10k-images-idx3-ubyte".to_vec();
    assert_eq!(pick_label(&image10k, &labels), 0);
}

#[test]
fn pairing_uses_file_stems() {
    // the stem strips the directory and the extension: "img-9" matches
    // "other/img-9.labels" better than "img-1.labels" in the same directory
    let image = b"data/img-9.ubyte".to_vec();
    let labels = vec![b"data/img-1.labels".to_vec(), b"other/img-9.labels".to_vec()];
    assert_eq!(pick_label(&image, &labels), 1);
}
