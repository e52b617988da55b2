use pagematch::bytes::precedes;
use pagematch::bytes::same_bytes;
use pagematch::fingerprint::Fingerprint;
use pagematch::fingerprint::MAX_FINGERPRINT_BYTES;
use pagematch::hashed::image_distance;
use pagematch::hashed::HashedImage;

fn print(bytes: &[u8]) -> Fingerprint {
    Fingerprint::from_bytes(bytes.to_vec()).unwrap()
}

fn page(name: &str, index: usize, bytes: &[u8]) -> HashedImage {
    HashedImage { filename: name.as_bytes().to_vec(), index, hash: print(bytes) }
}

#[test]
fn distance_counts_differing_bits() {
    let a = print(&[0b0000_0000, 0b1111_0000, 0xff]);
    let b = print(&[0b0000_0001, 0b0000_1111, 0xff]);
    assert_eq!(a.distance(&b), 9);
}

#[test]
fn distance_to_itself_is_zero() {
    let a = print(&[0x12, 0x34, 0x56, 0x78, 0x9a]);
    assert_eq!(a.distance(&a), 0);
    assert_eq!(a.distance(&a.clone()), 0);
}

#[test]
fn distance_is_symmetric() {
    let a = print(&[0x12, 0x34, 0x56, 0x78, 0x9a]);
    let b = print(&[0xff, 0x00, 0x56, 0x71, 0x9a]);
    assert_eq!(a.distance(&b), b.distance(&a));
    assert_eq!(a.distance(&b), 6 + 3 + 0 + 2 + 0);
}

#[test]
fn distance_obeys_the_triangle_inequality() {
    let a = print(&[0x00, 0x00, 0x0f]);
    let b = print(&[0xff, 0x00, 0x00]);
    let c = print(&[0xff, 0xff, 0x00]);
    assert_eq!(a.distance(&b), 12);
    assert_eq!(b.distance(&c), 8);
    assert_eq!(a.distance(&c), 20);
    assert!(a.distance(&c) <= a.distance(&b) + b.distance(&c));
}

#[test]
fn distance_of_all_bits() {
    let a = print(&[0x00; 8]);
    let b = print(&[0xff; 8]);
    assert_eq!(a.distance(&b), 64);
}

#[test]
fn distance_ignores_the_surplus_of_the_longer_string() {
    let a = print(&[0xff]);
    let b = print(&[0xfe, 0xff, 0xff]);
    assert_eq!(a.distance(&b), 1);
    assert_eq!(b.distance(&a), 1);
}

#[test]
fn distance_of_empty_fingerprints_is_zero() {
    let a = print(&[]);
    let b = print(&[0xff]);
    assert_eq!(a.distance(&a), 0);
    assert_eq!(a.distance(&b), 0);
}

#[test]
fn fingerprint_keeps_its_bytes() {
    let bytes = vec![1u8, 2, 3, 4, 5];
    let f = Fingerprint::from_bytes(bytes.clone()).unwrap();
    assert_eq!(f.as_bytes(), &bytes);
    assert_eq!(f.width(), 5);
    assert_eq!(f.clone().as_bytes(), &bytes);
}

#[test]
fn fingerprint_refuses_too_many_bytes() {
    assert!(Fingerprint::from_bytes(vec![0u8; MAX_FINGERPRINT_BYTES]).is_some());
    assert!(Fingerprint::from_bytes(vec![0u8; MAX_FINGERPRINT_BYTES + 1]).is_none());
}

#[test]
fn image_distance_is_the_distance_of_the_fingerprints() {
    let a = page("a.png", 0, &[0x00, 0x00]);
    let b = page("b.png", 7, &[0x03, 0x80]);
    assert_eq!(image_distance(&a, &b), 3);
    assert_eq!(image_distance(&b, &a), 3);
    assert_eq!(image_distance(&a, &a), 0);
}

#[test]
fn hashed_image_clone_keeps_every_field() {
    let a = page("a.png", 3, &[9, 8, 7]);
    let b = a.clone();
    assert_eq!(b.filename, b"a.png".to_vec());
    assert_eq!(b.index, 3);
    assert_eq!(b.hash.as_bytes(), &vec![9u8, 8, 7]);
}

#[test]
fn same_bytes_compares_contents() {
    assert!(same_bytes(&b"abc".to_vec(), &b"abc".to_vec()));
    assert!(!same_bytes(&b"abc".to_vec(), &b"abd".to_vec()));
    assert!(!same_bytes(&b"abc".to_vec(), &b"ab".to_vec()));
    assert!(same_bytes(&Vec::new(), &Vec::new()));
}

#[test]
fn precedes_is_the_lexicographic_order() {
    assert!(precedes(&b"a".to_vec(), &b"b".to_vec()));
    assert!(!precedes(&b"b".to_vec(), &b"a".to_vec()));
    assert!(precedes(&b"ab".to_vec(), &b"abc".to_vec()));
    assert!(!precedes(&b"abc".to_vec(), &b"ab".to_vec()));
    assert!(!precedes(&b"abc".to_vec(), &b"abc".to_vec()));
    assert!(precedes(&Vec::new(), &b"a".to_vec()));
    assert!(!precedes(&Vec::new(), &Vec::new()));
    assert!(precedes(&b"page10.png".to_vec(), &b"page2.png".to_vec()));
    assert!(precedes(&vec![0x7f], &vec![0x80]));
}
