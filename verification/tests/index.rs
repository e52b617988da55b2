use pagematch::fingerprint::Fingerprint;
use pagematch::hashed::image_distance;
use pagematch::hashed::HashedImage;
use pagematch::index::entry_distance;
use pagematch::index::Entry;
use pagematch::index::Hit;
use pagematch::index::MetricIndex;

fn image(name: &str, index: usize, bytes: &[u8]) -> HashedImage {
    HashedImage {
        filename: name.as_bytes().to_vec(),
        index,
        hash: Fingerprint::from_bytes(bytes.to_vec()).unwrap(),
    }
}

fn sorted(hits: Vec<Hit>) -> Vec<(usize, isize)> {
    let mut pairs: Vec<(usize, isize)> = hits.iter().map(|hit| (hit.slot, hit.distance)).collect();
    pairs.sort();
    pairs
}

fn brute_force(items: &[HashedImage], query: &HashedImage, radius: isize) -> Vec<(usize, isize)> {
    let mut pairs = Vec::new();
    for (slot, item) in items.iter().enumerate() {
        let distance = image_distance(item, query);
        if distance <= radius {
            pairs.push((slot, distance));
        }
    }
    pairs
}

fn sample() -> Vec<HashedImage> {
    let mut items = Vec::new();
    let mut seed: u32 = 12345;
    for n in 0..60usize {
        let mut bytes = [0u8; 5];
        for byte in bytes.iter_mut() {
            seed = seed.wrapping_mul(1664525).wrapping_add(1013904223);
            *byte = (seed >> 24) as u8;
            if n % 7 == 0 {
                *byte &= 0x03;
            }
        }
        items.push(image(&format!("page{:03}.png", n), n, &bytes));
    }
    items
}

#[test]
fn empty_index_finds_nothing() {
    let index = MetricIndex::new();
    assert_eq!(index.len(), 0);
    assert!(index.iter().is_empty());
    assert!(index.find(&image("q", 0, &[1, 2, 3]), 100).is_empty());
}

#[test]
fn find_agrees_with_a_scan_of_every_page() {
    let items = sample();
    let mut index = MetricIndex::new();
    index.insert_all(items.clone());
    assert_eq!(index.len(), items.len());
    for query in items.iter() {
        for radius in [-1isize, 0, 1, 3, 8, 12, 16, 20, 40] {
            assert_eq!(sorted(index.find(query, radius)), brute_force(&items, query, radius));
        }
    }
    let far = image("far", 0, &[0xff; 5]);
    for radius in [0isize, 10, 20, 30, 40] {
        assert_eq!(sorted(index.find(&far, radius)), brute_force(&items, &far, radius));
    }
}

#[test]
fn find_with_radius_zero_includes_the_page_itself() {
    let items = sample();
    let mut index = MetricIndex::new();
    index.insert_all(items.clone());
    for (slot, item) in items.iter().enumerate() {
        let hits = index.find(item, 0);
        assert!(hits.iter().any(|hit| hit.slot == slot && hit.distance == 0));
    }
}

#[test]
fn pages_with_one_fingerprint_are_all_found() {
    let mut index = MetricIndex::new();
    index.insert(image("blank1.png", 0, &[0, 0, 0]));
    index.insert(image("text.png", 1, &[0xf0, 0x0f, 0x33]));
    index.insert(image("blank2.png", 2, &[0, 0, 0]));
    index.insert(image("blank3.png", 3, &[0, 0, 0]));
    let hits = sorted(index.find(&image("q", 0, &[0, 0, 1]), 1));
    assert_eq!(hits, vec![(0, 1), (2, 1), (3, 1)]);
    assert_eq!(index.len(), 4);
}

#[test]
fn pages_of_another_width_are_found_too() {
    let mut index = MetricIndex::new();
    index.insert(image("a", 0, &[0x00, 0x00]));
    index.insert(image("b", 1, &[0x01]));
    index.insert(image("c", 2, &[0x00, 0xff]));
    index.insert(image("d", 3, &[0x00, 0x00, 0xff]));
    let wide = image("q", 0, &[0x00, 0x00]);
    assert_eq!(sorted(index.find(&wide, 1)), vec![(0, 0), (1, 1), (3, 0)]);
    let narrow = image("q", 0, &[0x01]);
    assert_eq!(sorted(index.find(&narrow, 0)), vec![(1, 0)]);
    assert_eq!(sorted(index.find(&narrow, 1)), vec![(0, 1), (1, 0), (2, 1), (3, 1)]);
}

#[test]
fn insert_keeps_the_order_of_insertion() {
    let mut index = MetricIndex::new();
    index.insert(image("z", 9, &[3]));
    index.insert_all(vec![image("y", 8, &[2]), image("x", 7, &[1])]);
    let names: Vec<Vec<u8>> = index.iter().iter().map(|item| item.filename.clone()).collect();
    assert_eq!(names, vec![b"z".to_vec(), b"y".to_vec(), b"x".to_vec()]);
    assert_eq!(index.item(1).index, 8);
    assert_eq!(index.item(2).hash.as_bytes(), &vec![1u8]);
}

#[test]
fn negative_radius_finds_nothing() {
    let mut index = MetricIndex::new();
    index.insert(image("a", 0, &[1, 2, 3]));
    assert!(index.find(&image("q", 0, &[1, 2, 3]), -1).is_empty());
}

#[test]
fn every_hit_is_reported_once() {
    let items = sample();
    let mut index = MetricIndex::new();
    index.insert_all(items.clone());
    let hits = sorted(index.find(&items[0], 40));
    assert_eq!(hits.len(), items.len());
    for (slot, hit) in hits.iter().enumerate() {
        assert_eq!(hit.0, slot);
    }
}

#[test]
fn entry_distance_is_the_distance_of_the_fingerprints() {
    let a = Entry { slot: 0, fingerprint: Fingerprint::from_bytes(vec![0x0f, 0x00]).unwrap() };
    let b = Entry { slot: 1, fingerprint: Fingerprint::from_bytes(vec![0x00, 0x01]).unwrap() };
    assert_eq!(entry_distance(&a, &b), 5);
}

#[test]
fn find_agrees_with_a_scan_on_a_dense_set() {
    let mut items = Vec::new();
    let mut seed: u32 = 2024;
    for n in 0..300usize {
        seed = seed.wrapping_mul(1664525).wrapping_add(1013904223);
        let bytes = [(seed >> 24) as u8, (seed >> 16) as u8];
        items.push(image(&format!("page{:03}.png", n), n, &bytes));
    }
    let mut index = MetricIndex::new();
    for item in items.iter() {
        index.insert(item.clone());
    }
    for query in items.iter().step_by(13) {
        for radius in 0..=16isize {
            assert_eq!(sorted(index.find(query, radius)), brute_force(&items, query, radius));
        }
    }
}
