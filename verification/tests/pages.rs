use pagematch::page::sort_pages;
use pagematch::page::Page;

fn page(path: &str, size: usize) -> Page {
    Page { path: path.as_bytes().to_vec(), size }
}

fn paths(pages: &[Page]) -> Vec<String> {
    pages.iter().map(|page| String::from_utf8(page.path.clone()).unwrap()).collect()
}

#[test]
fn pages_are_sorted_by_path() {
    let sorted = sort_pages(vec![
        page("scan/page10.png", 1),
        page("scan/page02.png", 2),
        page("scan/page01.png", 3),
        page("scan/page1.png", 4),
        page("scan/cover.png", 5),
    ]);
    assert_eq!(
        paths(&sorted),
        vec!["scan/cover.png", "scan/page01.png", "scan/page02.png", "scan/page1.png", "scan/page10.png"]
    );
    let sizes: Vec<usize> = sorted.iter().map(|page| page.size).collect();
    assert_eq!(sizes, vec![5, 3, 2, 4, 1]);
}

#[test]
fn sorting_nothing_gives_nothing() {
    assert!(sort_pages(Vec::new()).is_empty());
}

#[test]
fn sorting_keeps_every_page() {
    let mut pages = Vec::new();
    let mut seed: u32 = 7;
    for _ in 0..50 {
        seed = seed.wrapping_mul(1664525).wrapping_add(1013904223);
        pages.push(page(&format!("d/{}.png", seed >> 20), (seed >> 8) as usize));
    }
    let mut expected: Vec<(Vec<u8>, usize)> =
        pages.iter().map(|page| (page.path.clone(), page.size)).collect();
    expected.sort();
    let sorted = sort_pages(pages);
    let got: Vec<(Vec<u8>, usize)> =
        sorted.iter().map(|page| (page.path.clone(), page.size)).collect();
    let mut got_sorted = got.clone();
    got_sorted.sort();
    assert_eq!(got_sorted, expected);
    for pair in got.windows(2) {
        assert!(pair[0].0 <= pair[1].0);
    }
}

#[test]
fn pages_of_one_path_keep_their_order() {
    let sorted = sort_pages(vec![page("b", 1), page("a", 2), page("b", 3), page("a", 4)]);
    let sizes: Vec<usize> = sorted.iter().map(|page| page.size).collect();
    assert_eq!(paths(&sorted), vec!["a", "a", "b", "b"]);
    assert_eq!(sizes, vec![2, 4, 1, 3]);
}

#[test]
fn pages_compare_by_path_alone() {
    assert!(page("a", 1).same_path(&page("a", 2)));
    assert!(!page("a", 1).same_path(&page("b", 1)));
    assert!(page("a", 9).comes_before(&page("b", 1)));
    assert!(!page("b", 1).comes_before(&page("a", 9)));
    assert!(!page("a", 1).comes_before(&page("a", 2)));
}
