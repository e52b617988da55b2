use pagematch::fingerprint::Fingerprint;
use pagematch::hashed::HashedImage;
use pagematch::index::MetricIndex;
use pagematch::matcher::best_candidate;
use pagematch::matcher::combined_score;
use pagematch::matcher::match_pages;
use pagematch::matcher::match_pages_with;
use pagematch::matcher::Match;
use pagematch::matcher::POSITION_DIVISOR;
use pagematch::missing::MissingSet;

fn image(name: &str, index: usize, bytes: &[u8]) -> HashedImage {
    HashedImage {
        filename: name.as_bytes().to_vec(),
        index,
        hash: Fingerprint::from_bytes(bytes.to_vec()).unwrap(),
    }
}

fn index_of(items: Vec<HashedImage>) -> MetricIndex {
    let mut index = MetricIndex::new();
    index.insert_all(items);
    index
}

fn line(m: &Match) -> (String, Option<(String, isize)>) {
    (
        String::from_utf8(m.src.filename.clone()).unwrap(),
        m.dst.as_ref().map(|(image, distance)| {
            (String::from_utf8(image.filename.clone()).unwrap(), *distance)
        }),
    )
}

fn names(missing: &MissingSet) -> Vec<String> {
    missing.names().iter().map(|name| String::from_utf8(name.clone()).unwrap()).collect()
}

fn some(name: &str, distance: isize) -> Option<(String, isize)> {
    Some((name.to_string(), distance))
}

#[test]
fn near_identical_pages_match_and_the_rest_is_missing() {
    let index = index_of(vec![
        image("a.png", 0, &[0x00, 0x00, 0x00, 0x00, 0x00]),
        image("b.png", 1, &[0xff, 0xff, 0x00, 0x00, 0x00]),
        image("c.png", 2, &[0x00, 0x00, 0xff, 0xff, 0xff]),
    ]);
    let new = vec![
        image("a2.png", 0, &[0x01, 0x00, 0x00, 0x00, 0x00]),
        image("c2.png", 1, &[0x00, 0x00, 0xff, 0xff, 0xfc]),
    ];
    let result = match_pages(&new, &index, 5);
    assert_eq!(result.mapping.len(), 2);
    assert_eq!(line(&result.mapping[0]), ("a2.png".to_string(), some("a.png", 1)));
    assert_eq!(line(&result.mapping[1]), ("c2.png".to_string(), some("c.png", 2)));
    assert_eq!(result.mapping[0].dst.as_ref().unwrap().0.index, 0);
    assert_eq!(result.mapping[1].dst.as_ref().unwrap().0.index, 2);
    assert_eq!(names(&result.missing), vec!["b.png".to_string()]);
}

#[test]
fn of_two_claims_on_one_page_the_lower_score_wins() {
    let index = index_of(vec![image("old.png", 0, &[0x00, 0x00])]);
    let new = vec![image("near.png", 0, &[0x01, 0x00]), image("far.png", 10, &[0x07, 0x00])];
    let result = match_pages(&new, &index, 5);
    assert_eq!(line(&result.mapping[0]), ("near.png".to_string(), some("old.png", 1)));
    assert_eq!(line(&result.mapping[1]), ("far.png".to_string(), None));
    assert!(result.missing.is_empty());
}

#[test]
fn two_claims_on_one_page_go_to_the_first_claimant() {
    let index = index_of(vec![image("old.png", 0, &[0x00, 0x00])]);
    let new = vec![image("far.png", 0, &[0x07, 0x00]), image("near.png", 1, &[0x01, 0x00])];
    let result = match_pages(&new, &index, 5);
    assert_eq!(line(&result.mapping[0]), ("far.png".to_string(), some("old.png", 3)));
    assert_eq!(line(&result.mapping[1]), ("near.png".to_string(), None));
    assert!(result.missing.is_empty());
}

#[test]
fn the_lower_combined_score_claims_the_page() {
    // Two old pages within the threshold of one new page: the closer one in
    // score wins, the other is left for the next new page.
    let index = index_of(vec![
        image("one.png", 0, &[0x03, 0x00]),
        image("two.png", 1, &[0x01, 0x00]),
    ]);
    let new = vec![image("n1.png", 0, &[0x00, 0x00]), image("n2.png", 1, &[0x00, 0x00])];
    let result = match_pages(&new, &index, 5);
    assert_eq!(line(&result.mapping[0]), ("n1.png".to_string(), some("two.png", 1)));
    assert_eq!(line(&result.mapping[1]), ("n2.png".to_string(), some("one.png", 2)));
    assert!(result.missing.is_empty());
}

#[test]
fn threshold_zero_without_equal_fingerprints_matches_nothing() {
    let index = index_of(vec![
        image("a.png", 0, &[0x00, 0x00]),
        image("b.png", 1, &[0xff, 0x00]),
        image("c.png", 2, &[0x00, 0xff]),
    ]);
    let new = vec![image("x.png", 0, &[0x01, 0x00]), image("y.png", 1, &[0xff, 0x01])];
    let result = match_pages(&new, &index, 0);
    assert_eq!(line(&result.mapping[0]), ("x.png".to_string(), None));
    assert_eq!(line(&result.mapping[1]), ("y.png".to_string(), None));
    assert_eq!(
        names(&result.missing),
        vec!["a.png".to_string(), "b.png".to_string(), "c.png".to_string()]
    );
}

#[test]
fn threshold_zero_matches_equal_fingerprints() {
    let index = index_of(vec![image("a.png", 0, &[0x12, 0x34]), image("b.png", 1, &[0x56, 0x78])]);
    let new = vec![image("x.png", 0, &[0x56, 0x78])];
    let result = match_pages(&new, &index, 0);
    assert_eq!(line(&result.mapping[0]), ("x.png".to_string(), some("b.png", 0)));
    assert_eq!(names(&result.missing), vec!["a.png".to_string()]);
}

#[test]
fn position_breaks_near_ties() {
    // Both old pages are within the threshold. The first is closer by one
    // bit but lies 10 positions away, which costs 2 points.
    let index = index_of(vec![
        image("early.png", 0, &[0x01, 0x00]),
        image("late.png", 10, &[0x03, 0x00]),
    ]);
    let new = vec![image("n.png", 10, &[0x00, 0x00])];
    let result = match_pages(&new, &index, 5);
    assert_eq!(line(&result.mapping[0]), ("n.png".to_string(), some("late.png", 2)));
    assert_eq!(names(&result.missing), vec!["early.png".to_string()]);
}

#[test]
fn equal_scores_go_to_the_page_indexed_first() {
    let index = index_of(vec![
        image("first.png", 3, &[0x01, 0x00]),
        image("second.png", 4, &[0x02, 0x00]),
    ]);
    let new = vec![image("n.png", 3, &[0x00, 0x00])];
    let result = match_pages(&new, &index, 5);
    assert_eq!(line(&result.mapping[0]), ("n.png".to_string(), some("first.png", 1)));
    let index = index_of(vec![
        image("second.png", 4, &[0x02, 0x00]),
        image("first.png", 3, &[0x01, 0x00]),
    ]);
    let result = match_pages(&new, &index, 5);
    assert_eq!(line(&result.mapping[0]), ("n.png".to_string(), some("second.png", 1)));
}

#[test]
fn every_new_page_has_one_line_in_order() {
    let index = index_of(vec![image("a.png", 0, &[0x00]), image("b.png", 1, &[0xff])]);
    let new = vec![
        image("3.png", 0, &[0x0f]),
        image("1.png", 1, &[0x00]),
        image("2.png", 2, &[0xfe]),
        image("1.png", 3, &[0x00]),
    ];
    let result = match_pages(&new, &index, 2);
    let sources: Vec<String> = result.mapping.iter().map(|m| line(m).0).collect();
    assert_eq!(sources, vec!["3.png", "1.png", "2.png", "1.png"]);
    assert_eq!(line(&result.mapping[0]).1, None);
    assert_eq!(line(&result.mapping[1]).1, some("a.png", 0));
    assert_eq!(line(&result.mapping[2]).1, some("b.png", 1));
    assert_eq!(line(&result.mapping[3]).1, None);
}

#[test]
fn no_old_page_is_claimed_twice_and_missing_is_the_rest() {
    let mut old = Vec::new();
    let mut new = Vec::new();
    let mut seed: u32 = 99;
    for n in 0..40usize {
        seed = seed.wrapping_mul(1664525).wrapping_add(1013904223);
        let a = (seed >> 24) as u8 & 0x0f;
        seed = seed.wrapping_mul(1664525).wrapping_add(1013904223);
        let b = (seed >> 24) as u8 & 0x0f;
        old.push(image(&format!("old{:02}.png", n), n, &[a, b]));
        new.push(image(&format!("new{:02}.png", n), n, &[b, a]));
    }
    let index = index_of(old.clone());
    let result = match_pages(&new, &index, 3);
    assert_eq!(result.mapping.len(), new.len());
    let mut claimed: Vec<String> = Vec::new();
    for (n, m) in result.mapping.iter().enumerate() {
        assert_eq!(m.src.filename, new[n].filename);
        assert_eq!(m.src.index, n);
        if let Some((name, distance)) = line(m).1 {
            assert!(distance <= 3);
            assert!(!claimed.contains(&name));
            claimed.push(name);
        }
    }
    assert!(!claimed.is_empty());
    let expected: Vec<String> = old
        .iter()
        .map(|item| String::from_utf8(item.filename.clone()).unwrap())
        .filter(|name| !claimed.contains(name))
        .collect();
    assert_eq!(names(&result.missing), expected);
    assert_eq!(result.missing.len() + claimed.len(), old.len());
}

#[test]
fn matching_twice_gives_the_same_mapping() {
    let old = vec![
        image("a.png", 0, &[0x00, 0x01]),
        image("b.png", 1, &[0x00, 0x02]),
        image("c.png", 2, &[0x00, 0x04]),
    ];
    let new = vec![image("x.png", 0, &[0x00, 0x00]), image("y.png", 1, &[0x00, 0x00])];
    let first = match_pages(&new, &index_of(old.clone()), 4);
    let second = match_pages(&new, &index_of(old), 4);
    for n in 0..2 {
        assert_eq!(line(&first.mapping[n]), line(&second.mapping[n]));
    }
    assert_eq!(names(&first.missing), names(&second.missing));
    assert_eq!(line(&first.mapping[0]).1, some("a.png", 1));
    assert_eq!(line(&first.mapping[1]).1, some("b.png", 1));
}

#[test]
fn old_pages_of_one_name_are_claimed_together() {
    let index = index_of(vec![image("same.png", 0, &[0x00]), image("same.png", 1, &[0x01])]);
    let new = vec![image("x.png", 0, &[0x00]), image("y.png", 1, &[0x01])];
    let result = match_pages(&new, &index, 1);
    assert_eq!(line(&result.mapping[0]), ("x.png".to_string(), some("same.png", 0)));
    assert_eq!(line(&result.mapping[1]), ("y.png".to_string(), None));
    assert!(result.missing.is_empty());
}

#[test]
fn the_divisor_is_the_callers_choice() {
    let index = index_of(vec![
        image("early.png", 0, &[0x01, 0x00]),
        image("late.png", 10, &[0x03, 0x00]),
    ]);
    let new = vec![image("n.png", 10, &[0x00, 0x00])];
    let coarse = match_pages_with(&new, &index, 5, 20);
    assert_eq!(line(&coarse.mapping[0]).1, some("early.png", 1));
    let fine = match_pages_with(&new, &index, 5, 1);
    assert_eq!(line(&fine.mapping[0]).1, some("late.png", 2));
    let usual = match_pages_with(&new, &index, 5, POSITION_DIVISOR);
    assert_eq!(line(&usual.mapping[0]).1, some("late.png", 2));
}

#[test]
fn combined_score_adds_distance_and_penalty() {
    assert_eq!(POSITION_DIVISOR, 5);
    assert_eq!(combined_score(3, 0, 0, 5), 3);
    assert_eq!(combined_score(3, 4, 0, 5), 3);
    assert_eq!(combined_score(3, 5, 0, 5), 4);
    assert_eq!(combined_score(3, 0, 14, 5), 5);
    assert_eq!(combined_score(0, 100, 0, 5), 20);
    assert_eq!(combined_score(2, usize::MAX, 0, 1), usize::MAX as i128 + 2);
}

#[test]
fn best_candidate_skips_claimed_pages() {
    let items = vec![image("a.png", 0, &[0x01]), image("b.png", 1, &[0x03])];
    let index = index_of(items.clone());
    let mut missing = MissingSet::of(&items);
    let page = image("n.png", 0, &[0x00]);
    let best = best_candidate(&index, &missing, &page, 5, 5).unwrap();
    assert_eq!((best.slot, best.distance), (0, 1));
    assert!(missing.try_claim(&b"a.png".to_vec()));
    let best = best_candidate(&index, &missing, &page, 5, 5).unwrap();
    assert_eq!((best.slot, best.distance), (1, 2));
    assert!(missing.try_claim(&b"b.png".to_vec()));
    assert!(best_candidate(&index, &missing, &page, 5, 5).is_none());
}

#[test]
fn missing_set_holds_each_name_once() {
    let items = vec![
        image("a.png", 0, &[1]),
        image("b.png", 1, &[2]),
        image("a.png", 2, &[3]),
    ];
    let mut missing = MissingSet::of(&items);
    assert_eq!(missing.len(), 2);
    assert!(missing.contains(&b"a.png".to_vec()));
    assert!(!missing.contains(&b"c.png".to_vec()));
    assert!(!missing.try_claim(&b"c.png".to_vec()));
    assert!(missing.try_claim(&b"a.png".to_vec()));
    assert!(!missing.try_claim(&b"a.png".to_vec()));
    assert_eq!(names(&missing), vec!["b.png".to_string()]);
    assert!(!missing.is_empty());
    assert!(missing.try_claim(&b"b.png".to_vec()));
    assert!(missing.is_empty());
    assert_eq!(missing.len(), 0);
}

#[test]
fn missing_names_stand_in_the_order_of_the_index() {
    let index = index_of(vec![
        image("zeta.png", 0, &[0x00, 0x00]),
        image("alpha.png", 1, &[0xff, 0x00]),
        image("zeta.png", 2, &[0x0f, 0xf0]),
        image("mid.png", 3, &[0x00, 0xff]),
        image("beta.png", 4, &[0xf0, 0xf0]),
    ]);
    let none = match_pages(&Vec::new(), &index, 5);
    assert_eq!(names(&none.missing), vec!["zeta.png", "alpha.png", "mid.png", "beta.png"]);
    let new = vec![image("n.png", 0, &[0xff, 0x01])];
    let one = match_pages(&new, &index, 5);
    assert_eq!(line(&one.mapping[0]).1, some("alpha.png", 1));
    assert_eq!(names(&one.missing), vec!["zeta.png", "mid.png", "beta.png"]);
}
