//! The matcher: every page of the new scan is paired with the closest old
//! page that no earlier page has claimed.

use crate::fingerprint::hamming;
use crate::hashed::models;
use crate::hashed::HashedImage;
use crate::hashed::ImageModel;
use crate::index::answers;
use crate::index::Hit;
use crate::index::MetricIndex;
use crate::missing::filenames;
use crate::missing::in_order_of_first_sight;
use crate::missing::order_outlasts_removal;
use crate::missing::MissingSet;
use vstd::prelude::*;

verus! {

/// The number of positions that two pages may lie apart for each point of
/// score, unless the caller names another.
pub const POSITION_DIVISOR: usize = 5;

/// What a difference in position adds to the score: the distance between the
/// two sequence indices, divided by `divisor` and rounded down.
pub open spec fn position_penalty(old_index: nat, new_index: nat, divisor: nat) -> int {
    (if old_index >= new_index {
        old_index - new_index
    } else {
        new_index - old_index
    }) / (divisor as int)
}

/// The combined score of a candidate: its distance plus its position penalty.
pub open spec fn score(distance: int, old_index: nat, new_index: nat, divisor: nat) -> int {
    distance + position_penalty(old_index, new_index, divisor)
}

/// The combined score of the old page at slot `s` as a candidate for `page`.
pub open spec fn slot_score(old: Seq<ImageModel>, page: ImageModel, divisor: nat, s: int) -> int {
    score(
        hamming(old[s].fingerprint, page.fingerprint) as int,
        old[s].index,
        page.index,
        divisor,
    )
}

/// Whether the old page at slot `s` may be paired with `page`: it lies within
/// `threshold` and its name is still missing.
pub open spec fn eligible(
    old: Seq<ImageModel>,
    missing: Set<Seq<u8>>,
    page: ImageModel,
    threshold: int,
    s: int,
) -> bool {
    &&& 0 <= s < old.len()
    &&& hamming(old[s].fingerprint, page.fingerprint) <= threshold
    &&& missing.contains(old[s].filename)
}

/// Whether the old page at slot `s` is the one that `page` claims: it is
/// eligible, no eligible page has a lower score, and of those with its score
/// it has the lowest slot.
pub open spec fn wins(
    old: Seq<ImageModel>,
    missing: Set<Seq<u8>>,
    page: ImageModel,
    threshold: int,
    divisor: nat,
    s: int,
) -> bool {
    &&& eligible(old, missing, page, threshold, s)
    &&& forall|t: int| #[trigger]
        eligible(old, missing, page, threshold, t) ==> slot_score(old, page, divisor, s)
            < slot_score(old, page, divisor, t) || (slot_score(old, page, divisor, s)
            == slot_score(old, page, divisor, t) && s <= t)
}

/// The slot that `page` claims, if any page is eligible.
pub open spec fn winner(
    old: Seq<ImageModel>,
    missing: Set<Seq<u8>>,
    page: ImageModel,
    threshold: int,
    divisor: nat,
) -> Option<int> {
    if exists|s: int| wins(old, missing, page, threshold, divisor, s) {
        Some(choose|s: int| wins(old, missing, page, threshold, divisor, s))
    } else {
        None
    }
}

/// The missing set when the first `n` pages have made their claims.
pub open spec fn missing_after(
    old: Seq<ImageModel>,
    pages: Seq<ImageModel>,
    threshold: int,
    divisor: nat,
    n: nat,
) -> Set<Seq<u8>>
    decreases n,
{
    if n == 0 {
        filenames(old)
    } else {
        let before = missing_after(old, pages, threshold, divisor, (n - 1) as nat);
        match winner(old, before, pages[n - 1], threshold, divisor) {
            Some(s) => before.remove(old[s].filename),
            None => before,
        }
    }
}

/// The slot that the `n`-th page claims.
pub open spec fn claimed_by(
    old: Seq<ImageModel>,
    pages: Seq<ImageModel>,
    threshold: int,
    divisor: nat,
    n: int,
) -> Option<int> {
    winner(old, missing_after(old, pages, threshold, divisor, n as nat), pages[n], threshold, divisor)
}

/// One line of the mapping: a page of the new scan and, if it claimed one,
/// the page of the old scan with the distance between the two.
pub struct Match {
    pub src: HashedImage,
    pub dst: Option<(HashedImage, isize)>,
}

/// The mathematical value of a [`Match`].
pub struct MatchModel {
    pub src: ImageModel,
    pub dst: Option<(ImageModel, int)>,
}

impl View for Match {
    type V = MatchModel;

    open spec fn view(&self) -> MatchModel {
        MatchModel {
            src: self.src@,
            dst: match self.dst {
                Some((image, distance)) => Some((image@, distance as int)),
                None => None,
            },
        }
    }
}

/// The line of the mapping for the `n`-th page.
pub open spec fn expected_match(
    old: Seq<ImageModel>,
    pages: Seq<ImageModel>,
    threshold: int,
    divisor: nat,
    n: int,
) -> MatchModel {
    MatchModel {
        src: pages[n],
        dst: match claimed_by(old, pages, threshold, divisor, n) {
            Some(s) => Some((old[s], hamming(old[s].fingerprint, pages[n].fingerprint) as int)),
            None => None,
        },
    }
}

/// The mapping: one line for each page, in the order of the pages.
pub open spec fn mapping(
    old: Seq<ImageModel>,
    pages: Seq<ImageModel>,
    threshold: int,
    divisor: nat,
) -> Seq<MatchModel> {
    Seq::new(pages.len(), |n: int| expected_match(old, pages, threshold, divisor, n))
}

/// The views of a list of matches.
pub open spec fn match_models(matches: Seq<Match>) -> Seq<MatchModel> {
    matches.map_values(|m: Match| m@)
}

/// What the matcher hands back.
pub struct Matching {
    /// One match for each page of the new scan, in their order.
    pub mapping: Vec<Match>,
    /// The names of the old pages that no page claimed.
    pub missing: MissingSet,
}

/// At most one slot wins.
pub proof fn winner_is_unique(
    old: Seq<ImageModel>,
    missing: Set<Seq<u8>>,
    page: ImageModel,
    threshold: int,
    divisor: nat,
    s: int,
)
    requires
        wins(old, missing, page, threshold, divisor, s),
    ensures
        winner(old, missing, page, threshold, divisor) == Some(s),
{
    let t = choose|t: int| wins(old, missing, page, threshold, divisor, t);
    assert(eligible(old, missing, page, threshold, s));
    assert(eligible(old, missing, page, threshold, t));
}

/// Where no page is eligible, none wins.
pub proof fn no_winner_without_candidates(
    old: Seq<ImageModel>,
    missing: Set<Seq<u8>>,
    page: ImageModel,
    threshold: int,
    divisor: nat,
)
    requires
        forall|t: int| !eligible(old, missing, page, threshold, t),
    ensures
        winner(old, missing, page, threshold, divisor) is None,
{
}

/// The combined score of a candidate.
pub fn combined_score(distance: isize, old_index: usize, new_index: usize, divisor: usize) -> (s:
    i128)
    requires
        divisor > 0,
    ensures
        s == score(distance as int, old_index as nat, new_index as nat, divisor as nat),
{
    let apart = if old_index >= new_index {
        old_index - new_index
    } else {
        new_index - old_index
    };
    distance as i128 + (apart / divisor) as i128
}

/// The old page that `page` claims among those still missing: the hit of
/// least combined score within `threshold`, and of several such the one that
/// was indexed first.
pub fn best_candidate(
    index: &MetricIndex,
    missing: &MissingSet,
    page: &HashedImage,
    threshold: isize,
    divisor: usize,
) -> (best: Option<Hit>)
    requires
        index.wf(),
        divisor > 0,
    ensures
        match winner(index@, missing@, page@, threshold as int, divisor as nat) {
            Some(s) => best matches Some(hit) && hit.slot == s && hit.distance == hamming(
                index@[s].fingerprint,
                page@.fingerprint,
            ),
            None => best is None,
        },
{
    let hits = index.find(page, threshold);
    let ghost old = index@;
    let ghost thr = threshold as int;
    let ghost div = divisor as nat;
    let mut best: Option<Hit> = None;
    let mut least: i128 = 0;
    let mut k: usize = 0;
    while k < hits.len()
        invariant
            k <= hits@.len(),
            divisor > 0,
            old == index@,
            thr == threshold as int,
            div == divisor as nat,
            answers(hits@, old, page@.fingerprint, thr),
            best is None ==> forall|i: int|
                0 <= i < k ==> !eligible(old, missing@, page@, thr, (#[trigger] hits@[i]).slot as int),
            best matches Some(hit) ==> {
                &&& eligible(old, missing@, page@, thr, hit.slot as int)
                &&& hit.distance == hamming(old[hit.slot as int].fingerprint, page@.fingerprint)
                &&& least == slot_score(old, page@, div, hit.slot as int)
                &&& forall|i: int|
                    0 <= i < k && eligible(old, missing@, page@, thr, (#[trigger] hits@[i]).slot as int)
                        ==> least < slot_score(old, page@, div, hits@[i].slot as int) || (least
                        == slot_score(old, page@, div, hits@[i].slot as int) && hit.slot
                        <= hits@[i].slot)
            },
        decreases hits@.len() - k,
    {
        let hit = hits[k];
        let candidate = index.item(hit.slot);
        if missing.contains(&candidate.filename) {
            let total = combined_score(hit.distance, candidate.index, page.index, divisor);
            let better = match best {
                None => true,
                Some(held) => total < least || (total == least && hit.slot < held.slot),
            };
            if better {
                best = Some(hit);
                least = total;
            }
        }
        k += 1;
    }
    proof {
        match best {
            Some(hit) => {
                let s = hit.slot as int;
                assert forall|t: int| #[trigger]
                    eligible(old, missing@, page@, thr, t) implies slot_score(old, page@, div, s)
                    < slot_score(old, page@, div, t) || (slot_score(old, page@, div, s)
                    == slot_score(old, page@, div, t) && s <= t) by {
                    let i = choose|i: int| 0 <= i < hits@.len() && (#[trigger] hits@[i]).slot == t;
                    assert(hits@[i].slot == t);
                }
                winner_is_unique(old, missing@, page@, thr, div, s);
            },
            None => {
                assert forall|t: int| !eligible(old, missing@, page@, thr, t) by {
                    if eligible(old, missing@, page@, thr, t) {
                        let i = choose|i: int|
                            0 <= i < hits@.len() && (#[trigger] hits@[i]).slot == t;
                        assert(hits@[i].slot == t);
                    }
                }
                no_winner_without_candidates(old, missing@, page@, thr, div);
            },
        }
    }
    best
}

/// Pairs the pages of `new`, in their order, with pages of `index`, under
/// the position divisor [`POSITION_DIVISOR`].
pub fn match_pages(new: &Vec<HashedImage>, index: &MetricIndex, threshold: isize) -> (result:
    Matching)
    requires
        index.wf(),
    ensures
        result.missing.wf(),
        result.mapping@.len() == new@.len(),
        match_models(result.mapping@) == mapping(
            index@,
            models(new@),
            threshold as int,
            POSITION_DIVISOR as nat,
        ),
        result.missing@ == missing_after(
            index@,
            models(new@),
            threshold as int,
            POSITION_DIVISOR as nat,
            new@.len(),
        ),
        in_order_of_first_sight(result.missing.listing(), index@),
{
    match_pages_with(new, index, threshold, POSITION_DIVISOR)
}

/// Pairs the pages of `new`, in their order, with pages of `index`: each
/// page claims the eligible old page of least combined score, and a claimed
/// page is eligible no more.
pub fn match_pages_with(
    new: &Vec<HashedImage>,
    index: &MetricIndex,
    threshold: isize,
    divisor: usize,
) -> (result: Matching)
    requires
        index.wf(),
        divisor > 0,
    ensures
        result.missing.wf(),
        result.mapping@.len() == new@.len(),
        match_models(result.mapping@) == mapping(
            index@,
            models(new@),
            threshold as int,
            divisor as nat,
        ),
        result.missing@ == missing_after(
            index@,
            models(new@),
            threshold as int,
            divisor as nat,
            new@.len(),
        ),
        in_order_of_first_sight(result.missing.listing(), index@),
{
    let ghost old = index@;
    let ghost pages = models(new@);
    let ghost thr = threshold as int;
    let ghost div = divisor as nat;
    let mut missing = MissingSet::of(index.iter());
    let mut matches: Vec<Match> = Vec::new();
    let mut n: usize = 0;
    while n < new.len()
        invariant
            n <= new@.len(),
            index.wf(),
            divisor > 0,
            old == index@,
            pages == models(new@),
            thr == threshold as int,
            div == divisor as nat,
            missing.wf(),
            missing@ == missing_after(old, pages, thr, div, n as nat),
            in_order_of_first_sight(missing.listing(), old),
            matches@.len() == n,
            forall|i: int|
                0 <= i < n ==> (#[trigger] matches@[i])@ == expected_match(old, pages, thr, div, i),
        decreases new@.len() - n,
    {
        let page = &new[n];
        assert(pages[n as int] == page@);
        let best = best_candidate(index, &missing, page, threshold, divisor);
        let dst = match best {
            Some(hit) => {
                let claimed = index.item(hit.slot);
                let ghost held = missing.listing();
                let was_held = missing.try_claim(&claimed.filename);
                proof {
                    if was_held {
                        let k = choose|k: int|
                            0 <= k < held.len() && #[trigger] held[k] == claimed.filename@
                                && missing.listing() == held.remove(k);
                        order_outlasts_removal(held, old, k);
                    }
                }
                Some((claimed.clone(), hit.distance))
            },
            None => None,
        };
        matches.push(Match { src: page.clone(), dst });
        n += 1;
    }
    proof {
        assert(match_models(matches@) =~= mapping(old, pages, thr, div));
    }
    Matching { mapping: matches, missing }
}

/// The name of the old page on a line of the mapping, if the line has one.
pub open spec fn old_name(line: MatchModel) -> Option<Seq<u8>> {
    match line.dst {
        Some((image, _)) => Some(image.filename),
        None => None,
    }
}

/// Whether the `m`-th page claims an old page called `name`.
pub open spec fn claims_name(
    old: Seq<ImageModel>,
    pages: Seq<ImageModel>,
    threshold: int,
    divisor: nat,
    m: int,
    name: Seq<u8>,
) -> bool {
    claimed_by(old, pages, threshold, divisor, m) matches Some(s) && old[s].filename == name
}

/// The names that the first `n` pages have claimed.
pub open spec fn claimed_names(
    old: Seq<ImageModel>,
    pages: Seq<ImageModel>,
    threshold: int,
    divisor: nat,
    n: nat,
) -> Set<Seq<u8>> {
    Set::new(
        |name: Seq<u8>|
            exists|m: int|
                0 <= m < n && #[trigger] claims_name(old, pages, threshold, divisor, m, name),
    )
}

/// A slot that a page claims is a winner: it was eligible when the page
/// made its claim.
pub proof fn claim_was_eligible(
    old: Seq<ImageModel>,
    pages: Seq<ImageModel>,
    threshold: int,
    divisor: nat,
    n: int,
)
    requires
        claimed_by(old, pages, threshold, divisor, n) is Some,
    ensures
        wins(
            old,
            missing_after(old, pages, threshold, divisor, n as nat),
            pages[n],
            threshold,
            divisor,
            claimed_by(old, pages, threshold, divisor, n)->0,
        ),
{
}

/// The missing set only shrinks, and a name once claimed stays out of it.
pub proof fn claimed_stays_claimed(
    old: Seq<ImageModel>,
    pages: Seq<ImageModel>,
    threshold: int,
    divisor: nat,
    m: int,
    n: int,
)
    requires
        0 <= m < n,
        claimed_by(old, pages, threshold, divisor, m) is Some,
    ensures
        !missing_after(old, pages, threshold, divisor, n as nat).contains(
            old[claimed_by(old, pages, threshold, divisor, m)->0].filename,
        ),
    decreases n,
{
    if n > m + 1 {
        claimed_stays_claimed(old, pages, threshold, divisor, m, n - 1);
    }
}

/// Matching is injective on the old side: two pages of the new scan never
/// claim old pages of one name.
pub proof fn matching_is_injective(
    old: Seq<ImageModel>,
    pages: Seq<ImageModel>,
    threshold: int,
    divisor: nat,
    m: int,
    n: int,
)
    requires
        0 <= m < pages.len(),
        0 <= n < pages.len(),
        m != n,
        mapping(old, pages, threshold, divisor)[m].dst is Some,
        mapping(old, pages, threshold, divisor)[n].dst is Some,
    ensures
        old_name(mapping(old, pages, threshold, divisor)[m]) != old_name(
            mapping(old, pages, threshold, divisor)[n],
        ),
{
    let first = if m < n { m } else { n };
    let second = if m < n { n } else { m };
    claimed_stays_claimed(old, pages, threshold, divisor, first, second);
    claim_was_eligible(old, pages, threshold, divisor, second);
}

/// Matching is total on the new side: the mapping has one line for each
/// page of the new scan, in their order, and the line names that page.
pub proof fn matching_is_total(
    old: Seq<ImageModel>,
    pages: Seq<ImageModel>,
    threshold: int,
    divisor: nat,
)
    ensures
        mapping(old, pages, threshold, divisor).len() == pages.len(),
        forall|n: int|
            0 <= n < pages.len() ==> (#[trigger] mapping(old, pages, threshold, divisor)[n]).src
                == pages[n],
{
}

/// A page is paired only with a page within the threshold, and the line
/// gives the distance between the two.
pub proof fn matches_lie_within_threshold(
    old: Seq<ImageModel>,
    pages: Seq<ImageModel>,
    threshold: int,
    divisor: nat,
    n: int,
)
    requires
        0 <= n < pages.len(),
        mapping(old, pages, threshold, divisor)[n].dst is Some,
    ensures
        ({
            let (image, distance) = mapping(old, pages, threshold, divisor)[n].dst->0;
            &&& distance == hamming(image.fingerprint, pages[n].fingerprint)
            &&& distance <= threshold
            &&& filenames(old).contains(image.filename)
        }),
{
    claim_was_eligible(old, pages, threshold, divisor, n);
    let s = claimed_by(old, pages, threshold, divisor, n)->0;
    assert(old[s].filename == old[s].filename);
}

/// The missing set after `n` pages is the names of the old scan without
/// the names that those pages claimed.
pub proof fn missing_is_old_minus_claimed(
    old: Seq<ImageModel>,
    pages: Seq<ImageModel>,
    threshold: int,
    divisor: nat,
    n: nat,
)
    ensures
        missing_after(old, pages, threshold, divisor, n) == filenames(old).difference(
            claimed_names(old, pages, threshold, divisor, n),
        ),
    decreases n,
{
    let now = claimed_names(old, pages, threshold, divisor, n);
    if n == 0 {
        assert(filenames(old).difference(now) =~= filenames(old));
    } else {
        let m = (n - 1) as nat;
        let before = claimed_names(old, pages, threshold, divisor, m);
        missing_is_old_minus_claimed(old, pages, threshold, divisor, m);
        let last = claimed_by(old, pages, threshold, divisor, m as int);
        assert forall|name: Seq<u8>| now.contains(name) <==> before.contains(name) || (last matches Some(
            s,
        ) && old[s].filename == name) by {
            if now.contains(name) {
                let w = choose|w: int|
                    0 <= w < n && #[trigger] claims_name(old, pages, threshold, divisor, w, name);
                if w < m {
                    assert(claims_name(old, pages, threshold, divisor, w, name));
                }
            }
            if before.contains(name) {
                let w = choose|w: int|
                    0 <= w < m && #[trigger] claims_name(old, pages, threshold, divisor, w, name);
                assert(claims_name(old, pages, threshold, divisor, w, name));
            }
            if last matches Some(s) && old[s].filename == name {
                assert(claims_name(old, pages, threshold, divisor, m as int, name));
            }
        }
        match last {
            Some(s) => {
                assert(now =~= before.insert(old[s].filename));
                assert(filenames(old).difference(now) =~= filenames(old).difference(before).remove(
                    old[s].filename,
                ));
            },
            None => {
                assert(now =~= before);
            },
        }
    }
}

/// Matching is repeatable: two runs on the same old pages, the same new
/// pages, the same threshold and the same divisor end with the same mapping
/// and the same missing set.
pub proof fn matching_is_repeatable(
    old: Seq<ImageModel>,
    pages: Seq<ImageModel>,
    threshold: int,
    divisor: nat,
    first: (Seq<MatchModel>, Set<Seq<u8>>),
    second: (Seq<MatchModel>, Set<Seq<u8>>),
)
    requires
        first.0 == mapping(old, pages, threshold, divisor),
        first.1 == missing_after(old, pages, threshold, divisor, pages.len()),
        second.0 == mapping(old, pages, threshold, divisor),
        second.1 == missing_after(old, pages, threshold, divisor, pages.len()),
    ensures
        first == second,
{
}

} // verus!
