//! Pages as a directory lists them, and the order that makes them a sequence.

use crate::arrange::placing_keeps_order;
use crate::arrange::stably_placed;
use crate::bytes::lex_less;
use crate::bytes::lex_less_total;
use crate::bytes::lex_less_transitive;
use crate::bytes::precedes;
use crate::bytes::same_bytes;
use vstd::multiset::Multiset;
use vstd::prelude::*;

verus! {

/// A file found in the directory of a scan.
pub struct Page {
    /// The path of the file, as bytes.
    pub path: Vec<u8>,
    /// The length of the file in bytes.
    pub size: usize,
}

impl Page {
    /// Whether the two pages have the same path. Pages are equal by their
    /// path alone.
    pub fn same_path(&self, other: &Page) -> (same: bool)
        ensures
            same == (self.path@ == other.path@),
    {
        same_bytes(&self.path, &other.path)
    }

    /// Whether this page comes before `other`: pages are ordered by their
    /// paths, lexicographically.
    pub fn comes_before(&self, other: &Page) -> (before: bool)
        ensures
            before == lex_less(self.path@, other.path@),
    {
        precedes(&self.path, &other.path)
    }
}

/// Whether no page of `pages` comes before a page that stands earlier.
pub open spec fn in_order(pages: Seq<Page>) -> bool {
    forall|i: int, j: int|
        0 <= i < j < pages.len() ==> !lex_less((#[trigger] pages[j]).path@, (#[trigger] pages[i]).path@)
}

/// Whether `sorted` holds the pages of `pages`, each once, where `origin`
/// gives for each position of `sorted` the position in `pages` that its page
/// came from, and pages of one path stand in the order in which they came.
pub open spec fn arranged(pages: Seq<Page>, sorted: Seq<Page>, origin: Seq<int>) -> bool {
    &&& sorted.len() == pages.len()
    &&& origin.len() == pages.len()
    &&& forall|k: int|
        0 <= k < sorted.len() ==> 0 <= #[trigger] origin[k] < pages.len() && sorted[k]
            == pages[origin[k]]
    &&& forall|k: int, l: int|
        0 <= k < l < sorted.len() ==> #[trigger] origin[k] != #[trigger] origin[l]
    &&& forall|k: int, l: int|
        0 <= k < l < sorted.len() && sorted[k].path@ == sorted[l].path@ ==> #[trigger] origin[k]
            < #[trigger] origin[l]
}

/// The order of pages: `a` does not come after `b`.
pub open spec fn not_after() -> spec_fn(Page, Page) -> bool {
    |a: Page, b: Page| !lex_less(b.path@, a.path@)
}

/// Sorts the pages by path. The position of a page in the result is its
/// sequence index. Pages of one path keep their order.
pub fn sort_pages(pages: Vec<Page>) -> (sorted: Vec<Page>)
    ensures
        in_order(sorted@),
        sorted@.to_multiset() == pages@.to_multiset(),
        exists|origin: Seq<int>| arranged(pages@, sorted@, origin),
{
    let ghost n = pages@.len();
    let mut rest = pages;
    let mut sorted: Vec<Page> = Vec::new();
    let ghost mut origin: Seq<int> = Seq::empty();
    proof {
        assert(sorted@.to_multiset() =~= Multiset::<Page>::empty()) by {
            sorted@.to_multiset_ensures();
        }
        assert(sorted@.to_multiset().add(rest@.to_multiset()) =~= pages@.to_multiset());
        assert(rest@ =~= pages@.subrange(0, n as int));
    }
    while rest.len() > 0
        invariant
            n == pages@.len(),
            sorted@.to_multiset().add(rest@.to_multiset()) == pages@.to_multiset(),
            rest@.len() + sorted@.len() == n,
            rest@ == pages@.subrange(0, rest@.len() as int),
            stably_placed(pages@, sorted@, origin, rest@.len() as int, not_after()),
        decreases rest@.len(),
    {
        let ghost waiting = rest@;
        let ghost placed = sorted@;
        let page = rest.pop().unwrap();
        let ghost m = rest@.len() as int;
        let mut at: usize = 0;
        while at < sorted.len() && sorted[at].comes_before(&page)
            invariant
                sorted@ == placed,
                at <= placed.len(),
                forall|i: int| 0 <= i < at ==> lex_less((#[trigger] placed[i]).path@, page.path@),
            decreases placed.len() - at,
        {
            at += 1;
        }
        sorted.insert(at, page);
        proof {
            assert(waiting =~= rest@.push(page));
            assert(page == pages@[m]) by {
                assert(waiting[m] == pages@.subrange(0, waiting.len() as int)[m]);
            }
            assert(rest@ =~= pages@.subrange(0, m));
            vstd::seq_lib::to_multiset_build(rest@, page);
            vstd::seq_lib::to_multiset_insert(placed, at as int, page);
            assert(sorted@.to_multiset().add(rest@.to_multiset()) =~= placed.to_multiset().add(
                waiting.to_multiset(),
            ));
            assert forall|i: int| 0 <= i < at implies not_after()(#[trigger] placed[i], page)
                && !not_after()(page, placed[i]) by {
                lex_less_total(placed[i].path@, page.path@);
            }
            assert forall|j: int| at <= j < placed.len() implies not_after()(
                page,
                #[trigger] placed[j],
            ) by {
                let first = placed[at as int].path@;
                let later = placed[j].path@;
                if j > at && lex_less(later, page.path@) {
                    assert(not_after()(placed[at as int], placed[j]));
                    lex_less_total(first, later);
                    if lex_less(first, later) {
                        lex_less_transitive(first, later, page.path@);
                    }
                }
            }
            placing_keeps_order(pages@, placed, origin, at as int, m, not_after());
            origin = origin.insert(at as int, m);
        }
    }
    proof {
        assert(rest@.to_multiset() =~= Multiset::<Page>::empty()) by {
            rest@.to_multiset_ensures();
        }
        assert(sorted@.to_multiset().add(rest@.to_multiset()) =~= sorted@.to_multiset());
        assert forall|k: int, l: int|
            0 <= k < l < sorted@.len() && sorted@[k].path@ == sorted@[l].path@
                implies #[trigger] origin[k] < #[trigger] origin[l] by {
            lex_less_total(sorted@[k].path@, sorted@[l].path@);
            assert(not_after()(sorted@[l], sorted@[k]));
        }
        assert forall|i: int, j: int| 0 <= i < j < sorted@.len() implies !lex_less(
            (#[trigger] sorted@[j]).path@,
            (#[trigger] sorted@[i]).path@,
        ) by {
            assert(not_after()(sorted@[i], sorted@[j]));
        }
        assert(arranged(pages@, sorted@, origin));
    }
    sorted
}

} // verus!
