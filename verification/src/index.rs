//! The metric index: pages kept in a BK-tree under the Hamming distance of
//! their fingerprints, answering "every page within this distance".

use crate::fingerprint::hamming;
use crate::fingerprint::Fingerprint;
use crate::hashed::image_distance;
use crate::hashed::models;
use crate::hashed::HashedImage;
use crate::hashed::ImageModel;
use vstd::prelude::*;

verus! {

#[verifier::external_type_specification]
#[verifier::external_body]
#[verifier::reject_recursive_types(T)]
pub struct ExBkTree<T>(bktree::BkTree<T>);

/// What the tree keeps of an indexed page: the slot of the page in the index
/// and a copy of its fingerprint.
pub struct Entry {
    pub slot: usize,
    pub fingerprint: Fingerprint,
}

/// The distance under which the tree is built.
pub fn entry_distance(a: &Entry, b: &Entry) -> (d: isize)
    ensures
        d == hamming(a.fingerprint@, b.fingerprint@),
{
    a.fingerprint.distance(&b.fingerprint) as isize
}

/// The entries that a tree holds, each as its slot and the bytes of its
/// fingerprint.
pub uninterp spec fn tree_entries(tree: bktree::BkTree<Entry>) -> Set<(nat, Seq<u8>)>;

/// Whether every fingerprint among `entries` is `width` bytes wide.
pub open spec fn one_width(entries: Set<(nat, Seq<u8>)>, width: nat) -> bool {
    forall|e: (nat, Seq<u8>)| #[trigger] entries.contains(e) ==> e.1.len() == width
}

/// Whether no two of `entries` share a slot.
pub open spec fn slots_distinct(entries: Set<(nat, Seq<u8>)>) -> bool {
    forall|e1: (nat, Seq<u8>), e2: (nat, Seq<u8>)|
        #[trigger] entries.contains(e1) && #[trigger] entries.contains(e2) && e1.0 == e2.0 ==> e1
            == e2
}

/// Whether `hit` reports one of `entries` that lies within `radius` of
/// `query`, with its distance.
pub open spec fn reports_entry(
    entries: Set<(nat, Seq<u8>)>,
    query: Seq<u8>,
    radius: int,
    hit: (usize, isize),
) -> bool {
    exists|bytes: Seq<u8>|
        #[trigger] entries.contains((hit.0 as nat, bytes)) && hit.1 == hamming(bytes, query)
            && hit.1 <= radius
}

/// Calls `bktree::BkTree::new` with [`entry_distance`] as the distance. The
/// contract claims that the new tree holds nothing: its root is `None`.
#[verifier::external_body]
fn tree_new() -> (tree: bktree::BkTree<Entry>)
    ensures
        tree_entries(tree) == Set::<(nat, Seq<u8>)>::empty(),
{
    bktree::BkTree::new(|a: &Entry, b: &Entry| entry_distance(a, b))
}

/// Calls `bktree::BkTree::insert`. That method walks down from the root and
/// gives the value up only where it meets a node at distance 0; otherwise it
/// hangs the value below the last node on its way. The contract leaves out the
/// inputs on which a node at distance 0 exists and claims that on the others the
/// tree holds one entry more.
#[verifier::external_body]
fn tree_insert(tree: &mut bktree::BkTree<Entry>, entry: Entry)
    requires
        forall|e: (nat, Seq<u8>)| #[trigger]
            tree_entries(*old(tree)).contains(e) ==> hamming(e.1, entry.fingerprint@) != 0,
    ensures
        tree_entries(*final(tree)) == tree_entries(*old(tree)).insert(
            (entry.slot as nat, entry.fingerprint@),
        ),
{
    tree.insert(entry)
}

/// Calls `bktree::BkTree::find` and keeps the slot of each entry found. That
/// method visits the nodes from the root, reports each visited node whose
/// distance to the query is at most `radius`, and skips a subtree only where
/// its arc differs from the distance of its parent by more than `radius`. The
/// contract claims that the hits are the entries within `radius`, each once,
/// with its distance. No entry is missed because among fingerprints of one
/// width the Hamming distance is symmetric and obeys the triangle inequality;
/// the contract leaves out trees and queries of mixed widths.
#[verifier::external_body]
fn tree_find(tree: &bktree::BkTree<Entry>, probe: Entry, radius: isize) -> (hits: Vec<
    (usize, isize),
>)
    requires
        one_width(tree_entries(*tree), probe.fingerprint@.len()),
        slots_distinct(tree_entries(*tree)),
    ensures
        forall|k: int|
            0 <= k < hits@.len() ==> reports_entry(
                tree_entries(*tree),
                probe.fingerprint@,
                radius as int,
                #[trigger] hits@[k],
            ),
        forall|e: (nat, Seq<u8>)| #[trigger]
            tree_entries(*tree).contains(e) && hamming(e.1, probe.fingerprint@) <= radius
                ==> exists|k: int| 0 <= k < hits@.len() && (#[trigger] hits@[k]).0 == e.0,
        forall|i: int, j: int|
            0 <= i < j < hits@.len() ==> (#[trigger] hits@[i]).0 != (#[trigger] hits@[j]).0,
{
    tree.find(probe, radius).into_iter().map(|(entry, distance)| (entry.slot, distance)).collect()
}

/// One answer to a query: an indexed page, named by its slot, and its
/// distance to the query.
#[derive(Clone, Copy)]
pub struct Hit {
    /// The position of the page in the index, in the order of insertion.
    pub slot: usize,
    /// The distance from the page to the query.
    pub distance: isize,
}

/// Whether `slot` is one of `side`.
pub open spec fn sidelined(side: Seq<usize>, slot: nat) -> bool {
    exists|k: int| 0 <= k < side.len() && #[trigger] side[k] == slot
}

/// Whether `hits` are exactly the pages of `items` within `radius` of
/// `query`, each once, each with its distance. Their order is left open.
pub open spec fn answers(hits: Seq<Hit>, items: Seq<ImageModel>, query: Seq<u8>, radius: int) -> bool {
    &&& forall|k: int|
        0 <= k < hits.len() ==> {
            &&& (#[trigger] hits[k]).slot < items.len()
            &&& hits[k].distance == hamming(items[hits[k].slot as int].fingerprint, query)
            &&& hits[k].distance <= radius
        }
    &&& forall|s: int|
        0 <= s < items.len() && hamming((#[trigger] items[s]).fingerprint, query) <= radius
            ==> exists|k: int| 0 <= k < hits.len() && (#[trigger] hits[k]).slot == s
    &&& forall|i: int, j: int|
        0 <= i < j < hits.len() ==> (#[trigger] hits[i]).slot != (#[trigger] hits[j]).slot
}

/// A set of pages that answers radius queries under the Hamming distance of
/// their fingerprints.
///
/// The pages are kept in the order of insertion; the position of a page in
/// that order is its slot. A BK-tree holds the fingerprints. The tree prunes
/// by the triangle inequality, which holds among fingerprints of one width,
/// and it keeps one entry per fingerprint; a page that the tree cannot take
/// (its fingerprint is already there, or has another width) is kept on the
/// side and compared directly.
pub struct MetricIndex {
    items: Vec<HashedImage>,
    tree: bktree::BkTree<Entry>,
    side: Vec<usize>,
    width: usize,
    rooted: bool,
}

impl View for MetricIndex {
    type V = Seq<ImageModel>;

    closed spec fn view(&self) -> Seq<ImageModel> {
        models(self.items@)
    }
}

impl MetricIndex {
    /// The invariant of the index: the side list names slots in rising order,
    /// and the tree holds exactly the other slots, all of one width.
    pub closed spec fn wf(&self) -> bool {
        &&& forall|k: int| 0 <= k < self.side@.len() ==> #[trigger] self.side@[k] < self.items@.len()
        &&& forall|i: int, j: int|
            0 <= i < j < self.side@.len() ==> #[trigger] self.side@[i] < #[trigger] self.side@[j]
        &&& forall|e: (nat, Seq<u8>)| #[trigger]
            tree_entries(self.tree).contains(e) <==> e.0 < self.items@.len() && !sidelined(
                self.side@,
                e.0,
            ) && e.1 == self.items@[e.0 as int]@.fingerprint
        &&& one_width(tree_entries(self.tree), self.width as nat)
        &&& !self.rooted ==> tree_entries(self.tree) == Set::<(nat, Seq<u8>)>::empty()
    }

    /// An index that holds no page.
    pub fn new() -> (index: MetricIndex)
        ensures
            index.wf(),
            index@ == Seq::<ImageModel>::empty(),
    {
        let index = MetricIndex {
            items: Vec::new(),
            tree: tree_new(),
            side: Vec::new(),
            width: 0,
            rooted: false,
        };
        assert(index@ =~= Seq::<ImageModel>::empty());
        index
    }

    /// The number of pages.
    pub fn len(&self) -> (n: usize)
        ensures
            n == self@.len(),
    {
        self.items.len()
    }

    /// The page at `slot`.
    pub fn item(&self, slot: usize) -> (image: &HashedImage)
        requires
            slot < self@.len(),
        ensures
            image@ == self@[slot as int],
    {
        &self.items[slot]
    }

    /// Every page, in the order of insertion.
    pub fn iter(&self) -> (all: &Vec<HashedImage>)
        ensures
            models(all@) == self@,
    {
        &self.items
    }

    /// Adds a page at the end.
    pub fn insert(&mut self, item: HashedImage)
        requires
            old(self).wf(),
        ensures
            final(self).wf(),
            final(self)@ == old(self)@.push(item@),
    {
        let slot = self.items.len();
        let width = item.hash.width();
        let ghost before = tree_entries(self.tree);
        let ghost old_side = self.side@;
        let ghost old_items = self.items@;
        let mut taken = false;
        if !self.rooted || width == self.width {
            proof {
                self.tree_slots_distinct();
            }
            let probe = Entry { slot, fingerprint: item.hash.clone() };
            let twins = tree_find(&self.tree, probe, 0);
            if twins.len() == 0 {
                let entry = Entry { slot, fingerprint: item.hash.clone() };
                assert forall|e: (nat, Seq<u8>)| #[trigger]
                    before.contains(e) implies hamming(e.1, entry.fingerprint@) != 0 by {
                    if hamming(e.1, entry.fingerprint@) == 0 {
                        let k = choose|k: int| 0 <= k < twins@.len() && (#[trigger] twins@[k]).0 == e.0;
                    }
                }
                tree_insert(&mut self.tree, entry);
                self.width = width;
                self.rooted = true;
                taken = true;
            }
        }
        if !taken {
            self.side.push(slot);
        }
        self.items.push(item);
        proof {
            assert(self@ =~= old(self)@.push(item@));
            assert forall|e: (nat, Seq<u8>)| #[trigger]
                tree_entries(self.tree).contains(e) <==> e.0 < self.items@.len() && !sidelined(
                    self.side@,
                    e.0,
                ) && e.1 == self.items@[e.0 as int]@.fingerprint by {
                if e.0 < old_items.len() {
                    assert(self.items@[e.0 as int] == old_items[e.0 as int]);
                    if sidelined(old_side, e.0) {
                        let k = choose|k: int| 0 <= k < old_side.len() && #[trigger] old_side[k] == e.0;
                        assert(self.side@[k] == e.0);
                    }
                    if sidelined(self.side@, e.0) {
                        let k = choose|k: int|
                            0 <= k < self.side@.len() && #[trigger] self.side@[k] == e.0;
                        assert(old_side[k] == e.0);
                    }
                } else if e.0 == old_items.len() {
                    if !taken {
                        assert(self.side@[old_side.len() as int] == e.0);
                    } else {
                        if sidelined(self.side@, e.0) {
                            let k = choose|k: int|
                                0 <= k < self.side@.len() && #[trigger] self.side@[k] == e.0;
                        }
                    }
                }
            }
        }
    }

    /// Adds every page of `items`, in their order.
    pub fn insert_all(&mut self, items: Vec<HashedImage>)
        requires
            old(self).wf(),
        ensures
            final(self).wf(),
            final(self)@ == old(self)@ + models(items@),
    {
        let mut items = items;
        let ghost all = items@;
        let ghost start = self@;
        let mut rest: Vec<HashedImage> = Vec::new();
        // Take the pages from the back into `rest`, then from the back of
        // `rest`, so that they arrive in their own order.
        while items.len() > 0
            invariant
                items@.len() + rest@.len() == all.len(),
                forall|k: int| 0 <= k < items@.len() ==> items@[k] == all[k],
                forall|k: int|
                    0 <= k < rest@.len() ==> #[trigger] rest@[k] == all[all.len() - 1 - k],
            decreases items@.len(),
        {
            let item = items.pop().unwrap();
            rest.push(item);
        }
        while rest.len() > 0
            invariant
                self.wf(),
                rest@.len() <= all.len(),
                forall|k: int|
                    0 <= k < rest@.len() ==> #[trigger] rest@[k] == all[all.len() - 1 - k],
                self@ == start + models(all.subrange(0, all.len() - rest@.len())),
            decreases rest@.len(),
        {
            let ghost done = all.len() - rest@.len();
            let item = rest.pop().unwrap();
            assert(item == all[done]);
            self.insert(item);
            assert(models(all.subrange(0, done + 1)) =~= models(all.subrange(0, done)).push(
                all[done]@,
            ));
        }
        assert(all.subrange(0, all.len() as int) =~= all);
    }

    /// Every page within `radius` of `query`, each once, with its distance.
    pub fn find(&self, query: &HashedImage, radius: isize) -> (hits: Vec<Hit>)
        requires
            self.wf(),
        ensures
            answers(hits@, self@, query@.fingerprint, radius as int),
    {
        let mut hits: Vec<Hit> = Vec::new();
        if !self.rooted || query.hash.width() == self.width {
            proof {
                self.tree_slots_distinct();
            }
            let probe = Entry { slot: 0, fingerprint: query.hash.clone() };
            let found = tree_find(&self.tree, probe, radius);
            let mut k: usize = 0;
            while k < found.len()
                invariant
                    k <= found@.len(),
                    hits@.len() == k,
                    forall|n: int|
                        0 <= n < k ==> (#[trigger] hits@[n]).slot == found@[n].0 && hits@[n].distance
                            == found@[n].1,
                decreases found@.len() - k,
            {
                hits.push(Hit { slot: found[k].0, distance: found[k].1 });
                k += 1;
            }
            let ghost from_tree = hits@;
            let mut n: usize = 0;
            while n < self.side.len()
                invariant
                    self.wf(),
                    n <= self.side@.len(),
                    from_tree.len() <= hits@.len(),
                    hits@.subrange(0, from_tree.len() as int) == from_tree,
                    forall|m: int|
                        from_tree.len() <= m < hits@.len() ==> {
                            &&& sidelined(self.side@.subrange(0, n as int), (#[trigger] hits@[m]).slot as nat)
                            &&& hits@[m].slot < self@.len()
                            &&& hits@[m].distance == hamming(
                                self@[hits@[m].slot as int].fingerprint,
                                query@.fingerprint,
                            )
                            &&& hits@[m].distance <= radius
                        },
                    forall|i: int|
                        0 <= i < n && hamming(
                            self@[(#[trigger] self.side@[i]) as int].fingerprint,
                            query@.fingerprint,
                        ) <= radius ==> exists|m: int|
                            from_tree.len() <= m < hits@.len() && (#[trigger] hits@[m]).slot
                                == self.side@[i],
                    forall|i: int, j: int|
                        from_tree.len() <= i < j < hits@.len() ==> (#[trigger] hits@[i]).slot < (
                        #[trigger] hits@[j]).slot,
                decreases self.side@.len() - n,
            {
                let slot = self.side[n];
                let distance = image_distance(&self.items[slot], query);
                let ghost previous = hits@;
                if distance <= radius {
                    hits.push(Hit { slot, distance });
                }
                proof {
                    let ghost upto = self.side@.subrange(0, n as int);
                    let ghost next = self.side@.subrange(0, n + 1);
                    assert(next =~= upto.push(slot));
                    assert forall|m: int| from_tree.len() <= m < hits@.len() implies sidelined(
                        next,
                        (#[trigger] hits@[m]).slot as nat,
                    ) by {
                        if m < previous.len() {
                            assert(hits@[m] == previous[m]);
                            let w = choose|w: int|
                                0 <= w < upto.len() && #[trigger] upto[w] == previous[m].slot;
                            assert(next[w] == previous[m].slot);
                        } else {
                            assert(next[n as int] == slot);
                        }
                    }
                    assert forall|i: int, j: int|
                        from_tree.len() <= i < j < hits@.len() implies (#[trigger] hits@[i]).slot < (
                    #[trigger] hits@[j]).slot by {
                        if j >= previous.len() {
                            assert(hits@[i] == previous[i]);
                            let w = choose|w: int|
                                0 <= w < upto.len() && #[trigger] upto[w] == previous[i].slot;
                            assert(self.side@[w] < self.side@[n as int]);
                        } else {
                            assert(hits@[i] == previous[i]);
                            assert(hits@[j] == previous[j]);
                        }
                    }
                    assert forall|i: int|
                        0 <= i < n + 1 && hamming(
                            self@[(#[trigger] self.side@[i]) as int].fingerprint,
                            query@.fingerprint,
                        ) <= radius implies exists|m: int|
                        from_tree.len() <= m < hits@.len() && (#[trigger] hits@[m]).slot
                            == self.side@[i] by {
                        if i < n {
                            let m = choose|m: int|
                                from_tree.len() <= m < previous.len() && (#[trigger] previous[m]).slot
                                    == self.side@[i];
                            assert(hits@[m] == previous[m]);
                        } else {
                            assert(hits@[previous.len() as int].slot == slot);
                        }
                    }
                    assert(hits@.subrange(0, from_tree.len() as int) =~= from_tree);
                }
                n += 1;
            }
            proof {
                assert(self.side@.subrange(0, self.side@.len() as int) =~= self.side@);
                assert forall|n: int| 0 <= n < found@.len() implies (#[trigger] hits@[n])
                    == from_tree[n] by {
                    assert(hits@.subrange(0, from_tree.len() as int)[n] == hits@[n]);
                }
                self.answers_from_parts(hits@, found@, query@.fingerprint, radius as int);
            }
        } else {
            let mut slot: usize = 0;
            while slot < self.items.len()
                invariant
                    slot <= self.items@.len(),
                    forall|m: int|
                        0 <= m < hits@.len() ==> {
                            &&& (#[trigger] hits@[m]).slot < slot
                            &&& hits@[m].distance == hamming(
                                self@[hits@[m].slot as int].fingerprint,
                                query@.fingerprint,
                            )
                            &&& hits@[m].distance <= radius
                        },
                    forall|s: int|
                        0 <= s < slot && hamming((#[trigger] self@[s]).fingerprint, query@.fingerprint)
                            <= radius ==> exists|m: int|
                            0 <= m < hits@.len() && (#[trigger] hits@[m]).slot == s,
                    forall|i: int, j: int|
                        0 <= i < j < hits@.len() ==> (#[trigger] hits@[i]).slot < (
                        #[trigger] hits@[j]).slot,
                decreases self.items@.len() - slot,
            {
                let distance = image_distance(&self.items[slot], query);
                let ghost previous = hits@;
                if distance <= radius {
                    hits.push(Hit { slot, distance });
                }
                proof {
                    assert forall|s: int|
                        0 <= s < slot + 1 && hamming(
                            (#[trigger] self@[s]).fingerprint,
                            query@.fingerprint,
                        ) <= radius implies exists|m: int|
                        0 <= m < hits@.len() && (#[trigger] hits@[m]).slot == s by {
                        if s < slot {
                            let m = choose|m: int|
                                0 <= m < previous.len() && (#[trigger] previous[m]).slot == s;
                            assert(hits@[m] == previous[m]);
                        } else {
                            assert(hits@[previous.len() as int].slot == slot);
                        }
                    }
                }
                slot += 1;
            }
        }
        hits
    }

    /// In a well-formed index no two entries of the tree share a slot.
    proof fn tree_slots_distinct(&self)
        requires
            self.wf(),
        ensures
            slots_distinct(tree_entries(self.tree)),
            !self.rooted ==> forall|w: nat| one_width(tree_entries(self.tree), w),
    {
    }

    /// What the tree reported and what the side list gave are together the
    /// answer to the query.
    proof fn answers_from_parts(
        &self,
        hits: Seq<Hit>,
        found: Seq<(usize, isize)>,
        query: Seq<u8>,
        radius: int,
    )
        requires
            self.wf(),
            found.len() <= hits.len(),
            forall|n: int|
                0 <= n < found.len() ==> (#[trigger] hits[n]).slot == found[n].0 && hits[n].distance
                    == found[n].1,
            forall|k: int|
                0 <= k < found.len() ==> reports_entry(
                    tree_entries(self.tree),
                    query,
                    radius,
                    #[trigger] found[k],
                ),
            forall|e: (nat, Seq<u8>)| #[trigger]
                tree_entries(self.tree).contains(e) && hamming(e.1, query) <= radius ==> exists|
                    k: int,
                | 0 <= k < found.len() && (#[trigger] found[k]).0 == e.0,
            forall|i: int, j: int|
                0 <= i < j < found.len() ==> (#[trigger] found[i]).0 != (#[trigger] found[j]).0,
            forall|m: int|
                found.len() <= m < hits.len() ==> {
                    &&& sidelined(self.side@, (#[trigger] hits[m]).slot as nat)
                    &&& hits[m].slot < self@.len()
                    &&& hits[m].distance == hamming(self@[hits[m].slot as int].fingerprint, query)
                    &&& hits[m].distance <= radius
                },
            forall|i: int|
                0 <= i < self.side@.len() && hamming(
                    self@[(#[trigger] self.side@[i]) as int].fingerprint,
                    query,
                ) <= radius ==> exists|m: int|
                    found.len() <= m < hits.len() && (#[trigger] hits[m]).slot == self.side@[i],
            forall|i: int, j: int|
                found.len() <= i < j < hits.len() ==> (#[trigger] hits[i]).slot < (
                #[trigger] hits[j]).slot,
        ensures
            answers(hits, self@, query, radius),
    {
        let entries = tree_entries(self.tree);
        assert forall|k: int| 0 <= k < hits.len() implies {
            &&& (#[trigger] hits[k]).slot < self@.len()
            &&& hits[k].distance == hamming(self@[hits[k].slot as int].fingerprint, query)
            &&& hits[k].distance <= radius
            &&& k < found.len() ==> !sidelined(self.side@, hits[k].slot as nat)
        } by {
            if k < found.len() {
                assert(reports_entry(entries, query, radius, found[k]));
                let bytes = choose|bytes: Seq<u8>|
                    #[trigger] entries.contains((found[k].0 as nat, bytes)) && found[k].1
                        == hamming(bytes, query) && found[k].1 <= radius;
                assert(entries.contains((found[k].0 as nat, bytes)));
            }
        }
        assert forall|s: int|
            0 <= s < self@.len() && hamming((#[trigger] self@[s]).fingerprint, query)
                <= radius implies exists|k: int|
            0 <= k < hits.len() && (#[trigger] hits[k]).slot == s by {
            if sidelined(self.side@, s as nat) {
                let i = choose|i: int| 0 <= i < self.side@.len() && #[trigger] self.side@[i] == s;
                assert(self.side@[i] == s);
            } else {
                let e = (s as nat, self@[s].fingerprint);
                assert(entries.contains(e));
                let k = choose|k: int| 0 <= k < found.len() && (#[trigger] found[k]).0 == e.0;
                assert(hits[k].slot == s);
            }
        }
        assert forall|i: int, j: int| 0 <= i < j < hits.len() implies (#[trigger] hits[i]).slot != (
        #[trigger] hits[j]).slot by {
            if j < found.len() {
                assert(found[i].0 != found[j].0);
            } else if i < found.len() {
                assert(!sidelined(self.side@, hits[i].slot as nat));
                assert(sidelined(self.side@, hits[j].slot as nat));
            }
        }
    }
}

/// The slots of the pages of `items` within `radius` of `query`: what a scan
/// of every page would find.
pub open spec fn within(items: Seq<ImageModel>, query: Seq<u8>, radius: int) -> Set<int> {
    Set::new(|s: int| 0 <= s < items.len() && hamming(items[s].fingerprint, query) <= radius)
}

/// The slots that `hits` name.
pub open spec fn hit_slots(hits: Seq<Hit>) -> Set<int> {
    Set::new(|s: int| exists|k: int| 0 <= k < hits.len() && (#[trigger] hits[k]).slot == s)
}

/// An answer names the pages within the radius and no others: no page is
/// reported that lies further away, and none within the radius is left out.
pub proof fn answers_are_exact(hits: Seq<Hit>, items: Seq<ImageModel>, query: Seq<u8>, radius: int)
    requires
        answers(hits, items, query, radius),
    ensures
        hit_slots(hits) == within(items, query, radius),
{
    assert forall|s: int| hit_slots(hits).contains(s) <==> within(items, query, radius).contains(
        s,
    ) by {
        if hit_slots(hits).contains(s) {
            let k = choose|k: int| 0 <= k < hits.len() && (#[trigger] hits[k]).slot == s;
            assert(hits[k].slot < items.len());
        }
        if within(items, query, radius).contains(s) {
            assert(hamming(items[s].fingerprint, query) <= radius);
        }
    }
    assert(hit_slots(hits) =~= within(items, query, radius));
}

/// A query with radius 0 for the fingerprint of an indexed page finds that
/// page, at distance 0.
pub proof fn exact_query_finds_the_page(hits: Seq<Hit>, items: Seq<ImageModel>, s: int)
    requires
        0 <= s < items.len(),
        answers(hits, items, items[s].fingerprint, 0),
    ensures
        exists|k: int| 0 <= k < hits.len() && (#[trigger] hits[k]).slot == s && hits[k].distance == 0,
{
    crate::fingerprint::hamming_zero(items[s].fingerprint, items[s].fingerprint);
    let k = choose|k: int| 0 <= k < hits.len() && (#[trigger] hits[k]).slot == s;
    assert(hits[k].slot == s && hits[k].distance == 0);
}

} // verus!
