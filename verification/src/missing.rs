//! The missing set: the file names of the old scan that no page of the new
//! scan has claimed yet.

use crate::bytes::same_bytes;
use crate::hashed::HashedImage;
use crate::hashed::ImageModel;
use vstd::prelude::*;

verus! {

/// The file names that occur among `items`.
pub open spec fn filenames(items: Seq<ImageModel>) -> Set<Seq<u8>> {
    Set::new(|name: Seq<u8>| exists|s: int| 0 <= s < items.len() && #[trigger] items[s].filename == name)
}

/// The names that `list` holds.
pub open spec fn listed(list: Seq<Vec<u8>>) -> Set<Seq<u8>> {
    Set::new(|name: Seq<u8>| exists|k: int| 0 <= k < list.len() && #[trigger] list[k]@ == name)
}

/// Whether slot `s` is the first of `items` whose page is called `name`.
pub open spec fn first_seen_at(items: Seq<ImageModel>, name: Seq<u8>, s: int) -> bool {
    &&& 0 <= s < items.len()
    &&& items[s].filename == name
    &&& forall|t: int| 0 <= t < s ==> (#[trigger] items[t]).filename != name
}

/// Whether `slots` gives for each name of `list` the slot at which `items`
/// first has it, and these slots rise along the list.
pub open spec fn sighted(list: Seq<Seq<u8>>, items: Seq<ImageModel>, slots: Seq<int>) -> bool {
    &&& slots.len() == list.len()
    &&& forall|k: int| 0 <= k < list.len() ==> first_seen_at(items, #[trigger] list[k], slots[k])
    &&& forall|i: int, j: int|
        0 <= i < j < list.len() ==> #[trigger] slots[i] < #[trigger] slots[j]
}

/// Whether the names of `list` are names of `items` and stand in the order
/// in which `items` first has them.
pub open spec fn in_order_of_first_sight(list: Seq<Seq<u8>>, items: Seq<ImageModel>) -> bool {
    exists|slots: Seq<int>| sighted(list, items, slots)
}

/// Taking a name out of a list leaves the others in their order.
pub proof fn order_outlasts_removal(list: Seq<Seq<u8>>, items: Seq<ImageModel>, k: int)
    requires
        in_order_of_first_sight(list, items),
        0 <= k < list.len(),
    ensures
        in_order_of_first_sight(list.remove(k), items),
{
    let slots = choose|slots: Seq<int>| sighted(list, items, slots);
    let rest = list.remove(k);
    let left = slots.remove(k);
    assert forall|i: int| 0 <= i < rest.len() implies first_seen_at(
        items,
        #[trigger] rest[i],
        left[i],
    ) by {
        if i < k {
            assert(rest[i] == list[i] && left[i] == slots[i]);
        } else {
            assert(rest[i] == list[i + 1] && left[i] == slots[i + 1]);
        }
    }
    assert forall|i: int, j: int| 0 <= i < j < rest.len() implies #[trigger] left[i]
        < #[trigger] left[j] by {
        let a = if i < k { i } else { i + 1 };
        let b = if j < k { j } else { j + 1 };
        assert(left[i] == slots[a] && left[j] == slots[b]);
    }
    assert(sighted(rest, items, left));
}

/// A set of file names. Each name is held once, in the order in which the
/// names were first seen.
pub struct MissingSet {
    names: Vec<Vec<u8>>,
}

impl View for MissingSet {
    type V = Set<Seq<u8>>;

    closed spec fn view(&self) -> Set<Seq<u8>> {
        listed(self.names@)
    }
}

impl MissingSet {
    /// The names of the set in the order in which they are held.
    pub closed spec fn listing(&self) -> Seq<Seq<u8>> {
        self.names@.map_values(|name: Vec<u8>| name@)
    }

    /// The invariant of the set: no name is held twice.
    pub closed spec fn wf(&self) -> bool {
        forall|i: int, j: int|
            0 <= i < j < self.names@.len() ==> (#[trigger] self.names@[i])@ != (
            #[trigger] self.names@[j])@
    }

    /// The file names of `items`.
    pub fn of(items: &Vec<HashedImage>) -> (missing: MissingSet)
        ensures
            missing.wf(),
            missing@ == filenames(crate::hashed::models(items@)),
            in_order_of_first_sight(missing.listing(), crate::hashed::models(items@)),
    {
        let mut missing = MissingSet { names: Vec::new() };
        let ghost all = crate::hashed::models(items@);
        let ghost mut slots: Seq<int> = Seq::empty();
        let mut n: usize = 0;
        while n < items.len()
            invariant
                n <= items@.len(),
                all == crate::hashed::models(items@),
                missing.wf(),
                missing@ == filenames(crate::hashed::models(items@.subrange(0, n as int))),
                sighted(missing.listing(), all, slots),
                forall|k: int| 0 <= k < slots.len() ==> #[trigger] slots[k] < n,
            decreases items@.len() - n,
        {
            let ghost held_names = missing.listing();
            let ghost old_slots = slots;
            let ghost before = missing@;
            let ghost seen = crate::hashed::models(items@.subrange(0, n as int));
            let ghost next = crate::hashed::models(items@.subrange(0, n + 1));
            let ghost name = items@[n as int].filename@;
            let held = missing.contains(&items[n].filename);
            if !held {
                let ghost list = missing.names@;
                missing.names.push(items[n].filename.clone());
                proof {
                    slots = old_slots.push(n as int);
                    assert(missing.listing() =~= held_names.push(name));
                    assert forall|t: int| 0 <= t < n implies (#[trigger] all[t]).filename != name by {
                        if all[t].filename == name {
                            assert(seen[t].filename == name);
                            assert(before.contains(name));
                        }
                    }
                    assert(first_seen_at(all, name, n as int));
                    assert forall|k: int| 0 <= k < missing.listing().len() implies first_seen_at(
                        all,
                        #[trigger] missing.listing()[k],
                        slots[k],
                    ) by {
                        if k < held_names.len() {
                            assert(missing.listing()[k] == held_names[k]);
                        }
                    }
                    assert forall|f: Seq<u8>| missing@.contains(f) <==> before.insert(name).contains(
                        f,
                    ) by {
                        if before.contains(f) {
                            let k = choose|k: int| 0 <= k < list.len() && #[trigger] list[k]@ == f;
                            assert(missing.names@[k]@ == f);
                        }
                        if f == name {
                            assert(missing.names@[list.len() as int]@ == f);
                        }
                        if missing@.contains(f) {
                            let k = choose|k: int|
                                0 <= k < missing.names@.len() && #[trigger] missing.names@[k]@ == f;
                            if k < list.len() {
                                assert(list[k]@ == f);
                            }
                        }
                    }
                    assert(missing@ =~= before.insert(name));
                    assert forall|i: int, j: int|
                        0 <= i < j < missing.names@.len() implies (#[trigger] missing.names@[i])@ != (
                    #[trigger] missing.names@[j])@ by {
                        if j == list.len() {
                            assert(list[i]@ == missing.names@[i]@);
                            if list[i]@ == name {
                                assert(before.contains(name));
                            }
                        } else {
                            assert(list[i] == missing.names@[i]);
                            assert(list[j] == missing.names@[j]);
                        }
                    }
                }
            }
            proof {
                assert(next =~= seen.push(items@[n as int]@));
                assert forall|f: Seq<u8>| filenames(next).contains(f) <==> before.insert(
                    name,
                ).contains(f) by {
                    if filenames(next).contains(f) {
                        let s = choose|s: int| 0 <= s < next.len() && #[trigger] next[s].filename == f;
                        if s < seen.len() {
                            assert(seen[s].filename == f);
                        }
                    }
                    if before.contains(f) {
                        let s = choose|s: int| 0 <= s < seen.len() && #[trigger] seen[s].filename == f;
                        assert(next[s].filename == f);
                    }
                    if f == name {
                        assert(next[n as int].filename == f);
                    }
                }
                assert(filenames(next) =~= before.insert(name));
                assert(missing@ =~= before.insert(name));
            }
            n += 1;
        }
        assert(items@.subrange(0, items@.len() as int) =~= items@);
        missing
    }

    /// Whether `name` is in the set.
    pub fn contains(&self, name: &Vec<u8>) -> (held: bool)
        ensures
            held == self@.contains(name@),
    {
        let mut k: usize = 0;
        while k < self.names.len()
            invariant
                k <= self.names@.len(),
                forall|i: int| 0 <= i < k ==> (#[trigger] self.names@[i])@ != name@,
            decreases self.names@.len() - k,
        {
            if same_bytes(&self.names[k], name) {
                return true;
            }
            k += 1;
        }
        false
    }

    /// Takes `name` out of the set and says whether it was there: a page of
    /// the new scan claims the old page of that name.
    pub fn try_claim(&mut self, name: &Vec<u8>) -> (claimed: bool)
        requires
            old(self).wf(),
        ensures
            final(self).wf(),
            claimed == old(self)@.contains(name@),
            final(self)@ == old(self)@.remove(name@),
            !claimed ==> final(self).listing() == old(self).listing(),
            claimed ==> exists|k: int|
                0 <= k < old(self).listing().len() && #[trigger] old(self).listing()[k] == name@
                    && final(self).listing() == old(self).listing().remove(k),
    {
        let ghost list = self.names@;
        let mut k: usize = 0;
        while k < self.names.len()
            invariant
                self.names@ == list,
                old(self).names@ == list,
                k <= list.len(),
                forall|i: int| 0 <= i < k ==> (#[trigger] list[i])@ != name@,
                forall|i: int, j: int|
                    0 <= i < j < list.len() ==> (#[trigger] list[i])@ != (#[trigger] list[j])@,
            decreases list.len() - k,
        {
            if same_bytes(&self.names[k], name) {
                self.names.remove(k);
                proof {
                    let after = self.names@;
                    assert(list[k as int]@ == name@);
                    assert forall|f: Seq<u8>| listed(after).contains(f) <==> listed(list).remove(
                        name@,
                    ).contains(f) by {
                        if listed(after).contains(f) {
                            let i = choose|i: int| 0 <= i < after.len() && #[trigger] after[i]@ == f;
                            if i < k {
                                assert(list[i]@ == f);
                            } else {
                                assert(list[i + 1]@ == f);
                                assert(list[k as int]@ != list[i + 1]@);
                            }
                        }
                        if listed(list).contains(f) && f != name@ {
                            let i = choose|i: int| 0 <= i < list.len() && #[trigger] list[i]@ == f;
                            if i < k {
                                assert(after[i]@ == f);
                            } else {
                                assert(after[i - 1]@ == f);
                            }
                        }
                    }
                    assert(listed(after) =~= listed(list).remove(name@));
                    assert(listed(list).contains(name@));
                    assert(old(self).listing()[k as int] == name@);
                    assert(self.listing() =~= old(self).listing().remove(k as int));
                }
                return true;
            }
            k += 1;
        }
        assert(listed(list) =~= listed(list).remove(name@));
        false
    }

    /// The number of names in the set.
    pub fn len(&self) -> (n: usize)
        requires
            self.wf(),
        ensures
            n == self@.len(),
            self@.finite(),
    {
        proof {
            listed_len(self.names@);
        }
        self.names.len()
    }

    /// Whether the set holds no name.
    pub fn is_empty(&self) -> (empty: bool)
        ensures
            empty == (self@ == Set::<Seq<u8>>::empty()),
    {
        let empty = self.names.len() == 0;
        proof {
            if empty {
                assert(self@ =~= Set::<Seq<u8>>::empty());
            } else {
                assert(self@.contains(self.names@[0]@));
            }
        }
        empty
    }

    /// The names in the set, each once, in the order in which they were
    /// first seen.
    pub fn names(&self) -> (list: &Vec<Vec<u8>>)
        requires
            self.wf(),
        ensures
            listed(list@) == self@,
            list@.len() == self.listing().len(),
            forall|k: int| 0 <= k < list@.len() ==> (#[trigger] list@[k])@ == self.listing()[k],
            forall|i: int, j: int|
                0 <= i < j < list@.len() ==> (#[trigger] list@[i])@ != (#[trigger] list@[j])@,
    {
        &self.names
    }
}

/// A list that holds no name twice holds as many names as it is long.
pub proof fn listed_len(list: Seq<Vec<u8>>)
    requires
        forall|i: int, j: int|
            0 <= i < j < list.len() ==> (#[trigger] list[i])@ != (#[trigger] list[j])@,
    ensures
        listed(list).finite(),
        listed(list).len() == list.len(),
    decreases list.len(),
{
    if list.len() == 0 {
        assert(listed(list) =~= Set::<Seq<u8>>::empty());
    } else {
        let front = list.drop_last();
        let name = list.last()@;
        listed_len(front);
        assert forall|f: Seq<u8>| listed(list).contains(f) <==> listed(front).insert(name).contains(
            f,
        ) by {
            if listed(list).contains(f) {
                let k = choose|k: int| 0 <= k < list.len() && #[trigger] list[k]@ == f;
                if k < front.len() {
                    assert(front[k]@ == f);
                }
            }
            if listed(front).contains(f) {
                let k = choose|k: int| 0 <= k < front.len() && #[trigger] front[k]@ == f;
                assert(list[k]@ == f);
            }
            if f == name {
                assert(list[list.len() - 1]@ == f);
            }
        }
        assert(listed(list) =~= listed(front).insert(name));
        if listed(front).contains(name) {
            let k = choose|k: int| 0 <= k < front.len() && #[trigger] front[k]@ == name;
            assert(list[k]@ == list[list.len() - 1]@);
        }
    }
}

} // verus!
