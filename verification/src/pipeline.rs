//! The hashing pipeline: from the decoded pages of a page sequence to
//! hashed pages that carry their sequence index, whatever the order in which
//! they were hashed.

use crate::arrange::placing_keeps_order;
use crate::arrange::stably_placed;
use crate::extract::fingerprint_bytes;
use crate::extract::fingerprint_of;
use crate::extract::hash_width;
use crate::extract::GreyImage;
use crate::extract::GreyModel;
use crate::extract::PAGE_ALGORITHM;
use crate::extract::PAGE_PREPROCESSING;
use crate::hashed::models;
use crate::hashed::HashedImage;
use crate::hashed::ImageModel;
use vstd::multiset::Multiset;
use vstd::prelude::*;

verus! {

/// A page of the page list after decoding: its file name and the grey
/// image that its file decoded to, if it did.
pub struct DecodedPage {
    /// The file name of the page.
    pub filename: Vec<u8>,
    /// The decoded image, or nothing where the file is no image.
    pub image: Option<GreyImage>,
}

/// A page that could not be hashed because its file did not decode to an
/// image.
pub struct PageError {
    /// The file name of the page.
    pub filename: Vec<u8>,
}

/// The bytes of the fingerprint of a page whose file decoded to `decoded`:
/// those of the image under [`PAGE_ALGORITHM`] and [`PAGE_PREPROCESSING`],
/// or nothing where the file is no image.
pub open spec fn page_print(decoded: Option<GreyModel>) -> Option<Seq<u8>> {
    match decoded {
        Some(image) => Some(fingerprint_bytes(image, PAGE_ALGORITHM, PAGE_PREPROCESSING)),
        None => None,
    }
}

/// The value of the decoded image of a page, if it has one.
pub open spec fn decoded_model(decoded: Option<GreyImage>) -> Option<GreyModel> {
    match decoded {
        Some(image) => Some(image@),
        None => None,
    }
}

/// Whether `r` is what becomes of a page with the given sequence index and
/// name: the hashed page where `print` is a fingerprint, else an error
/// tagged with the name.
pub open spec fn page_outcome(
    r: Result<HashedImage, PageError>,
    index: nat,
    filename: Seq<u8>,
    print: Option<Seq<u8>>,
) -> bool {
    match print {
        Some(bytes) => r matches Ok(image) && image@ == (ImageModel {
            filename,
            index,
            fingerprint: bytes,
        }),
        None => r matches Err(error) && error.filename@ == filename,
    }
}

/// Hashes one page. The page keeps the name and the sequence index it is
/// given; a page whose file did not decode gives an error tagged with its
/// name.
pub fn hash_page(index: usize, filename: Vec<u8>, decoded: Option<&GreyImage>) -> (r: Result<
    HashedImage,
    PageError,
>)
    ensures
        page_outcome(
            r,
            index as nat,
            filename@,
            page_print(
                match decoded {
                    Some(image) => Some(image@),
                    None => None,
                },
            ),
        ),
        r matches Ok(image) ==> image@.fingerprint.len() == hash_width(PAGE_ALGORITHM),
{
    match decoded {
        Some(image) => Ok(
            HashedImage {
                filename,
                index,
                hash: fingerprint_of(image, PAGE_ALGORITHM, PAGE_PREPROCESSING),
            },
        ),
        None => Err(PageError { filename }),
    }
}

/// Whether the page can be hashed: its file decoded to an image.
pub open spec fn hashes(page: DecodedPage) -> bool {
    page.image is Some
}

/// The fingerprint of a page that can be hashed.
pub open spec fn print_of(page: DecodedPage) -> Seq<u8> {
    match page_print(decoded_model(page.image)) {
        Some(bytes) => bytes,
        None => Seq::empty(),
    }
}

/// The hashed pages of a run of pages of which the first has the sequence
/// index `start`: each has the name and the fingerprint of its page and, at
/// position `i` of the run, the sequence index `start + i`.
pub open spec fn hashed(pages: Seq<DecodedPage>, start: nat) -> Seq<ImageModel> {
    Seq::new(
        pages.len(),
        |i: int|
            ImageModel {
                filename: pages[i].filename@,
                index: (start + i) as nat,
                fingerprint: print_of(pages[i]),
            },
    )
}

/// Whether the page at position `i` is the first of `pages` that cannot be
/// hashed.
pub open spec fn fails_first(pages: Seq<DecodedPage>, i: int) -> bool {
    &&& 0 <= i < pages.len()
    &&& !hashes(pages[i])
    &&& forall|j: int| 0 <= j < i ==> hashes(#[trigger] pages[j])
}

/// Hashes a run of pages, of which the first has the sequence index
/// `start`. The run fails exactly where a page did not decode, with the
/// name of the first such page, and then gives no hashed page at all.
pub fn hash_pages(start: usize, pages: &Vec<DecodedPage>) -> (r: Result<
    Vec<HashedImage>,
    PageError,
>)
    requires
        start + pages@.len() <= usize::MAX,
    ensures
        (forall|i: int| 0 <= i < pages@.len() ==> hashes(#[trigger] pages@[i])) ==> (r matches Ok(
            images,
        ) && models(images@) == hashed(pages@, start as nat)),
        r matches Ok(images) ==> forall|i: int|
            0 <= i < images@.len() ==> (#[trigger] images@[i])@.fingerprint.len() == hash_width(
                PAGE_ALGORITHM,
            ),
        forall|i: int|
            fails_first(pages@, i) ==> (r matches Err(error) && error.filename@ == (
            #[trigger] pages@[i]).filename@),
{
    let mut images: Vec<HashedImage> = Vec::new();
    let mut n: usize = 0;
    while n < pages.len()
        invariant
            n <= pages@.len(),
            start + pages@.len() <= usize::MAX,
            forall|j: int| 0 <= j < n ==> hashes(#[trigger] pages@[j]),
            models(images@) == hashed(pages@.subrange(0, n as int), start as nat),
            forall|i: int|
                0 <= i < images@.len() ==> (#[trigger] images@[i])@.fingerprint.len() == hash_width(
                    PAGE_ALGORITHM,
                ),
        decreases pages@.len() - n,
    {
        let page = &pages[n];
        match hash_page(start + n, page.filename.clone(), page.image.as_ref()) {
            Ok(image) => {
                let ghost before = models(images@);
                images.push(image);
                proof {
                    assert(pages@.subrange(0, n + 1) =~= pages@.subrange(0, n as int).push(*page));
                    assert(models(images@) =~= before.push(image@));
                    assert(models(images@) =~= hashed(pages@.subrange(0, n + 1), start as nat));
                }
            },
            Err(error) => {
                assert(fails_first(pages@, n as int));
                return Err(error);
            },
        }
        n += 1;
    }
    assert(pages@.subrange(0, pages@.len() as int) =~= pages@);
    Ok(images)
}

/// Hashing is repeatable: two runs on the same decoded page under the same
/// name and sequence index give the same hashed page, or both fail.
pub proof fn hashing_is_repeatable(
    first: Result<HashedImage, PageError>,
    second: Result<HashedImage, PageError>,
    index: nat,
    filename: Seq<u8>,
    decoded: Option<GreyModel>,
)
    requires
        page_outcome(first, index, filename, page_print(decoded)),
        page_outcome(second, index, filename, page_print(decoded)),
    ensures
        match (first, second) {
            (Ok(a), Ok(b)) => a@ == b@,
            (Err(a), Err(b)) => a.filename@ == b.filename@,
            _ => false,
        },
{
}

/// Joins what two workers have hashed.
pub fn merge(left: Vec<HashedImage>, right: Vec<HashedImage>) -> (all: Vec<HashedImage>)
    ensures
        all@ == left@ + right@,
{
    let mut all = left;
    let mut right = right;
    all.append(&mut right);
    all
}

/// Whether the sequence indices of `images` never fall from one image to
/// the next.
pub open spec fn in_sequence(images: Seq<HashedImage>) -> bool {
    forall|i: int, j: int|
        0 <= i < j < images.len() ==> (#[trigger] images[i]).index <= (#[trigger] images[j]).index
}

/// Whether `ordered` holds the images of `images`, each once, where
/// `origin` gives for each position of `ordered` the position in `images`
/// that its image came from, and images of one sequence index stand in the
/// order in which they came.
pub open spec fn rearranged(
    images: Seq<HashedImage>,
    ordered: Seq<HashedImage>,
    origin: Seq<int>,
) -> bool {
    &&& ordered.len() == images.len()
    &&& origin.len() == images.len()
    &&& forall|k: int|
        0 <= k < ordered.len() ==> 0 <= #[trigger] origin[k] < images.len() && ordered[k]
            == images[origin[k]]
    &&& forall|k: int, l: int|
        0 <= k < l < ordered.len() ==> #[trigger] origin[k] != #[trigger] origin[l]
    &&& forall|k: int, l: int|
        0 <= k < l < ordered.len() && ordered[k].index == ordered[l].index ==> #[trigger] origin[k]
            < #[trigger] origin[l]
}

/// The order of hashed pages: the sequence index of `a` is not above
/// that of `b`.
pub open spec fn not_above() -> spec_fn(HashedImage, HashedImage) -> bool {
    |a: HashedImage, b: HashedImage| a.index <= b.index
}

/// Puts hashed pages into the order of their sequence indices, which is the
/// order of the page list, however the workers handed them in. Pages of one
/// index keep their order.
pub fn order_by_index(images: Vec<HashedImage>) -> (ordered: Vec<HashedImage>)
    ensures
        in_sequence(ordered@),
        ordered@.to_multiset() == images@.to_multiset(),
        exists|origin: Seq<int>| rearranged(images@, ordered@, origin),
{
    let ghost n = images@.len();
    let mut rest = images;
    let mut ordered: Vec<HashedImage> = Vec::new();
    let ghost mut origin: Seq<int> = Seq::empty();
    proof {
        assert(ordered@.to_multiset() =~= Multiset::<HashedImage>::empty()) by {
            ordered@.to_multiset_ensures();
        }
        assert(ordered@.to_multiset().add(rest@.to_multiset()) =~= images@.to_multiset());
        assert(rest@ =~= images@.subrange(0, n as int));
    }
    while rest.len() > 0
        invariant
            n == images@.len(),
            ordered@.to_multiset().add(rest@.to_multiset()) == images@.to_multiset(),
            rest@.len() + ordered@.len() == n,
            rest@ == images@.subrange(0, rest@.len() as int),
            stably_placed(images@, ordered@, origin, rest@.len() as int, not_above()),
        decreases rest@.len(),
    {
        let ghost waiting = rest@;
        let ghost placed = ordered@;
        let image = rest.pop().unwrap();
        let ghost m = rest@.len() as int;
        let mut at: usize = 0;
        while at < ordered.len() && ordered[at].index < image.index
            invariant
                ordered@ == placed,
                at <= placed.len(),
                forall|i: int| 0 <= i < at ==> (#[trigger] placed[i]).index < image.index,
            decreases placed.len() - at,
        {
            at += 1;
        }
        ordered.insert(at, image);
        proof {
            assert(waiting =~= rest@.push(image));
            assert(image == images@[m]) by {
                assert(waiting[m] == images@.subrange(0, waiting.len() as int)[m]);
            }
            assert(rest@ =~= images@.subrange(0, m));
            vstd::seq_lib::to_multiset_build(rest@, image);
            vstd::seq_lib::to_multiset_insert(placed, at as int, image);
            assert(ordered@.to_multiset().add(rest@.to_multiset()) =~= placed.to_multiset().add(
                waiting.to_multiset(),
            ));
            assert forall|j: int| at <= j < placed.len() implies not_above()(
                image,
                #[trigger] placed[j],
            ) by {
                if j > at {
                    assert(not_above()(placed[at as int], placed[j]));
                }
            }
            placing_keeps_order(images@, placed, origin, at as int, m, not_above());
            origin = origin.insert(at as int, m);
        }
    }
    proof {
        assert(rest@.to_multiset() =~= Multiset::<HashedImage>::empty()) by {
            rest@.to_multiset_ensures();
        }
        assert(ordered@.to_multiset().add(rest@.to_multiset()) =~= ordered@.to_multiset());
        assert forall|k: int, l: int|
            0 <= k < l < ordered@.len() && ordered@[k].index == ordered@[l].index
                implies #[trigger] origin[k] < #[trigger] origin[l] by {
            assert(not_above()(ordered@[l], ordered@[k]));
        }
        assert forall|i: int, j: int| 0 <= i < j < ordered@.len() implies (
        #[trigger] ordered@[i]).index <= (#[trigger] ordered@[j]).index by {
            assert(not_above()(ordered@[i], ordered@[j]));
        }
        assert(rearranged(images@, ordered@, origin));
    }
    ordered
}

/// Hashing does not depend on how the page list is split: the pages
/// before position `k` and the pages from `k` on, each part numbered from
/// its own first position and the two joined in either order, give the
/// pages of the whole list.
pub proof fn split_keeps_the_pages(files: Seq<DecodedPage>, k: int)
    requires
        0 <= k <= files.len(),
    ensures
        ({
            let n = files.len() as int;
            let whole = hashed(files, 0);
            let head = hashed(files.subrange(0, k), 0);
            let tail = hashed(files.subrange(k, n), k as nat);
            &&& head + tail == whole
            &&& (head + tail).to_multiset() == whole.to_multiset()
            &&& (tail + head).to_multiset() == whole.to_multiset()
        }),
{
    let n = files.len() as int;
    let whole = hashed(files, 0);
    let head = hashed(files.subrange(0, k), 0);
    let tail = hashed(files.subrange(k, n), k as nat);
    assert(head + tail =~= whole);
    vstd::seq_lib::lemma_seq_union_to_multiset_commutative(tail, head);
}

/// Joining is associative, and the order in which two parts are joined does
/// not change which pages the result holds: however many workers hash the
/// parts of a page list and in whatever order their results are joined, the
/// same pages come out.
pub proof fn joining_ignores_order(a: Seq<ImageModel>, b: Seq<ImageModel>, c: Seq<ImageModel>)
    ensures
        (a + b) + c == a + (b + c),
        (a + b).to_multiset() == (b + a).to_multiset(),
        (a + b).to_multiset() == a.to_multiset().add(b.to_multiset()),
{
    assert((a + b) + c =~= a + (b + c));
    vstd::seq_lib::lemma_seq_union_to_multiset_commutative(a, b);
    vstd::seq_lib::lemma_multiset_commutative(a, b);
}

/// How workers share the pages of a page list: one worker hashes the run
/// of pages from position `from` up to position `to`, or what two shares
/// gave, which meet at position `cut`, is joined.
pub enum Share {
    Run { from: nat, to: nat },
    Joined { cut: nat, first: Box<Share>, second: Box<Share> },
}

/// Whether `share` deals with the pages from position `from` up to
/// position `to`, each once: a run is that stretch, and of a join one share
/// deals with the pages before the cut and the other with those from the
/// cut on, whichever of them is handed in first.
pub open spec fn covers(share: Share, from: nat, to: nat) -> bool
    decreases share,
{
    match share {
        Share::Run { from: a, to: b } => a == from && b == to && from <= to,
        Share::Joined { cut, first, second } => from <= cut <= to && ((covers(*first, from, cut)
            && covers(*second, cut, to)) || (covers(*second, from, cut) && covers(
            *first,
            cut,
            to,
        ))),
    }
}

/// What a share hands in: a run its hashed pages, numbered from its own
/// first position, and a join what its first share handed in, then what its
/// second did.
pub open spec fn handed_in(share: Share, pages: Seq<DecodedPage>) -> Seq<ImageModel>
    decreases share,
{
    match share {
        Share::Run { from, to } => hashed(pages.subrange(from as int, to as int), from),
        Share::Joined { cut, first, second } => handed_in(*first, pages) + handed_in(
            *second,
            pages,
        ),
    }
}

/// Hashing does not depend on the workers: however the page list is cut
/// into runs, however many there are, and in whatever order what they gave
/// is joined, the pages handed in are those that one worker hands in for
/// the whole list.
pub proof fn any_sharing_keeps_the_pages(
    share: Share,
    pages: Seq<DecodedPage>,
    from: nat,
    to: nat,
)
    requires
        covers(share, from, to),
        to <= pages.len(),
    ensures
        handed_in(share, pages).to_multiset() == hashed(
            pages.subrange(from as int, to as int),
            from,
        ).to_multiset(),
    decreases share,
{
    match share {
        Share::Run { from: a, to: b } => {},
        Share::Joined { cut, first, second } => {
            let head = hashed(pages.subrange(from as int, cut as int), from);
            let tail = hashed(pages.subrange(cut as int, to as int), cut);
            let whole = hashed(pages.subrange(from as int, to as int), from);
            assert(head + tail =~= whole);
            vstd::seq_lib::lemma_multiset_commutative(head, tail);
            vstd::seq_lib::lemma_multiset_commutative(
                handed_in(*first, pages),
                handed_in(*second, pages),
            );
            if covers(*first, from, cut) && covers(*second, cut, to) {
                any_sharing_keeps_the_pages(*first, pages, from, cut);
                any_sharing_keeps_the_pages(*second, pages, cut, to);
            } else {
                any_sharing_keeps_the_pages(*second, pages, from, cut);
                any_sharing_keeps_the_pages(*first, pages, cut, to);
                assert(tail.to_multiset().add(head.to_multiset()) =~= head.to_multiset().add(
                    tail.to_multiset(),
                ));
            }
        },
    }
}

} // verus!
