//! A page as it is stored and matched: its name, its place in the page
//! sequence and its fingerprint.

use crate::fingerprint::hamming;
use crate::fingerprint::Fingerprint;
use vstd::prelude::*;

verus! {

/// One page of a scan, after hashing.
pub struct HashedImage {
    /// The file name, unique within the directory of the scan.
    pub filename: Vec<u8>,
    /// The position of the page in the sorted page list, from 0.
    pub index: usize,
    /// The fingerprint of the decoded page.
    pub hash: Fingerprint,
}

/// The mathematical value of a [`HashedImage`].
pub struct ImageModel {
    pub filename: Seq<u8>,
    pub index: nat,
    pub fingerprint: Seq<u8>,
}

impl View for HashedImage {
    type V = ImageModel;

    open spec fn view(&self) -> ImageModel {
        ImageModel { filename: self.filename@, index: self.index as nat, fingerprint: self.hash@ }
    }
}

impl Clone for HashedImage {
    fn clone(&self) -> (r: Self)
        ensures
            r@ == self@,
    {
        HashedImage {
            filename: self.filename.clone(),
            index: self.index,
            hash: self.hash.clone(),
        }
    }
}

/// The views of a list of pages, in the order of the list.
pub open spec fn models(images: Seq<HashedImage>) -> Seq<ImageModel> {
    images.map_values(|image: HashedImage| image@)
}

/// The distance between two pages: the Hamming distance of their fingerprints.
pub fn image_distance(img1: &HashedImage, img2: &HashedImage) -> (d: isize)
    ensures
        d == hamming(img1@.fingerprint, img2@.fingerprint),
{
    img1.hash.distance(&img2.hash) as isize
}

} // verus!
