//! The fingerprint extractor: from a decoded grey image to its fingerprint.

use crate::fingerprint::hamming;
use crate::fingerprint::Fingerprint;
use vstd::prelude::*;

verus! {

/// The ways of turning a small grey image into bits.
#[derive(Clone, Copy, PartialEq, Eq, Structural)]
pub enum Algorithm {
    /// Each sample against the mean of all.
    Mean,
    /// Each sample against its neighbour in the row.
    Gradient,
    /// Each sample against its neighbour in the column.
    VertGradient,
    /// Rows and columns both.
    DoubleGradient,
}

/// What is done to the image before its samples are compared.
#[derive(Clone, Copy, PartialEq, Eq, Structural)]
pub enum Preprocessing {
    /// Nothing.
    Plain,
    /// A discrete cosine transform, of which the low frequencies are kept.
    Dct,
}

/// The algorithm by which pages are matched.
pub const PAGE_ALGORITHM: Algorithm = Algorithm::DoubleGradient;

/// The preprocessing by which pages are matched.
pub const PAGE_PREPROCESSING: Preprocessing = Preprocessing::Dct;

/// The mathematical value of a [`GreyImage`].
pub struct GreyModel {
    pub width: nat,
    pub height: nat,
    pub samples: Seq<u8>,
}

/// A decoded image reduced to grey: one sample to the pixel, row by row.
/// An image has at least one pixel.
pub struct GreyImage {
    width: u32,
    height: u32,
    samples: Vec<u8>,
}

impl View for GreyImage {
    type V = GreyModel;

    closed spec fn view(&self) -> GreyModel {
        GreyModel { width: self.width as nat, height: self.height as nat, samples: self.samples@ }
    }
}

impl GreyImage {
    #[verifier::type_invariant]
    spec fn filled(self) -> bool {
        &&& self.width > 0
        &&& self.height > 0
        &&& self.samples@.len() == self.width * self.height
    }

    /// The grey image of the given width and height, if it has a pixel and
    /// `samples` holds one sample for each of its pixels.
    pub fn new(width: u32, height: u32, samples: Vec<u8>) -> (r: Option<GreyImage>)
        ensures
            r is Some <==> width > 0 && height > 0 && samples@.len() == width * height,
            r matches Some(image) ==> image@ == (GreyModel {
                width: width as nat,
                height: height as nat,
                samples: samples@,
            }),
    {
        assert(width * height <= 0xffff_ffff * 0xffff_ffff) by (nonlinear_arith)
            requires
                width <= 0xffff_ffff,
                height <= 0xffff_ffff,
        ;
        if width > 0 && height > 0 && samples.len() as u128 == width as u128 * height as u128 {
            Some(GreyImage { width, height, samples })
        } else {
            None
        }
    }

    /// The width of the image in pixels.
    pub fn width(&self) -> (w: u32)
        ensures
            w == self@.width,
            w > 0,
    {
        proof {
            use_type_invariant(self);
        }
        self.width
    }

    /// The height of the image in pixels.
    pub fn height(&self) -> (h: u32)
        ensures
            h == self@.height,
            h > 0,
    {
        proof {
            use_type_invariant(self);
        }
        self.height
    }

    /// The samples of the image, row by row.
    pub fn samples(&self) -> (samples: &Vec<u8>)
        ensures
            samples@ == self@.samples,
            samples@.len() == self@.width * self@.height,
    {
        proof {
            use_type_invariant(self);
        }
        &self.samples
    }
}

/// The bytes that the hasher gives for a grey image of the given width,
/// height and samples, under the given algorithm and preprocessing.
pub uninterp spec fn grey_hash(
    width: nat,
    height: nat,
    samples: Seq<u8>,
    algorithm: Algorithm,
    preprocessing: Preprocessing,
) -> Seq<u8>;

/// The number of bytes of a fingerprint under the given algorithm: the
/// double gradient compares 4 by 5 samples along the rows and as many along
/// the columns, 40 bits in all; the others give 8 by 8 bits.
pub open spec fn hash_width(algorithm: Algorithm) -> nat {
    if algorithm == Algorithm::DoubleGradient {
        5
    } else {
        8
    }
}

/// Calls `img_hash::Hasher::hash_image` on a grey image made of the samples,
/// with a hasher made by `img_hash::HasherConfig` for the given algorithm
/// and preprocessing at its default size of 8 by 8. The contract names the
/// bytes, which depend on the arguments alone, and claims their number,
/// which the size and the algorithm fix. It leaves out an image without
/// pixels, which the resizing step cannot sample.
#[verifier::external_body]
fn hash_grey(
    width: u32,
    height: u32,
    samples: &Vec<u8>,
    algorithm: Algorithm,
    preprocessing: Preprocessing,
) -> (bytes: Vec<u8>)
    requires
        width > 0,
        height > 0,
        samples@.len() == width * height,
    ensures
        bytes@ == grey_hash(width as nat, height as nat, samples@, algorithm, preprocessing),
        bytes@.len() == hash_width(algorithm),
{
    let grey = image::GrayImage::from_raw(width, height, samples.clone()).unwrap();
    let config = img_hash::HasherConfig::new().hash_alg(
        match algorithm {
            Algorithm::Mean => img_hash::HashAlg::Mean,
            Algorithm::Gradient => img_hash::HashAlg::Gradient,
            Algorithm::VertGradient => img_hash::HashAlg::VertGradient,
            Algorithm::DoubleGradient => img_hash::HashAlg::DoubleGradient,
        },
    );
    let config = match preprocessing {
        Preprocessing::Plain => config,
        Preprocessing::Dct => config.preproc_dct(),
    };
    config.to_hasher().hash_image(&image::DynamicImage::ImageLuma8(grey)).as_bytes().to_vec()
}

/// The bytes of the fingerprint of a grey image under the given algorithm
/// and preprocessing.
pub open spec fn fingerprint_bytes(
    image: GreyModel,
    algorithm: Algorithm,
    preprocessing: Preprocessing,
) -> Seq<u8> {
    grey_hash(image.width, image.height, image.samples, algorithm, preprocessing)
}

/// The fingerprint of a grey image under the given algorithm and
/// preprocessing.
pub fn fingerprint_of(image: &GreyImage, algorithm: Algorithm, preprocessing: Preprocessing) -> (print:
    Fingerprint)
    ensures
        print@ == fingerprint_bytes(image@, algorithm, preprocessing),
        print@.len() == hash_width(algorithm),
{
    let bytes = hash_grey(image.width(), image.height(), image.samples(), algorithm, preprocessing);
    Fingerprint::from_bytes(bytes).unwrap()
}

/// The distance between two images: the Hamming distance of their
/// fingerprints under the given algorithm and preprocessing.
pub fn distance_under(
    first: &GreyImage,
    second: &GreyImage,
    algorithm: Algorithm,
    preprocessing: Preprocessing,
) -> (d: u32)
    ensures
        d == hamming(
            fingerprint_bytes(first@, algorithm, preprocessing),
            fingerprint_bytes(second@, algorithm, preprocessing),
        ),
        d <= 8 * hash_width(algorithm),
{
    let one = fingerprint_of(first, algorithm, preprocessing);
    let other = fingerprint_of(second, algorithm, preprocessing);
    proof {
        crate::fingerprint::differing_bits_bound(
            one@,
            other@,
            crate::fingerprint::common_width(one@, other@),
        );
    }
    one.distance(&other)
}

} // verus!
