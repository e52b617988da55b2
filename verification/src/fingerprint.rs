//! Fingerprints and the Hamming distance between them.

use vstd::prelude::*;

verus! {

/// The widest fingerprint the library handles, in bytes. Eight times this
/// number still fits a signed 32-bit integer, so a distance counted in bits
/// never overflows `u32` or `isize`.
pub const MAX_FINGERPRINT_BYTES: usize = 0x0fff_ffff;

/// The number of one bits in a byte.
pub open spec fn bit_count(x: u8) -> nat {
    ((x & 1) + ((x >> 1) & 1) + ((x >> 2) & 1) + ((x >> 3) & 1) + ((x >> 4) & 1) + ((x >> 5) & 1)
        + ((x >> 6) & 1) + ((x >> 7) & 1)) as nat
}

/// The number of bit positions among the first `n` bytes in which `a` and `b` differ.
pub open spec fn differing_bits(a: Seq<u8>, b: Seq<u8>, n: nat) -> nat
    decreases n,
{
    if n == 0 {
        0
    } else {
        differing_bits(a, b, (n - 1) as nat) + bit_count(a[n - 1] ^ b[n - 1])
    }
}

/// The length of the part that two byte strings have in common by position.
pub open spec fn common_width(a: Seq<u8>, b: Seq<u8>) -> nat {
    if a.len() <= b.len() {
        a.len()
    } else {
        b.len()
    }
}

/// The Hamming distance of two byte strings: the number of one bits in their
/// bytewise exclusive or. Where one string is longer, its surplus is ignored.
pub open spec fn hamming(a: Seq<u8>, b: Seq<u8>) -> nat {
    differing_bits(a, b, common_width(a, b))
}

/// A byte has at most eight one bits.
pub proof fn bit_count_bound(x: u8)
    ensures
        bit_count(x) <= 8,
{
    assert(((x & 1) + ((x >> 1) & 1) + ((x >> 2) & 1) + ((x >> 3) & 1) + ((x >> 4) & 1) + ((x >> 5)
        & 1) + ((x >> 6) & 1) + ((x >> 7) & 1)) <= 8) by (bit_vector);
}

/// The first `n` bytes differ in at most `8 * n` bits.
pub proof fn differing_bits_bound(a: Seq<u8>, b: Seq<u8>, n: nat)
    ensures
        differing_bits(a, b, n) <= 8 * n,
    decreases n,
{
    if n > 0 {
        differing_bits_bound(a, b, (n - 1) as nat);
        bit_count_bound(a[n - 1] ^ b[n - 1]);
    }
}

/// Exclusive or does not depend on the order of its operands.
proof fn xor_commutes(x: u8, y: u8)
    ensures
        x ^ y == y ^ x,
{
    assert(x ^ y == y ^ x) by (bit_vector);
}

/// Two bytes are equal exactly when their exclusive or has no one bit.
proof fn bit_count_zero(x: u8, y: u8)
    ensures
        bit_count(x ^ y) == 0 <==> x == y,
{
    let z = x ^ y;
    assert(z == 0 <==> x == y) by (bit_vector)
        requires
            z == x ^ y,
    ;
    assert(((z & 1) + ((z >> 1) & 1) + ((z >> 2) & 1) + ((z >> 3) & 1) + ((z >> 4) & 1) + ((z >> 5)
        & 1) + ((z >> 6) & 1) + ((z >> 7) & 1)) == 0 <==> z == 0) by (bit_vector);
}

/// The bits in which `x` and `z` differ are among those in which `x` and `y`
/// or `y` and `z` differ.
proof fn bit_count_triangle(x: u8, y: u8, z: u8)
    ensures
        bit_count(x ^ z) <= bit_count(x ^ y) + bit_count(y ^ z),
{
    let p = x ^ y;
    let q = y ^ z;
    let r = x ^ z;
    assert(r == p ^ q) by (bit_vector)
        requires
            p == x ^ y,
            q == y ^ z,
            r == x ^ z,
    ;
    assert(((r & 1) + ((r >> 1) & 1) + ((r >> 2) & 1) + ((r >> 3) & 1) + ((r >> 4) & 1) + ((r >> 5)
        & 1) + ((r >> 6) & 1) + ((r >> 7) & 1)) <= ((p & 1) + ((p >> 1) & 1) + ((p >> 2) & 1) + ((p
        >> 3) & 1) + ((p >> 4) & 1) + ((p >> 5) & 1) + ((p >> 6) & 1) + ((p >> 7) & 1)) + ((q & 1)
        + ((q >> 1) & 1) + ((q >> 2) & 1) + ((q >> 3) & 1) + ((q >> 4) & 1) + ((q >> 5) & 1) + ((q
        >> 6) & 1) + ((q >> 7) & 1))) by (bit_vector)
        requires
            r == p ^ q,
    ;
}

proof fn differing_bits_symmetric(a: Seq<u8>, b: Seq<u8>, n: nat)
    ensures
        differing_bits(a, b, n) == differing_bits(b, a, n),
    decreases n,
{
    if n > 0 {
        differing_bits_symmetric(a, b, (n - 1) as nat);
        xor_commutes(a[n - 1], b[n - 1]);
    }
}

proof fn differing_bits_zero(a: Seq<u8>, b: Seq<u8>, n: nat)
    requires
        n <= a.len(),
        n <= b.len(),
    ensures
        differing_bits(a, b, n) == 0 <==> a.subrange(0, n as int) == b.subrange(0, n as int),
    decreases n,
{
    if n > 0 {
        let m = (n - 1) as nat;
        differing_bits_zero(a, b, m);
        bit_count_zero(a[n - 1], b[n - 1]);
        if differing_bits(a, b, n) == 0 {
            assert forall|i: int| 0 <= i < n implies a.subrange(0, n as int)[i] == b.subrange(
                0,
                n as int,
            )[i] by {
                if i < m {
                    assert(a.subrange(0, m as int)[i] == b.subrange(0, m as int)[i]);
                }
            }
            assert(a.subrange(0, n as int) =~= b.subrange(0, n as int));
        }
        if a.subrange(0, n as int) == b.subrange(0, n as int) {
            assert(a[n - 1] == a.subrange(0, n as int)[n - 1]);
            assert(b[n - 1] == b.subrange(0, n as int)[n - 1]);
            assert forall|i: int| 0 <= i < m implies a.subrange(0, m as int)[i] == b.subrange(
                0,
                m as int,
            )[i] by {
                assert(a.subrange(0, n as int)[i] == b.subrange(0, n as int)[i]);
            }
            assert(a.subrange(0, m as int) =~= b.subrange(0, m as int));
        }
    } else {
        assert(a.subrange(0, 0) =~= b.subrange(0, 0));
    }
}

proof fn differing_bits_triangle(a: Seq<u8>, b: Seq<u8>, c: Seq<u8>, n: nat)
    ensures
        differing_bits(a, c, n) <= differing_bits(a, b, n) + differing_bits(b, c, n),
    decreases n,
{
    if n > 0 {
        differing_bits_triangle(a, b, c, (n - 1) as nat);
        bit_count_triangle(a[n - 1], b[n - 1], c[n - 1]);
    }
}

/// The distance from `a` to `b` is the distance from `b` to `a`.
pub proof fn hamming_symmetric(a: Seq<u8>, b: Seq<u8>)
    ensures
        hamming(a, b) == hamming(b, a),
{
    differing_bits_symmetric(a, b, common_width(a, b));
}

/// Among strings of one width, the distance is zero between equal strings
/// and only between them.
pub proof fn hamming_zero(a: Seq<u8>, b: Seq<u8>)
    requires
        a.len() == b.len(),
    ensures
        hamming(a, b) == 0 <==> a == b,
{
    differing_bits_zero(a, b, a.len());
    assert(a.subrange(0, a.len() as int) =~= a);
    assert(b.subrange(0, b.len() as int) =~= b);
}

/// Among strings of one width, the distance obeys the triangle inequality.
pub proof fn hamming_triangle(a: Seq<u8>, b: Seq<u8>, c: Seq<u8>)
    requires
        a.len() == b.len(),
        b.len() == c.len(),
    ensures
        hamming(a, c) <= hamming(a, b) + hamming(b, c),
{
    differing_bits_triangle(a, b, c, a.len());
}

/// Calls `img_hash::ImageHash::dist` on two hashes made of the given bytes.
/// The contract claims what that method documents: the result counts the one
/// bits of the exclusive or of the two hashes, byte by byte over the bytes that
/// both have.
#[verifier::external_body]
fn hash_dist(a: &Vec<u8>, b: &Vec<u8>) -> (d: u32)
    requires
        a@.len() <= MAX_FINGERPRINT_BYTES,
        b@.len() <= MAX_FINGERPRINT_BYTES,
    ensures
        d == hamming(a@, b@),
{
    let left: img_hash::ImageHash = img_hash::ImageHash::from_bytes(a).unwrap();
    let right: img_hash::ImageHash = img_hash::ImageHash::from_bytes(b).unwrap();
    left.dist(&right)
}

/// A perceptual summary of one image: a string of bits, eight to the byte.
pub struct Fingerprint {
    bytes: Vec<u8>,
}

impl View for Fingerprint {
    type V = Seq<u8>;

    closed spec fn view(&self) -> Seq<u8> {
        self.bytes@
    }
}

impl Fingerprint {
    #[verifier::type_invariant]
    spec fn bounded(self) -> bool {
        self.bytes@.len() <= MAX_FINGERPRINT_BYTES
    }

    /// Makes a fingerprint of the given bytes, unless they are more than
    /// [`MAX_FINGERPRINT_BYTES`].
    pub fn from_bytes(bytes: Vec<u8>) -> (r: Option<Fingerprint>)
        ensures
            r is Some <==> bytes@.len() <= MAX_FINGERPRINT_BYTES,
            r matches Some(f) ==> f@ == bytes@,
    {
        if bytes.len() <= MAX_FINGERPRINT_BYTES {
            Some(Fingerprint { bytes })
        } else {
            None
        }
    }

    /// The bytes of the fingerprint.
    pub fn as_bytes(&self) -> (bytes: &Vec<u8>)
        ensures
            bytes@ == self@,
            bytes@.len() <= MAX_FINGERPRINT_BYTES,
    {
        proof {
            use_type_invariant(self);
        }
        &self.bytes
    }

    /// The number of bytes.
    pub fn width(&self) -> (w: usize)
        ensures
            w == self@.len(),
            w <= MAX_FINGERPRINT_BYTES,
    {
        proof {
            use_type_invariant(self);
        }
        self.bytes.len()
    }

    /// The Hamming distance to `other`, in bits.
    pub fn distance(&self, other: &Fingerprint) -> (d: u32)
        ensures
            d == hamming(self@, other@),
            d <= 8 * MAX_FINGERPRINT_BYTES,
    {
        proof {
            use_type_invariant(self);
            use_type_invariant(other);
            differing_bits_bound(self@, other@, common_width(self@, other@));
        }
        hash_dist(&self.bytes, &other.bytes)
    }
}

impl Clone for Fingerprint {
    fn clone(&self) -> (r: Self)
        ensures
            r@ == self@,
    {
        proof {
            use_type_invariant(self);
        }
        Fingerprint { bytes: self.bytes.clone() }
    }
}

} // verus!
