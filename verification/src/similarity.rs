use vstd::prelude::*;

verus! {

/// Bit `i` of `h`, for `i < 64`.
pub open spec fn bit_of(h: u64, i: u64) -> bool {
    (h >> i) & 1 == 1
}

/// Hamming distance between the lowest `n` bits of `a` and `b`:
/// the number of positions `i < n` where the bits differ.
pub open spec fn hamming(a: u64, b: u64, n: nat) -> nat
    decreases n,
{
    if n == 0 {
        0
    } else {
        hamming(a, b, (n - 1) as nat) + if bit_of(a, (n - 1) as u64) != bit_of(
            b,
            (n - 1) as u64,
        ) {
            1nat
        } else {
            0nat
        }
    }
}

/// Distance from a fingerprint to itself is zero.
pub proof fn lemma_hamming_self(a: u64, n: nat)
    ensures
        hamming(a, a, n) == 0,
    decreases n,
{
    if n > 0 {
        lemma_hamming_self(a, (n - 1) as nat);
    }
}

/// Hamming distance is symmetric in its two fingerprints.
pub proof fn lemma_hamming_symmetric(a: u64, b: u64, n: nat)
    ensures
        hamming(a, b, n) == hamming(b, a, n),
    decreases n,
{
    if n > 0 {
        lemma_hamming_symmetric(a, b, (n - 1) as nat);
    }
}

/// Hamming distance over `n` bits never exceeds `n`.
pub proof fn lemma_hamming_bounded(a: u64, b: u64, n: nat)
    ensures
        hamming(a, b, n) <= n,
    decreases n,
{
    if n > 0 {
        lemma_hamming_bounded(a, b, (n - 1) as nat);
    }
}

/// Sum of the pixel intensities of a grayscale grid, in scan order.
pub open spec fn sum_intensities(s: Seq<u8>) -> int
    decreases s.len(),
{
    if s.len() == 0 {
        0
    } else {
        sum_intensities(s.drop_last()) + s.last()
    }
}

/// Pixel `i` is strictly brighter than the grid's mean intensity.
/// The mean is `sum / len` as an exact rational, so the strict comparison
/// `s[i] > sum / len` is written without division as `s[i] * len > sum`.
pub open spec fn above_mean(s: Seq<u8>, i: int) -> bool {
    s[i] * s.len() > sum_intensities(s)
}

/// The average hash restricted to the first `k` pixels: bit `i` is set
/// iff pixel `i` is strictly brighter than the mean of the whole grid,
/// with the first-scanned pixel in the least-significant bit.
pub open spec fn ahash_prefix(s: Seq<u8>, k: nat) -> u64
    decreases k,
{
    if k == 0 {
        0u64
    } else {
        let rest = ahash_prefix(s, (k - 1) as nat);
        if above_mean(s, k - 1) {
            rest | (1u64 << ((k - 1) as u64))
        } else {
            rest
        }
    }
}

/// The average hash of a full pixel grid: one bit per pixel in scan order.
pub open spec fn ahash(s: Seq<u8>) -> u64 {
    ahash_prefix(s, s.len())
}

/// The fingerprint is a function of the pixel grid alone: two hashes
/// computed from identical input are identical.
pub proof fn lemma_hash_deterministic(h1: u64, h2: u64, s: Seq<u8>)
    requires
        h1 == ahash(s),
        h2 == ahash(s),
    ensures
        h1 == h2,
{
}

/// A grayscale pixel grid of exactly `width * height` samples in row-major
/// scan order, each an 8-bit intensity.
pub struct PixelGrid {
    pub width: u32,
    pub height: u32,
    pub pixels: Vec<u8>,
}

impl PixelGrid {
    /// The grid is well formed: the buffer holds one sample per pixel
    /// position, and the configuration fits the 64-bit fingerprint.
    pub open spec fn wf(&self) -> bool {
        &&& self.pixels@.len() == self.width * self.height
        &&& 1 <= self.width * self.height <= 64
    }

    /// Hamming distance between the fingerprints of two grids resized to
    /// the same `width * height` configuration.
    pub fn similar(&self, other: &PixelGrid, width: u32, height: u32) -> (d: u64)
        requires
            self.wf(),
            other.wf(),
            self.width == width,
            self.height == height,
            other.width == width,
            other.height == height,
        ensures
            d == hamming(ahash(self.pixels@), ahash(other.pixels@), (width * height) as nat),
    {
        let h1 = self.calc_hash();
        let h2 = other.calc_hash();
        distance(h1, h2, width * height)
    }
}

/// A value that a fingerprint can be computed from.
pub trait CalcHash {
    /// The grayscale samples the fingerprint is computed over.
    spec fn hash_input(&self) -> Seq<u8>;

    /// The input is acceptable: nonempty and at most 64 samples.
    spec fn hash_wf(&self) -> bool;

    /// The average hash of the input: bit `i` (value `1 << i`) is set iff
    /// sample `i` is strictly brighter than the mean intensity.
    fn calc_hash(&self) -> (h: u64)
        requires
            self.hash_wf(),
        ensures
            h == ahash(self.hash_input()),
    ;
}

impl CalcHash for PixelGrid {
    open spec fn hash_input(&self) -> Seq<u8> {
        self.pixels@
    }

    open spec fn hash_wf(&self) -> bool {
        self.wf()
    }

    fn calc_hash(&self) -> (h: u64) {
        let len = self.pixels.len();
        let n_pix: u64 = len as u64;
        let mut sum: u64 = 0;
        let mut i: usize = 0;
        while i < len
            invariant
                len == self.pixels@.len() <= 64,
                i <= len,
                sum == sum_intensities(self.pixels@.take(i as int)),
                sum <= 255 * i,
            decreases len - i,
        {
            proof {
                assert(self.pixels@.take(i + 1).drop_last() =~= self.pixels@.take(i as int));
            }
            sum = sum + self.pixels[i] as u64;
            i = i + 1;
        }
        proof {
            assert(self.pixels@.take(len as int) =~= self.pixels@);
        }
        let mut hash: u64 = 0;
        let mut j: usize = 0;
        while j < len
            invariant
                len == self.pixels@.len() <= 64,
                j <= len,
                n_pix == len,
                sum == sum_intensities(self.pixels@),
                hash == ahash_prefix(self.pixels@, j as nat),
            decreases len - j,
        {
            let p = self.pixels[j];
            proof {
                assert((p as int) * (n_pix as int) <= 16320) by (nonlinear_arith)
                    requires
                        p as int <= 255,
                        0 <= n_pix as int <= 64,
                ;
            }
            if (p as u64) * n_pix > sum {
                hash = hash | (1u64 << (j as u64));
            }
            j = j + 1;
        }
        hash
    }
}

/// The count of bit positions among the lowest `pixels` bits that differ
/// between the two fingerprints. `pixels` must equal the `width * height`
/// both hashes were computed under, and so fits in the 64-bit fingerprint.
pub fn distance(hash1: u64, hash2: u64, pixels: u32) -> (d: u64)
    requires
        pixels <= 64,
    ensures
        d == hamming(hash1, hash2, pixels as nat),
{
    let mut d: u64 = 0;
    let mut x: u32 = 0;
    while x < pixels
        invariant
            x <= pixels <= 64,
            d == hamming(hash1, hash2, x as nat),
            d <= x,
        decreases pixels - x,
    {
        let mask: u64 = 1u64 << (x as u64);
        proof {
            let xv = x as u64;
            assert((hash1 & (1u64 << xv) != hash2 & (1u64 << xv)) == (((hash1 >> xv) & 1 == 1)
                != ((hash2 >> xv) & 1 == 1))) by (bit_vector)
                requires
                    xv < 64,
            ;
        }
        if hash1 & mask != hash2 & mask {
            d = d + 1;
        }
        x = x + 1;
    }
    d
}

} // verus!
