//! The integer side of the image codec: dimension and capacity checks,
//! block layout, the per-block coefficient permutation, and the decision
//! that turns per-block votes of the three colour channels into bits.
//!
//! The transforms themselves (Haar wavelet, 4x4 DCT, SVD, quantisation)
//! work on floating-point samples and run outside this library; each 4x4
//! block of the low band answers with two decoded bits, which
//! `block_vote` weighs 3:1.
use vstd::prelude::*;
use rand_chacha::ChaCha8Rng;
use rand::seq::SliceRandom;
use rand::SeedableRng;
use crate::error::BlindMarkError;
use crate::random::{is_permutation, occurs};
use crate::text::decimal;

verus! {

/// Side of a block of the low band.
pub const BLOCK_SIZE: u32 = 4;
/// Password of the coefficient permutation.
pub const PASSWORD: u64 = 1;
/// Multiplier of the password in the permutation seed.
pub const SEED_STRIDE: u64 = 1_000_003;
/// Side of the region that fast mode processes.
pub const FAST_MODE_MAX: u32 = 512;

/// The Haar wavelet transform; `level` is the depth of the full
/// decomposition, the codec itself uses one level.
pub struct DWTProcessor {
    pub level: usize,
}

impl DWTProcessor {
    pub fn new() -> (r: Self)
        ensures
            r.level == 2,
    {
        DWTProcessor { level: 2 }
    }
}

/// The block transform, permutation and quantisation stage.
pub struct DCTProcessor;

impl DCTProcessor {
    pub fn new() -> Self {
        DCTProcessor
    }
}

/// The embedding pipeline over the three colour channels.
pub struct WatermarkEmbedder {
    pub dwt: DWTProcessor,
    pub dct: DCTProcessor,
}

impl WatermarkEmbedder {
    pub fn new() -> Self {
        WatermarkEmbedder { dwt: DWTProcessor::new(), dct: DCTProcessor::new() }
    }
}

/// The extraction pipeline over the three colour channels.
pub struct WatermarkExtractor {
    pub dwt: DWTProcessor,
    pub dct: DCTProcessor,
}

impl WatermarkExtractor {
    pub fn new() -> Self {
        WatermarkExtractor { dwt: DWTProcessor::new(), dct: DCTProcessor::new() }
    }
}

/// Both sides of an image must be even for the wavelet transform.
pub fn check_even_dimensions(width: u32, height: u32) -> (r: Result<(), BlindMarkError>)
    ensures
        r is Ok <==> width % 2 == 0 && height % 2 == 0,
        r matches Err(e) ==> e is ImageProcessing,
{
    if width % 2 != 0 || height % 2 != 0 {
        return Err(
            BlindMarkError::ImageProcessing(String::from_str("image dimensions must be even")),
        );
    }
    Ok(())
}

/// The number of 4x4 blocks of a low band of `rows` by `cols` samples.
pub open spec fn block_count(rows: nat, cols: nat) -> nat {
    (rows / 4) * (cols / 4)
}

/// The number of blocks of the low band, when it holds at least
/// `payload_len` of them; otherwise the capacity error.
pub fn block_capacity(rows: u32, cols: u32, payload_len: u64) -> (r: Result<u64, BlindMarkError>)
    ensures
        r is Ok <==> block_count(rows as nat, cols as nat) >= payload_len,
        r matches Ok(n) ==> n == block_count(rows as nat, cols as nat),
        r matches Err(e) ==> e is ExtractionFailed,
{
    let bh = (rows / BLOCK_SIZE) as u64;
    let bw = (cols / BLOCK_SIZE) as u64;
    assert(bh * bw <= 0x4000_0000 * 0x4000_0000) by (nonlinear_arith)
        requires
            bh <= 0x4000_0000,
            bw <= 0x4000_0000,
    ;
    let n = bh * bw;
    if n < payload_len {
        let mut msg = String::from_str("image too small: ");
        msg.append(decimal(n).as_str());
        msg.append(" blocks of 4x4 cannot hold ");
        msg.append(decimal(payload_len).as_str());
        msg.append(" watermark bits");
        return Err(BlindMarkError::ExtractionFailed(msg));
    }
    Ok(n)
}

/// Top-left sample (row, column) of block `b` in a grid `blocks_w` blocks
/// wide; blocks run row-major.
pub fn block_origin(b: u64, blocks_w: u64) -> (r: (u64, u64))
    requires
        blocks_w > 0,
        b / blocks_w * 4 <= u64::MAX,
        blocks_w * 4 <= u64::MAX,
    ensures
        r.0 == b / blocks_w * 4,
        r.1 == b % blocks_w * 4,
{
    assert(b % blocks_w < blocks_w);
    (b / blocks_w * 4, b % blocks_w * 4)
}

/// Index of sample (row, column) in a row-major band `cols` wide.
pub open spec fn sample_index(row: int, col: int, cols: int) -> int {
    row * cols + col
}

proof fn lemma_block_index(r0: int, c0: int, i: int, j: int, cols: int, len: int)
    requires
        0 <= r0,
        0 <= c0,
        0 <= i < 4,
        0 <= j < 4,
        c0 + 4 <= cols,
        (r0 + 4) * cols <= len,
    ensures
        0 <= sample_index(r0 + i, c0 + j, cols) < len,
        0 <= (r0 + i) * cols <= sample_index(r0 + i, c0 + j, cols),
        r0 + 4 <= len,
{
    assert(r0 + 4 <= (r0 + 4) * cols) by (nonlinear_arith)
        requires
            0 <= r0,
            4 <= cols,
    ;
    assert((r0 + i) * cols + c0 + j < (r0 + 4) * cols) by (nonlinear_arith)
        requires
            0 <= i < 4,
            0 <= j < 4,
            c0 + 4 <= cols,
            0 <= c0,
    ;
    assert(0 <= (r0 + i) * cols) by (nonlinear_arith)
        requires
            0 <= r0 + i,
            0 <= cols,
    ;
}

/// The 4x4 block whose top-left sample is (`r0`, `c0`) of a row-major band
/// `cols` wide, row-major.
pub fn read_block<T: Copy>(band: &Vec<T>, cols: usize, r0: usize, c0: usize) -> (r: Vec<T>)
    requires
        c0 + 4 <= cols,
        (r0 + 4) * cols <= band@.len(),
    ensures
        r@.len() == 16,
        forall|i: int, j: int|
            0 <= i < 4 && 0 <= j < 4 ==> #[trigger] r@[i * 4 + j] == band@[sample_index(
                r0 + i,
                c0 + j,
                cols as int,
            )],
{
    let mut out: Vec<T> = Vec::new();
    let mut i: usize = 0;
    let len = band.len();
    while i < 4
        invariant
            len == band@.len(),
            c0 + 4 <= cols,
            (r0 + 4) * cols <= band@.len(),
            i <= 4,
            out@.len() == i * 4,
            forall|i2: int, j: int|
                0 <= i2 < i && 0 <= j < 4 ==> #[trigger] out@[i2 * 4 + j] == band@[sample_index(
                    r0 + i2,
                    c0 + j,
                    cols as int,
                )],
        decreases 4 - i,
    {
        let mut j: usize = 0;
        while j < 4
            invariant
                len == band@.len(),
                c0 + 4 <= cols,
                (r0 + 4) * cols <= band@.len(),
                i < 4,
                j <= 4,
                out@.len() == i * 4 + j,
                forall|i2: int, j2: int|
                    0 <= i2 < i && 0 <= j2 < 4 ==> #[trigger] out@[i2 * 4 + j2] == band@[sample_index(
                        r0 + i2,
                        c0 + j2,
                        cols as int,
                    )],
                forall|j2: int|
                    0 <= j2 < j ==> #[trigger] out@[i * 4 + j2] == band@[sample_index(
                        r0 + i,
                        c0 + j2,
                        cols as int,
                    )],
            decreases 4 - j,
        {
            proof {
                lemma_block_index(r0 as int, c0 as int, i as int, j as int, cols as int, band@.len() as int);
            }
            let idx = (r0 + i) * cols + c0 + j;
            out.push(band[idx]);
            j = j + 1;
        }
        i = i + 1;
    }
    out
}

/// Writes a row-major 4x4 block back at (`r0`, `c0`); every other sample
/// stays.
pub fn write_block<T: Copy>(band: &mut Vec<T>, cols: usize, r0: usize, c0: usize, block: &Vec<T>)
    requires
        c0 + 4 <= cols,
        (r0 + 4) * cols <= old(band)@.len(),
        block@.len() == 16,
    ensures
        final(band)@.len() == old(band)@.len(),
        forall|i: int, j: int|
            0 <= i < 4 && 0 <= j < 4 ==> final(band)@[sample_index(r0 + i, c0 + j, cols as int)]
                == #[trigger] block@[i * 4 + j],
        forall|k: int|
            0 <= k < old(band)@.len() && !(exists|i: int, j: int|
                0 <= i < 4 && 0 <= j < 4 && k == #[trigger] sample_index(r0 + i, c0 + j, cols as int))
                ==> final(band)@[k] == old(band)@[k],
{
    let ghost orig = band@;
    let mut i: usize = 0;
    let len = band.len();
    while i < 4
        invariant
            len == orig.len(),
            c0 + 4 <= cols,
            (r0 + 4) * cols <= orig.len(),
            block@.len() == 16,
            band@.len() == orig.len(),
            i <= 4,
            forall|i2: int, j: int|
                0 <= i2 < i && 0 <= j < 4 ==> band@[sample_index(r0 + i2, c0 + j, cols as int)]
                    == #[trigger] block@[i2 * 4 + j],
            forall|k: int|
                0 <= k < orig.len() && !(exists|i2: int, j: int|
                    0 <= i2 < i && 0 <= j < 4 && k == #[trigger] sample_index(r0 + i2, c0 + j, cols as int))
                    ==> band@[k] == orig[k],
        decreases 4 - i,
    {
        let mut j: usize = 0;
        while j < 4
            invariant
                len == orig.len(),
                c0 + 4 <= cols,
                (r0 + 4) * cols <= orig.len(),
                block@.len() == 16,
                band@.len() == orig.len(),
                i < 4,
                j <= 4,
                forall|i2: int, j2: int|
                    0 <= i2 < i && 0 <= j2 < 4 ==> band@[sample_index(r0 + i2, c0 + j2, cols as int)]
                        == #[trigger] block@[i2 * 4 + j2],
                forall|j2: int|
                    0 <= j2 < j ==> band@[sample_index(r0 + i, c0 + j2, cols as int)]
                        == #[trigger] block@[i * 4 + j2],
                forall|k: int|
                    0 <= k < orig.len() && !(exists|i2: int, j2: int|
                        0 <= i2 < i && 0 <= j2 < 4 && k == #[trigger] sample_index(
                            r0 + i2,
                            c0 + j2,
                            cols as int,
                        )) && !(exists|j2: int|
                        0 <= j2 < j && k == #[trigger] sample_index(r0 + i, c0 + j2, cols as int))
                        ==> band@[k] == orig[k],
            decreases 4 - j,
        {
            proof {
                lemma_block_index(r0 as int, c0 as int, i as int, j as int, cols as int, orig.len() as int);
            }
            let idx = (r0 + i) * cols + c0 + j;
            assert(idx == sample_index(r0 + i, c0 + j, cols as int));
            let ghost prev = band@;
            band.set(idx, block[i * 4 + j]);
            proof {
                assert forall|i2: int, j2: int|
                    0 <= i2 < i && 0 <= j2 < 4 implies band@[sample_index(r0 + i2, c0 + j2, cols as int)]
                        == #[trigger] block@[i2 * 4 + j2] by {
                    lemma_distinct_samples(r0 as int, c0 as int, i2, j2, i as int, j as int, cols as int);
                    lemma_block_index(r0 as int, c0 as int, i2, j2, cols as int, orig.len() as int);
                    assert(prev[sample_index(r0 + i2, c0 + j2, cols as int)] == block@[i2 * 4 + j2]);
                }
                assert forall|j2: int|
                    0 <= j2 < j + 1 implies band@[sample_index(r0 + i, c0 + j2, cols as int)]
                        == #[trigger] block@[i * 4 + j2] by {
                    if j2 < j {
                        lemma_distinct_samples(r0 as int, c0 as int, i as int, j2, i as int, j as int, cols as int);
                        lemma_block_index(r0 as int, c0 as int, i as int, j2, cols as int, orig.len() as int);
                        assert(prev[sample_index(r0 + i, c0 + j2, cols as int)] == block@[i * 4 + j2]);
                    }
                }
            }
            j = j + 1;
        }
        proof {
            assert forall|k: int|
                0 <= k < orig.len() && !(exists|i2: int, j2: int|
                    0 <= i2 < i + 1 && 0 <= j2 < 4 && k == #[trigger] sample_index(r0 + i2, c0 + j2, cols as int))
                    implies band@[k] == orig[k] by {
                if exists|i2: int, j2: int|
                    0 <= i2 < i && 0 <= j2 < 4 && k == #[trigger] sample_index(r0 + i2, c0 + j2, cols as int) {
                    let (i2, j2) = choose|i2: int, j2: int|
                        0 <= i2 < i && 0 <= j2 < 4 && k == #[trigger] sample_index(r0 + i2, c0 + j2, cols as int);
                    assert(0 <= i2 < i + 1 && 0 <= j2 < 4 && k == sample_index(r0 + i2, c0 + j2, cols as int));
                }
                if exists|j2: int| 0 <= j2 < 4 && k == #[trigger] sample_index(r0 + i, c0 + j2, cols as int) {
                    let j2 = choose|j2: int| 0 <= j2 < 4 && k == #[trigger] sample_index(r0 + i, c0 + j2, cols as int);
                    assert(0 <= i < i + 1 && 0 <= j2 < 4 && k == sample_index(r0 + i, c0 + j2, cols as int));
                }
            }
        }
        i = i + 1;
    }
}

/// Two distinct positions of a block lie on distinct samples.
proof fn lemma_distinct_samples(r0: int, c0: int, i: int, j: int, i2: int, j2: int, cols: int)
    requires
        0 <= i < 4,
        0 <= j < 4,
        0 <= i2 < 4,
        0 <= j2 < 4,
        c0 + 4 <= cols,
        0 <= c0,
        i != i2 || j != j2,
    ensures
        sample_index(r0 + i, c0 + j, cols) != sample_index(r0 + i2, c0 + j2, cols),
{
    if i == i2 {
    } else {
        assert((r0 + i) * cols + c0 + j != (r0 + i2) * cols + c0 + j2) by (nonlinear_arith)
            requires
                0 <= j < 4,
                0 <= j2 < 4,
                c0 + 4 <= cols,
                0 <= c0,
                i != i2,
        ;
    }
}

/// The payload bit that block `b` carries: the payload repeats cyclically.
pub fn payload_bit(bits: &[u8], b: usize) -> (r: u8)
    requires
        bits@.len() > 0,
    ensures
        r == bits@[(b as int) % (bits@.len() as int)],
{
    bits[b % bits.len()]
}

/// The permutation seed of block `b`: `1 * 1_000_003 + b`, wrapping.
pub open spec fn seed_of(b: u64) -> u64 {
    ((PASSWORD * SEED_STRIDE + b) % 0x1_0000_0000_0000_0000) as u64
}

pub fn shuffle_seed(b: u64) -> (r: u64)
    ensures
        r == seed_of(b),
{
    let base: u64 = PASSWORD * SEED_STRIDE;
    base.wrapping_add(b)
}

/// The order `SliceRandom::shuffle` gives a list under a `ChaCha8Rng`
/// seeded by `seed_from_u64`; its argument is `(seed, items)`.
pub uninterp spec fn seeded_order(input: (u64, Seq<usize>)) -> Seq<usize>;

/// Relies on `rand_chacha`'s `ChaCha8Rng::seed_from_u64` (a portable,
/// reproducible generator) and `rand`'s `SliceRandom::shuffle`: the same
/// items in an order fixed by the seed.
#[verifier::external_body]
fn seeded_shuffle(seed: u64, items: &mut Vec<usize>)
    ensures
        final(items)@ == seeded_order((seed, old(items)@)),
        final(items)@.to_multiset() == old(items)@.to_multiset(),
{
    let mut rng = ChaCha8Rng::seed_from_u64(seed);
    items.shuffle(&mut rng);
}

/// The indices `0..16`.
pub open spec fn block_positions() -> Seq<usize> {
    Seq::new(16, |i: int| i as usize)
}

/// The permutation of the 16 coefficients of block `b`: a function of `b`
/// alone, so embedding and extraction agree on every machine.
pub fn generate_shuffler(b: u64) -> (r: Vec<usize>)
    ensures
        r@ == seeded_order((seed_of(b), block_positions())),
        is_permutation(r@, 16),
{
    let mut perm: Vec<usize> = Vec::new();
    let mut i: usize = 0;
    while i < 16
        invariant
            i <= 16,
            perm@.len() == i,
            forall|t: int| 0 <= t < i ==> #[trigger] perm@[t] == t,
        decreases 16 - i,
    {
        perm.push(i);
        i = i + 1;
    }
    let ghost before = perm@;
    assert(before =~= block_positions());
    seeded_shuffle(shuffle_seed(b), &mut perm);
    proof {
        let after = perm@;
        vstd::seq_lib::to_multiset_len(before);
        vstd::seq_lib::to_multiset_len(after);
        assert forall|t: int| 0 <= t < 16 implies #[trigger] after[t] < 16 by {
            assert(after.contains(after[t]));
            vstd::seq_lib::to_multiset_contains(after, after[t]);
            vstd::seq_lib::to_multiset_contains(before, after[t]);
            let u = choose|u: int| 0 <= u < before.len() && before[u] == after[t];
        }
        assert forall|x: int| 0 <= x < 16 implies #[trigger] occurs(after, x) by {
            assert(before[x] == x);
            assert(before.contains(x as usize));
            vstd::seq_lib::to_multiset_contains(before, x as usize);
            vstd::seq_lib::to_multiset_contains(after, x as usize);
            let u = choose|u: int| 0 <= u < after.len() && after[u] == x as usize;
        }
    }
    perm
}

/// The coefficients in permuted order: entry `i` is `values[perm[i]]`.
pub fn shuffle_block<T: Copy>(values: &Vec<T>, perm: &Vec<usize>) -> (r: Vec<T>)
    requires
        is_permutation(perm@, values@.len() as nat),
    ensures
        r@.len() == values@.len(),
        forall|i: int| 0 <= i < r@.len() ==> #[trigger] r@[i] == values@[perm@[i] as int],
{
    let mut out: Vec<T> = Vec::new();
    let mut i: usize = 0;
    while i < perm.len()
        invariant
            is_permutation(perm@, values@.len() as nat),
            i <= perm@.len(),
            out@.len() == i,
            forall|j: int| 0 <= j < i ==> #[trigger] out@[j] == values@[perm@[j] as int],
        decreases perm@.len() - i,
    {
        let p = perm[i];
        out.push(values[p]);
        i = i + 1;
    }
    out
}

/// Puts permuted coefficients back: entry `perm[i]` receives `values[i]`.
pub fn unshuffle_block<T: Copy>(values: &Vec<T>, perm: &Vec<usize>) -> (r: Vec<T>)
    requires
        is_permutation(perm@, values@.len() as nat),
    ensures
        r@.len() == values@.len(),
        forall|i: int| 0 <= i < values@.len() ==> r@[perm@[i] as int] == #[trigger] values@[i],
{
    let mut out: Vec<T> = values.clone();
    let n = values.len();
    let mut i: usize = 0;
    while i < n
        invariant
            n == values@.len(),
            is_permutation(perm@, n as nat),
            i <= n,
            out@.len() == n,
            forall|j: int| 0 <= j < i ==> out@[perm@[j] as int] == #[trigger] values@[j],
        decreases n - i,
    {
        let p = perm[i];
        let ghost before = out@;
        out.set(p, values[i]);
        proof {
            assert forall|j: int| 0 <= j < i + 1 implies out@[perm@[j] as int]
                == #[trigger] values@[j] by {
                if j < i {
                    if perm@[j] == p {
                        assert(occurs(perm@, p as int));
                        lemma_permutation_injective(perm@, n as nat, j, i as int);
                    }
                }
            }
        }
        i = i + 1;
    }
    out
}

/// A permutation sends distinct positions to distinct values.
pub proof fn lemma_permutation_injective(p: Seq<usize>, n: nat, a: int, b: int)
    requires
        is_permutation(p, n),
        0 <= a < n,
        0 <= b < n,
        a != b,
    ensures
        p[a] != p[b],
{
    if p[a] == p[b] {
        let img = Set::new(|x: int| 0 <= x < n);
        let dom_wo = Set::new(|t: int| 0 <= t < n && t != b);
        let f = |t: int| p[t] as int;
        assert forall|x: int| img.contains(x) implies dom_wo.map(f).contains(x) by {
            assert(occurs(p, x));
            let t = choose|t: int| 0 <= t < p.len() && #[trigger] p[t] == x;
            if t == b {
                assert(dom_wo.contains(a) && f(a) == x);
            } else {
                assert(dom_wo.contains(t) && f(t) == x);
            }
        }
        assert(img.subset_of(dom_wo.map(f)));
        lemma_interval_set_len(n);
        lemma_interval_minus_len(n, b);
        vstd::set_lib::lemma_map_size_bound(dom_wo, dom_wo.map(f), f);
        vstd::set_lib::lemma_len_subset(img, dom_wo.map(f));
    }
}

proof fn lemma_interval_set_len(n: nat)
    ensures
        Set::new(|x: int| 0 <= x < n).finite(),
        Set::new(|x: int| 0 <= x < n).len() == n,
    decreases n,
{
    let s = Set::new(|x: int| 0 <= x < n);
    if n == 0 {
        assert(s =~= Set::empty());
    } else {
        lemma_interval_set_len((n - 1) as nat);
        let s0 = Set::new(|x: int| 0 <= x < n - 1);
        assert(s =~= s0.insert(n - 1));
    }
}

proof fn lemma_interval_minus_len(n: nat, b: int)
    requires
        0 <= b < n,
    ensures
        Set::new(|t: int| 0 <= t < n && t != b).finite(),
        Set::new(|t: int| 0 <= t < n && t != b).len() == n - 1,
{
    lemma_interval_set_len(n);
    let s = Set::new(|x: int| 0 <= x < n);
    assert(Set::new(|t: int| 0 <= t < n && t != b) =~= s.remove(b));
}

/// Undoing the permutation restores the block: for any permutation `perm`
/// of the block's positions, `unshuffle_block(shuffle_block(x, perm), perm)`
/// is `x` again.
pub proof fn lemma_unshuffle_restores<T>(x: Seq<T>, perm: Seq<usize>, shuffled: Seq<T>, back: Seq<T>)
    requires
        is_permutation(perm, x.len()),
        shuffled.len() == x.len(),
        forall|i: int| 0 <= i < shuffled.len() ==> #[trigger] shuffled[i] == x[perm[i] as int],
        back.len() == x.len(),
        forall|i: int| 0 <= i < x.len() ==> back[perm[i] as int] == #[trigger] shuffled[i],
    ensures
        back == x,
{
    assert forall|j: int| 0 <= j < x.len() implies back[j] == x[j] by {
        assert(occurs(perm, j));
        let t = choose|t: int| 0 <= t < perm.len() && #[trigger] perm[t] == j;
        assert(back[perm[t] as int] == shuffled[t]);
    }
    assert(back =~= x);
}

/// The soft vote of one block in quarters: three for the first decoded
/// bit, one for the second.
pub open spec fn vote_of(bit0: bool, bit1: bool) -> u8 {
    ((if bit0 {
        3int
    } else {
        0int
    }) + (if bit1 {
        1int
    } else {
        0int
    })) as u8
}

pub fn block_vote(bit0: bool, bit1: bool) -> (r: u8)
    ensures
        r == vote_of(bit0, bit1),
        r <= 4,
{
    let a: u8 = if bit0 {
        3
    } else {
        0
    };
    let b: u8 = if bit1 {
        1
    } else {
        0
    };
    a + b
}

/// The votes of the first `n` blocks that carry payload bit `i` of `w`.
pub open spec fn vote_sum(q: Seq<u8>, i: nat, w: nat, n: nat) -> nat
    decreases n,
{
    if n == 0 {
        0
    } else {
        vote_sum(q, i, w, (n - 1) as nat) + if (n - 1) as nat % w == i {
            q[n - 1] as nat
        } else {
            0
        }
    }
}

/// The number of the first `n` blocks that carry payload bit `i` of `w`.
pub open spec fn copies(i: nat, w: nat, n: nat) -> nat
    decreases n,
{
    if n == 0 {
        0
    } else {
        copies(i, w, (n - 1) as nat) + if (n - 1) as nat % w == i {
            1nat
        } else {
            0
        }
    }
}

/// Payload bit `i` is 1 when the three channels' average votes sum past
/// 1.5, that is when their quarter votes exceed six per copy.
pub open spec fn decided_bit(r: Seq<u8>, g: Seq<u8>, b: Seq<u8>, i: nat, w: nat) -> u8 {
    let n = r.len();
    if vote_sum(r, i, w, n) + vote_sum(g, i, w, n) + vote_sum(b, i, w, n) > 6 * copies(i, w, n) {
        1
    } else {
        0
    }
}

proof fn lemma_vote_step(q: Seq<u8>, i: nat, w: nat, j: nat)
    requires
        j < q.len(),
        w > 0,
    ensures
        vote_sum(q, i, w, j + 1) == vote_sum(q, i, w, j) + if j % w == i {
            q[j as int] as nat
        } else {
            0
        },
        copies(i, w, j + 1) == copies(i, w, j) + if j % w == i {
            1nat
        } else {
            0
        },
{
    assert(((j + 1) as nat - 1) as nat == j);
}

proof fn lemma_vote_bounds(q: Seq<u8>, i: nat, w: nat, n: nat)
    requires
        n <= q.len(),
        forall|j: int| 0 <= j < q.len() ==> #[trigger] q[j] <= 4,
    ensures
        vote_sum(q, i, w, n) <= 4 * n,
        copies(i, w, n) <= n,
    decreases n,
{
    if n > 0 {
        lemma_vote_bounds(q, i, w, (n - 1) as nat);
    }
}

/// The payload bits from the per-block votes of the three channels: the
/// copies of each bit are pooled cyclically and thresholded. An error when
/// there are fewer blocks than bits.
pub fn decide_bits(r: &Vec<u8>, g: &Vec<u8>, b: &Vec<u8>, wm_size: usize) -> (out: Result<
    Vec<u8>,
    BlindMarkError,
>)
    requires
        wm_size > 0,
        r@.len() == g@.len() && g@.len() == b@.len(),
        r@.len() <= 0x0100_0000_0000_0000,
        forall|j: int| 0 <= j < r@.len() ==> #[trigger] r@[j] <= 4,
        forall|j: int| 0 <= j < g@.len() ==> #[trigger] g@[j] <= 4,
        forall|j: int| 0 <= j < b@.len() ==> #[trigger] b@[j] <= 4,
    ensures
        out is Ok <==> r@.len() >= wm_size,
        out matches Ok(bits) ==> bits@.len() == wm_size && forall|i: int|
            0 <= i < wm_size ==> #[trigger] bits@[i] == decided_bit(
                r@,
                g@,
                b@,
                i as nat,
                wm_size as nat,
            ),
        out matches Err(e) ==> e is ExtractionFailed,
{
    let n = r.len();
    if n < wm_size {
        return Err(
            BlindMarkError::ExtractionFailed(
                String::from_str("image too small: fewer blocks than watermark bits"),
            ),
        );
    }
    let mut sums: Vec<u64> = Vec::new();
    let mut counts: Vec<u64> = Vec::new();
    let mut i: usize = 0;
    while i < wm_size
        invariant
            i <= wm_size,
            sums@.len() == i,
            counts@.len() == i,
            forall|k: int| 0 <= k < i ==> #[trigger] sums@[k] == 0 && counts@[k] == 0,
        decreases wm_size - i,
    {
        sums.push(0);
        counts.push(0);
        i = i + 1;
    }
    let mut j: usize = 0;
    while j < n
        invariant
            n == r@.len(),
            n == g@.len(),
            n == b@.len(),
            n <= 0x0100_0000_0000_0000,
            wm_size > 0,
            j <= n,
            sums@.len() == wm_size,
            counts@.len() == wm_size,
            forall|j2: int| 0 <= j2 < r@.len() ==> #[trigger] r@[j2] <= 4,
            forall|j2: int| 0 <= j2 < g@.len() ==> #[trigger] g@[j2] <= 4,
            forall|j2: int| 0 <= j2 < b@.len() ==> #[trigger] b@[j2] <= 4,
            forall|k: int|
                0 <= k < wm_size ==> #[trigger] sums@[k] == vote_sum(
                    r@,
                    k as nat,
                    wm_size as nat,
                    j as nat,
                ) + vote_sum(g@, k as nat, wm_size as nat, j as nat) + vote_sum(
                    b@,
                    k as nat,
                    wm_size as nat,
                    j as nat,
                ) && counts@[k] == copies(k as nat, wm_size as nat, j as nat),
        decreases n - j,
    {
        let k = j % wm_size;
        proof {
            lemma_vote_bounds(r@, k as nat, wm_size as nat, j as nat);
            lemma_vote_bounds(g@, k as nat, wm_size as nat, j as nat);
            lemma_vote_bounds(b@, k as nat, wm_size as nat, j as nat);
        }
        let add = r[j] as u64 + g[j] as u64 + b[j] as u64;
        let s = sums[k] + add;
        let c = counts[k] + 1;
        let ghost old_sums = sums@;
        let ghost old_counts = counts@;
        sums.set(k, s);
        counts.set(k, c);
        proof {
            assert forall|k2: int| 0 <= k2 < wm_size implies #[trigger] sums@[k2] == vote_sum(
                r@,
                k2 as nat,
                wm_size as nat,
                (j + 1) as nat,
            ) + vote_sum(g@, k2 as nat, wm_size as nat, (j + 1) as nat) + vote_sum(
                b@,
                k2 as nat,
                wm_size as nat,
                (j + 1) as nat,
            ) && counts@[k2] == copies(k2 as nat, wm_size as nat, (j + 1) as nat) by {
                lemma_vote_step(r@, k2 as nat, wm_size as nat, j as nat);
                lemma_vote_step(g@, k2 as nat, wm_size as nat, j as nat);
                lemma_vote_step(b@, k2 as nat, wm_size as nat, j as nat);
                if k2 == k as int {
                    assert(sums@[k2] == old_sums[k2] + add);
                } else {
                    assert(sums@[k2] == old_sums[k2]);
                }
            }
        }
        j = j + 1;
    }
    let mut bits: Vec<u8> = Vec::new();
    let mut i: usize = 0;
    while i < wm_size
        invariant
            n == r@.len(),
            n == g@.len(),
            n == b@.len(),
            n <= 0x0100_0000_0000_0000,
            i <= wm_size,
            sums@.len() == wm_size,
            counts@.len() == wm_size,
            bits@.len() == i,
            forall|j2: int| 0 <= j2 < r@.len() ==> #[trigger] r@[j2] <= 4,
            forall|k: int|
                0 <= k < wm_size ==> #[trigger] sums@[k] == vote_sum(
                    r@,
                    k as nat,
                    wm_size as nat,
                    n as nat,
                ) + vote_sum(g@, k as nat, wm_size as nat, n as nat) + vote_sum(
                    b@,
                    k as nat,
                    wm_size as nat,
                    n as nat,
                ) && counts@[k] == copies(k as nat, wm_size as nat, n as nat),
            forall|k: int|
                0 <= k < i ==> #[trigger] bits@[k] == decided_bit(
                    r@,
                    g@,
                    b@,
                    k as nat,
                    wm_size as nat,
                ),
        decreases wm_size - i,
    {
        proof {
            lemma_vote_bounds(r@, i as nat, wm_size as nat, n as nat);
        }
        let bit: u8 = if sums[i] > 6 * counts[i] {
            1
        } else {
            0
        };
        bits.push(bit);
        i = i + 1;
    }
    Ok(bits)
}

/// The side of the top-left region that fast mode processes, when it
/// applies: both sides over 512.
pub fn fast_mode_region(width: u32, height: u32, fast_mode: bool) -> (r: Option<u32>)
    ensures
        r is Some <==> fast_mode && width > 512 && height > 512,
        r matches Some(s) ==> s == 512,
{
    if fast_mode && width > FAST_MODE_MAX && height > FAST_MODE_MAX {
        Some(FAST_MODE_MAX)
    } else {
        None
    }
}

} // verus!
