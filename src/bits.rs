//! Bit sequences, most significant bit first, and the lemmas that relate
//! packing a value into bits with reading it back.
use vstd::prelude::*;
use vstd::arithmetic::power2::*;
use vstd::arithmetic::div_mod::*;

verus! {

/// Bit `i` (counted from the most significant end) of the `w`-bit value `v`.
pub open spec fn bit_at(v: nat, w: nat, i: nat) -> u8 {
    ((v / pow2((w - 1 - i) as nat)) % 2) as u8
}

/// The `w` bits of `v`, most significant first.
pub open spec fn int_bits(v: nat, w: nat) -> Seq<u8> {
    Seq::new(w, |i: int| bit_at(v, w, i as nat))
}

/// The bits of a byte sequence, each byte most significant bit first.
pub open spec fn bytes_bits(bs: Seq<u8>) -> Seq<u8> {
    Seq::new(8 * bs.len(), |k: int| bit_at(bs[k / 8] as nat, 8, (k % 8) as nat))
}

/// Every entry is 0 or 1.
pub open spec fn all_binary(s: Seq<u8>) -> bool {
    forall|i: int| 0 <= i < s.len() ==> #[trigger] s[i] <= 1
}

/// The number whose binary digits, most significant first, are `s`.
pub open spec fn bits_value(s: Seq<u8>) -> nat
    decreases s.len(),
{
    if s.len() == 0 {
        0
    } else {
        bits_value(s.drop_last()) * 2 + s.last() as nat
    }
}

/// The byte read from the eight bits that start at `start`.
pub open spec fn byte_at(s: Seq<u8>, start: int) -> u8 {
    bits_value(s.subrange(start, start + 8)) as u8
}

/// The `n` bytes read from the bits of `s` that start at `start`.
pub open spec fn bits_bytes(s: Seq<u8>, start: int, n: nat) -> Seq<u8> {
    Seq::new(n, |i: int| byte_at(s, start + 8 * i))
}

pub proof fn lemma_bits_value_bound(s: Seq<u8>)
    requires
        all_binary(s),
    ensures
        bits_value(s) < pow2(s.len()),
    decreases s.len(),
{
    if s.len() > 0 {
        assert(all_binary(s.drop_last())) by {
            assert forall|i: int| 0 <= i < s.drop_last().len() implies #[trigger] s.drop_last()[i]
                <= 1 by {
                assert(s.drop_last()[i] == s[i]);
            }
        }
        lemma_bits_value_bound(s.drop_last());
        lemma_pow2_unfold(s.len());
        assert(s[s.len() - 1] <= 1);
    } else {
        lemma2_to64();
    }
}

/// Reading back the `w` bits of `v` gives `v` modulo `2^w`.
pub proof fn lemma_int_bits_value(v: nat, w: nat)
    ensures
        bits_value(int_bits(v, w)) == v % pow2(w),
    decreases w,
{
    if w == 0 {
        lemma2_to64();
        assert(int_bits(v, w).len() == 0);
    } else {
        let s = int_bits(v, w);
        let h = (v / 2) as nat;
        let w1 = (w - 1) as nat;
        assert(s.drop_last() =~= int_bits(h, w1)) by {
            assert forall|i: int| 0 <= i < w1 implies s.drop_last()[i] == #[trigger] int_bits(
                h,
                w1,
            )[i] by {
                let e = (w1 - 1 - i) as nat;
                lemma_pow2_unfold((w - 1 - i) as nat);
                assert(pow2((w - 1 - i) as nat) == 2 * pow2(e));
                lemma_pow2_pos(e);
                lemma_div_denominator(v as int, 2, pow2(e) as int);
            }
        }
        assert(s.last() == (v % 2) as u8) by {
            lemma2_to64();
            assert(s.last() == bit_at(v, w, w1));
            assert((w - 1 - w1) as nat == 0);
            assert(v / 1 == v);
        }
        lemma_int_bits_value(h, w1);
        lemma_pow2_unfold(w);
        lemma_pow2_pos(w1);
        lemma_mod_breakdown(v as int, 2, pow2(w1) as int);
    }
}

/// Reading back the bits of a byte gives the byte.
pub proof fn lemma_byte_round_trip(b: u8)
    ensures
        bits_value(int_bits(b as nat, 8)) == b as nat,
{
    lemma_int_bits_value(b as nat, 8);
    lemma2_to64();
}

/// The eight bits of byte `i` inside `bytes_bits(bs)`.
pub proof fn lemma_bytes_bits_chunk(bs: Seq<u8>, i: int)
    requires
        0 <= i < bs.len(),
    ensures
        bytes_bits(bs).subrange(8 * i, 8 * i + 8) =~= int_bits(bs[i] as nat, 8),
        byte_at(bytes_bits(bs), 8 * i) == bs[i],
{
    let all = bytes_bits(bs);
    assert forall|j: int| 0 <= j < 8 implies #[trigger] all.subrange(8 * i, 8 * i + 8)[j]
        == int_bits(bs[i] as nat, 8)[j] by {
        let k = 8 * i + j;
        lemma_fundamental_div_mod_converse(k, 8, i, j);
    }
    assert(all.subrange(8 * i, 8 * i + 8) =~= int_bits(bs[i] as nat, 8));
    lemma_byte_round_trip(bs[i]);
}

/// `bytes_bits` holds only zeros and ones.
pub proof fn lemma_bytes_bits_binary(bs: Seq<u8>)
    ensures
        all_binary(bytes_bits(bs)),
{
    assert forall|k: int| 0 <= k < bytes_bits(bs).len() implies #[trigger] bytes_bits(bs)[k]
        <= 1 by {
        let e = (8 - 1 - (k % 8)) as nat;
        lemma_pow2_pos(e);
    }
}

/// Reading the bytes back from `bytes_bits(bs)` gives `bs`.
pub proof fn lemma_bytes_round_trip(bs: Seq<u8>)
    ensures
        bits_bytes(bytes_bits(bs), 0, bs.len()) =~= bs,
{
    assert forall|i: int| 0 <= i < bs.len() implies #[trigger] bits_bytes(
        bytes_bits(bs),
        0,
        bs.len(),
    )[i] == bs[i] by {
        lemma_bytes_bits_chunk(bs, i);
    }
}

/// Appending a byte appends its eight bits.
pub proof fn lemma_bytes_bits_push(bs: Seq<u8>, b: u8)
    ensures
        bytes_bits(bs.push(b)) =~= bytes_bits(bs) + int_bits(b as nat, 8),
{
    let n = bs.len();
    assert forall|k: int| 0 <= k < 8 * n + 8 implies #[trigger] bytes_bits(bs.push(b))[k] == (
    bytes_bits(bs) + int_bits(b as nat, 8))[k] by {
        if k < 8 * n {
            assert(k / 8 < n) by (nonlinear_arith)
                requires
                    0 <= k < 8 * n,
            ;
            assert(0 <= k / 8) by (nonlinear_arith)
                requires
                    0 <= k,
            ;
        } else {
            lemma_fundamental_div_mod_converse(k, 8, n as int, k - 8 * n);
        }
    }
}

/// Appends the eight bits of `b`, most significant first.
pub fn push_byte_bits(out: &mut Vec<u8>, b: u8)
    ensures
        final(out)@ == old(out)@ + int_bits(b as nat, 8),
{
    let ghost start = out@;
    let mut div: u8 = 128;
    let mut j: usize = 0;
    proof {
        lemma2_to64();
    }
    while j < 8
        invariant
            0 <= j <= 8,
            div as nat == pow2((7 - j) as nat) || (j == 8 && div == 0),
            out@ == start + int_bits(b as nat, 8).subrange(0, j as int),
        decreases 8 - j,
    {
        proof {
            lemma2_to64();
        }
        let bit = (b / div) % 2;
        out.push(bit);
        proof {
            assert(int_bits(b as nat, 8)[j as int] == bit);
            assert(int_bits(b as nat, 8).subrange(0, j + 1) =~= int_bits(b as nat, 8).subrange(
                0,
                j as int,
            ).push(bit));
        }
        div = div / 2;
        j = j + 1;
        proof {
            if j < 8 {
                lemma_pow2_unfold((8 - j) as nat);
            }
        }
    }
    assert(int_bits(b as nat, 8).subrange(0, 8) =~= int_bits(b as nat, 8));
}

/// Appends the sixteen bits of `v`, most significant first.
pub fn push_u16_bits(out: &mut Vec<u8>, v: u16)
    ensures
        final(out)@ == old(out)@ + int_bits(v as nat, 16),
{
    let ghost start = out@;
    let mut div: u16 = 32768;
    let mut j: usize = 0;
    proof {
        lemma2_to64();
    }
    while j < 16
        invariant
            0 <= j <= 16,
            div as nat == pow2((15 - j) as nat) || (j == 16 && div == 0),
            out@ == start + int_bits(v as nat, 16).subrange(0, j as int),
        decreases 16 - j,
    {
        proof {
            lemma2_to64();
        }
        let bit = ((v / div) % 2) as u8;
        out.push(bit);
        proof {
            assert(int_bits(v as nat, 16)[j as int] == bit);
            assert(int_bits(v as nat, 16).subrange(0, j + 1) =~= int_bits(v as nat, 16).subrange(
                0,
                j as int,
            ).push(bit));
        }
        div = div / 2;
        j = j + 1;
        proof {
            if j < 16 {
                lemma_pow2_unfold((16 - j) as nat);
            }
        }
    }
    assert(int_bits(v as nat, 16).subrange(0, 16) =~= int_bits(v as nat, 16));
}

/// Reads `n` bits (at most sixteen) starting at `start` as a number.
pub fn read_bits(s: &[u8], start: usize, n: usize) -> (r: u16)
    requires
        n <= 16,
        start + n <= s@.len(),
        all_binary(s@),
    ensures
        r as nat == bits_value(s@.subrange(start as int, start + n)),
{
    let mut acc: u16 = 0;
    let mut j: usize = 0;
    let len = s.len();
    proof {
        lemma2_to64();
    }
    while j < n
        invariant
            len == s@.len(),
            j <= n <= 16,
            start + n <= s@.len(),
            all_binary(s@),
            acc as nat == bits_value(s@.subrange(start as int, start + j)),
            (acc as nat) < pow2(j as nat),
        decreases n - j,
    {
        let bit = s[start + j];
        proof {
            let sub = s@.subrange(start as int, start + j + 1);
            assert(sub.drop_last() =~= s@.subrange(start as int, start + j));
            assert(bit <= 1);
            lemma_pow2_unfold((j + 1) as nat);
            if j + 1 < 16 {
                lemma_pow2_strictly_increases((j + 1) as nat, 16);
            }
            lemma2_to64();
        }
        acc = acc * 2 + bit as u16;
        j = j + 1;
    }
    acc
}

} // verus!
