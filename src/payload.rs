//! Payload codec: text to bit vectors and back, for the MD5 payload
//! (128 bits) and the framed raw-text payload (544 bits).
use vstd::prelude::*;
use vstd::utf8::*;
use md5::{Digest, Md5};
use crate::bits::{
    all_binary, bits_bytes, bits_value, byte_at, bytes_bits, int_bits, lemma_bits_value_bound,
    lemma_bytes_bits_push, push_byte_bits, lemma_bytes_bits_binary, lemma_bytes_round_trip,
    lemma_byte_round_trip, lemma_int_bits_value, lemma_bytes_bits_chunk, push_u16_bits, read_bits,
};
use crate::error::BlindMarkError;
use crate::hex::{bytes_to_hex, hex_chars};
use crate::text::{decimal, str_bytes, string_from_utf8};

verus! {

/// First magic byte of a raw-text frame ("W").
pub const TEXT_WATERMARK_MAGIC_0: u8 = 0x57;
/// Second magic byte of a raw-text frame ("M").
pub const TEXT_WATERMARK_MAGIC_1: u8 = 0x4D;
/// Bits of the frame header: two magic bytes and a 16-bit length.
pub const TEXT_WATERMARK_HEADER_BITS: usize = 32;
/// Bits of a whole raw-text frame.
pub const TEXT_WATERMARK_TOTAL_BITS: usize = 544;
/// Largest text, in UTF-8 bytes, that a frame carries.
pub const TEXT_WATERMARK_MAX_BYTES: usize = 64;
/// Bits of an MD5 payload.
pub const MD5_PAYLOAD_BITS: usize = 128;

/// The MD5 digest of a byte sequence.
pub uninterp spec fn md5_of(data: Seq<u8>) -> Seq<u8>;

/// Relies on the `md-5` crate's `Md5::digest`: the 16-byte MD5 digest.
#[verifier::external_body]
fn md5_digest(data: &[u8]) -> (r: Vec<u8>)
    ensures
        r@ == md5_of(data@),
        r@.len() == 16,
{
    Md5::digest(data).to_vec()
}

/// An MD5 payload: the digest as lowercase hexadecimal and as bits.
pub struct WatermarkData {
    pub md5_hash: String,
    pub binary_sequence: Vec<u8>,
}

impl WatermarkData {
    pub fn new(md5_hash: String, binary_sequence: Vec<u8>) -> (r: Self)
        ensures
            r.md5_hash == md5_hash,
            r.binary_sequence == binary_sequence,
    {
        WatermarkData { md5_hash, binary_sequence }
    }
}

/// The 544-bit frame of the UTF-8 bytes `tb`: magic, 16-bit big-endian
/// length, the bytes, then zeros.
pub open spec fn text_frame(tb: Seq<u8>) -> Seq<u8> {
    let head = int_bits(0x57, 8) + int_bits(0x4D, 8) + int_bits(tb.len(), 16) + bytes_bits(tb);
    head + Seq::new((544 - head.len()) as nat, |i: int| 0u8)
}

/// The text bytes that a frame announces, when its magic matches and the
/// announced length is at most 64 and present in full.
pub open spec fn frame_bytes(bits: Seq<u8>) -> Option<Seq<u8>> {
    if bits.len() < 32 {
        None
    } else if byte_at(bits, 0) != 0x57 || byte_at(bits, 8) != 0x4D {
        None
    } else {
        let n = bits_value(bits.subrange(16, 32));
        if n > 64 || bits.len() < 32 + 8 * n {
            None
        } else {
            Some(bits_bytes(bits, 32, n))
        }
    }
}

/// The text that a frame carries, when its bytes are valid UTF-8.
pub open spec fn frame_text(bits: Seq<u8>) -> Option<Seq<char>> {
    match frame_bytes(bits) {
        Some(b) => if valid_utf8(b) {
            Some(decode_utf8(b))
        } else {
            None
        },
        None => None,
    }
}

/// The hexadecimal text of the 16 bytes that 128 bits spell.
pub open spec fn md5_bits_hex(bits: Seq<u8>) -> Seq<char> {
    hex_chars(bits_bytes(bits, 0, 16))
}

/// Decoding the bits of an MD5 payload gives back its hexadecimal digest:
/// for every 16-byte digest `d`, the 128 bits `bytes_bits(d)` that `encode`
/// produces are all binary and `decode` turns them into `hex_chars(d)`,
/// the `md5_hash` that `encode` produces beside them.
pub proof fn lemma_md5_payload_round_trip(d: Seq<u8>)
    requires
        d.len() == 16,
    ensures
        bytes_bits(d).len() == 128,
        all_binary(bytes_bits(d)),
        md5_bits_hex(bytes_bits(d)) == hex_chars(d),
{
    lemma_bytes_bits_binary(d);
    lemma_bytes_round_trip(d);
}

/// Decoding what `encode` produces gives back its digest: for every text
/// `t` whose MD5 digest is the 16 bytes `encode` reports, `decode` of the
/// 128 bits is `Ok` and equals the 32-digit lowercase hex `md5_hash`.
pub proof fn lemma_encode_decode(t: Seq<char>)
    requires
        md5_of(encode_utf8(t)).len() == 16,
    ensures
        bytes_bits(md5_of(encode_utf8(t))).len() == 128,
        all_binary(bytes_bits(md5_of(encode_utf8(t)))),
        md5_bits_hex(bytes_bits(md5_of(encode_utf8(t)))) == hex_chars(md5_of(encode_utf8(t))),
        hex_chars(md5_of(encode_utf8(t))).len() == 32,
{
    lemma_md5_payload_round_trip(md5_of(encode_utf8(t)));
}

/// Reading a raw-text frame back gives the text: for every text `t` of at
/// most 64 UTF-8 bytes, `bits_to_text(text_to_bits(t)) == t`.
pub proof fn lemma_text_round_trip(t: Seq<char>)
    requires
        encode_utf8(t).len() <= 64,
    ensures
        all_binary(text_frame(encode_utf8(t))),
        frame_text(text_frame(encode_utf8(t))) == Some(t),
{
    let tb = encode_utf8(t);
    let n = tb.len();
    let a = int_bits(0x57, 8);
    let b = int_bits(0x4D, 8);
    let c = int_bits(n, 16);
    let d = bytes_bits(tb);
    let head = a + b + c + d;
    let f = text_frame(tb);
    assert(head.len() == 32 + 8 * n);
    assert(f.subrange(0, 8) =~= a);
    assert(f.subrange(8, 16) =~= b);
    assert(f.subrange(16, 32) =~= c);
    lemma_byte_round_trip(0x57);
    lemma_byte_round_trip(0x4D);
    lemma_int_bits_value(n, 16);
    vstd::arithmetic::power2::lemma2_to64();
    assert(bits_value(f.subrange(16, 32)) == n);
    assert forall|i: int| 0 <= i < n implies #[trigger] bits_bytes(f, 32, n)[i] == tb[i] by {
        lemma_bytes_bits_chunk(tb, i);
        assert(f.subrange(32 + 8 * i, 32 + 8 * i + 8) =~= d.subrange(8 * i, 8 * i + 8));
    }
    assert(bits_bytes(f, 32, n) =~= tb);
    encode_utf8_valid_utf8(t);
    encode_utf8_decode_utf8(t);
    assert forall|k: int| 0 <= k < f.len() implies #[trigger] f[k] <= 1 by {
        lemma_bytes_bits_binary(tb);
        if k < 32 {
            let e = (7 - (k % 8)) as nat;
            vstd::arithmetic::power2::lemma_pow2_pos(e);
            vstd::arithmetic::power2::lemma_pow2_pos((15 - (k - 16)) as nat);
        } else if k < 32 + 8 * n {
            assert(f[k] == d[k - 32]);
        }
    }
}

pub struct WatermarkEncoder;

impl WatermarkEncoder {
    /// The MD5 payload of `text`: its digest in hexadecimal and as 128 bits,
    /// byte 0 first, each byte most significant bit first.
    pub fn encode(text: &str) -> (r: WatermarkData)
        ensures
            md5_of(encode_utf8(text@)).len() == 16,
            r.md5_hash@ == hex_chars(md5_of(encode_utf8(text@))),
            r.md5_hash@.len() == 32,
            r.binary_sequence@ == bytes_bits(md5_of(encode_utf8(text@))),
            r.binary_sequence@.len() == 128,
    {
        let data = str_bytes(text);
        let digest = md5_digest(data.as_slice());
        let hash = bytes_to_hex(digest.as_slice());
        let mut bits: Vec<u8> = Vec::new();
        let mut i: usize = 0;
        while i < digest.len()
            invariant
                i <= digest@.len(),
                bits@ == bytes_bits(digest@.subrange(0, i as int)),
            decreases digest@.len() - i,
        {
            proof {
                lemma_bytes_bits_push(digest@.subrange(0, i as int), digest@[i as int]);
                assert(digest@.subrange(0, i as int).push(digest@[i as int]) =~= digest@.subrange(
                    0,
                    i + 1,
                ));
            }
            push_byte_bits(&mut bits, digest[i]);
            i = i + 1;
        }
        assert(digest@.subrange(0, digest@.len() as int) =~= digest@);
        WatermarkData::new(hash, bits)
    }

    /// The hexadecimal digest that 128 bits spell; an error when the length
    /// is not 128 or an entry is neither 0 nor 1.
    pub fn decode(binary_sequence: &[u8]) -> (r: Result<String, BlindMarkError>)
        ensures
            r is Ok <==> binary_sequence@.len() == 128 && all_binary(binary_sequence@),
            r matches Ok(s) ==> s@ == md5_bits_hex(binary_sequence@),
            r matches Err(e) ==> e is ExtractionFailed,
    {
        if binary_sequence.len() != MD5_PAYLOAD_BITS {
            let mut msg = String::from_str("Invalid binary sequence length: expected 128 bits, got ");
            msg.append(decimal(binary_sequence.len() as u64).as_str());
            return Err(BlindMarkError::ExtractionFailed(msg));
        }
        let mut i: usize = 0;
        while i < binary_sequence.len()
            invariant
                i <= binary_sequence@.len(),
                forall|j: int| 0 <= j < i ==> #[trigger] binary_sequence@[j] <= 1,
            decreases binary_sequence@.len() - i,
        {
            if binary_sequence[i] > 1 {
                return Err(
                    BlindMarkError::ExtractionFailed(
                        String::from_str("Invalid bit value: expected 0 or 1"),
                    ),
                );
            }
            i = i + 1;
        }
        let mut bytes: Vec<u8> = Vec::new();
        let mut k: usize = 0;
        while k < 16
            invariant
                k <= 16,
                binary_sequence@.len() == 128,
                all_binary(binary_sequence@),
                bytes@ =~= bits_bytes(binary_sequence@, 0, k as nat),
            decreases 16 - k,
        {
            let v = read_bits(binary_sequence, 8 * k, 8);
            proof {
                lemma_bits_value_bound(binary_sequence@.subrange(8 * k, 8 * k + 8));
                vstd::arithmetic::power2::lemma2_to64();
            }
            bytes.push(v as u8);
            k = k + 1;
        }
        Ok(bytes_to_hex(bytes.as_slice()))
    }

    /// The 544-bit frame of `text`; an error when its UTF-8 encoding is
    /// longer than 64 bytes.
    pub fn text_to_bits(text: &str) -> (r: Result<Vec<u8>, BlindMarkError>)
        ensures
            r is Ok <==> encode_utf8(text@).len() <= 64,
            r matches Ok(bits) ==> bits@ == text_frame(encode_utf8(text@)),
            r matches Err(e) ==> e is InvalidConfig,
    {
        let bytes = str_bytes(text);
        if bytes.len() > TEXT_WATERMARK_MAX_BYTES {
            return Err(
                BlindMarkError::InvalidConfig(
                    String::from_str("watermark text exceeds 64 bytes of UTF-8"),
                ),
            );
        }
        let ghost tb = bytes@;
        let mut bits: Vec<u8> = Vec::new();
        push_byte_bits(&mut bits, TEXT_WATERMARK_MAGIC_0);
        push_byte_bits(&mut bits, TEXT_WATERMARK_MAGIC_1);
        push_u16_bits(&mut bits, bytes.len() as u16);
        let ghost header = bits@;
        let mut i: usize = 0;
        while i < bytes.len()
            invariant
                i <= bytes@.len() <= 64,
                tb == bytes@,
                bits@ == header + bytes_bits(tb.subrange(0, i as int)),
            decreases bytes@.len() - i,
        {
            proof {
                lemma_bytes_bits_push(tb.subrange(0, i as int), tb[i as int]);
                assert(tb.subrange(0, i as int).push(tb[i as int]) =~= tb.subrange(0, i + 1));
            }
            push_byte_bits(&mut bits, bytes[i]);
            proof {
                assert(bits@ =~= header + bytes_bits(tb.subrange(0, i + 1)));
            }
            i = i + 1;
        }
        assert(tb.subrange(0, tb.len() as int) =~= tb);
        let ghost head = bits@;
        assert(head.len() == 32 + 8 * tb.len());
        while bits.len() < TEXT_WATERMARK_TOTAL_BITS
            invariant
                head.len() <= bits@.len() <= 544,
                bits@ =~= head + Seq::new((bits@.len() - head.len()) as nat, |i: int| 0u8),
            decreases 544 - bits@.len(),
        {
            bits.push(0);
        }
        Ok(bits)
    }

    /// The text that a raw-text frame carries, or `None` when the magic does
    /// not match, the announced length is over 64 or missing, or the bytes
    /// are not valid UTF-8.
    pub fn bits_to_text(bits: &[u8]) -> (r: Option<String>)
        requires
            all_binary(bits@),
        ensures
            r is Some <==> frame_text(bits@) is Some,
            r matches Some(s) ==> Some(s@) == frame_text(bits@),
    {
        if bits.len() < TEXT_WATERMARK_HEADER_BITS {
            return None;
        }
        let m0 = read_bits(bits, 0, 8);
        let m1 = read_bits(bits, 8, 8);
        proof {
            lemma_bits_value_bound(bits@.subrange(0, 8));
            lemma_bits_value_bound(bits@.subrange(8, 16));
            vstd::arithmetic::power2::lemma2_to64();
        }
        if m0 != TEXT_WATERMARK_MAGIC_0 as u16 || m1 != TEXT_WATERMARK_MAGIC_1 as u16 {
            return None;
        }
        let len = read_bits(bits, 16, 16) as usize;
        if len > TEXT_WATERMARK_MAX_BYTES {
            return None;
        }
        let needed = TEXT_WATERMARK_HEADER_BITS + len * 8;
        if bits.len() < needed {
            return None;
        }
        let mut bytes: Vec<u8> = Vec::new();
        let mut i: usize = 0;
        while i < len
            invariant
                i <= len <= 64,
                bits@.len() >= 32 + 8 * len,
                all_binary(bits@),
                bytes@ =~= bits_bytes(bits@, 32, i as nat),
            decreases len - i,
        {
            let v = read_bits(bits, TEXT_WATERMARK_HEADER_BITS + 8 * i, 8);
            proof {
                lemma_bits_value_bound(bits@.subrange(32 + 8 * i, 32 + 8 * i + 8));
                vstd::arithmetic::power2::lemma2_to64();
            }
            bytes.push(v as u8);
            i = i + 1;
        }
        string_from_utf8(bytes)
    }
}

} // verus!
