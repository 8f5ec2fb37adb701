//! Lowercase hexadecimal text for byte sequences.
use vstd::prelude::*;
use crate::error::BlindMarkError;
use crate::text::push_char;

verus! {

/// The lowercase hexadecimal digit for `v < 16`.
pub open spec fn hex_digit(v: u8) -> char {
    if v < 10 {
        (48 + v) as u8 as char
    } else {
        (87 + v) as u8 as char
    }
}

/// Two lowercase hexadecimal digits for each byte, high nibble first.
pub open spec fn hex_chars(bs: Seq<u8>) -> Seq<char> {
    Seq::new(
        2 * bs.len(),
        |k: int|
            if k % 2 == 0 {
                hex_digit(bs[k / 2] / 16)
            } else {
                hex_digit(bs[k / 2] % 16)
            },
    )
}

/// The value of a hexadecimal digit character of either case.
pub open spec fn hex_value(c: char) -> Option<u8> {
    if '0' <= c && c <= '9' {
        Some((c as u32 - 48) as u8)
    } else if 'a' <= c && c <= 'f' {
        Some((c as u32 - 87) as u8)
    } else if 'A' <= c && c <= 'F' {
        Some((c as u32 - 55) as u8)
    } else {
        None
    }
}

/// The byte that two hexadecimal digits denote, high digit first.
pub open spec fn pair_value(a: char, b: char) -> Option<u8> {
    match (hex_value(a), hex_value(b)) {
        (Some(x), Some(y)) => Some((x * 16 + y) as u8),
        _ => None,
    }
}

/// Whether `s` has an even length and holds hexadecimal digits only.
pub open spec fn hex_decodable(s: Seq<char>) -> bool {
    s.len() % 2 == 0 && forall|i: int|
        0 <= i < s.len() / 2 ==> (#[trigger] pair_value(s[2 * i], s[2 * i + 1])) is Some
}

/// The bytes that the character pairs of `s` denote.
pub open spec fn hex_decoded(s: Seq<char>) -> Seq<u8> {
    Seq::new(s.len() / 2, |i: int| pair_value(s[2 * i], s[2 * i + 1])->Some_0)
}

fn digit_char(v: u8) -> (c: char)
    requires
        v < 16,
    ensures
        c == hex_digit(v),
{
    if v < 10 {
        (48 + v) as char
    } else {
        (87 + v) as char
    }
}

/// Lowercase hexadecimal text of `bytes`.
pub fn bytes_to_hex(bytes: &[u8]) -> (r: String)
    ensures
        r@ == hex_chars(bytes@),
{
    let mut s = String::new();
    let mut i: usize = 0;
    while i < bytes.len()
        invariant
            i <= bytes@.len(),
            s@ == hex_chars(bytes@.subrange(0, i as int)),
        decreases bytes@.len() - i,
    {
        let b = bytes[i];
        push_char(&mut s, digit_char(b / 16));
        push_char(&mut s, digit_char(b % 16));
        proof {
            let prev = bytes@.subrange(0, i as int);
            let next = bytes@.subrange(0, i + 1);
            assert forall|k: int| 0 <= k < 2 * next.len() implies #[trigger] hex_chars(next)[k]
                == s@[k] by {
                if k < 2 * i {
                    assert(k / 2 < i) by (nonlinear_arith)
                        requires
                            0 <= k < 2 * i,
                    ;
                    assert(0 <= k / 2);
                    assert(hex_chars(prev)[k] == s@[k]);
                } else {
                    vstd::arithmetic::div_mod::lemma_fundamental_div_mod_converse(
                        k,
                        2,
                        i as int,
                        k - 2 * i,
                    );
                }
            }
            assert(s@ =~= hex_chars(next));
        }
        i = i + 1;
    }
    assert(bytes@.subrange(0, bytes@.len() as int) =~= bytes@);
    s
}

fn char_hex_value(c: char) -> (r: Option<u8>)
    ensures
        r == hex_value(c),
{
    if '0' <= c && c <= '9' {
        Some((c as u32 - 48) as u8)
    } else if 'a' <= c && c <= 'f' {
        Some((c as u32 - 87) as u8)
    } else if 'A' <= c && c <= 'F' {
        Some((c as u32 - 55) as u8)
    } else {
        None
    }
}

fn char_pair_value(a: char, b: char) -> (r: Option<u8>)
    ensures
        r == pair_value(a, b),
{
    match (char_hex_value(a), char_hex_value(b)) {
        (Some(x), Some(y)) => Some(x * 16 + y),
        _ => None,
    }
}

/// The bytes written as hexadecimal text in `s` (digits of either case); an
/// error when `s` has an odd length or a character that is no hexadecimal
/// digit.
pub fn hex_to_bytes(s: &str) -> (r: Result<Vec<u8>, BlindMarkError>)
    ensures
        r is Ok <==> hex_decodable(s@),
        r matches Ok(v) ==> v@ == hex_decoded(s@),
        r matches Err(e) ==> e is ImageProcessing,
{
    let n = s.unicode_len();
    if n % 2 != 0 {
        return Err(BlindMarkError::ImageProcessing(String::from_str("invalid hex string length")));
    }
    let mut out: Vec<u8> = Vec::new();
    let mut i: usize = 0;
    while i < n / 2
        invariant
            n == s@.len(),
            n % 2 == 0,
            i <= n / 2,
            out@.len() == i,
            forall|j: int| 0 <= j < i ==> (#[trigger] pair_value(s@[2 * j], s@[2 * j + 1])) is Some,
            forall|j: int| 0 <= j < i ==> out@[j] == #[trigger] hex_decoded(s@)[j],
        decreases n / 2 - i,
    {
        let a = s.get_char(2 * i);
        let b = s.get_char(2 * i + 1);
        match char_pair_value(a, b) {
            Some(v) => {
                out.push(v);
            },
            None => {
                return Err(BlindMarkError::ImageProcessing(String::from_str("hex decoding failed")));
            },
        }
        i = i + 1;
    }
    assert(out@ =~= hex_decoded(s@));
    Ok(out)
}

/// Reading hexadecimal text back gives the bytes: `hex_to_bytes` of
/// `bytes_to_hex(b)` is `b`.
pub proof fn lemma_hex_round_trip(bs: Seq<u8>)
    ensures
        hex_decodable(hex_chars(bs)),
        hex_decoded(hex_chars(bs)) == bs,
{
    let h = hex_chars(bs);
    assert forall|i: int| 0 <= i < h.len() / 2 implies (#[trigger] pair_value(h[2 * i], h[2 * i + 1]))
        == Some(bs[i]) by {
        assert((2 * i) / 2 == i && (2 * i) % 2 == 0);
        assert((2 * i + 1) / 2 == i && (2 * i + 1) % 2 == 1);
        let b = bs[i];
        lemma_digit_value(b / 16);
        lemma_digit_value(b % 16);
        assert(b == (b / 16) * 16 + b % 16);
    }
    assert(h.len() % 2 == 0);
    assert(hex_decoded(h) =~= bs);
}

proof fn lemma_digit_value(v: u8)
    requires
        v < 16,
    ensures
        hex_value(hex_digit(v)) == Some(v),
{
    let c = hex_digit(v);
    if v < 10 {
        assert(c as u32 == 48 + v);
    } else {
        assert(c as u32 == 87 + v);
    }
}

} // verus!
