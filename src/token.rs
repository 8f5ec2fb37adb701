//! Watermark value tokens: the three shapes a watermark takes inside a JSON
//! value, how text becomes a token, and how a token is read back.
use vstd::prelude::*;
use vstd::utf8::*;
use aes_gcm::aead::{Aead, AeadCore, KeyInit};
use aes_gcm::{Aes256Gcm, Key, Nonce};
use sha2::{Digest, Sha256};
use crate::error::BlindMarkError;
use crate::json_marker::JsonWatermarker;
use crate::hex::{bytes_to_hex, hex_chars, hex_decodable, hex_decoded, hex_to_bytes};
use crate::payload::{md5_of, WatermarkEncoder};
use crate::text::{char_suffix, concat_str, has_prefix, starts_with, str_bytes, str_eq, string_from_utf8};

verus! {

/// The SHA-256 digest of a byte sequence.
pub uninterp spec fn sha256_of(data: Seq<u8>) -> Seq<u8>;

/// The AES-256-GCM ciphertext, tag appended, of a plaintext under a key and
/// a nonce; its argument is `(key, nonce, plaintext)`.
pub uninterp spec fn aes_seal_of(input: (Seq<u8>, Seq<u8>, Seq<u8>)) -> Seq<u8>;

/// The AES-256-GCM plaintext of a ciphertext under a key and a nonce, or
/// `None` when the tag does not authenticate; its argument is
/// `(key, nonce, ciphertext)`.
pub uninterp spec fn aes_open_of(input: (Seq<u8>, Seq<u8>, Seq<u8>)) -> Option<Seq<u8>>;

/// Relies on the `sha2` crate's `Sha256::digest`: the 32-byte digest.
#[verifier::external_body]
fn sha256_digest(data: &[u8]) -> (r: Vec<u8>)
    ensures
        r@ == sha256_of(data@),
        r@.len() == 32,
{
    Sha256::digest(data).to_vec()
}

/// Relies on `aes_gcm`'s `AeadCore::generate_nonce` with the operating
/// system's random source: twelve random bytes.
#[verifier::external_body]
fn random_nonce() -> (r: Vec<u8>)
    ensures
        r@.len() == 12,
{
    Aes256Gcm::generate_nonce(&mut rand::rngs::OsRng).to_vec()
}

/// Relies on `aes_gcm`'s `Aead::encrypt` for `Aes256Gcm`: it fails exactly
/// on a plaintext over 2^36 bytes; the ciphertext is as long as the
/// plaintext with the 16-byte tag appended, and decrypting it under the
/// same key and nonce gives the plaintext back.
#[verifier::external_body]
fn aes_gcm_seal(key: &[u8], nonce: &[u8], plaintext: &[u8]) -> (r: Option<Vec<u8>>)
    requires
        key@.len() == 32,
        nonce@.len() == 12,
    ensures
        r is Some <==> plaintext@.len() <= AES_MAX_PLAINTEXT,
        r matches Some(c) ==> c@ == aes_seal_of((key@, nonce@, plaintext@)),
        r matches Some(c) ==> c@.len() == plaintext@.len() + 16,
        r matches Some(c) ==> aes_open_of((key@, nonce@, c@)) == Some(plaintext@),
{
    let cipher = Aes256Gcm::new(Key::<Aes256Gcm>::from_slice(key));
    cipher.encrypt(Nonce::from_slice(nonce), plaintext).ok()
}

/// Relies on `aes_gcm`'s `Aead::decrypt` for `Aes256Gcm`.
#[verifier::external_body]
fn aes_gcm_open(key: &[u8], nonce: &[u8], ciphertext: &[u8]) -> (r: Option<Vec<u8>>)
    requires
        key@.len() == 32,
        nonce@.len() == 12,
    ensures
        r is Some <==> aes_open_of((key@, nonce@, ciphertext@)) is Some,
        r matches Some(p) ==> aes_open_of((key@, nonce@, ciphertext@)) == Some(p@),
{
    let cipher = Aes256Gcm::new(Key::<Aes256Gcm>::from_slice(key));
    cipher.decrypt(Nonce::from_slice(nonce), ciphertext).ok()
}

/// The longest plaintext AES-GCM seals, in bytes (2^36).
pub const AES_MAX_PLAINTEXT: u64 = 0x10_0000_0000;

/// Prefix of a plaintext token.
pub open spec fn txt_prefix() -> Seq<char> {
    seq!['t', 'x', 't', ':']
}

/// Prefix of an AES token.
pub open spec fn aes_prefix() -> Seq<char> {
    seq!['a', 'e', 's', ':']
}

/// A lowercase hexadecimal digit.
pub open spec fn is_lower_hex(c: char) -> bool {
    ('0' <= c && c <= '9') || ('a' <= c && c <= 'f')
}

/// Thirty-two lowercase hexadecimal digits: the shape of an MD5 token.
pub open spec fn md5_like(s: Seq<char>) -> bool {
    s.len() == 32 && forall|i: int| 0 <= i < 32 ==> #[trigger] is_lower_hex(s[i])
}

/// `aes:` and one or more lowercase hexadecimal digits: the shape of an AES
/// token.
pub open spec fn aes_like(s: Seq<char>) -> bool {
    has_prefix(s, aes_prefix()) && s.len() > 4 && forall|i: int|
        4 <= i < s.len() ==> #[trigger] is_lower_hex(s[i])
}

/// The shapes that the scanner accepts as a watermark.
pub open spec fn watermark_token(s: Seq<char>) -> bool {
    md5_like(s) || has_prefix(s, txt_prefix()) || aes_like(s)
}

/// The 32-byte AES key derived from a passphrase.
pub open spec fn aes_key_of(passphrase: Seq<char>) -> Seq<u8> {
    sha256_of(encode_utf8(passphrase))
}

/// The AES token for a text under a passphrase and a nonce.
pub open spec fn aes_token(text: Seq<char>, passphrase: Seq<char>, nonce: Seq<u8>) -> Seq<char> {
    aes_prefix() + hex_chars(nonce + aes_seal_of((aes_key_of(passphrase), nonce, encode_utf8(text))))
}

/// The text that an AES token carries under a passphrase, when its hex
/// decodes, holds a nonce, authenticates and is valid UTF-8.
pub open spec fn aes_token_text(raw: Seq<char>, passphrase: Seq<char>) -> Option<Seq<char>> {
    let hx = raw.subrange(4, raw.len() as int);
    if !has_prefix(raw, aes_prefix()) || !hex_decodable(hx) {
        None
    } else {
        let data = hex_decoded(hx);
        if data.len() < 12 {
            None
        } else {
            match aes_open_of(
                (aes_key_of(passphrase), data.subrange(0, 12), data.subrange(12, data.len() as int)),
            ) {
                Some(p) => if valid_utf8(p) {
                    Some(decode_utf8(p))
                } else {
                    None
                },
                None => None,
            }
        }
    }
}

/// `tok` is an AES token of `text` under `passphrase`: made with some
/// 12-byte nonce, `4 + 2 * (12 + bytes + 16)` characters long, and the
/// cipher opens what it sealed.
pub open spec fn aes_token_for(tok: Seq<char>, text: Seq<char>, passphrase: Seq<char>) -> bool {
    exists|nonce: Seq<u8>|
        #![trigger aes_token(text, passphrase, nonce)]
        nonce.len() == 12 && tok == aes_token(text, passphrase, nonce) && tok.len() == 4 + 2 * (
        28 + encode_utf8(text).len()) && aes_open_of(
            (
                aes_key_of(passphrase),
                nonce,
                aes_seal_of((aes_key_of(passphrase), nonce, encode_utf8(text))),
            ),
        ) == Some(encode_utf8(text))
}

/// Whether a token can be made from `text` in `mode`: AES needs a
/// passphrase and a text of at most 2^36 bytes.
pub open spec fn token_makeable(text: Seq<char>, mode: Seq<char>, passphrase: Option<Seq<char>>) -> bool {
    !is_aes_mode(mode) || (passphrase is Some && encode_utf8(text).len() <= AES_MAX_PLAINTEXT)
}

/// `tok` is a token of `text` in `mode`: `txt:` and the text, an AES token,
/// or the 32-digit MD5 hex of the text for any other mode.
pub open spec fn token_for(
    tok: Seq<char>,
    text: Seq<char>,
    mode: Seq<char>,
    passphrase: Option<Seq<char>>,
) -> bool {
    if is_plaintext_mode(mode) {
        tok == txt_prefix() + text
    } else if is_aes_mode(mode) {
        passphrase matches Some(k) && aes_token_for(tok, text, k)
    } else {
        md5_of(encode_utf8(text)).len() == 16 && tok == md5_token(text)
    }
}

/// The name of each mode in a scan result.
pub open spec fn plaintext_name() -> Seq<char> {
    seq!['p', 'l', 'a', 'i', 'n', 't', 'e', 'x', 't']
}

pub open spec fn aes_name() -> Seq<char> {
    seq!['a', 'e', 's']
}

pub open spec fn md5_name() -> Seq<char> {
    seq!['m', 'd', '5']
}

pub open spec fn unknown_name() -> Seq<char> {
    seq!['u', 'n', 'k', 'n', 'o', 'w', 'n']
}

/// The mode names are the strings a scan result carries.
pub proof fn lemma_mode_names()
    ensures
        plaintext_name() == "plaintext"@,
        aes_name() == "aes"@,
        md5_name() == "md5"@,
        unknown_name() == "unknown"@,
{
    reveal_strlit("plaintext");
    reveal_strlit("aes");
    reveal_strlit("md5");
    reveal_strlit("unknown");
    assert(plaintext_name() =~= "plaintext"@);
    assert(aes_name() =~= "aes"@);
    assert(md5_name() =~= "md5"@);
    assert(unknown_name() =~= "unknown"@);
}

/// What a stored value reads as: (display value, mode name, decoded).
pub open spec fn decoded_token(raw: Seq<char>, passphrase: Option<Seq<char>>) -> (
    Seq<char>,
    Seq<char>,
    bool,
) {
    if has_prefix(raw, txt_prefix()) {
        (raw.subrange(4, raw.len() as int), plaintext_name(), true)
    } else if has_prefix(raw, aes_prefix()) {
        match passphrase {
            Some(k) => match aes_token_text(raw, k) {
                Some(t) => (t, aes_name(), true),
                None => (raw, aes_name(), false),
            },
            None => (raw, aes_name(), false),
        }
    } else if md5_like(raw) {
        (raw, md5_name(), true)
    } else {
        (raw, unknown_name(), false)
    }
}

/// The view of an optional passphrase.
pub open spec fn opt_str(k: Option<&str>) -> Option<Seq<char>> {
    match k {
        Some(s) => Some(s@),
        None => None,
    }
}

/// Tests the MD5 token shape.
pub fn is_md5_like(s: &str) -> (r: bool)
    ensures
        r == md5_like(s@),
{
    if s.unicode_len() != 32 {
        return false;
    }
    let mut i: usize = 0;
    while i < 32
        invariant
            s@.len() == 32,
            i <= 32,
            forall|j: int| 0 <= j < i ==> #[trigger] is_lower_hex(s@[j]),
        decreases 32 - i,
    {
        let c = s.get_char(i);
        if !(('0' <= c && c <= '9') || ('a' <= c && c <= 'f')) {
            assert(!is_lower_hex(s@[i as int]));
            return false;
        }
        i = i + 1;
    }
    true
}

/// Tests whether a value has one of the three watermark shapes.
pub fn is_watermark_value(s: &str) -> (r: bool)
    ensures
        r == watermark_token(s@),
{
    proof {
        reveal_strlit("txt:");
        reveal_strlit("aes:");
    }
    assert("txt:"@ =~= txt_prefix());
    assert("aes:"@ =~= aes_prefix());
    is_md5_like(s) || starts_with(s, "txt:") || (starts_with(s, "aes:") && hex_tail(s))
}

/// Whether `s` has lowercase hexadecimal digits, at least one, after its
/// first four characters.
fn hex_tail(s: &str) -> (r: bool)
    ensures
        r == (s@.len() > 4 && forall|i: int| 4 <= i < s@.len() ==> #[trigger] is_lower_hex(s@[i])),
{
    let n = s.unicode_len();
    if n <= 4 {
        return false;
    }
    let mut i: usize = 4;
    while i < n
        invariant
            n == s@.len(),
            4 <= i <= n,
            forall|k: int| 4 <= k < i ==> #[trigger] is_lower_hex(s@[k]),
        decreases n - i,
    {
        let c = s.get_char(i);
        if !(('0' <= c && c <= '9') || ('a' <= c && c <= 'f')) {
            assert(!is_lower_hex(s@[i as int]));
            return false;
        }
        i = i + 1;
    }
    true
}

fn derive_aes_key(passphrase: &str) -> (r: Vec<u8>)
    ensures
        r@ == aes_key_of(passphrase@),
        r@.len() == 32,
{
    let bytes = str_bytes(passphrase);
    sha256_digest(bytes.as_slice())
}

/// The AES token of `text` under a key, with a fresh random nonce; an error
/// only where the cipher refuses the plaintext.
fn aes_encrypt(text: &str, key: &Vec<u8>, passphrase: Ghost<Seq<char>>) -> (r: Result<
    String,
    BlindMarkError,
>)
    requires
        key@ == aes_key_of(passphrase@),
        key@.len() == 32,
    ensures
        r is Ok <==> encode_utf8(text@).len() <= AES_MAX_PLAINTEXT,
        r matches Ok(s) ==> aes_token_for(s@, text@, passphrase@),
        r matches Err(e) ==> e is ImageProcessing,
{
    let nonce = random_nonce();
    let pt = str_bytes(text);
    match aes_gcm_seal(key.as_slice(), nonce.as_slice(), pt.as_slice()) {
        Some(ct) => {
            let mut combined = nonce.clone();
            let mut ct2 = ct;
            combined.append(&mut ct2);
            let hx = bytes_to_hex(combined.as_slice());
            proof {
                reveal_strlit("aes:");
                assert("aes:"@ =~= aes_prefix());
            }
            let s = concat_str("aes:", hx.as_str());
            assert(aes_token_for(s@, text@, passphrase@)) by {
                assert(s@ == aes_token(text@, passphrase@, nonce@));
            }
            Ok(s)
        },
        None => Err(BlindMarkError::ImageProcessing(String::from_str("AES encryption failed"))),
    }
}

/// The text an AES token carries under a key, or an error.
fn aes_decrypt(encoded: &str, key: &Vec<u8>, passphrase: Ghost<Seq<char>>) -> (r: Result<
    String,
    BlindMarkError,
>)
    requires
        key@ == aes_key_of(passphrase@),
        key@.len() == 32,
        has_prefix(encoded@, aes_prefix()),
    ensures
        r is Ok <==> aes_token_text(encoded@, passphrase@) is Some,
        r matches Ok(s) ==> aes_token_text(encoded@, passphrase@) == Some(s@),
{
    let hex_part = char_suffix(encoded, 4);
    let combined = match hex_to_bytes(hex_part.as_str()) {
        Ok(v) => v,
        Err(e) => {
            return Err(e);
        },
    };
    if combined.len() < 12 {
        return Err(BlindMarkError::ImageProcessing(String::from_str("AES data too short")));
    }
    let nonce = slice_part(&combined, 0, 12);
    let ct = slice_part(&combined, 12, combined.len());
    match aes_gcm_open(key.as_slice(), nonce.as_slice(), ct.as_slice()) {
        Some(p) => match string_from_utf8(p) {
            Some(s) => Ok(s),
            None => Err(
                BlindMarkError::ImageProcessing(String::from_str("decrypted text is not UTF-8")),
            ),
        },
        None => Err(
            BlindMarkError::ImageProcessing(
                String::from_str("AES decryption failed (wrong key or damaged data)"),
            ),
        ),
    }
}

fn slice_part(v: &Vec<u8>, from: usize, to: usize) -> (r: Vec<u8>)
    requires
        from <= to <= v@.len(),
    ensures
        r@ == v@.subrange(from as int, to as int),
{
    let mut out: Vec<u8> = Vec::new();
    let mut i: usize = from;
    while i < to
        invariant
            from <= i <= to <= v@.len(),
            out@ == v@.subrange(from as int, i as int),
        decreases to - i,
    {
        out.push(v[i]);
        i = i + 1;
        assert(out@ =~= v@.subrange(from as int, i as int));
    }
    out
}

/// Whether `mode` names the plaintext mode.
pub open spec fn is_plaintext_mode(mode: Seq<char>) -> bool {
    mode == plaintext_name()
}

/// Whether `mode` names the AES mode.
pub open spec fn is_aes_mode(mode: Seq<char>) -> bool {
    mode == aes_name()
}

/// The MD5 token of a text.
pub open spec fn md5_token(text: Seq<char>) -> Seq<char> {
    hex_chars(md5_of(encode_utf8(text)))
}

impl JsonWatermarker {
    /// The value token of `text` in `mode`: `txt:` and the text for
    /// "plaintext", an AES token for "aes" (which needs a passphrase), and
    /// the MD5 hex digest for any other mode.
    pub fn encode_watermark(text: &str, mode: &str, aes_key: Option<&str>) -> (r: Result<
        String,
        BlindMarkError,
    >)
        ensures
            r is Ok <==> token_makeable(text@, mode@, opt_str(aes_key)),
            r matches Ok(s) ==> token_for(s@, text@, mode@, opt_str(aes_key)),
            r matches Err(e) ==> e is ImageProcessing,
    {
        proof {
            reveal_strlit("plaintext");
            reveal_strlit("aes");
            reveal_strlit("txt:");
        }
        assert("plaintext"@ =~= plaintext_name());
        assert("aes"@ =~= aes_name());
        assert("txt:"@ =~= txt_prefix());
        if str_eq(mode, "plaintext") {
            Ok(concat_str("txt:", text))
        } else if str_eq(mode, "aes") {
            match aes_key {
                Some(k) => {
                    let key = derive_aes_key(k);
                    aes_encrypt(text, &key, Ghost(k@))
                },
                None => Err(
                    BlindMarkError::ImageProcessing(String::from_str("AES mode needs a key")),
                ),
            }
        } else {
            Ok(WatermarkEncoder::encode(text).md5_hash)
        }
    }

    /// Reads a stored value back: (display value, mode name, decoded).
    pub fn decode_watermark(raw: &str, aes_key: Option<&str>) -> (r: (String, String, bool))
        ensures
            (r.0@, r.1@, r.2) == decoded_token(
                raw@,
                match aes_key {
                    Some(k) => Some(k@),
                    None => None,
                },
            ),
    {
        proof {
            reveal_strlit("plaintext");
            reveal_strlit("aes");
            reveal_strlit("md5");
            reveal_strlit("unknown");
            reveal_strlit("txt:");
            reveal_strlit("aes:");
        }
        assert("plaintext"@ =~= plaintext_name());
        assert("aes"@ =~= aes_name());
        assert("md5"@ =~= md5_name());
        assert("unknown"@ =~= unknown_name());
        assert("txt:"@ =~= txt_prefix());
        assert("aes:"@ =~= aes_prefix());
        if starts_with(raw, "txt:") {
            (char_suffix(raw, 4), String::from_str("plaintext"), true)
        } else if starts_with(raw, "aes:") {
            match aes_key {
                Some(k) => {
                    let key = derive_aes_key(k);
                    match aes_decrypt(raw, &key, Ghost(k@)) {
                        Ok(t) => (t, String::from_str("aes"), true),
                        Err(_) => (String::from_str(raw), String::from_str("aes"), false),
                    }
                },
                None => (String::from_str(raw), String::from_str("aes"), false),
            }
        } else if is_md5_like(raw) {
            (String::from_str(raw), String::from_str("md5"), true)
        } else {
            (String::from_str(raw), String::from_str("unknown"), false)
        }
    }
}

} // verus!
