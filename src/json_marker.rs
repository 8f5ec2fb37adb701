//! JSON watermark injection and value-shape scanning.
//!
//! A document's top-level object is modelled as an ordered list of fields;
//! string values are held as text, every other value is carried through
//! unchanged. Injection and scanning are verified on that model, and
//! `serde_json` parses and prints the documents around it.
use vstd::prelude::*;
use serde_json::Value;
use crate::error::BlindMarkError;
use crate::payload::md5_of;
use vstd::utf8::*;
use crate::random::{is_permutation, occurs, random_below, random_permutation};
use crate::text::{concat_str, push_char, str_bytes, string_from_utf8};
use crate::token::{
    is_plaintext_mode, md5_token, token_for, token_makeable, opt_str,
    aes_key_of, aes_open_of, aes_seal_of, aes_name, aes_prefix, aes_token, decoded_token, is_aes_mode, is_watermark_value, md5_name,
    plaintext_name, txt_prefix, watermark_token,
};

verus! {

/// Declares `serde_json::Value`; the library carries such values through
/// without looking inside.
#[verifier::external_type_specification]
#[verifier::external_body]
pub struct ExValue(serde_json::Value);

/// JSON watermark injector and scanner.
pub struct JsonWatermarker;

/// Default field name for the non-camouflaged injection.
pub const DEFAULT_WATERMARK_KEY: &'static str = "_watermark";

/// A JSON value that is not a string. Only parsing makes one (its field is
/// private to this module), and it never holds a string.
pub struct OtherValue {
    value: serde_json::Value,
}

/// The value of a top-level field: a string, or any other JSON value.
pub enum FieldValue {
    Text(String),
    Other(OtherValue),
}

/// One top-level field of a JSON object.
pub struct JsonField {
    pub key: String,
    pub value: FieldValue,
}

/// What the logic reads of a field: its key and, for a string, its text.
pub type FieldView = (Seq<char>, Option<Seq<char>>);

pub open spec fn field_view(f: JsonField) -> FieldView {
    (
        f.key@,
        match f.value {
            FieldValue::Text(s) => Some(s@),
            FieldValue::Other(_) => None,
        },
    )
}

pub open spec fn fields_view(s: Seq<JsonField>) -> Seq<FieldView> {
    Seq::new(s.len(), |i: int| field_view(s[i]))
}

/// The top-level fields of a JSON text whose root is an object, in order.
pub uninterp spec fn json_object_fields(content: Seq<char>) -> Option<Seq<FieldView>>;

/// No two fields share a key.
pub open spec fn keys_distinct(s: Seq<FieldView>) -> bool {
    forall|i: int, j: int| 0 <= i < s.len() && 0 <= j < s.len() && i != j ==> s[i].0 != s[j].0
}

/// Some field has key `k`.
pub open spec fn has_key(s: Seq<FieldView>, k: Seq<char>) -> bool {
    exists|i: int| 0 <= i < s.len() && s[i].0 == k
}

/// A field whose value is a watermark token.
pub open spec fn is_token_field(v: FieldView) -> bool {
    v.1 matches Some(t) && watermark_token(t)
}

/// The fields that are not watermark tokens, in order.
pub open spec fn kept(s: Seq<FieldView>) -> Seq<FieldView>
    decreases s.len(),
{
    if s.len() == 0 {
        s
    } else if is_token_field(s.last()) {
        kept(s.drop_last())
    } else {
        kept(s.drop_last()).push(s.last())
    }
}

/// The number of fields that hold a watermark token.
pub open spec fn token_count(s: Seq<FieldView>) -> nat
    decreases s.len(),
{
    if s.len() == 0 {
        0
    } else if is_token_field(s.last()) {
        token_count(s.drop_last()) + 1
    } else {
        token_count(s.drop_last())
    }
}

/// The fields that do not hold a watermark token, in order.
pub open spec fn kept_fields(s: Seq<JsonField>) -> Seq<JsonField>
    decreases s.len(),
{
    if s.len() == 0 {
        s
    } else if is_token_field(field_view(s.last())) {
        kept_fields(s.drop_last())
    } else {
        kept_fields(s.drop_last()).push(s.last())
    }
}

/// What a scan reports for a list of fields: each watermark token read
/// back, in field order.
pub open spec fn scan_view(s: Seq<FieldView>, passphrase: Option<Seq<char>>) -> Seq<
    (Seq<char>, Seq<char>, bool),
>
    decreases s.len(),
{
    if s.len() == 0 {
        Seq::empty()
    } else if is_token_field(s.last()) {
        scan_view(s.drop_last(), passphrase).push(
            decoded_token(s.last().1->Some_0, passphrase),
        )
    } else {
        scan_view(s.drop_last(), passphrase)
    }
}

/// The fields without the one keyed `k`.
pub open spec fn without_key(s: Seq<FieldView>, k: Seq<char>) -> Seq<FieldView>
    decreases s.len(),
{
    if s.len() == 0 {
        s
    } else if s.last().0 == k {
        without_key(s.drop_last(), k)
    } else {
        without_key(s.drop_last(), k).push(s.last())
    }
}

/// The text of the first field keyed `k`, when that value is a string.
pub open spec fn text_at_key(s: Seq<FieldView>, k: Seq<char>) -> Option<Seq<char>>
    decreases s.len(),
{
    if s.len() == 0 {
        None
    } else if s[0].0 == k {
        s[0].1
    } else {
        text_at_key(s.drop_first(), k)
    }
}

/// Whether a text is valid JSON, as `serde_json::from_str::<Value>` decides.
pub uninterp spec fn json_valid(content: Seq<char>) -> bool;

/// The JSON value in a valid JSON text, printed again by
/// `serde_json::to_string_pretty`.
pub uninterp spec fn json_pretty_of(content: Seq<char>) -> Seq<char>;

/// The outcome of parsing a JSON text.
pub enum ParsedJson {
    Invalid,
    NotObject,
    Object(Vec<JsonField>),
}

/// Relies on `serde_json::from_str::<Value>`, built with `preserve_order`:
/// an object keeps its keys in document order, each key once; string
/// values are read as text.
#[verifier::external_body]
fn parse_json(content: &str) -> (r: ParsedJson)
    ensures
        r is Invalid <==> !json_valid(content@),
        r is Object <==> json_object_fields(content@) is Some,
        r matches ParsedJson::Object(fs) ==> fields_view(fs@) == json_object_fields(
            content@,
        )->Some_0 && keys_distinct(fields_view(fs@)),
{
    match serde_json::from_str::<Value>(content) {
        Err(_) => ParsedJson::Invalid,
        Ok(Value::Object(m)) => ParsedJson::Object(
            m.into_iter().map(|(key, v)| JsonField {
                key,
                value: match v {
                    Value::String(s) => FieldValue::Text(s),
                    other => FieldValue::Other(OtherValue { value: other }),
                },
            }).collect(),
        ),
        Ok(_) => ParsedJson::NotObject,
    }
}

/// Relies on `serde_json::Map`'s `FromIterator` and
/// `serde_json::to_string_pretty`: a `Value` always prints, and parsing the
/// text back gives the same keys in the same order with the same strings.
#[verifier::external_body]
fn print_object(fields: Vec<JsonField>) -> (r: Option<String>)
    ensures
        r is Some,
        r matches Some(s) ==> (keys_distinct(fields_view(fields@)) ==> json_object_fields(s@)
            == Some(fields_view(fields@))),
{
    let map: serde_json::Map<String, Value> = fields.into_iter().map(|f| (
        f.key,
        match f.value {
            FieldValue::Text(s) => Value::String(s),
            FieldValue::Other(v) => v.value,
        },
    )).collect();
    serde_json::to_string_pretty(&Value::Object(map)).ok()
}

/// Relies on `serde_json::from_str::<Value>` and
/// `serde_json::to_string_pretty`: a valid text is printed again; a root
/// that is no object stays no object.
#[verifier::external_body]
fn reprint_json(content: &str) -> (r: Option<String>)
    ensures
        r is Some <==> json_valid(content@),
        r matches Some(s) ==> s@ == json_pretty_of(content@),
        json_object_fields(content@) is None ==> (r matches Some(s) ==> json_object_fields(s@) is None),
{
    serde_json::from_str::<Value>(content).ok().and_then(|v| serde_json::to_string_pretty(&v).ok())
}

/// What a fixed-key injection of `text` under `key` prints: for an object,
/// its fields without `key` and then `key` with a token of the text; for
/// any other root, the value printed again.
pub open spec fn embed_outcome(
    content: Seq<char>,
    text: Seq<char>,
    key: Seq<char>,
    mode: Seq<char>,
    passphrase: Option<Seq<char>>,
    out: Seq<char>,
) -> bool {
    match json_object_fields(content) {
        Some(fs) => exists|tok: Seq<char>|
            #![trigger token_for(tok, text, mode, passphrase)]
            token_for(tok, text, mode, passphrase) && json_object_fields(out) == Some(
                without_key(fs, key).push((key, Some(tok))),
            ),
        None => out == json_pretty_of(content) && json_object_fields(out) is None,
    }
}

/// What a camouflaged injection of `text` prints: for an object, its
/// fields without watermark tokens and a token of the text at a camouflaged
/// placement; for any other root, the value printed again.
pub open spec fn obfuscated_outcome(
    content: Seq<char>,
    text: Seq<char>,
    mode: Seq<char>,
    passphrase: Option<Seq<char>>,
    out: Seq<char>,
) -> bool {
    match json_object_fields(content) {
        Some(fs) => exists|tok: Seq<char>, pos: int, key: Seq<char>|
            #![trigger token_for(tok, text, mode, passphrase), camouflaged(kept(fs), pos, key)]
            token_for(tok, text, mode, passphrase) && camouflaged(kept(fs), pos, key)
                && json_object_fields(out) == Some(injected(kept(fs), pos, key, tok)),
        None => out == json_pretty_of(content) && json_object_fields(out) is None,
    }
}

proof fn lemma_without_key(s: Seq<FieldView>, k: Seq<char>)
    ensures
        !has_key(without_key(s, k), k),
        keys_distinct(s) ==> keys_distinct(without_key(s, k)),
        forall|i: int|
            0 <= i < without_key(s, k).len() ==> exists|j: int|
                0 <= j < s.len() && s[j] == #[trigger] without_key(s, k)[i],
    decreases s.len(),
{
    if s.len() > 0 {
        let p = s.drop_last();
        lemma_without_key(p, k);
        let w = without_key(p, k);
        assert forall|i: int| 0 <= i < without_key(s, k).len() implies exists|j: int|
            0 <= j < s.len() && s[j] == #[trigger] without_key(s, k)[i] by {
            if i < w.len() {
                let j = choose|j: int| 0 <= j < p.len() && p[j] == w[i];
                assert(s[j] == p[j]);
            } else {
                assert(s[s.len() - 1] == without_key(s, k)[i]);
            }
        }
        if keys_distinct(s) && s.last().0 != k {
            assert(keys_distinct(p));
            assert forall|i: int| 0 <= i < w.len() implies w[i].0 != s.last().0 by {
                let j = choose|j: int| 0 <= j < p.len() && p[j] == w[i];
                assert(s[j] == p[j]);
            }
        }
        if has_key(without_key(s, k), k) {
            let i = choose|i: int| 0 <= i < without_key(s, k).len() && without_key(s, k)[i].0 == k;
            if i < w.len() {
                assert(w[i].0 == k);
            }
        }
    }
}

proof fn lemma_set_field_distinct(fs: Seq<FieldView>, k: Seq<char>, v: Option<Seq<char>>)
    requires
        keys_distinct(fs),
    ensures
        keys_distinct(without_key(fs, k).push((k, v))),
{
    lemma_without_key(fs, k);
    let w = without_key(fs, k);
    assert forall|i: int| 0 <= i < w.len() implies w[i].0 != k by {
        if w[i].0 == k {
            assert(has_key(w, k));
        }
    }
}

impl JsonWatermarker {
    /// The fields that do not hold a watermark token, in their order.
    pub fn remove_watermark_fields(fields: Vec<JsonField>) -> (r: Vec<JsonField>)
        ensures
            r@ == kept_fields(fields@),
            fields_view(r@) == kept(fields_view(fields@)),
    {
        let ghost orig = fields@;
        let mut rest = fields;
        let mut out: Vec<JsonField> = Vec::new();
        let mut c: usize = 0;
        let total = rest.len();
        while rest.len() > 0
            invariant
                total == orig.len(),
                c <= orig.len(),
                rest@ == orig.subrange(c as int, orig.len() as int),
                out@ == kept_fields(orig.subrange(0, c as int)),
                fields_view(out@) == kept(fields_view(orig.subrange(0, c as int))),
            decreases rest@.len(),
        {
            let f = rest.remove(0);
            proof {
                assert(orig.subrange(0, c + 1).drop_last() =~= orig.subrange(0, c as int));
                assert(orig.subrange(0, c + 1).last() == orig[c as int]);
                let pre = fields_view(orig.subrange(0, c + 1));
                assert(pre.drop_last() =~= fields_view(orig.subrange(0, c as int)));
                assert(pre.last() == field_view(orig[c as int]));
            }
            let is_token = match &f.value {
                FieldValue::Text(s) => is_watermark_value(s.as_str()),
                FieldValue::Other(_) => false,
            };
            if !is_token {
                out.push(f);
                proof {
                    assert(fields_view(out@) =~= kept(fields_view(orig.subrange(0, c as int))).push(
                        field_view(orig[c as int]),
                    ));
                }
            }
            c = c + 1;
            assert(rest@ =~= orig.subrange(c as int, orig.len() as int));
        }
        assert(orig.subrange(0, orig.len() as int) =~= orig);
        out
    }

    /// Every watermark token among the string values, read back in field
    /// order; the keys play no part.
    pub fn scan_fields(fields: &Vec<JsonField>, aes_key: Option<&str>) -> (r: Vec<
        (String, String, bool),
    >)
        ensures
            r@.len() == scan_view(fields_view(fields@), opt_view(aes_key)).len(),
            forall|i: int|
                0 <= i < r@.len() ==> (#[trigger] r@[i].0@, r@[i].1@, r@[i].2) == scan_view(
                    fields_view(fields@),
                    opt_view(aes_key),
                )[i],
    {
        let mut out: Vec<(String, String, bool)> = Vec::new();
        let mut i: usize = 0;
        while i < fields.len()
            invariant
                i <= fields@.len(),
                out@.len() == scan_view(fields_view(fields@.subrange(0, i as int)), opt_view(aes_key)).len(),
                forall|j: int|
                    0 <= j < out@.len() ==> (#[trigger] out@[j].0@, out@[j].1@, out@[j].2)
                        == scan_view(fields_view(fields@.subrange(0, i as int)), opt_view(aes_key))[j],
            decreases fields@.len() - i,
        {
            proof {
                let pre = fields_view(fields@.subrange(0, i + 1));
                assert(pre.drop_last() =~= fields_view(fields@.subrange(0, i as int)));
                assert(pre.last() == field_view(fields@[i as int]));
            }
            match &fields[i].value {
                FieldValue::Text(s) => {
                    if is_watermark_value(s.as_str()) {
                        let d = JsonWatermarker::decode_watermark(s.as_str(), aes_key);
                        out.push(d);
                    }
                },
                FieldValue::Other(_) => {},
            }
            i = i + 1;
        }
        assert(fields@.subrange(0, fields@.len() as int) =~= fields@);
        out
    }

    /// The fields without the one keyed `key`, then `key` with `token` at
    /// the end.
    pub fn set_field(fields: Vec<JsonField>, key: &str, token: String) -> (r: Vec<JsonField>)
        ensures
            fields_view(r@) == without_key(fields_view(fields@), key@).push((key@, Some(token@))),
    {
        let ghost orig = fields@;
        let mut rest = fields;
        let mut out: Vec<JsonField> = Vec::new();
        let mut c: usize = 0;
        let total = rest.len();
        while rest.len() > 0
            invariant
                total == orig.len(),
                c <= orig.len(),
                rest@ == orig.subrange(c as int, orig.len() as int),
                fields_view(out@) == without_key(fields_view(orig.subrange(0, c as int)), key@),
            decreases rest@.len(),
        {
            let f = rest.remove(0);
            proof {
                let pre = fields_view(orig.subrange(0, c + 1));
                assert(pre.drop_last() =~= fields_view(orig.subrange(0, c as int)));
                assert(pre.last() == field_view(orig[c as int]));
            }
            if !crate::text::str_eq(f.key.as_str(), key) {
                out.push(f);
                proof {
                    assert(fields_view(out@) =~= without_key(
                        fields_view(orig.subrange(0, c as int)),
                        key@,
                    ).push(field_view(orig[c as int])));
                }
            }
            c = c + 1;
            assert(rest@ =~= orig.subrange(c as int, orig.len() as int));
        }
        assert(orig.subrange(0, orig.len() as int) =~= orig);
        out.push(JsonField { key: String::from_str(key), value: FieldValue::Text(token) });
        proof {
            assert(fields_view(out@) =~= without_key(fields_view(orig), key@).push(
                (key@, Some(token@)),
            ));
        }
        out
    }

    /// The text of the first field keyed `key`, when it is a string.
    pub fn text_of_key(fields: &Vec<JsonField>, key: &str) -> (r: Option<String>)
        ensures
            match r {
                Some(s) => text_at_key(fields_view(fields@), key@) == Some(s@),
                None => text_at_key(fields_view(fields@), key@) is None,
            },
    {
        let mut i: usize = 0;
        assert(fields@.subrange(0, fields@.len() as int) =~= fields@);
        while i < fields.len()
            invariant
                i <= fields@.len(),
                text_at_key(fields_view(fields@), key@) == text_at_key(
                    fields_view(fields@.subrange(i as int, fields@.len() as int)),
                    key@,
                ),
            decreases fields@.len() - i,
        {
            let ghost tail = fields_view(fields@.subrange(i as int, fields@.len() as int));
            assert(tail.drop_first() =~= fields_view(
                fields@.subrange(i + 1, fields@.len() as int),
            ));
            assert(tail[0] == field_view(fields@[i as int]));
            if crate::text::str_eq(fields[i].key.as_str(), key) {
                return match &fields[i].value {
                    FieldValue::Text(s) => Some(s.clone()),
                    FieldValue::Other(_) => None,
                };
            }
            i = i + 1;
        }
        None
    }
}

/// Whether a character has the Unicode `Lowercase` property.
pub uninterp spec fn lowercase_char(c: char) -> bool;

/// Relies on `char::is_lowercase`; on ASCII it holds of `a` to `z` alone.
#[verifier::external_body]
fn char_is_lowercase(c: char) -> (r: bool)
    ensures
        r == lowercase_char(c),
        (c as u32) < 128 ==> (r <==> ('a' <= c && c <= 'z')),
{
    c.is_lowercase()
}

/// The leading run of lowercase characters of `k`.
pub open spec fn lower_run(k: Seq<char>) -> Seq<char>
    decreases k.len(),
{
    if k.len() == 0 || !lowercase_char(k[0]) {
        Seq::empty()
    } else {
        seq![k[0]] + lower_run(k.drop_first())
    }
}

/// The base of a camouflaged name: the leading lowercase run of an existing
/// key when it has at least three characters, else the whole key.
pub open spec fn disguise_base(k: Seq<char>) -> Seq<char> {
    if lower_run(k).len() >= 3 {
        lower_run(k)
    } else {
        k
    }
}

/// The neutral suffixes appended to a base.
pub open spec fn suffix_spec(i: int) -> Seq<char> {
    if i == 0 {
        seq!['H', 'a', 's', 'h']
    } else if i == 1 {
        seq!['I', 'd']
    } else if i == 2 {
        seq!['C', 'o', 'd', 'e']
    } else if i == 3 {
        seq!['K', 'e', 'y']
    } else if i == 4 {
        seq!['S', 'i', 'g']
    } else {
        seq!['R', 'e', 'f']
    }
}

/// The fallback pool of key names.
pub open spec fn pool_spec(i: int) -> Seq<char> {
    if i == 0 {
        seq!['c', 'h', 'e', 'c', 'k', 's', 'u', 'm']
    } else if i == 1 {
        seq!['c', 'o', 'n', 't', 'e', 'n', 't', 'H', 'a', 's', 'h']
    } else if i == 2 {
        seq!['p', 'a', 'c', 'k', 'a', 'g', 'e', 'I', 'd']
    } else if i == 3 {
        seq!['c', 'r', 'e', 'a', 't', 'o', 'r', 'I', 'd']
    } else if i == 4 {
        seq!['a', 's', 's', 'e', 't', 'I', 'd']
    } else if i == 5 {
        seq!['b', 'u', 'i', 'l', 'd', 'V', 'e', 'r', 's', 'i', 'o', 'n']
    } else if i == 6 {
        seq!['v', 'e', 'r', 's', 'i', 'o', 'n', 'T', 'a', 'g']
    } else if i == 7 {
        seq!['r', 'e', 'l', 'e', 'a', 's', 'e', 'I', 'd']
    } else if i == 8 {
        seq!['f', 'i', 'l', 'e', 'H', 'a', 's', 'h']
    } else {
        seq!['d', 'a', 't', 'a', 'H', 'a', 's', 'h']
    }
}

/// The last-resort key name.
pub open spec fn default_key() -> Seq<char> {
    seq!['_', 'w', 'a', 't', 'e', 'r', 'm', 'a', 'r', 'k']
}

/// A key taken when no base yields a fresh name (every base+suffix
/// candidate is a key already): a pool name, or `_watermark` when every
/// pool name is taken.
pub open spec fn fallback_key(base: Seq<FieldView>, key: Seq<char>) -> bool {
    &&& forall|i: int, s: int|
        0 <= i < base.len() && 0 <= s < 6 ==> #[trigger] field_candidate_taken(base, i, s)
    &&& (exists|j: int| 0 <= j < 10 && key == #[trigger] pool_spec(j)) || (key == default_key()
        && forall|j: int| 0 <= j < 10 ==> has_key(base, #[trigger] pool_spec(j)))
}

/// The position used without a base field: the last slot of an object of
/// at most two fields, else an inner slot.
pub open spec fn fallback_pos(n: nat, pos: int) -> bool {
    if n <= 2 {
        pos == if n == 0 {
            0
        } else {
            n - 1
        }
    } else {
        1 <= pos < n
    }
}

/// A camouflaged placement into `base`: a key no field has, either derived
/// from field `i` (its base and a suffix) and placed right after it, or a
/// fallback key at a fallback position.
pub open spec fn camouflaged(base: Seq<FieldView>, pos: int, key: Seq<char>) -> bool {
    &&& !has_key(base, key)
    &&& 0 <= pos <= base.len()
    &&& (exists|i: int, s: int| #[trigger] derived_at(base, i, s, pos, key)) || (fallback_key(
        base,
        key,
    ) && fallback_pos(base.len(), pos))
}

/// `key` is field `i`'s base with suffix `s`, placed right after field `i`.
pub open spec fn derived_at(base: Seq<FieldView>, i: int, s: int, pos: int, key: Seq<char>) -> bool {
    0 <= i < base.len() && 0 <= s < 6 && pos == i + 1 && key == disguise_base(base[i].0)
        + suffix_spec(s)
}

/// Candidate `s` of base `i` is already a name.
pub open spec fn candidate_taken(ns: Seq<Seq<char>>, i: int, s: int) -> bool {
    has_name(ns, disguise_base(ns[i]) + suffix_spec(s))
}

/// Every base+suffix candidate of every name is already a name.
pub open spec fn bases_exhausted(ns: Seq<Seq<char>>) -> bool {
    forall|i: int, s: int| 0 <= i < ns.len() && 0 <= s < 6 ==> #[trigger] candidate_taken(ns, i, s)
}

/// Candidate `s` of field `i` is already a key.
pub open spec fn field_candidate_taken(base: Seq<FieldView>, i: int, s: int) -> bool {
    has_key(base, disguise_base(base[i].0) + suffix_spec(s))
}

/// The names of a list of strings.
pub open spec fn names(v: Seq<String>) -> Seq<Seq<char>> {
    Seq::new(v.len(), |i: int| v[i]@)
}

pub open spec fn has_name(s: Seq<Seq<char>>, k: Seq<char>) -> bool {
    exists|i: int| 0 <= i < s.len() && s[i] == k
}

pub open spec fn starts_underscore(k: Seq<char>) -> bool {
    k.len() > 0 && k[0] == '_'
}

pub open spec fn max_len(s: Seq<Seq<char>>) -> nat
    decreases s.len(),
{
    if s.len() == 0 {
        0
    } else {
        let m = max_len(s.drop_last());
        if s.last().len() > m {
            s.last().len()
        } else {
            m
        }
    }
}

proof fn lemma_max_len(s: Seq<Seq<char>>, i: int)
    requires
        0 <= i < s.len(),
    ensures
        s[i].len() <= max_len(s),
    decreases s.len(),
{
    if i < s.len() - 1 {
        lemma_max_len(s.drop_last(), i);
    }
}

/// A finite set of names that holds, with each name starting with `_`, that
/// name followed by `Hash`, holds no name starting with `_`.
proof fn lemma_no_underscore_chain(s: Seq<Seq<char>>, j: int)
    requires
        0 <= j < s.len(),
        forall|i: int|
            0 <= i < s.len() && starts_underscore(#[trigger] s[i]) ==> has_name(
                s,
                s[i] + suffix_spec(0),
            ),
    ensures
        !starts_underscore(s[j]),
    decreases max_len(s) - s[j].len(),
{
    lemma_max_len(s, j);
    if starts_underscore(s[j]) {
        assert(has_name(s, s[j] + suffix_spec(0)));
        let j2 = choose|i: int| 0 <= i < s.len() && s[i] == s[j] + suffix_spec(0);
        lemma_max_len(s, j2);
        assert(s[j2][0] == s[j][0]);
        lemma_no_underscore_chain(s, j2);
    }
}

fn lower_prefix_run(k: &str) -> (r: String)
    ensures
        r@ == lower_run(k@),
        starts_underscore(k@) ==> r@.len() == 0,
{
    let n = k.unicode_len();
    let mut run = String::new();
    let mut i: usize = 0;
    assert(k@.subrange(0, n as int) =~= k@);
    assert(k@.subrange(0, 0) =~= Seq::<char>::empty());
    while i < n
        invariant
            n == k@.len(),
            i <= n,
            run@ == k@.subrange(0, i as int),
            lower_run(k@) == run@ + lower_run(k@.subrange(i as int, n as int)),
            i > 0 ==> !starts_underscore(k@),
        decreases n - i,
    {
        let c = k.get_char(i);
        let ghost tail = k@.subrange(i as int, n as int);
        assert(tail[0] == c);
        if !char_is_lowercase(c) {
            assert(lower_run(tail) =~= Seq::<char>::empty());
            assert(lower_run(k@) =~= run@);
            return run;
        }
        assert(tail.drop_first() =~= k@.subrange(i + 1, n as int));
        push_char(&mut run, c);
        i = i + 1;
        assert(run@ =~= k@.subrange(0, i as int));
        assert(lower_run(k@) =~= run@ + lower_run(k@.subrange(i as int, n as int)));
    }
    assert(lower_run(k@.subrange(n as int, n as int)) =~= Seq::<char>::empty());
    assert(lower_run(k@) =~= run@);
    run
}

fn disguise_prefix(k: &str) -> (r: String)
    ensures
        r@ == disguise_base(k@),
        starts_underscore(k@) ==> r@ == k@,
{
    let run = lower_prefix_run(k);
    if run.as_str().unicode_len() >= 3 {
        run
    } else {
        String::from_str(k)
    }
}

fn suffix_name(i: usize) -> (r: &'static str)
    requires
        i < 6,
    ensures
        r@ == suffix_spec(i as int),
{
    proof {
        reveal_strlit("Hash");
        reveal_strlit("Id");
        reveal_strlit("Code");
        reveal_strlit("Key");
        reveal_strlit("Sig");
        reveal_strlit("Ref");
    }
    let r = if i == 0 {
        "Hash"
    } else if i == 1 {
        "Id"
    } else if i == 2 {
        "Code"
    } else if i == 3 {
        "Key"
    } else if i == 4 {
        "Sig"
    } else {
        "Ref"
    };
    assert(r@ =~= suffix_spec(i as int));
    r
}

fn pool_name(i: usize) -> (r: &'static str)
    requires
        i < 10,
    ensures
        r@ == pool_spec(i as int),
{
    proof {
        reveal_strlit("checksum");
        reveal_strlit("contentHash");
        reveal_strlit("packageId");
        reveal_strlit("creatorId");
        reveal_strlit("assetId");
        reveal_strlit("buildVersion");
        reveal_strlit("versionTag");
        reveal_strlit("releaseId");
        reveal_strlit("fileHash");
        reveal_strlit("dataHash");
    }
    let r = if i == 0 {
        "checksum"
    } else if i == 1 {
        "contentHash"
    } else if i == 2 {
        "packageId"
    } else if i == 3 {
        "creatorId"
    } else if i == 4 {
        "assetId"
    } else if i == 5 {
        "buildVersion"
    } else if i == 6 {
        "versionTag"
    } else if i == 7 {
        "releaseId"
    } else if i == 8 {
        "fileHash"
    } else {
        "dataHash"
    };
    assert(r@ =~= pool_spec(i as int));
    r
}

fn name_present(existing: &Vec<String>, k: &str) -> (r: bool)
    ensures
        r == has_name(names(existing@), k@),
{
    let mut i: usize = 0;
    while i < existing.len()
        invariant
            i <= existing@.len(),
            forall|j: int| 0 <= j < i ==> existing@[j]@ != k@,
        decreases existing@.len() - i,
    {
        if crate::text::str_eq(existing[i].as_str(), k) {
            assert(names(existing@)[i as int] == k@);
            return true;
        }
        i = i + 1;
    }
    assert(!has_name(names(existing@), k@));
    false
}

/// A camouflaged key that no existing key equals, and the index of the key
/// it was derived from, if any. Bases are tried in random order, each with
/// the suffixes in random order; then a fixed pool from a random offset;
/// then `_watermark`.
fn make_disguised_key(existing: &Vec<String>) -> (r: (String, Option<usize>))
    ensures
        !has_name(names(existing@), r.0@),
        r.1 matches Some(i) ==> i < existing@.len() && exists|s: int|
            0 <= s < 6 && r.0@ == disguise_base(existing@[i as int]@) + #[trigger] suffix_spec(s),
        r.1 is None ==> bases_exhausted(names(existing@)),
        r.1 is None ==> (exists|j: int| 0 <= j < 10 && r.0@ == #[trigger] pool_spec(j)) || (r.0@
            == default_key() && forall|j: int| 0 <= j < 10 ==> has_name(names(existing@), #[trigger] pool_spec(j))),
{
    let n = existing.len();
    let ghost ns = names(existing@);
    if n > 0 {
        let order = random_permutation(n);
        let mut t: usize = 0;
        while t < n
            invariant
                n == existing@.len(),
                ns == names(existing@),
                t <= n,
                is_permutation(order@, n as nat),
                forall|t2: int|
                    0 <= t2 < t && starts_underscore(#[trigger] ns[order@[t2] as int]) ==> has_name(
                        ns,
                        ns[order@[t2] as int] + suffix_spec(0),
                    ),
                forall|t2: int, s: int|
                    0 <= t2 < t && 0 <= s < 6 ==> #[trigger] candidate_taken(ns, order@[t2] as int, s),
            decreases n - t,
        {
            let base_idx = order[t];
            let prefix = disguise_prefix(existing[base_idx].as_str());
            let sorder = random_permutation(6);
            let mut u: usize = 0;
            while u < 6
                invariant
                    n == existing@.len(),
                    ns == names(existing@),
                    base_idx < n,
                    prefix@ == disguise_base(existing@[base_idx as int]@),
                    starts_underscore(ns[base_idx as int]) ==> prefix@ == ns[base_idx as int],
                    is_permutation(sorder@, 6),
                    u <= 6,
                    forall|u2: int|
                        0 <= u2 < u && #[trigger] sorder@[u2] == 0 ==> has_name(
                            ns,
                            prefix@ + suffix_spec(0),
                        ),
                    forall|u2: int|
                        0 <= u2 < u ==> candidate_taken(ns, base_idx as int, #[trigger] sorder@[u2] as int),
                    forall|t2: int, s: int|
                        0 <= t2 < t && 0 <= s < 6 ==> #[trigger] candidate_taken(ns, order@[t2] as int, s),
                decreases 6 - u,
            {
                let si = sorder[u];
                let cand = concat_str(prefix.as_str(), suffix_name(si));
                if !name_present(existing, cand.as_str()) {
                    return (cand, Some(base_idx));
                }
                assert(ns[base_idx as int] == existing@[base_idx as int]@);
                assert(candidate_taken(ns, base_idx as int, si as int));
                u = u + 1;
            }
            proof {
                assert(occurs(sorder@, 0));
                let u0 = choose|u2: int| 0 <= u2 < sorder@.len() && #[trigger] sorder@[u2] == 0;
                assert(sorder@[u0] == 0);
                assert forall|t2: int, s: int|
                    0 <= t2 < t + 1 && 0 <= s < 6 implies #[trigger] candidate_taken(ns, order@[t2] as int, s) by {
                    if t2 == t {
                        assert(occurs(sorder@, s));
                        let u1 = choose|u2: int| 0 <= u2 < sorder@.len() && #[trigger] sorder@[u2] == s;
                        assert(candidate_taken(ns, base_idx as int, sorder@[u1] as int));
                    }
                }
            }
            t = t + 1;
        }
        proof {
            assert forall|j: int| 0 <= j < ns.len() && starts_underscore(#[trigger] ns[j]) implies has_name(
                ns,
                ns[j] + suffix_spec(0),
            ) by {
                assert(occurs(order@, j));
                let t0 = choose|t2: int| 0 <= t2 < order@.len() && #[trigger] order@[t2] == j;
                assert(order@[t0] == j);
            }
            assert forall|j: int, s: int| 0 <= j < ns.len() && 0 <= s < 6 implies #[trigger] candidate_taken(
                ns,
                j,
                s,
            ) by {
                assert(occurs(order@, j));
                let t0 = choose|t2: int| 0 <= t2 < order@.len() && #[trigger] order@[t2] == j;
                assert(candidate_taken(ns, order@[t0] as int, s));
            }
        }
    }
    let start = random_below(10);
    let mut i: usize = 0;
    while i < 10
        invariant
            start < 10,
            i <= 10,
            n == existing@.len(),
            ns == names(existing@),
            forall|j: int| 0 <= j < ns.len() && starts_underscore(#[trigger] ns[j]) ==> has_name(
                ns,
                ns[j] + suffix_spec(0),
            ),
            forall|k: int| 0 <= k < i ==> has_name(ns, #[trigger] pool_spec((start + k) % 10)),
            bases_exhausted(ns),
        decreases 10 - i,
    {
        let k = pool_name((start + i) % 10);
        if !name_present(existing, k) {
            return (String::from_str(k), None);
        }
        i = i + 1;
    }
    proof {
        assert forall|j: int| 0 <= j < 10 implies has_name(ns, #[trigger] pool_spec(j)) by {
            let k = if j >= start {
                j - start
            } else {
                j + 10 - start
            };
            assert((start + k) % 10 == j);
            assert(has_name(ns, pool_spec((start + k) % 10)));
        }
        reveal_strlit("_watermark");
        assert("_watermark"@ =~= default_key());
        if has_name(ns, "_watermark"@) {
            let j = choose|j: int| 0 <= j < ns.len() && ns[j] == "_watermark"@;
            lemma_no_underscore_chain(ns, j);
        }
    }
    (String::from_str(DEFAULT_WATERMARK_KEY), None)
}

fn field_keys(fields: &Vec<JsonField>) -> (r: Vec<String>)
    ensures
        names(r@) == Seq::new(fields@.len(), |i: int| fields_view(fields@)[i].0),
{
    let mut out: Vec<String> = Vec::new();
    let mut i: usize = 0;
    while i < fields.len()
        invariant
            i <= fields@.len(),
            out@.len() == i,
            forall|j: int| 0 <= j < i ==> #[trigger] out@[j]@ == fields@[j].key@,
        decreases fields@.len() - i,
    {
        out.push(fields[i].key.clone());
        i = i + 1;
    }
    assert(names(out@) =~= Seq::new(fields@.len(), |i: int| fields_view(fields@)[i].0));
    out
}

/// The fields after a camouflaged injection of `token` into `base`: the
/// token under `key` at position `pos`.
pub open spec fn injected(base: Seq<FieldView>, pos: int, key: Seq<char>, token: Seq<char>) -> Seq<
    FieldView,
> {
    base.insert(pos, (key, Some(token)))
}

impl JsonWatermarker {
    /// Camouflaged injection on the fields of an object: every field that
    /// holds a watermark token is removed, and `token` is inserted under a
    /// key that no remaining field has, right after the field its name was
    /// derived from, or at a random inner position.
    pub fn inject_fields(fields: Vec<JsonField>, token: String) -> (r: Vec<JsonField>)
        ensures
            exists|pos: int, key: Seq<char>|
                camouflaged(kept(fields_view(fields@)), pos, key) && fields_view(r@) == injected(
                    kept(fields_view(fields@)),
                    pos,
                    key,
                    token@,
                ) && r@.remove(pos) == kept_fields(fields@) && r@[pos].key@ == key && r@[pos].value
                    == FieldValue::Text(token),
    {
        let ghost tok = token@;
        let mut clean = JsonWatermarker::remove_watermark_fields(fields);
        let keys = field_keys(&clean);
        let (key, base) = make_disguised_key(&keys);
        let n = clean.len();
        assert(names(keys@).len() == keys@.len());
        assert(keys@.len() == n);
        let pos = match base {
            Some(bi) => bi + 1,
            None => if n <= 2 {
                if n == 0 {
                    0
                } else {
                    n - 1
                }
            } else {
                1 + random_below(n - 1)
            },
        };
        let ghost kv = key@;
        proof {
            let fv = fields_view(clean@);
            assert forall|x: Seq<char>| has_name(names(keys@), x) <==> has_key(fv, x) by {
                if has_key(fv, x) {
                    let j = choose|j: int| 0 <= j < fv.len() && fv[j].0 == x;
                    assert(names(keys@)[j] == x);
                }
                if has_name(names(keys@), x) {
                    let j = choose|j: int| 0 <= j < names(keys@).len() && names(keys@)[j] == x;
                    assert(fv[j].0 == x);
                }
            }
            match base {
                Some(bi) => {
                    let s = choose|s: int|
                        0 <= s < 6 && kv == disguise_base(keys@[bi as int]@) + #[trigger] suffix_spec(s);
                    assert(names(keys@)[bi as int] == fv[bi as int].0);
                    assert(derived_at(fv, bi as int, s, pos as int, kv));
                },
                None => {
                    assert forall|i: int, s: int|
                        0 <= i < fv.len() && 0 <= s < 6 implies #[trigger] field_candidate_taken(fv, i, s) by {
                        assert(candidate_taken(names(keys@), i, s));
                        assert(names(keys@)[i] == fv[i].0);
                    }
                    assert(fallback_key(fv, kv));
                    assert(fallback_pos(fv.len(), pos as int));
                },
            }
            assert(camouflaged(fv, pos as int, kv));
        }
        let ghost before = clean@;
        let ghost tok_s = token;
        clean.insert(pos, JsonField { key, value: FieldValue::Text(token) });
        proof {
            assert(fields_view(clean@) =~= injected(fields_view(before), pos as int, kv, tok));
            assert(clean@.remove(pos as int) =~= before);
            assert(clean@[pos as int].value == FieldValue::Text(tok_s));
        }
        clean
    }

    /// Camouflaged injection into a JSON text: prior watermark fields go,
    /// and a token of `watermark_text` is inserted at a camouflaged
    /// placement. A root that is not an object is only printed again. An
    /// error when the text is not JSON or the token cannot be made.
    pub fn embed_obfuscated(
        content: &str,
        watermark_text: &str,
        mode: &str,
        aes_key: Option<&str>,
    ) -> (r: Result<String, BlindMarkError>)
        ensures
            r is Ok <==> json_valid(content@) && (json_object_fields(content@) is None
                || token_makeable(watermark_text@, mode@, opt_str(aes_key))),
            r matches Ok(s) ==> obfuscated_outcome(
                content@,
                watermark_text@,
                mode@,
                opt_str(aes_key),
                s@,
            ),
            r matches Ok(s) ==> match json_object_fields(content@) {
                Some(fs) => json_object_fields(s@) matches Some(o) && keys_distinct(o) && o.len()
                    == fs.len() - token_count(fs) + 1,
                None => true,
            },
            r matches Err(e) ==> e is ImageProcessing,
    {
        match parse_json(content) {
            ParsedJson::Invalid => Err(
                BlindMarkError::ImageProcessing(String::from_str("JSON parse failed")),
            ),
            ParsedJson::NotObject => match reprint_json(content) {
                Some(s) => Ok(s),
                None => Err(
                    BlindMarkError::ImageProcessing(String::from_str("JSON serialization failed")),
                ),
            },
            ParsedJson::Object(fields) => {
                let ghost fs = fields_view(fields@);
                let token = match JsonWatermarker::encode_watermark(watermark_text, mode, aes_key) {
                    Ok(t) => t,
                    Err(e) => {
                        return Err(e);
                    },
                };
                let ghost tok = token@;
                let out = JsonWatermarker::inject_fields(fields, token);
                let ghost (pos, key) = choose|pos: int, key: Seq<char>|
                    camouflaged(kept(fs), pos, key) && fields_view(out@) == injected(
                        kept(fs),
                        pos,
                        key,
                        tok,
                    );
                proof {
                    lemma_injection_keys(fs, pos, key, tok);
                }
                match print_object(out) {
                    Some(s) => {
                        assert(token_for(tok, watermark_text@, mode@, opt_str(aes_key))
                            && camouflaged(kept(fs), pos, key) && json_object_fields(s@) == Some(
                            injected(kept(fs), pos, key, tok),
                        ));
                        Ok(s)
                    },
                    None => Err(
                        BlindMarkError::ImageProcessing(
                            String::from_str("JSON serialization failed"),
                        ),
                    ),
                }
            },
        }
    }

    /// Injection under a fixed key: the key's old field, if any, is removed
    /// and a token of `watermark_text` is appended under it. A root that is
    /// not an object is only printed again. An error when the text is not
    /// JSON or the token cannot be made.
    pub fn embed(
        content: &str,
        watermark_text: &str,
        key: &str,
        mode: &str,
        aes_key: Option<&str>,
    ) -> (r: Result<String, BlindMarkError>)
        ensures
            r is Ok <==> json_valid(content@) && token_makeable(
                watermark_text@,
                mode@,
                opt_str(aes_key),
            ),
            r matches Ok(s) ==> embed_outcome(
                content@,
                watermark_text@,
                key@,
                mode@,
                opt_str(aes_key),
                s@,
            ),
            r matches Err(e) ==> e is ImageProcessing,
    {
        let parsed = parse_json(content);
        if let ParsedJson::Invalid = parsed {
            return Err(BlindMarkError::ImageProcessing(String::from_str("JSON parse failed")));
        }
        let token = match JsonWatermarker::encode_watermark(watermark_text, mode, aes_key) {
            Ok(t) => t,
            Err(e) => {
                return Err(e);
            },
        };
        let ghost tok = token@;
        let printed = match parsed {
            ParsedJson::Object(fields) => {
                let ghost fs = fields_view(fields@);
                let set = JsonWatermarker::set_field(fields, key, token);
                proof {
                    lemma_set_field_distinct(fs, key@, Some(tok));
                }
                let p = print_object(set);
                assert(p matches Some(s) ==> token_for(tok, watermark_text@, mode@, opt_str(aes_key))
                    && json_object_fields(s@) == Some(without_key(fs, key@).push((key@, Some(tok)))));
                p
            },
            _ => reprint_json(content),
        };
        match printed {
            Some(s) => Ok(s),
            None => Err(BlindMarkError::ImageProcessing(String::from_str("JSON serialization failed"))),
        }
    }

    /// The string stored under `key` in the root object.
    pub fn extract(content: &str, key: &str) -> (r: Result<String, BlindMarkError>)
        ensures
            match json_object_fields(content@) {
                Some(fs) => match r {
                    Ok(s) => text_at_key(fs, key@) == Some(s@),
                    Err(e) => text_at_key(fs, key@) is None && e is ExtractionFailed,
                },
                None => r is Err,
            },
    {
        match parse_json(content) {
            ParsedJson::Invalid => Err(
                BlindMarkError::ImageProcessing(String::from_str("JSON parse failed")),
            ),
            ParsedJson::NotObject => Err(
                BlindMarkError::ExtractionFailed(String::from_str("watermark field not found")),
            ),
            ParsedJson::Object(fields) => match JsonWatermarker::text_of_key(&fields, key) {
                Some(s) => Ok(s),
                None => Err(
                    BlindMarkError::ExtractionFailed(String::from_str("watermark field not found")),
                ),
            },
        }
    }

    /// Whether the root object has a field keyed `key`.
    pub fn has_watermark(content: &str, key: &str) -> (r: bool)
        ensures
            r == (json_object_fields(content@) matches Some(fs) && has_key(fs, key@)),
    {
        match parse_json(content) {
            ParsedJson::Object(fields) => {
                let keys = field_keys(&fields);
                let r = name_present(&keys, key);
                proof {
                    let fs = fields_view(fields@);
                    if r {
                        let j = choose|j: int|
                            0 <= j < names(keys@).len() && names(keys@)[j] == key@;
                        assert(fs[j].0 == key@);
                    }
                    if has_key(fs, key@) {
                        let j = choose|j: int| 0 <= j < fs.len() && fs[j].0 == key@;
                        assert(names(keys@)[j] == key@);
                    }
                }
                r
            },
            _ => false,
        }
    }

    /// `embed` on UTF-8 bytes: an error when they are not UTF-8, else
    /// `embed` of the text they hold, as UTF-8 bytes.
    pub fn embed_bytes(
        bytes: &[u8],
        watermark_text: &str,
        key: &str,
        mode: &str,
        aes_key: Option<&str>,
    ) -> (r: Result<Vec<u8>, BlindMarkError>)
        ensures
            !valid_utf8(bytes@) ==> (r matches Err(e) && e is ImageProcessing),
            valid_utf8(bytes@) ==> (r is Ok <==> json_valid(decode_utf8(bytes@)) && token_makeable(
                watermark_text@,
                mode@,
                opt_str(aes_key),
            )),
            r matches Ok(b) ==> valid_utf8(b@) && embed_outcome(
                decode_utf8(bytes@),
                watermark_text@,
                key@,
                mode@,
                opt_str(aes_key),
                decode_utf8(b@),
            ),
            r matches Err(e) ==> e is ImageProcessing,
    {
        match string_from_utf8(slice_to_vec(bytes)) {
            Some(content) => match JsonWatermarker::embed(
                content.as_str(),
                watermark_text,
                key,
                mode,
                aes_key,
            ) {
                Ok(s) => {
                    let b = str_bytes(s.as_str());
                    proof {
                        encode_utf8_valid_utf8(s@);
                        encode_utf8_decode_utf8(s@);
                    }
                    Ok(b)
                },
                Err(e) => Err(e),
            },
            None => Err(
                BlindMarkError::ImageProcessing(String::from_str("JSON file is not valid UTF-8")),
            ),
        }
    }

    /// `extract` on UTF-8 bytes.
    pub fn extract_bytes(bytes: &[u8], key: &str) -> (r: Result<String, BlindMarkError>)
        ensures
            !valid_utf8(bytes@) ==> r is Err,
            valid_utf8(bytes@) ==> match json_object_fields(decode_utf8(bytes@)) {
                Some(fs) => match r {
                    Ok(s) => text_at_key(fs, key@) == Some(s@),
                    Err(_) => text_at_key(fs, key@) is None,
                },
                None => r is Err,
            },
    {
        match string_from_utf8(slice_to_vec(bytes)) {
            Some(content) => JsonWatermarker::extract(content.as_str(), key),
            None => Err(
                BlindMarkError::ImageProcessing(String::from_str("JSON file is not valid UTF-8")),
            ),
        }
    }

    /// Every watermark token among the root object's string values, read
    /// back; empty when the text is not a JSON object.
    pub fn scan_watermark_values(content: &str, aes_key: Option<&str>) -> (r: Vec<
        (String, String, bool),
    >)
        ensures
            !json_valid(content@) ==> r@.len() == 0,
            match json_object_fields(content@) {
                Some(fs) => r@.len() == scan_view(fs, opt_view(aes_key)).len() && forall|i: int|
                    0 <= i < r@.len() ==> (#[trigger] r@[i].0@, r@[i].1@, r@[i].2) == scan_view(
                        fs,
                        opt_view(aes_key),
                    )[i],
                None => r@.len() == 0,
            },
    {
        match parse_json(content) {
            ParsedJson::Object(fields) => JsonWatermarker::scan_fields(&fields, aes_key),
            _ => Vec::new(),
        }
    }
}

fn slice_to_vec(b: &[u8]) -> (r: Vec<u8>)
    ensures
        r@ == b@,
{
    let mut out: Vec<u8> = Vec::new();
    let mut i: usize = 0;
    while i < b.len()
        invariant
            i <= b@.len(),
            out@ == b@.subrange(0, i as int),
        decreases b@.len() - i,
    {
        out.push(b[i]);
        i = i + 1;
        assert(out@ =~= b@.subrange(0, i as int));
    }
    assert(out@ =~= b@);
    out
}

/// The view of an optional passphrase.
pub open spec fn opt_view(k: Option<&str>) -> Option<Seq<char>> {
    match k {
        Some(s) => Some(s@),
        None => None,
    }
}

proof fn lemma_kept_from(s: Seq<FieldView>, i: int)
    requires
        0 <= i < kept(s).len(),
    ensures
        exists|j: int| 0 <= j < s.len() && s[j] == kept(s)[i],
    decreases s.len(),
{
    if s.len() > 0 {
        let k0 = kept(s.drop_last());
        if is_token_field(s.last()) || i < k0.len() {
            lemma_kept_from(s.drop_last(), i);
            let j = choose|j: int| 0 <= j < s.drop_last().len() && s.drop_last()[j] == kept(s)[i];
            assert(s[j] == kept(s)[i]);
        } else {
            assert(s[s.len() - 1] == kept(s)[i]);
        }
    }
}

proof fn lemma_kept_shape(s: Seq<FieldView>)
    ensures
        kept(s).len() + token_count(s) == s.len(),
        forall|i: int| 0 <= i < kept(s).len() ==> !is_token_field(#[trigger] kept(s)[i]),
        keys_distinct(s) ==> keys_distinct(kept(s)),
    decreases s.len(),
{
    if s.len() > 0 {
        let p = s.drop_last();
        lemma_kept_shape(p);
        if keys_distinct(s) {
            assert(keys_distinct(p));
            if !is_token_field(s.last()) {
                assert forall|i: int| 0 <= i < kept(p).len() implies kept(p)[i].0 != s.last().0 by {
                    lemma_kept_from(p, i);
                    let j = choose|j: int| 0 <= j < p.len() && p[j] == kept(p)[i];
                    assert(s[j] == p[j]);
                }
            }
        }
    }
}

proof fn lemma_scan_concat(a: Seq<FieldView>, b: Seq<FieldView>, k: Option<Seq<char>>)
    ensures
        scan_view(a + b, k) == scan_view(a, k) + scan_view(b, k),
    decreases b.len(),
{
    if b.len() == 0 {
        assert(a + b =~= a);
        assert(scan_view(a, k) + scan_view(b, k) =~= scan_view(a, k));
    } else {
        assert((a + b).drop_last() =~= a + b.drop_last());
        lemma_scan_concat(a, b.drop_last(), k);
        if is_token_field(b.last()) {
            assert(scan_view(a, k) + scan_view(b, k) =~= (scan_view(a, k) + scan_view(
                b.drop_last(),
                k,
            )).push(decoded_token(b.last().1->Some_0, k)));
        }
    }
}

proof fn lemma_scan_clean(s: Seq<FieldView>, k: Option<Seq<char>>)
    requires
        forall|i: int| 0 <= i < s.len() ==> !is_token_field(#[trigger] s[i]),
    ensures
        scan_view(s, k).len() == 0,
    decreases s.len(),
{
    if s.len() > 0 {
        assert(!is_token_field(s[s.len() - 1]));
        lemma_scan_clean(s.drop_last(), k);
    }
}

/// Camouflaged injection leaves no key twice, and the object keeps its
/// other fields: for fields `fs` with distinct keys, the result of
/// `inject_fields` has distinct keys and `fs.len() - token_count(fs) + 1`
/// fields, whatever position and fresh key were drawn.
pub proof fn lemma_injection_keys(
    fs: Seq<FieldView>,
    pos: int,
    key: Seq<char>,
    token: Seq<char>,
)
    requires
        keys_distinct(fs),
        0 <= pos <= kept(fs).len(),
        !has_key(kept(fs), key),
    ensures
        keys_distinct(injected(kept(fs), pos, key, token)),
        injected(kept(fs), pos, key, token).len() == fs.len() - token_count(fs) + 1,
{
    lemma_kept_shape(fs);
    let k = kept(fs);
    let out = injected(k, pos, key, token);
    assert forall|i: int, j: int|
        0 <= i < out.len() && 0 <= j < out.len() && i != j implies out[i].0 != out[j].0 by {
        if i != pos && j != pos {
            let i0 = if i < pos {
                i
            } else {
                i - 1
            };
            let j0 = if j < pos {
                j
            } else {
                j - 1
            };
            assert(out[i] == k[i0]);
            assert(out[j] == k[j0]);
        } else if i == pos {
            let j0 = if j < pos {
                j
            } else {
                j - 1
            };
            assert(out[j] == k[j0]);
        } else {
            let i0 = if i < pos {
                i
            } else {
                i - 1
            };
            assert(out[i] == k[i0]);
        }
    }
}

/// Scanning finds the injected watermark, and only it, by value shape
/// alone: after `inject_fields` with a watermark token, whatever key it
/// chose, the scan reports exactly that token read back.
pub proof fn lemma_scan_after_injection(
    fs: Seq<FieldView>,
    pos: int,
    key: Seq<char>,
    token: Seq<char>,
    passphrase: Option<Seq<char>>,
)
    requires
        watermark_token(token),
        0 <= pos <= kept(fs).len(),
    ensures
        scan_view(injected(kept(fs), pos, key, token), passphrase) == seq![
            decoded_token(token, passphrase),
        ],
{
    lemma_kept_shape(fs);
    let k = kept(fs);
    let a = k.subrange(0, pos);
    let b = k.subrange(pos, k.len() as int);
    let mid: Seq<FieldView> = seq![(key, Some(token))];
    assert(injected(k, pos, key, token) =~= a + mid + b);
    assert forall|i: int| 0 <= i < a.len() implies !is_token_field(#[trigger] a[i]) by {
        assert(a[i] == k[i]);
    }
    assert forall|i: int| 0 <= i < b.len() implies !is_token_field(#[trigger] b[i]) by {
        assert(b[i] == k[pos + i]);
    }
    lemma_scan_clean(a, passphrase);
    lemma_scan_clean(b, passphrase);
    lemma_scan_concat(a + mid, b, passphrase);
    lemma_scan_concat(a, mid, passphrase);
    assert(mid.drop_last() =~= Seq::<FieldView>::empty());
    assert(mid.last() == (key, Some(token)));
    assert(is_token_field(mid.last()));
    assert(scan_view(mid.drop_last(), passphrase).len() == 0);
    assert(scan_view(mid, passphrase) =~= seq![decoded_token(token, passphrase)]);
    assert(scan_view(a + mid + b, passphrase) =~= seq![decoded_token(token, passphrase)]);
}

/// A plaintext token reads back as its text: `txt:` and `w` is a watermark
/// token that scans as `(w, "plaintext", true)`.
pub proof fn lemma_plaintext_token(w: Seq<char>, passphrase: Option<Seq<char>>)
    ensures
        watermark_token(txt_prefix() + w),
        decoded_token(txt_prefix() + w, passphrase) == (w, plaintext_name(), true),
{
    let t = txt_prefix() + w;
    assert(t.subrange(0, 4) =~= txt_prefix());
    assert(t.subrange(4, t.len() as int) =~= w);
}

/// An MD5 token reads back as itself: the hex digest of a 16-byte digest is
/// a watermark token that scans as `(hex, "md5", true)`.
pub proof fn lemma_md5_token(d: Seq<u8>, passphrase: Option<Seq<char>>)
    requires
        d.len() == 16,
    ensures
        watermark_token(crate::hex::hex_chars(d)),
        decoded_token(crate::hex::hex_chars(d), passphrase) == (
            crate::hex::hex_chars(d),
            md5_name(),
            true,
        ),
{
    let h = crate::hex::hex_chars(d);
    assert forall|i: int| 0 <= i < 32 implies #[trigger] crate::token::is_lower_hex(h[i]) by {
        let b = d[i / 2];
        assert(b / 16 < 16);
        assert(b % 16 < 16);
    }
    assert(h.subrange(0, 4) != txt_prefix()) by {
        assert(crate::token::is_lower_hex(h[0]));
        assert(!crate::token::is_lower_hex('t'));
        assert(h.subrange(0, 4)[0] == h[0]);
    }
    assert(h.subrange(0, 4) != aes_prefix()) by {
        assert(crate::token::is_lower_hex(h[3]));
        assert(h.subrange(0, 4)[3] == h[3]);
    }
}

/// An AES token has the AES shape and scans in the AES mode, with or
/// without the right key.
pub proof fn lemma_aes_token_mode(
    w: Seq<char>,
    passphrase: Seq<char>,
    nonce: Seq<u8>,
    scan_key: Option<Seq<char>>,
)
    requires
        nonce.len() == 12,
    ensures
        watermark_token(aes_token(w, passphrase, nonce)),
        decoded_token(aes_token(w, passphrase, nonce), scan_key).1 == aes_name(),
{
    let t = aes_token(w, passphrase, nonce);
    assert(t.subrange(0, 4) =~= aes_prefix());
    assert(t.subrange(0, 4) != txt_prefix()) by {
        assert(t.subrange(0, 4)[0] == 'a');
    }
    let data = nonce + aes_seal_of((aes_key_of(passphrase), nonce, encode_utf8(w)));
    let h = crate::hex::hex_chars(data);
    assert forall|i: int| 4 <= i < t.len() implies #[trigger] crate::token::is_lower_hex(t[i]) by {
        assert(t[i] == h[i - 4]);
        let b = data[(i - 4) / 2];
        assert(b / 16 < 16);
        assert(b % 16 < 16);
    }
}

/// An AES token reads back as its text under the passphrase it was made
/// with: for a 12-byte nonce, `decode_watermark` of the token made from `w`
/// under passphrase `k` gives `(w, "aes", true)`, on the one condition that
/// the cipher opens what it sealed under that key and nonce.
pub proof fn lemma_aes_token_reads_back(w: Seq<char>, k: Seq<char>, nonce: Seq<u8>)
    requires
        nonce.len() == 12,
        aes_open_of(
            (
                aes_key_of(k),
                nonce,
                aes_seal_of((aes_key_of(k), nonce, encode_utf8(w))),
            ),
        ) == Some(encode_utf8(w)),
    ensures
        decoded_token(aes_token(w, k, nonce), Some(k)) == (w, aes_name(), true),
{
    let ct = aes_seal_of((aes_key_of(k), nonce, encode_utf8(w)));
    let data = nonce + ct;
    let t = aes_token(w, k, nonce);
    assert(t.subrange(0, 4) =~= aes_prefix());
    assert(t.subrange(0, 4) != txt_prefix()) by {
        assert(t.subrange(0, 4)[0] == 'a');
    }
    let hx = t.subrange(4, t.len() as int);
    assert(hx =~= crate::hex::hex_chars(data));
    crate::hex::lemma_hex_round_trip(data);
    assert(data.subrange(0, 12) =~= nonce);
    assert(data.subrange(12, data.len() as int) =~= ct);
    encode_utf8_valid_utf8(w);
    encode_utf8_decode_utf8(w);
}

/// What scanning reads from a token of `text` in `mode`: the text for
/// plaintext and AES, the MD5 hex itself for the MD5 mode.
pub open spec fn expected_reading(text: Seq<char>, mode: Seq<char>) -> (Seq<char>, Seq<char>, bool) {
    if is_plaintext_mode(mode) {
        (text, plaintext_name(), true)
    } else if is_aes_mode(mode) {
        (text, aes_name(), true)
    } else {
        (md5_token(text), md5_name(), true)
    }
}

/// Every token that `encode_watermark` can make is found by value shape
/// and reads back: `txt:` tokens as their text, MD5 tokens as the hex
/// digest of the text, AES tokens as their text under the passphrase they
/// were made with.
pub proof fn lemma_token_scans_back(
    tok: Seq<char>,
    text: Seq<char>,
    mode: Seq<char>,
    passphrase: Option<Seq<char>>,
)
    requires
        token_for(tok, text, mode, passphrase),
    ensures
        watermark_token(tok),
        decoded_token(tok, passphrase) == expected_reading(text, mode),
{
    if is_plaintext_mode(mode) {
        lemma_plaintext_token(text, passphrase);
    } else if is_aes_mode(mode) {
        let k = passphrase->Some_0;
        let nonce = choose|nonce: Seq<u8>|
            #![trigger aes_token(text, k, nonce)]
            nonce.len() == 12 && tok == aes_token(text, k, nonce) && tok.len() == 4 + 2 * (28
                + encode_utf8(text).len()) && aes_open_of(
                (aes_key_of(k), nonce, aes_seal_of((aes_key_of(k), nonce, encode_utf8(text)))),
            ) == Some(encode_utf8(text));
        lemma_aes_token_mode(text, k, nonce, passphrase);
        lemma_aes_token_reads_back(text, k, nonce);
    } else {
        lemma_md5_token(md5_of(encode_utf8(text)), passphrase);
    }
}

/// Scanning what a camouflaged injection into an object printed finds
/// exactly one watermark, the injected one read back, whatever key it
/// went under: with `out` the text `embed_obfuscated` returned for an
/// object, `scan_watermark_values(out)` is that one reading.
pub proof fn lemma_obfuscated_output_scans(
    content: Seq<char>,
    text: Seq<char>,
    mode: Seq<char>,
    passphrase: Option<Seq<char>>,
    out: Seq<char>,
)
    requires
        json_object_fields(content) is Some,
        obfuscated_outcome(content, text, mode, passphrase, out),
    ensures
        json_object_fields(out) is Some,
        scan_view(json_object_fields(out)->Some_0, passphrase) == seq![expected_reading(text, mode)],
{
    let fs = json_object_fields(content)->Some_0;
    let (tok, pos, key) = choose|tok: Seq<char>, pos: int, key: Seq<char>|
        #![trigger token_for(tok, text, mode, passphrase), camouflaged(kept(fs), pos, key)]
        token_for(tok, text, mode, passphrase) && camouflaged(kept(fs), pos, key)
            && json_object_fields(out) == Some(injected(kept(fs), pos, key, tok));
    lemma_token_scans_back(tok, text, mode, passphrase);
    lemma_scan_after_injection(fs, pos, key, tok, passphrase);
}

} // verus!
