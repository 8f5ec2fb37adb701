//! Path pieces, read through `std::path::Path`, and the case rules the
//! library applies to file extensions.
use vstd::prelude::*;

verus! {

/// The extension of a path's file name, as `Path::extension` finds it.
pub uninterp spec fn path_extension(p: Seq<char>) -> Option<Seq<char>>;

/// The file stem of a path, as `Path::file_stem` finds it.
pub uninterp spec fn path_stem(p: Seq<char>) -> Option<Seq<char>>;

/// The parent of a path, as `Path::parent` finds it.
pub uninterp spec fn path_parent(p: Seq<char>) -> Option<Seq<char>>;

/// A path joined with a relative component, as `Path::join` forms it; its
/// argument is `(base, component)`.
pub uninterp spec fn path_joined(parts: (Seq<char>, Seq<char>)) -> Seq<char>;

/// The Unicode lowercase form of a string, as `str::to_lowercase` forms it.
pub uninterp spec fn lowercase_of(s: Seq<char>) -> Seq<char>;

/// Relies on `Path::extension` (and `OsStr::to_str`, which cannot fail on
/// a path made from a `str`).
#[verifier::external_body]
pub(crate) fn extension_of(path: &str) -> (r: Option<String>)
    ensures
        r is Some <==> path_extension(path@) is Some,
        r matches Some(e) ==> path_extension(path@) == Some(e@),
{
    std::path::Path::new(path).extension().and_then(|e| e.to_str()).map(|e| e.to_string())
}

/// Relies on `Path::file_stem`.
#[verifier::external_body]
pub(crate) fn stem_of(path: &str) -> (r: Option<String>)
    ensures
        r is Some <==> path_stem(path@) is Some,
        r matches Some(e) ==> path_stem(path@) == Some(e@),
{
    std::path::Path::new(path).file_stem().and_then(|e| e.to_str()).map(|e| e.to_string())
}

/// Relies on `Path::parent`.
#[verifier::external_body]
pub(crate) fn parent_of(path: &str) -> (r: Option<String>)
    ensures
        r is Some <==> path_parent(path@) is Some,
        r matches Some(e) ==> path_parent(path@) == Some(e@),
{
    std::path::Path::new(path).parent().and_then(|e| e.to_str()).map(|e| e.to_string())
}

/// Relies on `Path::join`.
#[verifier::external_body]
pub(crate) fn join_path(base: &str, component: &str) -> (r: String)
    ensures
        r@ == path_joined((base@, component@)),
{
    std::path::Path::new(base).join(component).to_string_lossy().into_owned()
}

/// Relies on `str::to_lowercase`.
#[verifier::external_body]
pub(crate) fn to_lowercase(s: &str) -> (r: String)
    ensures
        r@ == lowercase_of(s@),
{
    s.to_lowercase()
}

/// Two characters equal up to ASCII case.
pub open spec fn ascii_ci_char_eq(a: char, b: char) -> bool {
    a == b || ('A' <= a && a <= 'Z' && a as u32 + 32 == b as u32) || ('A' <= b && b <= 'Z'
        && b as u32 + 32 == a as u32)
}

/// Two strings equal up to ASCII case.
pub open spec fn ascii_ci_eq(a: Seq<char>, b: Seq<char>) -> bool {
    a.len() == b.len() && forall|i: int| 0 <= i < a.len() ==> #[trigger] ascii_ci_char_eq(a[i], b[i])
}

fn char_ci_eq(a: char, b: char) -> (r: bool)
    ensures
        r == ascii_ci_char_eq(a, b),
{
    a == b || ('A' <= a && a <= 'Z' && a as u32 + 32 == b as u32) || ('A' <= b && b <= 'Z'
        && b as u32 + 32 == a as u32)
}

/// Compares two strings ignoring ASCII case.
pub fn eq_ignore_ascii_case(a: &str, b: &str) -> (r: bool)
    ensures
        r == ascii_ci_eq(a@, b@),
{
    let n = a.unicode_len();
    if n != b.unicode_len() {
        return false;
    }
    let mut i: usize = 0;
    while i < n
        invariant
            n == a@.len(),
            n == b@.len(),
            i <= n,
            forall|j: int| 0 <= j < i ==> #[trigger] ascii_ci_char_eq(a@[j], b@[j]),
        decreases n - i,
    {
        if !char_ci_eq(a.get_char(i), b.get_char(i)) {
            return false;
        }
        i = i + 1;
    }
    true
}

} // verus!
