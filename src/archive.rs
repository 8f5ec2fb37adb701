//! Archive formats: which handler takes which file, the name of a rebuilt
//! archive, and the folder name made from a watermark.
use vstd::prelude::*;
use crate::error::BlindMarkError;
use crate::paths::{
    ascii_ci_eq, eq_ignore_ascii_case, extension_of, join_path, parent_of, path_extension,
    path_joined, path_parent, path_stem, stem_of,
};
use crate::text::{concat_str, push_char};

verus! {

/// The archive formats the library knows.
#[derive(Clone, Copy, PartialEq, Eq, Debug)]
pub enum ArchiveKind {
    Zip,
    SevenZ,
}

pub open spec fn zip_ext(e: Seq<char>) -> bool {
    ascii_ci_eq(e, seq!['z', 'i', 'p']) || ascii_ci_eq(e, seq!['v', 'a', 'r'])
}

pub open spec fn sevenz_ext(e: Seq<char>) -> bool {
    ascii_ci_eq(e, seq!['7', 'z'])
}

/// Whether a handler of `kind` takes a file with extension `e`.
pub open spec fn kind_takes(kind: ArchiveKind, e: Seq<char>) -> bool {
    match kind {
        ArchiveKind::Zip => zip_ext(e),
        ArchiveKind::SevenZ => sevenz_ext(e),
    }
}

/// Whether a handler of `kind` takes the file at `path`.
pub open spec fn kind_supports(kind: ArchiveKind, path: Seq<char>) -> bool {
    path_extension(path) matches Some(e) && kind_takes(kind, e)
}

/// Whether a handler of `kind` takes a file with extension `ext`
/// (compared ignoring ASCII case).
pub fn takes_extension(kind: ArchiveKind, ext: &str) -> (r: bool)
    ensures
        r == kind_takes(kind, ext@),
{
    proof {
        reveal_strlit("zip");
        reveal_strlit("var");
        reveal_strlit("7z");
    }
    assert("zip"@ =~= seq!['z', 'i', 'p']);
    assert("var"@ =~= seq!['v', 'a', 'r']);
    assert("7z"@ =~= seq!['7', 'z']);
    match kind {
        ArchiveKind::Zip => eq_ignore_ascii_case(ext, "zip") || eq_ignore_ascii_case(ext, "var"),
        ArchiveKind::SevenZ => eq_ignore_ascii_case(ext, "7z"),
    }
}

/// Whether a handler of `kind` takes the file at `path`.
pub fn kind_supports_path(kind: ArchiveKind, path: &str) -> (r: bool)
    ensures
        r == kind_supports(kind, path@),
{
    match extension_of(path) {
        Some(e) => takes_extension(kind, e.as_str()),
        None => false,
    }
}

/// The ZIP handler (also `.var` packages).
pub struct ZipHandler;

impl ZipHandler {
    pub fn new() -> Self {
        ZipHandler
    }

    /// `.zip` and `.var`, ignoring ASCII case.
    pub fn supports(&self, archive_path: &str) -> (r: bool)
        ensures
            r == kind_supports(ArchiveKind::Zip, archive_path@),
    {
        kind_supports_path(ArchiveKind::Zip, archive_path)
    }
}

/// The 7z handler.
pub struct SevenZHandler;

impl SevenZHandler {
    pub fn new() -> Self {
        SevenZHandler
    }

    /// `.7z`, ignoring ASCII case.
    pub fn supports(&self, archive_path: &str) -> (r: bool)
        ensures
            r == kind_supports(ArchiveKind::SevenZ, archive_path@),
    {
        kind_supports_path(ArchiveKind::SevenZ, archive_path)
    }
}

/// Reads and writes archives of a given kind; the filesystem side of the
/// archive layer.
pub trait ArchiveHandler {
    /// Extracts `archive_path` into `dest_dir`, keeping the hierarchy.
    fn extract(&self, kind: ArchiveKind, archive_path: &str, dest_dir: &str) -> Result<
        (),
        BlindMarkError,
    >;

    /// Packs `source_dir` into `output_path`, keeping the hierarchy.
    fn create(&self, kind: ArchiveKind, source_dir: &str, output_path: &str) -> Result<
        (),
        BlindMarkError,
    >;
}

/// The first of `hs` that takes `path`.
pub open spec fn first_taking(hs: Seq<ArchiveKind>, path: Seq<char>) -> Option<ArchiveKind>
    decreases hs.len(),
{
    if hs.len() == 0 {
        None
    } else if kind_supports(hs[0], path) {
        Some(hs[0])
    } else {
        first_taking(hs.drop_first(), path)
    }
}

proof fn lemma_first_taking(hs: Seq<ArchiveKind>, path: Seq<char>, i: int)
    requires
        0 <= i <= hs.len(),
        forall|j: int| 0 <= j < i ==> !kind_supports(#[trigger] hs[j], path),
    ensures
        i < hs.len() && kind_supports(hs[i], path) ==> first_taking(hs, path) == Some(hs[i]),
        i == hs.len() ==> first_taking(hs, path) is None,
    decreases i,
{
    if i > 0 {
        assert forall|j: int| 0 <= j < i - 1 implies !kind_supports(#[trigger] hs.drop_first()[j], path) by {
            assert(hs.drop_first()[j] == hs[j + 1]);
        }
        lemma_first_taking(hs.drop_first(), path, i - 1);
        assert(!kind_supports(hs[0], path));
    } else if hs.len() == 0 {
    }
}

/// The message for a path no handler takes; it names the extension.
pub open spec fn unsupported_message(path: Seq<char>) -> Seq<char> {
    seq!['U', 'n', 's', 'u', 'p', 'p', 'o', 'r', 't', 'e', 'd', ' ', 'a', 'r', 'c', 'h', 'i', 'v', 'e', ' ', 'f', 'o', 'r', 'm', 'a', 't', ':', ' ', '.']
        + match path_extension(path) {
        Some(e) => e,
        None => seq!['u', 'n', 'k', 'n', 'o', 'w', 'n'],
    }
}

/// The error for a path that no handler takes.
pub open spec fn is_unsupported_error(r: Result<String, BlindMarkError>, path: Seq<char>) -> bool {
    r matches Err(BlindMarkError::UnsupportedArchive(m)) && m@ == unsupported_message(path)
}

/// Picks the archive handler for a path and drives it.
pub struct ArchiveProcessor {
    pub handlers: Vec<ArchiveKind>,
}

impl ArchiveProcessor {
    /// ZIP first, then 7z.
    pub fn new() -> (r: Self)
        ensures
            r.handlers@ == seq![ArchiveKind::Zip, ArchiveKind::SevenZ],
    {
        let mut handlers: Vec<ArchiveKind> = Vec::new();
        handlers.push(ArchiveKind::Zip);
        handlers.push(ArchiveKind::SevenZ);
        ArchiveProcessor { handlers }
    }

    /// The first handler that takes `archive_path`; `UnsupportedArchive`,
    /// naming the extension, when none does.
    pub fn get_handler(&self, archive_path: &str) -> (r: Result<ArchiveKind, BlindMarkError>)
        ensures
            match first_taking(self.handlers@, archive_path@) {
                Some(k) => r == Ok::<ArchiveKind, BlindMarkError>(k),
                None => r matches Err(BlindMarkError::UnsupportedArchive(m)) && m@
                    == unsupported_message(archive_path@),
            },
    {
        let mut i: usize = 0;
        while i < self.handlers.len()
            invariant
                i <= self.handlers@.len(),
                forall|j: int|
                    0 <= j < i ==> !kind_supports(#[trigger] self.handlers@[j], archive_path@),
            decreases self.handlers@.len() - i,
        {
            let k = self.handlers[i];
            if kind_supports_path(k, archive_path) {
                proof {
                    lemma_first_taking(self.handlers@, archive_path@, i as int);
                }
                return Ok(k);
            }
            i = i + 1;
        }
        proof {
            lemma_first_taking(self.handlers@, archive_path@, i as int);
            reveal_strlit("unknown");
            reveal_strlit("Unsupported archive format: .");
        }
        let ext = match extension_of(archive_path) {
            Some(e) => e,
            None => String::from_str("unknown"),
        };
        let mut msg = String::from_str("Unsupported archive format: .");
        msg.append(ext.as_str());
        assert(msg@ =~= unsupported_message(archive_path@));
        Err(BlindMarkError::UnsupportedArchive(msg))
    }

    /// Extracts through the first handler that takes `archive_path`:
    /// `run` is called with that kind (it extracts into `dest_dir`, as an
    /// `ArchiveHandler` does), and the result is `dest_dir` or `run`'s
    /// error; `UnsupportedArchive`, naming the extension, when no handler
    /// takes the path, and then `run` is not called.
    pub fn extract<F: Fn(ArchiveKind) -> Result<(), BlindMarkError>>(
        &self,
        archive_path: &str,
        dest_dir: &str,
        run: F,
    ) -> (r: Result<String, BlindMarkError>)
        requires
            forall|k: ArchiveKind| run.requires((k,)),
        ensures
            match first_taking(self.handlers@, archive_path@) {
                Some(k) => exists|hr: Result<(), BlindMarkError>|
                    #![trigger run.ensures((k,), hr)]
                    run.ensures((k,), hr) && match hr {
                        Ok(_) => r matches Ok(p) && p@ == dest_dir@,
                        Err(e) => r == Err::<String, BlindMarkError>(e),
                    },
                None => is_unsupported_error(r, archive_path@),
            },
    {
        let kind = match self.get_handler(archive_path) {
            Ok(k) => k,
            Err(e) => {
                return Err(e);
            },
        };
        let hr = run(kind);
        match hr {
            Ok(()) => Ok(String::from_str(dest_dir)),
            Err(e) => Err(e),
        }
    }

    /// Packs through the first handler that takes `output_path`: `run` is
    /// called with that kind (it packs the source into `output_path`, as an
    /// `ArchiveHandler` does), and the result is `output_path` or `run`'s
    /// error; `UnsupportedArchive`, naming the extension, when no handler
    /// takes the path, and then `run` is not called.
    pub fn create<F: Fn(ArchiveKind) -> Result<(), BlindMarkError>>(
        &self,
        output_path: &str,
        run: F,
    ) -> (r: Result<String, BlindMarkError>)
        requires
            forall|k: ArchiveKind| run.requires((k,)),
        ensures
            match first_taking(self.handlers@, output_path@) {
                Some(k) => exists|hr: Result<(), BlindMarkError>|
                    #![trigger run.ensures((k,), hr)]
                    run.ensures((k,), hr) && match hr {
                        Ok(_) => r matches Ok(p) && p@ == output_path@,
                        Err(e) => r == Err::<String, BlindMarkError>(e),
                    },
                None => is_unsupported_error(r, output_path@),
            },
    {
        let kind = match self.get_handler(output_path) {
            Ok(k) => k,
            Err(e) => {
                return Err(e);
            },
        };
        let hr = run(kind);
        match hr {
            Ok(()) => Ok(String::from_str(output_path)),
            Err(e) => Err(e),
        }
    }

    /// Whether some handler takes `path`.
    pub fn is_supported(&self, path: &str) -> (r: bool)
        ensures
            r == exists|i: int|
                0 <= i < self.handlers@.len() && kind_supports(self.handlers@[i], path@),
    {
        let mut i: usize = 0;
        while i < self.handlers.len()
            invariant
                i <= self.handlers@.len(),
                forall|j: int| 0 <= j < i ==> !kind_supports(#[trigger] self.handlers@[j], path@),
            decreases self.handlers@.len() - i,
        {
            if kind_supports_path(self.handlers[i], path) {
                return true;
            }
            i = i + 1;
        }
        false
    }

    /// The extensions the processor advertises.
    pub fn supported_extensions() -> (r: Vec<&'static str>)
        ensures
            r@.len() == 2,
            r@[0]@ == seq!['z', 'i', 'p'],
            r@[1]@ == seq!['7', 'z'],
    {
        proof {
            reveal_strlit("zip");
            reveal_strlit("7z");
        }
        let mut v: Vec<&'static str> = Vec::new();
        v.push("zip");
        v.push("7z");
        assert(v@[0]@ =~= seq!['z', 'i', 'p']);
        assert(v@[1]@ =~= seq!['7', 'z']);
        v
    }

    /// The output path for an input archive: the same folder, the stem with
    /// `_watermarked`, and the same extension.
    pub fn generate_output_name(input_path: &str) -> (r: String)
        ensures
            r@ == match path_parent(input_path@) {
                Some(p) => path_joined((p, output_file_name(input_path@))),
                None => output_file_name(input_path@),
            },
    {
        proof {
            reveal_strlit("archive");
        }
        assert("archive"@ =~= seq!['a', 'r', 'c', 'h', 'i', 'v', 'e']);
        let stem = match stem_of(input_path) {
            Some(s) => s,
            None => String::from_str("archive"),
        };
        let ext = match extension_of(input_path) {
            Some(e) => e,
            None => String::new(),
        };
        let name = watermarked_file_name(stem.as_str(), ext.as_str());
        match parent_of(input_path) {
            Some(p) => join_path(p.as_str(), name.as_str()),
            None => name,
        }
    }
}

pub open spec fn suffix_watermarked() -> Seq<char> {
    seq!['_', 'w', 'a', 't', 'e', 'r', 'm', 'a', 'r', 'k', 'e', 'd']
}

/// `stem_watermarked.ext`, or `stem_watermarked` without an extension.
pub open spec fn marked_name(stem: Seq<char>, ext: Seq<char>) -> Seq<char> {
    if ext.len() == 0 {
        stem + suffix_watermarked()
    } else {
        stem + suffix_watermarked() + seq!['.'] + ext
    }
}

/// The rebuilt archive's file name for an input path.
pub open spec fn output_file_name(p: Seq<char>) -> Seq<char> {
    marked_name(
        match path_stem(p) {
            Some(s) => s,
            None => seq!['a', 'r', 'c', 'h', 'i', 'v', 'e'],
        },
        match path_extension(p) {
            Some(e) => e,
            None => Seq::empty(),
        },
    )
}

/// `stem_watermarked.ext`, or `stem_watermarked` when `ext` is empty.
pub fn watermarked_file_name(stem: &str, ext: &str) -> (r: String)
    ensures
        r@ == marked_name(stem@, ext@),
{
    proof {
        reveal_strlit("_watermarked");
        reveal_strlit(".");
    }
    assert("_watermarked"@ =~= suffix_watermarked());
    let mut s = concat_str(stem, "_watermarked");
    if ext.unicode_len() > 0 {
        s.append(".");
        s.append(ext);
        assert(s@ =~= stem@ + suffix_watermarked() + seq!['.'] + ext@);
    }
    s
}

/// The text after the last `.` of `s`, or all of `s` when it has none.
pub open spec fn after_last_dot(s: Seq<char>) -> Seq<char>
    decreases s.len(),
{
    if s.len() == 0 {
        s
    } else if s.last() == '.' {
        Seq::empty()
    } else {
        after_last_dot(s.drop_last()).push(s.last())
    }
}

/// The extensions of formats that are stored without recompression.
pub open spec fn compressed_exts() -> Seq<Seq<char>> {
    seq![
        seq!['p', 'n', 'g'],
        seq!['j', 'p', 'g'],
        seq!['j', 'p', 'e', 'g'],
        seq!['g', 'i', 'f'],
        seq!['w', 'e', 'b', 'p'],
        seq!['m', 'p', '3'],
        seq!['m', 'p', '4'],
        seq!['o', 'g', 'g'],
        seq!['w', 'a', 'v'],
        seq!['a', 'a', 'c'],
        seq!['f', 'l', 'a', 'c'],
        seq!['z', 'i', 'p'],
        seq!['7', 'z'],
        seq!['r', 'a', 'r'],
        seq!['v', 'a', 'r'],
    ]
}

fn compressed_ext(i: usize) -> (r: &'static str)
    requires
        i < 15,
    ensures
        r@ == compressed_exts()[i as int],
{
    proof {
        reveal_strlit("png");
        reveal_strlit("jpg");
        reveal_strlit("jpeg");
        reveal_strlit("gif");
        reveal_strlit("webp");
        reveal_strlit("mp3");
        reveal_strlit("mp4");
        reveal_strlit("ogg");
        reveal_strlit("wav");
        reveal_strlit("aac");
        reveal_strlit("flac");
        reveal_strlit("zip");
        reveal_strlit("7z");
        reveal_strlit("rar");
        reveal_strlit("var");
    }
    let r = if i == 0 {
        "png"
    } else if i == 1 {
        "jpg"
    } else if i == 2 {
        "jpeg"
    } else if i == 3 {
        "gif"
    } else if i == 4 {
        "webp"
    } else if i == 5 {
        "mp3"
    } else if i == 6 {
        "mp4"
    } else if i == 7 {
        "ogg"
    } else if i == 8 {
        "wav"
    } else if i == 9 {
        "aac"
    } else if i == 10 {
        "flac"
    } else if i == 11 {
        "zip"
    } else if i == 12 {
        "7z"
    } else if i == 13 {
        "rar"
    } else {
        "var"
    };
    assert(r@ =~= compressed_exts()[i as int]);
    r
}

/// The part of `name` after its last `.`.
pub fn last_segment(name: &str) -> (r: String)
    ensures
        r@ == after_last_dot(name@),
{
    let n = name.unicode_len();
    let mut j: usize = n;
    assert(name@.subrange(0, n as int) =~= name@);
    assert(name@.subrange(n as int, n as int) =~= Seq::<char>::empty());
    assert(after_last_dot(name@) =~= after_last_dot(name@) + Seq::<char>::empty());
    while j > 0
        invariant
            n == name@.len(),
            j <= n,
            after_last_dot(name@) == after_last_dot(name@.subrange(0, j as int)) + name@.subrange(
                j as int,
                n as int,
            ),
            forall|k: int| j <= k < n ==> name@[k] != '.',
        decreases j,
    {
        let ghost pre = name@.subrange(0, j as int);
        assert(pre.drop_last() =~= name@.subrange(0, j - 1));
        if name.get_char(j - 1) == '.' {
            assert(after_last_dot(pre) =~= Seq::<char>::empty());
            let r = crate::text::char_suffix(name, j);
            assert(after_last_dot(name@) =~= name@.subrange(j as int, n as int));
            return r;
        }
        assert(name@.subrange(j - 1, n as int) =~= seq![name@[j - 1]] + name@.subrange(
            j as int,
            n as int,
        ));
        j = j - 1;
    }
    assert(name@.subrange(0, 0) =~= Seq::<char>::empty());
    assert(name@.subrange(0, n as int) =~= name@);
    String::from_str(name)
}

/// Whether a file is stored without recompression: its text after the last
/// `.` equals, ignoring ASCII case, one of the media and archive extensions.
pub fn is_already_compressed(name: &str) -> (r: bool)
    ensures
        r == exists|i: int| 0 <= i < 15 && ascii_ci_eq(after_last_dot(name@), compressed_exts()[i]),
{
    let ext = last_segment(name);
    let mut i: usize = 0;
    while i < 15
        invariant
            ext@ == after_last_dot(name@),
            i <= 15,
            forall|k: int| 0 <= k < i ==> !ascii_ci_eq(ext@, #[trigger] compressed_exts()[k]),
        decreases 15 - i,
    {
        if eq_ignore_ascii_case(ext.as_str(), compressed_ext(i)) {
            return true;
        }
        i = i + 1;
    }
    false
}

/// Whether a character has the Unicode `White_Space` property: tab to
/// carriage return, space, U+0085, U+00A0, U+1680, U+2000 to U+200A, the
/// line and paragraph separators, U+202F, U+205F and U+3000.
pub open spec fn whitespace_char(c: char) -> bool {
    let u = c as u32;
    (0x09 <= u && u <= 0x0D) || u == 0x20 || u == 0x85 || u == 0xA0 || u == 0x1680 || (0x2000 <= u
        && u <= 0x200A) || u == 0x2028 || u == 0x2029 || u == 0x202F || u == 0x205F || u == 0x3000
}

/// Relies on `char::is_whitespace`, which tests the `White_Space`
/// property.
#[verifier::external_body]
pub(crate) fn char_is_whitespace(c: char) -> (r: bool)
    ensures
        r == whitespace_char(c),
{
    c.is_whitespace()
}

/// Characters that no folder name may hold.
pub open spec fn forbidden_char(c: char) -> bool {
    c == '/' || c == '\\' || c == ':' || c == '*' || c == '?' || c == '"' || c == '<' || c == '>'
        || c == '|' || c == '\0'
}

pub open spec fn sanitized_char(c: char) -> char {
    if forbidden_char(c) {
        '_'
    } else {
        c
    }
}

/// Characters trimmed from the start of a folder name.
pub open spec fn trimmed_char(c: char) -> bool {
    c == '.' || whitespace_char(c)
}

/// The number of leading characters to trim.
pub open spec fn lead_trim(s: Seq<char>) -> nat
    decreases s.len(),
{
    if s.len() == 0 || !trimmed_char(s[0]) {
        0
    } else {
        1 + lead_trim(s.drop_first())
    }
}

/// `s` without its leading trimmed characters.
pub open spec fn trim_leading(s: Seq<char>) -> Seq<char> {
    s.subrange(lead_trim(s) as int, s.len() as int)
}

/// The folder name for a watermark: forbidden characters become `_`,
/// leading dots and whitespace are trimmed, at most 100 characters are
/// kept, and an empty result becomes `watermark`.
pub open spec fn sanitized_name(name: Seq<char>) -> Seq<char> {
    let t = trim_leading(name.map_values(|c: char| sanitized_char(c)));
    if t.len() == 0 {
        seq!['w', 'a', 't', 'e', 'r', 'm', 'a', 'r', 'k']
    } else if t.len() > 100 {
        t.subrange(0, 100)
    } else {
        t
    }
}

proof fn lemma_lead_unique(s: Seq<char>, k: int)
    requires
        0 <= k <= s.len(),
        forall|i: int| 0 <= i < k ==> trimmed_char(#[trigger] s[i]),
        k < s.len() ==> !trimmed_char(s[k]),
    ensures
        lead_trim(s) == k,
    decreases s.len(),
{
    if k > 0 {
        assert(trimmed_char(s[0]));
        assert forall|i: int| 0 <= i < k - 1 implies trimmed_char(#[trigger] s.drop_first()[i]) by {
            assert(s.drop_first()[i] == s[i + 1]);
        }
        lemma_lead_unique(s.drop_first(), k - 1);
    }
}

/// The folder name for a watermark (see `sanitized_name`).
pub fn sanitize_path_component(name: &str) -> (r: String)
    ensures
        r@ == sanitized_name(name@),
{
    let n = name.unicode_len();
    let ghost mapped = name@.map_values(|c: char| sanitized_char(c));
    let mut chars: Vec<char> = Vec::new();
    let mut i: usize = 0;
    while i < n
        invariant
            n == name@.len(),
            i <= n,
            mapped == name@.map_values(|c: char| sanitized_char(c)),
            chars@ == mapped.subrange(0, i as int),
        decreases n - i,
    {
        let c = name.get_char(i);
        let d = if c == '/' || c == '\\' || c == ':' || c == '*' || c == '?' || c == '"' || c == '<'
            || c == '>' || c == '|' || c == '\0' {
            '_'
        } else {
            c
        };
        chars.push(d);
        i = i + 1;
        assert(chars@ =~= mapped.subrange(0, i as int));
    }
    assert(chars@ =~= mapped);
    let mut lo: usize = 0;
    while lo < n && (chars[lo] == '.' || char_is_whitespace(chars[lo]))
        invariant
            chars@ == mapped,
            mapped.len() == n,
            lo <= n,
            forall|k: int| 0 <= k < lo ==> trimmed_char(#[trigger] mapped[k]),
        decreases n - lo,
    {
        lo = lo + 1;
    }
    proof {
        lemma_lead_unique(mapped, lo as int);
        reveal_strlit("watermark");
    }
    assert("watermark"@ =~= seq!['w', 'a', 't', 'e', 'r', 'm', 'a', 'r', 'k']);
    if lo == n {
        return String::from_str("watermark");
    }
    let limit: usize = if n - lo > 100 {
        lo + 100
    } else {
        n
    };
    let mut out = String::new();
    let mut k: usize = lo;
    while k < limit
        invariant
            chars@ == mapped,
            mapped.len() == n,
            lo <= k <= limit <= n,
            out@ == mapped.subrange(lo as int, k as int),
        decreases limit - k,
    {
        push_char(&mut out, chars[k]);
        k = k + 1;
        assert(out@ =~= mapped.subrange(lo as int, k as int));
    }
    proof {
        let t = trim_leading(mapped);
        assert(t =~= mapped.subrange(lo as int, n as int));
        if n - lo > 100 {
            assert(out@ =~= t.subrange(0, 100));
        }
    }
    out
}

} // verus!
