//! Decisions of the batch layer around the codecs: which watermark each
//! image gets, which images and files are processed, and where outputs go.
use vstd::prelude::*;
use crate::archive::{char_is_whitespace, sanitize_path_component, sanitized_name, whitespace_char};
use crate::error::BlindMarkError;
use crate::models::{ImageFile, ImageWatermarkFinding};
use crate::scanner::{lemma_lex_total, lemma_lex_trans, lex_le, path_le};
use crate::paths::{extension_of, join_path, lowercase_of, path_extension, path_joined, to_lowercase};
use crate::text::{push_char, str_eq};

verus! {

/// The watermark of image `index` when there are `count` watermarks: the
/// one at the same position, or the last one.
pub open spec fn watermark_slot(index: nat, count: nat) -> nat {
    if index < count {
        index
    } else {
        (count - 1) as nat
    }
}

/// For each of `image_count` images, the index of its watermark; an error
/// when there are no watermarks.
pub fn assign_watermarks(image_count: usize, watermark_count: usize) -> (r: Result<
    Vec<usize>,
    BlindMarkError,
>)
    ensures
        r is Ok <==> watermark_count > 0,
        r matches Ok(v) ==> v@.len() == image_count && forall|i: int|
            0 <= i < image_count ==> #[trigger] v@[i] == watermark_slot(
                i as nat,
                watermark_count as nat,
            ),
        r matches Err(e) ==> e is InvalidConfig,
{
    if watermark_count == 0 {
        return Err(BlindMarkError::InvalidConfig(String::from_str("No watermarks provided")));
    }
    let mut v: Vec<usize> = Vec::new();
    let mut i: usize = 0;
    while i < image_count
        invariant
            watermark_count > 0,
            i <= image_count,
            v@.len() == i,
            forall|k: int|
                0 <= k < i ==> #[trigger] v@[k] == watermark_slot(k as nat, watermark_count as nat),
        decreases image_count - i,
    {
        let slot = if i < watermark_count {
            i
        } else {
            watermark_count - 1
        };
        v.push(slot);
        i = i + 1;
    }
    Ok(v)
}

pub open spec fn jpeg_ext(e: Seq<char>) -> bool {
    e == seq!['j', 'p', 'g'] || e == seq!['j', 'p', 'e', 'g']
}

/// JPEG files are copied unchanged: the lowercased extension is `jpg` or
/// `jpeg`.
pub fn is_jpeg_path(path: &str) -> (r: bool)
    ensures
        r == (path_extension(path@) matches Some(e) && jpeg_ext(lowercase_of(e))),
{
    proof {
        reveal_strlit("jpg");
        reveal_strlit("jpeg");
    }
    assert("jpg"@ =~= seq!['j', 'p', 'g']);
    assert("jpeg"@ =~= seq!['j', 'p', 'e', 'g']);
    match extension_of(path) {
        Some(e) => {
            let lowered = to_lowercase(e.as_str());
            str_eq(lowered.as_str(), "jpg") || str_eq(lowered.as_str(), "jpeg")
        },
        None => false,
    }
}

/// A string of whitespace only (or empty).
pub open spec fn blank(s: Seq<char>) -> bool {
    forall|i: int| 0 <= i < s.len() ==> whitespace_char(#[trigger] s[i])
}

fn is_blank(s: &str) -> (r: bool)
    ensures
        r == blank(s@),
{
    let n = s.unicode_len();
    let mut i: usize = 0;
    while i < n
        invariant
            n == s@.len(),
            i <= n,
            forall|k: int| 0 <= k < i ==> whitespace_char(#[trigger] s@[k]),
        decreases n - i,
    {
        if !char_is_whitespace(s.get_char(i)) {
            return false;
        }
        i = i + 1;
    }
    true
}

/// The cells of a column from row `i` on, up to the first missing or
/// blank cell.
pub open spec fn rows_from(cells: Seq<Option<Seq<char>>>, i: int) -> Seq<Seq<char>>
    decreases cells.len() - i,
{
    if i < 0 || i >= cells.len() {
        Seq::empty()
    } else {
        match cells[i] {
            None => Seq::empty(),
            Some(t) => if blank(t) {
                Seq::empty()
            } else {
                seq![t] + rows_from(cells, i + 1)
            },
        }
    }
}

pub open spec fn cells_view(cells: Seq<Option<String>>) -> Seq<Option<Seq<char>>> {
    Seq::new(
        cells.len(),
        |i: int|
            match cells[i] {
                Some(s) => Some(s@),
                None => None,
            },
    )
}

/// The watermark texts of a spreadsheet column: row 0 is a header, reading
/// stops at the first empty cell, and no text at all is an error.
pub fn collect_sheet_column(cells: &Vec<Option<String>>) -> (r: Result<Vec<String>, BlindMarkError>)
    ensures
        r is Ok <==> rows_from(cells_view(cells@), 1).len() > 0,
        r matches Ok(v) ==> v@.len() == rows_from(cells_view(cells@), 1).len() && forall|k: int|
            0 <= k < v@.len() ==> #[trigger] v@[k]@ == rows_from(cells_view(cells@), 1)[k],
        r matches Err(e) ==> e is ExcelError,
{
    let ghost cv = cells_view(cells@);
    let mut out: Vec<String> = Vec::new();
    let mut i: usize = 1;
    let n = cells.len();
    let mut stopped = false;
    while i < n && !stopped
        invariant
            n == cells@.len(),
            cv == cells_view(cells@),
            1 <= i,
            i <= n || (i == 1 && n == 0),
            stopped ==> rows_from(cv, i as int).len() == 0,
            rows_from(cv, 1) =~= Seq::new(out@.len(), |k: int| out@[k]@) + rows_from(cv, i as int),
        decreases n - i, if stopped { 0int } else { 1int },
    {
        match &cells[i] {
            None => {
                stopped = true;
            },
            Some(t) => {
                if is_blank(t.as_str()) {
                    stopped = true;
                } else {
                    out.push(t.clone());
                    i = i + 1;
                }
            },
        }
    }
    proof {
        if !stopped {
            assert(rows_from(cv, i as int).len() == 0);
        }
        assert(rows_from(cv, 1) =~= Seq::new(out@.len(), |k: int| out@[k]@));
    }
    if out.len() == 0 {
        return Err(
            BlindMarkError::ExcelError(
                String::from_str("no watermark text in column A (row 0 is the header)"),
            ),
        );
    }
    Ok(out)
}

/// The JSON field name for the non-camouflaged mode: the configured one,
/// unless it is missing or blank.
pub fn effective_watermark_key(key: Option<&str>) -> (r: String)
    ensures
        r@ == match key {
            Some(k) => if blank(k@) {
                seq!['_', 'w', 'a', 't', 'e', 'r', 'm', 'a', 'r', 'k']
            } else {
                k@
            },
            None => seq!['_', 'w', 'a', 't', 'e', 'r', 'm', 'a', 'r', 'k'],
        },
{
    proof {
        reveal_strlit("_watermark");
    }
    assert("_watermark"@ =~= seq!['_', 'w', 'a', 't', 'e', 'r', 'm', 'a', 'r', 'k']);
    match key {
        Some(k) => if is_blank(k) {
            String::from_str("_watermark")
        } else {
            String::from_str(k)
        },
        None => String::from_str("_watermark"),
    }
}

/// A status label for a watermark: at most 24 characters, with an ellipsis
/// when it was cut.
pub fn batch_label(text: &str) -> (r: String)
    ensures
        r@ == if text@.len() > 24 {
            text@.subrange(0, 24).push('\u{2026}')
        } else {
            text@
        },
{
    let n = text.unicode_len();
    if n <= 24 {
        return String::from_str(text);
    }
    let mut s = String::new();
    let mut i: usize = 0;
    while i < 24
        invariant
            n == text@.len(),
            n > 24,
            i <= 24,
            s@ == text@.subrange(0, i as int),
        decreases 24 - i,
    {
        push_char(&mut s, text.get_char(i));
        i = i + 1;
        assert(s@ =~= text@.subrange(0, i as int));
    }
    push_char(&mut s, '\u{2026}');
    s
}

/// Whether `rel` is among `names`.
pub open spec fn named(names: Seq<String>, rel: Seq<char>) -> bool {
    exists|j: int| 0 <= j < names.len() && names[j]@ == rel
}

fn is_named(names: &Vec<String>, rel: &str) -> (r: bool)
    ensures
        r == named(names@, rel@),
{
    let mut j: usize = 0;
    while j < names.len()
        invariant
            j <= names@.len(),
            forall|k: int| 0 <= k < j ==> names@[k]@ != rel@,
        decreases names@.len() - j,
    {
        if str_eq(names[j].as_str(), rel) {
            return true;
        }
        j = j + 1;
    }
    false
}

/// The images of `s` that were selected, in order.
pub open spec fn selected_files(s: Seq<ImageFile>, names: Seq<String>) -> Seq<ImageFile>
    decreases s.len(),
{
    if s.len() == 0 {
        s
    } else if named(names, s.last().relative_path@) {
        selected_files(s.drop_last(), names).push(s.last())
    } else {
        selected_files(s.drop_last(), names)
    }
}

/// The images to process: all of them when the selection is empty, else
/// those whose relative path is selected, in their order.
pub fn select_images_by_name(images: Vec<ImageFile>, selected: &Vec<String>) -> (r: Vec<ImageFile>)
    ensures
        r@ == if selected@.len() == 0 {
            images@
        } else {
            selected_files(images@, selected@)
        },
{
    if selected.len() == 0 {
        return images;
    }
    let ghost orig = images@;
    let mut rest = images;
    let mut out: Vec<ImageFile> = Vec::new();
    let mut c: usize = 0;
    let total = rest.len();
    while rest.len() > 0
        invariant
            total == orig.len(),
            c <= orig.len(),
            rest@ == orig.subrange(c as int, orig.len() as int),
            out@ == selected_files(orig.subrange(0, c as int), selected@),
        decreases rest@.len(),
    {
        let f = rest.remove(0);
        let ghost pre = orig.subrange(0, c + 1);
        assert(pre.drop_last() =~= orig.subrange(0, c as int));
        assert(pre.last() == f);
        if is_named(selected, f.relative_path.as_str()) {
            out.push(f);
        }
        c = c + 1;
        assert(rest@ =~= orig.subrange(c as int, orig.len() as int));
    }
    assert(orig.subrange(0, orig.len() as int) =~= orig);
    out
}

/// Whether a file, lowercased, ends in `.png`: only PNG images are scanned
/// for the image watermark.
pub fn is_png_name(relative_path: &str) -> (r: bool)
    ensures
        r == {
            let l = lowercase_of(relative_path@);
            l.len() >= 4 && l.subrange(l.len() - 4, l.len() as int) == seq!['.', 'p', 'n', 'g']
        },
{
    let lowered = to_lowercase(relative_path);
    let n = lowered.as_str().unicode_len();
    if n < 4 {
        return false;
    }
    let tail = crate::text::char_suffix(lowered.as_str(), n - 4);
    proof {
        reveal_strlit(".png");
    }
    assert(".png"@ =~= seq!['.', 'p', 'n', 'g']);
    str_eq(tail.as_str(), ".png")
}

/// Where the archive for watermark `w` goes:
/// `<base>/<sanitized w>/<archive file name>`.
pub fn output_archive_path(base: &str, watermark: &str, file_name: &str) -> (r: String)
    ensures
        r@ == path_joined((path_joined((base@, sanitized_name(watermark@))), file_name@)),
{
    let folder = sanitize_path_component(watermark);
    let dir = join_path(base, folder.as_str());
    join_path(dir.as_str(), file_name)
}

/// Whether an extracted file was not processed, and so is copied unchanged.
pub fn is_other_file(relative_path: &str, processed: &Vec<String>) -> (r: bool)
    ensures
        r == !named(processed@, relative_path@),
{
    !is_named(processed, relative_path)
}

/// Sorted by file path.
pub open spec fn findings_sorted(s: Seq<ImageWatermarkFinding>) -> bool {
    forall|i: int, j: int| 0 <= i < j < s.len() ==> lex_le(s[i].file@, s[j].file@)
}

/// Image findings in order of their file path; equal paths keep their
/// order.
pub fn sort_image_findings(findings: Vec<ImageWatermarkFinding>) -> (r: Vec<ImageWatermarkFinding>)
    ensures
        findings_sorted(r@),
        r@.to_multiset() == findings@.to_multiset(),
{
    let ghost orig = findings@;
    let mut rest = findings;
    let mut out: Vec<ImageWatermarkFinding> = Vec::new();
    let mut c: usize = 0;
    let total = rest.len();
    assert(out@ =~= orig.subrange(0, 0));
    while rest.len() > 0
        invariant
            total == orig.len(),
            c <= orig.len(),
            rest@ == orig.subrange(c as int, orig.len() as int),
            findings_sorted(out@),
            out@.to_multiset() == orig.subrange(0, c as int).to_multiset(),
        decreases rest@.len(),
    {
        let x = rest.remove(0);
        proof {
            assert(orig.subrange(0, c + 1) =~= orig.subrange(0, c as int).push(x));
            vstd::seq_lib::to_multiset_build(orig.subrange(0, c as int), x);
        }
        let mut p: usize = 0;
        while p < out.len() && path_le(out[p].file.as_str(), x.file.as_str())
            invariant
                p <= out@.len(),
                findings_sorted(out@),
                forall|q: int| 0 <= q < p ==> lex_le(#[trigger] out@[q].file@, x.file@),
            decreases out@.len() - p,
        {
            p = p + 1;
        }
        let ghost before = out@;
        proof {
            if p < before.len() {
                lemma_lex_total(before[p as int].file@, x.file@);
            }
            vstd::seq_lib::to_multiset_insert(before, p as int, x);
        }
        out.insert(p, x);
        proof {
            let after = out@;
            assert forall|i: int, j: int| 0 <= i < j < after.len() implies lex_le(
                after[i].file@,
                after[j].file@,
            ) by {
                if j < p {
                    assert(after[i] == before[i] && after[j] == before[j]);
                } else if j == p {
                    assert(after[i] == before[i]);
                } else if i == p {
                    assert(after[j] == before[j - 1]);
                    if j - 1 > p {
                        lemma_lex_trans(x.file@, before[p as int].file@, before[j - 1].file@);
                    }
                } else if i < p {
                    assert(after[i] == before[i] && after[j] == before[j - 1]);
                } else {
                    assert(after[i] == before[i - 1] && after[j] == before[j - 1]);
                }
            }
        }
        c = c + 1;
        assert(rest@ =~= orig.subrange(c as int, orig.len() as int));
    }
    assert(orig.subrange(0, orig.len() as int) =~= orig);
    out
}

} // verus!
