//! Which extracted files are images, JSON, VAJ or VMI, in a stable order.
use vstd::prelude::*;
use vstd::multiset::Multiset;
use crate::paths::{extension_of, lowercase_of, path_extension, to_lowercase};
use crate::models::ImageFile;
use crate::paths::{parent_of, path_parent};
use crate::text::str_eq;

verus! {

/// Selects supported images by extension.
pub struct FileScanner {
    pub supported_extensions: Vec<&'static str>,
}

/// Whether `e` is one of the listed extensions.
pub open spec fn listed(exts: Seq<&'static str>, e: Seq<char>) -> bool {
    exists|j: int| 0 <= j < exts.len() && exts[j]@ == e
}

impl FileScanner {
    /// PNG, JPG and JPEG.
    pub fn new() -> (r: Self)
        ensures
            r.supported_extensions@.len() == 3,
            r.supported_extensions@[0]@ == seq!['p', 'n', 'g'],
            r.supported_extensions@[1]@ == seq!['j', 'p', 'g'],
            r.supported_extensions@[2]@ == seq!['j', 'p', 'e', 'g'],
    {
        proof {
            reveal_strlit("png");
            reveal_strlit("jpg");
            reveal_strlit("jpeg");
        }
        let mut v: Vec<&'static str> = Vec::new();
        v.push("png");
        v.push("jpg");
        v.push("jpeg");
        assert(v@[0]@ =~= seq!['p', 'n', 'g']);
        assert(v@[1]@ =~= seq!['j', 'p', 'g']);
        assert(v@[2]@ =~= seq!['j', 'p', 'e', 'g']);
        FileScanner { supported_extensions: v }
    }

    /// A scanner for the given lowercase extensions.
    pub fn with_extensions(extensions: Vec<&'static str>) -> (r: Self)
        ensures
            r.supported_extensions == extensions,
    {
        FileScanner { supported_extensions: extensions }
    }

    /// The extensions this scanner accepts.
    pub fn supported_extensions(&self) -> (r: &[&'static str])
        ensures
            r@ == self.supported_extensions@,
    {
        self.supported_extensions.as_slice()
    }

    /// Whether an already lowercased extension is accepted.
    pub fn extension_listed(&self, lowered: &str) -> (r: bool)
        ensures
            r == listed(self.supported_extensions@, lowered@),
    {
        let mut j: usize = 0;
        while j < self.supported_extensions.len()
            invariant
                j <= self.supported_extensions@.len(),
                forall|k: int| 0 <= k < j ==> self.supported_extensions@[k]@ != lowered@,
            decreases self.supported_extensions@.len() - j,
        {
            if str_eq(self.supported_extensions[j], lowered) {
                return true;
            }
            j = j + 1;
        }
        false
    }

    /// Whether the file at `path` is an accepted image: its extension,
    /// lowercased, is listed.
    pub fn is_supported(&self, path: &str) -> (r: bool)
        ensures
            r == (path_extension(path@) matches Some(e) && listed(
                self.supported_extensions@,
                lowercase_of(e),
            )),
    {
        match extension_of(path) {
            Some(e) => {
                let lowered = to_lowercase(e.as_str());
                self.extension_listed(lowered.as_str())
            },
            None => false,
        }
    }
}

/// Lexicographic order of strings by code point, as `String`'s `Ord`.
pub open spec fn lex_le(a: Seq<char>, b: Seq<char>) -> bool
    decreases a.len(),
{
    if a.len() == 0 {
        true
    } else if b.len() == 0 {
        false
    } else if a[0] as u32 != b[0] as u32 {
        (a[0] as u32) < (b[0] as u32)
    } else {
        lex_le(a.drop_first(), b.drop_first())
    }
}

pub(crate) proof fn lemma_lex_total(a: Seq<char>, b: Seq<char>)
    ensures
        lex_le(a, b) || lex_le(b, a),
    decreases a.len(),
{
    if a.len() > 0 && b.len() > 0 && a[0] as u32 == b[0] as u32 {
        lemma_lex_total(a.drop_first(), b.drop_first());
    }
}

pub(crate) proof fn lemma_lex_trans(a: Seq<char>, b: Seq<char>, c: Seq<char>)
    requires
        lex_le(a, b),
        lex_le(b, c),
    ensures
        lex_le(a, c),
    decreases a.len(),
{
    if a.len() > 0 && b.len() > 0 && c.len() > 0 && a[0] as u32 == b[0] as u32 && b[0] as u32
        == c[0] as u32 {
        lemma_lex_trans(a.drop_first(), b.drop_first(), c.drop_first());
    }
}

/// Compares two strings in `lex_le` order.
pub fn path_le(a: &str, b: &str) -> (r: bool)
    ensures
        r == lex_le(a@, b@),
{
    let n = a.unicode_len();
    let m = b.unicode_len();
    let mut i: usize = 0;
    assert(a@.subrange(0, n as int) =~= a@);
    assert(b@.subrange(0, m as int) =~= b@);
    while i < n && i < m
        invariant
            n == a@.len(),
            m == b@.len(),
            i <= n,
            i <= m,
            lex_le(a@, b@) == lex_le(a@.subrange(i as int, n as int), b@.subrange(i as int, m as int)),
        decreases n - i,
    {
        let x = a.get_char(i);
        let y = b.get_char(i);
        let ghost sa = a@.subrange(i as int, n as int);
        let ghost sb = b@.subrange(i as int, m as int);
        assert(sa[0] == x && sb[0] == y);
        if x as u32 != y as u32 {
            return (x as u32) < (y as u32);
        }
        assert(sa.drop_first() =~= a@.subrange(i + 1, n as int));
        assert(sb.drop_first() =~= b@.subrange(i + 1, m as int));
        i = i + 1;
    }
    i == n
}

/// Sorted by relative path.
pub open spec fn sorted_by_path(s: Seq<ImageFile>) -> bool {
    forall|i: int, j: int|
        0 <= i < j < s.len() ==> lex_le(s[i].relative_path@, s[j].relative_path@)
}

/// Whether a file is kept: with `only` absent, when its lowercased
/// extension is listed in `exts`; else when it equals `only`.
pub open spec fn file_kept(p: Seq<char>, exts: Seq<&'static str>, only: Option<Seq<char>>) -> bool {
    match path_extension(p) {
        Some(e) => match only {
            Some(x) => lowercase_of(e) == x,
            None => listed(exts, lowercase_of(e)),
        },
        None => false,
    }
}

/// The records in `s` that are kept, in order.
pub open spec fn filter_files(
    s: Seq<ImageFile>,
    exts: Seq<&'static str>,
    only: Option<Seq<char>>,
) -> Seq<ImageFile>
    decreases s.len(),
{
    if s.len() == 0 {
        s
    } else if file_kept(s.last().relative_path@, exts, only) {
        filter_files(s.drop_last(), exts, only).push(s.last())
    } else {
        filter_files(s.drop_last(), exts, only)
    }
}

/// Inserts `x` after every record whose path is not greater.
fn insert_sorted(out: &mut Vec<ImageFile>, x: ImageFile)
    requires
        sorted_by_path(old(out)@),
    ensures
        sorted_by_path(final(out)@),
        final(out)@.to_multiset() == old(out)@.to_multiset().insert(x),
{
    let mut p: usize = 0;
    while p < out.len() && path_le(out[p].relative_path.as_str(), x.relative_path.as_str())
        invariant
            p <= out@.len(),
            sorted_by_path(out@),
            forall|q: int| 0 <= q < p ==> lex_le(#[trigger] out@[q].relative_path@, x.relative_path@),
        decreases out@.len() - p,
    {
        p = p + 1;
    }
    let ghost before = out@;
    proof {
        if p < before.len() {
            lemma_lex_total(before[p as int].relative_path@, x.relative_path@);
        }
        vstd::seq_lib::to_multiset_insert(before, p as int, x);
    }
    out.insert(p, x);
    proof {
        let after = out@;
        assert forall|i: int, j: int| 0 <= i < j < after.len() implies lex_le(
            after[i].relative_path@,
            after[j].relative_path@,
        ) by {
            if j < p {
                assert(after[i] == before[i] && after[j] == before[j]);
            } else if j == p {
                assert(after[i] == before[i]);
            } else if i == p {
                assert(after[j] == before[j - 1]);
                if j - 1 > p {
                    lemma_lex_trans(
                        x.relative_path@,
                        before[p as int].relative_path@,
                        before[j - 1].relative_path@,
                    );
                }
            } else if i < p {
                assert(after[i] == before[i] && after[j] == before[j - 1]);
            } else {
                assert(after[i] == before[i - 1] && after[j] == before[j - 1]);
            }
        }
    }
}

impl FileScanner {
    /// The listed files that this scanner accepts, sorted by relative path;
    /// equal paths keep their order. `found` is the recursive listing of a
    /// directory.
    pub fn scan(&self, found: Vec<ImageFile>) -> (r: Vec<ImageFile>)
        ensures
            sorted_by_path(r@),
            r@.to_multiset() == filter_files(found@, self.supported_extensions@, None).to_multiset(),
    {
        let ghost exts = self.supported_extensions@;
        let ghost only: Option<Seq<char>> = None;
        let ghost orig = found@;
        let mut rest = found;
        let mut out: Vec<ImageFile> = Vec::new();
        let mut c: usize = 0;
        let total = rest.len();
        assert(out@ =~= filter_files(orig.subrange(0, 0), exts, only));
        while rest.len() > 0
            invariant
                total == orig.len(),
                exts == self.supported_extensions@,
                only == None::<Seq<char>>,
                c <= orig.len(),
                rest@ == orig.subrange(c as int, orig.len() as int),
                sorted_by_path(out@),
                out@.to_multiset() == filter_files(orig.subrange(0, c as int), exts, only).to_multiset(),
            decreases rest@.len(),
        {
            let f = rest.remove(0);
            let ghost pre = orig.subrange(0, c + 1);
            assert(pre.drop_last() =~= orig.subrange(0, c as int));
            assert(pre.last() == f);
            if self.is_supported(f.relative_path.as_str()) {
                proof {
                    assert(file_kept(f.relative_path@, exts, only));
                    assert(filter_files(pre, exts, only) == filter_files(pre.drop_last(), exts, only).push(f));
                    vstd::seq_lib::to_multiset_build(filter_files(orig.subrange(0, c as int), exts, only), f);
                }
                insert_sorted(&mut out, f);
            } else {
                assert(!file_kept(f.relative_path@, exts, only));
                assert(filter_files(pre, exts, only) == filter_files(pre.drop_last(), exts, only));
            }
            c = c + 1;
            assert(rest@ =~= orig.subrange(c as int, orig.len() as int));
        }
        assert(orig.subrange(0, orig.len() as int) =~= orig);
        out
    }

    /// The listed files whose extension, lowercased, is `extension`, sorted
    /// by relative path.
    pub fn scan_files_by_extension(&self, found: Vec<ImageFile>, extension: &str) -> (r: Vec<
        ImageFile,
    >)
        ensures
            sorted_by_path(r@),
            r@.to_multiset() == filter_files(found@, Seq::empty(), Some(extension@)).to_multiset(),
    {
        let ghost exts: Seq<&'static str> = Seq::empty();
        let ghost only = Some(extension@);
        let ghost orig = found@;
        let mut rest = found;
        let mut out: Vec<ImageFile> = Vec::new();
        let mut c: usize = 0;
        let total = rest.len();
        assert(out@ =~= filter_files(orig.subrange(0, 0), exts, only));
        while rest.len() > 0
            invariant
                total == orig.len(),
                exts == Seq::<&'static str>::empty(),
                only == Some(extension@),
                c <= orig.len(),
                rest@ == orig.subrange(c as int, orig.len() as int),
                sorted_by_path(out@),
                out@.to_multiset() == filter_files(orig.subrange(0, c as int), exts, only).to_multiset(),
            decreases rest@.len(),
        {
            let f = rest.remove(0);
            let ghost pre = orig.subrange(0, c + 1);
            assert(pre.drop_last() =~= orig.subrange(0, c as int));
            assert(pre.last() == f);
            let matches = match extension_of(f.relative_path.as_str()) {
                Some(e) => {
                    let lowered = to_lowercase(e.as_str());
                    str_eq(lowered.as_str(), extension)
                },
                None => false,
            };
            if matches {
                proof {
                    assert(file_kept(f.relative_path@, exts, only));
                    assert(filter_files(pre, exts, only) == filter_files(pre.drop_last(), exts, only).push(f));
                    vstd::seq_lib::to_multiset_build(filter_files(orig.subrange(0, c as int), exts, only), f);
                }
                insert_sorted(&mut out, f);
            } else {
                assert(!file_kept(f.relative_path@, exts, only));
                assert(filter_files(pre, exts, only) == filter_files(pre.drop_last(), exts, only));
            }
            c = c + 1;
            assert(rest@ =~= orig.subrange(c as int, orig.len() as int));
        }
        assert(orig.subrange(0, orig.len() as int) =~= orig);
        out
    }
}

impl FileScanner {
    /// The listed `.json` files, sorted by relative path.
    pub fn scan_json_files(&self, found: Vec<ImageFile>) -> (r: Vec<ImageFile>)
        ensures
            sorted_by_path(r@),
            r@.to_multiset() == filter_files(found@, Seq::empty(), Some(seq!['j', 's', 'o', 'n'])).to_multiset(),
    {
        proof {
            reveal_strlit("json");
        }
        assert("json"@ =~= seq!['j', 's', 'o', 'n']);
        self.scan_files_by_extension(found, "json")
    }

    /// The listed `.vaj` files, sorted by relative path.
    pub fn scan_vaj_files(&self, found: Vec<ImageFile>) -> (r: Vec<ImageFile>)
        ensures
            sorted_by_path(r@),
            r@.to_multiset() == filter_files(found@, Seq::empty(), Some(seq!['v', 'a', 'j'])).to_multiset(),
    {
        proof {
            reveal_strlit("vaj");
        }
        assert("vaj"@ =~= seq!['v', 'a', 'j']);
        self.scan_files_by_extension(found, "vaj")
    }

    /// The listed `.vmi` files, sorted by relative path.
    pub fn scan_vmi_files(&self, found: Vec<ImageFile>) -> (r: Vec<ImageFile>)
        ensures
            sorted_by_path(r@),
            r@.to_multiset() == filter_files(found@, Seq::empty(), Some(seq!['v', 'm', 'i'])).to_multiset(),
    {
        proof {
            reveal_strlit("vmi");
        }
        assert("vmi"@ =~= seq!['v', 'm', 'i']);
        self.scan_files_by_extension(found, "vmi")
    }

    /// How many listed files this scanner accepts.
    pub fn count_images(&self, found: Vec<ImageFile>) -> (r: usize)
        ensures
            r == filter_files(found@, self.supported_extensions@, None).len(),
    {
        let images = self.scan(found);
        proof {
            vstd::seq_lib::to_multiset_len(images@);
            vstd::seq_lib::to_multiset_len(filter_files(found@, self.supported_extensions@, None));
        }
        images.len()
    }

    /// The accepted images grouped by the directory of their relative path
    /// (the empty string for the root): each accepted image stands in
    /// exactly one group, the one of its directory; groups are non-empty,
    /// keyed by distinct directories in order of first appearance, and each
    /// is sorted by path.
    pub fn scan_grouped(&self, found: Vec<ImageFile>) -> (r: Vec<(String, Vec<ImageFile>)>)
        ensures
            forall|i: int, j: int| 0 <= i < j < r@.len() ==> r@[i].0@ != r@[j].0@,
            forall|i: int, k: int|
                0 <= i < r@.len() && 0 <= k < r@[i].1@.len() ==> dir_key(
                    #[trigger] r@[i].1@[k].relative_path@,
                ) == r@[i].0@,
            forall|i: int|
                0 <= i < r@.len() ==> #[trigger] r@[i].1@.len() > 0 && sorted_by_path(r@[i].1@),
            group_items(r@) == filter_files(found@, self.supported_extensions@, None).to_multiset(),
    {
        let images = self.scan(found);
        let ghost all = images@;
        let mut rest = images;
        let mut groups: Vec<(String, Vec<ImageFile>)> = Vec::new();
        let mut c: usize = 0;
        let total = rest.len();
        assert(group_items(groups@) =~= Multiset::empty());
        assert(rest@ =~= all.subrange(0, all.len() as int));
        while rest.len() > 0
            invariant
                total == all.len(),
                c <= all.len(),
                sorted_by_path(all),
                rest@ == all.subrange(c as int, all.len() as int),
                group_items(groups@).add(rest@.to_multiset()) == all.to_multiset(),
                forall|i: int, j: int| 0 <= i < j < groups@.len() ==> groups@[i].0@ != groups@[j].0@,
                forall|i: int, k: int|
                    0 <= i < groups@.len() && 0 <= k < groups@[i].1@.len() ==> dir_key(
                        #[trigger] groups@[i].1@[k].relative_path@,
                    ) == groups@[i].0@,
                forall|i: int|
                    0 <= i < groups@.len() ==> #[trigger] groups@[i].1@.len() > 0 && sorted_by_path(
                        groups@[i].1@,
                    ),
                forall|i: int, k: int, q: int|
                    0 <= i < groups@.len() && 0 <= k < groups@[i].1@.len() && c <= q < all.len()
                        ==> lex_le(#[trigger] groups@[i].1@[k].relative_path@, #[trigger] all[q].relative_path@),
            decreases rest@.len(),
        {
            let ghost old_rest = rest@;
            let image = rest.remove(0);
            proof {
                vstd::seq_lib::to_multiset_remove(old_rest, 0);
                assert(old_rest.remove(0) =~= rest@);
                assert(image == all[c as int]);
                assert(rest@ =~= all.subrange(c + 1, all.len() as int));
                vstd::seq_lib::to_multiset_contains(old_rest, image);
                assert(old_rest.contains(image)) by {
                    assert(old_rest[0] == image);
                }
            }
            let key = directory_of(image.relative_path.as_str());
            let mut g: usize = 0;
            while g < groups.len() && !str_eq(groups[g].0.as_str(), key.as_str())
                invariant
                    g <= groups@.len(),
                    forall|i: int| 0 <= i < g ==> groups@[i].0@ != key@,
                decreases groups@.len() - g,
            {
                g = g + 1;
            }
            let ghost before = groups@;
            if g < groups.len() {
                let (k, mut members) = groups.remove(g);
                let ghost old_members = members@;
                members.push(image);
                groups.insert(g, (k, members));
                proof {
                    assert(groups@ =~= before.update(g as int, groups@[g as int]));
                    lemma_group_items_update(before, g as int, groups@[g as int], image);
                    assert forall|i: int, k2: int|
                        0 <= i < groups@.len() && 0 <= k2 < groups@[i].1@.len() implies dir_key(
                            #[trigger] groups@[i].1@[k2].relative_path@,
                        ) == groups@[i].0@ by {
                        if i == g as int && k2 < old_members.len() {
                            assert(groups@[i].1@[k2] == before[i].1@[k2]);
                        }
                    }
                    assert(sorted_by_path(groups@[g as int].1@)) by {
                        assert forall|x: int, y: int| 0 <= x < y < groups@[g as int].1@.len() implies lex_le(
                            groups@[g as int].1@[x].relative_path@,
                            groups@[g as int].1@[y].relative_path@,
                        ) by {
                            if y == old_members.len() {
                                assert(groups@[g as int].1@[x] == before[g as int].1@[x]);
                                assert(lex_le(before[g as int].1@[x].relative_path@, all[c as int].relative_path@));
                            } else {
                                assert(groups@[g as int].1@[x] == before[g as int].1@[x]);
                                assert(groups@[g as int].1@[y] == before[g as int].1@[y]);
                            }
                        }
                    }
                    assert forall|i: int|
                        0 <= i < groups@.len() implies #[trigger] groups@[i].1@.len() > 0 && sorted_by_path(
                            groups@[i].1@,
                        ) by {
                        if i != g as int {
                            assert(groups@[i] == before[i]);
                        }
                    }
                    assert forall|i: int, k2: int, q: int|
                        0 <= i < groups@.len() && 0 <= k2 < groups@[i].1@.len() && c + 1 <= q < all.len()
                            implies lex_le(#[trigger] groups@[i].1@[k2].relative_path@, #[trigger] all[q].relative_path@) by {
                        if i == g as int && k2 == old_members.len() {
                            assert(groups@[i].1@[k2] == all[c as int]);
                        } else if i == g as int {
                            assert(groups@[i].1@[k2] == before[i].1@[k2]);
                        } else {
                            assert(groups@[i] == before[i]);
                        }
                    }
                }
            } else {
                let mut members: Vec<ImageFile> = Vec::new();
                members.push(image);
                groups.push((key, members));
                proof {
                    assert(groups@ =~= before.push(groups@[before.len() as int]));
                    lemma_group_items_push(before, groups@[before.len() as int]);
                    assert(groups@[before.len() as int].1@ =~= seq![image]);
                    assert(seq![image].to_multiset() =~= Multiset::empty().insert(image)) by {
                        vstd::seq_lib::to_multiset_build(Seq::<ImageFile>::empty(), image);
                        assert(Seq::<ImageFile>::empty().push(image) =~= seq![image]);
                        assert(Seq::<ImageFile>::empty().to_multiset() =~= Multiset::empty()) by {
                            vstd::seq_lib::to_multiset_len(Seq::<ImageFile>::empty());
                        }
                    }
                    assert forall|i: int, k2: int, q: int|
                        0 <= i < groups@.len() && 0 <= k2 < groups@[i].1@.len() && c + 1 <= q < all.len()
                            implies lex_le(#[trigger] groups@[i].1@[k2].relative_path@, #[trigger] all[q].relative_path@) by {
                        if i == before.len() {
                            assert(groups@[i].1@[k2] == all[c as int]);
                        } else {
                            assert(groups@[i] == before[i]);
                        }
                    }
                    assert forall|i: int|
                        0 <= i < groups@.len() implies #[trigger] groups@[i].1@.len() > 0 && sorted_by_path(
                            groups@[i].1@,
                        ) by {
                        if i < before.len() {
                            assert(groups@[i] == before[i]);
                        }
                    }
                }
            }
            proof {
                assert(group_items(groups@).add(rest@.to_multiset()) =~= all.to_multiset());
            }
            c = c + 1;
        }
        assert(rest@.to_multiset() =~= Multiset::empty()) by {
            vstd::seq_lib::to_multiset_len(rest@);
        }
        assert(group_items(groups@) =~= all.to_multiset());
        groups
    }
}

/// The directory of a relative path: its parent, or the empty string.
pub open spec fn dir_key(rel: Seq<char>) -> Seq<char> {
    match path_parent(rel) {
        Some(p) => p,
        None => Seq::empty(),
    }
}

fn directory_of(rel: &str) -> (r: String)
    ensures
        r@ == dir_key(rel@),
{
    match parent_of(rel) {
        Some(p) => p,
        None => String::new(),
    }
}

/// The images over all groups.
pub open spec fn group_items(g: Seq<(String, Vec<ImageFile>)>) -> Multiset<ImageFile>
    decreases g.len(),
{
    if g.len() == 0 {
        Multiset::empty()
    } else {
        group_items(g.drop_last()).add(g.last().1@.to_multiset())
    }
}

proof fn lemma_group_items_push(g: Seq<(String, Vec<ImageFile>)>, x: (String, Vec<ImageFile>))
    ensures
        group_items(g.push(x)) == group_items(g).add(x.1@.to_multiset()),
{
    assert(g.push(x).drop_last() =~= g);
}

proof fn lemma_group_items_update(
    g: Seq<(String, Vec<ImageFile>)>,
    i: int,
    x: (String, Vec<ImageFile>),
    m: ImageFile,
)
    requires
        0 <= i < g.len(),
        x.1@ == g[i].1@.push(m),
    ensures
        group_items(g.update(i, x)) == group_items(g).insert(m),
    decreases g.len(),
{
    vstd::seq_lib::to_multiset_build(g[i].1@, m);
    if i == g.len() - 1 {
        assert(g.update(i, x).drop_last() =~= g.drop_last());
        assert(group_items(g.update(i, x)) =~= group_items(g).insert(m));
    } else {
        assert(g.update(i, x).drop_last() =~= g.drop_last().update(i, x));
        lemma_group_items_update(g.drop_last(), i, x, m);
        assert(group_items(g.update(i, x)) =~= group_items(g).insert(m));
    }
}

} // verus!
