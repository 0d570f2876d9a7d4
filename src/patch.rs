//! Parsing of a unified-diff patch blob into a header and per-file hunks.
//!
//! The blob is split at every newline byte; the lines are then read by a
//! strict grammar: free header lines, then for each file an optional
//! `Index: ` line with a line of 67 `=`, a `--- a/<path>` and a `+++ b/<path>`
//! line naming the same path, and hunks that each start with `@@ `.
use vstd::prelude::*;
use vstd::utf8::*;

use crate::keyed::{copy_from, equal_bytes, lemma_find_key, upsert};

verus! {

pub const NEWLINE: u8 = 10;

pub const INDEX_TRAILER_LEN: usize = 67;

// ----- the model -----

/// A hunk as values: the bytes after its `@@ ` marker and its lines.
pub type HunkView = (Seq<u8>, Seq<Seq<u8>>);

/// The changes to one file as values: its path and its hunks in order.
pub type FileView = (Seq<char>, Seq<HunkView>);

pub ghost struct PatchView {
    pub header: Seq<u8>,
    pub files: Seq<FileView>,
    pub have_index_markers: bool,
}

#[derive(Debug, Clone, Copy, PartialEq, Eq, Structural)]
pub enum PatchError {
    /// No line starts with `--- ` or `Index: `.
    NoPatch,
    /// The blob ends right after an `Index: ` line.
    MissingIndexTrailer,
    /// The line after an `Index: ` line is not 67 `=`.
    BadIndexTrailer,
    /// The blob ends right after an index trailer.
    MissingRemovalLine,
    /// A file's first line does not start with `--- `.
    BadRemovalLine,
    /// The blob ends right after a `--- ` line.
    MissingAdditionLine,
    /// The line after a `--- ` line does not start with `+++ `.
    BadAdditionLine,
    /// The paths do not start with `a/` and `b/`.
    PathsNotPrefixed,
    /// The paths differ after their `a/` and `b/`.
    PathsNotEqual,
    /// The path is not valid UTF-8.
    PathNotText,
    /// A hunk does not start with `@@ `.
    BadHunkMarker,
}

/// The pieces of `b` between newline bytes: one more than there are newlines.
pub open spec fn split_lines(b: Seq<u8>) -> Seq<Seq<u8>>
    decreases b.len(),
{
    if b.len() == 0 {
        seq![Seq::<u8>::empty()]
    } else {
        let init = split_lines(b.drop_last());
        if b.last() == NEWLINE {
            init.push(Seq::<u8>::empty())
        } else {
            init.update(init.len() - 1, init.last().push(b.last()))
        }
    }
}

pub open spec fn has_prefix(l: Seq<u8>, p: Seq<u8>) -> bool {
    p.len() <= l.len() && l.subrange(0, p.len() as int) == p
}

pub open spec fn removal_marker() -> Seq<u8> {
    seq![45u8, 45u8, 45u8, 32u8]
}

pub open spec fn addition_marker() -> Seq<u8> {
    seq![43u8, 43u8, 43u8, 32u8]
}

pub open spec fn index_marker() -> Seq<u8> {
    seq![73u8, 110u8, 100u8, 101u8, 120u8, 58u8, 32u8]
}

pub open spec fn hunk_marker() -> Seq<u8> {
    seq![64u8, 64u8, 32u8]
}

pub open spec fn old_prefix() -> Seq<u8> {
    seq![97u8, 47u8]
}

pub open spec fn new_prefix() -> Seq<u8> {
    seq![98u8, 47u8]
}

/// The line that must follow an `Index: ` line: 67 `=`.
pub open spec fn index_trailer() -> Seq<u8> {
    Seq::new(INDEX_TRAILER_LEN as nat, |i: int| 61u8)
}

pub open spec fn starts_file(l: Seq<u8>) -> bool {
    has_prefix(l, removal_marker()) || has_prefix(l, index_marker())
}

/// The first line at or after `i` that starts a file, or `ls.len()`.
pub open spec fn first_file_start(ls: Seq<Seq<u8>>, i: int) -> int
    decreases ls.len() - i,
{
    if i >= ls.len() {
        ls.len() as int
    } else if starts_file(ls[i]) {
        i
    } else {
        first_file_start(ls, i + 1)
    }
}

/// The first `n` lines, each followed by a newline.
pub open spec fn header_of(ls: Seq<Seq<u8>>, n: int) -> Seq<u8>
    decreases n,
{
    if n <= 0 {
        Seq::<u8>::empty()
    } else {
        header_of(ls, n - 1) + ls[n - 1] + seq![NEWLINE]
    }
}

pub open spec fn ends_hunk_body(l: Seq<u8>) -> bool {
    l.len() == 0 || l[0] == 64u8
}

/// The first line at or after `i` that ends a hunk's body, or `ls.len()`.
pub open spec fn body_end(ls: Seq<Seq<u8>>, i: int) -> int
    decreases ls.len() - i,
{
    if i >= ls.len() {
        i
    } else if ends_hunk_body(ls[i]) {
        i
    } else {
        body_end(ls, i + 1)
    }
}

pub proof fn lemma_body_end_bounds(ls: Seq<Seq<u8>>, i: int)
    requires
        0 <= i <= ls.len(),
    ensures
        i <= body_end(ls, i) <= ls.len(),
    decreases ls.len() - i,
{
    if i < ls.len() && !ends_hunk_body(ls[i]) {
        lemma_body_end_bounds(ls, i + 1);
    }
}

/// The hunks of one file from line `i` on, and the line after them: they
/// end at the end of input or after an empty line.
pub open spec fn parse_hunks(ls: Seq<Seq<u8>>, i: int) -> Result<
    (Seq<HunkView>, int),
    PatchError,
>
    decreases ls.len() - i,
{
    if i < 0 || i >= ls.len() {
        Ok((Seq::<HunkView>::empty(), i))
    } else if ls[i].len() == 0 {
        Ok((Seq::<HunkView>::empty(), i + 1))
    } else if !has_prefix(ls[i], hunk_marker()) {
        Err(PatchError::BadHunkMarker)
    } else {
        let e = body_end(ls, i + 1);
        proof {
            lemma_body_end_bounds(ls, i + 1);
        }
        let h: HunkView = (ls[i].subrange(3, ls[i].len() as int), ls.subrange(i + 1, e));
        match parse_hunks(ls, e) {
            Ok((hs, k)) => Ok((seq![h] + hs, k)),
            Err(x) => Err(x),
        }
    }
}

pub proof fn lemma_parse_hunks_bounds(ls: Seq<Seq<u8>>, i: int)
    requires
        0 <= i <= ls.len(),
    ensures
        parse_hunks(ls, i) is Ok ==> i <= parse_hunks(ls, i)->Ok_0.1 <= ls.len(),
    decreases ls.len() - i,
{
    if i < ls.len() && ls[i].len() != 0 && has_prefix(ls[i], hunk_marker()) {
        lemma_body_end_bounds(ls, i + 1);
        lemma_parse_hunks_bounds(ls, body_end(ls, i + 1));
    }
}

/// The lines that name one file, from line `i`: its path, the line where its
/// hunks start, and whether it was framed by an `Index: ` line.
pub open spec fn parse_file_head(ls: Seq<Seq<u8>>, i: int) -> Result<
    (Seq<char>, int, bool),
    PatchError,
> {
    let framed = has_prefix(ls[i], index_marker());
    let j = if framed {
        i + 2
    } else {
        i
    };
    if framed && i + 1 >= ls.len() {
        Err(PatchError::MissingIndexTrailer)
    } else if framed && ls[i + 1] != index_trailer() {
        Err(PatchError::BadIndexTrailer)
    } else if j >= ls.len() {
        Err(PatchError::MissingRemovalLine)
    } else if !has_prefix(ls[j], removal_marker()) {
        Err(PatchError::BadRemovalLine)
    } else if j + 1 >= ls.len() {
        Err(PatchError::MissingAdditionLine)
    } else if !has_prefix(ls[j + 1], addition_marker()) {
        Err(PatchError::BadAdditionLine)
    } else {
        let removal = ls[j].subrange(4, ls[j].len() as int);
        let addition = ls[j + 1].subrange(4, ls[j + 1].len() as int);
        if !(has_prefix(removal, old_prefix()) && has_prefix(addition, new_prefix())) {
            Err(PatchError::PathsNotPrefixed)
        } else if removal.subrange(2, removal.len() as int) != addition.subrange(
            2,
            addition.len() as int,
        ) {
            Err(PatchError::PathsNotEqual)
        } else if !valid_utf8(addition.subrange(2, addition.len() as int)) {
            Err(PatchError::PathNotText)
        } else {
            Ok((decode_utf8(addition.subrange(2, addition.len() as int)), j + 2, framed))
        }
    }
}

pub proof fn lemma_file_head_bounds(ls: Seq<Seq<u8>>, i: int)
    requires
        0 <= i < ls.len(),
    ensures
        parse_file_head(ls, i) is Ok ==> i < parse_file_head(ls, i)->Ok_0.1 <= ls.len(),
{
}

/// The files from line `i` on, in order of appearance, and whether any of
/// them was framed by an `Index: ` line.
pub open spec fn parse_files(ls: Seq<Seq<u8>>, i: int) -> Result<
    (Seq<FileView>, bool),
    PatchError,
>
    decreases ls.len() - i,
{
    if i < 0 || i >= ls.len() {
        Ok((Seq::<FileView>::empty(), false))
    } else {
        match parse_file_head(ls, i) {
            Err(e) => Err(e),
            Ok((path, j, framed)) => {
                proof {
                    lemma_file_head_bounds(ls, i);
                    lemma_parse_hunks_bounds(ls, j);
                }
                match parse_hunks(ls, j) {
                    Err(e) => Err(e),
                    Ok((hs, k)) => match parse_files(ls, k) {
                        Err(e) => Err(e),
                        Ok((fs, more)) => Ok((seq![(path, hs)] + fs, framed || more)),
                    },
                }
            },
        }
    }
}

/// The files in order of first appearance, each path once, with the hunks
/// of its last appearance.
pub open spec fn collect_files(fs: Seq<FileView>) -> Seq<FileView>
    decreases fs.len(),
{
    if fs.len() == 0 {
        fs
    } else {
        upsert(collect_files(fs.drop_last()), fs.last())
    }
}

/// What parsing `blob` gives.
pub open spec fn parse_spec(blob: Seq<u8>) -> Result<PatchView, PatchError> {
    let ls = split_lines(blob);
    let h = first_file_start(ls, 0);
    if h >= ls.len() {
        Err(PatchError::NoPatch)
    } else {
        match parse_files(ls, h) {
            Err(e) => Err(e),
            Ok((fs, framed)) => Ok(
                PatchView {
                    header: header_of(ls, h),
                    files: collect_files(fs),
                    have_index_markers: framed,
                },
            ),
        }
    }
}


// ----- values -----

pub open spec fn lines_view(v: Seq<Vec<u8>>) -> Seq<Seq<u8>> {
    v.map_values(|l: Vec<u8>| l@)
}

pub open spec fn hunks_view(v: Seq<Hunk>) -> Seq<HunkView> {
    v.map_values(|h: Hunk| h@)
}

pub open spec fn files_view(v: Seq<FileChange>) -> Seq<FileView> {
    v.map_values(|f: FileChange| f@)
}

/// One block of changes to a file.
pub struct Hunk {
    /// What follows the `@@ ` marker, usually the line ranges.
    pub spec: Vec<u8>,
    /// The lines of the block, verbatim with their leading markers.
    pub lines: Vec<Vec<u8>>,
}

impl View for Hunk {
    type V = HunkView;

    open spec fn view(&self) -> HunkView {
        (self.spec@, lines_view(self.lines@))
    }
}

/// The hunks that one patch applies to one file.
pub struct FileChange {
    pub path: String,
    pub hunks: Vec<Hunk>,
}

impl View for FileChange {
    type V = FileView;

    open spec fn view(&self) -> FileView {
        (self.path@, hunks_view(self.hunks@))
    }
}

/// A parsed patch: the text before the first file, the changes of each file
/// (each path once), and whether any file was framed by an `Index: ` line.
pub struct Patch {
    header: Vec<u8>,
    file_changes: Vec<FileChange>,
    have_index_markers: bool,
}

impl View for Patch {
    type V = PatchView;

    closed spec fn view(&self) -> PatchView {
        PatchView {
            header: self.header@,
            files: files_view(self.file_changes@),
            have_index_markers: self.have_index_markers,
        }
    }
}

impl Patch {
    pub fn header(&self) -> (r: &Vec<u8>)
        ensures
            r@ == self@.header,
    {
        &self.header
    }

    pub fn file_changes(&self) -> (r: &Vec<FileChange>)
        ensures
            files_view(r@) == self@.files,
    {
        &self.file_changes
    }

    pub fn have_index_markers(&self) -> (r: bool)
        ensures
            r == self@.have_index_markers,
    {
        self.have_index_markers
    }
}

pub open spec fn result_view(r: Result<Patch, PatchError>) -> Result<PatchView, PatchError> {
    match r {
        Ok(p) => Ok(p@),
        Err(e) => Err(e),
    }
}

// ----- byte helpers -----

fn has_prefix_exec(l: &Vec<u8>, p: &Vec<u8>) -> (r: bool)
    ensures
        r == has_prefix(l@, p@),
{
    if p.len() > l.len() {
        return false;
    }
    let mut i: usize = 0;
    while i < p.len()
        invariant
            i <= p.len() <= l.len(),
            forall|t: int| 0 <= t < i ==> l@[t] == p@[t],
        decreases p.len() - i,
    {
        if l[i] != p[i] {
            proof {
                assert(l@.subrange(0, p.len() as int)[i as int] == l@[i as int]);
            }
            return false;
        }
        i += 1;
    }
    proof {
        assert(l@.subrange(0, p.len() as int) =~= p@);
    }
    true
}

fn is_index_trailer(l: &Vec<u8>) -> (r: bool)
    ensures
        r == (l@ == index_trailer()),
{
    if l.len() != INDEX_TRAILER_LEN {
        return false;
    }
    let mut i: usize = 0;
    while i < l.len()
        invariant
            i <= l.len() == INDEX_TRAILER_LEN,
            forall|t: int| 0 <= t < i ==> l@[t] == 61u8,
        decreases l.len() - i,
    {
        if l[i] != 61u8 {
            proof {
                assert(index_trailer()[i as int] == 61u8);
            }
            return false;
        }
        i += 1;
    }
    proof {
        assert(l@ =~= index_trailer());
    }
    true
}

fn removal_marker_bytes() -> (r: Vec<u8>)
    ensures
        r@ == removal_marker(),
{
    let r: Vec<u8> = vec![45u8, 45u8, 45u8, 32u8];
    proof {
        assert(r@ =~= removal_marker());
    }
    r
}

fn addition_marker_bytes() -> (r: Vec<u8>)
    ensures
        r@ == addition_marker(),
{
    let r: Vec<u8> = vec![43u8, 43u8, 43u8, 32u8];
    proof {
        assert(r@ =~= addition_marker());
    }
    r
}

fn index_marker_bytes() -> (r: Vec<u8>)
    ensures
        r@ == index_marker(),
{
    let r: Vec<u8> = vec![73u8, 110u8, 100u8, 101u8, 120u8, 58u8, 32u8];
    proof {
        assert(r@ =~= index_marker());
    }
    r
}

fn hunk_marker_bytes() -> (r: Vec<u8>)
    ensures
        r@ == hunk_marker(),
{
    let r: Vec<u8> = vec![64u8, 64u8, 32u8];
    proof {
        assert(r@ =~= hunk_marker());
    }
    r
}

fn old_prefix_bytes() -> (r: Vec<u8>)
    ensures
        r@ == old_prefix(),
{
    let r: Vec<u8> = vec![97u8, 47u8];
    proof {
        assert(r@ =~= old_prefix());
    }
    r
}

fn new_prefix_bytes() -> (r: Vec<u8>)
    ensures
        r@ == new_prefix(),
{
    let r: Vec<u8> = vec![98u8, 47u8];
    proof {
        assert(r@ =~= new_prefix());
    }
    r
}

/// Relies on `String::from_utf8`: it accepts exactly the valid UTF-8 byte
/// sequences and keeps the characters they encode.
#[verifier::external_body]
fn decode_text(b: Vec<u8>) -> (r: Option<String>)
    ensures
        r is Some <==> valid_utf8(b@),
        r matches Some(s) ==> s@ == decode_utf8(b@),
{
    String::from_utf8(b).ok()
}


// ----- parsing -----

/// The lines of `blob`, split at every newline byte.
pub fn split_blob_lines(blob: &[u8]) -> (r: Vec<Vec<u8>>)
    ensures
        lines_view(r@) == split_lines(blob@),
{
    let mut lines: Vec<Vec<u8>> = Vec::new();
    let mut cur: Vec<u8> = Vec::new();
    let mut i: usize = 0;
    while i < blob.len()
        invariant
            i <= blob.len(),
            lines_view(lines@).push(cur@) == split_lines(blob@.subrange(0, i as int)),
        decreases blob.len() - i,
    {
        let ghost before = blob@.subrange(0, i as int);
        let ghost old_lines = lines_view(lines@);
        let ghost old_cur = cur@;
        proof {
            assert(blob@.subrange(0, i + 1).drop_last() =~= before);
        }
        let c = blob[i];
        if c == NEWLINE {
            lines.push(cur);
            cur = Vec::new();
            proof {
                assert(lines_view(lines@) =~= old_lines.push(old_cur));
                assert(lines_view(lines@).push(cur@) =~= old_lines.push(old_cur).push(
                    Seq::<u8>::empty(),
                ));
            }
        } else {
            cur.push(c);
            proof {
                let init = old_lines.push(old_cur);
                assert(lines_view(lines@).push(cur@) =~= init.update(
                    init.len() - 1,
                    init.last().push(c),
                ));
            }
        }
        i += 1;
    }
    let ghost old_lines = lines_view(lines@);
    let ghost old_cur = cur@;
    lines.push(cur);
    proof {
        assert(blob@.subrange(0, blob@.len() as int) =~= blob@);
        assert(lines_view(lines@) =~= old_lines.push(old_cur));
    }
    lines
}

fn parse_file_head_exec(ls: &Vec<Vec<u8>>, i: usize) -> (r: Result<(String, usize, bool), PatchError>)
    requires
        i < ls.len(),
    ensures
        match parse_file_head(lines_view(ls@), i as int) {
            Ok((path, j, framed)) => r is Ok && r->Ok_0.0@ == path && r->Ok_0.1 == j
                && r->Ok_0.2 == framed,
            Err(e) => r == Err::<(String, usize, bool), PatchError>(e),
        },
{
    let ghost sls = lines_view(ls@);
    let framed = has_prefix_exec(&ls[i], &index_marker_bytes());
    assert(sls[i as int] == ls@[i as int]@);
    let mut j = i;
    if framed {
        if i + 1 >= ls.len() {
            return Err(PatchError::MissingIndexTrailer);
        }
        assert(sls[i + 1] == ls@[i + 1]@);
        if !is_index_trailer(&ls[i + 1]) {
            return Err(PatchError::BadIndexTrailer);
        }
        j = i + 2;
    }
    if j >= ls.len() {
        return Err(PatchError::MissingRemovalLine);
    }
    assert(sls[j as int] == ls@[j as int]@);
    if !has_prefix_exec(&ls[j], &removal_marker_bytes()) {
        return Err(PatchError::BadRemovalLine);
    }
    if j + 1 >= ls.len() {
        return Err(PatchError::MissingAdditionLine);
    }
    assert(sls[j + 1] == ls@[j + 1]@);
    if !has_prefix_exec(&ls[j + 1], &addition_marker_bytes()) {
        return Err(PatchError::BadAdditionLine);
    }
    let removal = copy_from(&ls[j], 4);
    let addition = copy_from(&ls[j + 1], 4);
    if !(has_prefix_exec(&removal, &old_prefix_bytes()) && has_prefix_exec(
        &addition,
        &new_prefix_bytes(),
    )) {
        return Err(PatchError::PathsNotPrefixed);
    }
    let removal_path = copy_from(&removal, 2);
    let addition_path = copy_from(&addition, 2);
    if !equal_bytes(&removal_path, &addition_path) {
        return Err(PatchError::PathsNotEqual);
    }
    match decode_text(addition_path) {
        Some(path) => Ok((path, j + 2, framed)),
        None => Err(PatchError::PathNotText),
    }
}

pub open spec fn prepend_hunks(
    done: Seq<HunkView>,
    rest: Result<(Seq<HunkView>, int), PatchError>,
) -> Result<(Seq<HunkView>, int), PatchError> {
    match rest {
        Ok((hs, k)) => Ok((done + hs, k)),
        Err(e) => Err(e),
    }
}

fn parse_hunks_exec(ls: &Vec<Vec<u8>>, start: usize) -> (r: Result<(Vec<Hunk>, usize), PatchError>)
    requires
        start <= ls.len(),
    ensures
        match parse_hunks(lines_view(ls@), start as int) {
            Ok((hs, k)) => r is Ok && hunks_view(r->Ok_0.0@) == hs && r->Ok_0.1 == k,
            Err(e) => r == Err::<(Vec<Hunk>, usize), PatchError>(e),
        },
{
    let ghost sls = lines_view(ls@);
    let mut hunks: Vec<Hunk> = Vec::new();
    let mut i: usize = start;
    let marker = hunk_marker_bytes();
    proof {
        assert(Seq::<HunkView>::empty() + parse_hunks(sls, start as int)->Ok_0.0 =~= parse_hunks(
            sls,
            start as int,
        )->Ok_0.0);
        assert(hunks_view(hunks@) =~= Seq::<HunkView>::empty());
    }
    loop
        invariant
            start <= i <= ls.len(),
            sls == lines_view(ls@),
            marker@ == hunk_marker(),
            parse_hunks(sls, start as int) == prepend_hunks(
                hunks_view(hunks@),
                parse_hunks(sls, i as int),
            ),
        decreases ls.len() - i,
    {
        if i >= ls.len() {
            proof {
                assert(hunks_view(hunks@) + Seq::<HunkView>::empty() =~= hunks_view(hunks@));
            }
            return Ok((hunks, i));
        }
        assert(sls[i as int] == ls@[i as int]@);
        if ls[i].len() == 0 {
            proof {
                assert(hunks_view(hunks@) + Seq::<HunkView>::empty() =~= hunks_view(hunks@));
            }
            return Ok((hunks, i + 1));
        }
        if !has_prefix_exec(&ls[i], &marker) {
            return Err(PatchError::BadHunkMarker);
        }
        let spec = copy_from(&ls[i], 3);
        let mut lines: Vec<Vec<u8>> = Vec::new();
        let mut j: usize = i + 1;
        while j < ls.len() && !(ls[j].len() == 0 || ls[j][0] == 64u8)
            invariant
                i + 1 <= j <= ls.len(),
                sls == lines_view(ls@),
                lines_view(lines@) == sls.subrange(i + 1, j as int),
                body_end(sls, i + 1) == body_end(sls, j as int),
            decreases ls.len() - j,
        {
            assert(sls[j as int] == ls@[j as int]@);
            let ghost old_lines = lines_view(lines@);
            let c = copy_from(&ls[j], 0);
            proof {
                assert(ls@[j as int]@.subrange(0, ls@[j as int]@.len() as int) =~= ls@[j as int]@);
            }
            lines.push(c);
            proof {
                assert(lines_view(lines@) =~= old_lines.push(sls[j as int]));
                assert(sls.subrange(i + 1, j + 1) =~= sls.subrange(i + 1, j as int).push(
                    sls[j as int],
                ));
            }
            j += 1;
        }
        proof {
            if j < ls.len() {
                assert(sls[j as int] == ls@[j as int]@);
            }
            assert(body_end(sls, j as int) == j);
        }
        let ghost h: HunkView = (spec@, lines_view(lines@));
        let ghost old_hunks = hunks_view(hunks@);
        hunks.push(Hunk { spec, lines });
        proof {
            assert(hunks_view(hunks@) =~= old_hunks.push(h));
            match parse_hunks(sls, j as int) {
                Ok((hs, k)) => {
                    assert(old_hunks + (seq![h] + hs) =~= old_hunks.push(h) + hs);
                },
                Err(_) => {},
            }
        }
        i = j;
    }
}

fn record_file_exec(files: &mut Vec<FileChange>, f: FileChange)
    ensures
        files_view(final(files)@) == upsert(files_view(old(files)@), f@),
{
    let ghost fv = files_view(files@);
    let mut i: usize = 0;
    while i < files.len()
        invariant
            i <= files.len(),
            fv == files_view(files@),
            fv == files_view(old(files)@),
            forall|t: int| 0 <= t < i ==> fv[t].0 != f@.0,
        decreases files.len() - i,
    {
        if files[i].path == f.path {
            proof {
                assert(fv[i as int] == files@[i as int]@);
                lemma_find_key(fv, f@.0, i as int);
            }
            let ghost fval = f@;
            files.set(i, f);
            proof {
                assert(files_view(files@) =~= fv.update(i as int, fval));
            }
            return;
        }
        i += 1;
    }
    proof {
        lemma_find_key(fv, f@.0, i as int);
    }
    let ghost fval = f@;
    files.push(f);
    proof {
        assert(files_view(files@) =~= fv.push(fval));
    }
}

pub open spec fn prepend_files(
    done: Seq<FileView>,
    framed: bool,
    rest: Result<(Seq<FileView>, bool), PatchError>,
) -> Result<(Seq<FileView>, bool), PatchError> {
    match rest {
        Ok((fs, more)) => Ok((done + fs, framed || more)),
        Err(e) => Err(e),
    }
}

/// Parses a patch blob. Any departure from the grammar fails the whole
/// parse with the error of the first offending line.
pub fn parse(blob: &[u8]) -> (r: Result<Patch, PatchError>)
    ensures
        result_view(r) == parse_spec(blob@),
{
    let ls = split_blob_lines(blob);
    let ghost sls = lines_view(ls@);
    let removal = removal_marker_bytes();
    let index = index_marker_bytes();
    let mut header: Vec<u8> = Vec::new();
    let mut i: usize = 0;
    while i < ls.len() && !(has_prefix_exec(&ls[i], &removal) || has_prefix_exec(&ls[i], &index))
        invariant
            i <= ls.len(),
            sls == lines_view(ls@),
            sls == split_lines(blob@),
            removal@ == removal_marker(),
            index@ == index_marker(),
            header@ == header_of(sls, i as int),
            first_file_start(sls, 0) == first_file_start(sls, i as int),
        decreases ls.len() - i,
    {
        assert(sls[i as int] == ls@[i as int]@);
        let mut line = copy_from(&ls[i], 0);
        let ghost old_header = header@;
        header.append(&mut line);
        header.push(NEWLINE);
        proof {
            assert(ls@[i as int]@.subrange(0, ls@[i as int]@.len() as int) =~= ls@[i as int]@);
            assert(header@ =~= old_header + sls[i as int] + seq![NEWLINE]);
        }
        i += 1;
    }
    if i >= ls.len() {
        return Err(PatchError::NoPatch);
    }
    proof {
        assert(sls[i as int] == ls@[i as int]@);
        assert(first_file_start(sls, i as int) == i);
    }
    let ghost h = i as int;
    let mut files: Vec<FileChange> = Vec::new();
    let mut framed_any = false;
    let ghost mut done: Seq<FileView> = Seq::empty();
    let mut p: usize = i;
    proof {
        match parse_files(sls, h) {
            Ok((fs, m)) => {
                assert(done + fs =~= fs);
            },
            Err(_) => {},
        }
        assert(files_view(files@) =~= collect_files(done));
    }
    while p < ls.len()
        invariant
            h <= p <= ls.len(),
            sls == lines_view(ls@),
            sls == split_lines(blob@),
            h < sls.len(),
            first_file_start(sls, 0) == h,
            header@ == header_of(sls, h),
            files_view(files@) == collect_files(done),
            parse_files(sls, h) == prepend_files(done, framed_any, parse_files(sls, p as int)),
        decreases ls.len() - p,
    {
        let (path, j, framed) = match parse_file_head_exec(&ls, p) {
            Ok(t) => t,
            Err(e) => {
                return Err(e);
            },
        };
        proof {
            lemma_file_head_bounds(sls, p as int);
            lemma_parse_hunks_bounds(sls, j as int);
        }
        let (hunks, k) = match parse_hunks_exec(&ls, j) {
            Ok(t) => t,
            Err(e) => {
                return Err(e);
            },
        };
        let ghost f: FileView = (path@, hunks_view(hunks@));
        let ghost old_done = done;
        record_file_exec(&mut files, FileChange { path, hunks });
        proof {
            done = done.push(f);
            assert(done.drop_last() =~= old_done);
            match parse_files(sls, k as int) {
                Ok((fs, more)) => {
                    assert(old_done + (seq![f] + fs) =~= done + fs);
                },
                Err(_) => {},
            }
        }
        framed_any = framed_any || framed;
        p = k;
    }
    Ok(Patch { header, file_changes: files, have_index_markers: framed_any })
}

} // verus!
