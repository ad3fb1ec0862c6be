//! Comparison of file contents and of directory listings: what differs between two texts,
//! line by line, and between two lists of files, file by file. A listing may come in any
//! order: its files are compared in the order of their relative paths.

use vstd::prelude::*;
use crate::text::{
    from_chars, lemma_lines_count, lines, rows, same_chars, split_trimmed_lines, to_chars,
    trimmed_lines,
};

verus! {

/// How two texts compare.
#[derive(PartialEq, Eq, Debug)]
pub enum CompareContentResult {
    Eq,
    Diffs(Vec<Diff>),
}

/// A line in which two texts differ: its number, counted from 1, and what each text holds
/// there, trimmed.
#[derive(PartialEq, Eq, Debug)]
pub struct Diff {
    pub line_number: u32,
    pub left: String,
    pub right: String,
}

/// How two lists of files compare.
#[derive(PartialEq, Eq, Debug)]
pub enum CompareDirsContentResult {
    Eq,
    Diffs(Vec<DirDiff>),
}

/// A place in which two lists of files differ.
#[derive(PartialEq, Eq, Debug)]
pub enum DirDiff {
    /// The files at one place of the two lists have different relative paths, or one list
    /// has no file there.
    Path { left: Option<String>, right: Option<String> },
    /// The files at one place have the same relative path and different contents.
    FileContent { path: String, diffs: Vec<Diff> },
}

/// A file of a listing: its path as reports show it, the components of its path relative
/// to the listed directory, outermost first, and its text.
#[derive(PartialEq, Eq, Debug, Clone)]
pub struct ListedFile {
    pub path: String,
    pub relative: Vec<String>,
    pub content: String,
}

/// A file of a listing by its bytes: the components of its path relative to the listed
/// directory, outermost first, and its bytes.
pub type StoredFile = (Vec<String>, Vec<u8>);

/// What a `Diff` holds.
pub struct DiffView {
    pub line_number: int,
    pub left: Seq<char>,
    pub right: Seq<char>,
}

/// What a `DirDiff` holds.
pub enum DirDiffView {
    Path { left: Option<Seq<char>>, right: Option<Seq<char>> },
    FileContent { path: Seq<char>, diffs: Seq<DiffView> },
}

/// What a `ListedFile` holds.
pub struct ListedFileView {
    pub path: Seq<char>,
    pub relative: Seq<Seq<char>>,
    pub content: Seq<char>,
}

impl View for Diff {
    type V = DiffView;

    open spec fn view(&self) -> DiffView {
        DiffView { line_number: self.line_number as int, left: self.left@, right: self.right@ }
    }
}

/// What the differences hold.
pub open spec fn diff_views(diffs: Seq<Diff>) -> Seq<DiffView> {
    diffs.map_values(|d: Diff| d@)
}

/// The characters of a path, where there is one.
pub open spec fn path_view(path: Option<String>) -> Option<Seq<char>> {
    match path {
        Some(p) => Some(p@),
        None => None,
    }
}

impl View for DirDiff {
    type V = DirDiffView;

    open spec fn view(&self) -> DirDiffView {
        match self {
            DirDiff::Path { left, right } => DirDiffView::Path {
                left: path_view(*left),
                right: path_view(*right),
            },
            DirDiff::FileContent { path, diffs } => DirDiffView::FileContent {
                path: path@,
                diffs: diff_views(diffs@),
            },
        }
    }
}

impl View for ListedFile {
    type V = ListedFileView;

    open spec fn view(&self) -> ListedFileView {
        ListedFileView {
            path: self.path@,
            relative: component_views(self.relative@),
            content: self.content@,
        }
    }
}

impl View for CompareContentResult {
    type V = Seq<DiffView>;

    /// The lines that differ; none for `Eq`.
    open spec fn view(&self) -> Seq<DiffView> {
        match self {
            CompareContentResult::Eq => Seq::empty(),
            CompareContentResult::Diffs(diffs) => diff_views(diffs@),
        }
    }
}

impl View for CompareDirsContentResult {
    type V = Seq<DirDiffView>;

    /// The places that differ; none for `Eq`.
    open spec fn view(&self) -> Seq<DirDiffView> {
        match self {
            CompareDirsContentResult::Eq => Seq::empty(),
            CompareDirsContentResult::Diffs(diffs) => diffs@.map_values(|d: DirDiff| d@),
        }
    }
}

/// The components of a path.
pub open spec fn component_views(path: Seq<String>) -> Seq<Seq<char>> {
    path.map_values(|c: String| c@)
}

/// What the files of a listing hold.
pub open spec fn listing_views(files: Seq<ListedFile>) -> Seq<ListedFileView> {
    files.map_values(|f: ListedFile| f@)
}

/// What the files of a listing by bytes hold.
pub open spec fn stored_views(files: Seq<StoredFile>) -> Seq<(Seq<Seq<char>>, Seq<u8>)> {
    files.map_values(|f: StoredFile| (component_views(f.0@), f.1@))
}

/// From index `i` on, `a` stands at or before `b` in the order of texts: character by
/// character by code point, a text before every text that it begins.
pub open spec fn text_le(a: Seq<char>, b: Seq<char>, i: int) -> bool
    decreases a.len() - i,
{
    if i < 0 || i >= a.len() {
        true
    } else if i >= b.len() {
        false
    } else if (a[i] as u32) < (b[i] as u32) {
        true
    } else if (b[i] as u32) < (a[i] as u32) {
        false
    } else {
        text_le(a, b, i + 1)
    }
}

/// From component `i` on, the path `p` stands at or before the path `q` in the order of
/// paths: component by component in the order of texts, a path before every path that it
/// begins.
pub open spec fn path_le(p: Seq<Seq<char>>, q: Seq<Seq<char>>, i: int) -> bool
    decreases p.len() - i,
{
    if i < 0 || i >= p.len() {
        true
    } else if i >= q.len() {
        false
    } else if p[i] != q[i] {
        text_le(p[i], q[i], 0)
    } else {
        path_le(p, q, i + 1)
    }
}

/// Where path `k` goes among the first `j` entries of `order`: behind the last of them
/// whose path stands at or before it.
pub open spec fn slot(paths: Seq<Seq<Seq<char>>>, order: Seq<int>, k: int, j: int) -> int
    decreases j,
{
    if j <= 0 || j > order.len() {
        0
    } else if path_le(paths[order[j - 1]], paths[k], 0) {
        j
    } else {
        slot(paths, order, k, j - 1)
    }
}

/// The first `n` indices of `paths` in the order of their paths; of two equal paths the
/// one that comes first stays first.
pub open spec fn path_order(paths: Seq<Seq<Seq<char>>>, n: int) -> Seq<int>
    decreases n,
{
    if n <= 0 {
        Seq::empty()
    } else {
        let before = path_order(paths, n - 1);
        before.insert(slot(paths, before, n - 1, before.len() as int), n - 1)
    }
}

/// `items` in the given order.
pub open spec fn arranged<T>(items: Seq<T>, order: Seq<int>) -> Seq<T> {
    order.map_values(|k: int| items[k])
}

/// A listing in the order of its relative paths.
pub open spec fn in_path_order(files: Seq<ListedFileView>) -> Seq<ListedFileView> {
    arranged(
        files,
        path_order(files.map_values(|f: ListedFileView| f.relative), files.len() as int),
    )
}

/// A listing by bytes in the order of its relative paths.
pub open spec fn stored_in_path_order(files: Seq<(Seq<Seq<char>>, Seq<u8>)>) -> Seq<
    (Seq<Seq<char>>, Seq<u8>),
> {
    arranged(
        files,
        path_order(files.map_values(|f: (Seq<Seq<char>>, Seq<u8>)| f.0), files.len() as int),
    )
}

/// Of two texts one stands at or before the other.
pub proof fn lemma_text_le_total(a: Seq<char>, b: Seq<char>, i: int)
    requires
        0 <= i,
    ensures
        text_le(a, b, i) || text_le(b, a, i),
    decreases a.len() - i,
{
    if i < a.len() && i < b.len() && (a[i] as u32) == (b[i] as u32) {
        lemma_text_le_total(a, b, i + 1);
    }
}

/// Of two paths one stands at or before the other.
pub proof fn lemma_path_le_total(p: Seq<Seq<char>>, q: Seq<Seq<char>>, i: int)
    requires
        0 <= i,
    ensures
        path_le(p, q, i) || path_le(q, p, i),
    decreases p.len() - i,
{
    if i < p.len() && i < q.len() {
        if p[i] == q[i] {
            lemma_path_le_total(p, q, i + 1);
        } else {
            lemma_text_le_total(p[i], q[i], 0);
        }
    }
}

/// What a slot is: the entry before it, if there is one, stands at or before the path, and
/// no entry from it on does.
proof fn lemma_slot(paths: Seq<Seq<Seq<char>>>, order: Seq<int>, k: int, j: int)
    requires
        0 <= j <= order.len(),
    ensures
        0 <= slot(paths, order, k, j) <= j,
        slot(paths, order, k, j) > 0 ==> path_le(
            paths[order[slot(paths, order, k, j) - 1]],
            paths[k],
            0,
        ),
        forall|m: int|
            slot(paths, order, k, j) <= m < j ==> !path_le(paths[#[trigger] order[m]], paths[k], 0),
    decreases j,
{
    if j > 0 && !path_le(paths[order[j - 1]], paths[k], 0) {
        lemma_slot(paths, order, k, j - 1);
    }
}

/// The order of `n` paths holds each of the indices `0` to `n - 1` once.
pub proof fn lemma_path_order_arranges(paths: Seq<Seq<Seq<char>>>, n: int)
    requires
        0 <= n,
    ensures
        path_order(paths, n).len() == n,
        forall|i: int| 0 <= i < n ==> 0 <= #[trigger] path_order(paths, n)[i] < n,
        path_order(paths, n).no_duplicates(),
        forall|k: int| 0 <= k < n ==> path_order(paths, n).contains(k),
    decreases n,
{
    if n > 0 {
        let before = path_order(paths, n - 1);
        lemma_path_order_arranges(paths, n - 1);
        let j = slot(paths, before, n - 1, before.len() as int);
        lemma_slot(paths, before, n - 1, before.len() as int);
        before.insert_ensures(j, n - 1);
        let now = path_order(paths, n);
        assert forall|i: int| 0 <= i < n implies 0 <= #[trigger] now[i] < n by {
            if i < j {
                assert(now[i] == before[i]);
            } else if i > j {
                assert(now[(i - 1) + 1] == before[i - 1]);
            }
        }
        assert forall|a: int, b: int| 0 <= a < n && 0 <= b < n && a != b implies now[a]
            != now[b] by {
            if a > j {
                assert(now[(a - 1) + 1] == before[a - 1]);
            }
            if b > j {
                assert(now[(b - 1) + 1] == before[b - 1]);
            }
            if a < j {
                assert(now[a] == before[a]);
            }
            if b < j {
                assert(now[b] == before[b]);
            }
        }
        assert forall|k: int| 0 <= k < n implies now.contains(k) by {
            if k == n - 1 {
                assert(now[j] == k);
            } else {
                assert(before.contains(k));
                let w = choose|w: int| 0 <= w < before.len() && before[w] == k;
                if w < j {
                    assert(now[w] == k);
                } else {
                    assert(now[w + 1] == k);
                }
            }
        }
    }
}

/// In the order of `n` paths each path stands at or before the next.
pub proof fn lemma_path_order_ascends(paths: Seq<Seq<Seq<char>>>, n: int)
    requires
        0 <= n,
    ensures
        forall|i: int|
            0 <= i && i + 1 < n ==> path_le(
                paths[#[trigger] path_order(paths, n)[i]],
                paths[path_order(paths, n)[i + 1]],
                0,
            ),
    decreases n,
{
    if n > 0 {
        let before = path_order(paths, n - 1);
        lemma_path_order_arranges(paths, n - 1);
        lemma_path_order_ascends(paths, n - 1);
        let j = slot(paths, before, n - 1, before.len() as int);
        lemma_slot(paths, before, n - 1, before.len() as int);
        before.insert_ensures(j, n - 1);
        let now = path_order(paths, n);
        assert forall|i: int| 0 <= i && i + 1 < n implies path_le(
            paths[#[trigger] now[i]],
            paths[now[i + 1]],
            0,
        ) by {
            if i + 1 < j {
                assert(now[i] == before[i]);
                assert(now[i + 1] == before[i + 1]);
            } else if i + 1 == j {
                assert(now[i] == before[i]);
            } else if i == j {
                assert(now[j + 1] == before[j]);
                assert(!path_le(paths[before[j]], paths[n - 1], 0));
                lemma_path_le_total(paths[n - 1], paths[before[j]], 0);
            } else {
                assert(now[(i - 1) + 1] == before[i - 1]);
                assert(now[i + 1] == before[i]);
            }
        }
    }
}

/// The characters of each component of a path.
fn path_chars(path: &Vec<String>) -> (r: Vec<Vec<char>>)
    ensures
        rows(r@) == component_views(path@),
{
    let mut out: Vec<Vec<char>> = Vec::new();
    let mut i: usize = 0;
    while i < path.len()
        invariant
            i <= path.len(),
            out.len() == i,
            forall|j: int| 0 <= j < i ==> (#[trigger] out[j])@ == path[j]@,
        decreases path.len() - i,
    {
        out.push(to_chars(path[i].as_str()));
        i += 1;
    }
    assert(rows(out@) =~= component_views(path@));
    out
}

/// Whether `a` stands at or before `b` in the order of texts.
fn text_before(a: &Vec<char>, b: &Vec<char>) -> (r: bool)
    ensures
        r == text_le(a@, b@, 0),
{
    let mut i: usize = 0;
    while i < a.len()
        invariant
            i <= a.len(),
            text_le(a@, b@, 0) == text_le(a@, b@, i as int),
        decreases a.len() - i,
    {
        if i >= b.len() {
            return false;
        }
        if (a[i] as u32) < (b[i] as u32) {
            return true;
        }
        if (b[i] as u32) < (a[i] as u32) {
            return false;
        }
        i += 1;
    }
    true
}

/// Whether the path `p` stands at or before the path `q` in the order of paths.
fn path_before(p: &Vec<Vec<char>>, q: &Vec<Vec<char>>) -> (r: bool)
    ensures
        r == path_le(rows(p@), rows(q@), 0),
{
    let mut i: usize = 0;
    while i < p.len()
        invariant
            i <= p.len(),
            path_le(rows(p@), rows(q@), 0) == path_le(rows(p@), rows(q@), i as int),
        decreases p.len() - i,
    {
        if i >= q.len() {
            return false;
        }
        assert(rows(p@)[i as int] == p[i as int]@);
        assert(rows(q@)[i as int] == q[i as int]@);
        if !same_chars(&p[i], &q[i]) {
            return text_before(&p[i], &q[i]);
        }
        i += 1;
    }
    true
}

/// Whether two paths have the same components.
fn same_path(p: &Vec<Vec<char>>, q: &Vec<Vec<char>>) -> (r: bool)
    ensures
        r == (rows(p@) == rows(q@)),
{
    if p.len() != q.len() {
        assert(rows(p@).len() != rows(q@).len());
        return false;
    }
    let mut i: usize = 0;
    while i < p.len()
        invariant
            i <= p.len(),
            p.len() == q.len(),
            forall|j: int| 0 <= j < i ==> (#[trigger] p[j])@ == q[j]@,
        decreases p.len() - i,
    {
        if !same_chars(&p[i], &q[i]) {
            assert(rows(p@)[i as int] != rows(q@)[i as int]);
            return false;
        }
        i += 1;
    }
    assert(rows(p@) =~= rows(q@));
    true
}

/// The paths that the vectors hold.
pub open spec fn path_rows(keys: Seq<Vec<Vec<char>>>) -> Seq<Seq<Seq<char>>> {
    keys.map_values(|k: Vec<Vec<char>>| rows(k@))
}

/// The indices that the vector holds.
pub open spec fn indices(order: Seq<usize>) -> Seq<int> {
    order.map_values(|k: usize| k as int)
}

/// The indices of `keys` in the order of their paths.
fn sort_paths(keys: &Vec<Vec<Vec<char>>>) -> (order: Vec<usize>)
    ensures
        order.len() == keys.len(),
        forall|i: int| 0 <= i < order.len() ==> (#[trigger] order[i]) < keys.len(),
        indices(order@) == path_order(path_rows(keys@), keys.len() as int),
{
    let ghost paths = path_rows(keys@);
    let mut order: Vec<usize> = Vec::new();
    let mut k: usize = 0;
    assert(indices(order@) =~= path_order(paths, 0));
    while k < keys.len()
        invariant
            k <= keys.len(),
            paths == path_rows(keys@),
            order.len() == k,
            forall|i: int| 0 <= i < order.len() ==> (#[trigger] order[i]) < k,
            indices(order@) == path_order(paths, k as int),
        decreases keys.len() - k,
    {
        let ghost before = indices(order@);
        let mut j: usize = order.len();
        while j > 0 && !path_before(&keys[order[j - 1]], &keys[k])
            invariant
                j <= order.len(),
                k < keys.len(),
                paths == path_rows(keys@),
                before == indices(order@),
                forall|i: int| 0 <= i < order.len() ==> (#[trigger] order[i]) < k,
                slot(paths, before, k as int, before.len() as int) == slot(
                    paths,
                    before,
                    k as int,
                    j as int,
                ),
            decreases j,
        {
            assert(before[j - 1] == order[j - 1]);
            assert(paths[order[j - 1] as int] == rows(keys[order[j - 1] as int]@));
            assert(paths[k as int] == rows(keys[k as int]@));
            j -= 1;
        }
        proof {
            if j > 0 {
                assert(before[j - 1] == order[j - 1]);
                assert(paths[order[j - 1] as int] == rows(keys[order[j - 1] as int]@));
                assert(paths[k as int] == rows(keys[k as int]@));
            }
            assert(slot(paths, before, k as int, before.len() as int) == j);
        }
        order.insert(j, k);
        assert(indices(order@) =~= before.insert(j as int, k as int));
        k += 1;
    }
    order
}

/// Line `k` of `lines`, or the empty line where there is none.
pub open spec fn line_at(lines: Seq<Seq<char>>, k: int) -> Seq<char> {
    if 0 <= k < lines.len() {
        lines[k]
    } else {
        Seq::empty()
    }
}

/// The greater of two lengths.
pub open spec fn longer(a: int, b: int) -> int {
    if a >= b {
        a
    } else {
        b
    }
}

/// The differences among the first `k` lines of two texts given by their trimmed lines.
pub open spec fn diffs_upto(left: Seq<Seq<char>>, right: Seq<Seq<char>>, k: int) -> Seq<DiffView>
    decreases k,
{
    if k <= 0 {
        Seq::empty()
    } else {
        let before = diffs_upto(left, right, k - 1);
        let a = line_at(left, k - 1);
        let b = line_at(right, k - 1);
        if a != b {
            before.push(DiffView { line_number: k, left: a, right: b })
        } else {
            before
        }
    }
}

/// The lines in which two texts differ once each line is trimmed. A text that is shorter
/// than the other counts as having empty lines behind its end.
pub open spec fn content_diffs(left: Seq<char>, right: Seq<char>) -> Seq<DiffView> {
    let a = trimmed_lines(left);
    let b = trimmed_lines(right);
    diffs_upto(a, b, longer(a.len() as int, b.len() as int))
}

/// What the place `i` of two listings contributes to their differences.
pub open spec fn place_diffs(left: Seq<ListedFileView>, right: Seq<ListedFileView>, i: int) -> Seq<
    DirDiffView,
> {
    if i >= left.len() {
        seq![DirDiffView::Path { left: None, right: Some(right[i].path) }]
    } else if i >= right.len() {
        seq![DirDiffView::Path { left: Some(left[i].path), right: None }]
    } else if left[i].relative != right[i].relative {
        seq![DirDiffView::Path { left: Some(left[i].path), right: Some(right[i].path) }]
    } else {
        let diffs = content_diffs(left[i].content, right[i].content);
        if diffs.len() > 0 {
            seq![DirDiffView::FileContent { path: left[i].path, diffs }]
        } else {
            Seq::empty()
        }
    }
}

/// The differences among the first `k` places of two listings.
pub open spec fn dir_diffs_upto(left: Seq<ListedFileView>, right: Seq<ListedFileView>, k: int)
    -> Seq<DirDiffView>
    decreases k,
{
    if k <= 0 {
        Seq::empty()
    } else {
        dir_diffs_upto(left, right, k - 1) + place_diffs(left, right, k - 1)
    }
}

/// The differences of two listings, place by place.
pub open spec fn dir_diffs(left: Seq<ListedFileView>, right: Seq<ListedFileView>) -> Seq<
    DirDiffView,
> {
    dir_diffs_upto(left, right, longer(left.len() as int, right.len() as int))
}

/// Whether two files hold the same bytes.
pub fn files_are_same(file1: &Vec<u8>, file2: &Vec<u8>) -> (r: bool)
    ensures
        r == (file1@ == file2@),
{
    if file1.len() != file2.len() {
        return false;
    }
    let mut i: usize = 0;
    while i < file1.len()
        invariant
            i <= file1.len(),
            file1.len() == file2.len(),
            forall|j: int| 0 <= j < i ==> file1[j] == file2[j],
        decreases file1.len() - i,
    {
        if file1[i] != file2[i] {
            return false;
        }
        i += 1;
    }
    assert(file1@ =~= file2@);
    true
}

/// The paths of the files of a listing by bytes.
fn stored_keys(dir: &Vec<StoredFile>) -> (keys: Vec<Vec<Vec<char>>>)
    ensures
        keys.len() == dir.len(),
        path_rows(keys@) == stored_views(dir@).map_values(
            |f: (Seq<Seq<char>>, Seq<u8>)| f.0,
        ),
{
    let mut keys: Vec<Vec<Vec<char>>> = Vec::new();
    let mut i: usize = 0;
    while i < dir.len()
        invariant
            i <= dir.len(),
            keys.len() == i,
            forall|j: int| 0 <= j < i ==> rows((#[trigger] keys[j])@) == component_views(dir[j].0@),
        decreases dir.len() - i,
    {
        keys.push(path_chars(&dir[i].0));
        i += 1;
    }
    assert(path_rows(keys@) =~= stored_views(dir@).map_values(
        |f: (Seq<Seq<char>>, Seq<u8>)| f.0,
    ));
    keys
}

/// The paths of the files of a listing.
fn listed_keys(dir: &Vec<ListedFile>) -> (keys: Vec<Vec<Vec<char>>>)
    ensures
        keys.len() == dir.len(),
        path_rows(keys@) == listing_views(dir@).map_values(|f: ListedFileView| f.relative),
{
    let mut keys: Vec<Vec<Vec<char>>> = Vec::new();
    let mut i: usize = 0;
    while i < dir.len()
        invariant
            i <= dir.len(),
            keys.len() == i,
            forall|j: int|
                0 <= j < i ==> rows((#[trigger] keys[j])@) == component_views(dir[j].relative@),
        decreases dir.len() - i,
    {
        keys.push(path_chars(&dir[i].relative));
        i += 1;
    }
    assert(path_rows(keys@) =~= listing_views(dir@).map_values(|f: ListedFileView| f.relative));
    keys
}

/// Whether two listings hold the same files: as many, and, both taken in the order of their
/// relative paths, at each place the same relative path and the same bytes.
pub fn dirs_contents_are_same(dir1: &Vec<StoredFile>, dir2: &Vec<StoredFile>) -> (r: bool)
    ensures
        r == (stored_in_path_order(stored_views(dir1@)) == stored_in_path_order(
            stored_views(dir2@),
        )),
{
    let ghost left = stored_in_path_order(stored_views(dir1@));
    let ghost right = stored_in_path_order(stored_views(dir2@));
    let keys1 = stored_keys(dir1);
    let keys2 = stored_keys(dir2);
    let order1 = sort_paths(&keys1);
    let order2 = sort_paths(&keys2);
    assert(left.len() == dir1.len() && right.len() == dir2.len()) by {
        assert(indices(order1@).len() == order1.len());
        assert(indices(order2@).len() == order2.len());
        assert(stored_views(dir1@).len() == dir1.len());
        assert(stored_views(dir2@).len() == dir2.len());
    }
    if dir1.len() != dir2.len() {
        return false;
    }
    let mut i: usize = 0;
    while i < dir1.len()
        invariant
            i <= dir1.len(),
            dir1.len() == dir2.len(),
            left == stored_in_path_order(stored_views(dir1@)),
            right == stored_in_path_order(stored_views(dir2@)),
            left.len() == dir1.len(),
            right.len() == dir2.len(),
            keys1.len() == dir1.len(),
            keys2.len() == dir2.len(),
            order1.len() == dir1.len(),
            order2.len() == dir2.len(),
            forall|j: int| 0 <= j < order1.len() ==> (#[trigger] order1[j]) < dir1.len(),
            forall|j: int| 0 <= j < order2.len() ==> (#[trigger] order2[j]) < dir2.len(),
            indices(order1@) == path_order(path_rows(keys1@), keys1.len() as int),
            indices(order2@) == path_order(path_rows(keys2@), keys2.len() as int),
            path_rows(keys1@) == stored_views(dir1@).map_values(
                |f: (Seq<Seq<char>>, Seq<u8>)| f.0,
            ),
            path_rows(keys2@) == stored_views(dir2@).map_values(
                |f: (Seq<Seq<char>>, Seq<u8>)| f.0,
            ),
            forall|j: int| 0 <= j < i ==> left[j] == right[j],
        decreases dir1.len() - i,
    {
        let a: usize = order1[i];
        let b: usize = order2[i];
        proof {
            assert(indices(order1@)[i as int] == a);
            assert(indices(order2@)[i as int] == b);
            assert(left[i as int] == stored_views(dir1@)[a as int]);
            assert(right[i as int] == stored_views(dir2@)[b as int]);
            assert(path_rows(keys1@)[a as int] == rows(keys1[a as int]@));
            assert(path_rows(keys2@)[b as int] == rows(keys2[b as int]@));
        }
        if !same_path(&keys1[a], &keys2[b]) || !files_are_same(&dir1[a].1, &dir2[b].1) {
            assert(left[i as int] != right[i as int]);
            return false;
        }
        i += 1;
    }
    assert(left =~= right);
    true
}

/// The text is short enough for its lines to be numbered.
pub open spec fn countable(text: Seq<char>) -> bool {
    text.len() < u32::MAX
}

/// Compares two texts line by line. Lines are trimmed before they are compared; where one
/// text has fewer lines, its missing lines count as empty.
pub fn compare_files_content(file1: &str, file2: &str) -> (r: CompareContentResult)
    requires
        countable(file1@),
        countable(file2@),
    ensures
        r@ == content_diffs(file1@, file2@),
        r is Eq <==> content_diffs(file1@, file2@).len() == 0,
{
    let left = split_trimmed_lines(&to_chars(file1));
    let right = split_trimmed_lines(&to_chars(file2));
    proof {
        lemma_lines_count(file1@, 0);
        lemma_lines_count(file2@, 0);
        assert(rows(left@).len() == left.len());
        assert(rows(right@).len() == right.len());
        assert(trimmed_lines(file1@).len() == lines(file1@).len());
        assert(trimmed_lines(file2@).len() == lines(file2@).len());
    }
    let count: usize = if left.len() >= right.len() {
        left.len()
    } else {
        right.len()
    };
    let empty: Vec<char> = Vec::new();
    let mut diffs: Vec<Diff> = Vec::new();
    let mut k: usize = 0;
    let mut line_number: u32 = 1;
    while k < count
        invariant
            k <= count,
            count < u32::MAX,
            count == longer(left.len() as int, right.len() as int),
            line_number == k + 1,
            empty@ == Seq::<char>::empty(),
            diff_views(diffs@) == diffs_upto(rows(left@), rows(right@), k as int),
        decreases count - k,
    {
        let a: &Vec<char> = if k < left.len() {
            &left[k]
        } else {
            &empty
        };
        let b: &Vec<char> = if k < right.len() {
            &right[k]
        } else {
            &empty
        };
        assert(a@ == line_at(rows(left@), k as int));
        assert(b@ == line_at(rows(right@), k as int));
        if !same_chars(a, b) {
            let ghost before = diffs@;
            let diff = Diff { line_number, left: from_chars(a), right: from_chars(b) };
            diffs.push(diff);
            assert(diff_views(diffs@) =~= diff_views(before).push(diff@));
        }
        k += 1;
        line_number += 1;
    }
    if diffs.len() == 0 {
        assert(diff_views(diffs@) =~= Seq::empty());
        CompareContentResult::Eq
    } else {
        assert(diff_views(diffs@).len() == diffs.len());
        CompareContentResult::Diffs(diffs)
    }
}

/// Compares two listings, both taken in the order of their relative paths, place by place.
/// Where one listing has no file at a place, or the relative paths differ, the place is
/// reported by its paths; where the paths agree and the texts differ, it is reported with
/// the lines that differ.
pub fn compare_dirs_content(dir1: &Vec<ListedFile>, dir2: &Vec<ListedFile>) -> (r:
    CompareDirsContentResult)
    requires
        forall|i: int| 0 <= i < dir1.len() ==> countable((#[trigger] dir1[i]).content@),
        forall|i: int| 0 <= i < dir2.len() ==> countable((#[trigger] dir2[i]).content@),
    ensures
        r@ == dir_diffs(
            in_path_order(listing_views(dir1@)),
            in_path_order(listing_views(dir2@)),
        ),
        r is Eq <==> dir_diffs(
            in_path_order(listing_views(dir1@)),
            in_path_order(listing_views(dir2@)),
        ).len() == 0,
{
    let ghost left = in_path_order(listing_views(dir1@));
    let ghost right = in_path_order(listing_views(dir2@));
    let keys1 = listed_keys(dir1);
    let keys2 = listed_keys(dir2);
    let order1 = sort_paths(&keys1);
    let order2 = sort_paths(&keys2);
    assert(left.len() == dir1.len() && right.len() == dir2.len()) by {
        assert(indices(order1@).len() == order1.len());
        assert(indices(order2@).len() == order2.len());
        assert(listing_views(dir1@).len() == dir1.len());
        assert(listing_views(dir2@).len() == dir2.len());
    }
    let count: usize = if dir1.len() >= dir2.len() {
        dir1.len()
    } else {
        dir2.len()
    };
    let mut diffs: Vec<DirDiff> = Vec::new();
    let mut i: usize = 0;
    while i < count
        invariant
            i <= count,
            count == longer(dir1.len() as int, dir2.len() as int),
            left == in_path_order(listing_views(dir1@)),
            right == in_path_order(listing_views(dir2@)),
            left.len() == dir1.len(),
            right.len() == dir2.len(),
            keys1.len() == dir1.len(),
            keys2.len() == dir2.len(),
            order1.len() == dir1.len(),
            order2.len() == dir2.len(),
            forall|j: int| 0 <= j < order1.len() ==> (#[trigger] order1[j]) < dir1.len(),
            forall|j: int| 0 <= j < order2.len() ==> (#[trigger] order2[j]) < dir2.len(),
            indices(order1@) == path_order(path_rows(keys1@), keys1.len() as int),
            indices(order2@) == path_order(path_rows(keys2@), keys2.len() as int),
            path_rows(keys1@) == listing_views(dir1@).map_values(|f: ListedFileView| f.relative),
            path_rows(keys2@) == listing_views(dir2@).map_values(|f: ListedFileView| f.relative),
            forall|j: int| 0 <= j < dir1.len() ==> countable((#[trigger] dir1[j]).content@),
            forall|j: int| 0 <= j < dir2.len() ==> countable((#[trigger] dir2[j]).content@),
            diffs@.map_values(|d: DirDiff| d@) == dir_diffs_upto(left, right, i as int),
        decreases count - i,
    {
        let ghost before = diffs@.map_values(|d: DirDiff| d@);
        if i >= dir1.len() {
            let b: usize = order2[i];
            assert(indices(order2@)[i as int] == b);
            assert(right[i as int] == dir2[b as int]@);
            let diff = DirDiff::Path { left: None, right: Some(dir2[b].path.clone()) };
            diffs.push(diff);
            assert(diffs@.map_values(|d: DirDiff| d@) =~= before + seq![diff@]);
        } else if i >= dir2.len() {
            let a: usize = order1[i];
            assert(indices(order1@)[i as int] == a);
            assert(left[i as int] == dir1[a as int]@);
            let diff = DirDiff::Path { left: Some(dir1[a].path.clone()), right: None };
            diffs.push(diff);
            assert(diffs@.map_values(|d: DirDiff| d@) =~= before + seq![diff@]);
        } else {
            let a: usize = order1[i];
            let b: usize = order2[i];
            proof {
                assert(indices(order1@)[i as int] == a);
                assert(indices(order2@)[i as int] == b);
                assert(left[i as int] == dir1[a as int]@);
                assert(right[i as int] == dir2[b as int]@);
                assert(path_rows(keys1@)[a as int] == rows(keys1[a as int]@));
                assert(path_rows(keys2@)[b as int] == rows(keys2[b as int]@));
                assert(listing_views(dir1@).map_values(|f: ListedFileView| f.relative)[a as int]
                    == dir1[a as int]@.relative);
                assert(listing_views(dir2@).map_values(|f: ListedFileView| f.relative)[b as int]
                    == dir2[b as int]@.relative);
            }
            if !same_path(&keys1[a], &keys2[b]) {
                let diff = DirDiff::Path {
                    left: Some(dir1[a].path.clone()),
                    right: Some(dir2[b].path.clone()),
                };
                diffs.push(diff);
                assert(diffs@.map_values(|d: DirDiff| d@) =~= before + seq![diff@]);
            } else {
                match compare_files_content(dir1[a].content.as_str(), dir2[b].content.as_str()) {
                    CompareContentResult::Eq => {
                        assert(before + Seq::<DirDiffView>::empty() =~= before);
                    },
                    CompareContentResult::Diffs(file_diffs) => {
                        let diff = DirDiff::FileContent {
                            path: dir1[a].path.clone(),
                            diffs: file_diffs,
                        };
                        diffs.push(diff);
                        assert(diffs@.map_values(|d: DirDiff| d@) =~= before + seq![diff@]);
                    },
                }
            }
        }
        i += 1;
    }
    if diffs.len() == 0 {
        assert(diffs@.map_values(|d: DirDiff| d@) =~= Seq::empty());
        CompareDirsContentResult::Eq
    } else {
        assert(diffs@.map_values(|d: DirDiff| d@).len() == diffs.len());
        CompareDirsContentResult::Diffs(diffs)
    }
}

} // verus!
