//! Where the bytes of pieces fall in the files of a multi-file torrent.
use vstd::prelude::*;
use crate::metainfo::{File, FileSpec, total_length};
use crate::bencode::texts;
use vstd::string::{StrSliceExecFns, StringExecFns};

verus! {

/// Byte offset at which file `i` starts: the sizes of the files before it.
pub open spec fn file_offset(files: Seq<File>, i: int) -> nat
    decreases i,
{
    if i <= 0 {
        0
    } else {
        file_offset(files, i - 1) + files[i - 1].length as nat
    }
}

/// File `i` overlaps the bytes `start .. end` (an empty file counts when it sits at or after
/// `start`).
pub open spec fn in_bounds(files: Seq<File>, i: int, start: int, end: int) -> bool {
    let fs = file_offset(files, i);
    let fe = file_offset(files, i + 1);
    fs < end && (fe > start || (files[i].length == 0 && fe >= start))
}

/// The first file, from `i` on, that overlaps the bytes (or the number of files).
pub open spec fn first_in_bounds(files: Seq<File>, i: int, start: int, end: int) -> int
    decreases files.len() - i,
{
    if i < 0 || i >= files.len() {
        files.len() as int
    } else if in_bounds(files, i, start, end) {
        i
    } else {
        first_in_bounds(files, i + 1, start, end)
    }
}

proof fn lemma_file_offset_mono(files: Seq<File>, i: int, j: int)
    requires
        0 <= i <= j <= files.len(),
    ensures
        file_offset(files, i) <= file_offset(files, j),
    decreases j - i,
{
    if i < j {
        lemma_file_offset_mono(files, i, j - 1);
    }
}

/// File `i`, taken to start at byte `fs`, lies outside the bytes `start .. end` (an empty
/// file counts as inside when it sits at or after `start`).
pub open spec fn passed_over(files: Seq<File>, i: int, fs: int, start: int, end: int) -> bool {
    let fe = fs + files[i].length;
    fs >= end || (fe <= start && files[i].length > 0) || (fe < start && files[i].length == 0)
}

/// The part of file `i`, taken to start at byte `fs`, within the bytes `start .. end`: the
/// file's index, where the part starts and ends relative to `start`, and how many of the
/// file's bytes lie before and after it.
pub open spec fn part_at(files: Seq<File>, i: int, fs: int, start: int, end: int) -> (int, int, int, int, int) {
    let fe = fs + files[i].length;
    let lo = if start > fs {
        start
    } else {
        fs
    };
    let hi = if end < fe {
        end
    } else {
        fe
    };
    (i, lo - start, hi - start, lo - fs, fe - hi)
}

/// The parts a walk hands out from file `i` on, that file taken to start at byte `fs`: one
/// per file until a file lies outside the bytes.
pub open spec fn walk_from(files: Seq<File>, start: int, end: int, i: int, fs: int) -> Seq<(int, int, int, int, int)>
    decreases files.len() - i,
{
    if i < 0 || i >= files.len() || passed_over(files, i, fs, start, end) {
        Seq::empty()
    } else {
        seq![part_at(files, i, fs, start, end)] + walk_from(files, start, end, i + 1, fs + files[i].length)
    }
}

/// The parts a walk over the bytes `start .. end` hands out, from the first file that
/// overlaps them.
pub open spec fn walk(files: Seq<File>, start: int, end: int) -> Seq<(int, int, int, int, int)> {
    let i0 = first_in_bounds(files, 0, start, end);
    walk_from(files, start, end, i0, file_offset(files, i0) as int)
}

proof fn lemma_first_in_bounds(files: Seq<File>, j: int, start: int, end: int)
    requires
        0 <= j <= files.len(),
    ensures
        j <= first_in_bounds(files, j, start, end) <= files.len(),
        first_in_bounds(files, j, start, end) < files.len() ==> in_bounds(
            files,
            first_in_bounds(files, j, start, end),
            start,
            end,
        ),
        forall|i: int| j <= i < first_in_bounds(files, j, start, end) ==> !#[trigger] in_bounds(files, i, start, end),
    decreases files.len() - j,
{
    if j < files.len() && !in_bounds(files, j, start, end) {
        lemma_first_in_bounds(files, j + 1, start, end);
    }
}

/// Some file holds byte `x` when `x` lies before the end of file `k - 1`.
proof fn lemma_locate(files: Seq<File>, k: int, x: int)
    requires
        0 <= k <= files.len(),
        0 <= x < file_offset(files, k),
    ensures
        exists|i: int| 0 <= i < k && file_offset(files, i) <= x < #[trigger] file_offset(files, i + 1),
    decreases k,
{
    if x < file_offset(files, k - 1) {
        lemma_locate(files, k - 1, x);
        let i = choose|i: int| 0 <= i < k - 1 && file_offset(files, i) <= x < #[trigger] file_offset(files, i + 1);
        assert(file_offset(files, i + 1) > x);
    } else {
        assert(file_offset(files, (k - 1) + 1) > x);
    }
}

/// The walk from an overlapping file `i` runs over consecutive overlapping files, each part
/// what `part_at` gives, and ends at the first file that does not overlap, after which none
/// does.
proof fn lemma_walk_from(files: Seq<File>, start: int, end: int, i: int)
    requires
        0 <= i <= files.len(),
        0 <= start <= end,
        i < files.len() ==> in_bounds(files, i, start, end),
    ensures
        ({
            let w = walk_from(files, start, end, i, file_offset(files, i) as int);
            &&& i + w.len() <= files.len()
            &&& i < files.len() ==> w.len() >= 1
            &&& forall|k: int| 0 <= k < w.len() ==> (#[trigger] w[k]) == part_at(
                files,
                i + k,
                file_offset(files, i + k) as int,
                start,
                end,
            ) && in_bounds(files, i + k, start, end)
            &&& forall|m: int| i + w.len() <= m < files.len() ==> !#[trigger] in_bounds(files, m, start, end)
            &&& i + w.len() < files.len() ==> file_offset(files, i + w.len()) >= end
        }),
    decreases files.len() - i,
{
    let fs = file_offset(files, i) as int;
    if i >= files.len() {
    } else {
        assert(file_offset(files, i + 1) == fs + files[i].length);
        assert(!passed_over(files, i, fs, start, end));
        let fe = fs + files[i].length;
        // The next file starts at or after `start`.
        assert(fe >= start);
        if i + 1 < files.len() && in_bounds(files, i + 1, start, end) {
            lemma_walk_from(files, start, end, i + 1);
        } else {
            let rest = walk_from(files, start, end, i + 1, fe);
            if i + 1 < files.len() {
                assert(passed_over(files, i + 1, fe, start, end));
                assert(fe >= end);
                assert forall|m: int| i + 1 <= m < files.len() implies !#[trigger] in_bounds(files, m, start, end) by {
                    lemma_file_offset_mono(files, i + 1, m);
                }
            }
            assert(rest.len() == 0);
        }
        let w = walk_from(files, start, end, i, fs);
        let rest = walk_from(files, start, end, i + 1, fe);
        assert(w == seq![part_at(files, i, fs, start, end)] + rest);
        assert forall|k: int| 0 <= k < w.len() implies (#[trigger] w[k]) == part_at(
            files,
            i + k,
            file_offset(files, i + k) as int,
            start,
            end,
        ) && in_bounds(files, i + k, start, end) by {
            if k > 0 {
                assert(w[k] == rest[k - 1]);
                assert(i + 1 + (k - 1) == i + k);
            }
        }
    }
}

proof fn lemma_walk_parts(files: Seq<File>, start: int, end: int)
    requires
        0 <= start < end,
    ensures
        ({
            let w = walk(files, start, end);
            let i0 = first_in_bounds(files, 0, start, end);
            &&& forall|i: int| 0 <= i < files.len() ==> (#[trigger] in_bounds(files, i, start, end) <==> i0
                <= i < i0 + w.len())
            &&& forall|k: int| 0 <= k < w.len() ==> (#[trigger] w[k]).0 == i0 + k
            &&& forall|k: int| 0 <= k < w.len() ==> (#[trigger] w[k]).3 + (w[k].2 - w[k].1) + w[k].4
                == files[w[k].0].length
        }),
{
    let n = files.len() as int;
    let i0 = first_in_bounds(files, 0, start, end);
    lemma_first_in_bounds(files, 0, start, end);
    lemma_walk_from(files, start, end, i0);
    let w = walk(files, start, end);
    assert forall|k: int| 0 <= k < w.len() implies (#[trigger] w[k]).3 + (w[k].2 - w[k].1) + w[k].4
        == files[w[k].0].length by {
        assert(w[k] == part_at(files, i0 + k, file_offset(files, i0 + k) as int, start, end));
        assert(file_offset(files, i0 + k + 1) == file_offset(files, i0 + k) + files[i0 + k].length);
    }
    assert forall|k: int| 0 <= k < w.len() implies (#[trigger] w[k]).0 == i0 + k by {
        assert(w[k] == part_at(files, i0 + k, file_offset(files, i0 + k) as int, start, end));
    }
    assert forall|i: int| 0 <= i < n implies (#[trigger] in_bounds(files, i, start, end) <==> i0 <= i
        < i0 + w.len()) by {
        if i0 <= i < i0 + w.len() {
            let k = i - i0;
            assert(w[k] == part_at(files, i0 + k, file_offset(files, i0 + k) as int, start, end));
            assert(i0 + k == i);
        }
    }
}

proof fn lemma_walk_ends(files: Seq<File>, start: int, end: int)
    requires
        0 <= start < end,
    ensures
        ({
            let w = walk(files, start, end);
            let total = file_offset(files, files.len() as int);
            &&& w.len() > 0 ==> w[0].1 == 0
            &&& w.len() > 0 ==> w.last().2 == (if end < total {
                end
            } else {
                total as int
            }) - start
        }),
{
    let n = files.len() as int;
    let i0 = first_in_bounds(files, 0, start, end);
    lemma_first_in_bounds(files, 0, start, end);
    lemma_walk_from(files, start, end, i0);
    let w = walk(files, start, end);
    if w.len() > 0 {
        assert(w[0] == part_at(files, i0, file_offset(files, i0) as int, start, end));
        if i0 > 0 {
            assert(!in_bounds(files, i0 - 1, start, end));
            assert(file_offset(files, i0) == file_offset(files, i0 - 1) + files[i0 - 1].length);
        }
        let a = i0 + w.len() - 1;
        assert(w.last() == w[w.len() - 1]);
        assert(w[w.len() - 1] == part_at(files, a, file_offset(files, a) as int, start, end));
        assert(file_offset(files, a + 1) == file_offset(files, a) + files[a].length);
        if a + 1 < n {
            lemma_file_offset_mono(files, a + 1, n);
        }
    }
}

proof fn lemma_walk_joins(files: Seq<File>, start: int, end: int)
    requires
        0 <= start < end,
    ensures
        ({
            let w = walk(files, start, end);
            forall|k: int| 0 <= k < w.len() - 1 ==> (#[trigger] w[k]).2 == w[k + 1].1
        }),
{
    let i0 = first_in_bounds(files, 0, start, end);
    lemma_first_in_bounds(files, 0, start, end);
    lemma_walk_from(files, start, end, i0);
    let w = walk(files, start, end);
    assert forall|k: int| 0 <= k < w.len() - 1 implies (#[trigger] w[k]).2 == w[k + 1].1 by {
        let a = i0 + k;
        assert(w[k] == part_at(files, a, file_offset(files, a) as int, start, end));
        assert(w[k + 1] == part_at(files, a + 1, file_offset(files, a + 1) as int, start, end));
        assert(file_offset(files, a + 1) == file_offset(files, a) + files[a].length);
        assert(in_bounds(files, a, start, end));
        assert(in_bounds(files, a + 1, start, end));
    }
}

proof fn lemma_walk_counts(files: Seq<File>, start: int, end: int)
    requires
        0 <= start < end,
    ensures
        ({
            let w = walk(files, start, end);
            let total = file_offset(files, files.len() as int);
            &&& start < total ==> w.len() > 0
            &&& start == 0 && total < end ==> w.len() == files.len()
        }),
{
    let n = files.len() as int;
    let total = file_offset(files, n) as int;
    let i0 = first_in_bounds(files, 0, start, end);
    lemma_first_in_bounds(files, 0, start, end);
    lemma_walk_parts(files, start, end);
    lemma_walk_from(files, start, end, i0);
    if start < total {
        lemma_locate(files, n, start);
        let i = choose|i: int| 0 <= i < n && file_offset(files, i) <= start < #[trigger] file_offset(files, i + 1);
        assert(file_offset(files, i + 1) == file_offset(files, i) + files[i].length);
        assert(in_bounds(files, i, start, end));
    }
    if start == 0 && total < end && n > 0 {
        assert forall|i: int| 0 <= i < n implies #[trigger] in_bounds(files, i, start, end) by {
            lemma_file_offset_mono(files, i + 1, n);
            assert(file_offset(files, i + 1) == file_offset(files, i) + files[i].length);
        }
        assert(in_bounds(files, 0, start, end));
        assert(in_bounds(files, n - 1, start, end));
    }
}

/// A walk over the bytes `start .. end` of files laid end to end: it hands out, in order,
/// exactly the files that overlap the bytes; the first part starts at the walk's start, each
/// part ends where the next starts, the last ends at `end` or at the end of the files,
/// whichever comes first, and each file's bytes split into those before the part, the part,
/// and those after it. A walk that starts inside the files hands out at least one part, and
/// one over all bytes hands out every file.
pub proof fn lemma_walk(files: Seq<File>, start: int, end: int)
    requires
        0 <= start < end,
    ensures
        ({
            let w = walk(files, start, end);
            let i0 = first_in_bounds(files, 0, start, end);
            let total = file_offset(files, files.len() as int);
            &&& forall|i: int| 0 <= i < files.len() ==> (#[trigger] in_bounds(files, i, start, end) <==> i0
                <= i < i0 + w.len())
            &&& forall|k: int| 0 <= k < w.len() ==> (#[trigger] w[k]).0 == i0 + k
            &&& w.len() > 0 ==> w[0].1 == 0
            &&& forall|k: int| 0 <= k < w.len() - 1 ==> (#[trigger] w[k]).2 == w[k + 1].1
            &&& w.len() > 0 ==> w.last().2 == (if end < total {
                end
            } else {
                total as int
            }) - start
            &&& forall|k: int| 0 <= k < w.len() ==> (#[trigger] w[k]).3 + (w[k].2 - w[k].1) + w[k].4
                == files[w[k].0].length
            &&& start < total ==> w.len() > 0
            &&& start == 0 && total < end ==> w.len() == files.len()
        }),
{
    lemma_walk_parts(files, start, end);
    lemma_walk_ends(files, start, end);
    lemma_walk_joins(files, start, end);
    lemma_walk_counts(files, start, end);
}

/// The part `r` hands out a file of `files` laid as `part` says.
pub open spec fn yields_part<'a>(r: Option<FileWithBounds<'a>>, files: Seq<File>, part: (int, int, int, int, int)) -> bool {
    r matches Some(b) && *b.file == files[part.0] && b.start_within_iter_bounds == part.1
        && b.end_within_iter_bounds == part.2 && b.file_bytes_before_iter == part.3
        && b.file_bytes_after_iter == part.4
}

/// One step of a walk: the next file is passed over; when it overlaps the bytes, its part
/// is handed out and the cursor moves past it, and otherwise nothing is handed out.
pub open spec fn walk_step<'a>(b: FilesInBounds<'a>, a: FilesInBounds<'a>, r: Option<FileWithBounds<'a>>) -> bool {
    &&& a.wf()
    &&& a.spec_files() == b.spec_files()
    &&& a.spec_start() == b.spec_start()
    &&& a.spec_end() == b.spec_end()
    &&& b.position() >= b.spec_files().len() ==> r is None && a == b
    &&& b.position() < b.spec_files().len() ==> {
        let f = b.spec_files();
        let i = b.position();
        let fs = b.cursor();
        let start = b.spec_start();
        let end = b.spec_end();
        &&& a.position() == i + 1
        &&& if passed_over(f, i, fs, start, end) {
            r is None && a.cursor() == fs
        } else {
            a.cursor() == fs + f[i].length && yields_part(r, f, part_at(f, i, fs, start, end))
        }
    }
}

/// A step of the iteration that follows the walk: the iterator stands at file `i0 + k`
/// with the cursor at that file's offset, and the parts still to come are the walk's from
/// `k` on.
proof fn lemma_walk_yields_from<'a>(its: Seq<FilesInBounds<'a>>, rs: Seq<Option<FileWithBounds<'a>>>, m: int, k: int)
    requires
        ({
            let files = its[0].spec_files();
            let start = its[0].spec_start();
            let end = its[0].spec_end();
            let i0 = first_in_bounds(files, 0, start, end);
            let w = walk(files, start, end);
            &&& rs.len() == m + 1
            &&& its.len() == m + 2
            &&& forall|j: int| 0 <= j <= m ==> #[trigger] walk_step(its[j], its[j + 1], rs[j])
            &&& forall|j: int| 0 <= j < m ==> #[trigger] rs[j] is Some
            &&& rs[m] is None
            &&& 0 <= k <= m
            &&& k <= w.len()
            &&& its[k].spec_files() == files
            &&& its[k].spec_start() == start
            &&& its[k].spec_end() == end
            &&& its[k].position() == i0 + k
            &&& its[k].cursor() == file_offset(files, i0 + k)
            &&& w.skip(k) == walk_from(files, start, end, i0 + k, file_offset(files, i0 + k) as int)
        }),
    ensures
        m == walk(its[0].spec_files(), its[0].spec_start(), its[0].spec_end()).len(),
        forall|j: int| k <= j < m ==> #[trigger] yields_part(
            rs[j],
            its[0].spec_files(),
            walk(its[0].spec_files(), its[0].spec_start(), its[0].spec_end())[j],
        ),
    decreases m - k,
{
    let files = its[0].spec_files();
    let start = its[0].spec_start();
    let end = its[0].spec_end();
    let i0 = first_in_bounds(files, 0, start, end);
    let w = walk(files, start, end);
    let p = i0 + k;
    let fs = file_offset(files, p) as int;
    let rest = walk_from(files, start, end, p, fs);
    assert(walk_step(its[k], its[k + 1], rs[k]));
    assert(w.skip(k).len() == w.len() - k);
    if k < m {
        assert(rs[k] is Some);
        assert(p < files.len());
        assert(!passed_over(files, p, fs, start, end));
        assert(rest == seq![part_at(files, p, fs, start, end)] + walk_from(files, start, end, p + 1, fs + files[p].length));
        assert(w[k] == w.skip(k)[0]);
        assert(file_offset(files, p + 1) == fs + files[p].length);
        assert(w.skip(k + 1) == w.skip(k).skip(1));
        assert(w.skip(k + 1) == walk_from(files, start, end, p + 1, file_offset(files, p + 1) as int));
        lemma_walk_yields_from(its, rs, m, k + 1);
    } else {
        assert(rest.len() == 0);
    }
}

/// Iterating a walk made by `new` over the bytes `start .. end`, calling `next` until it
/// answers `None`: `its[j]` is the iterator before call `j` and `rs[j]` its answer. The
/// calls hand out exactly the parts of `walk`, in order; by `lemma_walk`, these are the
/// files that overlap the bytes, each part ending where the next starts.
pub proof fn lemma_walk_yields<'a>(its: Seq<FilesInBounds<'a>>, rs: Seq<Option<FileWithBounds<'a>>>, m: int)
    requires
        0 <= m,
        rs.len() == m + 1,
        its.len() == m + 2,
        its[0].spec_start() < its[0].spec_end(),
        its[0].position() == first_in_bounds(its[0].spec_files(), 0, its[0].spec_start(), its[0].spec_end()),
        its[0].cursor() == file_offset(its[0].spec_files(), its[0].position()),
        forall|j: int| 0 <= j <= m ==> #[trigger] walk_step(its[j], its[j + 1], rs[j]),
        forall|j: int| 0 <= j < m ==> #[trigger] rs[j] is Some,
        rs[m] is None,
    ensures
        m == walk(its[0].spec_files(), its[0].spec_start(), its[0].spec_end()).len(),
        forall|j: int| 0 <= j < m ==> #[trigger] yields_part(
            rs[j],
            its[0].spec_files(),
            walk(its[0].spec_files(), its[0].spec_start(), its[0].spec_end())[j],
        ),
{
    let files = its[0].spec_files();
    let w = walk(files, its[0].spec_start(), its[0].spec_end());
    assert(w.skip(0) == w);
    lemma_walk_yields_from(its, rs, m, 0);
}

/// A file and the part of it that lies within the bytes walked.
#[derive(Debug)]
pub struct FileWithBounds<'a> {
    pub file: &'a File,
    pub start_within_iter_bounds: usize,
    pub end_within_iter_bounds: usize,
    pub file_bytes_before_iter: usize,
    pub file_bytes_after_iter: usize,
}

/// Walks the files that overlap the bytes `start_byte .. end_byte` of the torrent's content.
pub struct FilesInBounds<'a> {
    files: &'a [File],
    next_idx: usize,
    start_byte: usize,
    end_byte: usize,
    cur_idx: usize,
}

impl<'a> FilesInBounds<'a> {
    pub closed spec fn spec_files(self) -> Seq<File> {
        self.files@
    }

    /// The next file to look at.
    pub closed spec fn position(self) -> int {
        self.next_idx as int
    }

    /// Where that file is taken to start.
    pub closed spec fn cursor(self) -> int {
        self.cur_idx as int
    }

    pub closed spec fn spec_start(self) -> int {
        self.start_byte as int
    }

    pub closed spec fn spec_end(self) -> int {
        self.end_byte as int
    }

    pub open spec fn wf(self) -> bool {
        &&& file_offset(self.spec_files(), self.spec_files().len() as int) <= usize::MAX
        &&& 0 <= self.position() <= self.spec_files().len()
        &&& self.cursor() <= file_offset(self.spec_files(), self.position())
    }

    /// The next file, if any, is passed over: it does not overlap the bytes.
    pub open spec fn passes_over(self) -> bool {
        self.position() >= self.spec_files().len() || passed_over(
            self.spec_files(),
            self.position(),
            self.cursor(),
            self.spec_start(),
            self.spec_end(),
        )
    }

    /// Starts at the first file that overlaps the bytes `start_byte .. end_byte`.
    pub fn new(files: &'a [File], start_byte: usize, end_byte: usize) -> (r: Self)
        requires
            file_offset(files@, files@.len() as int) <= usize::MAX,
        ensures
            r.wf(),
            r.spec_files() == files@,
            r.position() == first_in_bounds(files@, 0, start_byte as int, end_byte as int),
            r.cursor() == file_offset(files@, r.position()),
            r.spec_start() == start_byte,
            r.spec_end() == end_byte,
    {
        let mut i: usize = 0;
        let mut file_start: usize = 0;
        while i < files.len()
            invariant
                file_offset(files@, files@.len() as int) <= usize::MAX,
                0 <= i <= files@.len(),
                file_start == file_offset(files@, i as int),
                first_in_bounds(files@, i as int, start_byte as int, end_byte as int) == first_in_bounds(
                    files@,
                    0,
                    start_byte as int,
                    end_byte as int,
                ),
            ensures
                first_in_bounds(files@, i as int, start_byte as int, end_byte as int) == i,
                file_start == file_offset(files@, i as int),
                0 <= i <= files@.len(),
            decreases files@.len() - i,
        {
            proof {
                lemma_file_offset_mono(files@, i + 1, files@.len() as int);
            }
            let file = &files[i];
            let file_end = file_start + file.length as usize;
            if file_start < end_byte && (file_end > start_byte || (file.length == 0 && file_end
                >= start_byte)) {
                break;
            }
            file_start = file_end;
            i += 1;
        }
        FilesInBounds { files, next_idx: i, start_byte, end_byte, cur_idx: file_start }
    }

    /// The next file if it overlaps the bytes, with the overlap: where it starts and ends
    /// relative to the walk's start, and how many of the file's bytes lie before and after it.
    /// The file is passed over either way.
    pub fn next(&mut self) -> (r: Option<FileWithBounds<'a>>)
        requires
            old(self).wf(),
            old(self).spec_start() <= old(self).spec_end() || old(self).passes_over(),
        ensures
            walk_step(*old(self), *final(self), r),
    {
        if self.next_idx >= self.files.len() {
            return None;
        }
        proof {
            lemma_file_offset_mono(self.files@, self.next_idx as int, self.next_idx + 1);
            lemma_file_offset_mono(self.files@, self.next_idx + 1, self.files@.len() as int);
        }
        let file: &'a File = &self.files[self.next_idx];
        self.next_idx = self.next_idx + 1;
        let file_start = self.cur_idx;
        let file_end = file_start + file.length as usize;
        if file_start >= self.end_byte || (file_end <= self.start_byte && file.length > 0) || (
        file_end < self.start_byte && file.length == 0) {
            return None;
        }
        self.cur_idx = file_end;
        let lo = if self.start_byte > file_start {
            self.start_byte
        } else {
            file_start
        };
        let hi = if self.end_byte < file_end {
            self.end_byte
        } else {
            file_end
        };
        Some(
            FileWithBounds {
                file,
                start_within_iter_bounds: lo - self.start_byte,
                end_within_iter_bounds: hi - self.start_byte,
                file_bytes_before_iter: lo - file_start,
                file_bytes_after_iter: file_end - hi,
            },
        )
    }
}

/// The directory made of the first `k` components of `path`, each followed by `/`.
pub open spec fn dir_prefix(path: Seq<Seq<char>>, k: int) -> Seq<char>
    decreases k,
{
    if k <= 0 {
        Seq::empty()
    } else {
        dir_prefix(path, k - 1) + path[k - 1] + seq!['/']
    }
}

/// `d` is a directory some file of the torrent lies in (below the torrent's own directory).
pub open spec fn is_torrent_dir(files: Seq<File>, d: Seq<char>) -> bool {
    exists|i: int, k: int|
        0 <= i < files.len() && 1 <= k < files[i].path@.len() && d == #[trigger] dir_prefix(
            texts(files[i].path@),
            k,
        )
}

/// `x` reads as `w` followed by a directory some file lies in.
pub open spec fn dir_under(files: Seq<File>, w: Seq<char>, x: Seq<char>) -> bool {
    exists|d: Seq<char>| #[trigger] is_torrent_dir(files, d) && x == w + d
}

/// Number of `/` in `s`.
pub open spec fn slash_count(s: Seq<char>) -> nat
    decreases s.len(),
{
    if s.len() == 0 {
        0
    } else {
        slash_count(s.drop_last()) + if s.last() == '/' {
            1nat
        } else {
            0nat
        }
    }
}

/// Number of `/` in `s`.
fn count_slashes(s: &String) -> (r: usize)
    ensures
        r == slash_count(s@),
{
    let st = s.as_str();
    let n = st.unicode_len();
    let mut c: usize = 0;
    let mut i: usize = 0;
    assert(s@.take(0) == Seq::<char>::empty());
    while i < n
        invariant
            st@ == s@,
            n == s@.len(),
            0 <= i <= n,
            c == slash_count(s@.take(i as int)),
            c <= i,
        decreases n - i,
    {
        assert(s@.take(i + 1).drop_last() == s@.take(i as int));
        if st.get_char(i) == '/' {
            c = c + 1;
        }
        i += 1;
    }
    assert(s@.take(n as int) == s@);
    c
}

/// Some string of `v` reads `x`.
pub open spec fn has_text(v: Seq<String>, x: Seq<char>) -> bool {
    exists|a: int| 0 <= a < v.len() && #[trigger] v[a]@ == x
}

/// No two strings of `v` read the same.
pub open spec fn distinct_texts(v: Seq<String>) -> bool {
    forall|a: int, b: int| 0 <= a < b < v.len() ==> #[trigger] v[a]@ != #[trigger] v[b]@
}

proof fn lemma_has_text_push(v: Seq<String>, y: String, x: Seq<char>)
    requires
        has_text(v, x),
    ensures
        has_text(v.push(y), x),
{
    let a = choose|a: int| 0 <= a < v.len() && #[trigger] v[a]@ == x;
    assert(v.push(y)[a]@ == x);
}

proof fn lemma_has_text_insert(v: Seq<String>, p: int, y: String, x: Seq<char>)
    requires
        0 <= p <= v.len(),
        has_text(v, x) || y@ == x,
    ensures
        has_text(v.insert(p, y), x),
{
    let w = v.insert(p, y);
    if y@ == x {
        assert(w[p]@ == x);
    } else {
        let a = choose|a: int| 0 <= a < v.len() && #[trigger] v[a]@ == x;
        if a < p {
            assert(w[a]@ == x);
        } else {
            assert(w[a + 1]@ == x);
        }
    }
}

/// Whether some string of `v` reads `x`.
fn holds_text(v: &Vec<String>, x: &String) -> (r: bool)
    ensures
        r == has_text(v@, x@),
{
    let mut i: usize = 0;
    while i < v.len()
        invariant
            0 <= i <= v@.len(),
            forall|a: int| 0 <= a < i ==> #[trigger] v@[a]@ != x@,
        decreases v@.len() - i,
    {
        if v[i].eq(x) {
            assert(v@[i as int]@ == x@);
            return true;
        }
        i += 1;
    }
    false
}

/// Adds to `dirs` the directories of `path` (each of its components but the last, as a
/// prefix), those not there yet.
fn add_dirs_of(dirs: &mut Vec<String>, path: &Vec<String>)
    requires
        distinct_texts(old(dirs)@),
    ensures
        distinct_texts(final(dirs)@),
        forall|x: Seq<char>| #[trigger] has_text(old(dirs)@, x) ==> has_text(final(dirs)@, x),
        forall|k: int| 1 <= k < path@.len() ==> #[trigger] has_text(final(dirs)@, dir_prefix(texts(path@), k)),
        forall|a: int|
            0 <= a < final(dirs)@.len() ==> has_text(old(dirs)@, #[trigger] final(dirs)@[a]@) || exists|k: int|
                1 <= k < path@.len() && final(dirs)@[a]@ == #[trigger] dir_prefix(texts(path@), k),
{
    if path.len() <= 1 {
        return;
    }
    let slash = "/";
    proof {
        reveal_strlit("/");
    }
    let ghost tp = texts(path@);
    let ghost start = dirs@;
    let mut cur = String::new();
    let mut k: usize = 0;
    while k < path.len() - 1
        invariant
            slash@ == seq!['/'],
            tp == texts(path@),
            path@.len() > 1,
            0 <= k <= path@.len() - 1,
            cur@ == dir_prefix(tp, k as int),
            distinct_texts(dirs@),
            forall|x: Seq<char>| #[trigger] has_text(start, x) ==> has_text(dirs@, x),
            forall|k2: int| 1 <= k2 <= k ==> #[trigger] has_text(dirs@, dir_prefix(tp, k2)),
            forall|a: int|
                0 <= a < dirs@.len() ==> has_text(start, #[trigger] dirs@[a]@) || exists|k2: int|
                    1 <= k2 < path@.len() && dirs@[a]@ == #[trigger] dir_prefix(tp, k2),
        decreases path@.len() - 1 - k,
    {
        cur.append(path[k].as_str());
        cur.append(slash);
        assert(cur@ == dir_prefix(tp, k + 1));
        if !holds_text(dirs, &cur) {
            let ghost before = dirs@;
            let c = cur.clone();
            dirs.push(c);
            proof {
                assert forall|a: int, b: int| 0 <= a < b < dirs@.len() implies #[trigger] dirs@[a]@ != #[trigger] dirs@[b]@ by {
                    if b == before.len() {
                        assert(dirs@[a] == before[a]);
                        if before[a]@ == cur@ {
                            assert(has_text(before, cur@));
                        }
                    } else {
                        assert(before[a]@ != before[b]@);
                    }
                }
                assert forall|x: Seq<char>| #[trigger] has_text(start, x) implies has_text(dirs@, x) by {
                    lemma_has_text_push(before, c, x);
                }
                assert forall|k2: int| 1 <= k2 <= k + 1 implies #[trigger] has_text(dirs@, dir_prefix(tp, k2)) by {
                    if k2 <= k {
                        lemma_has_text_push(before, c, dir_prefix(tp, k2));
                    } else {
                        assert(dirs@[before.len() as int]@ == dir_prefix(tp, k2));
                    }
                }
                assert forall|a: int| 0 <= a < dirs@.len() implies has_text(start, #[trigger] dirs@[a]@) || exists|k2: int|
                    1 <= k2 < path@.len() && dirs@[a]@ == #[trigger] dir_prefix(tp, k2) by {
                    if a == before.len() {
                        assert(dirs@[a]@ == dir_prefix(tp, k + 1));
                    } else {
                        assert(dirs@[a] == before[a]);
                    }
                }
            }
        }
        k += 1;
    }
}

/// The directories the files lie in, each once.
fn collect_dirs(files: &[File]) -> (r: Vec<String>)
    ensures
        distinct_texts(r@),
        forall|a: int| 0 <= a < r@.len() ==> is_torrent_dir(files@, #[trigger] r@[a]@),
        forall|d: Seq<char>| is_torrent_dir(files@, d) ==> #[trigger] has_text(r@, d),
{
    let mut dirs: Vec<String> = Vec::new();
    let mut i: usize = 0;
    while i < files.len()
        invariant
            0 <= i <= files@.len(),
            distinct_texts(dirs@),
            forall|a: int| 0 <= a < dirs@.len() ==> is_torrent_dir(files@, #[trigger] dirs@[a]@),
            forall|f: int, k: int|
                #![trigger dir_prefix(texts(files@[f].path@), k)]
                0 <= f < i && 1 <= k < files@[f].path@.len() ==> has_text(dirs@, dir_prefix(texts(files@[f].path@), k)),
        decreases files@.len() - i,
    {
        let ghost before = dirs@;
        add_dirs_of(&mut dirs, &files[i].path);
        proof {
            assert forall|a: int| 0 <= a < dirs@.len() implies is_torrent_dir(files@, #[trigger] dirs@[a]@) by {
                if has_text(before, dirs@[a]@) {
                    let b = choose|b: int| 0 <= b < before.len() && #[trigger] before[b]@ == dirs@[a]@;
                    assert(is_torrent_dir(files@, before[b]@));
                } else {
                    let k = choose|k: int| 1 <= k < files@[i as int].path@.len() && dirs@[a]@ == #[trigger] dir_prefix(texts(files@[i as int].path@), k);
                    assert(dirs@[a]@ == dir_prefix(texts(files@[i as int].path@), k));
                }
            }
            assert forall|f: int, k: int|
                #![trigger dir_prefix(texts(files@[f].path@), k)]
                0 <= f < i + 1 && 1 <= k < files@[f].path@.len() implies has_text(dirs@, dir_prefix(texts(files@[f].path@), k)) by {
                if f < i {
                    assert(has_text(before, dir_prefix(texts(files@[f].path@), k)));
                }
            }
        }
        i += 1;
    }
    proof {
        assert forall|d: Seq<char>| is_torrent_dir(files@, d) implies #[trigger] has_text(dirs@, d) by {
            let (f, k) = choose|f: int, k: int| 0 <= f < files@.len() && 1 <= k < files@[f].path@.len() && d == #[trigger] dir_prefix(texts(files@[f].path@), k);
            assert(has_text(dirs@, dir_prefix(texts(files@[f].path@), k)));
        }
    }
    dirs
}

/// `x` reads as `w` followed by one of the first `n` strings of `dirs`.
pub open spec fn from_dir(x: Seq<char>, w: Seq<char>, dirs: Seq<String>, n: int) -> bool {
    exists|t: int| 0 <= t < n && x == w + #[trigger] dirs[t]@
}

/// `prefix + x` reads as `prefix + y` only when `x` reads as `y`.
proof fn lemma_prefix_cancel(prefix: Seq<char>, x: Seq<char>, y: Seq<char>)
    requires
        prefix + x == prefix + y,
    ensures
        x == y,
{
    assert(x == (prefix + x).skip(prefix.len() as int));
    assert(y == (prefix + y).skip(prefix.len() as int));
}

/// The strings of `dirs`, each behind `working_dir`, ordered by their number of `/` (stable).
fn prefix_and_sort(working_dir: &str, dirs: &Vec<String>) -> (r: Vec<String>)
    requires
        distinct_texts(dirs@),
    ensures
        distinct_texts(r@),
        forall|a: int| 0 <= a < r@.len() ==> #[trigger] from_dir(r@[a]@, working_dir@, dirs@, dirs@.len() as int),
        forall|t: int| 0 <= t < dirs@.len() ==> #[trigger] has_text(r@, working_dir@ + dirs@[t]@),
        forall|a: int, b: int| 0 <= a < b < r@.len() ==> slash_count(#[trigger] r@[a]@) <= slash_count(#[trigger] r@[b]@),
{
    let mut out: Vec<String> = Vec::new();
    let mut keys: Vec<usize> = Vec::new();
    let mut j: usize = 0;
    while j < dirs.len()
        invariant
            0 <= j <= dirs@.len(),
            distinct_texts(dirs@),
            keys@.len() == out@.len(),
            forall|a: int| 0 <= a < out@.len() ==> keys@[a] == slash_count(#[trigger] out@[a]@),
            distinct_texts(out@),
            forall|a: int| 0 <= a < out@.len() ==> #[trigger] from_dir(out@[a]@, working_dir@, dirs@, j as int),
            forall|t: int| 0 <= t < j ==> #[trigger] has_text(out@, working_dir@ + dirs@[t]@),
            forall|a: int, b: int| 0 <= a < b < out@.len() ==> slash_count(#[trigger] out@[a]@) <= slash_count(#[trigger] out@[b]@),
        decreases dirs@.len() - j,
    {
        let mut full = String::from_str(working_dir);
        full.append(dirs[j].as_str());
        let key = count_slashes(&full);
        let mut p: usize = 0;
        while p < out.len() && keys[p] <= key
            invariant
                0 <= p <= out@.len(),
                keys@.len() == out@.len(),
                forall|a: int| 0 <= a < p ==> keys@[a] <= key,
            decreases out@.len() - p,
        {
            p += 1;
        }
        let ghost out0 = out@;
        let ghost keys0 = keys@;
        let ghost fv = full@;
        proof {
            assert forall|a: int| 0 <= a < out0.len() implies #[trigger] out0[a]@ != fv by {
                assert(from_dir(out0[a]@, working_dir@, dirs@, j as int));
                let t = choose|t: int| 0 <= t < j && out0[a]@ == working_dir@ + #[trigger] dirs@[t]@;
                if out0[a]@ == fv {
                    lemma_prefix_cancel(working_dir@, dirs@[t]@, dirs@[j as int]@);
                }
            }
        }
        out.insert(p, full);
        keys.insert(p, key);
        proof {
            assert forall|a: int| 0 <= a < out@.len() implies keys@[a] == slash_count(#[trigger] out@[a]@) by {
                if a < p {
                    assert(out@[a] == out0[a]);
                } else if a > p {
                    assert(out@[a] == out0[a - 1]);
                }
            }
            assert forall|a: int, b: int| 0 <= a < b < out@.len() implies #[trigger] out@[a]@ != #[trigger] out@[b]@ by {
                if a < p && b < p {
                    assert(out@[a] == out0[a] && out@[b] == out0[b]);
                } else if a < p && b == p {
                    assert(out@[a] == out0[a]);
                } else if a < p {
                    assert(out@[a] == out0[a] && out@[b] == out0[b - 1]);
                } else if a == p {
                    assert(out@[b] == out0[b - 1]);
                } else {
                    assert(out@[a] == out0[a - 1] && out@[b] == out0[b - 1]);
                }
            }
            assert forall|a: int| 0 <= a < out@.len() implies #[trigger] from_dir(out@[a]@, working_dir@, dirs@, j + 1) by {
                if a < p {
                    assert(out@[a] == out0[a]);
                    assert(from_dir(out0[a]@, working_dir@, dirs@, j as int));
                    let t = choose|t: int| 0 <= t < j && out0[a]@ == working_dir@ + #[trigger] dirs@[t]@;
                    assert(out@[a]@ == working_dir@ + dirs@[t]@);
                } else if a > p {
                    assert(out@[a] == out0[a - 1]);
                    assert(from_dir(out0[a - 1]@, working_dir@, dirs@, j as int));
                    let t = choose|t: int| 0 <= t < j && out0[a - 1]@ == working_dir@ + #[trigger] dirs@[t]@;
                    assert(out@[a]@ == working_dir@ + dirs@[t]@);
                } else {
                    assert(out@[a]@ == working_dir@ + dirs@[j as int]@);
                }
            }
            assert forall|t: int| 0 <= t < j + 1 implies #[trigger] has_text(out@, working_dir@ + dirs@[t]@) by {
                lemma_has_text_insert(out0, p as int, out@[p as int], working_dir@ + dirs@[t]@);
                assert(out@ == out0.insert(p as int, out@[p as int]));
            }
            assert forall|a: int, b: int| 0 <= a < b < out@.len() implies slash_count(#[trigger] out@[a]@) <= slash_count(#[trigger] out@[b]@) by {
                if a < p && b < p {
                    assert(out@[a] == out0[a] && out@[b] == out0[b]);
                } else if a < p && b == p {
                    assert(out@[a] == out0[a]);
                    assert(keys0[a] <= key);
                } else if a < p {
                    assert(out@[a] == out0[a] && out@[b] == out0[b - 1]);
                } else if a == p {
                    assert(out@[b] == out0[b - 1]);
                    assert(keys0[p as int] > key);
                    if b - 1 > p {
                        assert(slash_count(out0[p as int]@) <= slash_count(out0[b - 1]@));
                    }
                } else {
                    assert(out@[a] == out0[a - 1] && out@[b] == out0[b - 1]);
                }
            }
        }
        j += 1;
    }
    proof {
        assert forall|a: int| 0 <= a < out@.len() implies #[trigger] from_dir(out@[a]@, working_dir@, dirs@, dirs@.len() as int) by {
            assert(from_dir(out@[a]@, working_dir@, dirs@, j as int));
            let t = choose|t: int| 0 <= t < j && out@[a]@ == working_dir@ + #[trigger] dirs@[t]@;
            assert(out@[a]@ == working_dir@ + dirs@[t]@);
        }
    }
    out
}

/// The directories the files of a multi-file torrent lie in, each once, under `working_dir`,
/// shallower ones (fewer `/`) first so that each can be created after its parent.
pub fn dirs_by_asc_depth(working_dir: &str, files: &[File]) -> (r: Vec<String>)
    ensures
        distinct_texts(r@),
        forall|a: int| 0 <= a < r@.len() ==> #[trigger] dir_under(files@, working_dir@, r@[a]@),
        forall|d: Seq<char>| is_torrent_dir(files@, d) ==> #[trigger] has_text(r@, working_dir@ + d),
        forall|a: int, b: int|
            0 <= a < b < r@.len() ==> slash_count(#[trigger] r@[a]@) <= slash_count(#[trigger] r@[b]@),
{
    let dirs = collect_dirs(files);
    let r = prefix_and_sort(working_dir, &dirs);
    proof {
        assert forall|a: int| 0 <= a < r@.len() implies #[trigger] dir_under(files@, working_dir@, r@[a]@) by {
            assert(from_dir(r@[a]@, working_dir@, dirs@, dirs@.len() as int));
            let t = choose|t: int| 0 <= t < dirs@.len() && r@[a]@ == working_dir@ + #[trigger] dirs@[t]@;
            assert(is_torrent_dir(files@, dirs@[t]@));
        }
        assert forall|d: Seq<char>| is_torrent_dir(files@, d) implies #[trigger] has_text(r@, working_dir@ + d) by {
            assert(has_text(dirs@, d));
            let t = choose|t: int| 0 <= t < dirs@.len() && #[trigger] dirs@[t]@ == d;
            assert(has_text(r@, working_dir@ + dirs@[t]@));
        }
    }
    r
}

/// Bytes in a block.
pub const BLOCK_SIZE: usize = 16384;

/// The blocks, one after the other.
pub open spec fn concat_blocks(bs: Seq<Seq<u8>>) -> Seq<u8>
    decreases bs.len(),
{
    if bs.len() == 0 {
        Seq::empty()
    } else {
        concat_blocks(bs.drop_last()) + bs.last()
    }
}

/// The bytes `s .. e` of a piece held as blocks of `BLOCK_SIZE` bytes: the part of the first
/// block touched, the blocks in between, the part of the last block touched; `None` when the
/// range touches no block.
pub open spec fn chunk_bytes(data: Seq<Seq<u8>>, s: int, e: int) -> Option<Seq<u8>> {
    let len = e - s;
    let swb = s % 16384;
    let ewb = if e % 16384 == 0 {
        16384
    } else {
        e % 16384
    };
    let sb = s / 16384;
    let eb = (e - 1) / 16384 + 1;
    if sb >= eb {
        None
    } else if eb - sb == 1 {
        Some(data[sb].subrange(swb, swb + len))
    } else {
        Some(data[sb].skip(swb) + concat_blocks(data.subrange(sb + 1, eb - 1)) + data[eb - 1].take(ewb))
    }
}

/// The slices that `chunk_bytes` takes lie within the blocks.
pub open spec fn chunk_in_blocks(data: Seq<Seq<u8>>, s: int, e: int) -> bool {
    let len = e - s;
    let swb = s % 16384;
    let ewb = if e % 16384 == 0 {
        16384
    } else {
        e % 16384
    };
    let sb = s / 16384;
    let eb = (e - 1) / 16384 + 1;
    &&& 1 <= e
    &&& s <= e
    &&& eb <= data.len()
    &&& sb < eb && eb - sb == 1 ==> swb + len <= data[sb].len()
    &&& sb < eb && eb - sb > 1 ==> swb <= data[sb].len() && ewb <= data[eb - 1].len()
}

/// The block range of a chunk held no block.
#[derive(Debug, Clone, Copy, PartialEq, Eq, Structural)]
pub struct EmptyWrite;

/// Appends `src[a..b]` to `out`.
fn push_range(out: &mut Vec<u8>, src: &[u8], a: usize, b: usize)
    requires
        a <= b <= src@.len(),
    ensures
        final(out)@ == old(out)@ + src@.subrange(a as int, b as int),
{
    let mut i = a;
    while i < b
        invariant
            a <= i <= b <= src@.len(),
            out@ == old(out)@ + src@.subrange(a as int, i as int),
        decreases b - i,
    {
        out.push(src[i]);
        assert(src@.subrange(a as int, i + 1) == src@.subrange(a as int, i as int).push(src@[i as int]));
        i += 1;
    }
}

/// The views of the blocks.
pub open spec fn block_views(data: Seq<Vec<u8>>) -> Seq<Seq<u8>> {
    data.map_values(|b: Vec<u8>| b@)
}

/// The bytes of a piece, held as blocks, that fall in the file part `start_within_piece ..
/// end_within_piece`.
pub fn piece_chunk(piece_data: &[Vec<u8>], start_within_piece: usize, end_within_piece: usize) -> (r: Result<Vec<u8>, EmptyWrite>)
    requires
        chunk_in_blocks(block_views(piece_data@), start_within_piece as int, end_within_piece as int),
    ensures
        match chunk_bytes(block_views(piece_data@), start_within_piece as int, end_within_piece as int) {
            Some(c) => r matches Ok(v) && v@ == c,
            None => r == Err::<Vec<u8>, EmptyWrite>(EmptyWrite),
        },
{
    let ghost bv = block_views(piece_data@);
    let length = end_within_piece - start_within_piece;
    let start_within_block = start_within_piece % BLOCK_SIZE;
    let end_within_block = if end_within_piece % BLOCK_SIZE == 0 {
        BLOCK_SIZE
    } else {
        end_within_piece % BLOCK_SIZE
    };
    let start_block = start_within_piece / BLOCK_SIZE;
    let end_block = (end_within_piece - 1) / BLOCK_SIZE + 1;
    if start_block >= end_block {
        return Err(EmptyWrite);
    }
    let mut out: Vec<u8> = Vec::new();
    assert(bv[start_block as int] == piece_data@[start_block as int]@);
    if end_block - start_block == 1 {
        push_range(&mut out, piece_data[start_block].as_slice(), start_within_block, start_within_block + length);
        return Ok(out);
    }
    let first = piece_data[start_block].as_slice();
    push_range(&mut out, first, start_within_block, first.len());
    assert(first@.subrange(start_within_block as int, first@.len() as int) == bv[start_block as int].skip(start_within_block as int));
    let ghost head = out@;
    let mut k = start_block + 1;
    assert(bv.subrange(start_block + 1, k as int) == Seq::<Seq<u8>>::empty());
    while k < end_block - 1
        invariant
            start_block + 1 <= k <= end_block - 1,
            end_block <= piece_data@.len(),
            bv == block_views(piece_data@),
            out@ == head + concat_blocks(bv.subrange(start_block + 1, k as int)),
        decreases end_block - 1 - k,
    {
        let blk = piece_data[k].as_slice();
        push_range(&mut out, blk, 0, blk.len());
        assert(blk@.subrange(0, blk@.len() as int) == bv[k as int]);
        assert(bv.subrange(start_block + 1, k + 1).drop_last() == bv.subrange(start_block + 1, k as int));
        k += 1;
    }
    let last = piece_data[end_block - 1].as_slice();
    assert(last@ == bv[end_block - 1]);
    push_range(&mut out, last, 0, end_within_block);
    assert(last@.subrange(0, end_within_block as int) == bv[end_block - 1].take(end_within_block as int));
    Ok(out)
}

} // verus!
