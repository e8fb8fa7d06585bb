//! Reading unified diffs.
use vstd::prelude::*;
use vstd::slice::slice_subrange;
use vstd::string::*;

use crate::lang::detection::{generated_name, is_generated_by_name};
use crate::paths::{file_name, file_name_of};
use crate::text::{
    after, after_prefix, char_at, chars_of, dec, find, find_char, find_text, has_prefix, has_suffix, is_text,
    lemma_find_from, lines, lines_of, opt_text, parse_u64, parse_uint, rfind, rfind_text, string_of,
    strip_end, strip_end_of, strip_start, strip_start_of, trim, trim_of, views, words, words_of,
};

use super::{
    diff_lines_view, file_diffs_view, hunks_view, DiffLine, DiffLineKind, FileDiff, FileDiffView,
    FileStatus, Hunk, HunkView, LineView,
};

verus! {

// ---------------------------------------------------------------------------
// Hunk headers
// ---------------------------------------------------------------------------

/// The number that the text denotes, or `otherwise`.
pub open spec fn number_or(s: Seq<char>, otherwise: u32) -> u32 {
    match parse_uint(s, u32::MAX as nat) {
        Some(n) => n as u32,
        None => otherwise,
    }
}

/// The start and the count of a range; a count that is left out is one.
pub open spec fn range_spec(s: Seq<char>) -> (u32, u32) {
    match char_at(s, ',') {
        Some(i) => (number_or(s.take(i), 0), number_or(s.skip(i + 1), 1)),
        None => (number_or(s, 0), 1),
    }
}

/// The part of a hunk header between its marks.
pub open spec fn range_part(rest: Seq<char>) -> Seq<char> {
    match find(rest, " @@"@) {
        Some(p) => rest.take(p),
        None => trim(strip_end(rest, '@')),
    }
}

/// The old start and count and the new start and count that a hunk header gives.
pub open spec fn hunk_header(rest: Seq<char>) -> (u32, u32, u32, u32) {
    let w = words(range_part(rest));
    let old = range_spec(
        strip_start(
            if w.len() > 0 {
                w[0]
            } else {
                "-0"@
            },
            '-',
        ),
    );
    let new = range_spec(
        strip_start(
            if w.len() > 1 {
                w[1]
            } else {
                "+0"@
            },
            '+',
        ),
    );
    (old.0, old.1, new.0, new.1)
}

fn number_of(s: &[char], otherwise: u32) -> (r: u32)
    ensures
        r == number_or(s@, otherwise),
{
    match parse_u64(s, u32::MAX as u64) {
        Some(n) => {
            assert(n <= u32::MAX);
            n as u32
        },
        None => otherwise,
    }
}

/// The start and the count of a range.
pub fn parse_range_spec(spec_text: &[char]) -> (r: (u32, u32))
    ensures
        r == range_spec(spec_text@),
{
    match find_char(spec_text, ',') {
        Some(i) => {
            let n: usize = spec_text.len();
            proof {
                crate::text::lemma_char_at(spec_text@, ',');
                assert(spec_text@.subrange(0, i as int) =~= spec_text@.take(i as int));
                assert(spec_text@.subrange(i + 1, n as int) =~= spec_text@.skip(i + 1));
            }
            (
                number_of(slice_subrange(spec_text, 0, i), 0),
                number_of(slice_subrange(spec_text, i + 1, n), 1),
            )
        },
        None => (number_of(spec_text, 0), 1),
    }
}

/// The numbers of a hunk header.
pub fn parse_hunk_header(rest: &[char]) -> (r: (u32, u32, u32, u32))
    ensures
        r == hunk_header(rest@),
{
    let part = match find_text(rest, " @@") {
        Some(p) => {
            proof {
                lemma_find_from(rest@, " @@"@, 0);
                assert(rest@.subrange(0, p as int) =~= rest@.take(p as int));
            }
            slice_subrange(rest, 0, p)
        },
        None => trim_of(strip_end_of(rest, '@')),
    };
    let w = words_of(part);
    let no_old = chars_of("-0");
    let no_new = chars_of("+0");
    let old_spec = if w.len() > 0 {
        assert(views(w@)[0] == w@[0]@);
        w[0]
    } else {
        no_old.as_slice()
    };
    let new_spec = if w.len() > 1 {
        assert(views(w@)[1] == w@[1]@);
        w[1]
    } else {
        no_new.as_slice()
    };
    let old = parse_range_spec(strip_start_of(old_spec, '-'));
    let new = parse_range_spec(strip_start_of(new_spec, '+'));
    (old.0, old.1, new.0, new.1)
}

// ---------------------------------------------------------------------------
// Reading line by line
// ---------------------------------------------------------------------------

/// What has been read of a diff so far.
pub struct ReadView {
    pub done: Seq<FileDiffView>,
    pub path: Option<Seq<char>>,
    pub old_path: Option<Seq<char>>,
    pub status: FileStatus,
    pub is_binary: bool,
    pub hunks: Seq<HunkView>,
    pub current: Option<HunkView>,
}

/// Nothing has been read.
pub open spec fn nothing_read() -> ReadView {
    ReadView {
        done: Seq::empty(),
        path: None,
        old_path: None,
        status: FileStatus::Modified,
        is_binary: false,
        hunks: Seq::empty(),
        current: None,
    }
}

/// The hunk that is being read counts as read.
pub open spec fn close_hunk(s: ReadView) -> ReadView {
    match s.current {
        Some(h) => ReadView { hunks: s.hunks.push(h), current: None, ..s },
        None => s,
    }
}

/// The path is that of a generated file.
pub open spec fn generated_path(path: Seq<char>) -> bool {
    match file_name(path) {
        Some(n) => generated_name(n),
        None => false,
    }
}

/// The file that is being read counts as read.
pub open spec fn close_file(s: ReadView) -> ReadView {
    match s.path {
        Some(p) => {
            let c = close_hunk(s);
            ReadView {
                done: s.done.push(
                    FileDiffView {
                        path: p,
                        old_path: s.old_path,
                        status: s.status,
                        hunks: c.hunks,
                        is_generated: generated_path(p),
                        is_binary: s.is_binary,
                    },
                ),
                path: None,
                old_path: None,
                hunks: Seq::empty(),
                ..c
            }
        },
        None => s,
    }
}

/// The path in a file header: the one on the right-hand side.
pub open spec fn header_path(rest: Seq<char>) -> Seq<char> {
    match rfind(rest, " b/"@) {
        Some(p) => rest.skip(p + 3),
        None => match after_prefix(rest, "a/"@) {
            Some(t) => t,
            None => rest,
        },
    }
}

/// The line starts the diff of a file.
pub open spec fn is_header(line: Seq<char>) -> bool {
    "diff --git "@.is_prefix_of(line)
}

/// The line of content that a line of a hunk gives.
pub open spec fn content_line(line: Seq<char>) -> Option<LineView> {
    if line.len() == 0 {
        None
    } else if line[0] == '+' {
        Some(LineView { kind: DiffLineKind::Added, content: line.skip(1) })
    } else if line[0] == '-' {
        Some(LineView { kind: DiffLineKind::Removed, content: line.skip(1) })
    } else if line[0] == ' ' {
        Some(LineView { kind: DiffLineKind::Context, content: line.skip(1) })
    } else {
        None
    }
}

/// How many of the lines are in the old version, or in the new one: those of the kind,
/// and those that are in both.
pub open spec fn lines_of_side(lines: Seq<LineView>, kind: DiffLineKind) -> nat
    decreases lines.len(),
{
    if lines.len() == 0 {
        0
    } else {
        lines_of_side(lines.drop_last(), kind) + if lines.last().kind == kind || lines.last().kind
            == DiffLineKind::Context {
            1nat
        } else {
            0
        }
    }
}

/// Lines of the hunk are still to come, by the counts in its header.
pub open spec fn hunk_is_open(h: HunkView) -> bool {
    lines_of_side(h.lines, DiffLineKind::Removed) < h.old_count || lines_of_side(
        h.lines,
        DiffLineKind::Added,
    ) < h.new_count
}

/// The reading is inside a hunk, where every line is content.
pub open spec fn in_hunk(s: ReadView) -> bool {
    s.current matches Some(h) && hunk_is_open(h)
}

/// What has been read after one more line of a hunk.
pub open spec fn read_content(s: ReadView, line: Seq<char>) -> ReadView {
    match (s.current, content_line(line)) {
        (Some(h), Some(l)) => ReadView {
            current: Some(HunkView { lines: h.lines.push(l), ..h }),
            ..s
        },
        _ => s,
    }
}

/// What has been read after one more line. Inside a hunk a line that looks like the
/// name of a file is a removed or an added line.
pub open spec fn read_line(s: ReadView, line: Seq<char>) -> ReadView {
    if is_header(line) {
        ReadView {
            is_binary: false,
            status: FileStatus::Modified,
            path: Some(header_path(line.skip("diff --git "@.len() as int))),
            ..close_file(s)
        }
    } else if "rename from "@.is_prefix_of(line) {
        ReadView {
            status: FileStatus::Renamed,
            old_path: Some(trim(line.skip("rename from "@.len() as int))),
            ..s
        }
    } else if "rename to "@.is_prefix_of(line) || "similarity index "@.is_prefix_of(line) {
        s
    } else if "Binary files "@.is_prefix_of(line) && "differ"@.is_suffix_of(line) {
        ReadView { is_binary: true, ..s }
    } else if "--- "@.is_prefix_of(line) && !in_hunk(s) {
        if line.skip("--- "@.len() as int) == "/dev/null"@ {
            ReadView { status: FileStatus::Added, ..s }
        } else {
            s
        }
    } else if "+++ "@.is_prefix_of(line) && !in_hunk(s) {
        if line.skip("+++ "@.len() as int) == "/dev/null"@ {
            ReadView { status: FileStatus::Deleted, ..s }
        } else {
            s
        }
    } else if "@@ "@.is_prefix_of(line) {
        let h = hunk_header(line.skip("@@ "@.len() as int));
        ReadView {
            current: Some(
                HunkView {
                    old_start: h.0,
                    old_count: h.1,
                    new_start: h.2,
                    new_count: h.3,
                    lines: Seq::empty(),
                },
            ),
            ..close_hunk(s)
        }
    } else {
        read_content(s, line)
    }
}

/// What has been read after the lines.
pub open spec fn read_lines(s: ReadView, lines: Seq<Seq<char>>) -> ReadView
    decreases lines.len(),
{
    if lines.len() == 0 {
        s
    } else {
        read_line(read_lines(s, lines.drop_last()), lines.last())
    }
}

/// No line of a hunk is lost while its counts are not used up: a line that is removed,
/// added or kept is read as such, whatever its text.
pub proof fn law_content_is_kept(s: ReadView, line: Seq<char>)
    requires
        in_hunk(s),
        content_line(line) is Some,
    ensures
        read_line(s, line) == (ReadView {
            current: Some(
                HunkView { lines: s.current->0.lines.push(content_line(line)->0), ..s.current->0 },
            ),
            ..s
        }),
{
    reveal_strlit("diff --git ");
    reveal_strlit("rename from ");
    reveal_strlit("rename to ");
    reveal_strlit("similarity index ");
    reveal_strlit("Binary files ");
    reveal_strlit("@@ ");
    lemma_first_char("diff --git "@, line);
    lemma_first_char("rename from "@, line);
    lemma_first_char("rename to "@, line);
    lemma_first_char("similarity index "@, line);
    lemma_first_char("Binary files "@, line);
    lemma_first_char("@@ "@, line);
}

proof fn lemma_first_char(p: Seq<char>, line: Seq<char>)
    requires
        p.len() > 0,
    ensures
        p.is_prefix_of(line) ==> line.len() > 0 && line[0] == p[0],
{
    if p.is_prefix_of(line) {
        assert(p[0] == line.subrange(0, p.len() as int)[0]);
    }
}

/// The diffs of the files that the lines hold.
pub open spec fn diffs_in(lines: Seq<Seq<char>>) -> Seq<FileDiffView> {
    close_file(read_lines(nothing_read(), lines)).done
}

/// The number of file headers among the lines.
pub open spec fn headers(lines: Seq<Seq<char>>) -> nat
    decreases lines.len(),
{
    if lines.len() == 0 {
        0
    } else {
        headers(lines.drop_last()) + if is_header(lines.last()) {
            1nat
        } else {
            0
        }
    }
}

proof fn lemma_headers(lines: Seq<Seq<char>>)
    ensures
        ({
            let s = read_lines(nothing_read(), lines);
            &&& s.done.len() + if s.path is Some {
                1nat
            } else {
                0
            } == headers(lines)
            &&& s.path is None ==> headers(lines) == 0
        }),
    decreases lines.len(),
{
    if lines.len() > 0 {
        lemma_headers(lines.drop_last());
    }
}

/// A diff has one file for each of its file headers.
pub proof fn law_one_file_per_header(lines: Seq<Seq<char>>)
    ensures
        diffs_in(lines).len() == headers(lines),
{
    lemma_headers(lines);
}

/// What is read after a file header depends on what was read before only in the
/// files that are done.
pub open spec fn prefixed(done: Seq<FileDiffView>, s: ReadView) -> ReadView {
    ReadView { done: done + s.done, ..s }
}

proof fn lemma_prefixed_line(done: Seq<FileDiffView>, s: ReadView, line: Seq<char>)
    ensures
        read_line(prefixed(done, s), line) == prefixed(done, read_line(s, line)),
{
    let a = close_file(prefixed(done, s));
    let b = close_file(s);
    if s.path is Some {
        assert(a.done =~= done + b.done);
    }
}

proof fn lemma_prefixed(done: Seq<FileDiffView>, s: ReadView, lines: Seq<Seq<char>>)
    ensures
        read_lines(prefixed(done, s), lines) == prefixed(done, read_lines(s, lines)),
    decreases lines.len(),
{
    if lines.len() > 0 {
        lemma_prefixed(done, s, lines.drop_last());
        lemma_prefixed_line(done, read_lines(s, lines.drop_last()), lines.last());
    }
}

proof fn lemma_read_first(s: ReadView, lines: Seq<Seq<char>>)
    requires
        lines.len() > 0,
    ensures
        read_lines(s, lines) == read_lines(read_line(s, lines[0]), lines.drop_first()),
    decreases lines.len(),
{
    if lines.len() == 1 {
        assert(lines.drop_last() =~= Seq::empty());
        assert(lines.drop_first() =~= Seq::empty());
        assert(read_lines(s, lines.drop_last()) == s);
        assert(read_lines(read_line(s, lines[0]), lines.drop_first()) == read_line(s, lines[0]));
    } else {
        lemma_read_first(s, lines.drop_last());
        assert(lines.drop_last().drop_first() =~= lines.drop_first().drop_last());
        assert(lines.drop_last()[0] == lines[0]);
    }
}

proof fn lemma_read_append(s: ReadView, a: Seq<Seq<char>>, b: Seq<Seq<char>>)
    ensures
        read_lines(s, a + b) == read_lines(read_lines(s, a), b),
    decreases b.len(),
{
    if b.len() == 0 {
        assert(a + b =~= a);
    } else {
        lemma_read_append(s, a, b.drop_last());
        assert((a + b).drop_last() =~= a + b.drop_last());
    }
}

/// Two diffs, one after the other, hold the files of the first and then those of
/// the second, where both start with a file header.
pub proof fn law_diffs_concatenate(a: Seq<Seq<char>>, b: Seq<Seq<char>>)
    requires
        a.len() > 0,
        is_header(a[0]),
        b.len() > 0,
        is_header(b[0]),
    ensures
        diffs_in(a + b) == diffs_in(a) + diffs_in(b),
{
    let n = nothing_read();
    let s = read_lines(n, a);
    lemma_headers(a);
    lemma_header_first(a);
    lemma_read_append(n, a, b);
    lemma_read_first(s, b);
    lemma_read_first(n, b);
    let closed = close_file(s);
    let after_header = read_line(n, b[0]);
    assert(closed.done + after_header.done =~= closed.done);
    assert(read_line(s, b[0]) == prefixed(closed.done, after_header));
    lemma_prefixed(closed.done, after_header, b.drop_first());
    let e = read_lines(after_header, b.drop_first());
    let x = close_file(prefixed(closed.done, e));
    if e.path is Some {
        assert(x.done =~= closed.done + close_file(e).done);
    }
}

proof fn lemma_header_first(a: Seq<Seq<char>>)
    requires
        a.len() > 0,
        is_header(a[0]),
    ensures
        read_lines(nothing_read(), a).path is Some,
    decreases a.len(),
{
    if a.len() > 1 {
        lemma_header_first(a.drop_last());
    } else {
        assert(a.drop_last() =~= Seq::empty());
    }
}

/// What has been read of a diff so far.
struct Reading {
    done: Vec<FileDiff>,
    path: Option<String>,
    old_path: Option<String>,
    status: FileStatus,
    is_binary: bool,
    hunks: Vec<Hunk>,
    current: Option<Hunk>,
}

impl Reading {
    spec fn model(self) -> ReadView {
        ReadView {
            done: file_diffs_view(self.done@),
            path: opt_text(self.path),
            old_path: opt_text(self.old_path),
            status: self.status,
            is_binary: self.is_binary,
            hunks: hunks_view(self.hunks@),
            current: match self.current {
                Some(h) => Some(h@),
                None => None,
            },
        }
    }

    fn close_hunk(&mut self)
        ensures
            final(self).model() == close_hunk(old(self).model()),
    {
        let ghost before = self.hunks@;
        if let Some(h) = self.current.take() {
            self.hunks.push(h);
            assert(hunks_view(self.hunks@) =~= hunks_view(before).push(h@));
        }
    }

    fn close_file(&mut self)
        ensures
            final(self).model() == close_file(old(self).model()),
    {
        if let Some(p) = self.path.take() {
            self.close_hunk();
            let is_generated = match file_name_of(p.as_str()) {
                Some(n) => is_generated_by_name(n.as_str()),
                None => false,
            };
            let ghost before = self.done@;
            let mut hunks: Vec<Hunk> = Vec::new();
            std::mem::swap(&mut hunks, &mut self.hunks);
            let f = FileDiff {
                path: p,
                old_path: self.old_path.take(),
                status: self.status,
                hunks,
                is_generated,
                is_binary: self.is_binary,
            };
            let ghost fv = f@;
            self.done.push(f);
            assert(file_diffs_view(self.done@) =~= file_diffs_view(before).push(fv));
            assert(hunks_view(self.hunks@) =~= Seq::<HunkView>::empty());
        }
    }

    fn in_hunk(&self) -> (r: bool)
        ensures
            r == in_hunk(self.model()),
    {
        match &self.current {
            Some(h) => {
                let n: usize = h.lines.len();
                let ghost l = diff_lines_view(h.lines@);
                assert(l.take(0) =~= Seq::<LineView>::empty());
                let mut old_lines: usize = 0;
                let mut new_lines: usize = 0;
                let mut i: usize = 0;
                while i < n
                    invariant
                        i <= n,
                        n == h.lines@.len(),
                        l == diff_lines_view(h.lines@),
                        old_lines <= i,
                        new_lines <= i,
                        old_lines == lines_of_side(l.take(i as int), DiffLineKind::Removed),
                        new_lines == lines_of_side(l.take(i as int), DiffLineKind::Added),
                    decreases n - i,
                {
                    proof {
                        assert(l.take(i + 1).drop_last() =~= l.take(i as int));
                        assert(l.take(i + 1).last() == h.lines@[i as int]@);
                    }
                    match h.lines[i].kind {
                        DiffLineKind::Removed => {
                            old_lines = old_lines + 1;
                        },
                        DiffLineKind::Added => {
                            new_lines = new_lines + 1;
                        },
                        DiffLineKind::Context => {
                            old_lines = old_lines + 1;
                            new_lines = new_lines + 1;
                        },
                    }
                    i = i + 1;
                }
                assert(l.take(n as int) =~= l);
                old_lines < h.old_count as usize || new_lines < h.new_count as usize
            },
            None => false,
        }
    }

    fn read_line(&mut self, line: &[char])
        ensures
            final(self).model() == read_line(old(self).model(), line@),
    {
        if let Some(rest) = after(line, "diff --git ") {
            assert(rest@ =~= line@.skip("diff --git "@.len() as int));
            self.close_file();
            self.is_binary = false;
            self.status = FileStatus::Modified;
            self.path = Some(path_in_header(rest));
            return ;
        }
        if let Some(from) = after(line, "rename from ") {
            assert(from@ =~= line@.skip("rename from "@.len() as int));
            self.status = FileStatus::Renamed;
            self.old_path = Some(string_of(trim_of(from)));
            return ;
        }
        if has_prefix(line, "rename to ") || has_prefix(line, "similarity index ") {
            return ;
        }
        if has_prefix(line, "Binary files ") && has_suffix(line, "differ") {
            self.is_binary = true;
            return ;
        }
        if let Some(src) = after(line, "--- ") {
            assert(src@ =~= line@.skip("--- "@.len() as int));
            if !self.in_hunk() {
                if is_text(src, "/dev/null") {
                    self.status = FileStatus::Added;
                }
                return ;
            }
        }
        if let Some(dst) = after(line, "+++ ") {
            assert(dst@ =~= line@.skip("+++ "@.len() as int));
            if !self.in_hunk() {
                if is_text(dst, "/dev/null") {
                    self.status = FileStatus::Deleted;
                }
                return ;
            }
        }
        if let Some(rest) = after(line, "@@ ") {
            assert(rest@ =~= line@.skip("@@ "@.len() as int));
            self.close_hunk();
            let h = parse_hunk_header(rest);
            let hunk = Hunk {
                old_start: h.0,
                old_count: h.1,
                new_start: h.2,
                new_count: h.3,
                lines: Vec::new(),
            };
            assert(hunk@.lines =~= Seq::<LineView>::empty());
            self.current = Some(hunk);
            return ;
        }
        if let Some(mut hunk) = self.current.take() {
            let ghost before = hunk.lines@;
            if let Some(l) = content_line_of(line) {
                hunk.lines.push(l);
                assert(diff_lines_view(hunk.lines@) =~= diff_lines_view(before).push(l@));
            }
            self.current = Some(hunk);
        }
    }
}

fn path_in_header(rest: &[char]) -> (r: String)
    ensures
        r@ == header_path(rest@),
{
    match rfind_text(rest, " b/") {
        Some(p) => {
            let n: usize = rest.len();
            proof {
                reveal_strlit(" b/");
                lemma_rfind(rest@, " b/"@, rest@.len() - 3);
                assert(rest@.subrange(p + 3, n as int) =~= rest@.skip(p + 3));
            }
            string_of(slice_subrange(rest, p + 3, n))
        },
        None => match after(rest, "a/") {
            Some(t) => string_of(t),
            None => string_of(rest),
        },
    }
}

proof fn lemma_rfind(s: Seq<char>, p: Seq<char>, i: int)
    ensures
        crate::text::rfind_from(s, p, i) matches Some(k) ==> crate::text::occurs_at(s, p, k),
    decreases i + 1,
{
    if i >= 0 && !crate::text::occurs_at(s, p, i) {
        lemma_rfind(s, p, i - 1);
    }
}

/// What an optional line says.
spec fn opt_line(l: Option<DiffLine>) -> Option<LineView> {
    match l {
        Some(l) => Some(l@),
        None => None,
    }
}

fn content_line_of(line: &[char]) -> (r: Option<DiffLine>)
    ensures
        opt_line(r) == content_line(line@),
{
    let n: usize = line.len();
    if n == 0 {
        return None;
    }
    let kind = if line[0] == '+' {
        DiffLineKind::Added
    } else if line[0] == '-' {
        DiffLineKind::Removed
    } else if line[0] == ' ' {
        DiffLineKind::Context
    } else {
        return None;
    };
    assert(line@.subrange(1, n as int) =~= line@.skip(1));
    Some(DiffLine { kind, content: string_of(slice_subrange(line, 1, n)) })
}

/// The diffs of the files in a unified diff.
pub fn parse_unified_diff(raw: &str) -> (r: Vec<FileDiff>)
    ensures
        file_diffs_view(r@) == diffs_in(lines(raw@)),
{
    let text = chars_of(raw);
    let all = lines_of(text.as_slice());
    let ghost l = views(all@);
    let mut s = Reading {
        done: Vec::new(),
        path: None,
        old_path: None,
        status: FileStatus::Modified,
        is_binary: false,
        hunks: Vec::new(),
        current: None,
    };
    assert(file_diffs_view(s.done@) =~= Seq::<FileDiffView>::empty());
    assert(hunks_view(s.hunks@) =~= Seq::<HunkView>::empty());
    assert(l.take(0) =~= Seq::<Seq<char>>::empty());
    assert(read_lines(nothing_read(), l.take(0)) == nothing_read());
    let mut i: usize = 0;
    while i < all.len()
        invariant
            i <= all@.len(),
            l == views(all@),
            s.model() == read_lines(nothing_read(), l.take(i as int)),
        decreases all@.len() - i,
    {
        assert(l.take(i + 1).drop_last() =~= l.take(i as int));
        assert(l.take(i + 1).last() == all@[i as int]@);
        s.read_line(all[i]);
        i = i + 1;
    }
    assert(l.take(all@.len() as int) =~= l);
    s.close_file();
    s.done
}

/// The line as a diff writes it: behind a sign for its kind.
pub open spec fn marked(l: LineView) -> Seq<char> {
    (match l.kind {
        DiffLineKind::Added => seq!['+'],
        DiffLineKind::Removed => seq!['-'],
        DiffLineKind::Context => seq![' '],
    }) + l.content
}

/// The sign before a line tells its kind, and what follows is its content, whatever it
/// is; a line that starts otherwise is no content.
pub proof fn law_signs_tell_the_kind(l: LineView, line: Seq<char>)
    ensures
        content_line(marked(l)) == Some(l),
        content_line(line) is Some <==> line.len() > 0 && (line[0] == '+' || line[0] == '-'
            || line[0] == ' '),
{
    assert(marked(l).skip(1) =~= l.content);
}

proof fn lemma_side_counts(lines: Seq<LineView>)
    ensures
        lines_of_side(lines, DiffLineKind::Removed) == lines.filter(
            |l: LineView| l.kind != DiffLineKind::Added,
        ).len(),
        lines_of_side(lines, DiffLineKind::Added) == lines.filter(
            |l: LineView| l.kind != DiffLineKind::Removed,
        ).len(),
    decreases lines.len(),
{
    reveal(Seq::filter);
    if lines.len() > 0 {
        lemma_side_counts(lines.drop_last());
    }
}

proof fn lemma_prefix_counts(lines: Seq<LineView>, k: int)
    requires
        0 <= k < lines.len(),
    ensures
        lines.take(k).filter(|l: LineView| l.kind != DiffLineKind::Added).len() <= lines.filter(
            |l: LineView| l.kind != DiffLineKind::Added,
        ).len(),
        lines.take(k).filter(|l: LineView| l.kind != DiffLineKind::Removed).len() <= lines.filter(
            |l: LineView| l.kind != DiffLineKind::Removed,
        ).len(),
        lines[k].kind != DiffLineKind::Added ==> lines.take(k).filter(
            |l: LineView| l.kind != DiffLineKind::Added,
        ).len() < lines.filter(|l: LineView| l.kind != DiffLineKind::Added).len(),
        lines[k].kind != DiffLineKind::Removed ==> lines.take(k).filter(
            |l: LineView| l.kind != DiffLineKind::Removed,
        ).len() < lines.filter(|l: LineView| l.kind != DiffLineKind::Removed).len(),
    decreases lines.len(),
{
    reveal(Seq::filter);
    let t = lines.drop_last();
    if k < t.len() {
        lemma_prefix_counts(t, k);
        assert(t.take(k) =~= lines.take(k));
        assert(t[k] == lines[k]);
    } else {
        assert(lines.take(k) =~= t);
    }
}

/// A hunk is read whole: where as many lines follow as its header tells, each of them is
/// in the hunk, with its kind and its content, in order.
pub proof fn law_hunk_is_read_whole(s: ReadView, h: HunkView, lines: Seq<LineView>, n: int)
    requires
        s.current == Some(h),
        h.lines.len() == 0,
        h.old_count == lines.filter(|l: LineView| l.kind != DiffLineKind::Added).len(),
        h.new_count == lines.filter(|l: LineView| l.kind != DiffLineKind::Removed).len(),
        0 <= n <= lines.len(),
    ensures
        read_lines(s, lines.map_values(|l: LineView| marked(l)).take(n)) == (ReadView {
            current: Some(HunkView { lines: lines.take(n), ..h }),
            ..s
        }),
    decreases n,
{
    let text = lines.map_values(|l: LineView| marked(l));
    if n <= 0 {
        assert(lines.take(0) =~= h.lines);
        assert(text.take(0) =~= Seq::<Seq<char>>::empty());
    } else {
        law_hunk_is_read_whole(s, h, lines, n - 1);
        assert(text.take(n).drop_last() =~= text.take(n - 1));
        assert(text.take(n).last() == marked(lines[n - 1]));
        let q = read_lines(s, text.take(n - 1));
        lemma_prefix_counts(lines, n - 1);
        lemma_side_counts(lines.take(n - 1));
        assert(in_hunk(q));
        law_signs_tell_the_kind(lines[n - 1], Seq::empty());
        law_content_is_kept(q, marked(lines[n - 1]));
        assert(lines.take(n - 1).push(lines[n - 1]) =~= lines.take(n));
    }
}

/// The header of a file ends the one before: that one is listed with all its hunks, the
/// last one among them, and the next starts with none.
pub proof fn law_next_file_keeps_the_last(s: ReadView, line: Seq<char>)
    requires
        "diff --git "@.is_prefix_of(line),
        s.path is Some,
    ensures
        read_line(s, line).done.len() == s.done.len() + 1,
        s.done.is_prefix_of(read_line(s, line).done),
        read_line(s, line).done.last().path == s.path->0,
        read_line(s, line).done.last().status == s.status,
        read_line(s, line).done.last().old_path == s.old_path,
        read_line(s, line).done.last().hunks == (match s.current {
            Some(h) => s.hunks.push(h),
            None => s.hunks,
        }),
        read_line(s, line).path is Some,
        read_line(s, line).hunks.len() == 0,
        read_line(s, line).current is None,
        read_line(s, line).old_path is None,
        read_line(s, line).status == FileStatus::Modified,
{
    let r = read_line(s, line).done;
    assert(s.done =~= r.subrange(0, s.done.len() as int));
}

/// The next hunk of a file ends the one before, which is kept.
pub proof fn law_next_hunk_keeps_the_last(s: ReadView, line: Seq<char>)
    requires
        "@@ "@.is_prefix_of(line),
    ensures
        read_line(s, line).hunks == (match s.current {
            Some(h) => s.hunks.push(h),
            None => s.hunks,
        }),
        read_line(s, line).current matches Some(h) && h.lines.len() == 0,
        read_line(s, line).path == s.path,
        read_line(s, line).done == s.done,
{
    reveal_strlit("diff --git ");
    reveal_strlit("rename from ");
    reveal_strlit("rename to ");
    reveal_strlit("similarity index ");
    reveal_strlit("Binary files ");
    reveal_strlit("--- ");
    reveal_strlit("+++ ");
    reveal_strlit("@@ ");
    lemma_first_char("diff --git "@, line);
    lemma_first_char("rename from "@, line);
    lemma_first_char("rename to "@, line);
    lemma_first_char("similarity index "@, line);
    lemma_first_char("Binary files "@, line);
    lemma_first_char("--- "@, line);
    lemma_first_char("+++ "@, line);
    lemma_first_char("@@ "@, line);
}

proof fn lemma_digits_apart(n: nat, c: char)
    requires
        !crate::text::is_digit(c),
    ensures
        !dec(n).contains(c),
{
    crate::text::lemma_dec_value(n);
    if dec(n).contains(c) {
        let k = choose|k: int| 0 <= k < dec(n).len() && dec(n)[k] == c;
        assert(crate::text::is_digit(dec(n)[k]));
    }
}

/// The range of a hunk as it is written.
pub open spec fn range_text(start: u32, count: u32) -> Seq<char> {
    dec(start as nat) + seq![','] + dec(count as nat)
}

proof fn lemma_range_text(start: u32, count: u32)
    ensures
        range_spec(range_text(start, count)) == (start, count),
        range_text(start, count).len() > 0,
        forall|k: int|
            0 <= k < range_text(start, count).len() ==> crate::text::is_digit(
                #[trigger] range_text(start, count)[k],
            ) || range_text(start, count)[k] == ',',
{
    let a = dec(start as nat);
    let b = dec(count as nat);
    let s = range_text(start, count);
    crate::text::lemma_dec_value(start as nat);
    crate::text::lemma_dec_value(count as nat);
    lemma_digits_apart(start as nat, ',');
    assert(s[a.len() as int] == ',');
    assert forall|j: int| 0 <= j < a.len() implies s[j] != ',' by {
        assert(s[j] == a[j]);
        assert(a.contains(a[j]));
    }
    crate::text::lemma_char_at_is(s, ',', a.len() as int);
    assert(s.take(a.len() as int) =~= a);
    assert(s.skip(a.len() as int + 1) =~= b);
    crate::text::law_decimal_round_trip(start as nat, u32::MAX as nat);
    crate::text::law_decimal_round_trip(count as nat, u32::MAX as nat);
    assert forall|k: int| 0 <= k < s.len() implies crate::text::is_digit(#[trigger] s[k]) || s[k]
        == ',' by {
        if k < a.len() {
            assert(s[k] == a[k]);
        } else if k > a.len() {
            assert(s[k] == b[k - a.len() - 1]);
        }
    }
}

proof fn lemma_two_words(x: Seq<char>, y: Seq<char>)
    requires
        x.len() > 0,
        y.len() > 0,
        forall|k: int| 0 <= k < x.len() ==> !crate::text::is_space(#[trigger] x[k]),
        forall|k: int| 0 <= k < y.len() ==> !crate::text::is_space(#[trigger] y[k]),
    ensures
        words(x + seq![' '] + y) == seq![x, y],
{
    let s = x + seq![' '] + y;
    let m = x.len() as int;
    let n = s.len() as int;
    assert forall|k: int| 0 <= k < m implies !crate::text::is_space(s[k]) by {
        assert(s[k] == x[k]);
    }
    assert forall|k: int| m + 1 <= k < n implies !crate::text::is_space(s[k]) by {
        assert(s[k] == y[k - m - 1]);
    }
    assert(crate::text::is_space(s[m]));
    crate::text::lemma_word_end(s, 0, m);
    crate::text::lemma_word_end(s, m + 1, n);
    assert(s.subrange(0, m) =~= x);
    assert(s.subrange(m + 1, n) =~= y);
    let last = crate::text::words_from(s, n);
    assert(last =~= Seq::<Seq<char>>::empty());
    assert(crate::text::words_from(s, m + 1) =~= seq![y]);
    assert(crate::text::words_from(s, m) =~= seq![y]);
    assert(words(s) =~= seq![x, y]);
}

proof fn lemma_one_sign_off(c: char, s: Seq<char>)
    requires
        s.len() > 0,
        s[0] != c,
    ensures
        strip_start(seq![c] + s, c) == s,
{
    let t = seq![c] + s;
    assert(t.drop_first() =~= s);
    assert(strip_start(s, c) == s);
}

proof fn lemma_front_of_header(front: Seq<char>, context: Seq<char>)
    requires
        !front.contains('@'),
    ensures
        range_part(front + seq![' ', '@', '@'] + context) == front,
{
    reveal_strlit(" @@");
    let rest = front + seq![' ', '@', '@'] + context;
    let p = front.len() as int;
    assert(rest.subrange(p, p + 3) =~= " @@"@);
    assert(crate::text::occurs_at(rest, " @@"@, p));
    assert forall|j: int| 0 <= j < p implies !crate::text::occurs_at(rest, " @@"@, j) by {
        if crate::text::occurs_at(rest, " @@"@, j) {
            assert(rest.subrange(j, j + 3)[1] == '@');
            assert(rest[j + 1] == '@');
            if j + 1 < p {
                assert(front[j + 1] == '@');
            }
        }
    }
    lemma_find_from(rest, " @@"@, 0);
    assert(find(rest, " @@"@) == Some(p));
    assert(rest.take(p) =~= front);
}

proof fn lemma_signed_range(sign: char, start: u32, count: u32)
    requires
        sign == '-' || sign == '+',
    ensures
        ({
            let x = seq![sign] + range_text(start, count);
            &&& x.len() > 0
            &&& forall|k: int| 0 <= k < x.len() ==> !crate::text::is_space(#[trigger] x[k])
            &&& !x.contains('@')
            &&& range_spec(strip_start(x, sign)) == (start, count)
        }),
{
    let r = range_text(start, count);
    let x = seq![sign] + r;
    lemma_range_text(start, count);
    assert forall|k: int| 0 <= k < x.len() implies !crate::text::is_space(#[trigger] x[k]) && x[k]
        != '@' by {
        if k > 0 {
            assert(x[k] == r[k - 1]);
        }
    }
    assert(crate::text::is_digit(r[0]) || r[0] == ',');
    lemma_one_sign_off(sign, r);
}

/// The four numbers of a hunk header are read back, whatever follows the marks.
pub proof fn law_hunk_header_is_read_back(a: u32, b: u32, c: u32, d: u32, context: Seq<char>)
    ensures
        hunk_header(
            seq!['-'] + range_text(a, b) + seq![' '] + (seq!['+'] + range_text(c, d)) + seq![
                ' ',
                '@',
                '@',
            ] + context,
        ) == (a, b, c, d),
{
    let x = seq!['-'] + range_text(a, b);
    let y = seq!['+'] + range_text(c, d);
    lemma_signed_range('-', a, b);
    lemma_signed_range('+', c, d);
    lemma_header_words(x, y, context);
}

proof fn lemma_header_words(x: Seq<char>, y: Seq<char>, context: Seq<char>)
    requires
        x.len() > 0,
        y.len() > 0,
        forall|k: int| 0 <= k < x.len() ==> !crate::text::is_space(#[trigger] x[k]),
        forall|k: int| 0 <= k < y.len() ==> !crate::text::is_space(#[trigger] y[k]),
        !x.contains('@'),
        !y.contains('@'),
    ensures
        words(range_part(x + seq![' '] + y + seq![' ', '@', '@'] + context)) == seq![x, y],
{
    let front = x + seq![' '] + y;
    assert(!front.contains('@')) by {
        if front.contains('@') {
            let k = choose|k: int| 0 <= k < front.len() && front[k] == '@';
            if k < x.len() {
                assert(x[k] == '@');
            } else if k > x.len() {
                assert(y[k - x.len() - 1] == '@');
            }
        }
    }
    lemma_front_of_header(front, context);
    lemma_two_words(x, y);
}

/// A hunk is open until it has as many lines of the old version and of the new one as
/// its header says.
pub proof fn law_hunk_is_open_until_complete(h: HunkView)
    ensures
        hunk_is_open(h) <==> h.lines.filter(|l: LineView| l.kind != DiffLineKind::Added).len()
            < h.old_count || h.lines.filter(
            |l: LineView| l.kind != DiffLineKind::Removed,
        ).len() < h.new_count,
{
    lemma_lines_of_side(h.lines);
}

proof fn lemma_lines_of_side(lines: Seq<LineView>)
    ensures
        lines_of_side(lines, DiffLineKind::Removed) == lines.filter(
            |l: LineView| l.kind != DiffLineKind::Added,
        ).len(),
        lines_of_side(lines, DiffLineKind::Added) == lines.filter(
            |l: LineView| l.kind != DiffLineKind::Removed,
        ).len(),
    decreases lines.len(),
{
    reveal(Seq::filter);
    if lines.len() > 0 {
        lemma_lines_of_side(lines.drop_last());
    }
}

/// The path of a file is the one on the right-hand side of its header.
pub proof fn law_header_gives_the_new_path(old: Seq<char>, new: Seq<char>)
    requires
        !new.contains(' '),
    ensures
        header_path(old + seq![' ', 'b', '/'] + new) == new,
{
    reveal_strlit(" b/");
    let s = old + seq![' ', 'b', '/'] + new;
    let p = old.len() as int;
    assert(s.subrange(p, p + 3) =~= " b/"@);
    assert(crate::text::occurs_at(s, " b/"@, p));
    crate::text::law_last_occurrence_is_found(s, " b/"@);
    match rfind(s, " b/"@) {
        Some(k) => {
            if k > p {
                assert(s.subrange(k, k + 3)[0] == ' ');
                assert(s[k] == ' ');
                if k >= p + 3 {
                    assert(new[k - p - 3] == ' ');
                }
            }
        },
        None => {},
    }
    assert(s.skip(p + 3) =~= new);
}

} // verus!
