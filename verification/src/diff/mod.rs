//! Structural diffs: what changed in a file, symbol by symbol.
use vstd::prelude::*;

use vstd::slice::slice_subrange;
use vstd::string::*;

use crate::groups::{add_to_group, grouped, groups_view, Key};
use crate::paths::{equal_paths, same_path};
use crate::text::{
    char_at, chars_of, dec, decimal, find_char, find_chars, has, has_string, has_suffix, lines, lowercase,
    lowercased, opt_str, opt_text, parse_i64, parse_int, push_dec, same_text, string_of, strs, trim, trim_of,
};
use crate::types::{EntryView, OutlineEntry, OutlineKind};

use self::pairing::{everything, IdentityView};
use self::parse::{diffs_in, parse_unified_diff};

pub mod matching;
pub mod pairing;
pub mod parse;

verus! {

/// A symbol of one version of a file.
#[derive(Debug)]
pub struct DiffSymbol {
    pub entry: OutlineEntry,
    pub identity: SymbolIdentity,
    pub content_hash: u64,
    pub structural_hash: u64,
    pub source_text: String,
}

/// What a symbol is known by: kind, parents and name.
#[derive(Debug)]
pub struct SymbolIdentity {
    pub kind: OutlineKind,
    pub parent_path: String,
    pub name: String,
}

impl View for SymbolIdentity {
    type V = IdentityView;

    open spec fn view(&self) -> IdentityView {
        IdentityView { kind: self.kind, parent_path: self.parent_path@, name: self.name@ }
    }
}

/// What a symbol says.
pub struct SymbolView {
    pub entry: EntryView,
    pub identity: IdentityView,
    pub content_hash: u64,
    pub structural_hash: u64,
    pub source_text: Seq<char>,
}

impl View for DiffSymbol {
    type V = SymbolView;

    open spec fn view(&self) -> SymbolView {
        SymbolView {
            entry: self.entry@,
            identity: self.identity@,
            content_hash: self.content_hash,
            structural_hash: self.structural_hash,
            source_text: self.source_text@,
        }
    }
}

/// What became of a symbol.
#[derive(Debug)]
pub struct SymbolChange {
    pub name: String,
    pub kind: OutlineKind,
    pub change: ChangeType,
    pub match_confidence: MatchConfidence,
    pub line: u32,
    pub old_sig: Option<String>,
    pub new_sig: Option<String>,
    pub size_delta: Option<(u32, u32)>,
}

/// The ways in which a symbol changes.
#[derive(Debug)]
pub enum ChangeType {
    Added,
    Deleted,
    BodyChanged,
    SignatureChanged,
    Renamed { old_name: String },
    Moved { old_path: String },
    RenamedAndMoved { old_name: String, old_path: String },
    Unchanged,
}

/// How sure a match is. A fuzzy score counts in units of two to the power of
/// minus 24.
#[derive(Debug, Clone, Copy, PartialEq, Eq, Structural)]
pub enum MatchConfidence {
    Exact,
    Structure,
    Fuzzy(u32),
    Ambiguous(u32),
}

/// What a change type says.
pub enum ChangeTypeView {
    Added,
    Deleted,
    BodyChanged,
    SignatureChanged,
    Renamed { old_name: Seq<char> },
    Moved { old_path: Seq<char> },
    RenamedAndMoved { old_name: Seq<char>, old_path: Seq<char> },
    Unchanged,
}

impl View for ChangeType {
    type V = ChangeTypeView;

    open spec fn view(&self) -> ChangeTypeView {
        match *self {
            ChangeType::Added => ChangeTypeView::Added,
            ChangeType::Deleted => ChangeTypeView::Deleted,
            ChangeType::BodyChanged => ChangeTypeView::BodyChanged,
            ChangeType::SignatureChanged => ChangeTypeView::SignatureChanged,
            ChangeType::Renamed { old_name } => ChangeTypeView::Renamed { old_name: old_name@ },
            ChangeType::Moved { old_path } => ChangeTypeView::Moved { old_path: old_path@ },
            ChangeType::RenamedAndMoved { old_name, old_path } => ChangeTypeView::RenamedAndMoved {
                old_name: old_name@,
                old_path: old_path@,
            },
            ChangeType::Unchanged => ChangeTypeView::Unchanged,
        }
    }
}

/// What a symbol change says.
pub struct ChangeView {
    pub name: Seq<char>,
    pub kind: OutlineKind,
    pub change: ChangeTypeView,
    pub match_confidence: MatchConfidence,
    pub line: u32,
    pub old_sig: Option<Seq<char>>,
    pub new_sig: Option<Seq<char>>,
    pub size_delta: Option<(u32, u32)>,
}

impl View for SymbolChange {
    type V = ChangeView;

    open spec fn view(&self) -> ChangeView {
        ChangeView {
            name: self.name@,
            kind: self.kind,
            change: self.change@,
            match_confidence: self.match_confidence,
            line: self.line,
            old_sig: opt_text(self.old_sig),
            new_sig: opt_text(self.new_sig),
            size_delta: self.size_delta,
        }
    }
}

/// What the changes of a list say.
pub open spec fn changes_view(v: Seq<SymbolChange>) -> Seq<ChangeView> {
    v.map_values(|c: SymbolChange| c@)
}

// ---------------------------------------------------------------------------
// Files
// ---------------------------------------------------------------------------

/// Where a diff comes from.
#[derive(Debug)]
pub enum DiffSource {
    GitUncommitted,
    GitStaged,
    GitRef(String),
    Files(String, String),
    Patch(String),
    Log(String),
}

/// The diff of one file.
#[derive(Debug)]
pub struct FileDiff {
    pub path: String,
    pub old_path: Option<String>,
    pub status: FileStatus,
    pub hunks: Vec<Hunk>,
    pub is_generated: bool,
    pub is_binary: bool,
}

/// What happened to a file.
#[derive(Debug, Clone, Copy, PartialEq, Eq, Structural)]
pub enum FileStatus {
    Added,
    Modified,
    Deleted,
    Renamed,
}

/// A run of changed lines with their surroundings.
#[derive(Debug)]
pub struct Hunk {
    pub old_start: u32,
    pub old_count: u32,
    pub new_start: u32,
    pub new_count: u32,
    pub lines: Vec<DiffLine>,
}

/// One line of a hunk.
#[derive(Debug)]
pub struct DiffLine {
    pub kind: DiffLineKind,
    pub content: String,
}

/// What a line of a hunk stands for.
#[derive(Debug, Clone, Copy, PartialEq, Eq, Structural)]
pub enum DiffLineKind {
    Context,
    Added,
    Removed,
}

/// What a source says.
pub enum SourceView {
    GitUncommitted,
    GitStaged,
    GitRef(Seq<char>),
    Files(Seq<char>, Seq<char>),
    Patch(Seq<char>),
    Log(Seq<char>),
}

impl View for DiffSource {
    type V = SourceView;

    open spec fn view(&self) -> SourceView {
        match *self {
            DiffSource::GitUncommitted => SourceView::GitUncommitted,
            DiffSource::GitStaged => SourceView::GitStaged,
            DiffSource::GitRef(r) => SourceView::GitRef(r@),
            DiffSource::Files(a, b) => SourceView::Files(a@, b@),
            DiffSource::Patch(p) => SourceView::Patch(p@),
            DiffSource::Log(r) => SourceView::Log(r@),
        }
    }
}

/// What a line says.
pub struct LineView {
    pub kind: DiffLineKind,
    pub content: Seq<char>,
}

impl View for DiffLine {
    type V = LineView;

    open spec fn view(&self) -> LineView {
        LineView { kind: self.kind, content: self.content@ }
    }
}

/// What the lines of a list say.
pub open spec fn diff_lines_view(v: Seq<DiffLine>) -> Seq<LineView> {
    v.map_values(|l: DiffLine| l@)
}

/// What a hunk says.
pub struct HunkView {
    pub old_start: u32,
    pub old_count: u32,
    pub new_start: u32,
    pub new_count: u32,
    pub lines: Seq<LineView>,
}

impl View for Hunk {
    type V = HunkView;

    open spec fn view(&self) -> HunkView {
        HunkView {
            old_start: self.old_start,
            old_count: self.old_count,
            new_start: self.new_start,
            new_count: self.new_count,
            lines: diff_lines_view(self.lines@),
        }
    }
}

/// What the hunks of a list say.
pub open spec fn hunks_view(v: Seq<Hunk>) -> Seq<HunkView> {
    v.map_values(|h: Hunk| h@)
}

/// What the diff of a file says.
pub struct FileDiffView {
    pub path: Seq<char>,
    pub old_path: Option<Seq<char>>,
    pub status: FileStatus,
    pub hunks: Seq<HunkView>,
    pub is_generated: bool,
    pub is_binary: bool,
}

impl View for FileDiff {
    type V = FileDiffView;

    open spec fn view(&self) -> FileDiffView {
        FileDiffView {
            path: self.path@,
            old_path: opt_text(self.old_path),
            status: self.status,
            hunks: hunks_view(self.hunks@),
            is_generated: self.is_generated,
            is_binary: self.is_binary,
        }
    }
}

/// What the diffs of a list say.
pub open spec fn file_diffs_view(v: Seq<FileDiff>) -> Seq<FileDiffView> {
    v.map_values(|f: FileDiff| f@)
}

// ---------------------------------------------------------------------------
// Choosing the source
// ---------------------------------------------------------------------------

/// The source that the arguments name: a patch first, then a log, then two files,
/// then a git source; uncommitted changes where there is none. One of two files
/// alone names nothing.
pub open spec fn source_for(
    source: Option<Seq<char>>,
    a: Option<Seq<char>>,
    b: Option<Seq<char>>,
    patch: Option<Seq<char>>,
    log: Option<Seq<char>>,
) -> Option<SourceView> {
    match (patch, log, a, b, source) {
        (Some(p), _, _, _, _) => Some(SourceView::Patch(p)),
        (None, Some(l), _, _, _) => Some(SourceView::Log(l)),
        (None, None, Some(x), Some(y), _) => Some(SourceView::Files(x, y)),
        (None, None, Some(_), None, _) => None,
        (None, None, None, Some(_), _) => None,
        (None, None, None, None, Some(s)) => Some(
            if s == "staged"@ {
                SourceView::GitStaged
            } else if s == "uncommitted"@ || s == "working"@ {
                SourceView::GitUncommitted
            } else {
                SourceView::GitRef(s)
            },
        ),
        (None, None, None, None, None) => Some(SourceView::GitUncommitted),
    }
}

/// The source that the arguments name.
pub fn resolve_source(
    source: Option<&str>,
    a: Option<&str>,
    b: Option<&str>,
    patch: Option<&str>,
    log: Option<&str>,
) -> (r: Result<DiffSource, String>)
    ensures
        r matches Ok(d) ==> source_for(
            opt_str(source),
            opt_str(a),
            opt_str(b),
            opt_str(patch),
            opt_str(log),
        ) == Some(d@),
        r matches Err(e) ==> source_for(
            opt_str(source),
            opt_str(a),
            opt_str(b),
            opt_str(patch),
            opt_str(log),
        ) is None && e@ == "both --a and --b must be provided together"@,
{
    if let Some(p) = patch {
        return Ok(DiffSource::Patch(p.to_owned()));
    }
    if let Some(l) = log {
        return Ok(DiffSource::Log(l.to_owned()));
    }
    match (a, b) {
        (Some(fa), Some(fb)) => {
            return Ok(DiffSource::Files(fa.to_owned(), fb.to_owned()));
        },
        (Some(_), None) => {
            return Err("both --a and --b must be provided together".to_owned());
        },
        (None, Some(_)) => {
            return Err("both --a and --b must be provided together".to_owned());
        },
        (None, None) => {},
    }
    if let Some(s) = source {
        if same_text(s, "staged") {
            return Ok(DiffSource::GitStaged);
        }
        if same_text(s, "uncommitted") || same_text(s, "working") {
            return Ok(DiffSource::GitUncommitted);
        }
        return Ok(DiffSource::GitRef(s.to_owned()));
    }
    Ok(DiffSource::GitUncommitted)
}

/// How to get the raw diff.
#[derive(Debug)]
pub enum DiffCommand {
    /// Run git with these arguments.
    Git(Vec<String>),
    /// Read the patch file.
    ReadPatch(String),
}

/// What a command says.
pub enum CommandView {
    Git(Seq<Seq<char>>),
    ReadPatch(Seq<char>),
}

impl View for DiffCommand {
    type V = CommandView;

    open spec fn view(&self) -> CommandView {
        match *self {
            DiffCommand::Git(args) => CommandView::Git(strs(args@)),
            DiffCommand::ReadPatch(p) => CommandView::ReadPatch(p@),
        }
    }
}

/// How to get the raw diff of a source. A log has none of its own.
pub open spec fn command_for(source: SourceView) -> Option<CommandView> {
    match source {
        SourceView::GitUncommitted => Some(CommandView::Git(seq!["diff"@, "HEAD"@])),
        SourceView::GitStaged => Some(CommandView::Git(seq!["diff"@, "--staged"@])),
        SourceView::GitRef(r) => Some(CommandView::Git(seq!["diff"@, r])),
        SourceView::Files(a, b) => Some(
            CommandView::Git(seq!["diff"@, "--no-index"@, "--"@, a, b]),
        ),
        SourceView::Patch(p) => Some(CommandView::ReadPatch(p)),
        SourceView::Log(_) => None,
    }
}

/// How to get the raw diff of a source.
pub fn diff_command(source: &DiffSource) -> (r: Result<DiffCommand, String>)
    ensures
        r matches Ok(c) ==> command_for(source@) == Some(c@),
        r matches Err(e) ==> command_for(source@) is None && e@
            == "log mode should not call run_git_diff directly"@,
{
    broadcast use crate::text::lemma_strs_push;

    let mut args: Vec<String> = Vec::new();
    args.push("diff".to_owned());
    match source {
        DiffSource::Log(_) => {
            return Err("log mode should not call run_git_diff directly".to_owned());
        },
        DiffSource::Patch(p) => {
            return Ok(DiffCommand::ReadPatch(p.clone()));
        },
        DiffSource::GitUncommitted => {
            args.push("HEAD".to_owned());
        },
        DiffSource::GitStaged => {
            args.push("--staged".to_owned());
        },
        DiffSource::GitRef(r) => {
            args.push(r.clone());
        },
        DiffSource::Files(a, b) => {
            args.push("--no-index".to_owned());
            args.push("--".to_owned());
            args.push(a.clone());
            args.push(b.clone());
        },
    }
    let c = DiffCommand::Git(args);
    assert(c@->Git_0 =~= command_for(source@)->0->Git_0);
    Ok(c)
}

/// The label of a source.
pub open spec fn label(source: SourceView) -> Seq<char> {
    match source {
        SourceView::GitUncommitted => "uncommitted"@,
        SourceView::GitStaged => "staged"@,
        SourceView::GitRef(r) => r,
        SourceView::Files(a, b) => a + " vs "@ + b,
        SourceView::Patch(p) => "patch: "@ + p,
        SourceView::Log(r) => "log: "@ + r,
    }
}

/// The label of a source.
pub fn source_label(source: &DiffSource) -> (r: String)
    ensures
        r@ == label(source@),
{
    match source {
        DiffSource::GitUncommitted => "uncommitted".to_owned(),
        DiffSource::GitStaged => "staged".to_owned(),
        DiffSource::GitRef(r) => r.clone(),
        DiffSource::Files(a, b) => {
            let mut s = a.clone();
            s.append(" vs ");
            s.append(b.as_str());
            s
        },
        DiffSource::Patch(p) => {
            let mut s = "patch: ".to_owned();
            s.append(p.as_str());
            s
        },
        DiffSource::Log(r) => {
            let mut s = "log: ".to_owned();
            s.append(r.as_str());
            s
        },
    }
}

// ---------------------------------------------------------------------------
// Overlays
// ---------------------------------------------------------------------------

/// The changes of a file by symbol.
#[derive(Debug)]
pub struct FileOverlay {
    pub path: String,
    pub symbol_changes: Vec<SymbolChange>,
    pub attributed_hunks: Vec<(String, Vec<DiffLine>)>,
    pub conflicts: Vec<Conflict>,
    pub new_content: Option<String>,
}

/// A merge conflict.
#[derive(Debug)]
pub struct Conflict {
    pub line: u32,
    pub ours: String,
    pub theirs: String,
    pub enclosing_fn: Option<String>,
}

/// One commit of a log with its overlays.
#[derive(Debug)]
pub struct CommitSummary {
    pub hash: String,
    pub timestamp: i64,
    pub message: String,
    pub author: String,
    pub overlays: Vec<FileOverlay>,
}

/// The lines that belong to a symbol.
pub struct AttributedView {
    pub name: Seq<char>,
    pub lines: Seq<LineView>,
}

/// What attributed lines say.
pub open spec fn attributed_view(v: Seq<(String, Vec<DiffLine>)>) -> Seq<AttributedView> {
    v.map_values(
        |h: (String, Vec<DiffLine>)| AttributedView { name: h.0@, lines: diff_lines_view(h.1@) },
    )
}

/// What an overlay says.
pub struct OverlayView {
    pub path: Seq<char>,
    pub symbol_changes: Seq<ChangeView>,
    pub attributed_hunks: Seq<AttributedView>,
    pub conflicts: Seq<Conflict>,
    pub new_content: Option<Seq<char>>,
}

impl View for FileOverlay {
    type V = OverlayView;

    open spec fn view(&self) -> OverlayView {
        OverlayView {
            path: self.path@,
            symbol_changes: changes_view(self.symbol_changes@),
            attributed_hunks: attributed_view(self.attributed_hunks@),
            conflicts: self.conflicts@,
            new_content: opt_text(self.new_content),
        }
    }
}

/// What the overlays of a list say.
pub open spec fn overlays_view(v: Seq<FileOverlay>) -> Seq<OverlayView> {
    v.map_values(|o: FileOverlay| o@)
}

/// The text holds the term, both taken in lower case.
pub open spec fn mentions(s: Seq<char>, term: Seq<char>) -> bool {
    has(lowercased(s), lowercased(term))
}

/// One of the first `n` lines mentions the term.
pub open spec fn line_mentions(lines: Seq<LineView>, term: Seq<char>) -> bool {
    exists|i: int| 0 <= i < lines.len() && mentions((#[trigger] lines[i]).content, term)
}

/// A symbol of the overlay is found by the term: in its name or in its lines.
pub open spec fn found(o: OverlayView, name: Seq<char>, term: Seq<char>) -> bool {
    ||| exists|i: int|
        0 <= i < o.attributed_hunks.len() && (#[trigger] o.attributed_hunks[i]).name == name
            && line_mentions(o.attributed_hunks[i].lines, term)
    ||| exists|i: int|
        0 <= i < o.symbol_changes.len() && (#[trigger] o.symbol_changes[i]).name == name
            && mentions(name, term)
}

/// The overlay with what is found by the term.
pub open spec fn narrowed(o: OverlayView, term: Seq<char>) -> OverlayView {
    OverlayView {
        symbol_changes: o.symbol_changes.filter(|x: ChangeView| found(o, x.name, term)),
        attributed_hunks: o.attributed_hunks.filter(
            |x: AttributedView| found(o, x.name, term),
        ),
        ..o
    }
}

/// Something in the overlay is found by the term.
pub open spec fn any_found(o: OverlayView, term: Seq<char>) -> bool {
    exists|name: Seq<char>| found(o, name, term)
}

/// The overlays in which something is found, with what is found.
pub open spec fn search_filtered(v: Seq<OverlayView>, term: Seq<char>) -> Seq<OverlayView>
    decreases v.len(),
{
    if v.len() == 0 {
        v
    } else {
        let r = search_filtered(v.drop_last(), term);
        if any_found(v.last(), term) {
            r.push(narrowed(v.last(), term))
        } else {
            r
        }
    }
}

fn mentions_lower(s: &str, lower: &[char]) -> (r: bool)
    ensures
        r == has(lowercased(s@), lower@),
{
    let t = chars_of(lowercase(s).as_str());
    proof {
        crate::text::lemma_has_find(t@, lower@);
    }
    find_chars(t.as_slice(), lower, 0).is_some()
}

/// The names in the overlay that the term finds.
fn found_names(o: &FileOverlay, term: &str) -> (r: Vec<String>)
    ensures
        forall|name: Seq<char>| strs(r@).contains(name) == found(o@, name, term@),
{
    broadcast use crate::text::lemma_strs_push;

    let lower = chars_of(lowercase(term).as_str());
    let ghost v = o@;
    let mut r: Vec<String> = Vec::new();
    let mut i: usize = 0;
    while i < o.attributed_hunks.len()
        invariant
            i <= o.attributed_hunks@.len(),
            v == o@,
            lower@ == lowercased(term@),
            forall|name: Seq<char>| #[trigger]
                strs(r@).contains(name) == exists|k: int|
                    0 <= k < i && (#[trigger] v.attributed_hunks[k]).name == name && line_mentions(
                        v.attributed_hunks[k].lines,
                        term@,
                    ),
        decreases o.attributed_hunks@.len() - i,
    {
        let h = &o.attributed_hunks[i];
        let ghost hv = v.attributed_hunks[i as int];
        assert(hv.name == h.0@ && hv.lines == diff_lines_view(h.1@));
        let mut hit = false;
        let mut j: usize = 0;
        while j < h.1.len()
            invariant
                j <= h.1@.len(),
                hv.lines == diff_lines_view(h.1@),
                lower@ == lowercased(term@),
                hit == exists|k: int|
                    0 <= k < j && mentions((#[trigger] hv.lines[k]).content, term@),
            decreases h.1@.len() - j,
        {
            assert(hv.lines[j as int].content == h.1@[j as int].content@);
            if mentions_lower(h.1[j].content.as_str(), lower.as_slice()) {
                hit = true;
            }
            j = j + 1;
        }
        assert(hit == line_mentions(hv.lines, term@));
        let ghost before = strs(r@);
        if hit {
            r.push(h.0.clone());
            assert(strs(r@) =~= before.push(hv.name));
        }
        proof {
            assert forall|name: Seq<char>| #[trigger]
                strs(r@).contains(name) == exists|k: int|
                    0 <= k < i + 1 && (#[trigger] v.attributed_hunks[k]).name == name
                        && line_mentions(v.attributed_hunks[k].lines, term@) by {
                lemma_push_contains(before, hv.name, name);
                if strs(r@).contains(name) {
                    if hit && name == hv.name {
                        assert(v.attributed_hunks[i as int].name == name);
                    } else {
                        assert(before.contains(name));
                    }
                }
                if exists|k: int|
                    0 <= k < i + 1 && (#[trigger] v.attributed_hunks[k]).name == name
                        && line_mentions(v.attributed_hunks[k].lines, term@) {
                    let k = choose|k: int|
                        0 <= k < i + 1 && (#[trigger] v.attributed_hunks[k]).name == name
                            && line_mentions(v.attributed_hunks[k].lines, term@);
                    if k < i {
                        assert(before.contains(name));
                    }
                }
            }
        }
        i = i + 1;
    }
    let ghost hunks = strs(r@);
    let mut i: usize = 0;
    while i < o.symbol_changes.len()
        invariant
            i <= o.symbol_changes@.len(),
            v == o@,
            lower@ == lowercased(term@),
            forall|name: Seq<char>| #[trigger]
                strs(r@).contains(name) == (hunks.contains(name) || exists|k: int|
                    0 <= k < i && (#[trigger] v.symbol_changes[k]).name == name && mentions(
                        name,
                        term@,
                    )),
        decreases o.symbol_changes@.len() - i,
    {
        let c = &o.symbol_changes[i];
        let ghost cv = v.symbol_changes[i as int];
        assert(cv.name == c.name@);
        let ghost before = strs(r@);
        let hit = mentions_lower(c.name.as_str(), lower.as_slice());
        if hit {
            r.push(c.name.clone());
            assert(strs(r@) =~= before.push(cv.name));
        }
        proof {
            assert forall|name: Seq<char>| #[trigger]
                strs(r@).contains(name) == (hunks.contains(name) || exists|k: int|
                    0 <= k < i + 1 && (#[trigger] v.symbol_changes[k]).name == name && mentions(
                        name,
                        term@,
                    )) by {
                lemma_push_contains(before, cv.name, name);
                if strs(r@).contains(name) {
                    if hit && name == cv.name {
                        assert(v.symbol_changes[i as int].name == name);
                    } else {
                        assert(before.contains(name));
                    }
                }
                if exists|k: int|
                    0 <= k < i + 1 && (#[trigger] v.symbol_changes[k]).name == name && mentions(
                        name,
                        term@,
                    ) {
                    let k = choose|k: int|
                        0 <= k < i + 1 && (#[trigger] v.symbol_changes[k]).name == name && mentions(
                            name,
                            term@,
                        );
                    if k < i {
                        assert(before.contains(name));
                    }
                }
            }
        }
        i = i + 1;
    }
    r
}

proof fn lemma_push_contains(s: Seq<Seq<char>>, x: Seq<char>, y: Seq<char>)
    ensures
        s.push(x).contains(y) == (s.contains(y) || x == y),
{
    let t = s.push(x);
    if s.contains(y) {
        let k = choose|k: int| 0 <= k < s.len() && s[k] == y;
        assert(t[k] == y);
    }
    assert(t[s.len() as int] == x);
    if t.contains(y) && x != y {
        let k = choose|k: int| 0 <= k < t.len() && t[k] == y;
        assert(s[k] == y);
    }
}

/// The overlay with what is found by the names.
fn narrow(o: FileOverlay, names: &Vec<String>, Ghost(term): Ghost<Seq<char>>) -> (r: FileOverlay)
    requires
        forall|name: Seq<char>| strs(names@).contains(name) == found(o@, name, term),
    ensures
        r@ == narrowed(o@, term),
{
    let ghost v = o@;
    let FileOverlay { path, symbol_changes, attributed_hunks, conflicts, new_content } = o;
    let ghost keep_change = |x: ChangeView| found(v, x.name, term);
    let ghost keep_hunk = |x: AttributedView| found(v, x.name, term);
    let mut left = symbol_changes;
    let mut changes: Vec<SymbolChange> = Vec::new();
    let ghost all = v.symbol_changes;
    let n: usize = left.len();
    let mut i: usize = 0;
    proof {
        reveal(Seq::filter);
        assert(all.skip(0) =~= all);
        assert(changes_view(changes@) =~= all.take(0).filter(keep_change));
    }
    while i < n
        invariant
            i <= n,
            n == all.len(),
            left@.len() == n - i,
            changes_view(left@) == all.skip(i as int),
            keep_change == (|x: ChangeView| found(v, x.name, term)),
            changes_view(changes@) == all.take(i as int).filter(keep_change),
            forall|name: Seq<char>| strs(names@).contains(name) == found(v, name, term),
        decreases n - i,
    {
        let ghost was = left@;
        let x = left.remove(0);
        let ghost xv = x@;
        let ghost before = changes_view(changes@);
        proof {
            reveal(Seq::filter);
            assert(changes_view(was)[0] == xv);
            assert(all.skip(i as int)[0] == all[i as int]);
            assert(changes_view(left@) =~= changes_view(was).skip(1));
            assert(all.skip(i as int).skip(1) =~= all.skip(i + 1));
            assert(all.take(i + 1).drop_last() =~= all.take(i as int));
            assert(all.take(i + 1).last() == xv);
        }
        if has_string(names.as_slice(), x.name.as_str()) {
            changes.push(x);
            assert(changes_view(changes@) =~= before.push(xv));
        }
        i = i + 1;
    }
    assert(all.take(n as int) =~= all);
    let mut left = attributed_hunks;
    let mut hunks: Vec<(String, Vec<DiffLine>)> = Vec::new();
    let ghost all = v.attributed_hunks;
    let n: usize = left.len();
    let mut i: usize = 0;
    proof {
        reveal(Seq::filter);
        assert(all.skip(0) =~= all);
        assert(attributed_view(hunks@) =~= all.take(0).filter(keep_hunk));
    }
    while i < n
        invariant
            i <= n,
            n == all.len(),
            left@.len() == n - i,
            attributed_view(left@) == all.skip(i as int),
            keep_hunk == (|x: AttributedView| found(v, x.name, term)),
            attributed_view(hunks@) == all.take(i as int).filter(keep_hunk),
            forall|name: Seq<char>| strs(names@).contains(name) == found(v, name, term),
        decreases n - i,
    {
        let ghost was = left@;
        let x = left.remove(0);
        let ghost xv = AttributedView { name: x.0@, lines: diff_lines_view(x.1@) };
        let ghost before = attributed_view(hunks@);
        proof {
            reveal(Seq::filter);
            assert(attributed_view(was)[0] == xv);
            assert(all.skip(i as int)[0] == all[i as int]);
            assert(attributed_view(left@) =~= attributed_view(was).skip(1));
            assert(all.skip(i as int).skip(1) =~= all.skip(i + 1));
            assert(all.take(i + 1).drop_last() =~= all.take(i as int));
            assert(all.take(i + 1).last() == xv);
        }
        if has_string(names.as_slice(), x.0.as_str()) {
            hunks.push(x);
            assert(attributed_view(hunks@) =~= before.push(xv));
        }
        i = i + 1;
    }
    assert(all.take(n as int) =~= all);
    FileOverlay { path, symbol_changes: changes, attributed_hunks: hunks, conflicts, new_content }
}

/// Keeps what is found by the term, and the files in which something is.
pub fn filter_by_search(overlays: &mut Vec<FileOverlay>, term: &str)
    ensures
        overlays_view(final(overlays)@) == search_filtered(overlays_view(old(overlays)@), term@),
{
    let ghost all = overlays_view(overlays@);
    let n: usize = overlays.len();
    let mut out: Vec<FileOverlay> = Vec::new();
    let mut i: usize = 0;
    assert(overlays_view(out@) =~= search_filtered(all.take(0), term@));
    assert(all.skip(0) =~= all);
    while i < n
        invariant
            i <= n,
            n == all.len(),
            overlays@.len() == n - i,
            overlays_view(overlays@) == all.skip(i as int),
            overlays_view(out@) == search_filtered(all.take(i as int), term@),
        decreases n - i,
    {
        let ghost was = overlays@;
        let o = overlays.remove(0);
        let ghost before = overlays_view(out@);
        let ghost ov = o@;
        proof {
            assert(overlays_view(was)[0] == ov);
            assert(all.skip(i as int)[0] == all[i as int]);
            assert(overlays_view(overlays@) =~= overlays_view(was).skip(1));
            assert(all.skip(i as int).skip(1) =~= all.skip(i + 1));
            assert(all.take(i + 1).drop_last() =~= all.take(i as int));
            assert(all.take(i + 1).last() == ov);
        }
        let names = found_names(&o, term);
        if names.len() > 0 {
            proof {
                assert(strs(names@)[0] == names@[0]@);
                assert(strs(names@).contains(names@[0]@));
                assert(found(ov, names@[0]@, term@));
            }
            let r = narrow(o, &names, Ghost(term@));
            let ghost rv = r@;
            out.push(r);
            assert(overlays_view(out@) =~= before.push(rv));
        } else {
            assert forall|name: Seq<char>| !found(ov, name, term@) by {
                assert(!strs(names@).contains(name));
            }
        }
        i = i + 1;
    }
    assert(all.take(n as int) =~= all);
    std::mem::swap(overlays, &mut out);
}

// ---------------------------------------------------------------------------
// Warnings
// ---------------------------------------------------------------------------

/// The names of the symbols whose signature changed, among the first `n` changes.
pub open spec fn signature_changes(c: Seq<ChangeView>) -> Seq<Seq<char>>
    decreases c.len(),
{
    if c.len() == 0 {
        Seq::empty()
    } else {
        let r = signature_changes(c.drop_last());
        if c.last().change is SignatureChanged && !r.contains(c.last().name) {
            r.push(c.last().name)
        } else {
            r
        }
    }
}

/// All changes of the overlays.
pub open spec fn all_changes(v: Seq<OverlayView>) -> Seq<ChangeView>
    decreases v.len(),
{
    if v.len() == 0 {
        Seq::empty()
    } else {
        all_changes(v.drop_last()) + v.last().symbol_changes
    }
}

/// The names of the symbols whose signature changed, each once.
pub fn changed_signatures(overlays: &[FileOverlay]) -> (r: Vec<String>)
    ensures
        strs(r@) == signature_changes(all_changes(overlays_view(overlays@))),
{
    broadcast use crate::text::lemma_strs_push;

    let ghost v = overlays_view(overlays@);
    let mut r: Vec<String> = Vec::new();
    let mut i: usize = 0;
    assert(v.take(0) =~= Seq::<OverlayView>::empty());
    assert(all_changes(v.take(0)) =~= Seq::empty());
    assert(strs(r@) =~= signature_changes(all_changes(v.take(0))));
    while i < overlays.len()
        invariant
            i <= overlays@.len(),
            v == overlays_view(overlays@),
            strs(r@) == signature_changes(all_changes(v.take(i as int))),
        decreases overlays@.len() - i,
    {
        let o = &overlays[i];
        let ghost so_far = all_changes(v.take(i as int));
        let ghost own = o@.symbol_changes;
        assert(v.take(i + 1).drop_last() =~= v.take(i as int));
        assert(v.take(i + 1).last() == o@);
        let mut j: usize = 0;
        assert(so_far + own.take(0) =~= so_far);
        while j < o.symbol_changes.len()
            invariant
                j <= o.symbol_changes@.len(),
                own == changes_view(o.symbol_changes@),
                strs(r@) == signature_changes(so_far + own.take(j as int)),
            decreases o.symbol_changes@.len() - j,
        {
            let c = &o.symbol_changes[j];
            let ghost t = so_far + own.take(j + 1);
            assert(t.drop_last() =~= so_far + own.take(j as int));
            assert(t.last() == c@);
            let changed = match c.change {
                ChangeType::SignatureChanged => true,
                _ => false,
            };
            if changed && !has_string(r.as_slice(), c.name.as_str()) {
                r.push(c.name.clone());
            }
            j = j + 1;
        }
        assert(own.take(o.symbol_changes@.len() as int) =~= own);
        i = i + 1;
    }
    assert(v.take(overlays@.len() as int) =~= v);
    r
}

impl Key for String {
    type K = Seq<char>;

    open spec fn key(&self) -> Seq<char> {
        self@
    }

    fn same(&self, other: &Self) -> (r: bool) {
        same_text(self.as_str(), other.as_str())
    }

    fn copied(&self) -> (r: Self) {
        self.clone()
    }
}

/// The callers of each target, in the order in which the targets first occur.
pub open spec fn callers_by_target(targets: Seq<Seq<char>>) -> Seq<(Seq<char>, Seq<int>)> {
    grouped(targets, everything(targets.len() as int), targets.len() as int)
}

/// The warning that a symbol with callers has another signature.
pub open spec fn blast_warning(name: Seq<char>, count: nat) -> Seq<char> {
    "blast: `"@ + name + "` signature changed — "@ + dec(count) + " caller"@ + (if count == 1 {
        ""@
    } else {
        "s"@
    }) + " may need updating"@
}

/// A warning for each symbol that is called, with the number of its callers.
pub open spec fn blast_warnings(targets: Seq<Seq<char>>) -> Seq<Seq<char>> {
    callers_by_target(targets).map_values(
        |g: (Seq<char>, Seq<int>)| blast_warning(g.0, g.1.len()),
    )
}

/// The warnings for the symbols that the calls are to.
pub fn compute_blast(targets: &[String]) -> (r: Vec<String>)
    ensures
        strs(r@) == blast_warnings(strs(targets@)),
{
    broadcast use crate::text::lemma_strs_push;

    let ghost t = strs(targets@);
    let n: usize = targets.len();
    let mut groups: Vec<(String, Vec<usize>)> = Vec::new();
    let mut i: usize = 0;
    assert(groups_view(groups@) =~= Seq::empty());
    while i < n
        invariant
            i <= n,
            n == targets@.len(),
            t == strs(targets@),
            groups_view(groups@) == grouped(t, everything(n as int), i as int),
        decreases n - i,
    {
        assert(t[i as int] == targets@[i as int].key());
        add_to_group(&mut groups, &targets[i], i);
        i = i + 1;
    }
    let ghost g = groups_view(groups@);
    let mut r: Vec<String> = Vec::new();
    let mut k: usize = 0;
    while k < groups.len()
        invariant
            k <= groups@.len(),
            g == groups_view(groups@),
            r@.len() == k,
            forall|j: int| 0 <= j < k ==> (#[trigger] r@[j])@ == blast_warning(g[j].0, g[j].1.len()),
        decreases groups@.len() - k,
    {
        let count: usize = groups[k].1.len();
        let mut s = "blast: `".to_owned();
        s.append(groups[k].0.as_str());
        s.append("` signature changed — ");
        push_dec(&mut s, count);
        s.append(" caller");
        s.append(
            if count == 1 {
                ""
            } else {
                "s"
            },
        );
        s.append(" may need updating");
        assert(g[k as int].0 == groups@[k as int].0@);
        assert(g[k as int].1.len() == count);
        r.push(s);
        k = k + 1;
    }
    assert(strs(r@) =~= blast_warnings(t));
    r
}

// ---------------------------------------------------------------------------
// What a diff shows
// ---------------------------------------------------------------------------

/// What a diff shows.
#[derive(Debug)]
pub enum DiffReport {
    /// Only this message.
    Message(String),
    /// All overlays.
    Overview,
    /// One symbol of one overlay.
    Function(usize, String),
    /// One overlay.
    File(usize),
}

/// What a report says.
pub enum ReportView {
    Message(Seq<char>),
    Overview,
    Function(int, Seq<char>),
    File(int),
}

impl View for DiffReport {
    type V = ReportView;

    open spec fn view(&self) -> ReportView {
        match *self {
            DiffReport::Message(m) => ReportView::Message(m@),
            DiffReport::Overview => ReportView::Overview,
            DiffReport::Function(i, n) => ReportView::Function(i as int, n@),
            DiffReport::File(i) => ReportView::File(i as int),
        }
    }
}

/// The file is the one that the scope names, in full or by the end of its path.
pub open spec fn in_scope(path: Seq<char>, file: Seq<char>) -> bool {
    file.is_suffix_of(path)
}

/// The first overlay from `i` on whose file is in scope.
pub open spec fn first_in_scope(v: Seq<OverlayView>, file: Seq<char>, i: int) -> Option<int>
    decreases v.len() - i,
{
    if i < 0 || i >= v.len() {
        None
    } else if in_scope(v[i].path, file) {
        Some(i)
    } else {
        first_in_scope(v, file, i + 1)
    }
}

/// What is shown for a scope: a file, or after a colon a symbol in it.
pub open spec fn scope_report(v: Seq<OverlayView>, scope: Option<Seq<char>>) -> Result<
    ReportView,
    Seq<char>,
> {
    match scope {
        None => Ok(ReportView::Overview),
        Some(s) => {
            let file = match char_at(s, ':') {
                Some(i) => s.take(i),
                None => s,
            };
            match first_in_scope(v, file, 0) {
                None => Err("file '"@ + file + "' not found in diff"@),
                Some(k) => match char_at(s, ':') {
                    Some(i) => Ok(ReportView::Function(k, s.skip(i + 1))),
                    None => Ok(ReportView::File(k)),
                },
            }
        },
    }
}

/// What a diff shows: a message where nothing changed or nothing is found, else
/// what the scope asks for.
pub open spec fn report(
    raw: Seq<char>,
    overlays: Seq<OverlayView>,
    scope: Option<Seq<char>>,
    search: Option<Seq<char>>,
) -> Result<ReportView, Seq<char>> {
    if diffs_in(lines(raw)).len() == 0 {
        Ok(ReportView::Message("No changes."@))
    } else {
        match search {
            Some(term) => {
                let v = search_filtered(overlays, term);
                if v.len() == 0 {
                    Ok(ReportView::Message("No changes matching '"@ + term + "'."@))
                } else {
                    scope_report(v, scope)
                }
            },
            None => scope_report(overlays, scope),
        }
    }
}

/// The overlays that a diff keeps.
pub open spec fn kept_overlays(
    raw: Seq<char>,
    overlays: Seq<OverlayView>,
    search: Option<Seq<char>>,
) -> Seq<OverlayView> {
    match search {
        Some(term) => if diffs_in(lines(raw)).len() == 0 {
            overlays
        } else {
            search_filtered(overlays, term)
        },
        None => overlays,
    }
}

/// What an outcome says.
pub open spec fn outcome(r: Result<DiffReport, String>) -> Result<ReportView, Seq<char>> {
    match r {
        Ok(d) => Ok(d@),
        Err(e) => Err(e@),
    }
}

fn find_in_scope(overlays: &Vec<FileOverlay>, file: &str) -> (r: Option<usize>)
    ensures
        r matches Some(k) ==> k < overlays@.len() && first_in_scope(
            overlays_view(overlays@),
            file@,
            0,
        ) == Some(k as int),
        r is None ==> first_in_scope(overlays_view(overlays@), file@, 0) is None,
{
    let ghost v = overlays_view(overlays@);
    let mut i: usize = 0;
    while i < overlays.len()
        invariant
            i <= overlays@.len(),
            v == overlays_view(overlays@),
            first_in_scope(v, file@, 0) == first_in_scope(v, file@, i as int),
        decreases overlays@.len() - i,
    {
        assert(v[i as int].path == overlays@[i as int].path@);
        let p = chars_of(overlays[i].path.as_str());
        if has_suffix(p.as_slice(), file) {
            return Some(i);
        }
        i = i + 1;
    }
    None
}

/// What a diff shows, given its raw text and the overlays of its files. The
/// overlays are narrowed to what the search finds.
pub fn diff(
    scope: Option<&str>,
    search: Option<&str>,
    raw: &str,
    overlays: &mut Vec<FileOverlay>,
) -> (r: Result<DiffReport, String>)
    ensures
        outcome(r) == report(
            raw@,
            overlays_view(old(overlays)@),
            opt_str(scope),
            opt_str(search),
        ),
        overlays_view(final(overlays)@) == kept_overlays(
            raw@,
            overlays_view(old(overlays)@),
            opt_str(search),
        ),
{
    let file_diffs = parse_unified_diff(raw);
    assert(file_diffs@.len() == diffs_in(lines(raw@)).len());
    if file_diffs.len() == 0 {
        return Ok(DiffReport::Message("No changes.".to_owned()));
    }
    if let Some(term) = search {
        filter_by_search(overlays, term);
        assert(overlays@.len() == overlays_view(overlays@).len());
        if overlays.len() == 0 {
            let mut m = "No changes matching '".to_owned();
            m.append(term);
            m.append("'.");
            return Ok(DiffReport::Message(m));
        }
    }
    match scope {
        None => Ok(DiffReport::Overview),
        Some(s) => {
            let text = chars_of(s);
            let n: usize = text.len();
            let colon = find_char(text.as_slice(), ':');
            proof {
                crate::text::lemma_char_at(text@, ':');
            }
            let file = match colon {
                Some(i) => {
                    assert(text@.subrange(0, i as int) =~= text@.take(i as int));
                    string_of(slice_subrange(text.as_slice(), 0, i))
                },
                None => s.to_owned(),
            };
            match find_in_scope(overlays, file.as_str()) {
                None => {
                    let mut e = "file '".to_owned();
                    e.append(file.as_str());
                    e.append("' not found in diff");
                    Err(e)
                },
                Some(k) => match colon {
                    Some(i) => {
                        assert(text@.subrange(i + 1, n as int) =~= text@.skip(i + 1));
                        Ok(
                            DiffReport::Function(
                                k,
                                string_of(slice_subrange(text.as_slice(), i + 1, n)),
                            ),
                        )
                    },
                    None => Ok(DiffReport::File(k)),
                },
            }
        },
    }
}

/// The first diff from `i` on with the path.
pub open spec fn diff_of_path(v: Seq<FileDiffView>, path: Seq<char>, i: int) -> Option<FileDiffView>
    decreases v.len() - i,
{
    if i < 0 || i >= v.len() {
        None
    } else if same_path(v[i].path, path) {
        Some(v[i])
    } else {
        diff_of_path(v, path, i + 1)
    }
}

/// Whether the file is generated and whether it is binary.
pub open spec fn file_marks(v: Seq<FileDiffView>, path: Seq<char>) -> (bool, bool) {
    match diff_of_path(v, path, 0) {
        Some(f) => (f.is_generated, f.is_binary),
        None => (false, false),
    }
}

/// Whether the file of an overlay is generated and whether it is binary.
pub fn file_meta(file_diffs: &[FileDiff], path: &str) -> (r: (bool, bool))
    ensures
        r == file_marks(file_diffs_view(file_diffs@), path@),
{
    let ghost v = file_diffs_view(file_diffs@);
    let mut i: usize = 0;
    while i < file_diffs.len()
        invariant
            i <= file_diffs@.len(),
            v == file_diffs_view(file_diffs@),
            diff_of_path(v, path@, 0) == diff_of_path(v, path@, i as int),
        decreases file_diffs@.len() - i,
    {
        assert(v[i as int] == file_diffs@[i as int]@);
        if equal_paths(file_diffs[i].path.as_str(), path) {
            return (file_diffs[i].is_generated, file_diffs[i].is_binary);
        }
        i = i + 1;
    }
    (false, false)
}

// ---------------------------------------------------------------------------
// Logs
// ---------------------------------------------------------------------------

/// One line of a log.
#[derive(Debug)]
pub struct LogLine {
    pub hash: String,
    pub timestamp: i64,
    pub message: String,
    pub author: String,
}

/// What a line of a log says.
pub struct LogLineView {
    pub hash: Seq<char>,
    pub timestamp: int,
    pub message: Seq<char>,
    pub author: Seq<char>,
}

impl View for LogLine {
    type V = LogLineView;

    open spec fn view(&self) -> LogLineView {
        LogLineView {
            hash: self.hash@,
            timestamp: self.timestamp as int,
            message: self.message@,
            author: self.author@,
        }
    }
}

/// What stands before the first character `c`, or all.
pub open spec fn head(s: Seq<char>, c: char) -> Seq<char> {
    match char_at(s, c) {
        Some(i) => s.take(i),
        None => s,
    }
}

/// What follows the first character `c`, or nothing.
pub open spec fn tail(s: Seq<char>, c: char) -> Seq<char> {
    match char_at(s, c) {
        Some(i) => s.skip(i + 1),
        None => Seq::empty(),
    }
}

/// The commit of a line: hash, time and subject separated by spaces, then after a
/// zero the author.
pub open spec fn log_line(line: Seq<char>) -> Option<LogLineView> {
    let s = trim(line);
    match char_at(s, '\0') {
        None => None,
        Some(z) => {
            let rest = s.take(z);
            let second = tail(rest, ' ');
            Some(
                LogLineView {
                    hash: head(rest, ' '),
                    timestamp: match parse_int(head(second, ' ')) {
                        Some(n) => n,
                        None => 0,
                    },
                    message: tail(second, ' '),
                    author: s.skip(z + 1),
                },
            )
        },
    }
}

fn split_at_char(s: &[char], c: char) -> (r: (&[char], &[char]))
    ensures
        r.0@ == head(s@, c),
        r.1@ == tail(s@, c),
{
    let n: usize = s.len();
    match find_char(s, c) {
        Some(i) => {
            proof {
                crate::text::lemma_char_at(s@, c);
                assert(s@.subrange(0, i as int) =~= s@.take(i as int));
                assert(s@.subrange(i + 1, n as int) =~= s@.skip(i + 1));
            }
            (slice_subrange(s, 0, i), slice_subrange(s, i + 1, n))
        },
        None => {
            assert(s@.subrange(0, 0) =~= Seq::<char>::empty());
            (s, slice_subrange(s, 0, 0))
        },
    }
}

/// The commit of a line of a log; a line without an author gives none.
pub fn parse_log_line(line: &str) -> (r: Option<LogLine>)
    ensures
        r matches Some(l) ==> log_line(line@) == Some(l@),
        r is None ==> log_line(line@) is None,
{
    let all = chars_of(line);
    let s = trim_of(all.as_slice());
    let n: usize = s.len();
    match find_char(s, '\0') {
        None => None,
        Some(z) => {
            proof {
                crate::text::lemma_char_at(s@, '\0');
                assert(s@.subrange(0, z as int) =~= s@.take(z as int));
                assert(s@.subrange(z + 1, n as int) =~= s@.skip(z + 1));
            }
            let (hash, second) = split_at_char(slice_subrange(s, 0, z), ' ');
            let (time, message) = split_at_char(second, ' ');
            let timestamp: i64 = match parse_i64(time) {
                Some(t) => t,
                None => 0,
            };
            Some(
                LogLine {
                    hash: string_of(hash),
                    timestamp,
                    message: string_of(message),
                    author: string_of(slice_subrange(s, z + 1, n)),
                },
            )
        },
    }
}

/// The source of the diff of one commit.
pub fn commit_source(hash: &str) -> (r: DiffSource)
    ensures
        r@ == SourceView::GitRef(hash@ + "^.."@ + hash@),
{
    let mut s = hash.to_owned();
    s.append("^..");
    s.append(hash);
    DiffSource::GitRef(s)
}

/// What a summary says.
pub struct SummaryView {
    pub hash: Seq<char>,
    pub timestamp: i64,
    pub message: Seq<char>,
    pub author: Seq<char>,
    pub overlays: Seq<OverlayView>,
}

impl View for CommitSummary {
    type V = SummaryView;

    open spec fn view(&self) -> SummaryView {
        SummaryView {
            hash: self.hash@,
            timestamp: self.timestamp,
            message: self.message@,
            author: self.author@,
            overlays: overlays_view(self.overlays@),
        }
    }
}

/// What the summaries of a list say.
pub open spec fn summaries_view(v: Seq<CommitSummary>) -> Seq<SummaryView> {
    v.map_values(|c: CommitSummary| c@)
}

/// The overlays whose file is in scope.
pub open spec fn overlays_in_scope(v: Seq<OverlayView>, file: Seq<char>) -> Seq<OverlayView>
    decreases v.len(),
{
    if v.len() == 0 {
        v
    } else {
        let r = overlays_in_scope(v.drop_last(), file);
        if in_scope(v.last().path, file) {
            r.push(v.last())
        } else {
            r
        }
    }
}

/// The commits that touch the file, with the overlays of that file.
pub open spec fn commits_in_scope(v: Seq<SummaryView>, file: Seq<char>) -> Seq<SummaryView>
    decreases v.len(),
{
    if v.len() == 0 {
        v
    } else {
        let r = commits_in_scope(v.drop_last(), file);
        let o = overlays_in_scope(v.last().overlays, file);
        if o.len() > 0 {
            r.push(SummaryView { overlays: o, ..v.last() })
        } else {
            r
        }
    }
}

fn keep_overlays(overlays: Vec<FileOverlay>, file: &str) -> (r: Vec<FileOverlay>)
    ensures
        overlays_view(r@) == overlays_in_scope(overlays_view(overlays@), file@),
{
    let ghost all = overlays_view(overlays@);
    let n: usize = overlays.len();
    let mut left = overlays;
    let mut out: Vec<FileOverlay> = Vec::new();
    let mut i: usize = 0;
    assert(overlays_view(out@) =~= overlays_in_scope(all.take(0), file@));
    assert(all.skip(0) =~= all);
    while i < n
        invariant
            i <= n,
            n == all.len(),
            left@.len() == n - i,
            overlays_view(left@) == all.skip(i as int),
            overlays_view(out@) == overlays_in_scope(all.take(i as int), file@),
        decreases n - i,
    {
        let ghost was = left@;
        let o = left.remove(0);
        let ghost before = overlays_view(out@);
        let ghost ov = o@;
        proof {
            assert(overlays_view(was)[0] == ov);
            assert(all.skip(i as int)[0] == all[i as int]);
            assert(overlays_view(left@) =~= overlays_view(was).skip(1));
            assert(all.skip(i as int).skip(1) =~= all.skip(i + 1));
            assert(all.take(i + 1).drop_last() =~= all.take(i as int));
            assert(all.take(i + 1).last() == ov);
        }
        let p = chars_of(o.path.as_str());
        if has_suffix(p.as_slice(), file) {
            out.push(o);
            assert(overlays_view(out@) =~= before.push(ov));
        }
        i = i + 1;
    }
    assert(all.take(n as int) =~= all);
    out
}

/// Keeps the commits that touch the file, with the overlays of that file.
pub fn filter_summaries(summaries: &mut Vec<CommitSummary>, file: &str)
    ensures
        summaries_view(final(summaries)@) == commits_in_scope(
            summaries_view(old(summaries)@),
            file@,
        ),
{
    let ghost all = summaries_view(summaries@);
    let n: usize = summaries.len();
    let mut out: Vec<CommitSummary> = Vec::new();
    let mut i: usize = 0;
    assert(summaries_view(out@) =~= commits_in_scope(all.take(0), file@));
    assert(all.skip(0) =~= all);
    while i < n
        invariant
            i <= n,
            n == all.len(),
            summaries@.len() == n - i,
            summaries_view(summaries@) == all.skip(i as int),
            summaries_view(out@) == commits_in_scope(all.take(i as int), file@),
        decreases n - i,
    {
        let ghost was = summaries@;
        let c = summaries.remove(0);
        let ghost cv = c@;
        let ghost before = summaries_view(out@);
        proof {
            assert(summaries_view(was)[0] == cv);
            assert(all.skip(i as int)[0] == all[i as int]);
            assert(summaries_view(summaries@) =~= summaries_view(was).skip(1));
            assert(all.skip(i as int).skip(1) =~= all.skip(i + 1));
            assert(all.take(i + 1).drop_last() =~= all.take(i as int));
            assert(all.take(i + 1).last() == cv);
        }
        let CommitSummary { hash, timestamp, message, author, overlays } = c;
        let kept = keep_overlays(overlays, file);
        assert(kept@.len() == overlays_view(kept@).len());
        if kept.len() > 0 {
            let s = CommitSummary { hash, timestamp, message, author, overlays: kept };
            let ghost sv = s@;
            out.push(s);
            assert(summaries_view(out@) =~= before.push(sv));
        }
        i = i + 1;
    }
    assert(all.take(n as int) =~= all);
    std::mem::swap(summaries, &mut out);
}

// ---------------------------------------------------------------------------
// Times
// ---------------------------------------------------------------------------

/// How long ago something was, in the largest unit that gives at least one.
pub open spec fn time_ago(secs: int) -> Seq<char> {
    let s: nat = if secs > 0 {
        secs as nat
    } else {
        0
    };
    if s < 60 {
        dec(s) + "s ago"@
    } else if s / 60 < 60 {
        dec(s / 60) + "m ago"@
    } else if s / 3600 < 24 {
        dec(s / 3600) + "h ago"@
    } else {
        dec(s / 86400) + "d ago"@
    }
}

/// How long ago something was.
pub fn relative_time(secs: i64) -> (r: String)
    ensures
        r@ == time_ago(secs as int),
{
    let s: u128 = if secs > 0 {
        secs as u128
    } else {
        0
    };
    let (n, unit): (u128, &str) = if s < 60 {
        (s, "s ago")
    } else if s / 60 < 60 {
        (s / 60, "m ago")
    } else if s / 3600 < 24 {
        (s / 3600, "h ago")
    } else {
        (s / 86400, "d ago")
    };
    let mut r = decimal(n);
    r.append(unit);
    r
}

/// A search keeps every symbol that it finds, and nothing else: the overlay of a file is
/// kept exactly if one of its symbols is found by its name or its lines, and then with
/// every change and all lines of the symbols that are found.
pub proof fn law_search_keeps_what_it_finds(v: Seq<OverlayView>, term: Seq<char>, i: int)
    requires
        0 <= i < v.len(),
    ensures
        forall|k: int|
            0 <= k < v[i].symbol_changes.len() && mentions(
                (#[trigger] v[i].symbol_changes[k]).name,
                term,
            ) ==> exists|o: OverlayView| #[trigger]
                search_filtered(v, term).contains(o) && o.path == v[i].path
                    && o.symbol_changes.contains(v[i].symbol_changes[k]),
        forall|k: int|
            0 <= k < v[i].attributed_hunks.len() && line_mentions(
                (#[trigger] v[i].attributed_hunks[k]).lines,
                term,
            ) ==> exists|o: OverlayView| #[trigger]
                search_filtered(v, term).contains(o) && o.path == v[i].path
                    && o.attributed_hunks.contains(v[i].attributed_hunks[k]),
        search_filtered(v, term).len() <= v.len(),
{
    lemma_search_len(v, term);
    assert forall|k: int|
        0 <= k < v[i].symbol_changes.len() && mentions((#[trigger] v[i].symbol_changes[k]).name, term)
        implies exists|o: OverlayView| #[trigger]
        search_filtered(v, term).contains(o) && o.path == v[i].path && o.symbol_changes.contains(
            v[i].symbol_changes[k],
        ) by {
        let c = v[i].symbol_changes[k];
        assert(found(v[i], c.name, term));
        lemma_search_keeps(v, term, i);
        let o = narrowed(v[i], term);
        v[i].symbol_changes.lemma_filter_contains(
            |x: ChangeView| found(v[i], x.name, term),
            k,
        );
        assert(o.symbol_changes.contains(c));
    }
    assert forall|k: int|
        0 <= k < v[i].attributed_hunks.len() && line_mentions(
            (#[trigger] v[i].attributed_hunks[k]).lines,
            term,
        ) implies exists|o: OverlayView| #[trigger]
        search_filtered(v, term).contains(o) && o.path == v[i].path && o.attributed_hunks.contains(
            v[i].attributed_hunks[k],
        ) by {
        let c = v[i].attributed_hunks[k];
        assert(found(v[i], c.name, term));
        lemma_search_keeps(v, term, i);
        let o = narrowed(v[i], term);
        v[i].attributed_hunks.lemma_filter_contains(
            |x: AttributedView| found(v[i], x.name, term),
            k,
        );
        assert(o.attributed_hunks.contains(c));
    }
}

proof fn lemma_search_len(v: Seq<OverlayView>, term: Seq<char>)
    ensures
        search_filtered(v, term).len() <= v.len(),
    decreases v.len(),
{
    if v.len() > 0 {
        lemma_search_len(v.drop_last(), term);
    }
}

proof fn lemma_search_keeps(v: Seq<OverlayView>, term: Seq<char>, i: int)
    requires
        0 <= i < v.len(),
        any_found(v[i], term),
    ensures
        search_filtered(v, term).contains(narrowed(v[i], term)),
    decreases v.len(),
{
    let t = v.drop_last();
    let q = search_filtered(t, term);
    let r = search_filtered(v, term);
    let o = narrowed(v[i], term);
    if i < t.len() {
        assert(t[i] == v[i]);
        lemma_search_keeps(t, term, i);
        let k = choose|k: int| 0 <= k < q.len() && q[k] == o;
        assert(r[k] == o);
    } else {
        assert(r[q.len() as int] == o);
    }
}

/// What a search keeps was found: each change that it keeps is one of the file, and its
/// symbol is found by the term, in its name or in its lines.
pub proof fn law_search_keeps_nothing_else(
    v: Seq<OverlayView>,
    term: Seq<char>,
    o: OverlayView,
)
    requires
        search_filtered(v, term).contains(o),
    ensures
        exists|i: int|
            0 <= i < v.len() && (#[trigger] v[i]).path == o.path && forall|c: ChangeView| #[trigger]
                o.symbol_changes.contains(c) ==> v[i].symbol_changes.contains(c) && found(
                    v[i],
                    c.name,
                    term,
                ),
    decreases v.len(),
{
    let r = search_filtered(v, term);
    let k = choose|k: int| 0 <= k < r.len() && r[k] == o;
    if v.len() > 0 {
        let t = v.drop_last();
        let q = search_filtered(t, term);
        if k < q.len() {
            assert(q[k] == o);
            law_search_keeps_nothing_else(t, term, o);
            let i = choose|i: int|
                0 <= i < t.len() && (#[trigger] t[i]).path == o.path && forall|c: ChangeView| #[trigger]
                    o.symbol_changes.contains(c) ==> t[i].symbol_changes.contains(c) && found(
                        t[i],
                        c.name,
                        term,
                    );
            assert(v[i] == t[i]);
        } else {
            let w = v.last();
            let p = |x: ChangeView| found(w, x.name, term);
            assert forall|c: ChangeView| #[trigger] o.symbol_changes.contains(c) implies w.symbol_changes.contains(
            c) && found(w, c.name, term) by {
                let a = choose|a: int| 0 <= a < o.symbol_changes.len() && o.symbol_changes[a] == c;
                w.symbol_changes.lemma_filter_pred(p, a);
                w.symbol_changes.lemma_filter_contains_rev(p, c);
            }
            assert(v[v.len() - 1] == w);
        }
    }
}

/// Every symbol whose signature changed is named, each once, and no other is.
pub proof fn law_changed_signatures_are_named(c: Seq<ChangeView>, name: Seq<char>)
    ensures
        signature_changes(c).contains(name) <==> exists|i: int|
            0 <= i < c.len() && (#[trigger] c[i]).name == name && c[i].change is SignatureChanged,
        signature_changes(c).no_duplicates(),
    decreases c.len(),
{
    if c.len() > 0 {
        let t = c.drop_last();
        law_changed_signatures_are_named(t, name);
        let q = signature_changes(t);
        let r = signature_changes(c);
        if r.contains(name) {
            let a = choose|a: int| 0 <= a < r.len() && r[a] == name;
            if a < q.len() {
                assert(q[a] == name);
                let i = choose|i: int|
                    0 <= i < t.len() && (#[trigger] t[i]).name == name && t[i].change
                        is SignatureChanged;
                assert(c[i].name == name);
            } else {
                assert(c[c.len() - 1].name == name);
            }
        }
        if exists|i: int|
            0 <= i < c.len() && (#[trigger] c[i]).name == name && c[i].change is SignatureChanged {
            let i = choose|i: int|
                0 <= i < c.len() && (#[trigger] c[i]).name == name && c[i].change
                    is SignatureChanged;
            if i < t.len() {
                assert(t[i].name == name);
            }
            if q.contains(name) {
                let a = choose|a: int| 0 <= a < q.len() && q[a] == name;
                assert(r[a] == name);
            } else {
                assert(r[q.len() as int] == name);
            }
        }
        if r.len() > q.len() {
            assert forall|i: int, j: int| 0 <= i < r.len() && 0 <= j < r.len() && i != j implies r[i]
                != r[j] by {
                if i < q.len() && j < q.len() {
                    assert(q[i] != q[j]);
                } else if i < q.len() {
                    assert(q.contains(q[i]));
                } else {
                    assert(q.contains(q[j]));
                }
            }
        }
    }
}

/// The changes of all files together are those of each: none is left out.
pub proof fn law_all_changes_are_taken(v: Seq<OverlayView>, c: ChangeView)
    ensures
        all_changes(v).contains(c) <==> exists|i: int|
            0 <= i < v.len() && (#[trigger] v[i]).symbol_changes.contains(c),
    decreases v.len(),
{
    if v.len() > 0 {
        let t = v.drop_last();
        law_all_changes_are_taken(t, c);
        let q = all_changes(t);
        let own = v.last().symbol_changes;
        let r = all_changes(v);
        if r.contains(c) {
            let a = choose|a: int| 0 <= a < r.len() && r[a] == c;
            if a < q.len() {
                assert(q[a] == c);
                let i = choose|i: int| 0 <= i < t.len() && (#[trigger] t[i]).symbol_changes.contains(c);
                assert(v[i].symbol_changes.contains(c));
            } else {
                assert(own[a - q.len()] == c);
                assert(v[v.len() - 1].symbol_changes.contains(c));
            }
        }
        if exists|i: int| 0 <= i < v.len() && (#[trigger] v[i]).symbol_changes.contains(c) {
            let i = choose|i: int| 0 <= i < v.len() && (#[trigger] v[i]).symbol_changes.contains(c);
            if i < t.len() {
                assert(t[i].symbol_changes.contains(c));
                let a = choose|a: int| 0 <= a < q.len() && q[a] == c;
                assert(r[a] == c);
            } else {
                let a = choose|a: int| 0 <= a < own.len() && own[a] == c;
                assert(r[q.len() + a] == c);
            }
        }
    }
}

/// Every symbol that is called gets a warning, with the number of all its callers.
pub proof fn law_callers_are_counted(targets: Seq<Seq<char>>, t: Seq<char>)
    requires
        targets.contains(t),
    ensures
        blast_warnings(targets).contains(
            blast_warning(t, crate::groups::occurrences(targets, t)),
        ),
{
    let n = targets.len() as int;
    crate::groups::law_group_sizes(targets, everything(n), n, t);
    assert(targets.take(n) =~= targets);
    let g = callers_by_target(targets);
    let i = choose|i: int| 0 <= i < targets.len() && targets[i] == t;
    crate::groups::law_groups_cover(targets, everything(n), n, i);
    let a = choose|a: int| 0 <= a < g.len() && (#[trigger] g[a]).0 == targets[i] && g[a].1.contains(i);
    crate::groups::lemma_position(g, t);
    let p = crate::groups::position(g, t)->0;
    assert(blast_warnings(targets)[p] == blast_warning(t, g[p].1.len()));
}

/// A file is looked up as the first overlay whose path ends in what the scope names, and
/// is missing only where there is none.
pub proof fn law_scope_finds_the_file(v: Seq<OverlayView>, file: Seq<char>, i: int)
    requires
        0 <= i <= v.len(),
    ensures
        match first_in_scope(v, file, i) {
            Some(k) => i <= k < v.len() && file.is_suffix_of(v[k].path) && forall|j: int|
                i <= j < k ==> !file.is_suffix_of((#[trigger] v[j]).path),
            None => forall|j: int| i <= j < v.len() ==> !file.is_suffix_of((#[trigger] v[j]).path),
        },
    decreases v.len() - i,
{
    if i < v.len() && !in_scope(v[i].path, file) {
        law_scope_finds_the_file(v, file, i + 1);
    }
}

/// A commit is kept exactly if it touches the file, with every overlay of that file.
pub proof fn law_commits_of_a_file(v: Seq<SummaryView>, file: Seq<char>, i: int, o: OverlayView)
    requires
        0 <= i < v.len(),
        v[i].overlays.contains(o),
        file.is_suffix_of(o.path),
    ensures
        exists|c: SummaryView| #[trigger]
            commits_in_scope(v, file).contains(c) && c.overlays.contains(o) && c.hash == v[i].hash
                && c.message == v[i].message,
    decreases v.len(),
{
    let t = v.drop_last();
    let q = commits_in_scope(t, file);
    let r = commits_in_scope(v, file);
    if i < t.len() {
        assert(t[i] == v[i]);
        law_commits_of_a_file(t, file, i, o);
        let c = choose|c: SummaryView| #[trigger]
            q.contains(c) && c.overlays.contains(o) && c.hash == t[i].hash && c.message
                == t[i].message;
        let k = choose|k: int| 0 <= k < q.len() && q[k] == c;
        assert(r[k] == c);
        assert(r.contains(c));
    } else {
        let w = v.last();
        let own = overlays_in_scope(w.overlays, file);
        law_overlays_of_a_file(w.overlays, file, o);
        assert(own.len() > 0);
        let c = SummaryView { overlays: own, ..w };
        assert(r[q.len() as int] == c);
        assert(r.contains(c));
    }
}

/// The overlays of a file are those whose path ends in what is asked for.
pub proof fn law_overlays_of_a_file(v: Seq<OverlayView>, file: Seq<char>, o: OverlayView)
    ensures
        overlays_in_scope(v, file).contains(o) <==> v.contains(o) && file.is_suffix_of(o.path),
    decreases v.len(),
{
    if v.len() > 0 {
        let t = v.drop_last();
        law_overlays_of_a_file(t, file, o);
        let q = overlays_in_scope(t, file);
        let r = overlays_in_scope(v, file);
        if r.contains(o) {
            let a = choose|a: int| 0 <= a < r.len() && r[a] == o;
            if a < q.len() {
                assert(q[a] == o);
                let k = choose|k: int| 0 <= k < t.len() && t[k] == o;
                assert(v[k] == o);
            } else {
                assert(v[v.len() - 1] == o);
            }
        }
        if v.contains(o) && file.is_suffix_of(o.path) {
            let k = choose|k: int| 0 <= k < v.len() && v[k] == o;
            if k < t.len() {
                assert(t[k] == o);
                let a = choose|a: int| 0 <= a < q.len() && q[a] == o;
                assert(r[a] == o);
            } else {
                assert(r[q.len() as int] == o);
            }
        }
    }
}

proof fn lemma_split_off(x: Seq<char>, c: char, y: Seq<char>)
    requires
        !x.contains(c),
    ensures
        head(x + seq![c] + y, c) == x,
        tail(x + seq![c] + y, c) == y,
{
    let s = x + seq![c] + y;
    assert(s[x.len() as int] == c);
    assert forall|j: int| 0 <= j < x.len() implies s[j] != c by {
        assert(s[j] == x[j]);
        assert(x.contains(x[j]));
    }
    crate::text::lemma_char_at_is(s, c, x.len() as int);
    assert(s.take(x.len() as int) =~= x);
    assert(s.skip(x.len() as int + 1) =~= y);
}

/// A commit is read back from its line: hash, time, subject and author.
pub proof fn law_log_line_is_read_back(
    hash: Seq<char>,
    time: nat,
    message: Seq<char>,
    author: Seq<char>,
)
    requires
        hash.len() > 0,
        !hash.contains(' '),
        !hash.contains('\0'),
        !crate::text::is_space(hash[0]),
        time <= 0x7fff_ffff_ffff_ffff,
        !message.contains('\0'),
        author.len() > 0,
        !crate::text::is_space(author.last()),
    ensures
        log_line(
            hash + seq![' '] + (dec(time) + seq![' '] + message) + seq!['\0'] + author,
        ) matches Some(l) && l.hash == hash && l.timestamp == time && l.message == message
            && l.author == author,
{
    let second = dec(time) + seq![' '] + message;
    let rest = hash + seq![' '] + second;
    let s = rest + seq!['\0'] + author;
    crate::text::lemma_dec_value(time);
    assert(crate::text::trim_start(s) == s) by {
        assert(s[0] == hash[0]);
    }
    assert(crate::text::trim_end(s) == s) by {
        assert(s.last() == author.last());
    }
    assert(!dec(time).contains(' ')) by {
        if dec(time).contains(' ') {
            let k = choose|k: int| 0 <= k < dec(time).len() && dec(time)[k] == ' ';
            assert(crate::text::is_digit(dec(time)[k]));
        }
    }
    assert(!rest.contains('\0')) by {
        if rest.contains('\0') {
            let k = choose|k: int| 0 <= k < rest.len() && rest[k] == '\0';
            let m = hash.len() as int + 1;
            let n = m + dec(time).len() as int + 1;
            if k < hash.len() {
                assert(hash[k] == '\0');
            } else if k >= n {
                assert(message[k - n] == '\0');
            } else if k >= m && k < n - 1 {
                assert(crate::text::is_digit(dec(time)[k - m]));
            }
        }
    }
    lemma_split_off(rest, '\0', author);
    assert(s[rest.len() as int] == '\0');
    assert forall|j: int| 0 <= j < rest.len() implies s[j] != '\0' by {
        assert(s[j] == rest[j]);
        assert(rest.contains(rest[j]));
    }
    crate::text::lemma_char_at_is(s, '\0', rest.len() as int);
    lemma_split_off(hash, ' ', second);
    lemma_split_off(dec(time), ' ', message);
    crate::text::law_signed_number_is_read_back(time);
}

/// A scope with a colon in it asks for a symbol of the first file that it names, one
/// without for the file; where no file of the diff is named, that is told.
pub proof fn law_scope_names_file_and_symbol(
    v: Seq<OverlayView>,
    file: Seq<char>,
    symbol: Seq<char>,
    k: int,
)
    requires
        !file.contains(':'),
        0 <= k <= v.len(),
        forall|j: int| 0 <= j < k ==> !file.is_suffix_of((#[trigger] v[j]).path),
        k < v.len() ==> file.is_suffix_of(v[k].path),
    ensures
        k < v.len() ==> scope_report(v, Some(file)) == Ok::<ReportView, Seq<char>>(
            ReportView::File(k),
        ),
        k < v.len() ==> scope_report(v, Some(file + seq![':'] + symbol)) == Ok::<
            ReportView,
            Seq<char>,
        >(ReportView::Function(k, symbol)),
        k == v.len() ==> scope_report(v, Some(file)) is Err && scope_report(
            v,
            Some(file + seq![':'] + symbol),
        ) is Err,
{
    lemma_first_in_scope(v, file, 0, k);
    lemma_split_off(file, ':', symbol);
    let s = file + seq![':'] + symbol;
    assert(s[file.len() as int] == ':');
    assert forall|j: int| 0 <= j < file.len() implies s[j] != ':' by {
        assert(s[j] == file[j]);
        assert(file.contains(file[j]));
    }
    crate::text::lemma_char_at_is(s, ':', file.len() as int);
    crate::text::lemma_char_at(file, ':');
    match char_at(file, ':') {
        Some(i) => {
            assert(file.contains(file[i]));
        },
        None => {},
    }
}

proof fn lemma_first_in_scope(v: Seq<OverlayView>, file: Seq<char>, i: int, k: int)
    requires
        0 <= i <= k <= v.len(),
        forall|j: int| i <= j < k ==> !file.is_suffix_of((#[trigger] v[j]).path),
        k < v.len() ==> file.is_suffix_of(v[k].path),
    ensures
        first_in_scope(v, file, i) == (if k < v.len() {
            Some(k)
        } else {
            None
        }),
    decreases k - i,
{
    if i < k {
        assert(!file.is_suffix_of(v[i].path));
        lemma_first_in_scope(v, file, i + 1, k);
    }
}

/// Whether a file is generated or binary is what its diff says, the first one of the
/// path.
pub proof fn law_marks_are_those_of_the_file(v: Seq<FileDiffView>, path: Seq<char>, i: int, k: int)
    requires
        0 <= i <= k < v.len(),
        same_path(v[k].path, path),
        forall|j: int| i <= j < k ==> !same_path((#[trigger] v[j]).path, path),
    ensures
        diff_of_path(v, path, i) == Some(v[k]),
        i == 0 ==> file_marks(v, path) == (v[k].is_generated, v[k].is_binary),
    decreases k - i,
{
    if i < k {
        assert(!same_path(v[i].path, path));
        law_marks_are_those_of_the_file(v, path, i + 1, k);
    }
}

} // verus!
