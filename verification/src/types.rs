//! The types that the modules share.
use vstd::prelude::*;

use vstd::string::*;

use crate::text::{dec, decimal, opt_text};

verus! {

/// A programming language.
#[derive(Clone, Copy, Debug, PartialEq, Eq, Structural)]
pub enum Lang {
    Rust,
    TypeScript,
    Tsx,
    JavaScript,
    Python,
    Go,
    Java,
    Scala,
    C,
    Cpp,
    Ruby,
    Php,
    Swift,
    Kotlin,
    CSharp,
    Elixir,
    Dockerfile,
    Make,
}

/// What a file holds, by its name.
#[derive(Clone, Copy, Debug, PartialEq, Eq, Structural)]
pub enum FileType {
    Code(Lang),
    Markdown,
    StructuredData,
    Tabular,
    Log,
    Other,
}

/// The kind of an outline entry.
#[derive(Clone, Copy, Debug, PartialEq, Eq, Structural)]
pub enum OutlineKind {
    Import,
    Function,
    Class,
    Struct,
    Interface,
    TypeAlias,
    Enum,
    Constant,
    Variable,
    ImmutableVariable,
    Export,
    Property,
    Module,
    TestSuite,
    TestCase,
}

/// One declaration of a file, with those inside it.
#[derive(Debug)]
pub struct OutlineEntry {
    pub kind: OutlineKind,
    pub name: String,
    pub start_line: u32,
    pub end_line: u32,
    pub signature: Option<String>,
    pub children: Vec<OutlineEntry>,
    pub doc: Option<String>,
}

/// What an outline entry says.
#[verifier::ext_equal]
pub struct EntryView {
    pub kind: OutlineKind,
    pub name: Seq<char>,
    pub start_line: u32,
    pub end_line: u32,
    pub signature: Option<Seq<char>>,
    pub children: Seq<EntryView>,
    pub doc: Option<Seq<char>>,
}

impl OutlineEntry {
    pub open spec fn model(self) -> EntryView
        decreases self,
    {
        EntryView {
            kind: self.kind,
            name: self.name@,
            start_line: self.start_line,
            end_line: self.end_line,
            signature: opt_text(self.signature),
            children: Seq::new(
                self.children@.len(),
                |i: int|
                    if 0 <= i < self.children@.len() {
                        self.children@[i].model()
                    } else {
                        arbitrary()
                    },
            ),
            doc: opt_text(self.doc),
        }
    }
}

impl View for OutlineEntry {
    type V = EntryView;

    open spec fn view(&self) -> EntryView {
        self.model()
    }
}

/// What the entries of a list say.
pub open spec fn entries_view(v: Seq<OutlineEntry>) -> Seq<EntryView> {
    v.map_values(|e: OutlineEntry| e@)
}

pub broadcast proof fn lemma_entries_push(v: Seq<OutlineEntry>, e: OutlineEntry)
    ensures
        #[trigger] entries_view(v.push(e)) == entries_view(v).push(e@),
{
    assert(entries_view(v.push(e)) =~= entries_view(v).push(e@));
}

/// The children of an entry say what the children of its view are.
pub proof fn lemma_children(e: OutlineEntry)
    ensures
        e@.children == entries_view(e.children@),
{
    assert(e@.children =~= entries_view(e.children@));
}

/// A position in a list.
pub open spec fn ints(v: Seq<usize>) -> Seq<int> {
    v.map_values(|i: usize| i as int)
}

pub broadcast proof fn lemma_ints_push(v: Seq<usize>, i: usize)
    ensures
        #[trigger] ints(v.push(i)) == ints(v).push(i as int),
{
    assert(ints(v.push(i)) =~= ints(v).push(i as int));
}

/// The number of tokens that so many bytes take: four bytes each, rounded up.
pub open spec fn tokens(bytes: nat) -> nat {
    (bytes + 3) / 4
}

/// The number of tokens that so many bytes take.
pub fn estimate_tokens(byte_len: u64) -> (r: u64)
    ensures
        r == tokens(byte_len as nat),
{
    byte_len / 4 + if byte_len % 4 == 0 {
        0
    } else {
        1
    }
}

/// A number of tokens, in thousands with one digit after the point where there
/// are so many.
pub open spec fn token_label(n: nat) -> Seq<char> {
    if n >= 1000 {
        "~"@ + dec(n / 1000) + "."@ + dec((n % 1000) / 100) + "k"@
    } else {
        "~"@ + dec(n)
    }
}

/// A number of tokens, in thousands where there are so many.
pub fn format_tokens(n: u64) -> (r: String)
    ensures
        r@ == token_label(n as nat),
{
    let mut r = "~".to_owned();
    if n >= 1000 {
        r.append(decimal((n / 1000) as u128).as_str());
        r.append(".");
        r.append(decimal(((n % 1000) / 100) as u128).as_str());
        r.append("k");
    } else {
        r.append(decimal(n as u128).as_str());
    }
    r
}

// ---------------------------------------------------------------------------
// Matches
// ---------------------------------------------------------------------------

/// A place that a search found.
#[derive(Debug)]
pub struct Match {
    pub path: String,
    pub line: u32,
    pub text: String,
    pub is_definition: bool,
    pub exact: bool,
    /// The estimated number of lines of the file.
    pub file_lines: u32,
    /// When the file was modified.
    pub mtime: u64,
    pub def_range: Option<(u32, u32)>,
    pub def_name: Option<String>,
    pub def_weight: u16,
    /// The trait or interface that the definition implements.
    pub impl_target: Option<String>,
}

/// What a match says.
pub struct MatchView {
    pub path: Seq<char>,
    pub line: u32,
    pub text: Seq<char>,
    pub is_definition: bool,
    pub exact: bool,
    pub file_lines: u32,
    pub mtime: u64,
    pub def_range: Option<(u32, u32)>,
    pub def_name: Option<Seq<char>>,
    pub def_weight: u16,
    pub impl_target: Option<Seq<char>>,
}

impl View for Match {
    type V = MatchView;

    open spec fn view(&self) -> MatchView {
        MatchView {
            path: self.path@,
            line: self.line,
            text: self.text@,
            is_definition: self.is_definition,
            exact: self.exact,
            file_lines: self.file_lines,
            mtime: self.mtime,
            def_range: self.def_range,
            def_name: opt_text(self.def_name),
            def_weight: self.def_weight,
            impl_target: opt_text(self.impl_target),
        }
    }
}

/// What the matches of a list say.
pub open spec fn found_view(v: Seq<Match>) -> Seq<MatchView> {
    v.map_values(|m: Match| m@)
}

pub broadcast proof fn lemma_found_push(v: Seq<Match>, m: Match)
    ensures
        #[trigger] found_view(v.push(m)) == found_view(v).push(m@),
{
    assert(found_view(v.push(m)) =~= found_view(v).push(m@));
}

/// What a search found.
#[derive(Debug)]
pub struct SearchResult {
    pub query: String,
    pub scope: String,
    pub matches: Vec<Match>,
    pub total_found: usize,
    pub definitions: usize,
    pub usages: usize,
    pub has_more: bool,
    pub offset: usize,
}

/// The tokens are enough for the bytes at four bytes each, and none too many.
pub proof fn law_tokens_cover_the_bytes(bytes: nat)
    ensures
        tokens(bytes) * 4 >= bytes,
        tokens(bytes) > 0 ==> (tokens(bytes) - 1) * 4 < bytes,
{
}

} // verus!
