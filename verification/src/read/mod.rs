//! Reading files: how much of a file is shown, and how.
use vstd::prelude::*;
use vstd::string::*;

use crate::lang::detection::{generated_name, is_generated_by_name};
use crate::lang::{detect_file_type, file_type};
use crate::paths::{
    extension, extension_of, file_name, file_name_of, join_path, joined, parent, parent_of,
};
use crate::search::io::{byte_count_of, byte_positions, count_byte, lemma_byte_positions, positions_of_byte};
use crate::sort::{sort_by, stable_sort};
use crate::text::{
    dec, decimal, join, join_strings, opt_str, opt_text, push_dec, same_text, setting, setting_of,
    strs, text_le, text_ordered,
};
use crate::types::{estimate_tokens, ints, tokens, FileType};

use self::edit::{edit_distance, text_distance};

pub mod edit;
pub mod outline;
pub mod section;
pub mod view;

verus! {

/// The number of tokens above which a file is shown as an outline.
pub const TOKEN_THRESHOLD: u64 = 6_000;

/// The size above which the outline of a file is cut short.
pub const FILE_SIZE_CAP: u64 = 500_000;

/// The number of lines that are shown of a file that is too large to show whole.
pub const PROGRESSIVE_LINES: u32 = 200;

/// The largest size of a file that is shown whole, where nothing else is set.
pub const FULL_READ_SIZE: u64 = 2_000_000;

/// The largest size of a file that is shown whole: what is set, or two million bytes.
pub fn full_read_size_cap(given: Option<&str>) -> (r: u64)
    ensures
        r == setting(opt_str(given), u64::MAX as nat, FULL_READ_SIZE as nat),
{
    setting_of(given, u64::MAX, FULL_READ_SIZE)
}

/// What is done with a path before the file is opened.
#[derive(Clone, Copy, Debug, PartialEq, Eq, Structural)]
pub enum FirstLook {
    /// The entries of the directory are listed.
    Directory,
    /// There is nothing to show.
    Empty,
    /// A part of the file is shown, whatever its size.
    Section,
    /// The file is looked into.
    Content,
}

/// What is done with a path before the file is opened.
pub open spec fn first_look(is_dir: bool, byte_len: u64, has_section: bool) -> FirstLook {
    if is_dir {
        FirstLook::Directory
    } else if byte_len == 0 {
        FirstLook::Empty
    } else if has_section {
        FirstLook::Section
    } else {
        FirstLook::Content
    }
}

/// What is done with a path before the file is opened.
pub fn look_first(is_dir: bool, byte_len: u64, has_section: bool) -> (r: FirstLook)
    ensures
        r == first_look(is_dir, byte_len, has_section),
{
    if is_dir {
        FirstLook::Directory
    } else if byte_len == 0 {
        FirstLook::Empty
    } else if has_section {
        FirstLook::Section
    } else {
        FirstLook::Content
    }
}

/// How the content of a file is shown.
#[derive(Clone, Copy, Debug, PartialEq, Eq, Structural)]
pub enum FileView {
    /// Only what kind of data it is.
    Binary,
    /// Only that it was generated.
    Generated,
    /// The first lines and the outline, with a hint how to go on.
    Progressive,
    /// The whole content.
    Full,
    /// The outline, cut short or not.
    Outline { capped: bool },
    /// The keys of structured data, cut short or not.
    Keys { capped: bool },
}

/// How the content of a file is shown.
pub open spec fn view_of(
    path: Seq<char>,
    byte_len: u64,
    is_binary: bool,
    generated_content: bool,
    full: bool,
    cap: u64,
) -> FileView {
    let name = match file_name(path) {
        Some(n) => n,
        None => ""@,
    };
    if is_binary {
        FileView::Binary
    } else if generated_name(name) || generated_content {
        FileView::Generated
    } else if full && byte_len > cap {
        FileView::Progressive
    } else if full || tokens(byte_len as nat) <= TOKEN_THRESHOLD {
        FileView::Full
    } else if file_type(path) == FileType::StructuredData {
        FileView::Keys { capped: byte_len > FILE_SIZE_CAP }
    } else {
        FileView::Outline { capped: byte_len > FILE_SIZE_CAP }
    }
}

/// How the content of a file is shown.
pub fn plan_view(
    path: &str,
    byte_len: u64,
    is_binary: bool,
    generated_content: bool,
    full: bool,
    cap: u64,
) -> (r: FileView)
    ensures
        r == view_of(path@, byte_len, is_binary, generated_content, full, cap),
{
    if is_binary {
        return FileView::Binary;
    }
    let name = match file_name_of(path) {
        Some(n) => n,
        None => "".to_owned(),
    };
    if is_generated_by_name(name.as_str()) || generated_content {
        FileView::Generated
    } else if full && byte_len > cap {
        FileView::Progressive
    } else if full || estimate_tokens(byte_len) <= TOKEN_THRESHOLD {
        FileView::Full
    } else if detect_file_type(path) == FileType::StructuredData {
        FileView::Keys { capped: byte_len > FILE_SIZE_CAP }
    } else {
        FileView::Outline { capped: byte_len > FILE_SIZE_CAP }
    }
}

/// A file is shown whole exactly where that is asked for and it is not too large, or it
/// is small, and it is neither binary nor generated.
pub proof fn law_small_files_whole(
    path: Seq<char>,
    byte_len: u64,
    is_binary: bool,
    generated_content: bool,
    cap: u64,
)
    requires
        !is_binary,
        !generated_content,
        file_name(path) matches Some(n) && !generated_name(n),
    ensures
        view_of(path, byte_len, is_binary, generated_content, false, cap) == FileView::Full <==> tokens(
            byte_len as nat,
        ) <= TOKEN_THRESHOLD,
        view_of(path, byte_len, is_binary, generated_content, true, cap) == FileView::Full <==> byte_len
            <= cap,
{
}

/// Whether the file is shown as an outline unless asked for otherwise.
pub fn would_outline(is_dir: bool, byte_len: u64) -> (r: bool)
    ensures
        r == (!is_dir && tokens(byte_len as nat) > TOKEN_THRESHOLD),
{
    !is_dir && estimate_tokens(byte_len) > TOKEN_THRESHOLD
}

/// The number of lines of a file: one more than it has ends of lines. It wraps around
/// at thirty-two bits.
pub open spec fn lines_in(buf: Seq<u8>) -> nat {
    (byte_count_of(buf, 10) + 1) % 0x1_0000_0000
}

/// The number of lines of a file.
pub fn line_count(buf: &[u8]) -> (r: u32)
    ensures
        r == lines_in(buf@),
{
    ((count_byte(10, buf) as u128 + 1) % 0x1_0000_0000) as u32
}

/// Where the first lines end: after so many ends of lines, or with the file.
pub open spec fn head_end(buf: Seq<u8>, lines: nat) -> int {
    let p = byte_positions(buf, 10);
    if 0 < lines <= p.len() {
        p[lines - 1] + 1
    } else {
        buf.len() as int
    }
}

/// Where the first lines that are shown of a large file end.
pub fn progressive_end(buf: &[u8]) -> (r: usize)
    ensures
        r == head_end(buf@, PROGRESSIVE_LINES as nat),
        r <= buf@.len(),
{
    let p = positions_of_byte(10, buf);
    let n: usize = buf.len();
    proof {
        lemma_byte_positions(buf@, 10);
        assert(ints(p@).len() == p@.len());
    }
    if p.len() >= 200 {
        assert(ints(p@)[199] == p@[199]);
        p[199] + 1
    } else {
        n
    }
}

/// What is shown of a file that is too large to show whole.
pub open spec fn progressive(
    header: Seq<char>,
    file_mb: Seq<char>,
    cap_mb: Seq<char>,
    byte_len: nat,
    total: nat,
    head: Seq<char>,
    outline: Seq<char>,
) -> Seq<char> {
    let shown: nat = if total < PROGRESSIVE_LINES {
        total
    } else {
        PROGRESSIVE_LINES as nat
    };
    header + "\n\n> **full=true capped**: file is "@ + file_mb + "MB (cap: "@ + cap_mb
        + "MB). Showing first "@ + dec(shown) + " of "@ + dec(total)
        + " lines. Continue with `section=\""@ + dec(shown + 1)
        + "-<end>\"` or set TILTH_FULL_SIZE_CAP="@ + dec(byte_len) + " to override.\n\n"@ + head
        + "\n\n## Outline\n\n"@ + outline
}

/// What is shown of a file that is too large to show whole: its first lines and its
/// outline. The sizes come in megabytes.
pub fn progressive_text(
    header: &str,
    file_mb: &str,
    cap_mb: &str,
    byte_len: u64,
    total: u32,
    head: &str,
    outline: &str,
) -> (r: String)
    ensures
        r@ == progressive(
            header@,
            file_mb@,
            cap_mb@,
            byte_len as nat,
            total as nat,
            head@,
            outline@,
        ),
{
    let shown: u32 = if total < PROGRESSIVE_LINES {
        total
    } else {
        PROGRESSIVE_LINES
    };
    let mut s = header.to_owned();
    s.append("\n\n> **full=true capped**: file is ");
    s.append(file_mb);
    s.append("MB (cap: ");
    s.append(cap_mb);
    s.append("MB). Showing first ");
    s.append(decimal(shown as u128).as_str());
    s.append(" of ");
    s.append(decimal(total as u128).as_str());
    s.append(" lines. Continue with `section=\"");
    s.append(decimal(shown as u128 + 1).as_str());
    s.append("-<end>\"` or set TILTH_FULL_SIZE_CAP=");
    s.append(decimal(byte_len as u128).as_str());
    s.append(" to override.\n\n");
    s.append(head);
    s.append("\n\n## Outline\n\n");
    s.append(outline);
    s
}

/// The header and what it heads.
pub fn under_header(header: &str, body: &str) -> (r: String)
    ensures
        r@ == header@ + "\n\n"@ + body@,
{
    let mut s = header.to_owned();
    s.append("\n\n");
    s.append(body);
    s
}

// ---------------------------------------------------------------------------
// Directories
// ---------------------------------------------------------------------------

/// An entry of a directory.
#[derive(Debug)]
pub struct DirItem {
    pub name: String,
    pub is_dir: bool,
    pub is_symlink: bool,
    /// The size, where it is known.
    pub size: Option<u64>,
}

/// The order of entries: by name.
pub open spec fn item_order() -> spec_fn(DirItem, DirItem) -> bool {
    |a: DirItem, b: DirItem| text_le(a.name@, b.name@)
}

/// The line of an entry.
pub open spec fn item_row(i: DirItem) -> Seq<char> {
    "  "@ + i.name@ + (if i.is_dir {
        "/"@
    } else if i.is_symlink {
        " →"@
    } else {
        match i.size {
            Some(n) => "  ("@ + dec(tokens(n as nat)) + " tokens)"@,
            None => ""@,
        }
    })
}

/// The entries of a directory.
pub open spec fn directory_text(path: Seq<char>, items: Seq<DirItem>) -> Seq<char> {
    "# "@ + path + " ("@ + dec(items.len()) + " items)\n\n"@ + join(
        stable_sort(items, item_order()).map_values(|i: DirItem| item_row(i)),
        "\n"@,
    )
}

fn items_ordered(a: &DirItem, b: &DirItem) -> (r: bool)
    ensures
        r == item_order()(*a, *b),
{
    text_ordered(a.name.as_str(), b.name.as_str())
}

fn row_of(i: &DirItem) -> (r: String)
    ensures
        r@ == item_row(*i),
{
    let mut s = "  ".to_owned();
    s.append(i.name.as_str());
    let ghost head = s@;
    if i.is_dir {
        s.append("/");
    } else if i.is_symlink {
        s.append(" →");
    } else {
        match i.size {
            Some(n) => {
                s.append("  (");
                s.append(decimal(estimate_tokens(n) as u128).as_str());
                s.append(" tokens)");
                assert(s@ =~= head + ("  ("@ + dec(tokens(n as nat)) + " tokens)"@));
            },
            None => {
                s.append("");
            },
        }
    }
    s
}

/// The entries of a directory.
pub fn list_directory(path: &str, items: Vec<DirItem>) -> (r: String)
    ensures
        r@ == directory_text(path@, items@),
{
    let ghost given = items@;
    let n: usize = items.len();
    let mut v = items;
    sort_by(&mut v, items_ordered, Ghost(item_order()));
    let ghost rows = v@.map_values(|i: DirItem| item_row(i));
    let mut parts: Vec<String> = Vec::new();
    let mut k: usize = 0;
    while k < v.len()
        invariant
            k <= v@.len(),
            rows == v@.map_values(|i: DirItem| item_row(i)),
            parts@.len() == k,
            forall|j: int| 0 <= j < k ==> (#[trigger] parts@[j])@ == rows[j],
        decreases v@.len() - k,
    {
        parts.push(row_of(&v[k]));
        k = k + 1;
    }
    assert(strs(parts@) =~= rows);
    let mut s = "# ".to_owned();
    s.append(path);
    s.append(" (");
    push_dec(&mut s, n);
    s.append(" items)\n\n");
    s.append(join_strings(parts.as_slice(), "\n").as_str());
    s
}

// ---------------------------------------------------------------------------
// Similar names
// ---------------------------------------------------------------------------

/// How far a name may be from what was asked for to be suggested.
pub const MAX_SUGGESTION_DISTANCE: usize = 3;

/// The closest of the first `n` names that is close enough, and how close; of those
/// that are equally close the first.
pub open spec fn closest(name: Seq<char>, names: Seq<Seq<char>>, n: int) -> Option<(nat, Seq<char>)>
    decreases n,
{
    if n <= 0 {
        None
    } else {
        let r = closest(name, names, n - 1);
        let d = text_distance(name, names[n - 1]);
        let nearer = match r {
            Some((least, _)) => d < least,
            None => true,
        };
        if d <= MAX_SUGGESTION_DISTANCE && nearer {
            Some((d, names[n - 1]))
        } else {
            r
        }
    }
}

/// The name that is closest to the last of the path, among those in its directory.
pub open spec fn similar(path: Seq<char>, names: Seq<Seq<char>>) -> Option<Seq<char>> {
    match (parent(path), file_name(path)) {
        (Some(d), Some(n)) => match closest(n, names, names.len() as int) {
            Some(r) => Some(r.1),
            None => None,
        },
        _ => None,
    }
}

/// The directory in which a similar name is looked for.
pub fn suggestion_dir(scope: &str, query: &str) -> (r: Option<String>)
    ensures
        opt_text(r) == parent(joined(scope@, query@)),
{
    let path = join_path(scope, query);
    parent_of(path.as_str())
}

/// The name that is closest to what was asked for, among those in its directory.
pub fn suggest_similar_file(scope: &str, query: &str, names: &[String]) -> (r: Option<String>)
    ensures
        opt_text(r) == similar(joined(scope@, query@), strs(names@)),
{
    let path = join_path(scope, query);
    suggest_similar(path.as_str(), names)
}

/// The name that is closest to the last of the path, among those in its directory.
pub fn suggest_similar(path: &str, names: &[String]) -> (r: Option<String>)
    ensures
        opt_text(r) == similar(path@, strs(names@)),
{
    if parent_of(path).is_none() {
        return None;
    }
    let name = match file_name_of(path) {
        Some(n) => n,
        None => {
            return None;
        },
    };
    let ghost v = strs(names@);
    let mut best: Option<String> = None;
    let mut least: usize = 0;
    let mut i: usize = 0;
    while i < names.len()
        invariant
            i <= names@.len(),
            v == strs(names@),
            match closest(name@, v, i as int) {
                Some(r) => opt_text(best) == Some(r.1) && least == r.0,
                None => best is None,
            },
        decreases names@.len() - i,
    {
        assert(v[i as int] == names@[i as int]@);
        let d: usize = edit_distance(name.as_str(), names[i].as_str());
        if d <= MAX_SUGGESTION_DISTANCE && (best.is_none() || d < least) {
            best = Some(names[i].clone());
            least = d;
        }
        i = i + 1;
    }
    best
}

// ---------------------------------------------------------------------------
// Kinds of data
// ---------------------------------------------------------------------------

/// The kind of data that files with the extension hold.
pub open spec fn mime(e: Seq<char>) -> Seq<char> {
    if e == "png"@ {
        "image/png"@
    } else if e == "jpg"@ || e == "jpeg"@ {
        "image/jpeg"@
    } else if e == "gif"@ {
        "image/gif"@
    } else if e == "svg"@ {
        "image/svg+xml"@
    } else if e == "webp"@ {
        "image/webp"@
    } else if e == "ico"@ {
        "image/x-icon"@
    } else if e == "pdf"@ {
        "application/pdf"@
    } else if e == "zip"@ {
        "application/zip"@
    } else if e == "gz"@ || e == "tgz"@ {
        "application/gzip"@
    } else if e == "tar"@ {
        "application/x-tar"@
    } else if e == "wasm"@ {
        "application/wasm"@
    } else if e == "woff"@ || e == "woff2"@ {
        "font/woff2"@
    } else if e == "ttf"@ || e == "otf"@ {
        "font/ttf"@
    } else if e == "mp3"@ {
        "audio/mpeg"@
    } else if e == "mp4"@ {
        "video/mp4"@
    } else {
        "application/octet-stream"@
    }
}

/// The kind of data that the file holds, by its extension.
pub open spec fn mime_of(path: Seq<char>) -> Seq<char> {
    match extension(path) {
        Some(e) => mime(e),
        None => "application/octet-stream"@,
    }
}

fn mime_for(e: &str) -> (r: &'static str)
    ensures
        r@ == mime(e@),
{
    if same_text(e, "png") {
        "image/png"
    } else if same_text(e, "jpg") || same_text(e, "jpeg") {
        "image/jpeg"
    } else if same_text(e, "gif") {
        "image/gif"
    } else if same_text(e, "svg") {
        "image/svg+xml"
    } else if same_text(e, "webp") {
        "image/webp"
    } else if same_text(e, "ico") {
        "image/x-icon"
    } else if same_text(e, "pdf") {
        "application/pdf"
    } else if same_text(e, "zip") {
        "application/zip"
    } else if same_text(e, "gz") || same_text(e, "tgz") {
        "application/gzip"
    } else if same_text(e, "tar") {
        "application/x-tar"
    } else if same_text(e, "wasm") {
        "application/wasm"
    } else if same_text(e, "woff") || same_text(e, "woff2") {
        "font/woff2"
    } else if same_text(e, "ttf") || same_text(e, "otf") {
        "font/ttf"
    } else if same_text(e, "mp3") {
        "audio/mpeg"
    } else if same_text(e, "mp4") {
        "video/mp4"
    } else {
        "application/octet-stream"
    }
}

/// The kind of data that the file holds, by its extension.
pub fn mime_from_ext(path: &str) -> (r: &'static str)
    ensures
        r@ == mime_of(path@),
{
    match extension_of(path) {
        Some(e) => mime_for(e.as_str()),
        None => "application/octet-stream",
    }
}

/// What is suggested is the closest name: it is one of the names, no more than three
/// edits away, and no name is closer; nothing is suggested only where no name is that
/// close.
pub proof fn law_closest_name_is_suggested(name: Seq<char>, names: Seq<Seq<char>>, n: int)
    requires
        0 <= n <= names.len(),
    ensures
        match closest(name, names, n) {
            Some((d, s)) => {
                &&& d <= 3
                &&& exists|i: int|
                    0 <= i < n && #[trigger] names[i] == s && text_distance(name, names[i]) == d
                &&& forall|i: int| 0 <= i < n ==> text_distance(name, #[trigger] names[i]) >= d
            },
            None => forall|i: int| 0 <= i < n ==> text_distance(name, #[trigger] names[i]) > 3,
        },
    decreases n,
{
    if n > 0 {
        law_closest_name_is_suggested(name, names, n - 1);
        match closest(name, names, n - 1) {
            Some((d, s)) => {
                let i = choose|i: int|
                    0 <= i < n - 1 && #[trigger] names[i] == s && text_distance(name, names[i]) == d;
                assert(names[i] == s);
            },
            None => {},
        }
        if text_distance(name, names[n - 1]) <= 3 {
            assert(names[n - 1] == names[n - 1]);
        }
    }
}

/// The first lines of a file end right behind an end of line, and so many ends of lines
/// come before; a file with fewer is taken whole.
pub proof fn law_head_has_the_lines(buf: Seq<u8>, lines: nat)
    requires
        0 < lines,
    ensures
        0 <= head_end(buf, lines) <= buf.len(),
        byte_count_of(buf, 10) >= lines ==> head_end(buf, lines) > 0 && buf[head_end(buf, lines) - 1]
            == 10 && byte_count_of(buf.take(head_end(buf, lines)), 10) == lines,
        byte_count_of(buf, 10) < lines ==> head_end(buf, lines) == buf.len(),
{
    lemma_byte_positions(buf, 10);
    let p = byte_positions(buf, 10);
    if lines <= p.len() {
        assert(buf[p[lines - 1]] == 10);
        lemma_positions_take(buf, 10, lines - 1);
    }
}

proof fn lemma_positions_take(s: Seq<u8>, b: u8, k: int)
    requires
        0 <= k < byte_positions(s, b).len(),
    ensures
        byte_positions(s.take(byte_positions(s, b)[k] + 1), b).len() == k + 1,
    decreases s.len(),
{
    lemma_byte_positions(s, b);
    if s.len() > 0 {
        let t = s.drop_last();
        let q = byte_positions(t, b);
        let r = byte_positions(s, b);
        lemma_byte_positions(t, b);
        if k < q.len() {
            lemma_positions_take(t, b, k);
            assert(r[k] == q[k]);
            assert(t.take(q[k] + 1) =~= s.take(r[k] + 1));
        } else {
            assert(r[k] == s.len() - 1);
            assert(s.take(r[k] + 1) =~= s);
        }
    }
}

/// Every entry of a directory is listed.
pub proof fn law_every_entry_is_listed(path: Seq<char>, items: Seq<DirItem>, i: int)
    requires
        0 <= i < items.len(),
    ensures
        crate::text::has(directory_text(path, items), "  "@ + items[i].name@),
{
    let x = items[i];
    let s = stable_sort(items, item_order());
    let rows = s.map_values(|i: DirItem| item_row(i));
    let name = "  "@ + x.name@;
    assert(items.contains(x));
    crate::sort::law_sort_keeps_members(items, item_order(), x);
    let k = choose|k: int| 0 <= k < s.len() && s[k] == x;
    assert(rows[k] == item_row(x));
    crate::text::law_join_holds_every_part(rows, "\n"@, k);
    let mark = if x.is_dir {
        "/"@
    } else if x.is_symlink {
        " →"@
    } else {
        match x.size {
            Some(n) => "  ("@ + dec(tokens(n as nat)) + " tokens)"@,
            None => ""@,
        }
    };
    crate::text::lemma_has_self(name);
    crate::text::lemma_has_left(name, mark, name);
    crate::text::lemma_has_trans(join(rows, "\n"@), item_row(x), name);
    crate::text::lemma_has_right(
        "# "@ + path + " ("@ + dec(items.len()) + " items)\n\n"@,
        join(rows, "\n"@),
        name,
    );
}

/// A file of at most twenty-four thousand bytes is shown whole; a larger one by its
/// outline, or its keys where it is structured data, and that is cut short above half a
/// million bytes. One that is asked for in full is shown whole up to the limit, however
/// large it is otherwise.
pub proof fn law_size_decides_the_view(path: Seq<char>, byte_len: u64, cap: u64)
    requires
        file_name(path) matches Some(n) && !generated_name(n),
    ensures
        ({
            let v = view_of(path, byte_len, false, false, false, cap);
            &&& byte_len <= 24_000 ==> v == FileView::Full
            &&& byte_len > 24_000 && file_type(path) == FileType::StructuredData ==> v
                == (FileView::Keys { capped: byte_len > 500_000 })
            &&& byte_len > 24_000 && file_type(path) != FileType::StructuredData ==> v
                == (FileView::Outline { capped: byte_len > 500_000 })
        }),
        view_of(path, byte_len, false, false, true, cap) == (if byte_len <= cap {
            FileView::Full
        } else {
            FileView::Progressive
        }),
{
}

} // verus!
