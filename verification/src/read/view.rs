//! How files are shown: headers and numbered lines.
use vstd::prelude::*;
use vstd::string::*;

use crate::text::{
    chars_of, dec, decimal, join, join_strings, lines, lines_of, pad_left, push_aligned, push_chars, strs, views,
};
use crate::types::{estimate_tokens, format_tokens, token_label, tokens};

verus! {

/// What is shown of a file.
#[derive(Clone, Copy, Debug, PartialEq, Eq, Structural)]
pub enum ViewMode {
    Full,
    Outline,
    Keys,
    Section,
    Empty,
    Generated,
}

/// What is shown of a file, in a word.
pub open spec fn mode_word(m: ViewMode) -> Seq<char> {
    match m {
        ViewMode::Full => "full"@,
        ViewMode::Outline => "outline"@,
        ViewMode::Keys => "keys"@,
        ViewMode::Section => "section"@,
        ViewMode::Empty => "empty"@,
        ViewMode::Generated => "generated"@,
    }
}

fn word_of(m: ViewMode) -> (r: &'static str)
    ensures
        r@ == mode_word(m),
{
    match m {
        ViewMode::Full => "full",
        ViewMode::Outline => "outline",
        ViewMode::Keys => "keys",
        ViewMode::Section => "section",
        ViewMode::Empty => "empty",
        ViewMode::Generated => "generated",
    }
}

/// The header of a file.
pub open spec fn header(path: Seq<char>, byte_len: u64, line_count: u32, mode: ViewMode) -> Seq<char> {
    "# "@ + path + " ("@ + dec(line_count as nat) + " lines, "@ + token_label(tokens(byte_len as nat))
        + " tokens) ["@ + mode_word(mode) + "]"@
}

/// The header of a file: its path, how long it is and what is shown of it.
pub fn file_header(path: &str, byte_len: u64, line_count: u32, mode: ViewMode) -> (r: String)
    ensures
        r@ == header(path@, byte_len, line_count, mode),
{
    let mut s = "# ".to_owned();
    s.append(path);
    s.append(" (");
    s.append(decimal(line_count as u128).as_str());
    s.append(" lines, ");
    s.append(format_tokens(estimate_tokens(byte_len)).as_str());
    s.append(" tokens) [");
    s.append(word_of(mode));
    s.append("]");
    s
}

/// The header of a file that is no text.
pub fn binary_header(path: &str, byte_len: u64, mime: &str) -> (r: String)
    ensures
        r@ == "# "@ + path@ + " ("@ + dec(byte_len as nat) + " bytes, "@ + mime@ + ") [skipped]"@,
{
    let mut s = "# ".to_owned();
    s.append(path);
    s.append(" (");
    s.append(decimal(byte_len as u128).as_str());
    s.append(" bytes, ");
    s.append(mime);
    s.append(") [skipped]");
    s
}

/// A line with its number.
pub open spec fn numbered_line(line: Seq<char>, number: nat) -> Seq<char> {
    pad_left(dec(number), 4) + " │ "@ + line
}

/// The lines with their numbers, from `start` on.
pub open spec fn numbered_lines(l: Seq<Seq<char>>, start: nat) -> Seq<Seq<char>> {
    Seq::new(l.len(), |i: int| numbered_line(l[i], (start + i) as nat))
}

/// The lines of the content with their numbers, from `start` on.
pub fn number_lines(content: &str, start: u32) -> (r: String)
    ensures
        r@ == join(numbered_lines(lines(content@), start as nat), "\n"@),
{
    let c = chars_of(content);
    let l = lines_of(c.as_slice());
    let ghost v = views(l@);
    let ghost want = numbered_lines(v, start as nat);
    assert(v.len() == l@.len());
    let mut out: Vec<String> = Vec::new();
    let mut i: usize = 0;
    while i < l.len()
        invariant
            i <= l@.len(),
            v == views(l@),
            want == numbered_lines(v, start as nat),
            out@.len() == i,
            forall|k: int| 0 <= k < i ==> (#[trigger] out@[k])@ == want[k],
        decreases l@.len() - i,
    {
        assert(v[i as int] == l@[i as int]@);
        let number = decimal(start as u128 + i as u128);
        let mut s = String::new();
        push_aligned(&mut s, number.as_str(), 4);
        s.append(" │ ");
        push_chars(&mut s, l[i]);
        assert(s@ =~= want[i as int]);
        out.push(s);
        i = i + 1;
    }
    assert(strs(out@) =~= want);
    join_strings(out.as_slice(), "\n")
}

/// Every line is shown with its number: there are as many rows as lines, and each row
/// ends in its line, behind a number that counts up from the first.
pub proof fn law_every_line_is_numbered(l: Seq<Seq<char>>, start: nat, i: int)
    requires
        0 <= i < l.len(),
    ensures
        numbered_lines(l, start).len() == l.len(),
        l[i].is_suffix_of(numbered_lines(l, start)[i]),
        exists|blanks: nat|
            numbered_lines(l, start)[i] == #[trigger] crate::text::run(' ', blanks) + dec(
                (start + i) as nat,
            ) + " │ "@ + l[i],
{
    let row = numbered_lines(l, start)[i];
    let n = dec((start + i) as nat);
    assert(l[i] =~= row.subrange(row.len() - l[i].len(), row.len() as int));
    let blanks: nat = if n.len() < 4 {
        (4 - n.len()) as nat
    } else {
        0
    };
    assert(pad_left(n, 4) =~= crate::text::run(' ', blanks) + n);
    assert(row =~= crate::text::run(' ', blanks) + n + " │ "@ + l[i]);
}

} // verus!
