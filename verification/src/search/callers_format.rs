//! Showing the calls of a function.
use vstd::prelude::*;
use vstd::string::*;

use crate::paths::{equal_paths, same_path};
use crate::text::{
    chars_of, dec, decimal, has, has_string, lemma_strs_push, lines, lines_of, opt_str, pad_left, pad_right,
    push_aligned, push_chars, push_dec, push_padded, same_text, strs, views,
};

use super::bfs_format::{plural, plural_of, push_token_note, rel, shown, token_note};
use super::callers::{
    callers_view, pair_view, pairs_view, rank_callers, ranked, CallerMatch, CallerView,
};
use super::pagination::{page, take_page};

verus! {

/// How many callers are followed one hop further at most.
pub const IMPACT_FANOUT_THRESHOLD: usize = 10;

/// How many callers of the callers are shown at most.
pub const IMPACT_MAX_RESULTS: usize = 15;

/// How many callers of the callers are enough: once as many were found, no further file
/// is searched for them.
pub const BATCH_EARLY_QUIT: usize = 50;

/// Whether the search for callers of the callers stops before the next file.
pub fn impact_search_stops(found: usize) -> (r: bool)
    ensures
        r == (found >= BATCH_EARLY_QUIT),
{
    found >= BATCH_EARLY_QUIT
}

/// What is said where there are no calls.
pub open spec fn no_callers(target: Seq<char>, scope: Seq<char>) -> Seq<char> {
    "# Callers of \""@ + target + "\" in "@ + scope
        + " — no call sites found\n\nTip: tilth detects only direct, by-name call sites. The symbol may still be invoked via:\n- Rust trait objects (`dyn Trait`) or generic bounds\n- Go interface dispatch or function values stored in structs\n- Java/Kotlin interface or abstract methods, reflection\n- TypeScript/JS class hierarchies, callbacks, or dynamic property access\n- Python duck typing, `getattr`, decorators\n\nTry `tilth(\""@
        + target
        + "\")` (symbol search) to find the declaring interface/trait, then run `callers` on that name, or search for implementors."@
}

fn no_callers_text(target: &str, scope: &str) -> (r: String)
    ensures
        r@ == no_callers(target@, scope@),
{
    let mut r = "# Callers of \"".to_owned();
    r.append(target);
    r.append("\" in ");
    r.append(scope);
    r.append(
        " — no call sites found\n\nTip: tilth detects only direct, by-name call sites. The symbol may still be invoked via:\n- Rust trait objects (`dyn Trait`) or generic bounds\n- Go interface dispatch or function values stored in structs\n- Java/Kotlin interface or abstract methods, reflection\n- TypeScript/JS class hierarchies, callbacks, or dynamic property access\n- Python duck typing, `getattr`, decorators\n\nTry `tilth(\"",
    );
    r.append(target);
    r.append(
        "\")` (symbol search) to find the declaring interface/trait, then run `callers` on that name, or search for implementors.",
    );
    r
}

/// The heading of the list.
pub open spec fn callers_header(target: Seq<char>, scope: Seq<char>, total: nat) -> Seq<char> {
    "# Callers of \""@ + target + "\" in "@ + scope + " — "@ + dec(total) + " call site"@ + plural(
        total as int,
    ) + "\n"@
}

fn push_header(out: &mut String, target: &str, scope: &str, total: usize)
    ensures
        final(out)@ == old(out)@ + callers_header(target@, scope@, total as nat),
{
    let mut s = "# Callers of \"".to_owned();
    s.append(target);
    s.append("\" in ");
    s.append(scope);
    s.append(" — ");
    push_dec(&mut s, total);
    s.append(" call site");
    s.append(plural_of(total));
    s.append("\n");
    out.append(s.as_str());
}

// ---------------------------------------------------------------------------
// One call
// ---------------------------------------------------------------------------

/// Where the call is, what makes it, and the call.
pub open spec fn caller_heading(c: CallerView, scope: Seq<char>) -> Seq<char> {
    "\n## "@ + shown(c.path, scope) + ":"@ + dec(c.line as nat) + " [caller: "@ + c.calling_function
        + "]\n→ "@ + c.call_text + "\n"@
}

/// The line of the source with its number; the line of the call is marked.
pub open spec fn source_row(l: Seq<Seq<char>>, line: u32, n: int) -> Seq<char> {
    (if n == line {
        "► "@
    } else {
        "  "@
    }) + pad_left(dec(n as nat), 4) + " │ "@ + l[n - 1] + "\n"@
}

/// The lines after line `first` up to line `last`.
pub open spec fn source_rows(l: Seq<Seq<char>>, line: u32, first: int, last: int) -> Seq<char>
    decreases last - first,
{
    if last <= first {
        Seq::empty()
    } else {
        source_rows(l, line, first, last - 1) + source_row(l, line, last)
    }
}

/// The number of lines before the window around the call: two lines of it are in the
/// window, as far as they are in the calling function.
pub open spec fn window_first(line: u32, start: u32) -> int {
    let from = if line - 2 > start {
        line - 2
    } else {
        start as int
    };
    if from > 0 {
        from - 1
    } else {
        0
    }
}

/// The last line of the window around the call.
pub open spec fn window_last(line: u32, end: u32, total: nat) -> int {
    let to = if line + 2 < end {
        line + 2
    } else {
        end as int
    };
    if to < total {
        to
    } else {
        total as int
    }
}

/// The source around the call.
pub open spec fn snippet(c: CallerView) -> Seq<char> {
    match c.caller_range {
        None => Seq::empty(),
        Some((start, end)) => {
            let l = lines(c.content);
            "\n```\n"@ + source_rows(
                l,
                c.line,
                window_first(c.line, start),
                window_last(c.line, end, l.len()),
            ) + "```\n"@
        },
    }
}

fn push_rows(out: &mut String, l: &[&[char]], line: u32, first: usize, last: usize)
    requires
        last <= l@.len(),
    ensures
        final(out)@ == old(out)@ + source_rows(views(l@), line, first as int, last as int),
{
    let ghost start = out@;
    let ghost v = views(l@);
    assert(start + source_rows(v, line, first as int, first as int) =~= start);
    if last <= first {
        assert(start + source_rows(v, line, first as int, last as int) =~= start);
        return ;
    }
    let mut n: usize = first;
    while n < last
        invariant
            first <= n <= last <= l@.len(),
            v == views(l@),
            out@ == start + source_rows(v, line, first as int, n as int),
        decreases last - n,
    {
        let ghost before = source_rows(v, line, first as int, n as int);
        assert(v[n as int] == l@[n as int]@);
        let mut s = if n + 1 == line as usize {
            "► ".to_owned()
        } else {
            "  ".to_owned()
        };
        let mut num = String::new();
        push_dec(&mut num, n + 1);
        assert(num@ =~= dec((n + 1) as nat));
        push_aligned(&mut s, num.as_str(), 4);
        s.append(" │ ");
        push_chars(&mut s, l[n]);
        s.append("\n");
        assert(s@ =~= source_row(v, line, n + 1));
        out.append(s.as_str());
        assert(out@ =~= start + (before + source_row(v, line, n + 1)));
        n = n + 1;
    }
}

fn push_snippet(out: &mut String, c: &CallerMatch)
    ensures
        final(out)@ == old(out)@ + snippet(c@),
{
    let ghost start = out@;
    match c.caller_range {
        None => {
            assert(start + snippet(c@) =~= start);
        },
        Some((from, to)) => {
            let text = chars_of(c.content.as_str());
            let l = lines_of(text.as_slice());
            let line: u32 = c.line;
            let ws: u32 = if line > 2 && line - 2 > from {
                line - 2
            } else {
                from
            };
            let first: usize = if ws > 0 {
                ws as usize - 1
            } else {
                0
            };
            let we: u32 = if line < to && to - line > 2 {
                line + 2
            } else {
                to
            };
            let last: usize = if (we as usize) < l.len() {
                we as usize
            } else {
                l.len()
            };
            let mut s = "\n```\n".to_owned();
            push_rows(&mut s, l.as_slice(), line, first, last);
            s.append("```\n");
            assert(s@ =~= snippet(c@));
            out.append(s.as_str());
        },
    }
}

/// The first `n` calls; the first `expand` of them with their source.
pub open spec fn callers_list(cs: Seq<CallerView>, scope: Seq<char>, expand: nat, n: int) -> Seq<char>
    decreases n,
{
    if n <= 0 {
        Seq::empty()
    } else {
        callers_list(cs, scope, expand, n - 1) + caller_heading(cs[n - 1], scope) + (if n - 1
            < expand {
            snippet(cs[n - 1])
        } else {
            Seq::empty()
        })
    }
}

fn push_callers(out: &mut String, cs: &Vec<CallerMatch>, scope: &str, expand: usize)
    ensures
        final(out)@ == old(out)@ + callers_list(
            callers_view(cs@),
            scope@,
            expand as nat,
            cs@.len() as int,
        ),
{
    let ghost start = out@;
    let ghost v = callers_view(cs@);
    let mut i: usize = 0;
    assert(start + callers_list(v, scope@, expand as nat, 0) =~= start);
    while i < cs.len()
        invariant
            i <= cs@.len(),
            v == callers_view(cs@),
            out@ == start + callers_list(v, scope@, expand as nat, i as int),
        decreases cs@.len() - i,
    {
        let ghost before = callers_list(v, scope@, expand as nat, i as int);
        let c = &cs[i];
        assert(v[i as int] == c@);
        let mut s = "\n## ".to_owned();
        s.append(rel(c.path.as_str(), scope).as_str());
        s.append(":");
        push_dec(&mut s, c.line as usize);
        s.append(" [caller: ");
        s.append(c.calling_function.as_str());
        s.append("]\n→ ");
        s.append(c.call_text.as_str());
        s.append("\n");
        assert(s@ =~= caller_heading(c@, scope@));
        out.append(s.as_str());
        if i < expand {
            push_snippet(out, c);
        }
        assert(out@ =~= start + callers_list(v, scope@, expand as nat, i + 1));
        i = i + 1;
    }
}

/// Where the next page starts, or that there is none.
pub open spec fn page_note(total: int, skipped: int, shown: int) -> Seq<char> {
    if total > skipped + shown {
        "\n... and "@ + dec((total - skipped - shown) as nat)
            + " more call sites. Next page: --offset "@ + dec((skipped + shown) as nat) + "."@
    } else if skipped > 0 {
        "\n(end of results, offset="@ + dec(skipped as nat) + ")"@
    } else {
        Seq::empty()
    }
}

fn push_page_note(out: &mut String, total: usize, skipped: usize, shown: usize)
    requires
        skipped + shown <= total,
    ensures
        final(out)@ == old(out)@ + page_note(total as int, skipped as int, shown as int),
{
    let ghost start = out@;
    let next: usize = skipped + shown;
    if total > next {
        let mut s = "\n... and ".to_owned();
        push_dec(&mut s, total - next);
        s.append(" more call sites. Next page: --offset ");
        push_dec(&mut s, next);
        s.append(".");
        out.append(s.as_str());
    } else if skipped > 0 {
        let mut s = "\n(end of results, offset=".to_owned();
        push_dec(&mut s, skipped);
        s.append(")");
        out.append(s.as_str());
    } else {
        assert(start + Seq::<char>::empty() =~= start);
    }
}

// ---------------------------------------------------------------------------
// One hop further
// ---------------------------------------------------------------------------

/// The functions that make the first `n` calls, each once; calls outside of
/// functions are left out.
pub open spec fn caller_names(cs: Seq<CallerView>, n: int) -> Seq<Seq<char>>
    decreases n,
{
    if n <= 0 {
        Seq::empty()
    } else {
        let r = caller_names(cs, n - 1);
        let f = cs[n - 1].calling_function;
        if f == "<top-level>"@ || r.contains(f) {
            r
        } else {
            r.push(f)
        }
    }
}

/// The callers are few enough to be followed one hop further.
pub open spec fn follows(cs: Seq<CallerView>) -> bool {
    0 < caller_names(cs, cs.len() as int).len() <= IMPACT_FANOUT_THRESHOLD
}

/// The functions whose callers are looked for as well, where they are few enough.
pub fn impact_names(callers: &Vec<CallerMatch>) -> (r: Option<Vec<String>>)
    ensures
        r is Some <==> follows(callers_view(callers@)),
        r matches Some(v) ==> strs(v@) == caller_names(
            callers_view(callers@),
            callers@.len() as int,
        ),
{
    broadcast use lemma_strs_push;

    let ghost cs = callers_view(callers@);
    let mut names: Vec<String> = Vec::new();
    let mut i: usize = 0;
    assert(strs(names@) =~= Seq::<Seq<char>>::empty());
    while i < callers.len()
        invariant
            i <= callers@.len(),
            cs == callers_view(callers@),
            strs(names@) == caller_names(cs, i as int),
        decreases callers@.len() - i,
    {
        assert(cs[i as int] == callers@[i as int]@);
        let f = callers[i].calling_function.as_str();
        if !same_text(f, "<top-level>") && !has_string(names.as_slice(), f) {
            names.push(f.to_owned());
        }
        i = i + 1;
    }
    assert(names@.len() == strs(names@).len());
    if names.len() > 0 && names.len() <= IMPACT_FANOUT_THRESHOLD {
        Some(names)
    } else {
        None
    }
}

/// One of the calls stands at the place.
pub open spec fn stands_at(cs: Seq<CallerView>, c: CallerView) -> bool {
    exists|i: int|
        0 <= i < cs.len() && same_path((#[trigger] cs[i]).path, c.path) && cs[i].line == c.line
}

/// Those of the first `n` calls that stand elsewhere than the ones shown.
pub open spec fn elsewhere(
    hop: Seq<(Seq<char>, CallerView)>,
    cs: Seq<CallerView>,
    n: int,
) -> Seq<(Seq<char>, CallerView)>
    decreases n,
{
    if n <= 0 {
        Seq::empty()
    } else {
        let r = elsewhere(hop, cs, n - 1);
        if stands_at(cs, hop[n - 1].1) {
            r
        } else {
            r.push(hop[n - 1])
        }
    }
}

/// The calls are made by the same function of the same file.
pub open spec fn same_caller(a: CallerView, b: CallerView) -> bool {
    a.calling_function == b.calling_function && same_path(a.path, b.path)
}

/// One of the calls is made by the same function of the same file.
pub open spec fn caller_seen(v: Seq<(Seq<char>, CallerView)>, c: CallerView) -> bool {
    exists|i: int| 0 <= i < v.len() && same_caller((#[trigger] v[i]).1, c)
}

/// The first `n` calls, one for each function of a file.
pub open spec fn one_each(v: Seq<(Seq<char>, CallerView)>, n: int) -> Seq<(Seq<char>, CallerView)>
    decreases n,
{
    if n <= 0 {
        Seq::empty()
    } else {
        let r = one_each(v, n - 1);
        if caller_seen(r, v[n - 1].1) {
            r
        } else {
            r.push(v[n - 1])
        }
    }
}

/// The line of a caller of a caller.
pub open spec fn impact_row(p: (Seq<char>, CallerView), scope: Seq<char>) -> Seq<char> {
    "  "@ + pad_right(p.1.calling_function, 20) + " "@ + shown(p.1.path, scope) + ":"@ + dec(
        p.1.line as nat,
    ) + "  → "@ + p.0 + "\n"@
}

/// The lines of the first `n` callers of callers.
pub open spec fn impact_rows(v: Seq<(Seq<char>, CallerView)>, scope: Seq<char>, n: int) -> Seq<char>
    decreases n,
{
    if n <= 0 {
        Seq::empty()
    } else {
        impact_rows(v, scope, n - 1) + impact_row(v[n - 1], scope)
    }
}

/// The callers of the callers, and how many functions are affected.
pub open spec fn impact(hop: Seq<(Seq<char>, CallerView)>, cs: Seq<CallerView>, scope: Seq<char>) -> Seq<char> {
    let other = elsewhere(hop, cs, hop.len() as int);
    if other.len() == 0 {
        Seq::empty()
    } else {
        let each = one_each(other, other.len() as int);
        let count: int = if each.len() < IMPACT_MAX_RESULTS {
            each.len() as int
        } else {
            IMPACT_MAX_RESULTS as int
        };
        "\n── impact (2nd hop) ──\n"@ + impact_rows(each, scope, count) + (if each.len()
            > IMPACT_MAX_RESULTS {
            "  ... and "@ + dec((each.len() - IMPACT_MAX_RESULTS) as nat) + " more\n"@
        } else {
            Seq::empty()
        }) + "\n"@ + dec((cs.len() + count) as nat) + " functions affected across 2 hops.\n"@
    }
}

fn at_place(cs: &Vec<CallerMatch>, c: &CallerMatch) -> (r: bool)
    ensures
        r == stands_at(callers_view(cs@), c@),
{
    let ghost v = callers_view(cs@);
    let mut i: usize = 0;
    while i < cs.len()
        invariant
            i <= cs@.len(),
            v == callers_view(cs@),
            forall|j: int|
                0 <= j < i ==> !(same_path((#[trigger] v[j]).path, c.path@) && v[j].line == c.line),
        decreases cs@.len() - i,
    {
        assert(v[i as int] == cs@[i as int]@);
        if cs[i].line == c.line && equal_paths(cs[i].path.as_str(), c.path.as_str()) {
            return true;
        }
        i = i + 1;
    }
    false
}

/// Whether a call in the same function of the same file was picked.
fn seen_caller(hop: &Vec<(String, CallerMatch)>, picked: &Vec<usize>, c: &CallerMatch) -> (r: bool)
    requires
        forall|k: int| 0 <= k < picked@.len() ==> #[trigger] picked@[k] < hop@.len(),
    ensures
        r == caller_seen(chosen(pairs_view(hop@), picked@), c@),
{
    let ghost v = chosen(pairs_view(hop@), picked@);
    let mut k: usize = 0;
    while k < picked.len()
        invariant
            k <= picked@.len(),
            v == chosen(pairs_view(hop@), picked@),
            forall|k: int| 0 <= k < picked@.len() ==> #[trigger] picked@[k] < hop@.len(),
            forall|j: int| 0 <= j < k ==> !same_caller((#[trigger] v[j]).1, c@),
        decreases picked@.len() - k,
    {
        let p = &hop[picked[k]];
        assert(v[k as int] == pairs_view(hop@)[picked@[k as int] as int]);
        assert(v[k as int] == pair_view(*p));
        if same_text(p.1.calling_function.as_str(), c.calling_function.as_str()) && equal_paths(
            p.1.path.as_str(),
            c.path.as_str(),
        ) {
            return true;
        }
        k = k + 1;
    }
    false
}

/// The elements at the positions.
pub open spec fn chosen(v: Seq<(Seq<char>, CallerView)>, picked: Seq<usize>) -> Seq<(Seq<char>, CallerView)> {
    picked.map_values(|i: usize| v[i as int])
}

/// The positions of the calls that stand elsewhere, and of those one for each
/// function of a file.
fn pick(hop: &Vec<(String, CallerMatch)>, cs: &Vec<CallerMatch>) -> (r: (bool, Vec<usize>))
    ensures
        r.0 == (elsewhere(pairs_view(hop@), callers_view(cs@), hop@.len() as int).len() > 0),
        forall|k: int| 0 <= k < r.1@.len() ==> #[trigger] r.1@[k] < hop@.len(),
        chosen(pairs_view(hop@), r.1@) == one_each(
            elsewhere(pairs_view(hop@), callers_view(cs@), hop@.len() as int),
            elsewhere(pairs_view(hop@), callers_view(cs@), hop@.len() as int).len() as int,
        ),
{
    let ghost h = pairs_view(hop@);
    let ghost c = callers_view(cs@);
    let mut any = false;
    let mut picked: Vec<usize> = Vec::new();
    let mut i: usize = 0;
    assert(chosen(h, picked@) =~= Seq::<(Seq<char>, CallerView)>::empty());
    while i < hop.len()
        invariant
            i <= hop@.len(),
            h == pairs_view(hop@),
            c == callers_view(cs@),
            any == (elsewhere(h, c, i as int).len() > 0),
            forall|k: int| 0 <= k < picked@.len() ==> #[trigger] picked@[k] < hop@.len(),
            chosen(h, picked@) == one_each(
                elsewhere(h, c, i as int),
                elsewhere(h, c, i as int).len() as int,
            ),
        decreases hop@.len() - i,
    {
        let p = &hop[i];
        assert(h[i as int] == pair_view(*p));
        if !at_place(cs, &p.1) {
            any = true;
            let ghost before = elsewhere(h, c, i as int);
            let ghost now = before.push(h[i as int]);
            proof {
                lemma_one_each_prefix(before, now, before.len() as int);
            }
            if !seen_caller(hop, &picked, &p.1) {
                let ghost was = picked@;
                picked.push(i);
                assert(chosen(h, picked@) =~= chosen(h, was).push(h[i as int]));
            }
        }
        i = i + 1;
    }
    (any, picked)
}

proof fn lemma_one_each_prefix(
    a: Seq<(Seq<char>, CallerView)>,
    b: Seq<(Seq<char>, CallerView)>,
    n: int,
)
    requires
        0 <= n <= a.len(),
        a.len() <= b.len(),
        forall|i: int| 0 <= i < a.len() ==> a[i] == b[i],
    ensures
        one_each(a, n) == one_each(b, n),
    decreases n,
{
    if n > 0 {
        lemma_one_each_prefix(a, b, n - 1);
    }
}

fn push_impact(out: &mut String, hop: &Vec<(String, CallerMatch)>, cs: &Vec<CallerMatch>, scope: &str)
    ensures
        final(out)@ == old(out)@ + impact(pairs_view(hop@), callers_view(cs@), scope@),
{
    let ghost h = pairs_view(hop@);
    let ghost c = callers_view(cs@);
    let ghost start = out@;
    let (any, picked) = pick(hop, cs);
    let ghost each = chosen(h, picked@);
    assert(h.len() == hop@.len());
    if !any {
        assert(start + impact(h, c, scope@) =~= start);
        return ;
    }
    let count: usize = if picked.len() < IMPACT_MAX_RESULTS {
        picked.len()
    } else {
        IMPACT_MAX_RESULTS
    };
    let mut s = "\n── impact (2nd hop) ──\n".to_owned();
    let ghost head = s@;
    let mut k: usize = 0;
    assert(head + impact_rows(each, scope@, 0) =~= head);
    while k < count
        invariant
            k <= count <= picked@.len(),
            h == pairs_view(hop@),
            each == chosen(h, picked@),
            forall|k: int| 0 <= k < picked@.len() ==> #[trigger] picked@[k] < hop@.len(),
            s@ == head + impact_rows(each, scope@, k as int),
        decreases count - k,
    {
        let p = &hop[picked[k]];
        assert(each[k as int] == h[picked@[k as int] as int]);
        assert(each[k as int] == pair_view(*p));
        let ghost before = impact_rows(each, scope@, k as int);
        let mut row = "  ".to_owned();
        push_padded(&mut row, p.1.calling_function.as_str(), 20);
        row.append(" ");
        row.append(rel(p.1.path.as_str(), scope).as_str());
        row.append(":");
        push_dec(&mut row, p.1.line as usize);
        row.append("  → ");
        row.append(p.0.as_str());
        row.append("\n");
        assert(row@ =~= impact_row(each[k as int], scope@));
        s.append(row.as_str());
        assert(s@ =~= head + (before + impact_row(each[k as int], scope@)));
        k = k + 1;
    }
    let ghost mid = s@;
    if picked.len() > IMPACT_MAX_RESULTS {
        s.append("  ... and ");
        push_dec(&mut s, picked.len() - IMPACT_MAX_RESULTS);
        s.append(" more\n");
        assert(s@ =~= mid + ("  ... and "@ + dec((each.len() - IMPACT_MAX_RESULTS) as nat)
            + " more\n"@));
    } else {
        assert(s@ =~= mid + Seq::<char>::empty());
    }
    s.append("\n");
    s.append(decimal(cs.len() as u128 + count as u128).as_str());
    s.append(" functions affected across 2 hops.\n");
    assert(s@ =~= impact(h, c, scope@));
    out.append(s.as_str());
}

// ---------------------------------------------------------------------------
// The list
// ---------------------------------------------------------------------------

/// The list without the note on its size.
pub open spec fn callers_body(
    target: Seq<char>,
    scope: Seq<char>,
    callers: Seq<CallerView>,
    hop: Option<Seq<(Seq<char>, CallerView)>>,
    expand: nat,
    context: Option<Seq<char>>,
    limit: Option<usize>,
    offset: nat,
) -> Seq<char> {
    let total = callers.len() as int;
    let skipped: int = if offset < total {
        offset as int
    } else {
        total
    };
    let cs = page(ranked(callers, scope, context), limit, offset);
    callers_header(target, scope, total as nat) + callers_list(
        cs,
        scope,
        expand,
        cs.len() as int,
    ) + page_note(total, skipped, cs.len() as int) + (match hop {
        Some(h) => if follows(callers) {
            impact(h, cs, scope)
        } else {
            Seq::empty()
        },
        None => Seq::empty(),
    })
}

/// The list of the calls.
pub open spec fn callers_text(
    target: Seq<char>,
    scope: Seq<char>,
    callers: Seq<CallerView>,
    hop: Option<Seq<(Seq<char>, CallerView)>>,
    expand: nat,
    context: Option<Seq<char>>,
    limit: Option<usize>,
    offset: nat,
) -> Seq<char> {
    if callers.len() == 0 {
        no_callers(target, scope)
    } else {
        let b = callers_body(target, scope, callers, hop, expand, context, limit, offset);
        b + "\n\n"@ + token_note(b)
    }
}

/// The page of the ranked calls, and what it leaves out.
fn ranked_page(
    callers: Vec<CallerMatch>,
    scope: &str,
    context: Option<&str>,
    limit: Option<usize>,
    offset: usize,
) -> (r: Vec<CallerMatch>)
    ensures
        callers_view(r@) == page(
            ranked(callers_view(callers@), scope@, opt_str(context)),
            limit,
            offset as nat,
        ),
        r@.len() + (if offset < callers@.len() {
            offset as int
        } else {
            callers@.len() as int
        }) <= callers@.len(),
{
    let ghost all = ranked(callers_view(callers@), scope@, opt_str(context));
    let mut v = callers;
    rank_callers(&mut v, scope, context);
    proof {
        crate::sort::law_sort_keeps_elements(
            callers_view(callers@),
            super::callers::caller_order(scope@, opt_str(context)),
        );
        assert(callers_view(v@).len() == v@.len());
        assert(callers_view(callers@).len() == callers@.len());
    }
    let ghost sorted = v@;
    let r = take_page(v, limit, offset);
    assert(callers_view(r@) =~= page(all, limit, offset as nat));
    r
}

/// The list of the calls, the page that starts at `offset`. The calls one hop
/// further are those of the functions that are looked for as well.
pub fn search_callers_expanded(
    target: &str,
    scope: &str,
    callers: Vec<CallerMatch>,
    hop: Option<Vec<(String, CallerMatch)>>,
    expand: usize,
    context: Option<&str>,
    limit: Option<usize>,
    offset: usize,
) -> (r: String)
    ensures
        r@ == callers_text(
            target@,
            scope@,
            callers_view(callers@),
            match hop {
                Some(h) => Some(pairs_view(h@)),
                None => None,
            },
            expand as nat,
            opt_str(context),
            limit,
            offset as nat,
        ),
{
    let ghost cv = callers_view(callers@);
    assert(cv.len() == callers@.len());
    if callers.len() == 0 {
        return no_callers_text(target, scope);
    }
    let total: usize = callers.len();
    let skipped: usize = if offset < total {
        offset
    } else {
        total
    };
    let follow = impact_names(&callers).is_some();
    let cs = ranked_page(callers, scope, context, limit, offset);
    let ghost pv = callers_view(cs@);
    assert(pv.len() == cs@.len());
    let mut out = String::new();
    push_header(&mut out, target, scope, total);
    push_callers(&mut out, &cs, scope, expand);
    push_page_note(&mut out, total, skipped, cs.len());
    let ghost before = out@;
    assert(before =~= callers_header(target@, scope@, total as nat) + callers_list(
        pv,
        scope@,
        expand as nat,
        pv.len() as int,
    ) + page_note(total as int, skipped as int, pv.len() as int));
    match &hop {
        Some(h) => {
            if follow {
                push_impact(&mut out, h, &cs, scope);
            } else {
                assert(before + Seq::<char>::empty() =~= before);
            }
        },
        None => {
            assert(before + Seq::<char>::empty() =~= before);
        },
    }
    let body = out.clone();
    out.append("\n\n");
    push_token_note(&mut out, body.as_str());
    out
}

proof fn lemma_one_each(v: Seq<(Seq<char>, CallerView)>, n: int)
    requires
        0 <= n <= v.len(),
    ensures
        one_each(v, n).len() <= n,
        forall|i: int, j: int|
            0 <= i < j < one_each(v, n).len() ==> !same_caller(
                (#[trigger] one_each(v, n)[i]).1,
                (#[trigger] one_each(v, n)[j]).1,
            ),
    decreases n,
{
    if n > 0 {
        lemma_one_each(v, n - 1);
        let r = one_each(v, n - 1);
        let t = one_each(v, n);
        assert forall|i: int, j: int| 0 <= i < j < t.len() implies !same_caller(
            (#[trigger] t[i]).1,
            (#[trigger] t[j]).1,
        ) by {
            assert(t[i] == r[i]);
            if j < r.len() {
                assert(t[j] == r[j]);
            } else {
                assert(!caller_seen(r, v[n - 1].1));
            }
        }
    }
}

/// A function of a file is listed once among the callers of the callers.
pub proof fn law_impact_lists_each_once(v: Seq<(Seq<char>, CallerView)>, i: int, j: int)
    requires
        0 <= i < j < one_each(v, v.len() as int).len(),
    ensures
        !same_caller(one_each(v, v.len() as int)[i].1, one_each(v, v.len() as int)[j].1),
{
    lemma_one_each(v, v.len() as int);
}

/// Every function that makes one of the calls is named, each once; calls outside of any
/// function name none.
pub proof fn law_calling_functions_are_named(cs: Seq<CallerView>, n: int, f: Seq<char>)
    requires
        0 <= n <= cs.len(),
    ensures
        caller_names(cs, n).contains(f) <==> f != "<top-level>"@ && exists|i: int|
            0 <= i < n && (#[trigger] cs[i]).calling_function == f,
        caller_names(cs, n).no_duplicates(),
    decreases n,
{
    if n > 0 {
        law_calling_functions_are_named(cs, n - 1, f);
        let q = caller_names(cs, n - 1);
        let r = caller_names(cs, n);
        if r.contains(f) {
            let k = choose|k: int| 0 <= k < r.len() && r[k] == f;
            if k < q.len() {
                assert(q[k] == f);
            } else {
                assert(cs[n - 1].calling_function == f);
            }
        }
        if f != "<top-level>"@ && exists|i: int|
            0 <= i < n && (#[trigger] cs[i]).calling_function == f {
            if q.contains(f) {
                let k = choose|k: int| 0 <= k < q.len() && q[k] == f;
                assert(r[k] == f);
            } else {
                let i = choose|i: int| 0 <= i < n && (#[trigger] cs[i]).calling_function == f;
                assert(i == n - 1);
                assert(r[q.len() as int] == f);
            }
        }
        if r.len() > q.len() {
            assert forall|i: int, j: int| 0 <= i < r.len() && 0 <= j < r.len() && i != j implies r[i]
                != r[j] by {
                if i < q.len() && j < q.len() {
                    assert(q[i] != q[j]);
                } else if i < q.len() {
                    assert(q.contains(q[i]));
                } else {
                    assert(q.contains(q[j]));
                }
            }
        }
    }
}

/// Of the calls one hop further, those are kept that stand elsewhere than the calls that
/// are shown: all of them, and no other.
pub proof fn law_calls_elsewhere_are_kept(
    hop: Seq<(Seq<char>, CallerView)>,
    cs: Seq<CallerView>,
    n: int,
    p: (Seq<char>, CallerView),
)
    requires
        0 <= n <= hop.len(),
    ensures
        elsewhere(hop, cs, n).contains(p) <==> hop.take(n).contains(p) && !(exists|i: int|
            0 <= i < cs.len() && same_path((#[trigger] cs[i]).path, p.1.path) && cs[i].line
                == p.1.line),
    decreases n,
{
    if n > 0 {
        law_calls_elsewhere_are_kept(hop, cs, n - 1, p);
        let q = elsewhere(hop, cs, n - 1);
        let r = elsewhere(hop, cs, n);
        let t = hop.take(n - 1);
        let u = hop.take(n);
        if r.contains(p) {
            let k = choose|k: int| 0 <= k < r.len() && r[k] == p;
            if k < q.len() {
                assert(q[k] == p);
                let j = choose|j: int| 0 <= j < t.len() && t[j] == p;
                assert(u[j] == p);
            } else {
                assert(u[n - 1] == p);
            }
        }
        if u.contains(p) && !stands_at(cs, p.1) {
            let j = choose|j: int| 0 <= j < u.len() && u[j] == p;
            if j < n - 1 {
                assert(t[j] == p);
                let k = choose|k: int| 0 <= k < q.len() && q[k] == p;
                assert(r[k] == p);
            } else {
                assert(r[q.len() as int] == p);
            }
        }
    }
}

/// Every function of a file that calls is listed: for each call there is one by the same
/// function of the same file.
pub proof fn law_impact_lists_every_function(v: Seq<(Seq<char>, CallerView)>, n: int, i: int)
    requires
        0 <= i < n <= v.len(),
    ensures
        exists|k: int|
            0 <= k < one_each(v, n).len() && (#[trigger] one_each(v, n)[k]).1.calling_function
                == v[i].1.calling_function && same_path(one_each(v, n)[k].1.path, v[i].1.path),
    decreases n,
{
    let q = one_each(v, n - 1);
    let r = one_each(v, n);
    if i < n - 1 {
        law_impact_lists_every_function(v, n - 1, i);
        let k = choose|k: int|
            0 <= k < q.len() && (#[trigger] q[k]).1.calling_function == v[i].1.calling_function
                && same_path(q[k].1.path, v[i].1.path);
        assert(r[k] == q[k]);
    } else if caller_seen(q, v[i].1) {
        let k = choose|k: int| 0 <= k < q.len() && same_caller((#[trigger] q[k]).1, v[i].1);
        assert(r[k] == q[k]);
    } else {
        assert(r[q.len() as int] == v[i]);
    }
}

/// Every call that is shown has its heading, and the first ones their source.
pub proof fn law_every_call_is_shown(
    cs: Seq<CallerView>,
    scope: Seq<char>,
    expand: nat,
    n: int,
    i: int,
)
    requires
        0 <= i < n <= cs.len(),
    ensures
        has(
            callers_list(cs, scope, expand, n),
            "\n## "@ + shown(cs[i].path, scope) + ":"@ + dec(cs[i].line as nat) + " [caller: "@
                + cs[i].calling_function + "]\n→ "@ + cs[i].call_text + "\n"@,
        ),
        i < expand ==> has(callers_list(cs, scope, expand, n), snippet(cs[i])),
    decreases n,
{
    let none = Seq::<char>::empty();
    let q = callers_list(cs, scope, expand, n - 1);
    let r = callers_list(cs, scope, expand, n);
    let head = caller_heading(cs[n - 1], scope);
    let tail = if n - 1 < expand {
        snippet(cs[n - 1])
    } else {
        none
    };
    assert(r == q + head + tail);
    if i < n - 1 {
        law_every_call_is_shown(cs, scope, expand, n - 1, i);
        crate::text::lemma_has_left(q, head, caller_heading(cs[i], scope));
        crate::text::lemma_has_left(q + head, tail, caller_heading(cs[i], scope));
        if i < expand {
            crate::text::lemma_has_left(q, head, snippet(cs[i]));
            crate::text::lemma_has_left(q + head, tail, snippet(cs[i]));
        }
    } else {
        crate::text::lemma_has_self(head);
        crate::text::lemma_has_within(q, head, tail, head);
        crate::text::lemma_has_self(tail);
        crate::text::lemma_has_right(q + head, tail, tail);
    }
}

/// The source around a call holds the line of the call, and two lines to either side as
/// far as they are in the calling function and in the file.
pub proof fn law_window_holds_the_call(line: u32, start: u32, end: u32, total: nat, k: int)
    requires
        1 <= start <= line <= end,
        line <= total,
        line - 2 <= k <= line + 2,
        start <= k <= end,
        k <= total,
    ensures
        window_first(line, start) < k <= window_last(line, end, total),
        window_first(line, start) < line <= window_last(line, end, total),
{
}

/// Each line of the window is shown with its number.
pub proof fn law_window_shows_every_line(
    l: Seq<Seq<char>>,
    line: u32,
    first: int,
    last: int,
    k: int,
)
    requires
        first < k <= last,
    ensures
        has(
            source_rows(l, line, first, last),
            pad_left(dec(k as nat), 4) + " │ "@ + l[k - 1] + "\n"@,
        ),
    decreases last - first,
{
    let row = pad_left(dec(k as nat), 4) + " │ "@ + l[k - 1] + "\n"@;
    let q = source_rows(l, line, first, last - 1);
    let own = source_row(l, line, last);
    if k < last {
        law_window_shows_every_line(l, line, first, last - 1, k);
        crate::text::lemma_has_left(q, own, row);
    } else {
        lemma_source_row(l, line, k);
        crate::text::lemma_has_right(q, own, row);
    }
}

proof fn lemma_source_row(l: Seq<Seq<char>>, line: u32, k: int)
    ensures
        has(source_row(l, line, k), pad_left(dec(k as nat), 4) + " │ "@ + l[k - 1] + "\n"@),
{
    let row = pad_left(dec(k as nat), 4) + " │ "@ + l[k - 1] + "\n"@;
    let mark = if k == line {
        "► "@
    } else {
        "  "@
    };
    crate::text::lemma_has_self(row);
    crate::text::lemma_has_right(mark, row, row);
    crate::text::lemma_four_together(mark, pad_left(dec(k as nat), 4), " │ "@, l[k - 1], "\n"@);
}

/// Each of the callers of callers that is listed has its row.
pub proof fn law_impact_rows_show_all(
    v: Seq<(Seq<char>, CallerView)>,
    scope: Seq<char>,
    n: int,
    i: int,
)
    requires
        0 <= i < n <= v.len(),
    ensures
        has(impact_rows(v, scope, n), impact_row(v[i], scope)),
        has(
            impact_rows(v, scope, n),
            shown(v[i].1.path, scope) + ":"@ + dec(v[i].1.line as nat) + "  → "@ + v[i].0 + "\n"@,
        ),
    decreases n,
{
    let q = impact_rows(v, scope, n - 1);
    let own = impact_row(v[n - 1], scope);
    let place = shown(v[i].1.path, scope) + ":"@ + dec(v[i].1.line as nat) + "  → "@ + v[i].0
        + "\n"@;
    if i < n - 1 {
        law_impact_rows_show_all(v, scope, n - 1, i);
        crate::text::lemma_has_left(q, own, impact_row(v[i], scope));
        crate::text::lemma_has_left(q, own, place);
    } else {
        crate::text::lemma_has_self(own);
        crate::text::lemma_has_right(q, own, own);
        lemma_impact_row(v[i], scope);
        crate::text::lemma_has_right(q, own, place);
    }
}

proof fn lemma_two_more(m: Seq<char>, a: Seq<char>, b: Seq<char>, c: Seq<char>)
    ensures
        m + (a + b + c) == m + a + b + c,
{
    assert(m + (a + b + c) =~= m + a + b + c);
}

proof fn lemma_impact_row(p: (Seq<char>, CallerView), scope: Seq<char>)
    ensures
        has(
            impact_row(p, scope),
            shown(p.1.path, scope) + ":"@ + dec(p.1.line as nat) + "  → "@ + p.0 + "\n"@,
        ),
{
    let place = shown(p.1.path, scope) + ":"@ + dec(p.1.line as nat) + "  → "@ + p.0 + "\n"@;
    let head = "  "@ + pad_right(p.1.calling_function, 20) + " "@;
    let path = shown(p.1.path, scope);
    crate::text::lemma_has_self(place);
    crate::text::lemma_has_right(head, place, place);
    crate::text::lemma_four_together(head, path, ":"@, dec(p.1.line as nat), "  → "@);
    lemma_two_more(head, path + ":"@ + dec(p.1.line as nat) + "  → "@, p.0, "\n"@);
}

/// Up to ten calling functions are followed one hop further.
pub proof fn law_few_callers_are_followed(cs: Seq<CallerView>)
    ensures
        follows(cs) <==> 1 <= caller_names(cs, cs.len() as int).len() <= 10,
{
}

/// The first fifteen functions that call from elsewhere are shown with their places.
pub proof fn law_impact_shows_fifteen(
    hop: Seq<(Seq<char>, CallerView)>,
    cs: Seq<CallerView>,
    scope: Seq<char>,
    i: int,
)
    requires
        elsewhere(hop, cs, hop.len() as int).len() > 0,
        0 <= i < 15,
        i < one_each(
            elsewhere(hop, cs, hop.len() as int),
            elsewhere(hop, cs, hop.len() as int).len() as int,
        ).len(),
    ensures
        ({
            let other = elsewhere(hop, cs, hop.len() as int);
            let x = one_each(other, other.len() as int)[i];
            has(
                impact(hop, cs, scope),
                shown(x.1.path, scope) + ":"@ + dec(x.1.line as nat) + "  → "@ + x.0 + "\n"@,
            )
        }),
{
    let other = elsewhere(hop, cs, hop.len() as int);
    let each = one_each(other, other.len() as int);
    let x = each[i];
    let row = shown(x.1.path, scope) + ":"@ + dec(x.1.line as nat) + "  → "@ + x.0 + "\n"@;
    let count: int = if each.len() < IMPACT_MAX_RESULTS {
        each.len() as int
    } else {
        IMPACT_MAX_RESULTS as int
    };
    let rows = impact_rows(each, scope, count);
    law_impact_rows_show_all(each, scope, count, i);
    let more = if each.len() > IMPACT_MAX_RESULTS {
        "  ... and "@ + dec((each.len() - IMPACT_MAX_RESULTS) as nat) + " more\n"@
    } else {
        Seq::empty()
    };
    let total = dec((cs.len() + count) as nat);
    lemma_impact_parts(
        "\n── impact (2nd hop) ──\n"@,
        rows,
        more,
        "\n"@,
        total,
        " functions affected across 2 hops.\n"@,
        row,
    );
}

proof fn lemma_impact_parts(
    a: Seq<char>,
    rows: Seq<char>,
    b: Seq<char>,
    c: Seq<char>,
    d: Seq<char>,
    e: Seq<char>,
    p: Seq<char>,
)
    requires
        has(rows, p),
    ensures
        has(a + rows + b + c + d + e, p),
{
    crate::text::lemma_has_right(a, rows, p);
    crate::text::lemma_has_left(a + rows, b, p);
    crate::text::lemma_has_left(a + rows + b, c, p);
    crate::text::lemma_has_left(a + rows + b + c, d, p);
    crate::text::lemma_has_left(a + rows + b + c + d, e, p);
}

} // verus!
