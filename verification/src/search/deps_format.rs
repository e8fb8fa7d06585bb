//! Showing what a file depends on, and what depends on it.
use vstd::prelude::*;
use vstd::string::*;

use crate::sort::{lemma_sort_map, sort_by, stable_sort};
use crate::text::{
    byte_len, chars_of, dec, decimal, has, join, join_strings, lemma_strs_push, pad_right, push_dec,
    push_padded, same_text, strs, text_le, text_len, text_ordered, trim, trim_of,
};
use crate::types::{estimate_tokens, tokens};

use super::bfs_format::{plural, plural_of, rel, shown};
use super::deps::{
    dependents_view, locals_view, use_view, uses_view, DependentView, Dependent, DepsResult, LocalDep,
    LocalDepView, MAX_EXPORTED_SYMBOLS,
};

verus! {

// ---------------------------------------------------------------------------
// Sections
// ---------------------------------------------------------------------------

/// The lines of the first `n` local dependencies.
pub open spec fn local_rows(deps: Seq<LocalDepView>, scope: Seq<char>, with_symbols: bool, n: int) -> Seq<
    char,
>
    decreases n,
{
    if n <= 0 {
        Seq::empty()
    } else {
        let d = deps[n - 1];
        local_rows(deps, scope, with_symbols, n - 1) + "\n"@ + (if with_symbols && d.symbols.len() > 0 {
            pad_right(shown(d.path, scope), 30) + " "@ + join(d.symbols, ", "@)
        } else {
            shown(d.path, scope)
        })
    }
}

/// The section on local dependencies.
pub open spec fn local_section(deps: Seq<LocalDepView>, scope: Seq<char>, with_symbols: bool) -> Seq<char> {
    if deps.len() == 0 {
        Seq::empty()
    } else {
        "## Uses (local)"@ + local_rows(deps, scope, with_symbols, deps.len() as int)
    }
}

/// The section on local dependencies.
pub fn format_uses_local(deps: &[LocalDep], scope: &str, with_symbols: bool) -> (r: String)
    ensures
        r@ == local_section(locals_view(deps@), scope@, with_symbols),
{
    let ghost d = locals_view(deps@);
    assert(d.len() == deps@.len());
    if deps.len() == 0 {
        let none = String::new();
        assert(none@ =~= Seq::<char>::empty());
        return none;
    }
    let mut out = "## Uses (local)".to_owned();
    let ghost head = out@;
    let mut i: usize = 0;
    assert(head + local_rows(d, scope@, with_symbols, 0) =~= head);
    while i < deps.len()
        invariant
            i <= deps@.len(),
            d == locals_view(deps@),
            out@ == head + local_rows(d, scope@, with_symbols, i as int),
        decreases deps@.len() - i,
    {
        let x = &deps[i];
        assert(d[i as int] == x@);
        assert(strs(x.symbols@).len() == x.symbols@.len());
        let path = rel(x.path.as_str(), scope);
        let mut s = String::new();
        if with_symbols && x.symbols.len() > 0 {
            push_padded(&mut s, path.as_str(), 30);
            s.append(" ");
            s.append(join_strings(x.symbols.as_slice(), ", ").as_str());
            assert(s@ =~= pad_right(shown(x.path@, scope@), 30) + " "@ + join(
                strs(x.symbols@),
                ", "@,
            ));
        } else {
            s.append(path.as_str());
            assert(s@ =~= shown(x.path@, scope@));
        }
        out.append("\n");
        out.append(s.as_str());
        assert(out@ =~= head + local_rows(d, scope@, with_symbols, i + 1));
        i = i + 1;
    }
    out
}

/// The lines of the first `n` modules.
pub open spec fn module_rows(v: Seq<Seq<char>>, n: int) -> Seq<char>
    decreases n,
{
    if n <= 0 {
        Seq::empty()
    } else {
        module_rows(v, n - 1) + "\n"@ + v[n - 1]
    }
}

/// The section on modules outside the project.
pub open spec fn external_section(v: Seq<Seq<char>>) -> Seq<char> {
    if v.len() == 0 {
        Seq::empty()
    } else {
        "## Uses (external)"@ + module_rows(v, v.len() as int)
    }
}

/// The section on modules outside the project.
pub fn format_uses_external(externals: &[String]) -> (r: String)
    ensures
        r@ == external_section(strs(externals@)),
{
    let ghost v = strs(externals@);
    assert(v.len() == externals@.len());
    if externals.len() == 0 {
        let none = String::new();
        assert(none@ =~= Seq::<char>::empty());
        return none;
    }
    let mut out = "## Uses (external)".to_owned();
    let ghost head = out@;
    let mut i: usize = 0;
    assert(head + module_rows(v, 0) =~= head);
    while i < externals.len()
        invariant
            i <= externals@.len(),
            v == strs(externals@),
            out@ == head + module_rows(v, i as int),
        decreases externals@.len() - i,
    {
        assert(v[i as int] == externals@[i as int]@);
        out.append("\n");
        out.append(externals[i].as_str());
        assert(out@ =~= head + module_rows(v, i + 1));
        i = i + 1;
    }
    out
}

/// The uses of one function: the first line, and the symbols that it calls.
pub struct CallerUse {
    pub caller: String,
    pub line: u32,
    pub symbols: Vec<String>,
}

/// What the uses of one function say.
pub struct CallerUseView {
    pub caller: Seq<char>,
    pub line: u32,
    pub symbols: Seq<Seq<char>>,
}

impl View for CallerUse {
    type V = CallerUseView;

    open spec fn view(&self) -> CallerUseView {
        CallerUseView { caller: self.caller@, line: self.line, symbols: strs(self.symbols@) }
    }
}

/// What the uses of a list say.
pub open spec fn caller_uses_view(v: Seq<CallerUse>) -> Seq<CallerUseView> {
    v.map_values(|c: CallerUse| c@)
}

/// The functions of the first `n` uses, each once.
pub open spec fn callers_of(u: Seq<(Seq<char>, Seq<char>, u32)>, n: int) -> Seq<Seq<char>>
    decreases n,
{
    if n <= 0 {
        Seq::empty()
    } else {
        let r = callers_of(u, n - 1);
        if r.contains(u[n - 1].0) {
            r
        } else {
            r.push(u[n - 1].0)
        }
    }
}

/// The symbols that the function calls among the first `n` uses.
pub open spec fn symbols_by(u: Seq<(Seq<char>, Seq<char>, u32)>, caller: Seq<char>, n: int) -> Seq<Seq<char>>
    decreases n,
{
    if n <= 0 {
        Seq::empty()
    } else {
        let r = symbols_by(u, caller, n - 1);
        if u[n - 1].0 == caller {
            r.push(u[n - 1].1)
        } else {
            r
        }
    }
}

/// The first line on which the function calls something among the first `n` uses.
pub open spec fn first_line_by(u: Seq<(Seq<char>, Seq<char>, u32)>, caller: Seq<char>, n: int) -> u32
    decreases n,
{
    if n <= 0 {
        u32::MAX
    } else {
        let r = first_line_by(u, caller, n - 1);
        if u[n - 1].0 == caller && u[n - 1].2 < r {
            u[n - 1].2
        } else {
            r
        }
    }
}

/// The order of functions: by first line, then by name.
pub open spec fn caller_use_order() -> spec_fn(CallerUseView, CallerUseView) -> bool {
    |a: CallerUseView, b: CallerUseView|
        if a.line != b.line {
            a.line < b.line
        } else {
            text_le(a.caller, b.caller)
        }
}

/// What each function uses.
pub open spec fn by_caller(u: Seq<(Seq<char>, Seq<char>, u32)>) -> Seq<CallerUseView> {
    let n = u.len() as int;
    stable_sort(
        callers_of(u, n).map_values(
            |c: Seq<char>|
                CallerUseView {
                    caller: c,
                    line: first_line_by(u, c, n),
                    symbols: symbols_by(u, c, n),
                },
        ),
        caller_use_order(),
    )
}

/// The lines of the first `n` functions.
pub open spec fn caller_rows(v: Seq<CallerUseView>, path: Seq<char>, n: int) -> Seq<char>
    decreases n,
{
    if n <= 0 {
        Seq::empty()
    } else {
        let c = v[n - 1];
        caller_rows(v, path, n - 1) + "\n"@ + pad_right(path + ":"@ + dec(c.line as nat), 30) + " "@
            + pad_right(c.caller, 20) + " → "@ + join(c.symbols, ", "@)
    }
}

/// The lines of the first `n` dependents.
pub open spec fn dependent_rows(deps: Seq<DependentView>, scope: Seq<char>, n: int) -> Seq<char>
    decreases n,
{
    if n <= 0 {
        Seq::empty()
    } else {
        let d = deps[n - 1];
        let c = by_caller(d.symbols);
        dependent_rows(deps, scope, n - 1) + caller_rows(c, shown(d.path, scope), c.len() as int)
    }
}

/// A section on dependents.
pub open spec fn used_by_section(deps: Seq<DependentView>, scope: Seq<char>, heading: Seq<char>) -> Seq<char> {
    if deps.len() == 0 {
        Seq::empty()
    } else {
        heading + dependent_rows(deps, scope, deps.len() as int)
    }
}

spec fn caller_use_le() -> spec_fn(CallerUse, CallerUse) -> bool {
    |a: CallerUse, b: CallerUse| caller_use_order()(a@, b@)
}

fn caller_uses_ordered(a: &CallerUse, b: &CallerUse) -> (r: bool)
    ensures
        r == caller_use_le()(*a, *b),
{
    if a.line != b.line {
        a.line < b.line
    } else {
        text_ordered(a.caller.as_str(), b.caller.as_str())
    }
}

fn collect_callers(u: &Vec<(String, String, u32)>) -> (r: Vec<String>)
    ensures
        strs(r@) == callers_of(uses_view(u@), u@.len() as int),
{
    broadcast use lemma_strs_push;

    let ghost v = uses_view(u@);
    let mut r: Vec<String> = Vec::new();
    let mut i: usize = 0;
    assert(strs(r@) =~= Seq::<Seq<char>>::empty());
    while i < u.len()
        invariant
            i <= u@.len(),
            v == uses_view(u@),
            strs(r@) == callers_of(v, i as int),
        decreases u@.len() - i,
    {
        assert(v[i as int] == use_view(u@[i as int]));
        if !crate::text::has_string(r.as_slice(), u[i].0.as_str()) {
            r.push(u[i].0.clone());
        }
        i = i + 1;
    }
    r
}

fn uses_of(u: &Vec<(String, String, u32)>, caller: &str) -> (r: CallerUse)
    ensures
        r@ == (CallerUseView {
            caller: caller@,
            line: first_line_by(uses_view(u@), caller@, u@.len() as int),
            symbols: symbols_by(uses_view(u@), caller@, u@.len() as int),
        }),
{
    broadcast use lemma_strs_push;

    let ghost v = uses_view(u@);
    let mut line: u32 = u32::MAX;
    let mut symbols: Vec<String> = Vec::new();
    let mut i: usize = 0;
    assert(strs(symbols@) =~= Seq::<Seq<char>>::empty());
    while i < u.len()
        invariant
            i <= u@.len(),
            v == uses_view(u@),
            line == first_line_by(v, caller@, i as int),
            strs(symbols@) == symbols_by(v, caller@, i as int),
        decreases u@.len() - i,
    {
        assert(v[i as int] == use_view(u@[i as int]));
        if same_text(u[i].0.as_str(), caller) {
            if u[i].2 < line {
                line = u[i].2;
            }
            symbols.push(u[i].1.clone());
        }
        i = i + 1;
    }
    CallerUse { caller: caller.to_owned(), line, symbols }
}

fn group_by_caller(u: &Vec<(String, String, u32)>) -> (r: Vec<CallerUse>)
    ensures
        caller_uses_view(r@) == by_caller(uses_view(u@)),
{
    let ghost v = uses_view(u@);
    let ghost n = v.len() as int;
    assert(n == u@.len());
    let ghost g = |c: Seq<char>|
        CallerUseView { caller: c, line: first_line_by(v, c, n), symbols: symbols_by(v, c, n) };
    let names = collect_callers(u);
    let ghost f = strs(names@);
    let mut r: Vec<CallerUse> = Vec::new();
    let mut i: usize = 0;
    while i < names.len()
        invariant
            i <= names@.len(),
            v == uses_view(u@),
            n == u@.len(),
            f == strs(names@),
            g == (|c: Seq<char>|
                CallerUseView {
                    caller: c,
                    line: first_line_by(v, c, n),
                    symbols: symbols_by(v, c, n),
                }),
            r@.len() == i,
            forall|k: int| 0 <= k < i ==> (#[trigger] r@[k])@ == g(f[k]),
        decreases names@.len() - i,
    {
        assert(f[i as int] == names@[i as int]@);
        r.push(uses_of(u, names[i].as_str()));
        i = i + 1;
    }
    assert(caller_uses_view(r@) =~= f.map_values(g));
    proof {
        lemma_sort_map(r@, |c: CallerUse| c@, caller_use_le(), caller_use_order());
    }
    sort_by(&mut r, caller_uses_ordered, Ghost(caller_use_le()));
    r
}

fn push_caller_rows(out: &mut String, v: &Vec<CallerUse>, path: &str)
    ensures
        final(out)@ == old(out)@ + caller_rows(caller_uses_view(v@), path@, v@.len() as int),
{
    let ghost start = out@;
    let ghost w = caller_uses_view(v@);
    let mut i: usize = 0;
    assert(start + caller_rows(w, path@, 0) =~= start);
    while i < v.len()
        invariant
            i <= v@.len(),
            w == caller_uses_view(v@),
            out@ == start + caller_rows(w, path@, i as int),
        decreases v@.len() - i,
    {
        let c = &v[i];
        assert(w[i as int] == c@);
        let mut loc = path.to_owned();
        loc.append(":");
        push_dec(&mut loc, c.line as usize);
        out.append("\n");
        push_padded(out, loc.as_str(), 30);
        out.append(" ");
        push_padded(out, c.caller.as_str(), 20);
        out.append(" → ");
        out.append(join_strings(c.symbols.as_slice(), ", ").as_str());
        assert(out@ =~= start + caller_rows(w, path@, i + 1));
        i = i + 1;
    }
}

/// A section on dependents.
pub fn format_used_by(deps: &[&Dependent], scope: &str, heading: &str) -> (r: String)
    ensures
        r@ == used_by_section(refs_view(deps@), scope@, heading@),
{
    let ghost d = refs_view(deps@);
    assert(d.len() == deps@.len());
    if deps.len() == 0 {
        let none = String::new();
        assert(none@ =~= Seq::<char>::empty());
        return none;
    }
    let mut out = heading.to_owned();
    let ghost head = out@;
    let mut i: usize = 0;
    assert(head + dependent_rows(d, scope@, 0) =~= head);
    while i < deps.len()
        invariant
            i <= deps@.len(),
            d == refs_view(deps@),
            out@ == head + dependent_rows(d, scope@, i as int),
        decreases deps@.len() - i,
    {
        let x = deps[i];
        assert(d[i as int] == x@);
        let rows = group_by_caller(&x.symbols);
        assert(caller_uses_view(rows@).len() == rows@.len());
        let path = rel(x.path.as_str(), scope);
        push_caller_rows(&mut out, &rows, path.as_str());
        assert(out@ =~= head + dependent_rows(d, scope@, i + 1));
        i = i + 1;
    }
    out
}

/// What the dependents of a list say.
pub open spec fn refs_view(v: Seq<&Dependent>) -> Seq<DependentView> {
    v.map_values(|d: &Dependent| d@)
}

/// Those of the first `n` dependents that are tests, or those that are not.
pub open spec fn by_test(d: Seq<DependentView>, tests: bool, n: int) -> Seq<DependentView>
    decreases n,
{
    if n <= 0 {
        Seq::empty()
    } else {
        let r = by_test(d, tests, n - 1);
        if d[n - 1].is_test == tests {
            r.push(d[n - 1])
        } else {
            r
        }
    }
}

fn pick_by_test(d: &Vec<Dependent>, tests: bool) -> (r: Vec<&Dependent>)
    ensures
        refs_view(r@) == by_test(dependents_view(d@), tests, d@.len() as int),
{
    let ghost v = dependents_view(d@);
    let mut r: Vec<&Dependent> = Vec::new();
    let mut i: usize = 0;
    assert(refs_view(r@) =~= Seq::<DependentView>::empty());
    while i < d.len()
        invariant
            i <= d@.len(),
            v == dependents_view(d@),
            refs_view(r@) == by_test(v, tests, i as int),
        decreases d@.len() - i,
    {
        assert(v[i as int] == d@[i as int]@);
        if d[i].is_test == tests {
            let ghost before = r@;
            r.push(&d[i]);
            assert(refs_view(r@) =~= refs_view(before).push(v[i as int]));
        }
        i = i + 1;
    }
    r
}

// ---------------------------------------------------------------------------
// Putting sections together
// ---------------------------------------------------------------------------

/// Those of the parts that are not blank.
pub open spec fn not_blank(parts: Seq<Seq<char>>) -> Seq<Seq<char>>
    decreases parts.len(),
{
    if parts.len() == 0 {
        parts
    } else if trim(parts.last()).len() == 0 {
        not_blank(parts.drop_last())
    } else {
        not_blank(parts.drop_last()).push(parts.last())
    }
}

/// The parts that are not blank, with an empty line between them.
pub open spec fn assembled(parts: Seq<Seq<char>>) -> Seq<char> {
    join(not_blank(parts), "\n\n"@)
}

/// The parts that are not blank, with an empty line between them.
pub fn assemble(parts: &[String]) -> (r: String)
    ensures
        r@ == assembled(strs(parts@)),
{
    broadcast use lemma_strs_push;

    let ghost v = strs(parts@);
    let mut kept: Vec<String> = Vec::new();
    let mut i: usize = 0;
    assert(strs(kept@) =~= not_blank(v.take(0)));
    while i < parts.len()
        invariant
            i <= parts@.len(),
            v == strs(parts@),
            strs(kept@) == not_blank(v.take(i as int)),
        decreases parts@.len() - i,
    {
        assert(v.take(i + 1).drop_last() =~= v.take(i as int));
        assert(v.take(i + 1).last() == parts@[i as int]@);
        let s = chars_of(parts[i].as_str());
        if trim_of(s.as_slice()).len() > 0 {
            kept.push(parts[i].clone());
        }
        i = i + 1;
    }
    assert(v.take(parts@.len() as int) =~= v);
    join_strings(kept.as_slice(), "\n\n")
}

/// The text fits the budget.
pub open spec fn fits(s: Seq<char>, budget: nat) -> bool {
    tokens(byte_len(s)) <= budget
}

fn within(s: &str, budget: usize) -> (r: bool)
    ensures
        r == fits(s@, budget as nat),
{
    estimate_tokens(text_len(s) as u64) <= budget as u64
}

/// How many dependents are left out.
pub open spec fn more_dependents(n: nat) -> Seq<char> {
    if n > 0 {
        "\n\n(... "@ + dec(n) + " more dependents)"@
    } else {
        Seq::empty()
    }
}

/// What is shown at the level `k`: each leaves out more than the one before, and the
/// last is the header alone.
pub open spec fn degraded(
    header: Seq<char>,
    local: Seq<LocalDepView>,
    external: Seq<char>,
    prod: Seq<DependentView>,
    barrel: Seq<char>,
    scope: Seq<char>,
    k: int,
) -> Seq<char> {
    if k == 0 {
        assembled(
            seq![
                header,
                local_section(local, scope, true),
                external,
                used_by_section(prod, scope, "## Used by"@),
                barrel,
            ],
        )
    } else if k == 1 {
        assembled(
            seq![
                header,
                local_section(local, scope, true),
                external,
                more_dependents(prod.len()),
                barrel,
            ],
        )
    } else if k == 2 {
        assembled(seq![header, local_section(local, scope, true), barrel])
    } else if k == 3 {
        assembled(seq![header, local_section(local, scope, false)])
    } else {
        header
    }
}

/// The first level from `k` on that fits the budget, or the header.
pub open spec fn first_fitting(
    header: Seq<char>,
    local: Seq<LocalDepView>,
    external: Seq<char>,
    prod: Seq<DependentView>,
    barrel: Seq<char>,
    scope: Seq<char>,
    budget: nat,
    k: int,
) -> Seq<char>
    decreases 4 - k,
{
    let s = degraded(header, local, external, prod, barrel, scope, k);
    if k >= 4 || fits(s, budget) {
        s
    } else {
        first_fitting(header, local, external, prod, barrel, scope, budget, k + 1)
    }
}

fn level(
    header: &str,
    local: &[LocalDep],
    external: &str,
    prod: &[&Dependent],
    barrel: &str,
    scope: &str,
    k: usize,
) -> (r: String)
    requires
        k <= 4,
    ensures
        r@ == degraded(
            header@,
            locals_view(local@),
            external@,
            refs_view(prod@),
            barrel@,
            scope@,
            k as int,
        ),
{
    broadcast use lemma_strs_push;

    if k == 4 {
        return header.to_owned();
    }
    let mut parts: Vec<String> = Vec::new();
    parts.push(header.to_owned());
    let uses = format_uses_local(local, scope, k != 3);
    let ghost lv = uses@;
    parts.push(uses);
    if k == 3 {
        assert(strs(parts@) =~= seq![header@, lv]);
        return assemble(parts.as_slice());
    }
    if k == 2 {
        parts.push(barrel.to_owned());
        assert(strs(parts@) =~= seq![header@, lv, barrel@]);
        return assemble(parts.as_slice());
    }
    parts.push(external.to_owned());
    let note = if k == 0 {
        format_used_by(prod, scope, "## Used by")
    } else {
        let mut s = String::new();
        assert(s@ =~= Seq::<char>::empty());
        if prod.len() > 0 {
            s = "\n\n(... ".to_owned();
            push_dec(&mut s, prod.len());
            s.append(" more dependents)");
        }
        assert(s@ =~= more_dependents(prod@.len()));
        s
    };
    assert(refs_view(prod@).len() == prod@.len());
    let ghost nv = note@;
    parts.push(note);
    parts.push(barrel.to_owned());
    assert(strs(parts@) =~= seq![header@, lv, external@, nv, barrel@]);
    assemble(parts.as_slice())
}

/// What is shown where not everything fits the budget.
pub fn apply_budget_truncation(
    header: &str,
    uses_local: &[LocalDep],
    uses_external_full: &str,
    prod_deps: &[&Dependent],
    barrel_note: &str,
    scope: &str,
    budget: usize,
) -> (r: String)
    ensures
        r@ == first_fitting(
            header@,
            locals_view(uses_local@),
            uses_external_full@,
            refs_view(prod_deps@),
            barrel_note@,
            scope@,
            budget as nat,
            0,
        ),
{
    let mut k: usize = 0;
    while k < 4
        invariant
            k <= 4,
            first_fitting(
                header@,
                locals_view(uses_local@),
                uses_external_full@,
                refs_view(prod_deps@),
                barrel_note@,
                scope@,
                budget as nat,
                0,
            ) == first_fitting(
                header@,
                locals_view(uses_local@),
                uses_external_full@,
                refs_view(prod_deps@),
                barrel_note@,
                scope@,
                budget as nat,
                k as int,
            ),
        decreases 4 - k,
    {
        let s = level(
            header,
            uses_local,
            uses_external_full,
            prod_deps,
            barrel_note,
            scope,
            k,
        );
        if within(s.as_str(), budget) {
            return s;
        }
        k = k + 1;
    }
    header.to_owned()
}

// ---------------------------------------------------------------------------
// The whole
// ---------------------------------------------------------------------------

/// The header: what file, and how much of each.
pub open spec fn deps_header(
    target: Seq<char>,
    scope: Seq<char>,
    local: nat,
    external: nat,
    dependents: nat,
) -> Seq<char> {
    "# Deps: "@ + shown(target, scope) + " — "@ + dec(local) + " local, "@ + dec(external)
        + " external, "@ + dec(dependents) + " dependent"@ + plural(dependents as int)
}

/// The note on a file that exports too much to look for all of it.
pub open spec fn barrel(searched: nat, exported: nat) -> Seq<char> {
    if exported > MAX_EXPORTED_SYMBOLS {
        "\n\n> ("@ + dec(searched) + " of "@ + dec(exported)
            + " exports shown — barrel file detected)"@
    } else {
        Seq::empty()
    }
}

/// The part, where it is not empty.
pub open spec fn if_any(s: Seq<char>) -> Seq<Seq<char>> {
    if s.len() == 0 {
        Seq::empty()
    } else {
        seq![s]
    }
}

/// How many dependents come after those that are shown.
pub open spec fn hidden_dependents(total: int, offset: int, shown: int) -> Seq<char> {
    if total > offset + shown {
        "... and "@ + dec((total - offset - shown) as nat) + " more dependents"@
    } else {
        Seq::empty()
    }
}

/// Everything there is to show.
pub open spec fn full_parts(r: DepsResult, scope: Seq<char>) -> Seq<Seq<char>> {
    let d = dependents_view(r.used_by@);
    seq![header_of(r, scope)] + if_any(local_section(locals_view(r.uses_local@), scope, true))
        + if_any(external_section(strs(r.uses_external@))) + if_any(
        used_by_section(by_test(d, false, d.len() as int), scope, "## Used by"@),
    ) + if_any(used_by_section(by_test(d, true, d.len() as int), scope, "## Used by (tests)"@))
        + if_any(
        hidden_dependents(r.total_dependents as int, r.offset as int, d.len() as int),
    ) + if_any(
        barrel(r.searched_count as nat, r.exported_count as nat),
    )
}

/// The header of a result.
pub open spec fn header_of(r: DepsResult, scope: Seq<char>) -> Seq<char> {
    deps_header(
        r.target@,
        scope,
        r.uses_local@.len(),
        r.uses_external@.len(),
        r.total_dependents as nat,
    )
}

/// What is shown: everything where it fits the budget, else what fits.
pub open spec fn deps_body(r: DepsResult, scope: Seq<char>, budget: Option<usize>) -> Seq<char> {
    let full = join(full_parts(r, scope), "\n\n"@);
    let d = dependents_view(r.used_by@);
    match budget {
        None => full,
        Some(b) => if fits(full, b as nat) {
            full
        } else {
            first_fitting(
                header_of(r, scope),
                locals_view(r.uses_local@),
                external_section(strs(r.uses_external@)),
                by_test(d, false, d.len() as int),
                barrel(r.searched_count as nat, r.exported_count as nat),
                scope,
                b as nat,
                0,
            )
        },
    }
}

fn header_text(r: &DepsResult, scope: &str) -> (s: String)
    ensures
        s@ == header_of(*r, scope@),
{
    let mut s = "# Deps: ".to_owned();
    s.append(rel(r.target.as_str(), scope).as_str());
    s.append(" — ");
    push_dec(&mut s, r.uses_local.len());
    s.append(" local, ");
    push_dec(&mut s, r.uses_external.len());
    s.append(" external, ");
    push_dec(&mut s, r.total_dependents);
    s.append(" dependent");
    s.append(plural_of(r.total_dependents));
    s
}

fn barrel_text(searched: usize, exported: usize) -> (s: String)
    ensures
        s@ == barrel(searched as nat, exported as nat),
{
    let mut s = String::new();
    assert(s@ =~= Seq::<char>::empty());
    if exported > MAX_EXPORTED_SYMBOLS {
        s = "\n\n> (".to_owned();
        push_dec(&mut s, searched);
        s.append(" of ");
        push_dec(&mut s, exported);
        s.append(" exports shown — barrel file detected)");
    }
    s
}

fn hidden_text(total: usize, offset: usize, shown: usize) -> (s: String)
    ensures
        s@ == hidden_dependents(total as int, offset as int, shown as int),
{
    let mut s = String::new();
    assert(s@ =~= Seq::<char>::empty());
    if total > offset && total - offset > shown {
        s = "... and ".to_owned();
        push_dec(&mut s, total - offset - shown);
        s.append(" more dependents");
    }
    s
}

fn push_if_any(parts: &mut Vec<String>, s: &str)
    ensures
        strs(final(parts)@) == strs(old(parts)@) + if_any(s@),
{
    broadcast use lemma_strs_push;

    let ghost before = strs(parts@);
    if !s.is_empty() {
        parts.push(s.to_owned());
        assert(strs(parts@) =~= before + seq![s@]);
    } else {
        assert(before + Seq::<Seq<char>>::empty() =~= before);
    }
}

/// What the file depends on and what depends on it, within the budget.
///
/// Where the budget is too tight, dependents are left out first, then modules outside
/// the project, then the symbols of local dependencies. The header is never left out.
pub fn format_deps(result: &DepsResult, scope: &str, budget: Option<usize>) -> (r: String)
    ensures
        r@ == deps_body(*result, scope@, budget) + "\n\n[~"@ + dec(
            tokens(byte_len(deps_body(*result, scope@, budget))),
        ) + " tokens]"@,
{
    broadcast use lemma_strs_push;

    assert(dependents_view(result.used_by@).len() == result.used_by@.len());
    let prod = pick_by_test(&result.used_by, false);
    let tests = pick_by_test(&result.used_by, true);
    let header = header_text(result, scope);
    let local = format_uses_local(result.uses_local.as_slice(), scope, true);
    let external = format_uses_external(result.uses_external.as_slice());
    let used_by = format_used_by(prod.as_slice(), scope, "## Used by");
    let used_by_tests = format_used_by(tests.as_slice(), scope, "## Used by (tests)");
    let hidden = hidden_text(result.total_dependents, result.offset, result.used_by.len());
    let note = barrel_text(result.searched_count, result.exported_count);
    let mut parts: Vec<String> = Vec::new();
    parts.push(header.clone());
    assert(strs(parts@) =~= seq![header@]);
    push_if_any(&mut parts, local.as_str());
    push_if_any(&mut parts, external.as_str());
    push_if_any(&mut parts, used_by.as_str());
    push_if_any(&mut parts, used_by_tests.as_str());
    push_if_any(&mut parts, hidden.as_str());
    push_if_any(&mut parts, note.as_str());
    assert(strs(parts@) == full_parts(*result, scope@));
    let full = join_strings(parts.as_slice(), "\n\n");
    let mut out = match budget {
        None => full,
        Some(b) => if within(full.as_str(), b) {
            full
        } else {
            apply_budget_truncation(
                header.as_str(),
                result.uses_local.as_slice(),
                external.as_str(),
                prod.as_slice(),
                note.as_str(),
                scope,
                b,
            )
        },
    };
    assert(out@ == deps_body(*result, scope@, budget));
    let n: u64 = estimate_tokens(text_len(out.as_str()) as u64);
    out.append("\n\n[~");
    out.append(decimal(n as u128).as_str());
    out.append(" tokens]");
    out
}

// ---------------------------------------------------------------------------
// Laws
// ---------------------------------------------------------------------------

proof fn lemma_join_prefix(parts: Seq<Seq<char>>, sep: Seq<char>)
    requires
        parts.len() > 0,
    ensures
        parts[0].is_prefix_of(join(parts, sep)),
    decreases parts.len(),
{
    if parts.len() == 1 {
        assert(parts[0] =~= parts[0].subrange(0, parts[0].len() as int));
    } else {
        lemma_join_prefix(parts.drop_last(), sep);
        let j = join(parts.drop_last(), sep);
        let p = parts[0];
        let t = join(parts, sep);
        assert(p =~= t.subrange(0, p.len() as int)) by {
            assert forall|i: int| 0 <= i < p.len() implies p[i] == t[i] by {
                assert(p[i] == j.subrange(0, p.len() as int)[i]);
            }
        }
    }
}

proof fn lemma_first_not_blank(parts: Seq<Seq<char>>)
    requires
        parts.len() > 0,
        trim(parts[0]).len() > 0,
    ensures
        not_blank(parts).len() > 0,
        not_blank(parts)[0] == parts[0],
    decreases parts.len(),
{
    if parts.len() > 1 {
        assert(parts.drop_last()[0] == parts[0]);
        lemma_first_not_blank(parts.drop_last());
        let r = not_blank(parts.drop_last());
        assert(r.push(parts.last())[0] == r[0]);
    } else {
        assert(parts.drop_last().len() == 0);
        assert(not_blank(parts.drop_last()).len() == 0);
        assert(parts.last() == parts[0]);
    }
}

proof fn lemma_trim_end(s: Seq<char>)
    requires
        s.len() > 0,
        !crate::text::is_space(s[0]),
    ensures
        crate::text::trim_end(s).len() > 0,
    decreases s.len(),
{
    if crate::text::is_space(s.last()) {
        assert(s.len() > 1);
        assert(s.drop_last()[0] == s[0]);
        lemma_trim_end(s.drop_last());
    }
}

/// A header is not blank.
proof fn lemma_header(r: DepsResult, scope: Seq<char>)
    ensures
        trim(header_of(r, scope)).len() > 0,
{
    reveal_strlit("# Deps: ");
    let h = header_of(r, scope);
    assert(h[0] == '#');
    lemma_trim_end(h);
}

proof fn lemma_degraded_prefix(
    header: Seq<char>,
    local: Seq<LocalDepView>,
    external: Seq<char>,
    prod: Seq<DependentView>,
    barrel: Seq<char>,
    scope: Seq<char>,
    budget: nat,
    k: int,
)
    requires
        0 <= k <= 4,
        trim(header).len() > 0,
    ensures
        header.is_prefix_of(
            first_fitting(header, local, external, prod, barrel, scope, budget, k),
        ),
        fits(first_fitting(header, local, external, prod, barrel, scope, budget, k), budget)
            || first_fitting(header, local, external, prod, barrel, scope, budget, k) == header,
    decreases 4 - k,
{
    let full = local_section(local, scope, true);
    let parts = if k == 0 {
        seq![header, full, external, used_by_section(prod, scope, "## Used by"@), barrel]
    } else if k == 1 {
        seq![header, full, external, more_dependents(prod.len()), barrel]
    } else if k == 2 {
        seq![header, full, barrel]
    } else {
        seq![header, local_section(local, scope, false)]
    };
    lemma_first_not_blank(parts);
    lemma_join_prefix(not_blank(parts), "\n\n"@);
    assert(header =~= header.subrange(0, header.len() as int));
    if k < 4 {
        lemma_degraded_prefix(header, local, external, prod, barrel, scope, budget, k + 1);
    }
}

/// Whatever the budget, what is shown starts with the header.
pub proof fn law_header_never_truncated(r: DepsResult, scope: Seq<char>, budget: Option<usize>)
    ensures
        header_of(r, scope).is_prefix_of(deps_body(r, scope, budget)),
{
    lemma_header(r, scope);
    lemma_join_prefix(full_parts(r, scope), "\n\n"@);
    let d = dependents_view(r.used_by@);
    if let Some(b) = budget {
        lemma_degraded_prefix(
            header_of(r, scope),
            locals_view(r.uses_local@),
            external_section(strs(r.uses_external@)),
            by_test(d, false, d.len() as int),
            barrel(r.searched_count as nat, r.exported_count as nat),
            scope,
            b as nat,
            0,
        );
    }
}

/// What is shown fits the budget, or is the header alone.
pub proof fn law_budget_kept(r: DepsResult, scope: Seq<char>, b: usize)
    ensures
        fits(deps_body(r, scope, Some(b)), b as nat) || deps_body(r, scope, Some(b)) == header_of(
            r,
            scope,
        ),
{
    lemma_header(r, scope);
    let d = dependents_view(r.used_by@);
    lemma_degraded_prefix(
        header_of(r, scope),
        locals_view(r.uses_local@),
        external_section(strs(r.uses_external@)),
        by_test(d, false, d.len() as int),
        barrel(r.searched_count as nat, r.exported_count as nat),
        scope,
        b as nat,
        0,
    );
}

/// A caller is among those of the uses exactly if it makes one of them, and its symbols
/// are all that it uses; it is placed at the first of its lines.
pub proof fn law_uses_by_caller_are_complete(u: Seq<(Seq<char>, Seq<char>, u32)>, i: int)
    requires
        0 <= i < u.len(),
    ensures
        exists|c: CallerUseView| #[trigger]
            by_caller(u).contains(c) && c.caller == u[i].0 && c.symbols.contains(u[i].1) && c.line
                <= u[i].2,
{
    let n = u.len() as int;
    let names = callers_of(u, n);
    let f = |c: Seq<char>|
        CallerUseView {
            caller: c,
            line: first_line_by(u, c, n),
            symbols: symbols_by(u, c, n),
        };
    let all = names.map_values(f);
    lemma_callers_of(u, n);
    assert(names.contains(u[i].0));
    let k = choose|k: int| 0 <= k < names.len() && names[k] == u[i].0;
    let c = all[k];
    assert(all.contains(c));
    crate::sort::law_sort_keeps_members(all, caller_use_order(), c);
    lemma_symbols_by(u, u[i].0, n);
    assert(by_caller(u).contains(c));
}

/// What is listed of a caller are uses that it makes, and its line is that of one.
pub proof fn law_uses_by_caller_are_uses(u: Seq<(Seq<char>, Seq<char>, u32)>, c: CallerUseView)
    requires
        by_caller(u).contains(c),
    ensures
        forall|s: Seq<char>| #[trigger]
            c.symbols.contains(s) ==> exists|i: int|
                0 <= i < u.len() && (#[trigger] u[i]).0 == c.caller && u[i].1 == s,
{
    let n = u.len() as int;
    let names = callers_of(u, n);
    let f = |c: Seq<char>|
        CallerUseView {
            caller: c,
            line: first_line_by(u, c, n),
            symbols: symbols_by(u, c, n),
        };
    let all = names.map_values(f);
    crate::sort::law_sort_keeps_members(all, caller_use_order(), c);
    let k = choose|k: int| 0 <= k < all.len() && all[k] == c;
    lemma_symbols_by(u, names[k], n);
}

proof fn lemma_callers_of(u: Seq<(Seq<char>, Seq<char>, u32)>, n: int)
    requires
        0 <= n <= u.len(),
    ensures
        forall|i: int| 0 <= i < n ==> callers_of(u, n).contains((#[trigger] u[i]).0),
    decreases n,
{
    if n > 0 {
        lemma_callers_of(u, n - 1);
        let q = callers_of(u, n - 1);
        let r = callers_of(u, n);
        assert forall|i: int| 0 <= i < n implies r.contains((#[trigger] u[i]).0) by {
            if q.contains(u[i].0) {
                let k = choose|k: int| 0 <= k < q.len() && q[k] == u[i].0;
                assert(r[k] == u[i].0);
            } else {
                assert(r[q.len() as int] == u[i].0);
            }
        }
    }
}

proof fn lemma_symbols_by(u: Seq<(Seq<char>, Seq<char>, u32)>, caller: Seq<char>, n: int)
    requires
        0 <= n <= u.len(),
    ensures
        forall|i: int|
            0 <= i < n && (#[trigger] u[i]).0 == caller ==> symbols_by(u, caller, n).contains(u[i].1)
                && first_line_by(u, caller, n) <= u[i].2,
        forall|s: Seq<char>| #[trigger]
            symbols_by(u, caller, n).contains(s) ==> exists|i: int|
                0 <= i < n && (#[trigger] u[i]).0 == caller && u[i].1 == s,
    decreases n,
{
    if n > 0 {
        lemma_symbols_by(u, caller, n - 1);
        let q = symbols_by(u, caller, n - 1);
        let r = symbols_by(u, caller, n);
        assert forall|i: int| 0 <= i < n && (#[trigger] u[i]).0 == caller implies r.contains(u[i].1)
            && first_line_by(u, caller, n) <= u[i].2 by {
            if i < n - 1 {
                let k = choose|k: int| 0 <= k < q.len() && q[k] == u[i].1;
                assert(r[k] == u[i].1);
            } else {
                assert(r[q.len() as int] == u[i].1);
            }
        }
        assert forall|s: Seq<char>| #[trigger] r.contains(s) implies exists|i: int|
            0 <= i < n && (#[trigger] u[i]).0 == caller && u[i].1 == s by {
            let k = choose|k: int| 0 <= k < r.len() && r[k] == s;
            if k < q.len() {
                assert(q[k] == s);
                assert(q.contains(s));
                let i = choose|i: int|
                    0 <= i < n - 1 && (#[trigger] u[i]).0 == caller && u[i].1 == s;
                assert(u[i].1 == s);
            } else {
                assert(u[n - 1].1 == s);
            }
        }
    }
}

proof fn lemma_caller_rows(v: Seq<CallerUseView>, path: Seq<char>, n: int, i: int)
    requires
        0 <= i < n <= v.len(),
    ensures
        has(
            caller_rows(v, path, n),
            pad_right(path + ":"@ + dec(v[i].line as nat), 30) + " "@ + pad_right(v[i].caller, 20)
                + " → "@ + join(v[i].symbols, ", "@),
        ),
    decreases n,
{
    let row = pad_right(path + ":"@ + dec(v[i].line as nat), 30) + " "@ + pad_right(v[i].caller, 20)
        + " → "@ + join(v[i].symbols, ", "@);
    let own = pad_right(path + ":"@ + dec(v[n - 1].line as nat), 30) + " "@ + pad_right(
        v[n - 1].caller,
        20,
    ) + " → "@ + join(v[n - 1].symbols, ", "@);
    let q = caller_rows(v, path, n - 1);
    let r = caller_rows(v, path, n);
    lemma_five_together(
        q + "\n"@,
        pad_right(path + ":"@ + dec(v[n - 1].line as nat), 30),
        " "@,
        pad_right(v[n - 1].caller, 20),
        " → "@,
        join(v[n - 1].symbols, ", "@),
    );
    assert(r == (q + "\n"@) + own);
    if i < n - 1 {
        lemma_caller_rows(v, path, n - 1, i);
        crate::text::lemma_has_left(q, "\n"@, row);
        crate::text::lemma_has_left(q + "\n"@, own, row);
    } else {
        crate::text::lemma_has_self(row);
        crate::text::lemma_has_right(q + "\n"@, row, row);
    }
}

proof fn lemma_five_together(
    m: Seq<char>,
    a: Seq<char>,
    b: Seq<char>,
    c: Seq<char>,
    d: Seq<char>,
    e: Seq<char>,
)
    ensures
        m + a + b + c + d + e == m + (a + b + c + d + e),
{
    assert(m + a + b + c + d + e =~= m + (a + b + c + d + e));
}

/// Every use of every dependent is shown: there is a row with the file, the calling
/// function and, among its symbols, the symbol.
pub proof fn law_every_use_is_shown(
    deps: Seq<DependentView>,
    scope: Seq<char>,
    n: int,
    i: int,
    k: int,
)
    requires
        0 <= i < n <= deps.len(),
        0 <= k < deps[i].symbols.len(),
    ensures
        exists|c: CallerUseView|
            c.caller == deps[i].symbols[k].0 && c.symbols.contains(deps[i].symbols[k].1)
                && #[trigger] has(
                dependent_rows(deps, scope, n),
                pad_right(shown(deps[i].path, scope) + ":"@ + dec(c.line as nat), 30) + " "@
                    + pad_right(c.caller, 20) + " → "@ + join(c.symbols, ", "@),
            ),
    decreases n,
{
    let q = dependent_rows(deps, scope, n - 1);
    let r = dependent_rows(deps, scope, n);
    let d = deps[n - 1];
    let cs = by_caller(d.symbols);
    let own = caller_rows(cs, shown(d.path, scope), cs.len() as int);
    if i < n - 1 {
        law_every_use_is_shown(deps, scope, n - 1, i, k);
        let c = choose|c: CallerUseView|
            c.caller == deps[i].symbols[k].0 && c.symbols.contains(deps[i].symbols[k].1)
                && #[trigger] has(
                q,
                pad_right(shown(deps[i].path, scope) + ":"@ + dec(c.line as nat), 30) + " "@
                    + pad_right(c.caller, 20) + " → "@ + join(c.symbols, ", "@),
            );
        crate::text::lemma_has_left(
            q,
            own,
            pad_right(shown(deps[i].path, scope) + ":"@ + dec(c.line as nat), 30) + " "@ + pad_right(
                c.caller,
                20,
            ) + " → "@ + join(c.symbols, ", "@),
        );
    } else {
        law_uses_by_caller_are_complete(d.symbols, k);
        let c = choose|c: CallerUseView| #[trigger]
            cs.contains(c) && c.caller == d.symbols[k].0 && c.symbols.contains(d.symbols[k].1)
                && c.line <= d.symbols[k].2;
        let a = choose|a: int| 0 <= a < cs.len() && cs[a] == c;
        lemma_caller_rows(cs, shown(d.path, scope), cs.len() as int, a);
        crate::text::lemma_has_right(
            q,
            own,
            pad_right(shown(d.path, scope) + ":"@ + dec(c.line as nat), 30) + " "@ + pad_right(
                c.caller,
                20,
            ) + " → "@ + join(c.symbols, ", "@),
        );
    }
}

/// What stands in one of the rows stands in all of them together.
proof fn lemma_rows_hold(
    rows: spec_fn(int) -> Seq<char>,
    own: spec_fn(int) -> Seq<char>,
    n: int,
    i: int,
    p: Seq<char>,
)
    requires
        0 <= i < n,
        forall|k: int| 0 < k <= n ==> #[trigger] rows(k) == rows(k - 1) + "\n"@ + own(k - 1),
        has(own(i), p),
    ensures
        has(rows(n), p),
    decreases n,
{
    assert(rows(n) == rows(n - 1) + "\n"@ + own(n - 1));
    if i < n - 1 {
        lemma_rows_hold(rows, own, n - 1, i, p);
        lemma_earlier(rows(n - 1), "\n"@, own(n - 1), p);
    } else {
        crate::text::lemma_has_right(rows(n - 1) + "\n"@, own(i), p);
    }
}

/// The row of a local dependency.
#[verifier::opaque]
spec fn local_row(d: LocalDepView, scope: Seq<char>, with_symbols: bool) -> Seq<char> {
    if with_symbols && d.symbols.len() > 0 {
        pad_right(shown(d.path, scope), 30) + " "@ + join(d.symbols, ", "@)
    } else {
        shown(d.path, scope)
    }
}

proof fn lemma_local_rows_step(
    deps: Seq<LocalDepView>,
    scope: Seq<char>,
    with_symbols: bool,
    n: int,
)
    requires
        0 < n,
    ensures
        local_rows(deps, scope, with_symbols, n) == local_rows(deps, scope, with_symbols, n - 1)
            + "\n"@ + local_row(deps[n - 1], scope, with_symbols),
{
    reveal(local_row);
}

/// Every local dependency is shown, and each symbol that is used of it unless symbols
/// are left out.
pub proof fn law_every_dependency_is_shown(
    deps: Seq<LocalDepView>,
    scope: Seq<char>,
    with_symbols: bool,
    n: int,
    i: int,
    k: int,
)
    requires
        0 <= i < n <= deps.len(),
    ensures
        has(local_rows(deps, scope, with_symbols, n), shown(deps[i].path, scope)),
        with_symbols && 0 <= k < deps[i].symbols.len() ==> has(
            local_rows(deps, scope, with_symbols, n),
            deps[i].symbols[k],
        ),
{
    let rows = |m: int| local_rows(deps, scope, with_symbols, m);
    let own = |m: int| local_row(deps[m], scope, with_symbols);
    assert forall|m: int| 0 < m <= n implies #[trigger] rows(m) == rows(m - 1) + "\n"@ + own(m - 1) by {
        lemma_local_rows_step(deps, scope, with_symbols, m);
    }
    lemma_local_row(deps[i], scope, with_symbols, k);
    lemma_rows_hold(rows, own, n, i, shown(deps[i].path, scope));
    if with_symbols && 0 <= k < deps[i].symbols.len() {
        lemma_rows_hold(rows, own, n, i, deps[i].symbols[k]);
    }
}

proof fn lemma_local_row(d: LocalDepView, scope: Seq<char>, with_symbols: bool, k: int)
    ensures
        has(local_row(d, scope, with_symbols), shown(d.path, scope)),
        with_symbols && 0 <= k < d.symbols.len() ==> has(
            local_row(d, scope, with_symbols),
            d.symbols[k],
        ),
{
    reveal(local_row);
    let path = shown(d.path, scope);
    crate::text::lemma_has_self(path);
    lemma_pad_has(path, 30);
    lemma_earlier(pad_right(path, 30), " "@, join(d.symbols, ", "@), path);
    if 0 <= k < d.symbols.len() {
        crate::text::law_join_holds_every_part(d.symbols, ", "@, k);
        crate::text::lemma_has_right(
            pad_right(path, 30) + " "@,
            join(d.symbols, ", "@),
            d.symbols[k],
        );
    }
}

proof fn lemma_earlier(q: Seq<char>, a: Seq<char>, b: Seq<char>, p: Seq<char>)
    requires
        has(q, p),
    ensures
        has(q + a + b, p),
{
    crate::text::lemma_has_left(q, a, p);
    crate::text::lemma_has_left(q + a, b, p);
}

proof fn lemma_pad_has(s: Seq<char>, n: nat)
    ensures
        has(pad_right(s, n), s),
{
    let none = Seq::<char>::empty();
    let p = pad_right(s, n);
    crate::text::lemma_has_self(s);
    crate::text::lemma_has_within(none, s, p.skip(s.len() as int), s);
    assert(none + s + p.skip(s.len() as int) =~= p);
}

/// Every module outside the project is shown.
pub proof fn law_every_module_is_shown(v: Seq<Seq<char>>, n: int, i: int)
    requires
        0 <= i < n <= v.len(),
    ensures
        has(module_rows(v, n), v[i]),
    decreases n,
{
    let q = module_rows(v, n - 1);
    if i < n - 1 {
        law_every_module_is_shown(v, n - 1, i);
        crate::text::lemma_has_left(q, "\n"@, v[i]);
        crate::text::lemma_has_left(q + "\n"@, v[n - 1], v[i]);
    } else {
        crate::text::lemma_has_self(v[i]);
        crate::text::lemma_has_right(q + "\n"@, v[i], v[i]);
    }
}

/// Dependents are told apart into tests and others: each is among those that it belongs
/// to, and nothing is among both.
pub proof fn law_tests_are_told_apart(d: Seq<DependentView>, tests: bool, n: int, x: DependentView)
    requires
        0 <= n <= d.len(),
    ensures
        by_test(d, tests, n).contains(x) <==> d.take(n).contains(x) && x.is_test == tests,
        by_test(d, true, n).len() + by_test(d, false, n).len() == n,
    decreases n,
{
    if n > 0 {
        law_tests_are_told_apart(d, tests, n - 1, x);
        let q = by_test(d, tests, n - 1);
        let r = by_test(d, tests, n);
        let t = d.take(n - 1);
        let u = d.take(n);
        if r.contains(x) {
            let k = choose|k: int| 0 <= k < r.len() && r[k] == x;
            if k < q.len() {
                assert(q[k] == x);
                let j = choose|j: int| 0 <= j < t.len() && t[j] == x;
                assert(u[j] == x);
            } else {
                assert(u[n - 1] == x);
            }
        }
        if u.contains(x) && x.is_test == tests {
            let j = choose|j: int| 0 <= j < u.len() && u[j] == x;
            if j < n - 1 {
                assert(t[j] == x);
                let k = choose|k: int| 0 <= k < q.len() && q[k] == x;
                assert(r[k] == x);
            } else {
                assert(r[q.len() as int] == x);
            }
        }
    }
}

/// Without a budget everything is shown: what the file uses, and every dependent of the
/// page, be it a test or not.
pub proof fn law_nothing_is_hidden_without_budget(r: DepsResult, scope: Seq<char>, i: int)
    ensures
        r.uses_local@.len() > 0 ==> has(
            deps_body(r, scope, None),
            local_section(locals_view(r.uses_local@), scope, true),
        ),
        r.uses_external@.len() > 0 ==> has(
            deps_body(r, scope, None),
            external_section(strs(r.uses_external@)),
        ),
        0 <= i < r.used_by@.len() ==> has(
            deps_body(r, scope, None),
            dependent_rows(
                by_test(
                    dependents_view(r.used_by@),
                    dependents_view(r.used_by@)[i].is_test,
                    r.used_by@.len() as int,
                ),
                scope,
                by_test(
                    dependents_view(r.used_by@),
                    dependents_view(r.used_by@)[i].is_test,
                    r.used_by@.len() as int,
                ).len() as int,
            ),
        ),
{
    let d = dependents_view(r.used_by@);
    let n = d.len() as int;
    let a = seq![header_of(r, scope)];
    let b = if_any(local_section(locals_view(r.uses_local@), scope, true));
    let c = if_any(external_section(strs(r.uses_external@)));
    let prod = by_test(d, false, n);
    let test = by_test(d, true, n);
    let e = if_any(used_by_section(prod, scope, "## Used by"@));
    let f = if_any(used_by_section(test, scope, "## Used by (tests)"@));
    let parts = full_parts(r, scope);
    reveal_strlit("## Uses (local)");
    reveal_strlit("## Uses (external)");
    reveal_strlit("## Used by");
    reveal_strlit("## Used by (tests)");
    if r.uses_local@.len() > 0 {
        assert(locals_view(r.uses_local@).len() > 0);
        assert(parts[1] == b[0]);
        crate::text::law_join_holds_every_part(parts, "\n\n"@, 1);
    }
    if r.uses_external@.len() > 0 {
        assert(strs(r.uses_external@).len() > 0);
        let at = (a.len() + b.len()) as int;
        assert(parts[at] == c[0]);
        crate::text::law_join_holds_every_part(parts, "\n\n"@, at);
    }
    if 0 <= i < r.used_by@.len() {
        let t = d[i].is_test;
        law_tests_are_told_apart(d, t, n, d[i]);
        assert(d.take(n) =~= d);
        assert(d.contains(d[i]));
        let own = by_test(d, t, n);
        let k = choose|k: int| 0 <= k < own.len() && own[k] == d[i];
        let heading = if t {
            "## Used by (tests)"@
        } else {
            "## Used by"@
        };
        let rows = dependent_rows(own, scope, own.len() as int);
        let section = used_by_section(own, scope, heading);
        assert(section == heading + rows);
        let at = if t {
            (a.len() + b.len() + c.len() + e.len()) as int
        } else {
            (a.len() + b.len() + c.len()) as int
        };
        assert(parts[at] == section);
        crate::text::law_join_holds_every_part(parts, "\n\n"@, at);
        crate::text::lemma_has_self(rows);
        crate::text::lemma_has_within(heading, rows, Seq::<char>::empty(), rows);
        assert(heading + rows + Seq::<char>::empty() =~= section);
        crate::text::lemma_has_trans(deps_body(r, scope, None), section, rows);
    }
}

} // verus!
