//! What the options of the command line mean.
use vstd::prelude::*;
use vstd::string::*;

use crate::json::{members, members_view, object, text, with, JsonValue, JsonView};
use crate::paths::{join_path, joined};
use crate::text::{chars_of, has_prefix, lines, lines_of, opt_str, setting, setting_of, views};

verus! {

/// How many results are shown on a terminal, where nothing else is asked for.
pub const INTERACTIVE_LIMIT: usize = 50;

/// How many results are shown: what is asked for; on a terminal not too many, unless
/// everything is asked for.
pub fn effective_limit(limit: Option<usize>, is_tty: bool, full: bool) -> (r: Option<usize>)
    ensures
        r == (match limit {
            Some(n) => Some(n),
            None => if is_tty && !full {
                Some(INTERACTIVE_LIMIT)
            } else {
                None
            },
        }),
{
    match limit {
        Some(n) => Some(n),
        None => if is_tty && !full {
            Some(INTERACTIVE_LIMIT)
        } else {
            None
        },
    }
}

/// Whether callers are given as data: where that is asked for, and callers of callers
/// too.
pub fn callers_as_json(json: bool, depth: Option<usize>) -> (r: bool)
    ensures
        r == (json && (depth matches Some(d) && d >= 2)),
{
    json && (match depth {
        Some(d) => d >= 2,
        None => false,
    })
}

/// The file whose dependencies are asked for: the query itself where it is absolute;
/// else in the scope; where it is not there, in the current directory if it is there.
pub open spec fn deps_file(
    query: Seq<char>,
    scope: Seq<char>,
    cwd: Seq<char>,
    in_scope: bool,
    in_cwd: bool,
) -> Seq<char> {
    if "/"@.is_prefix_of(query) {
        query
    } else if !in_scope && in_cwd {
        joined(cwd, query)
    } else {
        joined(scope, query)
    }
}

/// The file whose dependencies are asked for.
pub fn deps_path(query: &str, scope: &str, cwd: &str, in_scope: bool, in_cwd: bool) -> (r: String)
    ensures
        r@ == deps_file(query@, scope@, cwd@, in_scope, in_cwd),
{
    let c = chars_of(query);
    if has_prefix(c.as_slice(), "/") {
        query.to_owned()
    } else if !in_scope && in_cwd {
        join_path(cwd, query)
    } else {
        join_path(scope, query)
    }
}

/// Whether the output is shown page by page.
pub fn needs_pager(output: &str, is_tty: bool, height: usize) -> (r: bool)
    ensures
        r == (is_tty && lines(output@).len() > height),
{
    let c = chars_of(output);
    let l = lines_of(c.as_slice());
    assert(views(l@).len() == l@.len());
    is_tty && l.len() > height
}

/// How many lines a terminal has, where nothing else is set.
pub const USUAL_HEIGHT: u64 = 24;

/// How many lines the terminal has.
pub fn terminal_height(given: Option<&str>) -> (r: usize)
    ensures
        r == setting(opt_str(given), usize::MAX as nat, USUAL_HEIGHT as nat),
{
    setting_of(given, usize::MAX as u64, USUAL_HEIGHT) as usize
}

/// How many threads are used where nothing else is set: half of the cores, but at most
/// six; four where the number of cores is not known. None leaves the number to the pool.
pub open spec fn usual_threads(cores: Option<usize>) -> nat {
    match cores {
        Some(n) => if n / 2 > 6 {
            6
        } else {
            (n / 2) as nat
        },
        None => 4,
    }
}

/// How many threads are used.
pub fn thread_count(given: Option<&str>, cores: Option<usize>) -> (r: usize)
    ensures
        r == setting(opt_str(given), usize::MAX as nat, usual_threads(cores)),
{
    let usual: usize = match cores {
        Some(n) => if n / 2 > 6 {
            6
        } else {
            n / 2
        },
        None => 4,
    };
    setting_of(given, usize::MAX as u64, usual as u64) as usize
}

/// The hubs that the command line leaves out of a walk over callers where it names none.
pub const USUAL_HUBS: &'static str = "new,clone,from,into,to_string,drop,fmt,default";

/// The hubs that a walk over callers leaves out: those that are named, or the usual ones
/// where the option is not given. An empty list leaves out none.
pub fn hubs_to_skip(given: Option<&str>) -> (r: String)
    ensures
        r@ == match given {
            Some(s) => s@,
            None => USUAL_HUBS@,
        },
{
    match given {
        Some(s) => s.to_owned(),
        None => USUAL_HUBS.to_owned(),
    }
}

/// The output as data.
pub open spec fn output_view(query: Seq<char>, output: Seq<char>) -> JsonView {
    JsonView::Object(seq![("query"@, JsonView::Text(query)), ("output"@, JsonView::Text(output))])
}

/// The output as data.
pub fn json_output(query: &str, output: &str) -> (r: JsonValue)
    ensures
        r@ == output_view(query@, output@),
{
    let mut o = members();
    with(&mut o, "query", text(query));
    with(&mut o, "output", text(output));
    assert(members_view(o@) =~= output_view(query@, output@)->Object_0);
    object(o)
}

/// How far callers of callers are followed.
#[derive(Clone, Copy, Debug, PartialEq, Eq, Structural)]
pub struct WalkBounds {
    pub depth: usize,
    pub frontier: usize,
    pub edges: usize,
}

/// The largest depth.
pub const MAX_WALK_DEPTH: usize = 5;

/// How many symbols are followed in one hop, where nothing else is asked for.
pub const USUAL_FRONTIER: usize = 50;

/// How many calls are found at most, where nothing else is asked for.
pub const USUAL_EDGES: usize = 500;

/// How far callers of callers are followed: not at all up to a depth of one.
pub open spec fn bounds_for(
    depth: Option<usize>,
    max_frontier: Option<usize>,
    max_edges: Option<usize>,
) -> Option<WalkBounds> {
    match depth {
        Some(d) => if d >= 2 {
            Some(
                WalkBounds {
                    depth: if d > MAX_WALK_DEPTH {
                        MAX_WALK_DEPTH
                    } else {
                        d
                    },
                    frontier: match max_frontier {
                        Some(n) => n,
                        None => USUAL_FRONTIER,
                    },
                    edges: match max_edges {
                        Some(n) => n,
                        None => USUAL_EDGES,
                    },
                },
            )
        } else {
            None
        },
        None => None,
    }
}

/// How far callers of callers are followed.
pub fn walk_bounds(
    depth: Option<usize>,
    max_frontier: Option<usize>,
    max_edges: Option<usize>,
) -> (r: Option<WalkBounds>)
    ensures
        r == bounds_for(depth, max_frontier, max_edges),
{
    match depth {
        Some(d) => if d >= 2 {
            let depth: usize = if d > MAX_WALK_DEPTH {
                MAX_WALK_DEPTH
            } else {
                d
            };
            let frontier: usize = match max_frontier {
                Some(n) => n,
                None => USUAL_FRONTIER,
            };
            let edges: usize = match max_edges {
                Some(n) => n,
                None => USUAL_EDGES,
            };
            Some(WalkBounds { depth, frontier, edges })
        } else {
            None
        },
        None => None,
    }
}

/// A depth of one is the same as none.
pub proof fn law_depth_one_is_none(max_frontier: Option<usize>, max_edges: Option<usize>)
    ensures
        bounds_for(Some(1), max_frontier, max_edges) == bounds_for(None, max_frontier, max_edges),
{
}

/// Callers are followed as far as is asked for, up to five hops, with fifty symbols a
/// hop and five hundred calls where nothing else is asked for.
pub proof fn law_walk_goes_as_far_as_asked(
    depth: usize,
    max_frontier: Option<usize>,
    max_edges: Option<usize>,
)
    ensures
        bounds_for(Some(depth), max_frontier, max_edges) is Some <==> depth > 1,
        depth > 1 ==> (bounds_for(Some(depth), max_frontier, max_edges) matches Some(b) && (depth
            <= 5 ==> b.depth == depth) && (depth > 5 ==> b.depth == 5) && (match max_frontier {
            Some(n) => b.frontier == n,
            None => b.frontier == 50,
        }) && (match max_edges {
            Some(n) => b.edges == n,
            None => b.edges == 500,
        })),
{
}

/// A file that is named in full is that one; another is looked for in the scope first and
/// in the current directory only where it is not there.
pub proof fn law_scope_comes_before_the_current_directory(
    query: Seq<char>,
    scope: Seq<char>,
    cwd: Seq<char>,
    in_cwd: bool,
)
    ensures
        query.len() > 0 && query[0] == '/' ==> deps_file(query, scope, cwd, true, in_cwd) == query,
        query.len() > 0 && query[0] != '/' ==> deps_file(query, scope, cwd, true, in_cwd)
            == crate::paths::joined(scope, query) && deps_file(query, scope, cwd, false, true)
            == crate::paths::joined(cwd, query) && deps_file(query, scope, cwd, false, false)
            == crate::paths::joined(scope, query),
{
    reveal_strlit("/");
    if query.len() > 0 {
        if query[0] == '/' {
            assert("/"@ =~= query.subrange(0, 1));
        }
        if "/"@.is_prefix_of(query) {
            assert(query.subrange(0, 1)[0] == '/');
        }
    }
}

/// Half of the cores are used, and never more than six.
pub proof fn law_half_of_the_cores_are_used(cores: usize)
    ensures
        usual_threads(Some(cores)) <= 6,
        cores <= 13 ==> 2 * usual_threads(Some(cores)) <= cores < 2 * usual_threads(Some(cores)) + 2,
        cores > 13 ==> usual_threads(Some(cores)) == 6,
{
}

} // verus!
