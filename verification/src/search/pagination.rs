//! Pages of search results.
//!
//! Pages are taken after ranking, so that each is the same on every run.
use vstd::prelude::*;

use crate::types::{Match, SearchResult};

verus! {

/// What is left after the first `offset` elements.
pub open spec fn rest<T>(s: Seq<T>, offset: nat) -> Seq<T> {
    if offset >= s.len() {
        Seq::empty()
    } else {
        s.skip(offset as int)
    }
}

/// The page that starts at `offset`: at most `limit` elements.
pub open spec fn page<T>(s: Seq<T>, limit: Option<usize>, offset: nat) -> Seq<T> {
    match limit {
        Some(cap) => if rest(s, offset).len() > cap {
            rest(s, offset).take(cap as int)
        } else {
            rest(s, offset)
        },
        None => rest(s, offset),
    }
}

/// Something is left behind the page.
pub open spec fn more_after<T>(s: Seq<T>, limit: Option<usize>, offset: nat) -> bool {
    limit matches Some(cap) && rest(s, offset).len() > cap
}

/// The page that starts at `offset`.
pub fn take_page<T>(v: Vec<T>, limit: Option<usize>, offset: usize) -> (r: Vec<T>)
    ensures
        r@ == page(v@, limit, offset as nat),
{
    let ghost all = v@;
    let total: usize = v.len();
    let mut v = v;
    if offset > 0 {
        if offset >= total {
            v.clear();
        } else {
            v = v.split_off(offset);
        }
    }
    assert(v@ =~= rest(all, offset as nat));
    if let Some(cap) = limit {
        if v.len() > cap {
            v.truncate(cap);
        }
    }
    assert(v@ =~= page(all, limit, offset as nat));
    v
}

/// Keeps the page of the result that starts at `offset`.
pub fn paginate(result: &mut SearchResult, limit: Option<usize>, offset: usize)
    ensures
        final(result).matches@ == page(old(result).matches@, limit, offset as nat),
        final(result).has_more == (old(result).has_more || more_after(
            old(result).matches@,
            limit,
            offset as nat,
        )),
        final(result).offset == offset,
        final(result).query == old(result).query,
        final(result).scope == old(result).scope,
        final(result).total_found == old(result).total_found,
        final(result).definitions == old(result).definitions,
        final(result).usages == old(result).usages,
{
    let ghost all = result.matches@;
    let total: usize = result.matches.len();
    if let Some(cap) = limit {
        if offset < total && total - offset > cap {
            result.has_more = true;
        }
    }
    let mut matches: Vec<Match> = Vec::new();
    std::mem::swap(&mut matches, &mut result.matches);
    result.matches = take_page(matches, limit, offset);
    result.offset = offset;
}

/// A page and what starts where it ends make up what starts where it does; there is
/// more behind the page exactly where the next one is not empty.
pub proof fn law_pages_tile<T>(s: Seq<T>, cap: usize, offset: nat)
    ensures
        page(s, Some(cap), offset) + page(s, None, (offset + cap) as nat) == page(s, None, offset),
        more_after(s, Some(cap), offset) == (page(s, None, (offset + cap) as nat).len() > 0),
{
    assert(page(s, Some(cap), offset) + page(s, None, (offset + cap) as nat) =~= page(s, None, offset));
}

/// A page holds what stands from the offset on, as many as the limit lets through.
pub proof fn law_page_starts_at_the_offset<T>(s: Seq<T>, limit: Option<usize>, offset: nat)
    ensures
        page(s, limit, offset).len() == {
            let left: int = if offset < s.len() {
                s.len() - offset
            } else {
                0
            };
            match limit {
                Some(cap) => if left > cap {
                    cap as int
                } else {
                    left
                },
                None => left,
            }
        },
        forall|i: int|
            0 <= i < page(s, limit, offset).len() ==> #[trigger] page(s, limit, offset)[i]
                == s[offset + i],
{
}

} // verus!
