//! How a query is followed: what is searched for first, what next, and what is shown.
use vstd::prelude::*;
use vstd::string::*;

use crate::classify::{identifier, is_identifier, QueryType, QueryView};
use crate::mcp::{listed_symbols, search_queries, MAX_SYMBOLS};
use crate::search::io::{escape, escaped, escaped_all};
use crate::text::{
    chars_of, has_char, join, join_strings, split, string_of, strs, trim, views, words, words_of,
};

verus! {

/// How a query is followed.
#[derive(Debug)]
pub enum Plan {
    /// The file is read.
    Read(String),
    /// Files are found by the pattern.
    Files(String),
    /// The symbol is looked up.
    Symbol(String),
    /// The words are searched for together.
    Phrase(String),
    /// The word is searched for as a symbol, and as text.
    Word { text: String, prefer_definitions: bool },
    /// The text is searched for.
    Content(String),
    /// The pattern is searched for.
    Regex(String),
}

/// How a query is followed, in texts.
pub enum PlanView {
    Read(Seq<char>),
    Files(Seq<char>),
    Symbol(Seq<char>),
    Phrase(Seq<char>),
    Word { text: Seq<char>, prefer_definitions: bool },
    Content(Seq<char>),
    Regex(Seq<char>),
}

impl View for Plan {
    type V = PlanView;

    open spec fn view(&self) -> PlanView {
        match self {
            Plan::Read(s) => PlanView::Read(s@),
            Plan::Files(s) => PlanView::Files(s@),
            Plan::Symbol(s) => PlanView::Symbol(s@),
            Plan::Phrase(s) => PlanView::Phrase(s@),
            Plan::Word { text, prefer_definitions } => PlanView::Word {
                text: text@,
                prefer_definitions: *prefer_definitions,
            },
            Plan::Content(s) => PlanView::Content(s@),
            Plan::Regex(s) => PlanView::Regex(s@),
        }
    }
}

/// How a query is followed: a concept of several words as a phrase, one of one word by
/// its definitions where it has any.
pub open spec fn planned(q: QueryView) -> PlanView {
    match q {
        QueryView::FilePath(s) => PlanView::Read(s),
        QueryView::Glob(s) => PlanView::Files(s),
        QueryView::Symbol(s) => PlanView::Symbol(s),
        QueryView::Concept(s) => if s.contains(' ') {
            PlanView::Phrase(s)
        } else {
            PlanView::Word { text: s, prefer_definitions: true }
        },
        QueryView::Content(s) => PlanView::Content(s),
        QueryView::Regex(s) => PlanView::Regex(s),
        QueryView::Fallthrough(s) => PlanView::Word { text: s, prefer_definitions: false },
    }
}

/// How a query is followed.
pub fn plan(query: QueryType) -> (r: Plan)
    ensures
        r@ == planned(query@),
{
    match query {
        QueryType::FilePath(s) => Plan::Read(s),
        QueryType::Glob(s) => Plan::Files(s),
        QueryType::Symbol(s) => Plan::Symbol(s),
        QueryType::Concept(s) => {
            let c = chars_of(s.as_str());
            if has_char(c.as_slice(), ' ') {
                Plan::Phrase(s)
            } else {
                Plan::Word { text: s, prefer_definitions: true }
            }
        },
        QueryType::Content(s) => Plan::Content(s),
        QueryType::Regex(s) => Plan::Regex(s),
        QueryType::Fallthrough(s) => Plan::Word { text: s, prefer_definitions: false },
    }
}

/// What is done next with a word that was searched for as a symbol.
#[derive(Clone, Copy, Debug, PartialEq, Eq, Structural)]
pub enum WordStep {
    /// What the search for the symbol found is shown.
    ShowSymbol,
    /// The word is searched for as text.
    SearchContent,
    /// What the search for the text found is shown.
    ShowContent,
    /// Nothing was found.
    NotFound,
}

/// What is done next with a word: `content` is what the search for the text found, once
/// it was made. Where definitions are preferred, uses alone are shown only if the text
/// was not found either.
pub open spec fn word_step(
    definitions: nat,
    total: nat,
    content: Option<nat>,
    prefer_definitions: bool,
) -> WordStep {
    if (prefer_definitions && definitions > 0) || (!prefer_definitions && total > 0) {
        WordStep::ShowSymbol
    } else {
        match content {
            None => WordStep::SearchContent,
            Some(n) => if n > 0 {
                WordStep::ShowContent
            } else if prefer_definitions && total > 0 {
                WordStep::ShowSymbol
            } else {
                WordStep::NotFound
            },
        }
    }
}

/// What is done next with a word that was searched for as a symbol.
pub fn single_query_search(
    definitions: usize,
    total: usize,
    content: Option<usize>,
    prefer_definitions: bool,
) -> (r: WordStep)
    ensures
        r == word_step(
            definitions as nat,
            total as nat,
            match content {
                Some(n) => Some(n as nat),
                None => None,
            },
            prefer_definitions,
        ),
{
    let accept = if prefer_definitions {
        definitions > 0
    } else {
        total > 0
    };
    if accept {
        return WordStep::ShowSymbol;
    }
    match content {
        None => WordStep::SearchContent,
        Some(n) => if n > 0 {
            WordStep::ShowContent
        } else if prefer_definitions && total > 0 {
            WordStep::ShowSymbol
        } else {
            WordStep::NotFound
        },
    }
}

/// A word is not found exactly where neither search found anything, and the text is
/// searched for at most once.
pub proof fn law_not_found_only_if_nothing(
    definitions: nat,
    total: nat,
    content: nat,
    prefer_definitions: bool,
)
    requires
        definitions <= total,
    ensures
        word_step(definitions, total, Some(content), prefer_definitions) == WordStep::NotFound <==> total
            == 0 && content == 0,
        word_step(definitions, total, Some(content), prefer_definitions) != WordStep::SearchContent,
{
}

/// What is done next with a phrase.
#[derive(Clone, Copy, Debug, PartialEq, Eq, Structural)]
pub enum PhraseStep {
    /// What the search for the phrase found is shown.
    ShowExact,
    /// The words are searched for apart.
    SearchRelaxed,
    /// What the search for the words found is shown.
    ShowRelaxed,
    /// Nothing was found.
    NotFound,
}

/// What is done next with a phrase: `relaxed` is what the search for the words found,
/// once it was made.
pub open spec fn phrase_step(exact: nat, relaxed: Option<nat>) -> PhraseStep {
    if exact > 0 {
        PhraseStep::ShowExact
    } else {
        match relaxed {
            None => PhraseStep::SearchRelaxed,
            Some(n) => if n > 0 {
                PhraseStep::ShowRelaxed
            } else {
                PhraseStep::NotFound
            },
        }
    }
}

/// What is done next with a phrase.
pub fn multi_word_concept_search(exact: usize, relaxed: Option<usize>) -> (r: PhraseStep)
    ensures
        r == phrase_step(
            exact as nat,
            match relaxed {
                Some(n) => Some(n as nat),
                None => None,
            },
        ),
{
    if exact > 0 {
        return PhraseStep::ShowExact;
    }
    match relaxed {
        None => PhraseStep::SearchRelaxed,
        Some(n) => if n > 0 {
            PhraseStep::ShowRelaxed
        } else {
            PhraseStep::NotFound
        },
    }
}

/// The pattern for the words of a phrase apart: two words in any order, or any of
/// several words.
pub open spec fn relaxed(text: Seq<char>) -> Seq<char> {
    let w = words(text);
    if w.len() == 2 {
        escaped(w[0]) + ".*"@ + escaped(w[1]) + "|"@ + escaped(w[1]) + ".*"@ + escaped(w[0])
    } else {
        join(escaped_all(w), "|"@)
    }
}

/// The pattern for the words of a phrase apart.
pub fn relaxed_pattern(text: &str) -> (r: String)
    ensures
        r@ == relaxed(text@),
{
    let chars = chars_of(text);
    let w = words_of(chars.as_slice());
    let ghost v = views(w@);
    let ghost all = escaped_all(v);
    assert(v.len() == w@.len());
    let mut parts: Vec<String> = Vec::new();
    let mut i: usize = 0;
    while i < w.len()
        invariant
            i <= w@.len(),
            v == views(w@),
            all == escaped_all(v),
            parts@.len() == i,
            forall|k: int| 0 <= k < i ==> (#[trigger] parts@[k])@ == all[k],
        decreases w@.len() - i,
    {
        assert(v[i as int] == w@[i as int]@);
        parts.push(escape(string_of(w[i]).as_str()));
        i = i + 1;
    }
    assert(strs(parts@) =~= all);
    if parts.len() == 2 {
        assert(parts@[0]@ == escaped(v[0]));
        assert(parts@[1]@ == escaped(v[1]));
        let mut s = parts[0].clone();
        s.append(".*");
        s.append(parts[1].as_str());
        s.append("|");
        s.append(parts[1].as_str());
        s.append(".*");
        s.append(parts[0].as_str());
        s
    } else {
        join_strings(parts.as_slice(), "|")
    }
}

/// The name for which a similar file is suggested where a phrase was not found: its
/// first word.
pub open spec fn first_of(text: Seq<char>) -> Seq<char> {
    let w = words(text);
    if w.len() > 0 {
        w[0]
    } else {
        text
    }
}

/// The name for which a similar file is suggested where a phrase was not found.
pub fn suggested_for(text: &str) -> (r: String)
    ensures
        r@ == first_of(text@),
{
    let chars = chars_of(text);
    let w = words_of(chars.as_slice());
    assert(views(w@).len() == w@.len());
    if w.len() > 0 {
        assert(views(w@)[0] == w@[0]@);
        string_of(w[0])
    } else {
        text.to_owned()
    }
}

/// The symbols that a query lists, where it lists at least two and no more than can be
/// searched for together.
pub open spec fn several(query: Seq<char>) -> Option<Seq<Seq<char>>> {
    let names = listed_symbols(query);
    if 2 <= names.len() <= MAX_SYMBOLS && forall|i: int|
        0 <= i < names.len() ==> identifier(#[trigger] names[i]) {
        Some(names)
    } else {
        None
    }
}

/// The symbols that a query lists, where there are several of them.
pub fn several_symbols(query: &str) -> (r: Option<Vec<String>>)
    ensures
        match r {
            Some(v) => several(query@) == Some(strs(v@)),
            None => several(query@) is None,
        },
{
    let names = search_queries(query);
    let ghost v = strs(names@);
    assert(v.len() == names@.len());
    if names.len() < 2 || names.len() > MAX_SYMBOLS {
        return None;
    }
    let mut i: usize = 0;
    while i < names.len()
        invariant
            i <= names@.len(),
            v == strs(names@),
            v == listed_symbols(query@),
            forall|k: int| 0 <= k < i ==> identifier(#[trigger] v[k]),
        decreases names@.len() - i,
    {
        assert(v[i as int] == names@[i as int]@);
        if !is_identifier(names[i].as_str()) {
            return None;
        }
        i = i + 1;
    }
    Some(names)
}

/// Where definitions are preferred, a word is shown by them if it has any, else as text
/// if it stands anywhere, else by its uses; where they are not, by whatever the search
/// for the symbol found.
pub proof fn law_definitions_come_first(definitions: nat, total: nat, content: nat)
    requires
        definitions <= total,
    ensures
        word_step(definitions, total, None, true) == WordStep::ShowSymbol <==> definitions > 0,
        word_step(definitions, total, None, false) == WordStep::ShowSymbol <==> total > 0,
        definitions == 0 ==> word_step(definitions, total, None, true) == WordStep::SearchContent,
        word_step(definitions, total, Some(content), true) == WordStep::ShowContent <==> definitions
            == 0 && content > 0,
        word_step(definitions, total, Some(content), false) == WordStep::ShowContent <==> total == 0
            && content > 0,
{
}

/// A phrase is not found exactly where neither the phrase nor its words were, and what
/// was found of the phrase itself comes first.
pub proof fn law_phrases_come_first(exact: nat, relaxed: nat)
    ensures
        exact > 0 ==> phrase_step(exact, None) == PhraseStep::ShowExact && phrase_step(
            exact,
            Some(relaxed),
        ) == PhraseStep::ShowExact,
        exact == 0 ==> phrase_step(exact, None) == PhraseStep::SearchRelaxed,
        phrase_step(exact, Some(relaxed)) == PhraseStep::ShowRelaxed <==> exact == 0 && relaxed > 0,
        phrase_step(exact, Some(relaxed)) == PhraseStep::NotFound <==> exact == 0 && relaxed == 0,
{
}

/// Two to five identifiers with commas between them are looked for together, each of
/// them.
pub proof fn law_listed_symbols_are_several(query: Seq<char>, v: Seq<Seq<char>>)
    requires
        several(query) == Some(v),
    ensures
        2 <= v.len() <= 5,
        forall|i: int|
            0 <= i < split(query, ',').len() && trim(#[trigger] split(query, ',')[i]).len()
                > 0 ==> v.contains(trim(split(query, ',')[i])),
        forall|i: int| 0 <= i < v.len() ==> identifier(#[trigger] v[i]),
{
    let parts = split(query, ',');
    assert forall|i: int|
        0 <= i < parts.len() && trim(#[trigger] parts[i]).len() > 0 implies v.contains(
        trim(parts[i]),
    ) by {
        crate::mcp::law_every_part_is_listed(
            parts,
            parts.len() as int,
            trim(parts[i]),
        );
    }
}

} // verus!
