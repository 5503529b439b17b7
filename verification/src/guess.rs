//! Resolving a query to a path, in three steps of which the first that
//! applies decides: an absolute path stands for itself, the name of a
//! directory below the working directory stands for that directory, and
//! anything else for the bookmark that matches it best, if one does.

use vstd::prelude::*;
use vstd::string::*;
use crate::listing::{child_views, ChildEntry};
use crate::matcher::{
    best_bookmark_match, best_match, fuzzy_matches, is_matchable, matchable, portable,
};
use crate::path::{is_absolute, is_absolute_path};
use crate::text::{lowercase, views};

verus! {

/// Whether two names are the same but for the case of their letters.
pub open spec fn same_name(a: Seq<char>, b: Seq<char>) -> bool {
    lowercase(a) == lowercase(b)
}

/// Whether an entry is a directory whose name is `name` but for case.
pub open spec fn is_named(entry: (Seq<char>, bool), name: Seq<char>) -> bool {
    entry.1 && same_name(entry.0, name)
}

/// The name of the first directory among `entries` that is `name` but for
/// case, if there is one.
pub open spec fn case_match(name: Seq<char>, entries: Seq<(Seq<char>, bool)>) -> Option<Seq<char>>
    decreases entries.len(),
{
    if entries.len() == 0 {
        None
    } else if is_named(entries[0], name) {
        Some(entries[0].0)
    } else {
        case_match(name, entries.drop_first())
    }
}

/// The answer where only the bookmarks are left to ask: the best match, or
/// the query itself where nothing matches.
pub open spec fn or_query(best: Option<Seq<char>>, query: Seq<char>) -> Seq<char> {
    match best {
        Some(b) => b,
        None => query,
    }
}

/// The answer to `query`, given the entries of the working directory and
/// the bookmarks. Where the matcher cannot be given the query and the
/// bookmarks, the bookmarks are not asked.
pub open spec fn answer(
    query: Seq<char>,
    children: Seq<(Seq<char>, bool)>,
    bookmarks: Seq<Seq<char>>,
) -> Seq<char> {
    if is_absolute_path(query) {
        query
    } else {
        match case_match(query, children) {
            Some(name) => name,
            None => if matchable(query, bookmarks) {
                or_query(best_match(fuzzy_matches(query, bookmarks)), query)
            } else {
                query
            },
        }
    }
}

/// What to do next to answer a query.
#[derive(Debug)]
pub enum GuessStep {
    /// The query is answered.
    Answer(String),
    /// The entries of the working directory are needed.
    ListChildren,
    /// The bookmarks are needed.
    ReadBookmarks,
}

impl GuessStep {
    /// The answer, where the step gives one.
    pub open spec fn answered(self) -> Option<Seq<char>> {
        match self {
            GuessStep::Answer(a) => Some(a@),
            _ => None,
        }
    }
}

/// Looks among `entries`, what was found in the working directory, for a
/// directory whose name is `name` but for case, and hands out the first as
/// it is written there.
pub fn find_case_insensitive(name: &str, entries: &Vec<ChildEntry>) -> (found: Option<String>)
    ensures
        found is Some == case_match(name@, child_views(entries@)) is Some,
        found matches Some(f) ==> case_match(name@, child_views(entries@)) == Some(f@),
{
    let wanted = name.to_lowercase();
    let ghost all = child_views(entries@);
    let mut i: usize = 0;
    proof {
        assert(all.skip(0) == all);
    }
    while i < entries.len()
        invariant
            i <= entries.len(),
            all == child_views(entries@),
            wanted@ == lowercase(name@),
            case_match(name@, all) == case_match(name@, all.skip(i as int)),
        decreases entries.len() - i,
    {
        proof {
            assert(all.skip(i as int)[0] == entries[i as int]@);
            assert(all.skip(i as int).drop_first() == all.skip(i + 1));
        }
        if entries[i].is_dir && entries[i].name.as_str().to_lowercase() == wanted {
            return Some(entries[i].name.clone());
        }
        i = i + 1;
    }
    None
}

/// Decides the next step for `query`. `children` holds the entries of the
/// working directory once they were listed, `bookmarks` the saved paths
/// once they were read; neither is asked for before it is needed. Where
/// the matcher cannot be given the query and the bookmarks, the bookmarks
/// are not asked and the query is its own answer.
pub fn guess_step(
    query: &str,
    children: Option<&Vec<ChildEntry>>,
    bookmarks: Option<&Vec<String>>,
) -> (step: GuessStep)
    ensures
        is_absolute_path(query@) ==> step.answered() == Some(query@),
        !is_absolute_path(query@) ==> match children {
            None => step is ListChildren,
            Some(c) => match case_match(query@, child_views(c@)) {
                Some(name) => step.answered() == Some(name),
                None => match bookmarks {
                    None => step is ReadBookmarks,
                    Some(b) => {
                        &&& step.answered() is Some
                        &&& step.answered()->0 == query@ || views(b@).contains(
                            step.answered()->0,
                        )
                        &&& !matchable(query@, views(b@)) ==> step.answered()->0 == query@
                        &&& portable(views(b@)) ==> step.answered()->0 == answer(
                            query@,
                            child_views(c@),
                            views(b@),
                        )
                    },
                },
            },
        },
{
    if is_absolute(query) {
        return GuessStep::Answer(query.to_owned());
    }
    let entries = match children {
        Some(entries) => entries,
        None => {
            return GuessStep::ListChildren;
        },
    };
    if let Some(name) = find_case_insensitive(query, entries) {
        return GuessStep::Answer(name);
    }
    let saved = match bookmarks {
        Some(saved) => saved,
        None => {
            return GuessStep::ReadBookmarks;
        },
    };
    if !is_matchable(query, saved) {
        return GuessStep::Answer(query.to_owned());
    }
    match best_bookmark_match(query, saved) {
        Some(best) => GuessStep::Answer(best),
        None => GuessStep::Answer(query.to_owned()),
    }
}

/// The answer to `query`, given the entries of the working directory and
/// the bookmarks. An absolute query is handed back whatever the two hold,
/// and a directory of the working directory is found whatever the bookmarks
/// hold.
pub fn guess(query: &str, children: &Vec<ChildEntry>, bookmarks: &Vec<String>) -> (path: String)
    ensures
        is_absolute_path(query@) ==> path@ == query@,
        !is_absolute_path(query@) ==> (case_match(query@, child_views(children@)) matches Some(
            name,
        ) ==> path@ == name),
        !is_absolute_path(query@) && case_match(query@, child_views(children@)) is None ==> {
            &&& path@ == query@ || views(bookmarks@).contains(path@)
            &&& !matchable(query@, views(bookmarks@)) ==> path@ == query@
        },
        portable(views(bookmarks@)) ==> path@ == answer(
            query@,
            child_views(children@),
            views(bookmarks@),
        ),
{
    match guess_step(query, Some(children), Some(bookmarks)) {
        GuessStep::Answer(path) => path,
        _ => query.to_owned(),
    }
}

/// What `case_match` finds: the name of a directory that is the name but
/// for case, before which no such directory stands; and nothing exactly
/// where there is no such directory.
pub proof fn lemma_case_match(name: Seq<char>, entries: Seq<(Seq<char>, bool)>)
    ensures
        case_match(name, entries) is None <==> forall|i: int|
            0 <= i < entries.len() ==> !is_named(#[trigger] entries[i], name),
        case_match(name, entries) matches Some(found) ==> exists|k: int|
            0 <= k < entries.len() && (#[trigger] entries[k]).0 == found && is_named(
                entries[k],
                name,
            ) && forall|i: int| 0 <= i < k ==> !is_named(#[trigger] entries[i], name),
    decreases entries.len(),
{
    if entries.len() > 0 {
        let rest = entries.drop_first();
        if is_named(entries[0], name) {
            assert(entries[0].0 == case_match(name, entries)->0);
        } else {
            lemma_case_match(name, rest);
            assert forall|i: int| 0 <= i < rest.len() implies rest[i] == entries[i + 1] by {}
            if case_match(name, rest) is None {
                assert forall|i: int| 0 <= i < entries.len() implies !is_named(
                    #[trigger] entries[i],
                    name,
                ) by {
                    if i > 0 {
                        assert(rest[i - 1] == entries[i]);
                    }
                }
            } else {
                let found = case_match(name, rest)->0;
                let k = choose|k: int|
                    0 <= k < rest.len() && (#[trigger] rest[k]).0 == found && is_named(
                        rest[k],
                        name,
                    ) && forall|i: int| 0 <= i < k ==> !is_named(#[trigger] rest[i], name);
                assert(entries[k + 1] == rest[k]);
                assert forall|i: int| 0 <= i < k + 1 implies !is_named(
                    #[trigger] entries[i],
                    name,
                ) by {
                    if i > 0 {
                        assert(rest[i - 1] == entries[i]);
                    }
                }
            }
        }
    }
}

} // verus!
