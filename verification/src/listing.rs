//! What is listed: the directories below the working directory, in the
//! order of their names, and the merged candidates as they are shown, seen
//! from the working directory where they lie below it.

use vstd::prelude::*;
use vstd::string::*;
use crate::keep::keep;
use crate::path::{join, joined_path, relative_if_descendant, relative_resolved};
use crate::text::views;

verus! {

/// What was found of one entry of a directory: its name, and whether it is
/// a directory or a link that leads to one.
pub struct ChildEntry {
    pub name: String,
    pub is_dir: bool,
}

impl View for ChildEntry {
    type V = (Seq<char>, bool);

    open spec fn view(&self) -> (Seq<char>, bool) {
        (self.name@, self.is_dir)
    }
}

/// The views of the entries of a directory.
pub open spec fn child_views(entries: Seq<ChildEntry>) -> Seq<(Seq<char>, bool)> {
    entries.map_values(|e: ChildEntry| e@)
}

/// A name that starts with a dot is hidden.
pub open spec fn is_hidden(name: Seq<char>) -> bool {
    name.len() > 0 && name[0] == '.'
}

/// Whether the entry at `i` is listed: it is a directory, and it is not
/// hidden unless hidden ones are asked for.
pub open spec fn is_listed(entries: Seq<(Seq<char>, bool)>, include_hidden: bool, i: int) -> bool {
    entries[i].1 && (include_hidden || !is_hidden(entries[i].0))
}

/// The names of the entries that are listed, in the order of the entries.
pub open spec fn listed_names(entries: Seq<(Seq<char>, bool)>, include_hidden: bool) -> Seq<
    Seq<char>,
> {
    keep(entries.map_values(|e: (Seq<char>, bool)| e.0), |i: int| is_listed(entries, include_hidden, i))
}

/// The order of strings: character by character, a character with the
/// lower code point first, and a string before those it begins.
pub open spec fn text_le(a: Seq<char>, b: Seq<char>) -> bool
    decreases a.len(),
{
    if a.len() == 0 {
        true
    } else if b.len() == 0 {
        false
    } else if a[0] != b[0] {
        (a[0] as u32) < (b[0] as u32)
    } else {
        text_le(a.drop_first(), b.drop_first())
    }
}

/// Whether `names` stand in the order of strings.
pub open spec fn ascending(names: Seq<Seq<char>>) -> bool {
    forall|i: int, j: int| 0 <= i < j < names.len() ==> text_le(#[trigger] names[i], #[trigger] names[j])
}

/// How a candidate is shown from the working directory: by the path that
/// leads to it from there where it lies below, not at all where it is the
/// working directory itself, and as it is written otherwise.
pub open spec fn shown_from(
    cwd: Seq<char>,
    path: Seq<char>,
    resolved: Option<(Seq<char>, Seq<char>)>,
) -> Option<Seq<char>> {
    match relative_resolved(cwd, path, resolved) {
        Some(rel) => if rel == seq!['.'] {
            None
        } else {
            Some(rel)
        },
        None => Some(path),
    }
}

/// The views of resolved pairs of paths.
pub open spec fn resolved_views(resolved: Seq<Option<(String, String)>>) -> Seq<
    Option<(Seq<char>, Seq<char>)>,
> {
    resolved.map_values(
        |r: Option<(String, String)>|
            match r {
                Some((b, c)) => Some((b@, c@)),
                None => None,
            },
    )
}

/// The candidates as they are shown from the working directory, in their
/// order.
pub open spec fn shown_list(
    cwd: Seq<char>,
    paths: Seq<Seq<char>>,
    resolved: Seq<Option<(Seq<char>, Seq<char>)>>,
) -> Seq<Seq<char>>
    decreases paths.len(),
{
    if paths.len() == 0 {
        Seq::empty()
    } else {
        let before = shown_list(cwd, paths.drop_last(), resolved);
        match shown_from(cwd, paths.last(), resolved[paths.len() - 1]) {
            Some(text) => before.push(text),
            None => before,
        }
    }
}

/// `sort_unstable` on a vector of strings: afterwards it holds the same
/// strings as often as before, in the order of strings.
#[verifier::external_body]
fn sort_names(names: &mut Vec<String>)
    ensures
        views(final(names)@).to_multiset() == views(old(names)@).to_multiset(),
        ascending(views(final(names)@)),
{
    names.sort_unstable();
}

/// Whether `name` starts with a dot.
fn hidden(name: &str) -> (r: bool)
    ensures
        r == is_hidden(name@),
{
    !name.is_empty() && name.get_char(0) == '.'
}

/// Where a link found in `dir` leads: to its target where that is absolute,
/// else to the target as seen from `dir`.
pub fn link_target(dir: &str, target: &str) -> (path: String)
    ensures
        path@ == joined_path(dir@, target@),
{
    join(dir, target)
}

/// The directories among the entries of a directory, without the hidden
/// ones unless they are asked for, in the order of their names.
pub fn list_child_dirs(entries: &Vec<ChildEntry>, include_hidden: bool) -> (names: Vec<String>)
    ensures
        ascending(views(names@)),
        views(names@).to_multiset() == listed_names(
            child_views(entries@),
            include_hidden,
        ).to_multiset(),
{
    let ghost all = child_views(entries@);
    let ghost all_names = all.map_values(|e: (Seq<char>, bool)| e.0);
    let ghost wanted = |i: int| is_listed(all, include_hidden, i);
    let mut names: Vec<String> = Vec::new();
    let mut i: usize = 0;
    while i < entries.len()
        invariant
            i <= entries.len(),
            all == child_views(entries@),
            all_names == all.map_values(|e: (Seq<char>, bool)| e.0),
            wanted == |i: int| is_listed(all, include_hidden, i),
            views(names@) == keep(all_names.take(i as int), wanted),
        decreases entries.len() - i,
    {
        proof {
            assert(all_names.take(i + 1).drop_last() == all_names.take(i as int));
            assert(all[i as int] == entries[i as int]@);
        }
        if entries[i].is_dir && (include_hidden || !hidden(entries[i].name.as_str())) {
            names.push(entries[i].name.clone());
        }
        i = i + 1;
    }
    proof {
        assert(all_names.take(all_names.len() as int) == all_names);
    }
    sort_names(&mut names);
    names
}

/// How one candidate is shown from the working directory `cwd`. `resolved`
/// holds `cwd` and the candidate as the file system resolved them, where it
/// could resolve both.
pub fn shown_path(cwd: &str, path: &str, resolved: Option<(&str, &str)>) -> (text: Option<String>)
    ensures
        text is Some == shown_from(cwd@, path@, crate::path::resolved_view(resolved)) is Some,
        text matches Some(t) ==> shown_from(cwd@, path@, crate::path::resolved_view(resolved))
            == Some(t@),
{
    match relative_if_descendant(cwd, path, resolved) {
        Some(rel) => {
            let here = rel.as_str().unicode_len() == 1 && rel.as_str().get_char(0) == '.';
            proof {
                if here {
                    assert(rel@ =~= seq!['.']);
                } else if rel@.len() == 1 {
                    assert(seq!['.'][0] == '.');
                } else {
                    assert(seq!['.'].len() == 1);
                }
            }
            if here {
                None
            } else {
                Some(rel)
            }
        },
        None => Some(path.to_owned()),
    }
}

/// The merged candidates as they are shown from the working directory
/// `cwd`. `resolved[i]` holds `cwd` and the candidate at `i` as the file
/// system resolved them, where it could resolve both.
pub fn merged_directories(
    cwd: &str,
    paths: &Vec<String>,
    resolved: &Vec<Option<(String, String)>>,
) -> (list: Vec<String>)
    requires
        resolved.len() == paths.len(),
    ensures
        views(list@) == shown_list(cwd@, views(paths@), resolved_views(resolved@)),
{
    let ghost all = views(paths@);
    let ghost pairs = resolved_views(resolved@);
    let mut list: Vec<String> = Vec::new();
    let mut i: usize = 0;
    while i < paths.len()
        invariant
            i <= paths.len(),
            resolved.len() == paths.len(),
            all == views(paths@),
            pairs == resolved_views(resolved@),
            views(list@) == shown_list(cwd@, all.take(i as int), pairs),
        decreases paths.len() - i,
    {
        proof {
            assert(all.take(i + 1).drop_last() == all.take(i as int));
            assert(all[i as int] == paths[i as int]@);
        }
        let pair = match &resolved[i] {
            Some((b, c)) => Some((b.as_str(), c.as_str())),
            None => None,
        };
        proof {
            assert(crate::path::resolved_view(pair) == pairs[i as int]);
        }
        if let Some(text) = shown_path(cwd, paths[i].as_str(), pair) {
            list.push(text);
        }
        i = i + 1;
    }
    proof {
        assert(all.take(all.len() as int) == all);
    }
    list
}

} // verus!
