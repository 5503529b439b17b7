//! What an interactive selection is given and what its answer means: the
//! candidates of two lists, each marked with the list it came from, and the
//! path that a selected position stands for.

use vstd::prelude::*;
use vstd::string::*;
use crate::text::views;

verus! {

/// Starts italic text on a terminal.
pub const ITALIC: &'static str = "\x1b[3m";

/// Starts dimmed text on a terminal.
pub const DIM: &'static str = "\x1b[2m";

/// Ends every text attribute on a terminal.
pub const RESET: &'static str = "\x1b[0m";

/// The list a candidate came from.
#[derive(Clone, Copy, Debug)]
pub enum Source {
    /// The list shown plain.
    First,
    /// The list shown dimmed and italic.
    Second,
}

/// A candidate: a path and the list it came from.
pub struct Entry<'a> {
    pub path: &'a String,
    pub source: Source,
}

impl<'a> View for Entry<'a> {
    type V = (Seq<char>, Source);

    open spec fn view(&self) -> (Seq<char>, Source) {
        (self.path@, self.source)
    }
}

/// The views of a sequence of candidates.
pub open spec fn entry_views(entries: Seq<Entry>) -> Seq<(Seq<char>, Source)> {
    entries.map_values(|e: Entry| e@)
}

/// `paths`, each marked as coming from `source`.
pub open spec fn marked(paths: Seq<Seq<char>>, source: Source) -> Seq<(Seq<char>, Source)> {
    paths.map_values(|p: Seq<char>| (p, source))
}

/// The text shown for a candidate: the path itself for the first list, the
/// path dimmed and italic for the second. The source changes nothing else.
pub open spec fn shown(path: Seq<char>, source: Source) -> Seq<char> {
    match source {
        Source::First => path,
        Source::Second => DIM@ + ITALIC@ + path + RESET@,
    }
}

/// Renders a position in a list of candidates from two lists.
pub struct DualListIndexRenderer<'a> {
    entries: &'a [Entry<'a>],
}

impl<'a> View for DualListIndexRenderer<'a> {
    type V = Seq<(Seq<char>, Source)>;

    closed spec fn view(&self) -> Seq<(Seq<char>, Source)> {
        entry_views(self.entries@)
    }
}

impl<'a> DualListIndexRenderer<'a> {
    /// A renderer over `entries`.
    pub fn new(entries: &'a [Entry<'a>]) -> (renderer: Self)
        ensures
            renderer@ == entry_views(entries@),
    {
        Self { entries }
    }

    /// The text shown for the candidate at `idx`.
    pub fn render(&self, idx: &usize) -> (text: String)
        requires
            *idx < self@.len(),
        ensures
            text@ == shown(self@[*idx as int].0, self@[*idx as int].1),
    {
        let entry = &self.entries[*idx];
        match entry.source {
            Source::First => entry.path.clone(),
            Source::Second => {
                let mut text = String::from_str(DIM);
                text.append(ITALIC);
                text.append(entry.path.as_str());
                text.append(RESET);
                text
            },
        }
    }
}

/// The candidates of two lists: those of `first`, then those of `second`,
/// each marked with its list and in the order of its list.
pub fn dual_entries<'a>(first: &'a [String], second: &'a [String]) -> (entries: Vec<Entry<'a>>)
    ensures
        entry_views(entries@) == marked(views(first@), Source::First) + marked(
            views(second@),
            Source::Second,
        ),
{
    let mut entries: Vec<Entry<'a>> = Vec::new();
    let mut i: usize = 0;
    while i < first.len()
        invariant
            i <= first.len(),
            entries.len() == i,
            entry_views(entries@) == marked(views(first@), Source::First).take(i as int),
        decreases first.len() - i,
    {
        entries.push(Entry { path: &first[i], source: Source::First });
        proof {
            let all = marked(views(first@), Source::First);
            assert(entries@[i as int]@ == all[i as int]);
            assert(entry_views(entries@) =~= all.take(i + 1));
        }
        i = i + 1;
    }
    let ghost head = marked(views(first@), Source::First);
    let mut j: usize = 0;
    while j < second.len()
        invariant
            j <= second.len(),
            entries.len() == first.len() + j,
            head == marked(views(first@), Source::First),
            entry_views(entries@) == head + marked(views(second@), Source::Second).take(j as int),
        decreases second.len() - j,
    {
        let ghost before = entry_views(entries@);
        entries.push(Entry { path: &second[j], source: Source::Second });
        proof {
            let all = marked(views(second@), Source::Second);
            let now = entry_views(entries@);
            assert(entries@[first.len() + j]@ == all[j as int]);
            assert forall|k: int| 0 <= k < now.len() implies now[k] == (head + all.take(j + 1))[k] by {
                if k < before.len() {
                    assert(now[k] == before[k]);
                }
            }
            assert(now =~= head + all.take(j + 1));
        }
        j = j + 1;
    }
    entries
}

/// The path that a selection of a position in `items` stands for; a
/// selection that was given up stands for none.
pub fn picked<'a>(items: &'a [String], selected: Option<usize>) -> (path: Option<&'a String>)
    requires
        selected matches Some(i) ==> i < items.len(),
    ensures
        match selected {
            Some(i) => path == Some(&items[i as int]),
            None => path is None,
        },
{
    match selected {
        Some(i) => Some(&items[i]),
        None => None,
    }
}

/// The path that a selection of a position among `entries` stands for; a
/// selection that was given up stands for none.
pub fn picked_entry<'a>(entries: &[Entry<'a>], selected: Option<usize>) -> (path: Option<
    &'a String,
>)
    requires
        selected matches Some(i) ==> i < entries.len(),
    ensures
        match selected {
            Some(i) => path == Some(entries[i as int].path),
            None => path is None,
        },
{
    match selected {
        Some(i) => Some(entries[i].path),
        None => None,
    }
}

} // verus!
