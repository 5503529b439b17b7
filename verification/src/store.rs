//! The bookmark store: an ordered list of saved paths, kept in a text file
//! with one path on each line.

use vstd::prelude::*;
use vstd::string::*;
use crate::error::AppError;
use crate::keep::{
    keep, lemma_keep_all, lemma_keep_contains, lemma_keep_no_duplicates, lemma_keep_positions,
    lemma_positions, positions,
};
use crate::path::{is_absolute, is_absolute_path, join, joined_path};
use crate::text::{lemma_split_append, same_text, split, split_at, trim, trimmed, views};

verus! {

/// The bookmarks after `dir` was saved: unchanged where `dir` is among
/// them, else with `dir` at the end.
pub open spec fn saved(bookmarks: Seq<Seq<char>>, dir: Seq<char>) -> Seq<Seq<char>> {
    if bookmarks.contains(dir) {
        bookmarks
    } else {
        bookmarks.push(dir)
    }
}

/// Whether the bookmark at `i` is another one than `target`.
pub open spec fn is_other(bookmarks: Seq<Seq<char>>, target: Seq<char>, i: int) -> bool {
    bookmarks[i] != target
}

/// The bookmarks other than `target`, in their order.
pub open spec fn without(bookmarks: Seq<Seq<char>>, target: Seq<char>) -> Seq<Seq<char>> {
    keep(bookmarks, |i: int| is_other(bookmarks, target, i))
}

/// The bookmarks whose flag in `exists` is set, in their order.
pub open spec fn pruned(bookmarks: Seq<Seq<char>>, exists: Seq<bool>) -> Seq<Seq<char>> {
    keep(bookmarks, |i: int| exists[i])
}

/// The lines of a file's text, each without the whitespace at its ends.
pub open spec fn trimmed_lines(text: Seq<char>) -> Seq<Seq<char>> {
    split(text, '\n').map_values(|line: Seq<char>| trimmed(line))
}

/// Whether the line at `i` holds anything.
pub open spec fn is_filled(lines: Seq<Seq<char>>, i: int) -> bool {
    lines[i].len() > 0
}

/// The bookmarks that a file's text holds: each line without the whitespace
/// at its ends, blank lines left out.
pub open spec fn parsed(text: Seq<char>) -> Seq<Seq<char>> {
    keep(trimmed_lines(text), |i: int| is_filled(trimmed_lines(text), i))
}

/// A bookmark that a file gives back as it was written: it holds something,
/// no line feed, and no whitespace at its ends.
pub open spec fn is_clean(bookmark: Seq<char>) -> bool {
    bookmark.len() > 0 && !bookmark.contains('\n') && trimmed(bookmark) == bookmark
}

/// The text of a file that holds `bookmarks`: each one followed by a line
/// feed.
pub open spec fn formatted(bookmarks: Seq<Seq<char>>) -> Seq<char>
    decreases bookmarks.len(),
{
    if bookmarks.len() == 0 {
        Seq::empty()
    } else {
        (formatted(bookmarks.drop_last()) + bookmarks.last()).push('\n')
    }
}

/// The bookmark file below the data directory `data_dir`.
pub open spec fn store_location(data_dir: Seq<char>) -> Seq<char> {
    joined_path(joined_path(data_dir, "pathmarks"@), "bookmarks.txt"@)
}

/// Whether `target` is among `bookmarks`.
pub fn contains(bookmarks: &Vec<String>, target: &str) -> (found: bool)
    ensures
        found == views(bookmarks@).contains(target@),
{
    let mut i: usize = 0;
    while i < bookmarks.len()
        invariant
            i <= bookmarks.len(),
            forall|k: int| 0 <= k < i ==> views(bookmarks@)[k] != target@,
        decreases bookmarks.len() - i,
    {
        if same_text(bookmarks[i].as_str(), target) {
            proof {
                assert(views(bookmarks@)[i as int] == target@);
            }
            return true;
        }
        i = i + 1;
    }
    false
}

/// Saves `dir`: appends it unless it is saved already.
pub fn save(bookmarks: &mut Vec<String>, dir: String)
    ensures
        views(final(bookmarks)@) == saved(views(old(bookmarks)@), dir@),
{
    if !contains(bookmarks, dir.as_str()) {
        bookmarks.push(dir);
    }
}

/// Removes every bookmark equal to `target`. Where there is none, the
/// bookmarks stay as they are and the target is reported as not found.
pub fn remove(bookmarks: &mut Vec<String>, target: &str) -> (done: Result<(), AppError>)
    ensures
        done is Ok <==> views(old(bookmarks)@).contains(target@),
        done is Ok ==> views(final(bookmarks)@) == without(views(old(bookmarks)@), target@),
        done is Err ==> *final(bookmarks) == *old(bookmarks),
        done matches Err(e) ==> e matches AppError::NotFound(p) && p@ == target@,
{
    let ghost all = views(bookmarks@);
    let ghost wanted = |i: int| is_other(all, target@, i);
    let mut left: Vec<String> = Vec::new();
    let mut i: usize = 0;
    while i < bookmarks.len()
        invariant
            i <= bookmarks.len(),
            all == views(bookmarks@),
            wanted == |i: int| is_other(all, target@, i),
            views(left@) == keep(all.take(i as int), wanted),
            left.len() == i <==> forall|k: int| 0 <= k < i ==> all[k] != target@,
            left.len() <= i,
        decreases bookmarks.len() - i,
    {
        proof {
            assert(all.take(i + 1).drop_last() == all.take(i as int));
            assert(all[i as int] == bookmarks[i as int]@);
        }
        if !same_text(bookmarks[i].as_str(), target) {
            left.push(bookmarks[i].clone());
        }
        i = i + 1;
    }
    proof {
        assert(all.take(all.len() as int) == all);
    }
    if left.len() == bookmarks.len() {
        return Err(AppError::NotFound(target.to_owned()));
    }
    proof {
        let k = choose|k: int| 0 <= k < all.len() && all[k] == target@;
        assert(all[k] == target@);
    }
    *bookmarks = left;
    Ok(())
}

/// Removes the bookmark that `path` names, which must be absolute: a path
/// that is not is refused before the bookmarks are looked at.
pub fn remove_path(bookmarks: &mut Vec<String>, path: &str) -> (done: Result<(), AppError>)
    ensures
        done is Ok <==> is_absolute_path(path@) && views(old(bookmarks)@).contains(path@),
        done is Ok ==> views(final(bookmarks)@) == without(views(old(bookmarks)@), path@),
        done is Err ==> *final(bookmarks) == *old(bookmarks),
        done matches Err(e) ==> if is_absolute_path(path@) {
            e matches AppError::NotFound(p) && p@ == path@
        } else {
            e is InvalidPath
        },
{
    if !is_absolute(path) {
        return Err(AppError::InvalidPath);
    }
    remove(bookmarks, path)
}

/// Keeps the bookmarks whose flag is set. `exists[i]` says whether the path
/// of the bookmark at `i` was found on disk.
pub fn prune(bookmarks: &Vec<String>, exists: &Vec<bool>) -> (left: Vec<String>)
    requires
        exists.len() == bookmarks.len(),
    ensures
        views(left@) == pruned(views(bookmarks@), exists@),
{
    let ghost all = views(bookmarks@);
    let ghost wanted = |i: int| exists@[i];
    let mut left: Vec<String> = Vec::new();
    let mut i: usize = 0;
    while i < bookmarks.len()
        invariant
            i <= bookmarks.len(),
            exists.len() == bookmarks.len(),
            all == views(bookmarks@),
            wanted == |i: int| exists@[i],
            views(left@) == keep(all.take(i as int), wanted),
        decreases bookmarks.len() - i,
    {
        proof {
            assert(all.take(i + 1).drop_last() == all.take(i as int));
            assert(all[i as int] == bookmarks[i as int]@);
        }
        if exists[i] {
            left.push(bookmarks[i].clone());
        }
        i = i + 1;
    }
    proof {
        assert(all.take(all.len() as int) == all);
    }
    left
}

/// Reads the bookmarks out of the text of the bookmark file.
pub fn parse_bookmarks(text: &str) -> (bookmarks: Vec<String>)
    ensures
        views(bookmarks@) == parsed(text@),
{
    let pieces = split_at(text, '\n');
    let ghost lines = trimmed_lines(text@);
    let ghost wanted = |i: int| is_filled(lines, i);
    let mut bookmarks: Vec<String> = Vec::new();
    let mut i: usize = 0;
    while i < pieces.len()
        invariant
            i <= pieces.len(),
            views(pieces@) == split(text@, '\n'),
            lines == trimmed_lines(text@),
            wanted == |i: int| is_filled(lines, i),
            views(bookmarks@) == keep(lines.take(i as int), wanted),
        decreases pieces.len() - i,
    {
        proof {
            assert(lines.take(i + 1).drop_last() == lines.take(i as int));
            assert(views(pieces@)[i as int] == pieces[i as int]@);
        }
        let line = trim(pieces[i].as_str());
        if !line.as_str().is_empty() {
            bookmarks.push(line);
        }
        i = i + 1;
    }
    proof {
        assert(lines.take(lines.len() as int) == lines);
    }
    bookmarks
}

/// Writes the text of the bookmark file: one line for each bookmark.
pub fn format_bookmarks(bookmarks: &Vec<String>) -> (text: String)
    ensures
        text@ == formatted(views(bookmarks@)),
{
    let mut text = String::new();
    let mut i: usize = 0;
    while i < bookmarks.len()
        invariant
            i <= bookmarks.len(),
            text@ == formatted(views(bookmarks@).take(i as int)),
        decreases bookmarks.len() - i,
    {
        proof {
            let all = views(bookmarks@);
            assert(all.take(i + 1).drop_last() == all.take(i as int));
        }
        text.append(bookmarks[i].as_str());
        text.push('\n');
        i = i + 1;
    }
    proof {
        let all = views(bookmarks@);
        assert(all.take(all.len() as int) == all);
    }
    text
}

/// Where the bookmark file lies, given the data directory that the platform
/// names, if it names one.
pub fn bookmarks_file(data_dir: Option<&str>) -> (file: Result<String, AppError>)
    ensures
        match data_dir {
            Some(dir) => file matches Ok(f) && f@ == store_location(dir@),
            None => file matches Err(e) && e is DataDirectoryUnavailable,
        },
{
    match data_dir {
        Some(dir) => {
            let folder = join(dir, "pathmarks");
            Ok(join(folder.as_str(), "bookmarks.txt"))
        },
        None => Err(AppError::DataDirectoryUnavailable),
    }
}

/// Saving a directory twice is saving it once; saved into an empty store
/// twice, it stands there once.
pub proof fn lemma_save_idempotent(bookmarks: Seq<Seq<char>>, dir: Seq<char>)
    ensures
        saved(saved(bookmarks, dir), dir) == saved(bookmarks, dir),
        saved(saved(Seq::empty(), dir), dir) == seq![dir],
{
    let once = saved(bookmarks, dir);
    if !bookmarks.contains(dir) {
        assert(once[bookmarks.len() as int] == dir);
    }
    let first = saved(Seq::<Seq<char>>::empty(), dir);
    assert(first == seq![dir]);
    assert(first[0] == dir);
}

/// Saving keeps the bookmarks free of repetitions and adds nothing but the
/// saved directory.
pub proof fn lemma_save_keeps_distinct(bookmarks: Seq<Seq<char>>, dir: Seq<char>)
    requires
        bookmarks.no_duplicates(),
    ensures
        saved(bookmarks, dir).no_duplicates(),
        saved(bookmarks, dir).contains(dir),
        bookmarks.is_prefix_of(saved(bookmarks, dir)),
{
    let after = saved(bookmarks, dir);
    if bookmarks.contains(dir) {
        assert(after == bookmarks);
    } else {
        assert(after[bookmarks.len() as int] == dir);
        assert forall|j: int, k: int| 0 <= j < after.len() && 0 <= k < after.len() && j != k implies after[j]
            != after[k] by {
            if j < bookmarks.len() && k < bookmarks.len() {
                assert(bookmarks[j] != bookmarks[k]);
            } else if j < bookmarks.len() {
                assert(bookmarks.contains(bookmarks[j]));
            } else {
                assert(bookmarks.contains(bookmarks[k]));
            }
        }
    }
}

/// What removal leaves: the target is gone, every other bookmark is still
/// there, no repetition is new, and a store without the target is as it was.
pub proof fn lemma_without(bookmarks: Seq<Seq<char>>, target: Seq<char>)
    ensures
        !without(bookmarks, target).contains(target),
        forall|x: Seq<char>|
            x != target ==> (#[trigger] without(bookmarks, target).contains(x)
                <==> bookmarks.contains(x)),
        bookmarks.no_duplicates() ==> without(bookmarks, target).no_duplicates(),
        !bookmarks.contains(target) ==> without(bookmarks, target) == bookmarks,
        without(bookmarks, target).len() <= bookmarks.len(),
{
    let wanted = |i: int| is_other(bookmarks, target, i);
    lemma_keep_contains(bookmarks, wanted, target);
    assert forall|x: Seq<char>| x != target implies (#[trigger] without(bookmarks, target).contains(
        x,
    ) <==> bookmarks.contains(x)) by {
        lemma_keep_contains(bookmarks, wanted, x);
        if bookmarks.contains(x) {
            let i = choose|i: int| 0 <= i < bookmarks.len() && bookmarks[i] == x;
            assert(wanted(i));
        }
    }
    if bookmarks.no_duplicates() {
        lemma_keep_no_duplicates(bookmarks, wanted);
    }
    if !bookmarks.contains(target) {
        assert forall|i: int| 0 <= i < bookmarks.len() implies #[trigger] wanted(i) by {
            assert(bookmarks.contains(bookmarks[i]));
        }
        lemma_keep_all(bookmarks, wanted);
    }
    lemma_keep_positions(bookmarks, wanted);
    lemma_positions(bookmarks.len(), wanted);
}

/// The places of the bookmarks that pruning keeps, ascending.
pub open spec fn kept_places(exists: Seq<bool>) -> Seq<int> {
    positions(exists.len(), |i: int| exists[i])
}

/// Pruning keeps exactly the bookmarks whose paths exist, in the order they
/// had: the bookmark at `k` afterwards is the one that stood at the `k`-th
/// place whose flag is set.
pub proof fn lemma_pruned(bookmarks: Seq<Seq<char>>, exists: Seq<bool>)
    requires
        exists.len() == bookmarks.len(),
    ensures
        pruned(bookmarks, exists).len() == kept_places(exists).len(),
        forall|k: int|
            0 <= k < kept_places(exists).len() ==> 0 <= #[trigger] kept_places(exists)[k]
                < bookmarks.len() && exists[kept_places(exists)[k]] && pruned(bookmarks, exists)[k]
                == bookmarks[kept_places(exists)[k]],
        forall|j: int, k: int|
            0 <= j < k < kept_places(exists).len() ==> #[trigger] kept_places(exists)[j]
                < #[trigger] kept_places(exists)[k],
        forall|i: int| 0 <= i < exists.len() && exists[i] ==> kept_places(exists).contains(i),
        bookmarks.no_duplicates() ==> pruned(bookmarks, exists).no_duplicates(),
{
    let wanted = |i: int| exists[i];
    lemma_keep_positions(bookmarks, wanted);
    lemma_positions(bookmarks.len(), wanted);
    assert forall|i: int| 0 <= i < exists.len() && exists[i] implies kept_places(exists).contains(
        i,
    ) by {
        assert(wanted(i));
    }
    if bookmarks.no_duplicates() {
        lemma_keep_no_duplicates(bookmarks, wanted);
    }
}

/// The text written for bookmarks without line feeds has one line for each
/// and nothing after the last line feed.
pub proof fn lemma_formatted_lines(bookmarks: Seq<Seq<char>>)
    requires
        forall|i: int| 0 <= i < bookmarks.len() ==> !(#[trigger] bookmarks[i]).contains('\n'),
    ensures
        split(formatted(bookmarks), '\n') == bookmarks.push(Seq::empty()),
    decreases bookmarks.len(),
{
    let none = Seq::<char>::empty();
    if bookmarks.len() == 0 {
        assert(split(none, '\n') == seq![none]);
        assert(bookmarks.push(none) == seq![none]);
    } else {
        let before = bookmarks.drop_last();
        let last = bookmarks.last();
        lemma_formatted_lines(before);
        let head = formatted(before);
        lemma_split_append(head, last, '\n');
        assert(before.push(none).drop_last() == before);
        assert(none + last == last);
        assert(before.push(last) == bookmarks);
        assert((head + last).push('\n').drop_last() == head + last);
    }
}

/// Clean bookmarks come back from the file as they were written to it.
pub proof fn lemma_parse_formatted(bookmarks: Seq<Seq<char>>)
    requires
        forall|i: int| 0 <= i < bookmarks.len() ==> is_clean(#[trigger] bookmarks[i]),
    ensures
        parsed(formatted(bookmarks)) == bookmarks,
{
    let none = Seq::<char>::empty();
    let text = formatted(bookmarks);
    lemma_formatted_lines(bookmarks);
    let lines = trimmed_lines(text);
    assert(trimmed(none) == none);
    assert(lines == bookmarks.push(none)) by {
        assert(lines.len() == bookmarks.len() + 1);
        assert forall|i: int| 0 <= i < lines.len() implies lines[i] == bookmarks.push(none)[i] by {
            if i < bookmarks.len() {
                assert(is_clean(bookmarks[i]));
            }
        }
    }
    let wanted = |i: int| is_filled(lines, i);
    assert(lines.drop_last() == bookmarks);
    assert(!wanted(lines.len() - 1));
    assert forall|i: int| 0 <= i < bookmarks.len() implies #[trigger] wanted(i) by {
        assert(is_clean(bookmarks[i]));
    }
    lemma_keep_all(bookmarks, wanted);
}

} // verus!
