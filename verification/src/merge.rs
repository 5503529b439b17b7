//! Merging the candidates of two sources into one list in which every path
//! stands once, where it was first seen.

use vstd::prelude::*;
use vstd::hash_set::StringHashSet;
use vstd::string::*;
use crate::keep::{keep, lemma_keep_agree, lemma_keep_positions, lemma_positions, positions};
use crate::text::views;

verus! {

/// Whether the path at `i` stands nowhere before `i` in `paths`.
pub open spec fn is_first(paths: Seq<Seq<char>>, i: int) -> bool {
    !paths.take(i).contains(paths[i])
}

/// `paths` without repetitions: every path where it first stands.
pub open spec fn unique(paths: Seq<Seq<char>>) -> Seq<Seq<char>> {
    keep(paths, |i: int| is_first(paths, i))
}

/// The merged candidates: those of `primary`, then those of `secondary`
/// that were not seen before, nothing twice.
pub open spec fn merged(primary: Seq<Seq<char>>, secondary: Seq<Seq<char>>) -> Seq<Seq<char>> {
    unique(primary + secondary)
}

/// Merges the directories below the working directory with the saved
/// paths and keeps the two sources apart: first the directories, each
/// once, then the saved paths that are not among them, each once. One after
/// the other the two parts are the merged list.
pub fn merge_sources(cwd_dirs: Vec<String>, paths: Vec<String>) -> (parts: (Vec<String>, Vec<String>))
    ensures
        views(parts.0@) == unique(views(cwd_dirs@)),
        views(parts.0@) + views(parts.1@) == merged(views(cwd_dirs@), views(paths@)),
{
    let ghost all = views(cwd_dirs@) + views(paths@);
    let ghost wanted = |i: int| is_first(all, i);
    let mut seen = StringHashSet::new();
    let mut dirs: Vec<String> = Vec::new();
    let mut i: usize = 0;
    while i < cwd_dirs.len()
        invariant
            i <= cwd_dirs.len(),
            all == views(cwd_dirs@) + views(paths@),
            wanted == |i: int| is_first(all, i),
            seen@ == all.take(i as int).to_set(),
            views(dirs@) == keep(all.take(i as int), wanted),
        decreases cwd_dirs.len() - i,
    {
        let directory = cwd_dirs[i].clone();
        proof {
            assert(all[i as int] == directory@);
            lemma_take_next(all, i as int);
        }
        if seen.insert(directory.clone()) {
            dirs.push(directory);
        }
        i = i + 1;
    }
    let n = cwd_dirs.len();
    proof {
        let own = views(cwd_dirs@);
        assert(all.take(n as int) == own);
        assert forall|k: int| 0 <= k < n implies is_first(all, k) == is_first(own, k) by {
            assert(all.take(k) == own.take(k));
        }
        lemma_keep_agree(own, wanted, |i: int| is_first(own, i));
    }
    let mut saved: Vec<String> = Vec::new();
    let mut j: usize = 0;
    while j < paths.len()
        invariant
            j <= paths.len(),
            n == cwd_dirs.len(),
            all == views(cwd_dirs@) + views(paths@),
            wanted == |i: int| is_first(all, i),
            seen@ == all.take(n + j).to_set(),
            views(dirs@) + views(saved@) == keep(all.take(n + j), wanted),
        decreases paths.len() - j,
    {
        let path = paths[j].clone();
        proof {
            assert(all[n + j] == path@);
            lemma_take_next(all, n + j);
        }
        let ghost before = views(saved@);
        if seen.insert(path.clone()) {
            saved.push(path);
            proof {
                assert(views(saved@) == before.push(path@));
                assert(views(dirs@) + before.push(path@) == (views(dirs@) + before).push(path@));
            }
        }
        j = j + 1;
    }
    proof {
        assert(all.take(all.len() as int) == all);
    }
    (dirs, saved)
}

/// Merges the directories below the working directory with the saved
/// paths. The directories come first, so where both sources name a path it
/// stands among the directories.
pub fn merge_with_cwd_dirs(cwd_dirs: Vec<String>, paths: Vec<String>) -> (list: Vec<String>)
    ensures
        views(list@) == merged(views(cwd_dirs@), views(paths@)),
{
    let (mut list, mut saved) = merge_sources(cwd_dirs, paths);
    let ghost dirs = views(list@);
    let ghost rest = views(saved@);
    list.append(&mut saved);
    proof {
        assert(views(list@) =~= dirs + rest);
    }
    list
}

/// One step further into `all`: the part before it grows by one path, and
/// so does the set of what was seen.
proof fn lemma_take_next(all: Seq<Seq<char>>, k: int)
    requires
        0 <= k < all.len(),
    ensures
        all.take(k + 1).drop_last() == all.take(k),
        all.take(k + 1).to_set() == all.take(k).to_set().insert(all[k]),
{
    let x = all[k];
    assert(all.take(k + 1).drop_last() == all.take(k));
    assert(all.take(k + 1) == all.take(k).push(x));
    assert forall|y: Seq<char>| #[trigger]
        all.take(k + 1).contains(y) <==> (all.take(k).contains(y) || y == x) by {
        if all.take(k).contains(y) {
            let m = choose|m: int| 0 <= m < k && all.take(k)[m] == y;
            assert(all.take(k + 1)[m] == y);
        }
        if y == x {
            assert(all.take(k + 1)[k] == y);
        }
    }
    assert(all.take(k + 1).to_set() =~= all.take(k).to_set().insert(x));
}

/// One more path at the end is kept exactly where it was not seen before.
pub proof fn lemma_unique_push(paths: Seq<Seq<char>>, x: Seq<char>)
    ensures
        unique(paths.push(x)) == if paths.contains(x) {
            unique(paths)
        } else {
            unique(paths).push(x)
        },
{
    let longer = paths.push(x);
    let n = paths.len() as int;
    assert(longer.drop_last() == paths);
    assert(longer.take(n) == paths);
    assert forall|i: int| 0 <= i < n implies is_first(longer, i) == is_first(paths, i) by {
        assert(longer.take(i) == paths.take(i));
    }
    lemma_keep_agree(paths, |i: int| is_first(longer, i), |i: int| is_first(paths, i));
}

/// Merging loses no path and invents none.
pub proof fn lemma_unique_contains(paths: Seq<Seq<char>>, x: Seq<char>)
    ensures
        unique(paths).contains(x) <==> paths.contains(x),
    decreases paths.len(),
{
    if paths.len() > 0 {
        let before = paths.drop_last();
        let last = paths.last();
        assert(before.push(last) == paths);
        lemma_unique_push(before, last);
        lemma_unique_contains(before, x);
        lemma_unique_contains(before, last);
        if paths.contains(x) {
            let k = choose|k: int| 0 <= k < paths.len() && paths[k] == x;
            if k < before.len() {
                assert(before[k] == x);
            }
        }
        if before.contains(x) {
            let k = choose|k: int| 0 <= k < before.len() && before[k] == x;
            assert(paths[k] == x);
        }
        if x == last {
            assert(paths[paths.len() - 1] == x);
        }
        let u = unique(before);
        if !before.contains(last) {
            if u.contains(x) {
                let k = choose|k: int| 0 <= k < u.len() && u[k] == x;
                assert(u.push(last)[k] == x);
            }
            if x == last {
                assert(u.push(last)[u.len() as int] == x);
            }
            if u.push(last).contains(x) {
                let k = choose|k: int| 0 <= k < u.push(last).len() && u.push(last)[k] == x;
                if k < u.len() {
                    assert(u[k] == x);
                }
            }
        }
    }
}

/// In a merged list no path stands twice.
pub proof fn lemma_unique_no_duplicates(paths: Seq<Seq<char>>)
    ensures
        unique(paths).no_duplicates(),
    decreases paths.len(),
{
    if paths.len() > 0 {
        let before = paths.drop_last();
        let last = paths.last();
        assert(before.push(last) == paths);
        lemma_unique_push(before, last);
        lemma_unique_no_duplicates(before);
        lemma_unique_contains(before, last);
    }
}

/// A list in which no path stands twice is left as it is.
pub proof fn lemma_unique_keeps_distinct(paths: Seq<Seq<char>>)
    requires
        paths.no_duplicates(),
    ensures
        unique(paths) == paths,
    decreases paths.len(),
{
    if paths.len() > 0 {
        let before = paths.drop_last();
        let last = paths.last();
        assert(before.push(last) == paths);
        lemma_unique_push(before, last);
        lemma_unique_keeps_distinct(before);
        if before.contains(last) {
            let k = choose|k: int| 0 <= k < before.len() && before[k] == last;
            assert(paths[k] == paths[paths.len() - 1]);
        }
    }
}

/// Merging a merged list with nothing changes nothing.
pub proof fn lemma_merge_idempotent(primary: Seq<Seq<char>>, secondary: Seq<Seq<char>>)
    ensures
        merged(merged(primary, secondary), Seq::empty()) == merged(primary, secondary),
{
    let once = merged(primary, secondary);
    assert(once + Seq::<Seq<char>>::empty() == once);
    lemma_unique_no_duplicates(primary + secondary);
    lemma_unique_keeps_distinct(once);
}

/// The merged list begins with the first source, merged with itself: a path
/// that both sources name stands where the first source has it.
pub proof fn lemma_merge_primary_first(primary: Seq<Seq<char>>, secondary: Seq<Seq<char>>)
    ensures
        unique(primary).is_prefix_of(merged(primary, secondary)),
    decreases secondary.len(),
{
    if secondary.len() == 0 {
        assert(primary + secondary == primary);
    } else {
        let before = secondary.drop_last();
        assert((primary + before).push(secondary.last()) == primary + secondary);
        lemma_unique_push(primary + before, secondary.last());
        lemma_merge_primary_first(primary, before);
    }
}

/// The positions of `paths` at which a path stands for the first time,
/// ascending.
pub open spec fn first_places(paths: Seq<Seq<char>>) -> Seq<int> {
    positions(paths.len(), |i: int| is_first(paths, i))
}

/// The merged paths stand in the order in which they were first seen: the
/// path at `k` is the one at the `k`-th place of the sources at which a
/// path stands for the first time.
pub proof fn lemma_unique_order(paths: Seq<Seq<char>>)
    ensures
        unique(paths).len() == first_places(paths).len(),
        forall|k: int|
            0 <= k < unique(paths).len() ==> 0 <= #[trigger] first_places(paths)[k] < paths.len()
                && is_first(paths, first_places(paths)[k]) && unique(paths)[k]
                == paths[first_places(paths)[k]],
        forall|j: int, k: int|
            0 <= j < k < unique(paths).len() ==> #[trigger] first_places(paths)[j]
                < #[trigger] first_places(paths)[k],
{
    lemma_keep_positions(paths, |i: int| is_first(paths, i));
    lemma_positions(paths.len(), |i: int| is_first(paths, i));
}

} // verus!
