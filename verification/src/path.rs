//! Paths as text: a path is a sequence of characters in which `/` parts the
//! segments. Nothing here looks at the file system.

use vstd::prelude::*;
use vstd::string::*;
use crate::keep::{
    keep, lemma_keep_all, lemma_keep_none, lemma_keep_positions, lemma_positions, positions,
};
use crate::text::{
    join_with, joined, lemma_split_joined, lemma_split_pieces, split, split_at, views,
};

verus! {

/// A path is absolute when it starts at the root.
pub open spec fn is_absolute_path(p: Seq<char>) -> bool {
    p.len() > 0 && p[0] == '/'
}

/// A piece between two separators names something unless it is empty or a
/// single dot, which stands for the directory it is found in.
pub open spec fn is_name(piece: Seq<char>) -> bool {
    piece.len() > 0 && piece != seq!['.']
}

/// The names along a path: its pieces between separators, without the empty
/// ones and the single dots.
pub open spec fn segments(p: Seq<char>) -> Seq<Seq<char>> {
    keep(split(p, '/'), |i: int| is_name(split(p, '/')[i]))
}

/// `rest` seen from `dir`: `rest` itself where it is absolute, else `dir`,
/// a separator unless `dir` is empty or ends in one, and `rest`.
pub open spec fn joined_path(dir: Seq<char>, rest: Seq<char>) -> Seq<char> {
    if is_absolute_path(rest) {
        rest
    } else if dir.len() == 0 || dir.last() == '/' {
        dir + rest
    } else {
        dir.push('/') + rest
    }
}

/// `child` as seen from `base`, where both are absolute and the names of
/// `base` begin those of `child`: a single dot where nothing is left, else
/// the names that are left, with one separator between neighbours. The
/// result is written anew from the names: doubled separators and single
/// dots that `child` holds between them are not kept, so `/w/b//c` and
/// `/w/b/./c` are both `b/c` as seen from `/w`.
pub open spec fn relative(base: Seq<char>, child: Seq<char>) -> Option<Seq<char>> {
    let b = segments(base);
    let c = segments(child);
    if is_absolute_path(base) && is_absolute_path(child) && b.is_prefix_of(c) {
        if b.len() == c.len() {
            Some(seq!['.'])
        } else {
            Some(joined(c.skip(b.len() as int), '/'))
        }
    } else {
        None
    }
}

/// `child` as seen from `base`, going by the resolved forms of both where
/// the file system gave them and by the paths as written where it did not.
pub open spec fn relative_resolved(
    base: Seq<char>,
    child: Seq<char>,
    resolved: Option<(Seq<char>, Seq<char>)>,
) -> Option<Seq<char>> {
    match resolved {
        Some((b, c)) => relative(b, c),
        None => relative(base, child),
    }
}

/// Whether `p` starts at the root.
pub fn is_absolute(p: &str) -> (r: bool)
    ensures
        r == is_absolute_path(p@),
{
    !p.is_empty() && p.get_char(0) == '/'
}

fn names_something(piece: &str) -> (r: bool)
    ensures
        r == is_name(piece@),
{
    if piece.is_empty() {
        false
    } else if piece.get_char(0) == '.' {
        let single = piece.unicode_len() == 1;
        proof {
            if single {
                assert(piece@ =~= seq!['.']);
            } else {
                assert(seq!['.'].len() == 1);
            }
        }
        !single
    } else {
        proof {
            assert(seq!['.'][0] == '.');
        }
        true
    }
}

/// The names along `p`.
pub fn path_segments(p: &str) -> (names: Vec<String>)
    ensures
        views(names@) == segments(p@),
{
    let pieces = split_at(p, '/');
    let mut names: Vec<String> = Vec::new();
    let ghost all = split(p@, '/');
    let ghost wanted = |i: int| is_name(split(p@, '/')[i]);
    let mut i: usize = 0;
    while i < pieces.len()
        invariant
            i <= pieces.len(),
            views(pieces@) == all,
            all == split(p@, '/'),
            wanted == |i: int| is_name(split(p@, '/')[i]),
            views(names@) == keep(all.take(i as int), wanted),
        decreases pieces.len() - i,
    {
        proof {
            assert(all.take(i + 1).drop_last() == all.take(i as int));
            assert(all[i as int] == pieces[i as int]@);
        }
        if names_something(pieces[i].as_str()) {
            names.push(pieces[i].clone());
        }
        i = i + 1;
    }
    proof {
        assert(all.take(all.len() as int) == all);
    }
    names
}

/// `rest` seen from `dir`.
pub fn join(dir: &str, rest: &str) -> (path: String)
    ensures
        path@ == joined_path(dir@, rest@),
{
    if is_absolute(rest) {
        return rest.to_owned();
    }
    let mut path = String::new();
    let mut open_end = false;
    for c in it: dir.chars()
        invariant
            it.seq() == dir@,
            path@ == dir@.take(it.index() as int),
            open_end == (it.index() > 0 && dir@[it.index() - 1] != '/'),
    {
        path.push(c);
        open_end = c != '/';
    }
    proof {
        assert(dir@.take(dir@.len() as int) == dir@);
    }
    if open_end {
        path.push('/');
    }
    path.append(rest);
    path
}

/// `child` as seen from `base`, by the text of the two paths alone: `None`
/// unless both are absolute and `child` lies at or below `base`. The
/// relative path is written anew from the names of `child`, one separator
/// between neighbours.
pub fn best_effort_relative_if_descendant(base: &str, child: &str) -> (rel: Option<String>)
    ensures
        rel is Some == relative(base@, child@) is Some,
        rel matches Some(r) ==> relative(base@, child@) == Some(r@),
{
    if !is_absolute(base) || !is_absolute(child) {
        return None;
    }
    let b = path_segments(base);
    let c = path_segments(child);
    if b.len() > c.len() {
        return None;
    }
    let mut i: usize = 0;
    while i < b.len()
        invariant
            i <= b.len() <= c.len(),
            views(b@) == segments(base@),
            views(c@) == segments(child@),
            forall|k: int| 0 <= k < i ==> views(b@)[k] == views(c@)[k],
        decreases b.len() - i,
    {
        if b[i] != c[i] {
            proof {
                assert(views(b@)[i as int] != views(c@).subrange(0, b.len() as int)[i as int]);
            }
            return None;
        }
        i = i + 1;
    }
    proof {
        assert(views(b@) =~= views(c@).subrange(0, b.len() as int));
    }
    if b.len() == c.len() {
        let here = String::from_str(".");
        proof {
            reveal_strlit(".");
            assert(here@ =~= seq!['.']);
        }
        return Some(here);
    }
    let mut rest: Vec<String> = Vec::new();
    let mut j: usize = b.len();
    while j < c.len()
        invariant
            b.len() <= j <= c.len(),
            views(rest@) == views(c@).subrange(b.len() as int, j as int),
        decreases c.len() - j,
    {
        rest.push(c[j].clone());
        proof {
            assert(views(c@).subrange(b.len() as int, j + 1).drop_last() == views(c@).subrange(
                b.len() as int,
                j as int,
            ));
        }
        j = j + 1;
    }
    proof {
        assert(views(c@).subrange(b.len() as int, c.len() as int) == views(c@).skip(
            b.len() as int,
        ));
    }
    Some(join_with(&rest, '/'))
}

/// `child` as seen from `base`. `resolved` holds both paths with links and
/// relative parts resolved, where the file system could resolve both; then
/// those are compared, else the paths as written.
pub fn relative_if_descendant(base: &str, child: &str, resolved: Option<(&str, &str)>) -> (rel:
    Option<String>)
    ensures
        rel is Some == relative_resolved(base@, child@, resolved_view(resolved)) is Some,
        rel matches Some(r) ==> relative_resolved(base@, child@, resolved_view(resolved)) == Some(
            r@,
        ),
{
    match resolved {
        Some((b, c)) => best_effort_relative_if_descendant(b, c),
        None => best_effort_relative_if_descendant(base, child),
    }
}

/// The views of a pair of resolved paths.
pub open spec fn resolved_view(resolved: Option<(&str, &str)>) -> Option<(Seq<char>, Seq<char>)> {
    match resolved {
        Some((b, c)) => Some((b@, c@)),
        None => None,
    }
}

/// Every segment of a path names something and holds no separator.
pub proof fn lemma_segments(p: Seq<char>)
    ensures
        forall|k: int|
            0 <= k < segments(p).len() ==> is_name(#[trigger] segments(p)[k]) && !segments(
                p,
            )[k].contains('/'),
{
    let pieces = split(p, '/');
    let wanted = |i: int| is_name(split(p, '/')[i]);
    lemma_keep_positions(pieces, wanted);
    lemma_positions(pieces.len(), wanted);
    lemma_split_pieces(p, '/');
    let at = positions(pieces.len(), wanted);
    assert forall|k: int| 0 <= k < segments(p).len() implies is_name(#[trigger] segments(p)[k])
        && !segments(p)[k].contains('/') by {
        assert(segments(p)[k] == pieces[at[k]]);
        assert(wanted(at[k]));
    }
}

/// Names without separators, written as a path, are the segments of that
/// path.
pub proof fn lemma_segments_joined(names: Seq<Seq<char>>)
    requires
        names.len() >= 1,
        forall|k: int|
            0 <= k < names.len() ==> is_name(#[trigger] names[k]) && !names[k].contains('/'),
    ensures
        segments(joined(names, '/')) == names,
{
    let p = joined(names, '/');
    lemma_split_joined(names, '/');
    let wanted = |i: int| is_name(split(p, '/')[i]);
    assert forall|i: int| 0 <= i < names.len() implies #[trigger] wanted(i) by {
        assert(is_name(names[i]));
    }
    lemma_keep_all(names, wanted);
}

/// A relative path leads from the base to the child: the segments of the
/// base, followed by those of the relative path, are those of the child.
pub proof fn lemma_relative(base: Seq<char>, child: Seq<char>)
    ensures
        relative(base, child) matches Some(rel) ==> segments(base) + segments(rel) == segments(
            child,
        ),
{
    if relative(base, child) is Some {
        let rel = relative(base, child)->0;
        let b = segments(base);
        let c = segments(child);
        assert(b =~= c.subrange(0, b.len() as int));
        if b.len() == c.len() {
            let dot = seq!['.'];
            let none = Seq::<char>::empty();
            assert(dot.drop_last() == none);
            assert(split(none, '/') == seq![none]);
            assert(split(dot, '/') == seq![dot]) by {
                assert(seq![none].drop_last().push(none.push('.')) == seq![dot]);
            }
            let wanted = |i: int| is_name(split(dot, '/')[i]);
            assert(!wanted(0)) by {
                assert(seq![dot][0] == dot);
            }
            lemma_keep_none(seq![dot], wanted);
            assert(b + segments(rel) == c);
        } else {
            let rest = c.skip(b.len() as int);
            lemma_segments(child);
            assert forall|k: int| 0 <= k < rest.len() implies is_name(#[trigger] rest[k])
                && !rest[k].contains('/') by {
                assert(rest[k] == c[k + b.len()]);
            }
            lemma_segments_joined(rest);
            assert(b + rest == c);
        }
    }
}

} // verus!
