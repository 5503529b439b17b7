//! Text as sequences of characters: splitting at a separator, trimming
//! whitespace, joining pieces, lower case.

use vstd::prelude::*;
use vstd::string::*;

verus! {

/// The views of a sequence of strings.
pub open spec fn views(v: Seq<String>) -> Seq<Seq<char>> {
    v.map_values(|s: String| s@)
}

/// Whether `c` has the Unicode property `White_Space`, as the standard
/// library decides it.
pub uninterp spec fn unicode_whitespace(c: char) -> bool;

/// Whether `c` is whitespace. Of the ASCII characters the blank and the
/// five from tab to carriage return are; of the others those that have the
/// Unicode property `White_Space`.
pub open spec fn is_whitespace(c: char) -> bool {
    if (c as u32) < 128 {
        c == ' ' || ('\t' <= c && c <= '\r')
    } else {
        unicode_whitespace(c)
    }
}

/// `char::is_whitespace`: says that it decides the property that
/// [`unicode_whitespace`] names, and which ASCII characters have it. Which
/// of the others have it is not stated.
pub assume_specification[ char::is_whitespace ](c: char) -> (r: bool)
    ensures
        r == unicode_whitespace(c),
        (c as u32) < 128 ==> r == (c == ' ' || ('\t' <= c && c <= '\r')),
;

/// `s` in lower case, as the standard library's Unicode tables give it.
pub uninterp spec fn lowercase(s: Seq<char>) -> Seq<char>;

/// `str::to_lowercase`: says that the new string is what [`lowercase`]
/// names, a function of the characters alone.
pub assume_specification[ str::to_lowercase ](s: &str) -> (r: String)
    ensures
        r@ == lowercase(s@),
;

/// `==` on string slices: true exactly where both hold the same characters.
pub assume_specification[ <str as PartialEq>::eq ](a: &str, b: &str) -> (r: bool)
    ensures
        r == (a@ == b@),
;

/// `String::push`: appends one character.
pub assume_specification[ String::push ](s: &mut String, ch: char)
    ensures
        final(s)@ == old(s)@.push(ch),
;

/// The pieces of `s` between occurrences of `sep`. There is always at least
/// one piece; the last one is what follows the last separator.
pub open spec fn split(s: Seq<char>, sep: char) -> Seq<Seq<char>>
    decreases s.len(),
{
    if s.len() == 0 {
        seq![Seq::empty()]
    } else {
        let before = split(s.drop_last(), sep);
        if s.last() == sep {
            before.push(Seq::empty())
        } else {
            before.drop_last().push(before.last().push(s.last()))
        }
    }
}

/// `pieces` written one after the other with `between` between neighbours.
pub open spec fn interleaved(pieces: Seq<Seq<char>>, between: Seq<char>) -> Seq<char>
    decreases pieces.len(),
{
    if pieces.len() == 0 {
        Seq::empty()
    } else if pieces.len() == 1 {
        pieces[0]
    } else {
        interleaved(pieces.drop_last(), between) + between + pieces.last()
    }
}

/// `pieces` written one after the other with `sep` between neighbours.
pub open spec fn joined(pieces: Seq<Seq<char>>, sep: char) -> Seq<char> {
    interleaved(pieces, seq![sep])
}

/// `template` with every `mark` in it replaced by `with`.
pub open spec fn filled(template: Seq<char>, mark: char, with: Seq<char>) -> Seq<char> {
    interleaved(split(template, mark), with)
}

/// There is always at least one piece.
pub proof fn lemma_split_len(s: Seq<char>, sep: char)
    ensures
        split(s, sep).len() >= 1,
    decreases s.len(),
{
    if s.len() > 0 {
        lemma_split_len(s.drop_last(), sep);
    }
}

/// `s` without its leading whitespace.
pub open spec fn trim_start(s: Seq<char>) -> Seq<char>
    decreases s.len(),
{
    if s.len() > 0 && is_whitespace(s[0]) {
        trim_start(s.drop_first())
    } else {
        s
    }
}

/// `s` without its trailing whitespace.
pub open spec fn trim_end(s: Seq<char>) -> Seq<char>
    decreases s.len(),
{
    if s.len() > 0 && is_whitespace(s.last()) {
        trim_end(s.drop_last())
    } else {
        s
    }
}

/// `s` without whitespace at either end.
pub open spec fn trimmed(s: Seq<char>) -> Seq<char> {
    trim_end(trim_start(s))
}

/// Whether `a` and `b` hold the same characters.
pub fn same_text(a: &str, b: &str) -> (same: bool)
    ensures
        same == (a@ == b@),
{
    *a == *b
}

/// Splits `s` at every `sep`.
pub fn split_at(s: &str, sep: char) -> (pieces: Vec<String>)
    ensures
        views(pieces@) == split(s@, sep),
{
    let mut done: Vec<String> = Vec::new();
    let mut current = String::new();
    for c in it: s.chars()
        invariant
            it.seq() == s@,
            split(s@.take(it.index() as int), sep) == views(done@).push(current@),
    {
        proof {
            let i = it.index() as int;
            assert(s@.take(i + 1).drop_last() == s@.take(i));
        }
        if c == sep {
            done.push(current);
            current = String::new();
        } else {
            current.push(c);
        }
    }
    proof {
        assert(s@.take(s@.len() as int) == s@);
    }
    done.push(current);
    done
}

/// Writes `pieces` one after the other with `sep` between neighbours.
pub fn join_with(pieces: &Vec<String>, sep: char) -> (text: String)
    ensures
        text@ == joined(views(pieces@), sep),
{
    let mut text = String::new();
    let mut i: usize = 0;
    while i < pieces.len()
        invariant
            i <= pieces.len(),
            text@ == joined(views(pieces@).take(i as int), sep),
        decreases pieces.len() - i,
    {
        proof {
            let all = views(pieces@);
            assert(all.take(i + 1).drop_last() == all.take(i as int));
            if i == 1 {
                assert(all.take(1).len() == 1);
            }
        }
        if i > 0 {
            text.push(sep);
            proof {
                let all = views(pieces@);
                assert(text@ == interleaved(all.take(i as int), seq![sep]) + seq![sep]);
            }
        }
        text.append(pieces[i].as_str());
        i = i + 1;
    }
    proof {
        let all = views(pieces@);
        assert(all.take(all.len() as int) == all);
    }
    text
}

/// Replaces every `mark` in `template` by `with`.
pub fn fill(template: &str, mark: char, with: &str) -> (text: String)
    ensures
        text@ == filled(template@, mark, with@),
{
    let mut text = String::new();
    for c in it: template.chars()
        invariant
            it.seq() == template@,
            text@ == filled(template@.take(it.index() as int), mark, with@),
    {
        proof {
            let i = it.index() as int;
            let before = template@.take(i);
            let pieces = split(before, mark);
            lemma_split_len(before, mark);
            assert(template@.take(i + 1).drop_last() == before);
            if c == mark {
                assert(pieces.push(Seq::empty()).drop_last() == pieces);
                assert(text@ + with@ + Seq::<char>::empty() == text@ + with@);
            } else {
                let longer = pieces.drop_last().push(pieces.last().push(c));
                assert(longer.drop_last() == pieces.drop_last());
                if pieces.len() > 1 {
                    assert(interleaved(pieces.drop_last(), with@) + with@ + pieces.last().push(c)
                        == (interleaved(pieces.drop_last(), with@) + with@ + pieces.last()).push(
                        c,
                    ));
                }
            }
        }
        if c == mark {
            text.append(with);
        } else {
            text.push(c);
        }
    }
    proof {
        assert(template@.take(template@.len() as int) == template@);
    }
    text
}

/// The characters of `s`, one by one.
fn chars_of(s: &str) -> (chars: Vec<char>)
    ensures
        chars@ == s@,
{
    let mut chars: Vec<char> = Vec::new();
    for c in it: s.chars()
        invariant
            it.seq() == s@,
            chars@ == s@.take(it.index() as int),
    {
        chars.push(c);
    }
    proof {
        assert(s@.take(s@.len() as int) == s@);
    }
    chars
}

/// Removes the whitespace at both ends of `s`.
pub fn trim(s: &str) -> (t: String)
    ensures
        t@ == trimmed(s@),
{
    let chars = chars_of(s);
    let n = chars.len();
    let mut from: usize = 0;
    proof {
        assert(chars@.skip(0) == chars@);
    }
    while from < n && chars[from].is_whitespace()
        invariant
            n == chars.len(),
            from <= n,
            trim_start(chars@) == trim_start(chars@.skip(from as int)),
        decreases n - from,
    {
        proof {
            assert(chars@.skip(from as int).drop_first() == chars@.skip(from + 1));
        }
        from = from + 1;
    }
    let mut to: usize = n;
    proof {
        assert(chars@.skip(from as int) == chars@.subrange(from as int, n as int));
    }
    while to > from && chars[to - 1].is_whitespace()
        invariant
            n == chars.len(),
            from <= to <= n,
            trimmed(chars@) == trim_end(chars@.subrange(from as int, to as int)),
        decreases to,
    {
        proof {
            assert(chars@.subrange(from as int, to as int).drop_last() == chars@.subrange(
                from as int,
                to - 1,
            ));
        }
        to = to - 1;
    }
    let mut t = String::new();
    let mut i: usize = from;
    while i < to
        invariant
            from <= i <= to <= chars.len(),
            t@ == chars@.subrange(from as int, i as int),
        decreases to - i,
    {
        t.push(chars[i]);
        i = i + 1;
    }
    t
}

/// Text without a separator, appended, lengthens the last piece.
pub proof fn lemma_split_append(s: Seq<char>, t: Seq<char>, sep: char)
    requires
        !t.contains(sep),
    ensures
        split(s + t, sep) == split(s, sep).drop_last().push(split(s, sep).last() + t),
    decreases t.len(),
{
    lemma_split_len(s, sep);
    let pieces = split(s, sep);
    if t.len() == 0 {
        assert(s + t == s);
        assert(pieces.last() + t == pieces.last());
        assert(pieces.drop_last().push(pieces.last()) == pieces);
    } else {
        let shorter = t.drop_last();
        assert forall|i: int| 0 <= i < shorter.len() implies shorter[i] != sep by {
            assert(t[i] == shorter[i]);
            assert(t.contains(t[i]));
        }
        assert(t.contains(t.last()));
        lemma_split_append(s, shorter, sep);
        assert((s + t).drop_last() == s + shorter);
        assert((s + t).last() == t.last());
        let before = split(s + shorter, sep);
        assert(before.drop_last() == pieces.drop_last());
        assert(before.last().push(t.last()) == pieces.last() + t);
    }
}

/// No piece holds the separator.
pub proof fn lemma_split_pieces(s: Seq<char>, sep: char)
    ensures
        forall|i: int| 0 <= i < split(s, sep).len() ==> !(#[trigger] split(s, sep)[i]).contains(sep),
    decreases s.len(),
{
    if s.len() > 0 {
        lemma_split_pieces(s.drop_last(), sep);
        lemma_split_len(s.drop_last(), sep);
        let before = split(s.drop_last(), sep);
        let now = split(s, sep);
        assert forall|i: int| 0 <= i < now.len() implies !(#[trigger] now[i]).contains(sep) by {
            if i < before.len() - 1 {
                assert(now[i] == before[i]);
            } else if s.last() == sep {
                if i == before.len() - 1 {
                    assert(now[i] == before[i]);
                }
            } else {
                let grown = before.last().push(s.last());
                assert(now[i] == grown);
                if grown.contains(sep) {
                    let k = choose|k: int| 0 <= k < grown.len() && grown[k] == sep;
                    assert(before.last()[k] == sep);
                    assert(before[before.len() - 1].contains(sep));
                }
            }
        }
    }
}

/// Pieces without the separator, joined with it and split at it again, are
/// the pieces.
pub proof fn lemma_split_joined(pieces: Seq<Seq<char>>, sep: char)
    requires
        pieces.len() >= 1,
        forall|i: int| 0 <= i < pieces.len() ==> !(#[trigger] pieces[i]).contains(sep),
    ensures
        split(joined(pieces, sep), sep) == pieces,
    decreases pieces.len(),
{
    let none = Seq::<char>::empty();
    assert(split(none, sep) == seq![none]);
    if pieces.len() == 1 {
        lemma_split_append(none, pieces[0], sep);
        assert(none + pieces[0] == pieces[0]);
        assert(seq![none].drop_last().push(none + pieces[0]) == pieces);
    } else {
        let before = pieces.drop_last();
        lemma_split_joined(before, sep);
        let head = joined(before, sep);
        assert(head + seq![sep] == head.push(sep));
        assert(head.push(sep).drop_last() == head);
        assert(split(head.push(sep), sep) == before.push(none));
        lemma_split_append(head.push(sep), pieces.last(), sep);
        assert(before.push(none).drop_last() == before);
        assert(none + pieces.last() == pieces.last());
        assert(before.push(pieces.last()) == pieces);
    }
}

} // verus!
