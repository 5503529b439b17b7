//! Matching a query against the bookmarks: the fuzzy matcher scores the
//! candidates, and the best of those that score high enough is picked.

use nucleo_picker::nucleo::pattern::{CaseMatching, Normalization, Pattern};
use nucleo_picker::nucleo::{Config, Matcher};
use vstd::prelude::*;
use vstd::string::*;
use vstd::utf8::encode_utf8;
use crate::text::views;

verus! {

/// A candidate that scores less than this is no match.
pub const MIN_SCORE: u32 = 100;

/// The longest query that is handed to the matcher, in characters. The
/// matcher keeps the score of one word in 16 bits and gives at most 34 for
/// its first character and 25 for each further one, so no word of a query of
/// this length can score beyond them.
pub const MAX_QUERY_LEN: usize = 2048;

/// The longest candidate that is handed to the matcher, in characters. The
/// matcher multiplies the length of a candidate with that of a word of the
/// query in the machine's word size, and with this bound the product fits
/// in 32 bits.
pub const MAX_CANDIDATE_LEN: usize = 1048576;

/// What the fuzzy matcher makes of `query` and `candidates`: the candidates
/// that match, each with its score.
pub uninterp spec fn fuzzy_matches(query: Seq<char>, candidates: Seq<Seq<char>>) -> Seq<
    (Seq<char>, u32),
>;

/// The views of scored candidates.
pub open spec fn scored_views(results: Seq<(String, u32)>) -> Seq<(Seq<char>, u32)> {
    results.map_values(|r: (String, u32)| (r.0@, r.1))
}

/// What the matcher can be given: a query of at most `MAX_QUERY_LEN`
/// characters and candidates of at most `MAX_CANDIDATE_LEN` characters each.
pub open spec fn matchable(query: Seq<char>, candidates: Seq<Seq<char>>) -> bool {
    &&& query.len() <= MAX_QUERY_LEN
    &&& forall|i: int|
        0 <= i < candidates.len() ==> (#[trigger] candidates[i]).len() <= MAX_CANDIDATE_LEN
}

/// Whether the candidates are scored alike on every platform: none of them
/// holds a backslash, which the matcher takes for a path delimiter where it
/// is built for Windows and for an ordinary character elsewhere.
pub open spec fn portable(candidates: Seq<Seq<char>>) -> bool {
    forall|i: int| 0 <= i < candidates.len() ==> !(#[trigger] candidates[i]).contains('\\')
}

/// The length of `s` in bytes, as a string holds it.
pub open spec fn byte_len(s: Seq<char>) -> usize {
    encode_utf8(s).len() as usize
}

/// Whether `a` is at least as good a match as `b`: it scores higher, or it
/// scores the same and is no longer.
pub open spec fn outranks(a: (Seq<char>, u32), b: (Seq<char>, u32)) -> bool {
    a.1 > b.1 || (a.1 == b.1 && byte_len(a.0) <= byte_len(b.0))
}

/// The position of the best match among `results`, if any scores high
/// enough: going through them in order, a candidate takes the lead where it
/// is at least as good as the one leading so far.
pub open spec fn best_index(results: Seq<(Seq<char>, u32)>) -> Option<int>
    decreases results.len(),
{
    if results.len() == 0 {
        None
    } else {
        let last = results.len() - 1;
        let before = best_index(results.drop_last());
        if results[last].1 < MIN_SCORE {
            before
        } else {
            match before {
                Some(lead) if !outranks(results[last], results[lead]) => Some(lead),
                _ => Some(last),
            }
        }
    }
}

/// The best match among `results`, if any scores high enough.
pub open spec fn best_match(results: Seq<(Seq<char>, u32)>) -> Option<Seq<char>> {
    match best_index(results) {
        Some(i) => Some(results[i].0),
        None => None,
    }
}

/// Whether every one of `results` is one of `candidates`.
pub open spec fn drawn_from(results: Seq<(Seq<char>, u32)>, candidates: Seq<Seq<char>>) -> bool {
    forall|i: int| 0 <= i < results.len() ==> candidates.contains((#[trigger] results[i]).0)
}

/// The view of a path that may be missing.
pub open spec fn path_view(path: Option<String>) -> Option<Seq<char>> {
    match path {
        Some(p) => Some(p@),
        None => None,
    }
}

/// `Pattern::match_list` of the fuzzy matcher, on a pattern parsed from
/// `query` with smart case and smart normalization and with the matcher set
/// up for paths. Not proved: that every result is one of the candidates, and
/// that for candidates without a backslash the results are a function of
/// the query and the candidates alone. Left out is the input on which the
/// matcher fails: it panics on a candidate of more than 2^32 - 1 characters,
/// it multiplies the length of a candidate with that of a word in the
/// machine's word size, it adds up the score of one word in 16 bits, which
/// a word of more than 2621 characters can overflow, and it adds up the
/// scores of the words in 32 bits, all without a check.
#[verifier::external_body]
fn match_list(query: &str, candidates: &Vec<String>) -> (results: Vec<(String, u32)>)
    requires
        matchable(query@, views(candidates@)),
    ensures
        portable(views(candidates@)) ==> scored_views(results@) == fuzzy_matches(
            query@,
            views(candidates@),
        ),
        forall|i: int|
            0 <= i < results.len() ==> views(candidates@).contains((#[trigger] results[i]).0@),
{
    let mut matcher = Matcher::new(Config::DEFAULT.match_paths());
    Pattern::parse(query, CaseMatching::Smart, Normalization::Smart)
        .match_list(candidates.iter().map(|s| s.as_str()), &mut matcher)
        .into_iter()
        .map(|(s, score)| (s.to_string(), score))
        .collect()
}

/// Whether the matcher can be given `query` and `candidates`.
pub fn is_matchable(query: &str, candidates: &Vec<String>) -> (fits: bool)
    ensures
        fits == matchable(query@, views(candidates@)),
{
    if query.unicode_len() > MAX_QUERY_LEN {
        return false;
    }
    let mut i: usize = 0;
    while i < candidates.len()
        invariant
            i <= candidates.len(),
            forall|k: int| 0 <= k < i ==> (#[trigger] views(candidates@)[k]).len() <= MAX_CANDIDATE_LEN,
        decreases candidates.len() - i,
    {
        if candidates[i].as_str().unicode_len() > MAX_CANDIDATE_LEN {
            proof {
                assert(views(candidates@)[i as int].len() > MAX_CANDIDATE_LEN);
            }
            return false;
        }
        i = i + 1;
    }
    true
}

/// Picks the best of the scored candidates: of those that score at least
/// `MIN_SCORE` the one with the highest score, of several of those the
/// shortest, and of several of those the last.
pub fn pick_best(results: &Vec<(String, u32)>) -> (best: Option<String>)
    ensures
        path_view(best) == best_match(scored_views(results@)),
{
    let ghost all = scored_views(results@);
    let mut lead: Option<usize> = None;
    let mut i: usize = 0;
    while i < results.len()
        invariant
            i <= results.len(),
            all == scored_views(results@),
            match lead {
                Some(l) => l < i && best_index(all.take(i as int)) == Some(l as int),
                None => best_index(all.take(i as int)) is None,
            },
        decreases results.len() - i,
    {
        proof {
            assert(all.take(i + 1).drop_last() == all.take(i as int));
            assert(all[i as int] == (results[i as int].0@, results[i as int].1));
        }
        if results[i].1 >= MIN_SCORE {
            match lead {
                Some(l) => {
                    proof {
                        assert(all[l as int] == (results[l as int].0@, results[l as int].1));
                    }
                    let better = results[i].1 > results[l].1 || (results[i].1 == results[l].1
                        && results[i].0.as_str().len() <= results[l].0.as_str().len());
                    if better {
                        lead = Some(i);
                    }
                },
                None => {
                    lead = Some(i);
                },
            }
        }
        i = i + 1;
    }
    proof {
        assert(all.take(all.len() as int) == all);
    }
    match lead {
        Some(l) => Some(results[l].0.clone()),
        None => None,
    }
}

/// The bookmark that matches `query` best, if any matches well enough:
/// the best match among the bookmarks that the matcher finds, each with the
/// score it gives. For bookmarks without a backslash those are what
/// `fuzzy_matches` names.
pub fn best_bookmark_match(query: &str, bookmarks: &Vec<String>) -> (best: Option<String>)
    requires
        matchable(query@, views(bookmarks@)),
    ensures
        exists|results: Seq<(Seq<char>, u32)>| #[trigger]
            drawn_from(results, views(bookmarks@)) && path_view(best) == best_match(results),
        best matches Some(b) ==> views(bookmarks@).contains(b@),
        portable(views(bookmarks@)) ==> path_view(best) == best_match(
            fuzzy_matches(query@, views(bookmarks@)),
        ),
{
    let results = match_list(query, bookmarks);
    let best = pick_best(&results);
    proof {
        let found = scored_views(results@);
        lemma_best_index(found);
        assert(drawn_from(found, views(bookmarks@))) by {
            assert forall|i: int| 0 <= i < found.len() implies views(bookmarks@).contains(
                (#[trigger] found[i]).0,
            ) by {
                assert(found[i].0 == results[i].0@);
            }
        }
        assert(path_view(best) == best_match(found));
    }
    best
}

/// No candidate is better than the best match: it scores at least
/// `MIN_SCORE`, and every candidate that does so scores less, or scores the
/// same and is no shorter. This holds of every list of scored candidates,
/// so of whatever the matcher finds.
pub proof fn lemma_best_match(results: Seq<(Seq<char>, u32)>)
    ensures
        best_match(results) matches Some(best) ==> exists|k: int|
            0 <= k < results.len() && (#[trigger] results[k]).0 == best && results[k].1
                >= MIN_SCORE && forall|i: int|
                0 <= i < results.len() && (#[trigger] results[i]).1 >= MIN_SCORE ==> results[i].1
                    < results[k].1 || (results[i].1 == results[k].1 && byte_len(results[i].0)
                    >= byte_len(best)),
        best_match(results) is None <==> forall|i: int|
            0 <= i < results.len() ==> (#[trigger] results[i]).1 < MIN_SCORE,
{
    lemma_best_index(results);
    if best_index(results) is Some {
        let k = best_index(results)->0;
        assert(results[k].0 == best_match(results)->0);
        assert forall|i: int|
            0 <= i < results.len() && (#[trigger] results[i]).1 >= MIN_SCORE implies results[i].1
            < results[k].1 || (results[i].1 == results[k].1 && byte_len(results[i].0) >= byte_len(
            results[k].0,
        )) by {
            assert(outranks(results[k], results[i]));
        }
    }
}

/// What `best_index` picks. There is a best match exactly where a result
/// scores at least `MIN_SCORE`. It is such a result; no result that scores
/// as much is better, and none that comes later is as good.
pub proof fn lemma_best_index(results: Seq<(Seq<char>, u32)>)
    ensures
        best_index(results) is None <==> forall|i: int|
            0 <= i < results.len() ==> (#[trigger] results[i]).1 < MIN_SCORE,
        best_index(results) matches Some(k) ==> {
            &&& 0 <= k < results.len()
            &&& results[k].1 >= MIN_SCORE
            &&& forall|i: int|
                0 <= i < results.len() && (#[trigger] results[i]).1 >= MIN_SCORE ==> outranks(
                    results[k],
                    results[i],
                )
            &&& forall|i: int|
                k < i < results.len() && (#[trigger] results[i]).1 >= MIN_SCORE ==> !outranks(
                    results[i],
                    results[k],
                )
        },
    decreases results.len(),
{
    if results.len() > 0 {
        let before = results.drop_last();
        lemma_best_index(before);
        assert forall|i: int| 0 <= i < before.len() implies before[i] == results[i] by {}
        let last = results.len() - 1;
        if results[last].1 < MIN_SCORE {
            if best_index(before) is None {
                assert forall|i: int| 0 <= i < results.len() implies (#[trigger] results[i]).1
                    < MIN_SCORE by {
                    if i < last {
                        assert(before[i].1 < MIN_SCORE);
                    }
                }
            } else {
                let k = best_index(before)->0;
                assert(results[k].1 >= MIN_SCORE);
                assert forall|i: int|
                    0 <= i < results.len() && (#[trigger] results[i]).1 >= MIN_SCORE implies outranks(
                    results[k],
                    results[i],
                ) by {
                    assert(before[i].1 >= MIN_SCORE);
                }
                assert forall|i: int|
                    k < i < results.len() && (#[trigger] results[i]).1 >= MIN_SCORE implies !outranks(
                    results[i],
                    results[k],
                ) by {
                    assert(before[i].1 >= MIN_SCORE);
                }
            }
        } else {
            assert(results[last].1 >= MIN_SCORE);
            match best_index(before) {
                Some(lead) => {
                    if outranks(results[last], results[lead]) {
                        assert forall|i: int|
                            0 <= i < results.len() && (#[trigger] results[i]).1
                                >= MIN_SCORE implies outranks(results[last], results[i]) by {
                            if i < last {
                                assert(before[i].1 >= MIN_SCORE);
                                assert(outranks(results[lead], results[i]));
                            }
                        }
                    } else {
                        assert forall|i: int|
                            0 <= i < results.len() && (#[trigger] results[i]).1
                                >= MIN_SCORE implies outranks(results[lead], results[i]) by {
                            if i < last {
                                assert(before[i].1 >= MIN_SCORE);
                            }
                        }
                        assert forall|i: int|
                            lead < i < results.len() && (#[trigger] results[i]).1
                                >= MIN_SCORE implies !outranks(results[i], results[lead]) by {
                            if i < last {
                                assert(before[i].1 >= MIN_SCORE);
                            }
                        }
                    }
                },
                None => {
                    assert forall|i: int|
                        0 <= i < results.len() && (#[trigger] results[i]).1
                            >= MIN_SCORE implies outranks(results[last], results[i]) by {
                        if i < last {
                            assert(before[i].1 < MIN_SCORE);
                        }
                    }
                },
            }
        }
    }
}

} // verus!
