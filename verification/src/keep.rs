//! Keeping some positions of a sequence and dropping the others, the kept
//! items staying in the order they had.

use vstd::prelude::*;

verus! {

/// The items of `s` at the positions that `wanted` accepts, in their order.
pub open spec fn keep<A>(s: Seq<A>, wanted: spec_fn(int) -> bool) -> Seq<A>
    decreases s.len(),
{
    if s.len() == 0 {
        Seq::empty()
    } else if wanted(s.len() - 1) {
        keep(s.drop_last(), wanted).push(s.last())
    } else {
        keep(s.drop_last(), wanted)
    }
}

/// The positions below `n` that `wanted` accepts, ascending.
pub open spec fn positions(n: nat, wanted: spec_fn(int) -> bool) -> Seq<int>
    decreases n,
{
    if n == 0 {
        Seq::empty()
    } else if wanted(n - 1) {
        positions((n - 1) as nat, wanted).push(n - 1)
    } else {
        positions((n - 1) as nat, wanted)
    }
}

/// What `positions` holds: exactly the accepted positions below `n`, each
/// once, in ascending order.
pub proof fn lemma_positions(n: nat, wanted: spec_fn(int) -> bool)
    ensures
        positions(n, wanted).len() <= n,
        forall|k: int|
            0 <= k < positions(n, wanted).len() ==> 0 <= #[trigger] positions(n, wanted)[k] < n
                && wanted(positions(n, wanted)[k]),
        forall|j: int, k: int|
            0 <= j < k < positions(n, wanted).len() ==> positions(n, wanted)[j] < positions(
                n,
                wanted,
            )[k],
        forall|i: int| 0 <= i < n && #[trigger] wanted(i) ==> positions(n, wanted).contains(i),
    decreases n,
{
    if n > 0 {
        let before = positions((n - 1) as nat, wanted);
        lemma_positions((n - 1) as nat, wanted);
        let all = positions(n, wanted);
        assert forall|i: int| 0 <= i < n && #[trigger] wanted(i) implies all.contains(i) by {
            if i == n - 1 {
                assert(all[all.len() - 1] == i);
            } else {
                let k = choose|k: int| 0 <= k < before.len() && before[k] == i;
                assert(all[k] == i);
            }
        }
    }
}

/// `keep` hands out the items at `positions`: the kept items are those at
/// the accepted positions and stand in the order of their positions.
pub proof fn lemma_keep_positions<A>(s: Seq<A>, wanted: spec_fn(int) -> bool)
    ensures
        keep(s, wanted).len() == positions(s.len(), wanted).len(),
        forall|k: int|
            0 <= k < keep(s, wanted).len() ==> #[trigger] keep(s, wanted)[k] == s[positions(
                s.len(),
                wanted,
            )[k]],
    decreases s.len(),
{
    if s.len() > 0 {
        lemma_keep_positions(s.drop_last(), wanted);
        lemma_positions((s.len() - 1) as nat, wanted);
    }
}

/// An item is kept if and only if it stands at an accepted position.
pub proof fn lemma_keep_contains<A>(s: Seq<A>, wanted: spec_fn(int) -> bool, x: A)
    ensures
        keep(s, wanted).contains(x) <==> exists|i: int|
            0 <= i < s.len() && wanted(i) && s[i] == x,
    decreases s.len(),
{
    if s.len() > 0 {
        let before = keep(s.drop_last(), wanted);
        let all = keep(s, wanted);
        let last = s.len() - 1;
        lemma_keep_contains(s.drop_last(), wanted, x);
        if all.contains(x) {
            let k = choose|k: int| 0 <= k < all.len() && all[k] == x;
            if k < before.len() {
                assert(before[k] == x);
                let i = choose|i: int| 0 <= i < s.drop_last().len() && wanted(i) && s.drop_last()[i] == x;
                assert(0 <= i < s.len() && wanted(i) && s[i] == x);
            } else {
                assert(wanted(last) && s[last] == x);
            }
        }
        if exists|i: int| 0 <= i < s.len() && wanted(i) && s[i] == x {
            let i = choose|i: int| 0 <= i < s.len() && wanted(i) && s[i] == x;
            if i == last {
                assert(all[all.len() - 1] == x);
            } else {
                assert(s.drop_last()[i] == x);
                let k = choose|k: int| 0 <= k < before.len() && before[k] == x;
                assert(all[k] == x);
            }
        }
    }
}

/// Two choices that agree on the positions of `s` keep the same items.
pub proof fn lemma_keep_agree<A>(s: Seq<A>, first: spec_fn(int) -> bool, second: spec_fn(int) -> bool)
    requires
        forall|i: int| 0 <= i < s.len() ==> #[trigger] first(i) == second(i),
    ensures
        keep(s, first) == keep(s, second),
    decreases s.len(),
{
    if s.len() > 0 {
        lemma_keep_agree(s.drop_last(), first, second);
    }
}

/// Where every position is accepted, nothing is dropped.
pub proof fn lemma_keep_all<A>(s: Seq<A>, wanted: spec_fn(int) -> bool)
    requires
        forall|i: int| 0 <= i < s.len() ==> #[trigger] wanted(i),
    ensures
        keep(s, wanted) == s,
    decreases s.len(),
{
    if s.len() > 0 {
        lemma_keep_all(s.drop_last(), wanted);
        assert(s.drop_last().push(s.last()) == s);
    }
}

/// Where no position is accepted, nothing is kept.
pub proof fn lemma_keep_none<A>(s: Seq<A>, wanted: spec_fn(int) -> bool)
    requires
        forall|i: int| 0 <= i < s.len() ==> !#[trigger] wanted(i),
    ensures
        keep(s, wanted) == Seq::<A>::empty(),
    decreases s.len(),
{
    if s.len() > 0 {
        lemma_keep_none(s.drop_last(), wanted);
    }
}

/// Where no item stands twice, none stands twice among the kept ones.
pub proof fn lemma_keep_no_duplicates<A>(s: Seq<A>, wanted: spec_fn(int) -> bool)
    requires
        s.no_duplicates(),
    ensures
        keep(s, wanted).no_duplicates(),
{
    lemma_keep_positions(s, wanted);
    lemma_positions(s.len(), wanted);
    let kept = keep(s, wanted);
    let at = positions(s.len(), wanted);
    assert forall|j: int, k: int| 0 <= j < kept.len() && 0 <= k < kept.len() && j != k implies kept[j]
        != kept[k] by {
        assert(kept[j] == s[at[j]]);
        assert(kept[k] == s[at[k]]);
        if j < k {
            assert(at[j] < at[k]);
        } else {
            assert(at[k] < at[j]);
        }
    }
}

} // verus!
