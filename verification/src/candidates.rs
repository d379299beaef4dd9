//! Candidate sets as mathematics: finite sets of digits, how many digits
//! they hold, and their digits in ascending order.

use vstd::prelude::*;
use vstd::set_lib::*;

verus! {

/// The digits `1..=9`.
pub open spec fn digits() -> Set<int> {
    Set::new(|d: int| 1 <= d <= 9)
}

/// A candidate set holds exactly one digit: the cell is decided.
pub open spec fn determined(s: Set<int>) -> bool {
    s.len() == 1
}

/// The digits of `s` that are at most `n`.
pub open spec fn below(s: Set<int>, n: int) -> Set<int> {
    Set::new(|d: int| s.contains(d) && d <= n)
}

/// The digits of `s` among `1..=n`, in ascending order.
pub open spec fn ascending_upto(s: Set<int>, n: int) -> Seq<int>
    decreases n,
{
    if n <= 0 {
        Seq::empty()
    } else if s.contains(n) {
        ascending_upto(s, n - 1).push(n)
    } else {
        ascending_upto(s, n - 1)
    }
}

/// The digits of `s`, in ascending order.
pub open spec fn ascending(s: Set<int>) -> Seq<int> {
    ascending_upto(s, 9)
}

/// There are nine digits.
pub proof fn lemma_digits()
    ensures
        digits().finite(),
        digits().len() == 9,
{
    lemma_int_range(1, 10);
    assert(digits() =~= set_int_range(1, 10));
}

/// A set of digits is finite and holds at most nine of them.
pub proof fn lemma_candidates_finite(s: Set<int>)
    requires
        s.subset_of(digits()),
    ensures
        s.finite(),
        s.len() <= 9,
{
    lemma_digits();
    lemma_len_subset(s, digits());
}

/// A finite set without elements has length zero, and the other way round.
pub proof fn lemma_empty_iff_len_zero(s: Set<int>)
    requires
        s.finite(),
    ensures
        s.len() == 0 <==> s == Set::<int>::empty(),
{
    if s.len() == 0 {
        s.lemma_len0_is_empty();
        assert(s =~= Set::<int>::empty());
    }
}

/// The set of one digit has length one.
pub proof fn lemma_single(d: int)
    ensures
        set![d].finite(),
        set![d].len() == 1,
        determined(set![d]),
{
    assert(set![d] =~= Set::<int>::empty().insert(d));
}

/// A decided set is the set of any digit that it holds.
pub proof fn lemma_determined_is_single(s: Set<int>, d: int)
    requires
        s.finite(),
        determined(s),
        s.contains(d),
    ensures
        s == set![d],
{
    Set::lemma_is_singleton(s);
    assert(s =~= set![d]);
}

/// A decided set holds a digit.
pub proof fn lemma_determined_has_digit(s: Set<int>) -> (d: int)
    requires
        s.finite(),
        determined(s),
    ensures
        s == set![d],
{
    let d = s.choose();
    lemma_determined_is_single(s, d);
    d
}

/// Taking digits away never makes a set longer, and taking a digit that was
/// there makes it shorter.
pub proof fn lemma_shrink(small: Set<int>, large: Set<int>)
    requires
        large.finite(),
        small.subset_of(large),
    ensures
        small.finite(),
        small.len() <= large.len(),
        small != large ==> small.len() < large.len(),
{
    lemma_len_subset(small, large);
    if small != large {
        if forall|d: int| large.contains(d) ==> small.contains(d) {
            assert(small =~= large);
        }
        let d = choose|d: int| large.contains(d) && !small.contains(d);
        small.lemma_subset_not_in_lt(large, d);
    }
}

/// How `below` grows when the bound moves up by one.
pub proof fn lemma_below_step(s: Set<int>, n: int)
    requires
        below(s, n - 1).finite(),
    ensures
        below(s, n).finite(),
        s.contains(n) ==> below(s, n).len() == below(s, n - 1).len() + 1,
        !s.contains(n) ==> below(s, n).len() == below(s, n - 1).len(),
{
    if s.contains(n) {
        assert(below(s, n) =~= below(s, n - 1).insert(n));
    } else {
        assert(below(s, n) =~= below(s, n - 1));
    }
}

/// The digits in `ascending_upto(s, n)` are those of `s` among `1..=n`, each
/// once, and they rise.
pub proof fn lemma_ascending_upto(s: Set<int>, n: int)
    requires
        0 <= n,
    ensures
        forall|j: int|
            0 <= j < ascending_upto(s, n).len() ==> s.contains(#[trigger] ascending_upto(s, n)[j])
                && 1 <= ascending_upto(s, n)[j] <= n,
        forall|j: int, k: int|
            0 <= j < k < ascending_upto(s, n).len() ==> ascending_upto(s, n)[j] < ascending_upto(
                s,
                n,
            )[k],
        forall|d: int|
            1 <= d <= n && s.contains(d) ==> exists|j: int|
                0 <= j < ascending_upto(s, n).len() && #[trigger] ascending_upto(s, n)[j] == d,
        ascending_upto(s, n).len() <= n,
    decreases n,
{
    if n > 0 {
        lemma_ascending_upto(s, n - 1);
        let rest = ascending_upto(s, n - 1);
        let full = ascending_upto(s, n);
        assert forall|d: int| 1 <= d <= n && s.contains(d) implies exists|j: int|
            0 <= j < full.len() && #[trigger] full[j] == d by {
            if d == n {
                assert(full[rest.len() as int] == d);
            } else {
                let j = choose|j: int| 0 <= j < rest.len() && #[trigger] rest[j] == d;
                assert(full[j] == d);
            }
        }
    }
}

/// The digits in `ascending(s)` are those of `s`, each once, and they rise.
pub proof fn lemma_ascending(s: Set<int>)
    requires
        s.subset_of(digits()),
    ensures
        forall|j: int| 0 <= j < ascending(s).len() ==> s.contains(#[trigger] ascending(s)[j]),
        forall|j: int, k: int|
            0 <= j < k < ascending(s).len() ==> ascending(s)[j] < ascending(s)[k],
        forall|d: int|
            s.contains(d) ==> exists|j: int|
                0 <= j < ascending(s).len() && #[trigger] ascending(s)[j] == d,
{
    lemma_ascending_upto(s, 9);
    assert forall|d: int| s.contains(d) implies exists|j: int|
        0 <= j < ascending(s).len() && #[trigger] ascending(s)[j] == d by {
        let j = choose|j: int|
            0 <= j < ascending_upto(s, 9).len() && #[trigger] ascending_upto(s, 9)[j] == d;
        assert(ascending(s)[j] == d);
    }
}

} // verus!
