use vstd::prelude::*;
use vstd::std_specs::cmp::PartialEqSpec;

verus! {

/// The values behind a sequence of references.
pub open spec fn values_of<T>(refs: Seq<&T>) -> Seq<T> {
    Seq::new(refs.len(), |i: int| *refs[i])
}

/// Position `i` of `s` holds a value that compares equal to `target`.
pub open spec fn matches_at<T: PartialEq>(s: Seq<T>, target: T, i: int) -> bool {
    0 <= i < s.len() && s[i].eq_spec(&target)
}

/// Some position of `s` holds a value that compares equal to `target`.
pub open spec fn has_match<T: PartialEq>(s: Seq<T>, target: T) -> bool {
    exists|i: int| matches_at(s, target, i)
}

/// `i` is the first position of `s` whose value compares equal to `target`.
pub open spec fn is_first_match<T: PartialEq>(s: Seq<T>, target: T, i: int) -> bool {
    &&& matches_at(s, target, i)
    &&& forall|j: int| 0 <= j < i ==> !matches_at(s, target, j)
}

/// `i` is the position that a deletion by value takes out of `s`: the head
/// where it matches, else the tail where it matches, else the first match.
pub open spec fn is_removal_target<T: PartialEq>(s: Seq<T>, target: T, i: int) -> bool {
    if matches_at(s, target, 0) {
        i == 0
    } else if matches_at(s, target, s.len() - 1) {
        i == s.len() - 1
    } else {
        is_first_match(s, target, i)
    }
}

/// `found` is the answer of a search for `target` in `s`: `(true, index)`
/// with the first matching position, or `(false, 0)` where nothing matches.
pub open spec fn is_find_result<T: PartialEq>(s: Seq<T>, target: T, found: (bool, u32)) -> bool {
    if found.0 {
        is_first_match(s, target, found.1 as int)
    } else {
        found.1 == 0 && !has_match(s, target)
    }
}

/// A search has one answer: two answers for the same sequence and the same
/// target are the same.
pub proof fn lemma_find_result_unique<T: PartialEq>(
    s: Seq<T>,
    target: T,
    first: (bool, u32),
    second: (bool, u32),
)
    requires
        is_find_result(s, target, first),
        is_find_result(s, target, second),
    ensures
        first == second,
{
    if first.0 {
        assert(matches_at(s, target, first.1 as int));
    }
    if second.0 {
        assert(matches_at(s, target, second.1 as int));
    }
}

/// A deletion by value takes out one position: two targets for the same
/// sequence and the same value are the same.
pub proof fn lemma_removal_target_unique<T: PartialEq>(s: Seq<T>, target: T, i: int, j: int)
    requires
        is_removal_target(s, target, i),
        is_removal_target(s, target, j),
    ensures
        i == j,
{
}

/// An insertion at index zero is a push to the front, and an insertion at
/// the length is a push to the back.
pub proof fn lemma_insert_at_the_ends<T>(s: Seq<T>, value: T)
    ensures
        s.insert(0, value) == seq![value] + s,
        s.insert(s.len() as int, value) == s.push(value),
{
    assert(s.insert(0, value) =~= seq![value] + s);
    assert(s.insert(s.len() as int, value) =~= s.push(value));
}

/// A deletion of the first position is a deletion at the front, and a
/// deletion of the last position is a deletion at the back.
pub proof fn lemma_remove_at_the_ends<T>(s: Seq<T>)
    requires
        s.len() > 0,
    ensures
        s.remove(0) == s.drop_first(),
        s.remove(s.len() - 1) == s.drop_last(),
{
    assert(s.remove(0) =~= s.drop_first());
    assert(s.remove(s.len() - 1) =~= s.drop_last());
}

} // verus!
