//! Facts about sequences used as stacks and worklists.

use vstd::prelude::*;

verus! {

/// Pushing `x` onto `s` adds exactly `x`, and keeps `s` free of duplicates when `x` was not in it.
pub proof fn lemma_push_contains<A>(s: Seq<A>, x: A)
    ensures
        forall|y: A| #[trigger] s.push(x).contains(y) <==> (s.contains(y) || y == x),
        s.no_duplicates() && !s.contains(x) ==> s.push(x).no_duplicates(),
{
    assert forall|y: A| #[trigger] s.push(x).contains(y) <==> (s.contains(y) || y == x) by {
        if s.contains(y) {
            let j = choose|j: int| 0 <= j < s.len() && s[j] == y;
            assert(s.push(x)[j] == y);
        }
        if y == x {
            assert(s.push(x)[s.len() as int] == y);
        }
        if s.push(x).contains(y) && y != x {
            let j = choose|j: int| 0 <= j < s.push(x).len() && s.push(x)[j] == y;
            assert(s[j] == y);
        }
    }
    if s.no_duplicates() && !s.contains(x) {
        assert forall|i: int, j: int| 0 <= i < j < s.push(x).len() implies s.push(x)[i] != s.push(x)[j] by {
            if j == s.len() {
                assert(s.contains(s[i]));
            }
        }
    }
}

/// Dropping the last element of a sequence without duplicates removes exactly that element.
pub proof fn lemma_drop_last_contains<A>(s: Seq<A>)
    requires
        s.len() > 0,
        s.no_duplicates(),
    ensures
        s.drop_last().no_duplicates(),
        forall|y: A| #[trigger] s.drop_last().contains(y) <==> (s.contains(y) && y != s.last()),
{
    assert forall|y: A| #[trigger] s.drop_last().contains(y) <==> (s.contains(y) && y != s.last()) by {
        if s.drop_last().contains(y) {
            let j = choose|j: int| 0 <= j < s.drop_last().len() && s.drop_last()[j] == y;
            assert(s[j] == y);
        }
        if s.contains(y) && y != s.last() {
            let j = choose|j: int| 0 <= j < s.len() && s[j] == y;
            assert(j != s.len() - 1);
            assert(s.drop_last()[j] == y);
        }
    }
}

} // verus!
