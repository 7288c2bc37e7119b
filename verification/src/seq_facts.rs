use vstd::prelude::*;
use crate::point::{Point, views};

verus! {

/// `views` commutes with `push`.
pub proof fn lemma_views_push(s: Seq<Point>, p: Point)
    ensures
        views(s.push(p)) =~= views(s).push(p@),
{
}

/// `views` commutes with `remove`.
pub proof fn lemma_views_remove(s: Seq<Point>, i: int)
    requires
        0 <= i < s.len(),
    ensures
        views(s.remove(i)) =~= views(s).remove(i),
{
}

/// Two sequences with the same multiset have the same length.
pub proof fn lemma_multiset_same_len<A>(s1: Seq<A>, s2: Seq<A>)
    requires
        s1.to_multiset() == s2.to_multiset(),
    ensures
        s1.len() == s2.len(),
{
    broadcast use vstd::seq_lib::group_to_multiset_ensures;

    assert(s1.len() == s1.to_multiset().len());
    assert(s2.len() == s2.to_multiset().len());
}

} // verus!
