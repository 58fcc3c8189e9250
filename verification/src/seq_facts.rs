//! Small general facts about sequences and their multisets, shared by the
//! repository modules.

use vstd::prelude::*;

verus! {

/// Filtering a sequence extended by one element keeps the old result and
/// appends the new element exactly when it passes.
pub proof fn lemma_filter_push<A>(s: Seq<A>, pred: spec_fn(A) -> bool, x: A)
    ensures
        s.push(x).filter(pred) == if pred(x) {
            s.filter(pred).push(x)
        } else {
            s.filter(pred)
        },
{
    reveal(Seq::filter);
    assert(s.push(x).drop_last() =~= s);
}

/// An element sitting at two positions counts at least twice in the multiset.
pub proof fn lemma_dup_count<A>(s: Seq<A>, i: int, j: int)
    requires
        0 <= i < j < s.len(),
        s[i] == s[j],
    ensures
        s.to_multiset().count(s[i]) >= 2,
{
    broadcast use vstd::seq_lib::group_to_multiset_ensures;
    broadcast use vstd::multiset::group_multiset_axioms;

    let s2 = s.remove(i);
    s.remove_ensures(i);
    assert(s2[j - 1] == s[j]);
    assert(s2.contains(s[i]));
    assert(s2.to_multiset() =~= s.to_multiset().remove(s[i]));
    assert(s2.to_multiset().count(s[i]) >= 1);
}

/// An element counting at least twice in the multiset sits at two positions.
pub proof fn lemma_count_dup<A>(s: Seq<A>, x: A)
    requires
        s.to_multiset().count(x) >= 2,
    ensures
        exists|i: int, j: int| 0 <= i < j < s.len() && s[i] == x && s[j] == x,
{
    broadcast use vstd::seq_lib::group_to_multiset_ensures;
    broadcast use vstd::multiset::group_multiset_axioms;

    assert(s.contains(x));
    let i = choose|i: int| 0 <= i < s.len() && s[i] == x;
    let s2 = s.remove(i);
    s.remove_ensures(i);
    assert(s2.to_multiset() =~= s.to_multiset().remove(x));
    assert(s2.to_multiset().count(x) >= 1);
    assert(s2.contains(x));
    let j2 = choose|j2: int| 0 <= j2 < s2.len() && s2[j2] == x;
    if j2 < i {
        assert(s[j2] == x);
        assert(0 <= j2 < i < s.len() && s[j2] == x && s[i] == x);
    } else {
        assert(s[j2 + 1] == x);
        assert(0 <= i < j2 + 1 < s.len() && s[i] == x && s[j2 + 1] == x);
    }
}

/// Two sequences carrying the same multiset hold the same elements.
pub proof fn lemma_perm_same_elements<A>(a: Seq<A>, b: Seq<A>)
    requires
        a.to_multiset() == b.to_multiset(),
    ensures
        forall|x: A| a.contains(x) <==> b.contains(x),
        a.len() == b.len(),
{
    vstd::seq_lib::to_multiset_len(a);
    vstd::seq_lib::to_multiset_len(b);
    assert forall|x: A| a.contains(x) <==> b.contains(x) by {
        vstd::seq_lib::to_multiset_contains(a, x);
        vstd::seq_lib::to_multiset_contains(b, x);
    }
}

} // verus!
