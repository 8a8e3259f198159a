use vstd::prelude::*;
use vstd::seq_lib::*;

verus! {

broadcast use vstd::seq_lib::group_to_multiset_ensures;

/// `s` with its entries at `i` and `j` exchanged.
pub open spec fn swapped<A>(s: Seq<A>, i: int, j: int) -> Seq<A> {
    s.update(i, s[j]).update(j, s[i])
}

/// Exchanging two entries inside `lo..hi` keeps what that range holds.
pub proof fn lemma_swap_keeps_multiset<A>(s: Seq<A>, i: int, j: int, lo: int, hi: int)
    requires
        0 <= lo <= i < hi <= s.len(),
        lo <= j < hi,
    ensures
        swapped(s, i, j).subrange(lo, hi).to_multiset() == s.subrange(lo, hi).to_multiset(),
{
    let t = s.subrange(lo, hi);
    let a = i - lo;
    let b = j - lo;
    assert(swapped(s, i, j).subrange(lo, hi) =~= t.update(a, t[b]).update(b, t[a]));
    let u = t.update(a, t[b]);
    to_multiset_update(t, a, t[b]);
    to_multiset_update(u, b, t[a]);
    if a == b {
        assert(u.update(b, t[a]) =~= t);
    } else {
        assert(u[b] == t[b]);
        assert(u.update(b, t[a]).to_multiset() =~= t.to_multiset());
    }
}

/// An entry of a sequence with the same multiset as another is an entry of
/// the other.
pub proof fn lemma_member_of_permuted<A>(s: Seq<A>, t: Seq<A>, i: int)
    requires
        s.to_multiset() == t.to_multiset(),
        0 <= i < t.len(),
    ensures
        s.contains(t[i]),
{
    assert(t.contains(t[i]));
    assert(t.to_multiset().count(t[i]) > 0);
}

} // verus!
