use vstd::prelude::*;

use crate::perm::{lemma_member_of_permuted, lemma_swap_keeps_multiset, swapped};
use crate::random::random_i32_between;

verus! {

broadcast use vstd::seq_lib::group_to_multiset_ensures;

/// Number of lattice gradients, and the length of each permutation.
pub const POINT_COUNT: i32 = 256;

/// The integers `0..n` in increasing order.
pub open spec fn identity_perm(n: int) -> Seq<i32> {
    Seq::new(n as nat, |k: int| k as i32)
}

/// `p` holds each of `0..POINT_COUNT` exactly once.
pub open spec fn is_permutation(p: Seq<i32>) -> bool {
    p.to_multiset() == identity_perm(POINT_COUNT as int).to_multiset()
}

/// The hash of a lattice cell: one permutation per axis, applied to the
/// cell's coordinates wrapped to `0..256`, the three results combined by
/// exclusive or.
pub open spec fn lattice_hash(px: Seq<i32>, py: Seq<i32>, pz: Seq<i32>, i: i32, j: i32, k: i32) -> int {
    (px[(i & 255) as int] ^ py[(j & 255) as int] ^ pz[(k & 255) as int]) as int
}

/// The three permutation tables of a Perlin noise generator, which pick a
/// gradient for each lattice cell.
pub struct PerlinTables {
    perm_x: Vec<i32>,
    perm_y: Vec<i32>,
    perm_z: Vec<i32>,
}

/// Every entry of a permutation of `0..POINT_COUNT` lies in that range.
pub proof fn lemma_permutation_entries(p: Seq<i32>)
    requires
        is_permutation(p),
    ensures
        p.len() == POINT_COUNT,
        forall|i: int| 0 <= i < p.len() ==> 0 <= #[trigger] p[i] < POINT_COUNT,
{
    assert(identity_perm(POINT_COUNT as int).to_multiset().len() == POINT_COUNT);
    assert forall|i: int| 0 <= i < p.len() implies 0 <= #[trigger] p[i] < POINT_COUNT by {
        lemma_member_of_permuted(identity_perm(POINT_COUNT as int), p, i);
        let k = choose|k: int|
            0 <= k < POINT_COUNT && #[trigger] identity_perm(POINT_COUNT as int)[k] == p[i];
    }
}

impl PerlinTables {
    pub closed spec fn perm_x(&self) -> Seq<i32> {
        self.perm_x@
    }

    pub closed spec fn perm_y(&self) -> Seq<i32> {
        self.perm_y@
    }

    pub closed spec fn perm_z(&self) -> Seq<i32> {
        self.perm_z@
    }

    pub open spec fn wf(&self) -> bool {
        &&& is_permutation(self.perm_x())
        &&& is_permutation(self.perm_y())
        &&& is_permutation(self.perm_z())
    }

    /// Three independently shuffled permutations.
    pub fn new() -> (r: PerlinTables)
        ensures
            r.wf(),
    {
        PerlinTables {
            perm_x: PerlinTables::perlin_generate_perm(),
            perm_y: PerlinTables::perlin_generate_perm(),
            perm_z: PerlinTables::perlin_generate_perm(),
        }
    }

    /// A random permutation of `0..POINT_COUNT`.
    pub fn perlin_generate_perm() -> (r: Vec<i32>)
        ensures
            is_permutation(r@),
    {
        let mut p: Vec<i32> = Vec::new();
        let mut i: i32 = 0;
        while i < POINT_COUNT
            invariant
                0 <= i <= POINT_COUNT,
                p@ =~= identity_perm(i as int),
            decreases POINT_COUNT - i,
        {
            p.push(i);
            i = i + 1;
        }
        PerlinTables::permute(&mut p, POINT_COUNT);
        p
    }

    /// Shuffles the first `n` entries of `p` in place (Fisher-Yates: each
    /// position from the last down swaps with a uniformly drawn position at
    /// or before it). A non-positive `n` leaves `p` as it is.
    pub fn permute(p: &mut Vec<i32>, n: i32)
        requires
            n <= old(p)@.len(),
        ensures
            final(p)@.len() == old(p)@.len(),
            final(p)@.to_multiset() == old(p)@.to_multiset(),
            forall|k: int| n <= k < old(p)@.len() ==> final(p)@[k] == old(p)@[k],
    {
        let ghost orig = p@;
        let mut i: i32 = if n > 0 { n } else { 0 };
        while i > 0
            invariant
                0 <= i,
                n <= orig.len(),
                i <= n || i == 0,
                p@.len() == orig.len(),
                p@.to_multiset() == orig.to_multiset(),
                forall|k: int| n <= k < orig.len() ==> p@[k] == orig[k],
            decreases i,
        {
            i = i - 1;
            let iu = i as usize;
            let target = random_i32_between(0, i) as usize;
            let ghost before = p@;
            let tmp = p[iu];
            p.set(iu, p[target]);
            p.set(target, tmp);
            proof {
                assert(p@ =~= swapped(before, iu as int, target as int));
                lemma_swap_keeps_multiset(before, iu as int, target as int, 0, before.len() as int);
                assert(before.subrange(0, before.len() as int) =~= before);
                assert(p@.subrange(0, before.len() as int) =~= p@);
            }
        }
    }

    /// The gradient index of the lattice cell `(i, j, k)`.
    pub fn index(&self, i: i32, j: i32, k: i32) -> (r: usize)
        requires
            self.wf(),
        ensures
            r == lattice_hash(self.perm_x(), self.perm_y(), self.perm_z(), i, j, k),
            r < POINT_COUNT,
    {
        let iu = (i & 255) as usize;
        let ju = (j & 255) as usize;
        let ku = (k & 255) as usize;
        proof {
            assert(0 <= i & 255 < 256) by (bit_vector);
            assert(0 <= j & 255 < 256) by (bit_vector);
            assert(0 <= k & 255 < 256) by (bit_vector);
            lemma_permutation_entries(self.perm_x@);
            lemma_permutation_entries(self.perm_y@);
            lemma_permutation_entries(self.perm_z@);
        }
        let a = self.perm_x[iu];
        let b = self.perm_y[ju];
        let c = self.perm_z[ku];
        proof {
            assert(0 <= a ^ b ^ c < 256) by (bit_vector)
                requires
                    0 <= a < 256,
                    0 <= b < 256,
                    0 <= c < 256,
            ;
        }
        (a ^ b ^ c) as usize
    }
}

} // verus!
