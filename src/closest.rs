use vstd::prelude::*;

use crate::perm::lemma_member_of_permuted;

verus! {

broadcast use vstd::seq_lib::group_to_multiset_ensures;

/// A hit at distance `t`, kept only within the bound `m`.
pub open spec fn clip(t: Option<u64>, m: u64) -> Option<u64> {
    match t {
        Some(x) => if x <= m {
            Some(x)
        } else {
            None
        },
        None => None,
    }
}

/// What the object test reports for object `i` when the distance is not
/// bounded. Distances are order-preserving keys of the ray parameter.
pub open spec fn nearest_hit<F: Fn(usize, u64) -> Option<u64>>(f: F, i: usize) -> Option<u64> {
    choose|r: Option<u64>| f.ensures((i, u64::MAX), r)
}

/// The object test behaves as a fixed nearest hit per object, reported only
/// when it lies within the bound it is given.
pub open spec fn consistent_hits<F: Fn(usize, u64) -> Option<u64>>(f: F) -> bool {
    forall|i: usize, m: u64, r: Option<u64>|
        #[trigger] f.ensures((i, m), r) ==> r == clip(nearest_hit(f, i), m)
}

/// The hit that a scan of objects `s` in order reports within bound `m`,
/// shrinking the bound to each hit found: an object's hit replaces the one
/// found so far when it is at or before it.
pub open spec fn scan<F: Fn(usize, u64) -> Option<u64>>(s: Seq<usize>, f: F, m: u64) -> Option<(usize, u64)>
    decreases s.len(),
{
    if s.len() == 0 {
        None
    } else {
        match clip(nearest_hit(f, s[0]), m) {
            Some(t) => match scan(s.drop_first(), f, t) {
                Some(later) => Some(later),
                None => Some((s[0], t)),
            },
            None => scan(s.drop_first(), f, m),
        }
    }
}

/// A scan of a single object reports its hit within the bound.
pub proof fn lemma_scan_single<F: Fn(usize, u64) -> Option<u64>>(i: usize, f: F, m: u64)
    ensures
        scan(seq![i], f, m) == (match clip(nearest_hit(f, i), m) {
            Some(t) => Some((i, t)),
            None => None,
        }),
{
    let one = seq![i];
    let none = one.drop_first();
    assert(none =~= Seq::<usize>::empty());
    assert(one[0] == i);
    assert(scan(none, f, m) is None);
    match clip(nearest_hit(f, i), m) {
        Some(t) => {
            assert(scan(none, f, t) is None);
        },
        None => {},
    }
}

/// The integers `0..n`, the positions of an `n`-object list.
pub open spec fn index_seq(n: nat) -> Seq<usize> {
    Seq::new(n, |i: int| i as usize)
}

/// Scanning one sequence after another: the second is scanned within the
/// bound that the first left, and its hit, if any, wins.
pub proof fn lemma_scan_concat<F: Fn(usize, u64) -> Option<u64>>(a: Seq<usize>, b: Seq<usize>, f: F, m: u64)
    ensures
        scan(a + b, f, m) == (match scan(a, f, m) {
            None => scan(b, f, m),
            Some((i, t)) => match scan(b, f, t) {
                Some(later) => Some(later),
                None => Some((i, t)),
            },
        }),
    decreases a.len(),
{
    if a.len() == 0 {
        assert(a + b =~= b);
    } else {
        assert((a + b).drop_first() =~= a.drop_first() + b);
        assert((a + b)[0] == a[0]);
        match clip(nearest_hit(f, a[0]), m) {
            Some(t) => {
                lemma_scan_concat(a.drop_first(), b, f, t);
            },
            None => {
                lemma_scan_concat(a.drop_first(), b, f, m);
            },
        }
    }
}

/// A scan reports nothing exactly when no object hits within the bound;
/// otherwise it reports one of the objects, with its hit, and no object hits
/// before it.
pub proof fn lemma_scan_is_nearest<F: Fn(usize, u64) -> Option<u64>>(s: Seq<usize>, f: F, m: u64)
    ensures
        scan(s, f, m) is None <==> (forall|k: int| 0 <= k < s.len() ==> (#[trigger] clip(nearest_hit(f, s[k]), m)) is None),
        scan(s, f, m) matches Some((i, t)) ==> {
            &&& s.contains(i)
            &&& clip(nearest_hit(f, i), m) == Some(t)
            &&& forall|k: int|
                0 <= k < s.len() ==> (#[trigger] clip(nearest_hit(f, s[k]), m) matches Some(u) ==> t <= u)
        },
    decreases s.len(),
{
    if s.len() > 0 {
        let rest = s.drop_first();
        assert forall|k: int| 0 < k < s.len() implies s[k] == rest[k - 1] by {}
        match clip(nearest_hit(f, s[0]), m) {
            Some(t0) => {
                lemma_scan_is_nearest(rest, f, t0);
                match scan(rest, f, t0) {
                    Some((i, t)) => {
                        let j = choose|j: int| 0 <= j < rest.len() && rest[j] == i;
                        assert(s[j + 1] == i);
                        assert forall|k: int| 0 <= k < s.len() implies (#[trigger] clip(nearest_hit(f, s[k]), m) matches Some(u) ==> t <= u) by {
                            if k > 0 {
                                assert(rest[k - 1] == s[k]);
                                assert(clip(nearest_hit(f, rest[k - 1]), t0) matches Some(u) ==> t <= u);
                            }
                        }
                    },
                    None => {
                        assert forall|k: int| 0 <= k < s.len() implies (#[trigger] clip(nearest_hit(f, s[k]), m) matches Some(u) ==> t0 <= u) by {
                            if k > 0 {
                                assert(rest[k - 1] == s[k]);
                                assert(clip(nearest_hit(f, rest[k - 1]), t0) is None);
                            }
                        }
                    },
                }
            },
            None => {
                lemma_scan_is_nearest(rest, f, m);
                match scan(rest, f, m) {
                    Some((i, t)) => {
                        let j = choose|j: int| 0 <= j < rest.len() && rest[j] == i;
                        assert(s[j + 1] == i);
                        assert forall|k: int| 0 <= k < s.len() implies (#[trigger] clip(nearest_hit(f, s[k]), m) matches Some(u) ==> t <= u) by {
                            if k > 0 {
                                assert(rest[k - 1] == s[k]);
                            }
                        }
                    },
                    None => {
                        assert forall|k: int| 0 <= k < s.len() implies (#[trigger] clip(nearest_hit(f, s[k]), m)) is None by {
                            if k > 0 {
                                assert(rest[k - 1] == s[k]);
                            }
                        }
                    },
                }
            },
        }
    }
}

/// Scans of two arrangements of the same objects agree on whether anything
/// is hit, and on the distance of the nearest hit.
pub proof fn lemma_scan_order_free<F: Fn(usize, u64) -> Option<u64>>(s1: Seq<usize>, s2: Seq<usize>, f: F, m: u64)
    requires
        s1.to_multiset() == s2.to_multiset(),
    ensures
        scan(s1, f, m) is None <==> scan(s2, f, m) is None,
        scan(s1, f, m) matches Some((i1, t1)) ==> scan(s2, f, m) matches Some((i2, t2)) && t1 == t2,
{
    lemma_scan_is_nearest(s1, f, m);
    lemma_scan_is_nearest(s2, f, m);
    if scan(s1, f, m) is None {
        assert forall|k: int| 0 <= k < s2.len() implies (#[trigger] clip(nearest_hit(f, s2[k]), m)) is None by {
            lemma_member_of_permuted(s1, s2, k);
            let j = choose|j: int| 0 <= j < s1.len() && s1[j] == s2[k];
            assert(clip(nearest_hit(f, s1[j]), m) is None);
        }
    }
    if scan(s2, f, m) is None {
        assert forall|k: int| 0 <= k < s1.len() implies (#[trigger] clip(nearest_hit(f, s1[k]), m)) is None by {
            lemma_member_of_permuted(s2, s1, k);
            let j = choose|j: int| 0 <= j < s2.len() && s2[j] == s1[k];
            assert(clip(nearest_hit(f, s2[j]), m) is None);
        }
    }
    match (scan(s1, f, m), scan(s2, f, m)) {
        (Some((i1, t1)), Some((i2, t2))) => {
            let a = choose|j: int| 0 <= j < s1.len() && s1[j] == i1;
            let b = choose|j: int| 0 <= j < s2.len() && s2[j] == i2;
            lemma_member_of_permuted(s2, s1, a);
            lemma_member_of_permuted(s1, s2, b);
            let a2 = choose|j: int| 0 <= j < s2.len() && s2[j] == i1;
            let b1 = choose|j: int| 0 <= j < s1.len() && s1[j] == i2;
            assert(clip(nearest_hit(f, s2[a2]), m) == Some(t1));
            assert(clip(nearest_hit(f, s1[b1]), m) == Some(t2));
        },
        _ => {},
    }
}

/// The nearest hit among the objects `0..count` of a list, scanned in order
/// with the bound shrinking to each hit found: the object's index and the
/// distance. `leaf_hit(i, m)` tests object `i` within bound `m`.
pub fn closest_hit<F: Fn(usize, u64) -> Option<u64>>(count: usize, leaf_hit: &F, t_max: u64) -> (r: Option<(usize, u64)>)
    requires
        forall|i: usize, m: u64| i < count ==> #[trigger] leaf_hit.requires((i, m)),
    ensures
        consistent_hits(*leaf_hit) ==> r == scan(index_seq(count as nat), *leaf_hit, t_max),
{
    let mut closest: Option<(usize, u64)> = None;
    let mut closest_so_far = t_max;
    let mut i: usize = 0;
    while i < count
        invariant
            i <= count,
            forall|k: usize, m: u64| k < count ==> #[trigger] leaf_hit.requires((k, m)),
            closest_so_far == (match closest {
                Some((_, t)) => t,
                None => t_max,
            }),
            consistent_hits(*leaf_hit) ==> closest == scan(index_seq(i as nat), *leaf_hit, t_max),
        decreases count - i,
    {
        let hit = leaf_hit(i, closest_so_far);
        proof {
            let prefix = index_seq(i as nat);
            assert(index_seq((i + 1) as nat) =~= prefix + seq![i]);
            lemma_scan_concat(prefix, seq![i], *leaf_hit, t_max);
            let f = *leaf_hit;
            lemma_scan_single(i, f, closest_so_far);
            if consistent_hits(f) {
                assert(hit == clip(nearest_hit(f, i), closest_so_far));
            }
        }
        match hit {
            Some(t) => {
                closest = Some((i, t));
                closest_so_far = t;
            },
            None => {},
        }
        i = i + 1;
    }
    closest
}

} // verus!
