//! Seeding order of a play-off ranking: the first four places stay, and each
//! later band of places (5 to 8, 9 to 16, 17 to 32, ...) is put in the order of
//! the qualification ranks, equal ranks keeping their order.
//!
//! Places are counted from zero here: the bands are the positions 4 to 7, 8 to
//! 15, 16 to 31 and so on.

use vstd::prelude::*;

verus! {

/// First position of the band that `position` lies in, for positions from 4 on.
pub open spec fn tier_start(position: int) -> int
    decreases position,
{
    if position < 8 {
        4
    } else {
        2 * tier_start(position / 2)
    }
}

/// A band starts at or before each of its positions and is as long as its
/// start is far from zero.
pub proof fn lemma_tier_bounds(position: int)
    requires
        4 <= position,
    ensures
        4 <= tier_start(position) <= position < 2 * tier_start(position),
    decreases position,
{
    if position >= 8 {
        lemma_tier_bounds(position / 2);
    }
}

/// The positions from a band's start up to twice the start lie in that band.
pub proof fn lemma_tier_members(start: int, position: int)
    requires
        4 <= start,
        tier_start(start) == start,
        start <= position < 2 * start,
    ensures
        tier_start(position) == start,
    decreases position,
{
    if position >= 8 {
        if start < 8 {
            assert(start == 4);
        } else {
            lemma_tier_bounds(start / 2);
            lemma_tier_members(start / 2, position / 2);
        }
    }
}

/// The band after the one that starts at `start` starts at twice `start`.
pub proof fn lemma_tier_next(start: int)
    requires
        4 <= start,
        tier_start(start) == start,
    ensures
        tier_start(2 * start) == 2 * start,
{
    assert((2 * start) / 2 == start);
}

/// Whether the entry that stood at position `a` comes before the one that
/// stood at `b`: by its seed, and by its former position where the seeds are
/// equal.
pub open spec fn seeded_before(seeds: Seq<u64>, a: int, b: int) -> bool {
    seeds[a] < seeds[b] || (seeds[a] == seeds[b] && a < b)
}

/// Whether the entry that stood at position `p` is taken by `perm`.
pub open spec fn takes(perm: Seq<int>, p: int) -> bool {
    exists|i: int| 0 <= i < perm.len() && #[trigger] perm[i] == p
}

/// Whether `perm` is the seeding order for `seeds`: `perm[i]` is the former
/// position of the entry that comes to stand at position `i`. Every entry is
/// taken once, the first four stay, each entry stays in its band, and each
/// band is in the order of `seeded_before`.
pub open spec fn is_seeding(perm: Seq<int>, seeds: Seq<u64>) -> bool {
    &&& perm.len() == seeds.len()
    &&& forall|i: int| 0 <= i < perm.len() ==> 0 <= #[trigger] perm[i] < perm.len()
    &&& forall|i: int, j: int| 0 <= i < j < perm.len() ==> perm[i] != perm[j]
    &&& forall|p: int| 0 <= p < perm.len() ==> #[trigger] takes(perm, p)
    &&& forall|i: int| 0 <= i < perm.len() && i < 4 ==> perm[i] == i
    &&& forall|i: int|
        4 <= i < perm.len() ==> (#[trigger] perm[i]) >= 4 && tier_start(perm[i]) == tier_start(i)
    &&& forall|i: int, j: int|
        4 <= i < j < perm.len() && tier_start(i) == tier_start(j) ==> seeded_before(
            seeds,
            #[trigger] perm[i],
            #[trigger] perm[j],
        )
}

/// Positions as mathematical integers.
pub open spec fn as_positions(order: Seq<usize>) -> Seq<int> {
    order.map_values(|p: usize| p as int)
}

/// Whether the entry that stood at position `p` stands in `first..last`.
pub open spec fn tier_takes(order: Seq<usize>, first: int, last: int, p: int) -> bool {
    exists|t: int| first <= t < last && #[trigger] order[t] == p
}

/// Whether the positions `first..last` of `order` hold the entries of that
/// range, each once, in the order of `seeded_before`.
pub open spec fn tier_sorted(order: Seq<usize>, seeds: Seq<u64>, first: int, last: int) -> bool {
    &&& forall|t: int| first <= t < last ==> first <= #[trigger] order[t] < last
    &&& forall|a: int, b: int| first <= a < b < last ==> order[a] != order[b]
    &&& forall|p: int| first <= p < last ==> #[trigger] tier_takes(order, first, last, p)
    &&& forall|a: int, b: int|
        first <= a < b < last ==> seeded_before(
            seeds,
            (#[trigger] order[a]) as int,
            (#[trigger] order[b]) as int,
        )
}

/// Sorts the positions `first..last` of `order`, which hold their own indices,
/// by seed; entries of equal seed keep their order.
pub fn sort_tier(order: &mut Vec<usize>, seeds: &Vec<u64>, first: usize, last: usize)
    requires
        first <= last <= old(order)@.len(),
        old(order)@.len() == seeds@.len(),
        forall|t: int| first <= t < last ==> old(order)@[t] == t,
    ensures
        final(order)@.len() == old(order)@.len(),
        forall|t: int|
            0 <= t < first || last <= t < old(order)@.len() ==> final(order)@[t] == old(order)@[t],
        tier_sorted(final(order)@, seeds@, first as int, last as int),
{
    if last - first < 2 {
        assert forall|p: int| first <= p < last implies #[trigger] tier_takes(
            order@,
            first as int,
            last as int,
            p,
        ) by {
            assert(order@[p] == p);
        }
        return ;
    }
    let ghost initial = order@;
    let mut i: usize = first + 1;
    assert(tier_takes(order@, first as int, first as int + 1, first as int)) by {
        assert(order@[first as int] == first);
    }
    while i < last
        invariant
            first < i <= last <= order@.len(),
            order@.len() == initial.len(),
            order@.len() == seeds@.len(),
            forall|t: int| 0 <= t < first || last <= t < order@.len() ==> order@[t] == initial[t],
            forall|t: int| i <= t < last ==> order@[t] == t,
            tier_sorted(order@, seeds@, first as int, i as int),
        decreases last - i,
    {
        let seed = seeds[i];
        let mut j: usize = i;
        while j > first && seeds[order[j - 1]] > seed
            invariant
                first <= j <= i < last <= order@.len(),
                order@.len() == seeds@.len(),
                seed == seeds@[i as int],
                tier_sorted(order@, seeds@, first as int, i as int),
                forall|t: int| j <= t < i ==> seeds@[(#[trigger] order@[t]) as int] > seed,
            decreases j,
        {
            j = j - 1;
        }
        let ghost prev = order@;
        order.remove(i);
        order.insert(j, i);
        proof {
            let next = order@;
            assert forall|t: int| 0 <= t < next.len() implies #[trigger] next[t] == (if t < j {
                prev[t]
            } else if t == j {
                i
            } else if t <= i {
                prev[t - 1]
            } else {
                prev[t]
            }) by {}
            assert forall|a: int, b: int| first <= a < b < i + 1 implies seeded_before(
                seeds@,
                (#[trigger] next[a]) as int,
                (#[trigger] next[b]) as int,
            ) by {
                if b < j {
                } else if b == j {
                    if j > first {
                        if a < j - 1 {
                            assert(seeded_before(seeds@, prev[a] as int, prev[j - 1] as int));
                        }
                    }
                } else if a == j {
                    assert(seeds@[prev[b - 1] as int] > seed);
                } else if a < j {
                    assert(seeded_before(seeds@, prev[a] as int, prev[b - 1] as int));
                } else {
                    assert(seeded_before(seeds@, prev[a - 1] as int, prev[b - 1] as int));
                }
            }
            assert forall|a: int, b: int| first <= a < b < i + 1 implies next[a] != next[b] by {
                if a != j && b != j {
                    let pa = if a < j { a } else { a - 1 };
                    let pb = if b < j { b } else { b - 1 };
                    assert(prev[pa] != prev[pb]);
                }
            }
            assert forall|p: int| first <= p < i + 1 implies #[trigger] tier_takes(
                next,
                first as int,
                i as int + 1,
                p,
            ) by {
                if p == i {
                    assert(next[j as int] == p);
                } else {
                    assert(tier_takes(prev, first as int, i as int, p));
                    let t = choose|t: int| first <= t < i && #[trigger] prev[t] == p;
                    if t < j {
                        assert(next[t] == p);
                    } else {
                        assert(next[t + 1] == p);
                    }
                }
            }
        }
        i = i + 1;
    }
}

/// The seeding order for `seeds`: for each position, the former position of
/// the entry that comes to stand there.
pub fn seeding_order(seeds: &Vec<u64>) -> (order: Vec<usize>)
    ensures
        is_seeding(as_positions(order@), seeds@),
{
    let n: usize = seeds.len();
    let mut order: Vec<usize> = Vec::new();
    let mut k: usize = 0;
    while k < n
        invariant
            k <= n,
            order@.len() == k,
            forall|t: int| 0 <= t < k ==> order@[t] == t,
        decreases n - k,
    {
        order.push(k);
        k = k + 1;
    }
    let mut first: usize = 4;
    assert forall|p: int| 0 <= p < n implies #[trigger] takes(as_positions(order@), p) by {
        assert(as_positions(order@)[p] == p);
    }
    while first < n
        invariant
            n == seeds@.len(),
            order@.len() == n,
            4 <= first,
            first < n ==> tier_start(first as int) == first,
            forall|t: int| first <= t < n ==> order@[t] == t,
            forall|t: int| 0 <= t < n && t < first ==> #[trigger] order@[t] < first,
            forall|t: int| 0 <= t < n ==> #[trigger] order@[t] < n,
            forall|a: int, b: int| 0 <= a < b < n ==> order@[a] != order@[b],
            forall|p: int| 0 <= p < n ==> #[trigger] takes(as_positions(order@), p),
            forall|t: int| 0 <= t < n && t < 4 ==> order@[t] == t,
            forall|t: int|
                4 <= t < n && t < first ==> (#[trigger] order@[t]) >= 4 && tier_start(
                    order@[t] as int,
                ) == tier_start(t),
            forall|a: int, b: int|
                4 <= a < b < n && b < first && tier_start(a) == tier_start(b) ==> seeded_before(
                    seeds@,
                    (#[trigger] order@[a]) as int,
                    (#[trigger] order@[b]) as int,
                ),
        decreases n - first,
    {
        let last: usize = if n - first <= first {
            n
        } else {
            first + first
        };
        let ghost prev = order@;
        sort_tier(&mut order, seeds, first, last);
        proof {
            let next = order@;
            assert forall|t: int| first <= t < last implies tier_start(t) == first && tier_start(
                (#[trigger] next[t]) as int,
            ) == first by {
                lemma_tier_members(first as int, t);
                lemma_tier_members(first as int, next[t] as int);
            }
            assert forall|a: int, b: int| 0 <= a < b < n implies next[a] != next[b] by {
                if a < first {
                    assert(next[a] == prev[a]);
                    if b < first {
                        assert(next[b] == prev[b]);
                    }
                } else if b >= last {
                    assert(next[b] == prev[b]);
                    if a >= last {
                        assert(next[a] == prev[a]);
                    }
                }
            }
            assert forall|a: int, b: int|
                4 <= a < b < n && b < last && tier_start(a) == tier_start(b) implies seeded_before(
                seeds@,
                (#[trigger] next[a]) as int,
                (#[trigger] next[b]) as int,
            ) by {
                if b < first {
                    assert(next[a] == prev[a] && next[b] == prev[b]);
                } else if a < first {
                    lemma_tier_bounds(a);
                    lemma_tier_members(first as int, b);
                }
            }
            assert forall|t: int| 4 <= t < n && t < last implies (#[trigger] next[t]) >= 4
                && tier_start(next[t] as int) == tier_start(t) by {
                if t < first {
                    assert(next[t] == prev[t]);
                }
            }
            assert forall|t: int| 0 <= t < n && t < last implies #[trigger] next[t] < last by {
                if t < first {
                    assert(next[t] == prev[t]);
                }
            }
            assert forall|t: int| 0 <= t < n implies #[trigger] next[t] < n by {
                if t < first || t >= last {
                    assert(next[t] == prev[t]);
                }
            }
            assert forall|p: int| 0 <= p < n implies #[trigger] takes(as_positions(next), p) by {
                if first <= p < last {
                    assert(tier_takes(next, first as int, last as int, p));
                    let t = choose|t: int| first <= t < last && #[trigger] next[t] == p;
                    assert(as_positions(next)[t] == p);
                } else {
                    assert(takes(as_positions(prev), p));
                    let t = choose|t: int|
                        0 <= t < n && #[trigger] as_positions(prev)[t] == p;
                    assert(prev[t] == p);
                    if first <= t < last {
                        assert(prev[t] == t);
                    }
                    assert(next[t] == prev[t]);
                    assert(as_positions(next)[t] == p);
                }
            }
            if last < n {
                lemma_tier_next(first as int);
            }
        }
        first = last;
    }
    proof {
        let perm = as_positions(order@);
        assert forall|i: int, j: int|
            4 <= i < j < perm.len() && tier_start(i) == tier_start(j) implies seeded_before(
            seeds@,
            #[trigger] perm[i],
            #[trigger] perm[j],
        ) by {
            assert(seeded_before(seeds@, order@[i] as int, order@[j] as int));
        }
    }
    order
}

/// Two seeding orders for the same seeds agree up to position `upto`.
proof fn lemma_seeding_agrees(first: Seq<int>, second: Seq<int>, seeds: Seq<u64>, upto: int)
    requires
        is_seeding(first, seeds),
        is_seeding(second, seeds),
        0 <= upto <= seeds.len(),
    ensures
        forall|i: int| 0 <= i < upto ==> first[i] == second[i],
    decreases upto,
{
    if upto > 0 {
        lemma_seeding_agrees(first, second, seeds, upto - 1);
        let i = upto - 1;
        let a = first[i];
        let b = second[i];
        if i >= 4 && a != b {
            assert(takes(second, a));
            let j = choose|j: int| 0 <= j < second.len() && #[trigger] second[j] == a;
            assert(takes(first, b));
            let k = choose|k: int| 0 <= k < first.len() && #[trigger] first[k] == b;
            assert(a >= 4 && tier_start(a) == tier_start(i));
            assert(b >= 4 && tier_start(b) == tier_start(i));
            assert(j >= 4 && k >= 4);
            assert(tier_start(second[j]) == tier_start(j));
            assert(tier_start(first[k]) == tier_start(k));
            if j < i {
                assert(first[j] == second[j]);
            }
            if k < i {
                assert(first[k] == second[k]);
            }
            assert(seeded_before(seeds, second[i], second[j]));
            assert(seeded_before(seeds, first[i], first[k]));
        }
    }
}

/// There is one seeding order for given seeds, and no other.
pub proof fn lemma_seeding_unique(first: Seq<int>, second: Seq<int>, seeds: Seq<u64>)
    requires
        is_seeding(first, seeds),
        is_seeding(second, seeds),
    ensures
        first == second,
{
    lemma_seeding_agrees(first, second, seeds, seeds.len() as int);
    assert(first =~= second);
}

} // verus!
