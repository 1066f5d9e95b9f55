//! Prefix sums over an array of cost sums, kept in a Fenwick tree.
//!
//! Node `n` of the tree holds the sum of the entries `node_start(n)..=n` of the original array.

use vstd::prelude::*;

use crate::tasks::{countable, outside, CostSum};

verus! {

/// The first entry of the original array that node `n` sums up.
pub open spec fn node_start(n: usize) -> usize {
    n & ((n + 1) as usize)
}

/// The next larger node whose entries contain those of node `n`.
pub open spec fn node_above(n: usize) -> usize {
    n | ((n + 1) as usize)
}

/// The nodes to update when entry `i` of an array of `limit` entries changes: `i`, and from each
/// node on to the one above it, as long as that is below the limit.
pub open spec fn up_path(i: usize, limit: usize) -> Seq<usize>
    decreases limit - i,
{
    if i < node_above(i) < limit {
        seq![i] + up_path(node_above(i), limit)
    } else {
        seq![i]
    }
}

/// The nodes whose sums make up the prefix sum up to entry `i`: `i`, and from each node on to the
/// one just before the entries that it sums up, if there is one.
pub open spec fn down_path(i: usize) -> Seq<usize>
    decreases i,
{
    if node_start(i) == 0 {
        seq![i]
    } else {
        proof {
            lemma_node_start(i);
        }
        seq![i] + down_path((node_start(i) - 1) as usize)
    }
}

pub proof fn lemma_node_start(n: usize)
    ensures
        node_start(n) <= n,
{
    let m = (n + 1) as usize;
    assert(n & m <= n) by (bit_vector);
}

proof fn lemma_node_above(n: usize, limit: usize)
    requires
        n < limit,
    ensures
        node_above(n) > n,
{
    assert(n | ((n + 1) as usize) > n) by (bit_vector)
        requires
            n < limit,
    ;
}

/// A node `n` after `i` sums up entry `i` exactly if it is the node above `i`, or one after that
/// sums up the node above `i`.
proof fn lemma_node_step(i: usize, n: usize, limit: usize)
    requires
        i < n < limit,
    ensures
        node_start(n) <= i <==> node_start(n) <= node_above(i) <= n,
{
    assert(n & ((n + 1) as usize) <= i <==> (n & ((n + 1) as usize) <= (i | ((i + 1) as usize)) && (
    i | ((i + 1) as usize)) <= n)) by (bit_vector)
        requires
            i < n,
            n < limit,
    ;
}

/// The path up from `i` leads through exactly the nodes that sum up entry `i`.
proof fn lemma_up_path(i: usize, n: usize, limit: usize)
    requires
        i < limit,
        n < limit,
    ensures
        up_path(i, limit).contains(n) <==> node_start(n) <= i <= n,
    decreases limit - i,
{
    let next = node_above(i);
    let path = up_path(i, limit);
    lemma_node_above(i, limit);
    lemma_node_start(n);
    if i < n {
        lemma_node_step(i, n, limit);
    }
    assert(path[0] == i);
    if next < limit {
        let rest = up_path(next, limit);
        lemma_up_path(next, n, limit);
        assert(path == seq![i] + rest);
        if rest.contains(n) {
            let j = choose|j: int| 0 <= j < rest.len() && rest[j] == n;
            assert(path[j + 1] == n);
        }
        if path.contains(n) && n != i {
            let j = choose|j: int| 0 <= j < path.len() && path[j] == n;
            assert(rest[j - 1] == n);
        }
    }
}

/// The path up from `i` never comes back to a node, and stays below the limit.
proof fn lemma_up_path_increases(i: usize, limit: usize)
    requires
        i < limit,
    ensures
        forall|j: int|
            0 <= j < up_path(i, limit).len() ==> i <= #[trigger] up_path(i, limit)[j] < limit,
        forall|j: int, l: int|
            0 <= j < l < up_path(i, limit).len() ==> up_path(i, limit)[j] < up_path(i, limit)[l],
    decreases limit - i,
{
    let next = node_above(i);
    lemma_node_above(i, limit);
    if next < limit {
        lemma_up_path_increases(next, limit);
        assert(up_path(i, limit) == seq![i] + up_path(next, limit));
    }
}

/// The part of `ids` that is filed under one of the entries `first..=last`.
pub open spec fn filed(
    ids: Set<int>,
    slot: spec_fn(int) -> int,
    first: int,
    last: int,
) -> Set<int> {
    Set::new(|k: int| ids.contains(k) && first <= slot(k) <= last)
}

/// `tree` is the Fenwick tree of the array whose entry `j` sums up those instances `k` of the part
/// `ids` of `data` for which `slot(k) == j`.
pub open spec fn holds<L, I, C, S: CostSum<L, I, C>>(
    tree: Seq<S>,
    data: Seq<I>,
    ids: Set<int>,
    slot: spec_fn(int) -> int,
) -> bool {
    &&& countable(data)
    &&& forall|n: int|
        0 <= n < tree.len() ==> (#[trigger] tree[n]).sums(
            data,
            filed(ids, slot, node_start(n as usize) as int, n),
        )
}

/// A tree of empty sums holds nothing.
pub proof fn lemma_holds_nothing<L, I, C, S: CostSum<L, I, C>>(
    tree: Seq<S>,
    data: Seq<I>,
    slot: spec_fn(int) -> int,
)
    requires
        countable(data),
        forall|n: int| 0 <= n < tree.len() ==> (#[trigger] tree[n]).sums(data, Set::empty()),
    ensures
        holds::<L, I, C, S>(tree, data, Set::empty(), slot),
{
    assert forall|n: int| 0 <= n < tree.len() implies (#[trigger] tree[n]).sums(
        data,
        filed(Set::empty(), slot, node_start(n as usize) as int, n),
    ) by {
        assert(filed(Set::empty(), slot, node_start(n as usize) as int, n) =~= Set::empty());
    }
}

/// An instance that is filed after the last entry does not change the tree.
pub proof fn lemma_filed_beyond<L, I, C, S: CostSum<L, I, C>>(
    tree: Seq<S>,
    data: Seq<I>,
    ids: Set<int>,
    slot: spec_fn(int) -> int,
    k: int,
)
    requires
        holds::<L, I, C, S>(tree, data, ids, slot),
        slot(k) >= tree.len(),
    ensures
        holds::<L, I, C, S>(tree, data, ids.insert(k), slot),
{
    assert forall|n: int| 0 <= n < tree.len() implies (#[trigger] tree[n]).sums(
        data,
        filed(ids.insert(k), slot, node_start(n as usize) as int, n),
    ) by {
        let start = node_start(n as usize) as int;
        assert(filed(ids.insert(k), slot, start, n) =~= filed(ids, slot, start, n));
    }
}

/// A prefix sum contains the instances that are filed in the prefix, and an added instance exactly if
/// that one is.
pub proof fn prefix_sum_after_update(
    ids: Set<int>,
    slot: spec_fn(int) -> int,
    k: int,
    i: int,
)
    requires
        0 <= slot(k),
    ensures
        filed(ids.insert(k), slot, 0, i) == if slot(k) <= i {
            filed(ids, slot, 0, i).insert(k)
        } else {
            filed(ids, slot, 0, i)
        },
        forall|j: int|
            filed(ids, slot, 0, i).contains(j) <==> ids.contains(j) && 0 <= #[trigger] slot(j)
                <= i,
{
    assert(slot(k) <= i ==> filed(ids.insert(k), slot, 0, i) =~= filed(ids, slot, 0, i).insert(k));
    assert(slot(k) > i ==> filed(ids.insert(k), slot, 0, i) =~= filed(ids, slot, 0, i));
}

/// `after` is `before` with `instance` added.
pub open spec fn added<L, I, C, S: CostSum<L, I, C>>(before: S, after: S, instance: I) -> bool {
    forall|data: Seq<I>, ids: Set<int>, k: int|
        #![trigger before.sums(data, ids), outside(data, ids, k, instance)]
        before.sums(data, ids) && outside(data, ids, k, instance) ==> after.sums(
            data,
            ids.insert(k),
        )
}

/// Calls `fenwick::index::zero_based::up`. It panics unless `i < limit`; its successor function
/// is `n | (n + 1)`, and it stops before the first successor that is not below the limit.
#[verifier::external_body]
fn nodes_up(i: usize, limit: usize) -> (r: Vec<usize>)
    requires
        i < limit,
    ensures
        r@ == up_path(i, limit),
{
    fenwick::index::zero_based::up(i, limit).collect()
}

/// Calls `fenwick::index::zero_based::down`. It panics on `usize::MAX`; its successor function is
/// `(n & (n + 1)) - 1`, and it stops where that would be below zero.
#[verifier::external_body]
fn nodes_down(i: usize) -> (r: Vec<usize>)
    requires
        i < usize::MAX,
    ensures
        r@ == down_path(i),
{
    fenwick::index::zero_based::down(i).collect()
}

/// Conceptually performs `a[i] += delta` on the original array `a`: every node that sums up entry
/// `i` has `delta` added to it, and no other node changes.
pub fn fenwick_update<L, I, C, S: CostSum<L, I, C>>(fenwick: &mut Vec<S>, i: usize, delta: &I)
    requires
        i < old(fenwick)@.len(),
        exists|data: Seq<I>, ids: Set<int>, slot: spec_fn(int) -> int, k: int|
            holds::<L, I, C, S>(old(fenwick)@, data, ids, slot) && outside(data, ids, k, *delta)
                && slot(k) == i,
    ensures
        final(fenwick)@.len() == old(fenwick)@.len(),
        added::<L, I, C, S>(old(fenwick)@[i as int], final(fenwick)@[i as int], *delta),
        forall|n: int|
            0 <= n < old(fenwick)@.len() && node_start(n as usize) <= i <= n ==> added::<
                L,
                I,
                C,
                S,
            >(old(fenwick)@[n], #[trigger] final(fenwick)@[n], *delta),
        forall|n: int|
            0 <= n < old(fenwick)@.len() && !(node_start(n as usize) <= i <= n)
                ==> #[trigger] final(fenwick)@[n] == old(fenwick)@[n],
        forall|data: Seq<I>, ids: Set<int>, slot: spec_fn(int) -> int, k: int|
            #![trigger
                holds::<L, I, C, S>(old(fenwick)@, data, ids, slot),
                outside(data, ids, k, *delta)
            ]
            holds::<L, I, C, S>(old(fenwick)@, data, ids, slot) && outside(data, ids, k, *delta)
                && slot(k) == i ==> holds::<L, I, C, S>(
                final(fenwick)@,
                data,
                ids.insert(k),
                slot,
            ),
{
    let limit = fenwick.len();
    let path = nodes_up(i, limit);
    let ghost before = fenwick@;
    proof {
        lemma_up_path_increases(i, limit);
    }
    let mut j: usize = 0;
    while j < path.len()
        invariant
            i < limit,
            limit == fenwick@.len(),
            path@ == up_path(i, limit),
            before == old(fenwick)@,
            before.len() == fenwick@.len(),
            j <= path@.len(),
            forall|l: int| 0 <= l < path@.len() ==> #[trigger] path@[l] < limit,
            forall|l: int, m: int| 0 <= l < m < path@.len() ==> path@[l] < path@[m],
            exists|data: Seq<I>, ids: Set<int>, slot: spec_fn(int) -> int, k: int|
                holds::<L, I, C, S>(before, data, ids, slot) && outside(data, ids, k, *delta)
                    && slot(k) == i,
            forall|l: int|
                0 <= l < j ==> added::<L, I, C, S>(
                    before[path@[l] as int],
                    fenwick@[path@[l] as int],
                    *delta,
                ),
            forall|n: int|
                0 <= n < limit && !path@.take(j as int).contains(n as usize) ==> fenwick@[n]
                    == before[n],
        decreases path.len() - j,
    {
        let ii = path[j];
        proof {
            let (data, ids, slot, k) = choose|
                data: Seq<I>,
                ids: Set<int>,
                slot: spec_fn(int) -> int,
                k: int,
            |
                holds::<L, I, C, S>(before, data, ids, slot) && outside(data, ids, k, *delta)
                    && slot(k) == i;
            assert(!path@.take(j as int).contains(ii));
            assert(fenwick@[ii as int] == before[ii as int]);
            let part = filed(ids, slot, node_start(ii) as int, ii as int);
            assert(before[ii as int].sums(data, part));
            assert(outside(data, part, k, *delta));
        }
        let ghost cur = fenwick@;
        fenwick[ii].add_instance(delta);
        j += 1;
        proof {
            assert(added::<L, I, C, S>(before[ii as int], fenwick@[ii as int], *delta));
            assert forall|l: int| 0 <= l < j implies added::<L, I, C, S>(
                before[path@[l] as int],
                fenwick@[path@[l] as int],
                *delta,
            ) by {
                if l < j - 1 {
                    assert(path@[l] < ii);
                    assert(fenwick@[path@[l] as int] == cur[path@[l] as int]);
                }
            }
            assert forall|n: int|
                0 <= n < limit && !path@.take(j as int).contains(n as usize) implies fenwick@[n]
                == before[n] by {
                assert(path@.take(j as int)[j - 1] == ii);
                assert(path@.take(j as int) == path@.take(j - 1).push(ii));
                let taken = path@.take(j - 1);
                if taken.contains(n as usize) {
                    let l = choose|l: int| 0 <= l < taken.len() && taken[l] == n as usize;
                    assert(path@.take(j as int)[l] == n as usize);
                }
            }
        }
    }
    proof {
        assert(path@.take(j as int) == path@);
        assert forall|n: int| 0 <= n < limit && node_start(n as usize) <= i <= n implies added::<
            L,
            I,
            C,
            S,
        >(before[n], #[trigger] fenwick@[n], *delta) by {
            lemma_up_path(i, n as usize, limit);
            let l = choose|l: int| 0 <= l < path@.len() && path@[l] == n as usize;
            assert(added::<L, I, C, S>(
                before[path@[l] as int],
                fenwick@[path@[l] as int],
                *delta,
            ));
        }
        assert forall|n: int|
            0 <= n < limit && !(node_start(n as usize) <= i <= n) implies #[trigger] fenwick@[n]
            == before[n] by {
            lemma_up_path(i, n as usize, limit);
        }
        lemma_node_start(i);
        assert forall|data: Seq<I>, ids: Set<int>, slot: spec_fn(int) -> int, k: int|
            #![trigger holds::<L, I, C, S>(before, data, ids, slot), outside(data, ids, k, *delta)]
            holds::<L, I, C, S>(before, data, ids, slot) && outside(data, ids, k, *delta)
                && slot(k) == i implies holds::<L, I, C, S>(
            fenwick@,
            data,
            ids.insert(k),
            slot,
        ) by {
            assert forall|n: int| 0 <= n < fenwick@.len() implies (#[trigger] fenwick@[n]).sums(
                data,
                filed(ids.insert(k), slot, node_start(n as usize) as int, n),
            ) by {
                lemma_up_path(i, n as usize, limit);
                let part = filed(ids, slot, node_start(n as usize) as int, n);
                let after = filed(ids.insert(k), slot, node_start(n as usize) as int, n);
                assert(before[n].sums(data, part));
                if path@.contains(n as usize) {
                    let l = choose|l: int| 0 <= l < path@.len() && path@[l] == n as usize;
                    assert(added::<L, I, C, S>(before[path@[l] as int], fenwick@[path@[l] as int], *delta));
                    assert(outside(data, part, k, *delta));
                    assert(after =~= part.insert(k));
                } else {
                    assert(after =~= part);
                }
            }
        }
    }
}

/// Conceptually calculates `a[0] + ... + a[i]` on the original array `a`, and adds it to the
/// accumulator.
pub fn fenwick_prefix_sum<L, I, C, S: CostSum<L, I, C>>(
    fenwick: &Vec<S>,
    i: usize,
    accumulator: &mut S,
)
    requires
        i < fenwick@.len(),
        exists|data: Seq<I>, ids: Set<int>, slot: spec_fn(int) -> int, base: Set<int>|
            holds::<L, I, C, S>(fenwick@, data, ids, slot) && old(accumulator).sums(data, base)
                && base.disjoint(filed(ids, slot, 0, i as int)),
    ensures
        forall|data: Seq<I>, ids: Set<int>, slot: spec_fn(int) -> int, base: Set<int>|
            #![trigger holds::<L, I, C, S>(fenwick@, data, ids, slot), old(accumulator).sums(data, base)]
            holds::<L, I, C, S>(fenwick@, data, ids, slot) && old(accumulator).sums(data, base)
                && base.disjoint(filed(ids, slot, 0, i as int)) ==> final(accumulator).sums(
                data,
                base.union(filed(ids, slot, 0, i as int)),
            ),
{
    assert(i < fenwick.len());
    let path = nodes_down(i);
    let ghost before = *accumulator;
    proof {
        assert(path@.skip(0) == path@);
        assert forall|data: Seq<I>, ids: Set<int>, slot: spec_fn(int) -> int, base: Set<int>|
            #![trigger holds::<L, I, C, S>(fenwick@, data, ids, slot), before.sums(data, base)]
            holds::<L, I, C, S>(fenwick@, data, ids, slot) && before.sums(data, base)
                && base.disjoint(filed(ids, slot, 0, i as int)) implies accumulator.sums(
            data,
            base.union(filed(ids, slot, i as int + 1, i as int)),
        ) by {
            assert(base.union(filed(ids, slot, i as int + 1, i as int)) =~= base);
        }
    }
    // The entries after `done` are in the accumulator.
    let ghost mut done: int = i as int;
    let mut j: usize = 0;
    while j < path.len()
        invariant
            before == *old(accumulator),
            i < fenwick@.len(),
            j <= path@.len(),
            -1 <= done <= i,
            j < path@.len() ==> done >= 0 && path@.skip(j as int) == down_path(done as usize),
            j == path@.len() ==> done == -1,
            exists|data: Seq<I>, ids: Set<int>, slot: spec_fn(int) -> int, base: Set<int>|
                holds::<L, I, C, S>(fenwick@, data, ids, slot) && before.sums(data, base)
                    && base.disjoint(filed(ids, slot, 0, i as int)),
            forall|data: Seq<I>, ids: Set<int>, slot: spec_fn(int) -> int, base: Set<int>|
                #![trigger holds::<L, I, C, S>(fenwick@, data, ids, slot), before.sums(data, base)]
                holds::<L, I, C, S>(fenwick@, data, ids, slot) && before.sums(data, base)
                    && base.disjoint(filed(ids, slot, 0, i as int)) ==> accumulator.sums(
                    data,
                    base.union(filed(ids, slot, done + 1, i as int)),
                ),
        decreases path.len() - j,
    {
        let ii = path[j];
        let ghost start = node_start(ii);
        let ghost mid = *accumulator;
        proof {
            let rest = path@.skip(j as int);
            assert(rest[0] == ii);
            lemma_node_start(ii);
            assert(ii == done);
            assert(path@.skip(j as int + 1) == rest.skip(1));
            if start == 0 {
                assert(rest.len() == 1);
            } else {
                assert(rest == seq![ii] + down_path((start - 1) as usize));
                assert(rest.skip(1) == down_path((start - 1) as usize));
                assert(down_path((start - 1) as usize)[0] == start - 1);
            }
            let (data, ids, slot, base) = choose|
                data: Seq<I>,
                ids: Set<int>,
                slot: spec_fn(int) -> int,
                base: Set<int>,
            |
                holds::<L, I, C, S>(fenwick@, data, ids, slot) && before.sums(data, base)
                    && base.disjoint(filed(ids, slot, 0, i as int));
            let part = filed(ids, slot, start as int, ii as int);
            assert(fenwick@[ii as int].sums(data, part));
            assert(mid.sums(data, base.union(filed(ids, slot, done + 1, i as int))));
            assert(base.union(filed(ids, slot, done + 1, i as int)).disjoint(part)) by {
                assert forall|k: int| part.contains(k) implies !base.contains(k) by {
                    assert(filed(ids, slot, 0, i as int).contains(k));
                }
            }
        }
        accumulator.add_sum(&fenwick[ii]);
        j += 1;
        proof {
            assert forall|data: Seq<I>, ids: Set<int>, slot: spec_fn(int) -> int, base: Set<int>|
                #![trigger holds::<L, I, C, S>(fenwick@, data, ids, slot), before.sums(data, base)]
                holds::<L, I, C, S>(fenwick@, data, ids, slot) && before.sums(data, base)
                    && base.disjoint(filed(ids, slot, 0, i as int)) implies accumulator.sums(
                data,
                base.union(filed(ids, slot, start as int, i as int)),
            ) by {
                let part = filed(ids, slot, start as int, ii as int);
                let sofar = base.union(filed(ids, slot, done + 1, i as int));
                assert(fenwick@[ii as int].sums(data, part));
                assert(mid.sums(data, sofar));
                assert forall|k: int| part.contains(k) implies !sofar.contains(k) by {
                    assert(filed(ids, slot, 0, i as int).contains(k));
                }
                assert(sofar.disjoint(part));
                assert(sofar.union(part) =~= base.union(
                    filed(ids, slot, start as int, i as int),
                ));
            }
            done = start as int - 1;
        }
    }
}

} // verus!
