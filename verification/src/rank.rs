use vstd::prelude::*;

verus! {

/// Position `p` ranks before position `q`: its distance is smaller, or the
/// distances are equal and `p` was inserted earlier.
pub open spec fn ranks_before(dist: Seq<u32>, p: int, q: int) -> bool {
    dist[p] < dist[q] || (dist[p] == dist[q] && p < q)
}

/// The number of leading positions of `order` that stay in front of `p`:
/// everything from this index on ranks after `p`.
pub open spec fn slot(dist: Seq<u32>, order: Seq<int>, p: int) -> int
    decreases order.len(),
{
    if order.len() == 0 {
        0
    } else if ranks_before(dist, p, order.last()) {
        slot(dist, order.drop_last(), p)
    } else {
        order.len() as int
    }
}

/// All positions of `dist`, nearest first; among equal distances the earlier
/// position first.
pub open spec fn ranking(dist: Seq<u32>) -> Seq<int>
    decreases dist.len(),
{
    if dist.len() == 0 {
        Seq::empty()
    } else {
        let last = dist.len() - 1;
        let rest = ranking(dist.drop_last());
        rest.insert(slot(dist, rest, last), last)
    }
}

/// How many results a search for `k` neighbours among `n` entries has.
pub open spec fn result_len(n: nat, k: nat) -> nat {
    if k < n {
        k
    } else {
        n
    }
}

/// The positions of the `k` nearest entries, nearest first.
pub open spec fn nearest(dist: Seq<u32>, k: nat) -> Seq<int> {
    ranking(dist).take(result_len(dist.len(), k) as int)
}

/// `order` holds positions of `dist` only.
pub open spec fn in_range(dist: Seq<u32>, order: Seq<int>) -> bool {
    forall|x: int| 0 <= x < order.len() ==> 0 <= #[trigger] order[x] < dist.len()
}

/// Each element of `order` ranks before all that follow it.
pub open spec fn ascending(dist: Seq<u32>, order: Seq<int>) -> bool {
    forall|x: int, y: int|
        0 <= x < y < order.len() ==> ranks_before(dist, #[trigger] order[x], #[trigger] order[y])
}

/// The slot lies inside `order`; what stands at or behind it ranks after `p`,
/// and what stands just in front of it does not.
pub proof fn lemma_slot(dist: Seq<u32>, order: Seq<int>, p: int)
    ensures
        0 <= slot(dist, order, p) <= order.len(),
        forall|x: int|
            slot(dist, order, p) <= x < order.len() ==> ranks_before(dist, p, #[trigger] order[x]),
        slot(dist, order, p) > 0 ==> !ranks_before(dist, p, order[slot(dist, order, p) - 1]),
    decreases order.len(),
{
    if order.len() > 0 && ranks_before(dist, p, order.last()) {
        let front = order.drop_last();
        lemma_slot(dist, front, p);
        assert forall|x: int| slot(dist, order, p) <= x < order.len() implies ranks_before(
            dist,
            p,
            #[trigger] order[x],
        ) by {
            if x < front.len() {
                assert(order[x] == front[x]);
            }
        }
    }
}

/// An index with the two properties of the slot is the slot.
pub proof fn lemma_slot_is(dist: Seq<u32>, order: Seq<int>, p: int, j: int)
    requires
        0 <= j <= order.len(),
        forall|x: int| j <= x < order.len() ==> ranks_before(dist, p, #[trigger] order[x]),
        j > 0 ==> !ranks_before(dist, p, order[j - 1]),
    ensures
        slot(dist, order, p) == j,
    decreases order.len(),
{
    if order.len() > 0 && j < order.len() {
        let front = order.drop_last();
        assert(ranks_before(dist, p, order[order.len() - 1]));
        assert forall|x: int| j <= x < front.len() implies ranks_before(
            dist,
            p,
            #[trigger] front[x],
        ) by {
            assert(front[x] == order[x]);
        }
        if j > 0 {
            assert(front[j - 1] == order[j - 1]);
        }
        lemma_slot_is(dist, front, p, j);
    }
}

/// The ranking lists every position of `dist` exactly once, in ascending
/// order of distance, the earlier of two equal distances first.
pub proof fn lemma_ranking(dist: Seq<u32>)
    ensures
        ranking(dist).len() == dist.len(),
        in_range(dist, ranking(dist)),
        ascending(dist, ranking(dist)),
        forall|p: int| 0 <= p < dist.len() ==> ranking(dist).contains(p),
    decreases dist.len(),
{
    if dist.len() > 0 {
        let last = dist.len() - 1;
        let front = dist.drop_last();
        let rest = ranking(front);
        let s = slot(dist, rest, last);
        let full = ranking(dist);
        lemma_ranking(front);
        lemma_slot(dist, rest, last);
        assert(full == rest.insert(s, last));
        assert forall|x: int| 0 <= x < full.len() implies 0 <= #[trigger] full[x] < dist.len() by {
            if x < s {
                assert(full[x] == rest[x]);
            } else if x > s {
                assert(full[x] == rest[x - 1]);
            }
        }
        assert forall|x: int, y: int| 0 <= x < y < full.len() implies ranks_before(
            dist,
            #[trigger] full[x],
            #[trigger] full[y],
        ) by {
            let a = if x < s {
                x
            } else {
                x - 1
            };
            let b = if y < s {
                y
            } else {
                y - 1
            };
            if x != s && y != s {
                assert(full[x] == rest[a] && full[y] == rest[b]);
                assert(ranks_before(front, rest[a], rest[b]));
                assert(front[rest[a]] == dist[rest[a]] && front[rest[b]] == dist[rest[b]]);
            } else if x == s {
                assert(full[y] == rest[b]);
                assert(ranks_before(dist, last, rest[b]));
            } else {
                assert(full[x] == rest[a]);
                assert(!ranks_before(dist, last, rest[s - 1]));
                assert(0 <= rest[s - 1] < front.len());
                if a < s - 1 {
                    assert(ranks_before(front, rest[a], rest[s - 1]));
                    assert(front[rest[a]] == dist[rest[a]]);
                    assert(front[rest[s - 1]] == dist[rest[s - 1]]);
                }
            }
        }
        assert forall|p: int| 0 <= p < dist.len() implies full.contains(p) by {
            if p == last {
                assert(full[s] == last);
            } else {
                assert(rest.contains(p));
                let x = choose|x: int| 0 <= x < rest.len() && rest[x] == p;
                if x < s {
                    assert(full[x] == p);
                } else {
                    assert(full[x + 1] == p);
                }
            }
        }
    }
}

/// The items that stand at the positions of `order`, in that order.
pub open spec fn pick<T>(items: Seq<T>, order: Seq<int>) -> Seq<T> {
    order.map_values(|p: int| items[p])
}

/// A search for `k` neighbours among `n` entries returns `k` results when
/// there are that many entries, and all `n` entries when there are fewer.
pub proof fn lemma_nearest_len(dist: Seq<u32>, k: nat)
    ensures
        nearest(dist, k).len() == result_len(dist.len(), k),
        k >= dist.len() ==> nearest(dist, k).len() == dist.len(),
        k <= dist.len() ==> nearest(dist, k).len() == k,
{
    lemma_ranking(dist);
}

/// A search among no entries has no results, whatever `k` is.
pub proof fn lemma_nearest_of_none(dist: Seq<u32>, k: nat)
    requires
        dist.len() == 0,
    ensures
        nearest(dist, k) == Seq::<int>::empty(),
{
    assert(nearest(dist, k) =~= Seq::<int>::empty());
}

/// The results come by non-decreasing distance, and of two results with the
/// same distance the one inserted earlier comes first.
pub proof fn lemma_nearest_sorted(dist: Seq<u32>, k: nat)
    ensures
        in_range(dist, nearest(dist, k)),
        forall|x: int, y: int|
            #![trigger nearest(dist, k)[x], nearest(dist, k)[y]]
            0 <= x < y < nearest(dist, k).len() ==> {
                let p = nearest(dist, k)[x];
                let q = nearest(dist, k)[y];
                dist[p] <= dist[q] && (dist[p] == dist[q] ==> p < q)
            },
{
    lemma_ranking(dist);
    let order = nearest(dist, k);
    assert forall|x: int, y: int| 0 <= x < y < order.len() implies ranks_before(
        dist,
        #[trigger] order[x],
        #[trigger] order[y],
    ) by {
        assert(order[x] == ranking(dist)[x] && order[y] == ranking(dist)[y]);
    }
    assert forall|x: int| 0 <= x < order.len() implies 0 <= #[trigger] order[x] < dist.len() by {
        assert(order[x] == ranking(dist)[x]);
    }
}

/// No entry is returned twice, and every entry that is not returned ranks
/// after every entry that is: the results are the nearest ones.
pub proof fn lemma_nearest_is_best(dist: Seq<u32>, k: nat)
    ensures
        forall|x: int, y: int|
            0 <= x < y < nearest(dist, k).len() ==> #[trigger] nearest(dist, k)[x]
                != #[trigger] nearest(dist, k)[y],
        forall|x: int, q: int|
            0 <= x < nearest(dist, k).len() && 0 <= q < dist.len() && !nearest(dist, k).contains(q)
                ==> #[trigger] ranks_before(dist, nearest(dist, k)[x], q),
{
    lemma_ranking(dist);
    let full = ranking(dist);
    let order = nearest(dist, k);
    assert forall|x: int, y: int| 0 <= x < y < order.len() implies #[trigger] order[x]
        != #[trigger] order[y] by {
        assert(ranks_before(dist, full[x], full[y]));
    }
    assert forall|x: int, q: int|
        0 <= x < order.len() && 0 <= q < dist.len() && !order.contains(q) implies #[trigger] ranks_before(
        dist,
        order[x],
        q,
    ) by {
        assert(full.contains(q));
        let y = choose|y: int| 0 <= y < full.len() && full[y] == q;
        if y < order.len() {
            assert(order[y] == q);
        }
        assert(ranks_before(dist, full[x], full[y]));
    }
}

/// `order` lists the `count` nearest positions of `dist`, nearest first:
/// it is ascending, and every position that it leaves out ranks after every
/// position that it holds.
pub open spec fn is_nearest(dist: Seq<u32>, count: nat, order: Seq<int>) -> bool {
    &&& order.len() == count
    &&& in_range(dist, order)
    &&& ascending(dist, order)
    &&& forall|x: int, q: int|
        0 <= x < order.len() && 0 <= q < dist.len() && !order.contains(q) ==> #[trigger] ranks_before(
            dist,
            order[x],
            q,
        )
}

/// What a search returns lists the nearest positions.
pub proof fn lemma_nearest_is_nearest(dist: Seq<u32>, k: nat)
    ensures
        is_nearest(dist, result_len(dist.len(), k), nearest(dist, k)),
{
    lemma_ranking(dist);
    lemma_nearest_sorted(dist, k);
    lemma_nearest_is_best(dist, k);
    let order = nearest(dist, k);
    assert forall|x: int, y: int| 0 <= x < y < order.len() implies ranks_before(
        dist,
        #[trigger] order[x],
        #[trigger] order[y],
    ) by {
        assert(order[x] == ranking(dist)[x] && order[y] == ranking(dist)[y]);
    }
}

/// Two lists of the `count` nearest positions agree on their first `upto`
/// elements.
proof fn lemma_nearest_agree(dist: Seq<u32>, count: nat, a: Seq<int>, b: Seq<int>, upto: int)
    requires
        is_nearest(dist, count, a),
        is_nearest(dist, count, b),
        0 <= upto <= count,
    ensures
        forall|y: int| 0 <= y < upto ==> a[y] == b[y],
    decreases upto,
{
    if upto > 0 {
        lemma_nearest_agree(dist, count, a, b, upto - 1);
        let x = upto - 1;
        if a[x] != b[x] {
            lemma_comes_before(dist, count, a, b, x);
            lemma_comes_before(dist, count, b, a, x);
        }
    }
}

/// Where two lists of the nearest positions agree in front of `x` and
/// differ at `x`, the element of the first ranks before that of the second.
proof fn lemma_comes_before(dist: Seq<u32>, count: nat, a: Seq<int>, b: Seq<int>, x: int)
    requires
        is_nearest(dist, count, a),
        is_nearest(dist, count, b),
        0 <= x < count,
        forall|y: int| 0 <= y < x ==> a[y] == b[y],
        a[x] != b[x],
    ensures
        ranks_before(dist, a[x], b[x]),
{
    let q = b[x];
    if a.contains(q) {
        let z = choose|z: int| 0 <= z < a.len() && a[z] == q;
        if z < x {
            assert(b[z] == q);
            assert(ranks_before(dist, b[z], b[x]));
        } else {
            assert(ranks_before(dist, a[x], a[z]));
        }
    } else {
        assert(0 <= b[x] < dist.len());
    }
}

/// The nearest positions are determined: a list with the properties of the
/// result of a search is that result.
pub proof fn lemma_nearest_is_determined(dist: Seq<u32>, k: nat, order: Seq<int>)
    requires
        is_nearest(dist, result_len(dist.len(), k), order),
    ensures
        order == nearest(dist, k),
{
    let count = result_len(dist.len(), k);
    lemma_nearest_is_nearest(dist, k);
    lemma_nearest_agree(dist, count, order, nearest(dist, k), count as int);
    assert(order =~= nearest(dist, k));
}

/// The positions held in `v`, as mathematical integers.
pub open spec fn positions(v: Seq<usize>) -> Seq<int> {
    v.map_values(|p: usize| p as int)
}

/// Extending the ranked prefix by one entry: where the new position `i`
/// goes among the best of the first `i` entries, given the place `j` that a
/// scan of the kept prefix found for it.
proof fn lemma_extend(dist: Seq<u32>, i: int, k: nat, j: int)
    requires
        0 <= i < dist.len(),
        0 <= j <= result_len(i as nat, k),
        forall|x: int|
            j <= x < result_len(i as nat, k) ==> ranks_before(
                dist.take(i + 1),
                i,
                #[trigger] nearest(dist.take(i), k)[x],
            ),
        j > 0 ==> !ranks_before(dist.take(i + 1), i, nearest(dist.take(i), k)[j - 1]),
    ensures
        j < k ==> nearest(dist.take(i + 1), k) == nearest(dist.take(i), k).insert(j, i).take(
            result_len((i + 1) as nat, k) as int,
        ),
        j >= k ==> nearest(dist.take(i + 1), k) == nearest(dist.take(i), k),
{
    let now = dist.take(i + 1);
    let before = dist.take(i);
    let full = ranking(before);
    let m = result_len(i as nat, k) as int;
    let kept = nearest(before, k);
    let s = slot(now, full, i);
    assert(now.drop_last() =~= before);
    assert(ranking(now) == full.insert(s, i));
    lemma_ranking(before);
    lemma_slot(now, full, i);
    assert(kept == full.take(m));
    if j < m {
        assert forall|x: int| j <= x < full.len() implies ranks_before(
            now,
            i,
            #[trigger] full[x],
        ) by {
            assert(kept[j] == full[j]);
            if x < m {
                assert(kept[x] == full[x]);
            } else {
                assert(ranks_before(before, full[j], full[x]));
                assert(before[full[j]] == now[full[j]] && before[full[x]] == now[full[x]]);
            }
        }
        if j > 0 {
            assert(kept[j - 1] == full[j - 1]);
        }
        lemma_slot_is(now, full, i, j);
        assert(nearest(now, k) =~= kept.insert(j, i).take(result_len((i + 1) as nat, k) as int));
    } else if m == i {
        assert(kept =~= full);
        lemma_slot_is(now, full, i, j);
        if j < k {
            assert(nearest(now, k) =~= kept.insert(j, i).take(
                result_len((i + 1) as nat, k) as int,
            ));
        } else {
            assert(nearest(now, k) =~= kept);
        }
    } else {
        if s < m {
            assert(ranks_before(now, i, full[m - 1]));
            assert(kept[m - 1] == full[m - 1]);
        }
        assert(nearest(now, k) =~= kept);
    }
}

/// Finds the positions of the `k` smallest distances, smallest first and the
/// earlier position first among equals, keeping at most `k` candidates while
/// it scans.
pub fn nearest_positions(distances: &[u32], k: usize) -> (best: Vec<usize>)
    ensures
        positions(best@) == nearest(distances@, k as nat),
{
    let n = distances.len();
    let mut best: Vec<usize> = Vec::new();
    let mut i: usize = 0;
    assert(positions(best@) =~= nearest(distances@.take(0), k as nat));
    while i < n
        invariant
            n == distances@.len(),
            0 <= i <= n,
            positions(best@) == nearest(distances@.take(i as int), k as nat),
        decreases n - i,
    {
        let ghost kept = nearest(distances@.take(i as int), k as nat);
        let ghost now = distances@.take(i + 1);
        proof {
            lemma_ranking(distances@.take(i as int));
            assert(positions(best@).len() == best@.len());
            assert forall|x: int| 0 <= x < best@.len() implies #[trigger] best@[x] < i && kept[x]
                == best@[x] by {
                assert(positions(best@)[x] == best@[x] as int);
                assert(kept[x] == ranking(distances@.take(i as int))[x]);
            }
        }
        let d = distances[i];
        let mut j: usize = best.len();
        while j > 0 && d < distances[best[j - 1]]
            invariant
                n == distances@.len(),
                0 <= i < n,
                d == distances@[i as int],
                0 <= j <= best@.len(),
                kept.len() == best@.len(),
                forall|x: int|
                    0 <= x < best@.len() ==> #[trigger] best@[x] < i && kept[x] == best@[x],
                now == distances@.take(i + 1),
                forall|x: int|
                    j <= x < best@.len() ==> ranks_before(now, i as int, #[trigger] kept[x]),
            decreases j,
        {
            proof {
                assert(kept[j - 1] == best@[j - 1]);
            }
            j = j - 1;
        }
        proof {
            if j > 0 {
                assert(kept[j - 1] == best@[j - 1]);
            }
            lemma_extend(distances@, i as int, k as nat, j as int);
        }
        if j < k {
            best.insert(j, i);
            if best.len() > k {
                best.pop();
            }
            assert(positions(best@) =~= kept.insert(j as int, i as int).take(
                result_len((i + 1) as nat, k as nat) as int,
            ));
        }
        i = i + 1;
    }
    assert(distances@.take(n as int) =~= distances@);
    best
}

} // verus!
