//! Connected groups: every triangle gets the number of the connected part of
//! the adjacency graph it belongs to.
use vstd::prelude::*;
use std::collections::VecDeque;
use crate::zone::PolygonInput;

verus! {

broadcast use vstd::std_specs::vecdeque::group_vec_dequeue_axioms;

/// The neighbour lists of a sequence of triangles.
pub open spec fn adjacency(tris: Seq<PolygonInput>) -> Seq<Seq<usize>> {
    Seq::new(tris.len(), |t: int| tris[t].neighbours@)
}

/// The group ids of a sequence of triangles.
pub open spec fn group_ids(tris: Seq<PolygonInput>) -> Seq<i32> {
    Seq::new(tris.len(), |t: int| tris[t].group_id)
}

/// Every neighbour refers to a triangle of the graph.
pub open spec fn in_range(adj: Seq<Seq<usize>>) -> bool {
    forall|a: int, k: int|
        0 <= a < adj.len() && 0 <= k < adj[a].len() ==> (#[trigger] adj[a][k]) < adj.len()
}

/// If `b` is a neighbour of `a`, then `a` is a neighbour of `b`.
pub open spec fn symmetric(adj: Seq<Seq<usize>>) -> bool {
    forall|a: usize, b: usize|
        a < adj.len() && b < adj.len() && (#[trigger] adj[a as int].contains(b)) ==> #[trigger] adj[b as int].contains(
            a,
        )
}

/// `p` is a walk through the graph: a non-empty sequence of triangles, each a
/// neighbour of the one before.
pub open spec fn is_walk(adj: Seq<Seq<usize>>, p: Seq<int>) -> bool {
    &&& p.len() > 0
    &&& forall|i: int| 0 <= i < p.len() ==> 0 <= #[trigger] p[i] < adj.len()
    &&& forall|i: int| 0 <= i < p.len() - 1 ==> (#[trigger] adj[p[i]]).contains(p[i + 1] as usize)
}

/// A walk leads from `a` to `b`.
pub open spec fn reachable(adj: Seq<Seq<usize>>, a: int, b: int) -> bool {
    exists|p: Seq<int>| #[trigger] is_walk(adj, p) && p[0] == a && p.last() == b
}

/// Every neighbour of a triangle that has a group is in the same group.
pub open spec fn groups_closed(adj: Seq<Seq<usize>>, grp: Seq<i32>) -> bool {
    forall|a: int, k: int|
        0 <= a < adj.len() && 0 <= k < adj[a].len() && grp[a] != -1 ==> grp[adj[a][k] as int]
            == #[trigger] grp[a] && #[trigger] adj[a][k] < adj.len()
}

/// `s` is the first triangle of group `g`: every earlier triangle is in an
/// earlier group, and every triangle of `g` can be reached from `s`.
pub open spec fn is_group_seed(adj: Seq<Seq<usize>>, grp: Seq<i32>, g: int, s: int) -> bool {
    &&& 0 <= s < grp.len()
    &&& grp[s] == g
    &&& forall|u: int| 0 <= u < s ==> 0 <= #[trigger] grp[u] < g
    &&& forall|u: int| 0 <= u < grp.len() && #[trigger] grp[u] == g ==> reachable(adj, s, u)
}

/// `grp` numbers the connected parts of the graph `adj`, `0 .. count`, in the
/// order of their first triangles.
pub open spec fn numbers_components(adj: Seq<Seq<usize>>, grp: Seq<i32>, count: int) -> bool {
    &&& grp.len() == adj.len()
    &&& forall|u: int| 0 <= u < grp.len() ==> 0 <= #[trigger] grp[u] < count
    &&& groups_closed(adj, grp)
    &&& forall|g: int| 0 <= g < count ==> #[trigger] has_group_seed(adj, grp, g)
}

/// Group `g` has a first triangle (see `is_group_seed`).
pub open spec fn has_group_seed(adj: Seq<Seq<usize>>, grp: Seq<i32>, g: int) -> bool {
    exists|s: int| #[trigger] is_group_seed(adj, grp, g, s)
}

/// How many of the first `n` triangles have no group yet.
pub open spec fn count_unassigned(grp: Seq<i32>, n: int) -> nat
    decreases n,
{
    if n <= 0 {
        0
    } else {
        count_unassigned(grp, n - 1) + if grp[n - 1] == -1 { 1nat } else { 0nat }
    }
}

proof fn lemma_count_unassigned_update(grp: Seq<i32>, i: int, v: i32, n: int)
    requires
        0 <= i < grp.len(),
        v != -1,
        0 <= n <= grp.len(),
    ensures
        count_unassigned(grp.update(i, v), n) + if i < n && grp[i] == -1 { 1nat } else { 0nat }
            == count_unassigned(grp, n),
    decreases n,
{
    if n > 0 {
        lemma_count_unassigned_update(grp, i, v, n - 1);
    }
}

/// `p` is a walk that, after its first triangle, passes only triangles that
/// have no group in `grp`.
pub open spec fn is_free_walk(adj: Seq<Seq<usize>>, grp: Seq<i32>, p: Seq<int>) -> bool {
    &&& is_walk(adj, p)
    &&& forall|j: int| 1 <= j < p.len() ==> grp[#[trigger] p[j]] == -1
}

/// A spread from `seed` over the triangles without a group in `grp` reaches
/// `u`: a walk leads from `seed` to `u` through triangles without a group.
pub open spec fn spread_reaches(adj: Seq<Seq<usize>>, grp: Seq<i32>, seed: int, u: int) -> bool {
    exists|p: Seq<int>| #[trigger] is_free_walk(adj, grp, p) && p[0] == seed && p.last() == u
}

/// `fin` is what spreading group `group_id` from `seed` over `orig` gives:
/// every triangle that the spread reaches gets the group, and nothing else
/// changes.
pub open spec fn spread_result(orig: Seq<PolygonInput>, fin: Seq<PolygonInput>, seed: int, group_id: i32) -> bool {
    &&& fin.len() == orig.len()
    &&& forall|t: int|
        #![trigger fin[t]]
        0 <= t < fin.len() ==> {
            &&& fin[t].id == orig[t].id
            &&& fin[t].neighbours@ == orig[t].neighbours@
            &&& fin[t].portals@ == orig[t].portals@
            &&& fin[t].vertex_indices == orig[t].vertex_indices
            &&& fin[t].group_id == if spread_reaches(adjacency(orig), group_ids(orig), seed, t) {
                group_id
            } else {
                orig[t].group_id
            }
        }
}

pub proof fn lemma_reaches_self(adj: Seq<Seq<usize>>, grp: Seq<i32>, a: int)
    requires
        0 <= a < adj.len(),
    ensures
        spread_reaches(adj, grp, a, a),
{
    let p = seq![a];
    assert(is_free_walk(adj, grp, p));
}

pub proof fn lemma_reaches_extend(adj: Seq<Seq<usize>>, grp: Seq<i32>, a: int, b: int, c: int)
    requires
        spread_reaches(adj, grp, a, b),
        0 <= c < adj.len(),
        adj[b].contains(c as usize),
        grp[c] == -1,
    ensures
        spread_reaches(adj, grp, a, c),
{
    let p = choose|p: Seq<int>| #[trigger] is_free_walk(adj, grp, p) && p[0] == a && p.last() == b;
    let q = p.push(c);
    assert(q[q.len() - 2] == b);
    assert forall|i: int| 0 <= i < q.len() - 1 implies (#[trigger] adj[q[i]]).contains(q[i + 1] as usize) by {
        if i < p.len() - 1 {
            assert(q[i] == p[i] && q[i + 1] == p[i + 1]);
        }
    }
    assert forall|j: int| 1 <= j < q.len() implies grp[#[trigger] q[j]] == -1 by {
        if j < p.len() {
            assert(q[j] == p[j]);
        }
    }
    assert forall|i: int| 0 <= i < q.len() implies 0 <= #[trigger] q[i] < adj.len() by {
        if i < p.len() {
            assert(q[i] == p[i]);
        }
    }
    assert(is_free_walk(adj, grp, q));
}

/// What a spread reaches is reachable, in range, and either the seed or a
/// triangle without a group.
pub proof fn lemma_reaches_facts(adj: Seq<Seq<usize>>, grp: Seq<i32>, a: int, b: int)
    requires
        spread_reaches(adj, grp, a, b),
    ensures
        reachable(adj, a, b),
        0 <= b < adj.len(),
        b == a || grp[b] == -1,
{
    let p = choose|p: Seq<int>| #[trigger] is_free_walk(adj, grp, p) && p[0] == a && p.last() == b;
    assert(is_walk(adj, p));
    assert(p[p.len() - 1] == b);
}

/// Every in-range neighbour of `u` that had no group is marked.
pub open spec fn spread_done(adj: Seq<Seq<usize>>, grp: Seq<i32>, marked: Set<int>, u: int) -> bool {
    forall|k: int|
        0 <= k < adj[u].len() && #[trigger] adj[u][k] < adj.len() && grp[adj[u][k] as int] == -1
            ==> marked.contains(adj[u][k] as int)
}

/// The triangles of `cur` are those of `orig`, with the marked ones given
/// `group_id`; every marked triangle is reached from the seed.
pub open spec fn spread_state(orig: Seq<PolygonInput>, cur: Seq<PolygonInput>, marked: Set<int>, seed: int, group_id: i32) -> bool {
    &&& cur.len() == orig.len()
    &&& forall|t: int|
        #![trigger cur[t]]
        0 <= t < cur.len() ==> {
            &&& cur[t].id == orig[t].id
            &&& cur[t].neighbours@ == orig[t].neighbours@
            &&& cur[t].portals@ == orig[t].portals@
            &&& cur[t].vertex_indices == orig[t].vertex_indices
            &&& cur[t].group_id == if marked.contains(t) {
                group_id
            } else {
                orig[t].group_id
            }
        }
    &&& forall|u: int|
        #[trigger] marked.contains(u) ==> 0 <= u < orig.len() && spread_reaches(
            adjacency(orig),
            group_ids(orig),
            seed,
            u,
        ) && (u == seed || orig[u].group_id == -1)
}

/// Everything queued is reached from the seed, and is the seed or marked.
pub open spec fn spread_queue(adj: Seq<Seq<usize>>, grp: Seq<i32>, marked: Set<int>, queue: Seq<usize>, seed: int) -> bool {
    forall|i: int|
        0 <= i < queue.len() ==> (#[trigger] queue[i]) < adj.len() && spread_reaches(adj, grp, seed, queue[i] as int)
            && (queue[i] == seed || marked.contains(queue[i] as int))
}

/// Every marked triangle and the seed, except `skip`, is done or queued.
pub open spec fn spread_pending(adj: Seq<Seq<usize>>, grp: Seq<i32>, marked: Set<int>, queue: Seq<usize>, seed: int, skip: int) -> bool {
    &&& forall|u: int|
        #[trigger] marked.contains(u) && u != skip ==> spread_done(adj, grp, marked, u) || queue.contains(u as usize)
    &&& seed != skip ==> spread_done(adj, grp, marked, seed) || queue.contains(seed as usize)
}

proof fn lemma_done_grows(adj: Seq<Seq<usize>>, grp: Seq<i32>, marked: Set<int>, x: int, u: int)
    requires
        spread_done(adj, grp, marked, u),
    ensures
        spread_done(adj, grp, marked.insert(x), u),
{
}

proof fn lemma_spread_complete(adj: Seq<Seq<usize>>, grp: Seq<i32>, marked: Set<int>, seed: int, p: Seq<int>)
    requires
        is_free_walk(adj, grp, p),
        adj.len() <= usize::MAX,
        p[0] == seed,
        marked.contains(seed),
        forall|u: int| #[trigger] marked.contains(u) ==> spread_done(adj, grp, marked, u),
    ensures
        marked.contains(p.last()),
    decreases p.len(),
{
    if p.len() > 1 {
        let q = p.drop_last();
        assert forall|i: int| 0 <= i < q.len() - 1 implies (#[trigger] adj[q[i]]).contains(q[i + 1] as usize) by {
            assert(q[i] == p[i] && q[i + 1] == p[i + 1]);
            assert(adj[p[i]].contains(p[i + 1] as usize));
        }
        assert forall|j: int| 1 <= j < q.len() implies grp[#[trigger] q[j]] == -1 by {
            assert(q[j] == p[j]);
        }
        assert forall|i: int| 0 <= i < q.len() implies 0 <= #[trigger] q[i] < adj.len() by {
            assert(q[i] == p[i]);
        }
        assert(is_free_walk(adj, grp, q));
        lemma_spread_complete(adj, grp, marked, seed, q);
        let a = q.last();
        let b = p.last();
        assert(a == p[p.len() - 2]);
        assert(adj[p[p.len() - 2]].contains(p[p.len() - 1] as usize));
        let k = choose|k: int| 0 <= k < adj[a].len() && adj[a][k] == b as usize;
        assert(0 <= b < adj.len());
        assert(grp[p[p.len() - 1]] == -1);
        assert(spread_done(adj, grp, marked, a));
        assert(adj[a][k] < adj.len());
        assert(adj[a][k] as int == b);
        assert(grp[adj[a][k] as int] == -1);
        assert(marked.contains(adj[a][k] as int));
    } else {
        assert(p.last() == p[0]);
    }
}

proof fn lemma_group_ids_update(tris: Seq<PolygonInput>, i: int, p: PolygonInput)
    requires
        0 <= i < tris.len(),
    ensures
        group_ids(tris.update(i, p)) =~= group_ids(tris).update(i, p.group_id),
{
}

/// Gives group `group_id` to the seed and to every triangle reachable from it
/// through triangles that have no group yet, breadth first; neighbour ids
/// outside the mesh are skipped.
pub fn spread_group_id(triangles: &mut Vec<PolygonInput>, seed_idx: usize, group_id: i32)
    requires
        seed_idx < old(triangles).len(),
        group_id != -1,
    ensures
        spread_result(old(triangles)@, final(triangles)@, seed_idx as int, group_id),
{
    let ghost orig = triangles@;
    let ghost adj = adjacency(orig);
    let ghost grp0 = group_ids(orig);
    let ghost mut marked: Set<int> = Set::empty();
    let n = triangles.len();
    let mut queue: VecDeque<usize> = VecDeque::new();
    queue.push_back(seed_idx);
    proof {
        lemma_reaches_self(adj, grp0, seed_idx as int);
        assert(queue@[0] == seed_idx);
    }
    loop
        invariant
            n == triangles.len(),
            n == orig.len(),
            adj == adjacency(orig),
            grp0 == group_ids(orig),
            seed_idx < n,
            group_id != -1,
            spread_state(orig, triangles@, marked, seed_idx as int, group_id),
            spread_queue(adj, grp0, marked, queue@, seed_idx as int),
            spread_pending(adj, grp0, marked, queue@, seed_idx as int, -1),
            marked.contains(seed_idx as int) || queue@.contains(seed_idx),
        ensures
            queue@.len() == 0,
            spread_state(orig, triangles@, marked, seed_idx as int, group_id),
            spread_pending(adj, grp0, marked, queue@, seed_idx as int, -1),
            marked.contains(seed_idx as int),
        decreases 2 * count_unassigned(group_ids(triangles@), n as int) + queue@.len(),
    {
        let ghost measure0 = 2 * count_unassigned(group_ids(triangles@), n as int) + queue@.len();
        let ghost queue0 = queue@;
        let popped = queue.pop_front();
        let idx = match popped {
            Some(idx) => idx,
            None => break,
        };
        assert(queue0[0] == idx);
        let ghost before_mark = triangles@;
        let ghost marked0 = marked;
        triangles[idx].group_id = group_id;
        proof {
            marked = marked.insert(idx as int);
            lemma_group_ids_update(before_mark, idx as int, triangles@[idx as int]);
            assert(group_ids(triangles@) =~= group_ids(before_mark).update(idx as int, group_id));
            lemma_count_unassigned_update(group_ids(before_mark), idx as int, group_id, n as int);
            assert(spread_reaches(adj, grp0, seed_idx as int, idx as int));
            if idx != seed_idx {
                assert(marked0.contains(idx as int));
            }
            assert forall|i: int| 0 <= i < queue@.len() implies (#[trigger] queue@[i]) < adj.len()
                && spread_reaches(adj, grp0, seed_idx as int, queue@[i] as int) && (queue@[i] == seed_idx
                || marked.contains(queue@[i] as int)) by {
                assert(queue@[i] == queue0[i + 1]);
            }
            assert forall|u: int|
                #[trigger] marked.contains(u) && u != idx implies spread_done(adj, grp0, marked, u)
                || queue@.contains(u as usize) by {
                assert(marked0.contains(u));
                if queue0.contains(u as usize) {
                    let i = choose|i: int| 0 <= i < queue0.len() && queue0[i] == u as usize;
                    assert(i != 0);
                    assert(queue@[i - 1] == u as usize);
                } else {
                    lemma_done_grows(adj, grp0, marked0, idx as int, u);
                }
            }
            if seed_idx != idx {
                if queue0.contains(seed_idx) {
                    let i = choose|i: int| 0 <= i < queue0.len() && queue0[i] == seed_idx;
                    assert(i != 0);
                    assert(queue@[i - 1] == seed_idx);
                } else {
                    lemma_done_grows(adj, grp0, marked0, idx as int, seed_idx as int);
                }
            }
            assert forall|t: int| 0 <= t < triangles@.len() implies (#[trigger] triangles@[t]).group_id == if marked.contains(t) {
                group_id
            } else {
                orig[t].group_id
            } by {
                if t != idx {
                    assert(triangles@[t] == before_mark[t]);
                }
            }
        }
        let neighbour_count = triangles[idx].neighbours.len();
        let mut pos: usize = 0;
        while pos < neighbour_count
            invariant
                n == triangles.len(),
                n == orig.len(),
                adj == adjacency(orig),
                grp0 == group_ids(orig),
                seed_idx < n,
                idx < n,
                group_id != -1,
                neighbour_count == adj[idx as int].len(),
                pos <= neighbour_count,
                marked.contains(idx as int),
                marked.contains(seed_idx as int) || queue@.contains(seed_idx),
                spread_state(orig, triangles@, marked, seed_idx as int, group_id),
                spread_queue(adj, grp0, marked, queue@, seed_idx as int),
                spread_pending(adj, grp0, marked, queue@, seed_idx as int, idx as int),
                forall|k: int|
                    0 <= k < pos && #[trigger] adj[idx as int][k] < adj.len() && grp0[adj[idx as int][k] as int]
                        == -1 ==> marked.contains(adj[idx as int][k] as int),
                2 * count_unassigned(group_ids(triangles@), n as int) + queue@.len() < measure0,
            decreases neighbour_count - pos,
        {
            let next_idx = triangles[idx].neighbours[pos];
            assert(next_idx == adj[idx as int][pos as int]);
            if next_idx < triangles.len() && triangles[next_idx].group_id == -1 {
                let ghost before = triangles@;
                let ghost q_before = queue@;
                let ghost marked1 = marked;
                assert(!marked.contains(next_idx as int));
                assert(grp0[next_idx as int] == -1);
                proof {
                    assert(adj[idx as int].contains(next_idx));
                    lemma_reaches_extend(adj, grp0, seed_idx as int, idx as int, next_idx as int);
                    lemma_count_unassigned_update(group_ids(before), next_idx as int, group_id, n as int);
                }
                triangles[next_idx].group_id = group_id;
                queue.push_back(next_idx);
                proof {
                    marked = marked.insert(next_idx as int);
                    lemma_group_ids_update(before, next_idx as int, triangles@[next_idx as int]);
                    assert(group_ids(triangles@) =~= group_ids(before).update(next_idx as int, group_id));
                    assert(queue@ == q_before.push(next_idx));
                    assert forall|t: int| 0 <= t < triangles@.len() implies (#[trigger] triangles@[t]).group_id == if marked.contains(t) {
                        group_id
                    } else {
                        orig[t].group_id
                    } by {
                        if t != next_idx {
                            assert(triangles@[t] == before[t]);
                        }
                    }
                    assert forall|i: int| 0 <= i < queue@.len() implies (#[trigger] queue@[i]) < adj.len()
                        && spread_reaches(adj, grp0, seed_idx as int, queue@[i] as int) && (queue@[i] == seed_idx
                        || marked.contains(queue@[i] as int)) by {
                        if i < q_before.len() {
                            assert(queue@[i] == q_before[i]);
                        }
                    }
                    assert forall|u: int|
                        #[trigger] marked.contains(u) && u != idx implies spread_done(adj, grp0, marked, u)
                        || queue@.contains(u as usize) by {
                        if u == next_idx {
                            assert(queue@[queue@.len() - 1] == next_idx);
                        } else if q_before.contains(u as usize) {
                            let i = choose|i: int| 0 <= i < q_before.len() && q_before[i] == u as usize;
                            assert(queue@[i] == u as usize);
                        } else {
                            lemma_done_grows(adj, grp0, marked1, next_idx as int, u);
                        }
                    }
                    if seed_idx != idx {
                        if q_before.contains(seed_idx) {
                            let i = choose|i: int| 0 <= i < q_before.len() && q_before[i] == seed_idx;
                            assert(queue@[i] == seed_idx);
                        } else {
                            lemma_done_grows(adj, grp0, marked1, next_idx as int, seed_idx as int);
                        }
                    }
                    if q_before.contains(seed_idx) {
                        let i = choose|i: int| 0 <= i < q_before.len() && q_before[i] == seed_idx;
                        assert(queue@[i] == seed_idx);
                    }
                }
            } else {
                proof {
                    if next_idx < n && grp0[next_idx as int] == -1 {
                        assert(triangles@[next_idx as int].group_id != -1);
                        assert(marked.contains(next_idx as int));
                    }
                }
            }
            pos += 1;
        }
    }
    proof {
        let fin = triangles@;
        assert forall|t: int| 0 <= t < fin.len() implies #[trigger] marked.contains(t) == spread_reaches(adj, grp0, seed_idx as int, t) by {
            if spread_reaches(adj, grp0, seed_idx as int, t) {
                let p = choose|p: Seq<int>| #[trigger] is_free_walk(adj, grp0, p) && p[0] == seed_idx as int && p.last() == t;
                assert forall|u: int| #[trigger] marked.contains(u) implies spread_done(adj, grp0, marked, u) by {
                    assert(!queue@.contains(u as usize));
                }
                lemma_spread_complete(adj, grp0, marked, seed_idx as int, p);
            }
        }
        assert forall|t: int| 0 <= t < fin.len() implies {
            &&& (#[trigger] fin[t]).id == orig[t].id
            &&& fin[t].neighbours@ == orig[t].neighbours@
            &&& fin[t].portals@ == orig[t].portals@
            &&& fin[t].vertex_indices == orig[t].vertex_indices
            &&& fin[t].group_id == if spread_reaches(adjacency(orig), group_ids(orig), seed_idx as int, t) {
                group_id
            } else {
                orig[t].group_id
            }
        } by {
            assert(marked.contains(t) == spread_reaches(adj, grp0, seed_idx as int, t));
        }
    }
}

/// Gives every triangle the number of its connected group. Groups are
/// numbered from 0 in the order of their first triangle.
pub fn assign_groups(triangles: &mut Vec<PolygonInput>) -> (count: i32)
    requires
        old(triangles).len() <= i32::MAX,
        in_range(adjacency(old(triangles)@)),
        symmetric(adjacency(old(triangles)@)),
        forall|t: int| 0 <= t < old(triangles).len() ==> (#[trigger] old(triangles)[t]).group_id == -1,
    ensures
        final(triangles).len() == old(triangles).len(),
        0 <= count <= final(triangles).len(),
        forall|t: int|
            #![trigger final(triangles)[t]]
            0 <= t < final(triangles).len() ==> {
                &&& final(triangles)[t].id == old(triangles)[t].id
                &&& final(triangles)[t].neighbours@ == old(triangles)[t].neighbours@
                &&& final(triangles)[t].portals@ == old(triangles)[t].portals@
                &&& final(triangles)[t].vertex_indices == old(triangles)[t].vertex_indices
            },
        numbers_components(adjacency(old(triangles)@), group_ids(final(triangles)@), count as int),
{
    let ghost orig = triangles@;
    let ghost adj = adjacency(orig);
    let n = triangles.len();
    let mut current_group: i32 = 0;
    let mut tri_idx: usize = 0;
    proof {
        assert forall|a: int, k: int|
            0 <= a < adj.len() && 0 <= k < adj[a].len() && group_ids(triangles@)[a] != -1 implies group_ids(
                triangles@,
            )[adj[a][k] as int] == #[trigger] group_ids(triangles@)[a] && #[trigger] adj[a][k] < adj.len() by {
            assert(triangles@[a].group_id == -1);
        }
    }
    while tri_idx < n
        invariant
            n == triangles.len(),
            n == orig.len(),
            n <= i32::MAX,
            adj == adjacency(orig),
            in_range(adj),
            symmetric(adj),
            adjacency(triangles@) == adj,
            tri_idx <= n,
            0 <= current_group <= tri_idx,
            forall|t: int|
                #![trigger triangles[t]]
                0 <= t < n ==> {
                    &&& triangles[t].id == orig[t].id
                    &&& triangles[t].neighbours@ == orig[t].neighbours@
                    &&& triangles[t].portals@ == orig[t].portals@
                    &&& triangles[t].vertex_indices == orig[t].vertex_indices
                    &&& -1 <= triangles[t].group_id < current_group
                    &&& t < tri_idx ==> triangles[t].group_id != -1
                },
            groups_closed(adj, group_ids(triangles@)),
            forall|g: int|
                0 <= g < current_group ==> #[trigger] has_group_seed(adj, group_ids(triangles@), g),
        decreases n - tri_idx,
    {
        if triangles[tri_idx].group_id != -1 {
            tri_idx += 1;
            continue;
        }
        let ghost before = triangles@;
        let ghost grp0 = group_ids(before);
        triangles[tri_idx].group_id = current_group;
        proof {
            lemma_group_ids_update(before, tri_idx as int, triangles@[tri_idx as int]);
            assert(group_ids(triangles@).update(tri_idx as int, -1i32) =~= grp0);
            assert(adjacency(triangles@) =~= adj);
        }
        let ghost mid = triangles@;
        let ghost gm = group_ids(mid);
        spread_group_id(triangles, tri_idx, current_group);
        proof {
            let after = triangles@;
            let grp1 = group_ids(after);
            let seed = tri_idx as int;
            let cur = current_group as int;
            assert(adjacency(mid) =~= adj);
            assert(gm =~= grp0.update(seed, current_group));
            assert forall|t: int| 0 <= t < n implies (#[trigger] grp1[t]) == if spread_reaches(adj, gm, seed, t) {
                current_group
            } else {
                gm[t]
            } by {
                assert(after[t].group_id == grp1[t]);
            }
            assert(adjacency(after) =~= adj);
            assert forall|t: int| 0 <= t < n implies {
                &&& #[trigger] triangles[t].id == orig[t].id
                &&& triangles[t].neighbours@ == orig[t].neighbours@
                &&& triangles[t].portals@ == orig[t].portals@
                &&& triangles[t].vertex_indices == orig[t].vertex_indices
                &&& -1 <= triangles[t].group_id < current_group + 1
                &&& t < tri_idx + 1 ==> triangles[t].group_id != -1
            } by {
                assert(after[t].group_id == grp1[t]);
                if t < tri_idx {
                    assert(before[t].group_id != -1);
                }
            }
            // Groups stay closed.
            assert forall|a: int, k: int|
                0 <= a < adj.len() && 0 <= k < adj[a].len() && grp1[a] != -1 implies grp1[adj[a][k] as int]
                    == #[trigger] grp1[a] && #[trigger] adj[a][k] < adj.len() by {
                let v = adj[a][k] as int;
                assert(adj[a][k] < adj.len());
                assert(adj[a].contains(adj[a][k]));
                if spread_reaches(adj, gm, seed, a) {
                    lemma_reaches_facts(adj, gm, seed, a);
                    if gm[v] == -1 {
                        lemma_reaches_extend(adj, gm, seed, a, v);
                    } else if v == seed {
                        lemma_reaches_self(adj, gm, seed);
                    } else {
                        let g = gm[v];
                        assert(grp0[v] == g);
                        assert(adj[v as usize as int].contains(a as usize));
                        let k2 = choose|k2: int| 0 <= k2 < adj[v].len() && adj[v][k2] == a as usize;
                        assert(grp0[adj[v][k2] as int] == grp0[v]);
                        assert(false);
                    }
                } else {
                    assert(grp1[a] == gm[a]);
                    if a == seed {
                        lemma_reaches_self(adj, gm, seed);
                    }
                    assert(a != seed);
                    assert(grp0[a] == gm[a]);
                    assert(grp0[v] == grp0[a]);
                    if spread_reaches(adj, gm, seed, v) {
                        lemma_reaches_facts(adj, gm, seed, v);
                    }
                    assert(v != seed);
                }
            }
            assert forall|g: int| 0 <= g < current_group + 1 implies #[trigger] has_group_seed(adj, grp1, g) by {
                if g == cur {
                    lemma_reaches_self(adj, gm, seed);
                    assert forall|u: int| 0 <= u < seed implies 0 <= #[trigger] grp1[u] < g by {
                        assert(before[u].group_id != -1);
                        assert(gm[u] == grp0[u]);
                        if spread_reaches(adj, gm, seed, u) {
                            lemma_reaches_facts(adj, gm, seed, u);
                        }
                    }
                    assert forall|u: int| 0 <= u < grp1.len() && #[trigger] grp1[u] == g implies reachable(adj, seed, u) by {
                        if spread_reaches(adj, gm, seed, u) {
                            lemma_reaches_facts(adj, gm, seed, u);
                        } else {
                            assert(gm[u] == current_group);
                            assert(u == seed);
                        }
                    }
                    assert(is_group_seed(adj, grp1, g, seed));
                } else {
                    assert(has_group_seed(adj, grp0, g));
                    let s0 = choose|s0: int| #[trigger] is_group_seed(adj, grp0, g, s0);
                    assert(s0 != seed);
                    assert(gm[s0] == g);
                    if spread_reaches(adj, gm, seed, s0) {
                        lemma_reaches_facts(adj, gm, seed, s0);
                    }
                    assert forall|u: int| 0 <= u < s0 implies 0 <= #[trigger] grp1[u] < g by {
                        assert(0 <= grp0[u] < g);
                        assert(u != seed);
                        if spread_reaches(adj, gm, seed, u) {
                            lemma_reaches_facts(adj, gm, seed, u);
                        }
                    }
                    assert forall|u: int| 0 <= u < grp1.len() && #[trigger] grp1[u] == g implies reachable(adj, s0, u) by {
                        if spread_reaches(adj, gm, seed, u) {
                            assert(false);
                        }
                        assert(gm[u] == g);
                        assert(u != seed);
                        assert(grp0[u] == g);
                    }
                    assert(is_group_seed(adj, grp1, g, s0));
                }
            }
        }
        current_group += 1;
        tri_idx += 1;
    }
    proof {
        let grp = group_ids(triangles@);
        assert forall|u: int| 0 <= u < grp.len() implies 0 <= #[trigger] grp[u] < current_group by {
            assert(triangles[u].group_id != -1);
        }
    }
    current_group
}

} // verus!
