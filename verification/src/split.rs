//! Splitting a grouped mesh into its groups, with triangle and neighbour ids
//! renumbered within each group.
use vstd::prelude::*;
use crate::zone::PolygonInput;
use crate::grouping::group_ids;

verus! {

/// The triangles of group `g` among the first `m`, in order.
pub open spec fn members(grp: Seq<i32>, g: int, m: int) -> Seq<int>
    decreases m,
{
    if m <= 0 {
        seq![]
    } else if grp[m - 1] == g {
        members(grp, g, m - 1).push(m - 1)
    } else {
        members(grp, g, m - 1)
    }
}

/// The index of triangle `t` within its group.
pub open spec fn local_index(grp: Seq<i32>, t: int) -> int {
    members(grp, grp[t] as int, t).len() as int
}

/// `groups` holds the triangles `tris`, split by group: group `g` holds the
/// triangles of group `g` in their order, each renumbered to its index within
/// the group, with its neighbours renumbered the same way.
pub open spec fn splits_into(tris: Seq<PolygonInput>, count: int, groups: Seq<Vec<PolygonInput>>) -> bool {
    let grp = group_ids(tris);
    &&& groups.len() == count
    &&& forall|g: int|
        #![trigger groups[g]]
        0 <= g < count ==> {
            &&& groups[g].len() == members(grp, g, tris.len() as int).len()
            &&& forall|i: int|
                #![trigger groups[g][i]]
                0 <= i < groups[g].len() ==> {
                    let t = members(grp, g, tris.len() as int)[i];
                    &&& groups[g][i].id == i
                    &&& groups[g][i].group_id == tris[t].group_id
                    &&& groups[g][i].vertex_indices == tris[t].vertex_indices
                    &&& groups[g][i].portals@ == tris[t].portals@
                    &&& groups[g][i].neighbours@ == tris[t].neighbours@.map_values(
                        |b: usize| local_index(grp, b as int) as usize,
                    )
                }
        }
}

proof fn lemma_members_push(grp: Seq<i32>, g: int, m: int)
    requires
        0 <= m,
    ensures
        members(grp, g, m + 1) == if grp[m] == g {
            members(grp, g, m).push(m)
        } else {
            members(grp, g, m)
        },
{
}

/// Triangle `members(grp, g, n)[i]` of `tris` stands renumbered as `node`, its
/// first `mapped` neighbours renumbered too.
pub open spec fn placed(tris: Seq<PolygonInput>, g: int, i: int, node: PolygonInput, mapped: int) -> bool {
    let grp = group_ids(tris);
    let t = members(grp, g, tris.len() as int)[i];
    &&& node.id == i
    &&& node.group_id == tris[t].group_id
    &&& node.vertex_indices == tris[t].vertex_indices
    &&& node.portals@ == tris[t].portals@
    &&& node.neighbours@.len() == tris[t].neighbours@.len()
    &&& forall|k: int|
        #![trigger node.neighbours@[k]]
        0 <= k < node.neighbours@.len() ==> node.neighbours@[k] == if k < mapped {
            local_index(grp, tris[t].neighbours@[k] as int) as usize
        } else {
            tris[t].neighbours@[k]
        }
}

/// Members of a group are triangles of that group, in range.
pub proof fn lemma_members_bound(grp: Seq<i32>, g: int, m: int)
    requires
        0 <= m <= grp.len(),
    ensures
        members(grp, g, m).len() <= m,
        forall|i: int|
            0 <= i < members(grp, g, m).len() ==> 0 <= #[trigger] members(grp, g, m)[i] < m && grp[members(
                grp,
                g,
                m,
            )[i]] == g,
    decreases m,
{
    if m > 0 {
        lemma_members_bound(grp, g, m - 1);
        lemma_members_push(grp, g, m - 1);
        let prev = members(grp, g, m - 1);
        assert forall|i: int| 0 <= i < members(grp, g, m).len() implies 0 <= #[trigger] members(grp, g, m)[i] < m
            && grp[members(grp, g, m)[i]] == g by {
            if i < prev.len() {
                assert(members(grp, g, m)[i] == prev[i]);
            }
        }
    }
}

/// A triangle of group `g` is the member of `g` at its local index.
pub proof fn lemma_local_index(grp: Seq<i32>, t: int, m: int)
    requires
        0 <= t < m <= grp.len(),
    ensures
        0 <= local_index(grp, t) < members(grp, grp[t] as int, m).len(),
        members(grp, grp[t] as int, m)[local_index(grp, t)] == t,
    decreases m,
{
    lemma_members_push(grp, grp[t] as int, m - 1);
    if t < m - 1 {
        lemma_local_index(grp, t, m - 1);
    }
}

/// Puts the triangles of each group into a list of their own and renumbers
/// them, and their neighbour references, within it.
pub fn split_groups(triangles: Vec<PolygonInput>, count: i32) -> (groups: Vec<Vec<PolygonInput>>)
    requires
        count >= 0,
        forall|t: int|
            #![trigger triangles[t]]
            0 <= t < triangles.len() ==> {
                &&& triangles[t].id == t
                &&& 0 <= triangles[t].group_id < count
                &&& forall|k: int|
                    0 <= k < triangles[t].neighbours@.len() ==> (#[trigger] triangles[t].neighbours@[k])
                        < triangles.len()
            },
    ensures
        splits_into(triangles@, count as int, groups@),
{
    let ghost tris = triangles@;
    let ghost grp = group_ids(tris);
    let n = triangles.len();
    let group_count = count as usize;
    let mut groups: Vec<Vec<PolygonInput>> = Vec::new();
    let mut g: usize = 0;
    while g < group_count
        invariant
            g <= group_count,
            groups.len() == g,
            forall|h: int| 0 <= h < g ==> (#[trigger] groups[h]).len() == 0,
        decreases group_count - g,
    {
        groups.push(Vec::new());
        g += 1;
    }
    let mut global_to_local: Vec<usize> = Vec::new();
    let mut fill: usize = 0;
    while fill < n
        invariant
            fill <= n,
            global_to_local.len() == fill,
        decreases n - fill,
    {
        global_to_local.push(usize::MAX);
        fill += 1;
    }
    proof {
        assert forall|h: int| 0 <= h < group_count implies (#[trigger] groups[h]).len() == members(grp, h, 0).len() by {}
    }
    for triangle in it: triangles.into_iter()
        invariant
            it.seq() == tris,
            n == tris.len(),
            grp == group_ids(tris),
            group_count == count,
            groups.len() == group_count,
            global_to_local.len() == n,
            forall|t: int|
                #![trigger tris[t]]
                0 <= t < n ==> {
                    &&& tris[t].id == t
                    &&& 0 <= tris[t].group_id < count
                },
            forall|h: int|
                #![trigger groups[h]]
                0 <= h < group_count ==> {
                    &&& groups[h].len() == members(grp, h, it.index() as int).len()
                    &&& forall|i: int|
                        #![trigger groups[h][i]]
                        0 <= i < groups[h].len() ==> placed(tris, h, i, groups[h][i], 0)
                },
            forall|u: int|
                0 <= u < it.index() ==> #[trigger] global_to_local[u] == local_index(grp, u),
    {
        let ghost u = it.index() as int;
        let mut triangle = triangle;
        assert(triangle == tris[u]);
        let group_idx = triangle.group_id as usize;
        let global_id = triangle.id;
        let local_id = groups[group_idx].len();
        global_to_local.set(global_id, local_id);
        triangle.id = local_id;
        let ghost before = groups@;
        groups[group_idx].push(triangle);
        proof {
            lemma_local_index(grp, u, n as int);
            assert(grp[u] == tris[u].group_id);
            assert forall|h: int| 0 <= h < group_count implies {
                &&& (#[trigger] groups[h]).len() == members(grp, h, u + 1).len()
                &&& forall|i: int|
                    #![trigger groups[h][i]]
                    0 <= i < groups[h].len() ==> placed(tris, h, i, groups[h][i], 0)
            } by {
                lemma_members_push(grp, h, u);
                if h == group_idx {
                    assert forall|i: int| 0 <= i < groups[h].len() implies placed(tris, h, i, #[trigger] groups[h][i], 0) by {
                        if i < before[h].len() {
                            assert(groups[h][i] == before[h][i]);
                        } else {
                            assert(i == local_id);
                            assert(local_index(grp, u) == local_id);
                            assert(members(grp, h, n as int)[i] == u);
                            assert(groups[h][i] == triangle);
                        }
                    }
                } else {
                    assert(groups[h] == before[h]);
                }
            }
        }
    }
    let mut g: usize = 0;
    while g < group_count
        invariant
            n == tris.len(),
            grp == group_ids(tris),
            group_count == count,
            groups.len() == group_count,
            global_to_local.len() == n,
            g <= group_count,
            forall|t: int|
                #![trigger tris[t]]
                0 <= t < n ==> {
                    &&& 0 <= tris[t].group_id < count
                    &&& forall|k: int|
                        0 <= k < tris[t].neighbours@.len() ==> (#[trigger] tris[t].neighbours@[k]) < n
                },
            forall|h: int|
                #![trigger groups[h]]
                0 <= h < group_count ==> {
                    &&& groups[h].len() == members(grp, h, n as int).len()
                    &&& forall|i: int|
                        #![trigger groups[h][i]]
                        0 <= i < groups[h].len() ==> placed(
                            tris,
                            h,
                            i,
                            groups[h][i],
                            if h < g {
                                groups[h][i].neighbours@.len() as int
                            } else {
                                0
                            },
                        )
                },
            forall|u: int| 0 <= u < n ==> #[trigger] global_to_local[u] == local_index(grp, u),
        decreases group_count - g,
    {
        proof {
            lemma_members_bound(grp, g as int, n as int);
        }
        let node_count = groups[g].len();
        let mut i: usize = 0;
        while i < node_count
            invariant
                n == tris.len(),
                grp == group_ids(tris),
                group_count == count,
                groups.len() == group_count,
                global_to_local.len() == n,
                g < group_count,
                node_count == groups[g as int].len(),
                i <= node_count,
                forall|t: int|
                    #![trigger tris[t]]
                    0 <= t < n ==> {
                        &&& 0 <= tris[t].group_id < count
                        &&& forall|k: int|
                            0 <= k < tris[t].neighbours@.len() ==> (#[trigger] tris[t].neighbours@[k]) < n
                    },
                forall|j: int|
                    0 <= j < members(grp, g as int, n as int).len() ==> 0 <= #[trigger] members(
                        grp,
                        g as int,
                        n as int,
                    )[j] < n,
                forall|h: int|
                    #![trigger groups[h]]
                    0 <= h < group_count ==> {
                        &&& groups[h].len() == members(grp, h, n as int).len()
                        &&& forall|j: int|
                            #![trigger groups[h][j]]
                            0 <= j < groups[h].len() ==> placed(
                                tris,
                                h,
                                j,
                                groups[h][j],
                                if h < g || (h == g && j < i) {
                                    groups[h][j].neighbours@.len() as int
                                } else {
                                    0
                                },
                            )
                    },
                forall|u: int| 0 <= u < n ==> #[trigger] global_to_local[u] == local_index(grp, u),
            decreases node_count - i,
        {
            let ghost t = members(grp, g as int, n as int)[i as int];
            assert(placed(tris, g as int, i as int, groups[g as int][i as int], 0));
            let link_count = groups[g][i].neighbours.len();
            let mut k: usize = 0;
            while k < link_count
                invariant
                    n == tris.len(),
                    grp == group_ids(tris),
                    group_count == count,
                    groups.len() == group_count,
                    global_to_local.len() == n,
                    g < group_count,
                    node_count == groups[g as int].len(),
                    i < node_count,
                    0 <= t < n,
                    t == members(grp, g as int, n as int)[i as int],
                    link_count == groups[g as int][i as int].neighbours@.len(),
                    k <= link_count,
                    forall|q: int|
                        0 <= q < tris[t].neighbours@.len() ==> (#[trigger] tris[t].neighbours@[q]) < n,
                    forall|h: int|
                        #![trigger groups[h]]
                        0 <= h < group_count ==> {
                            &&& groups[h].len() == members(grp, h, n as int).len()
                            &&& forall|j: int|
                                #![trigger groups[h][j]]
                                0 <= j < groups[h].len() ==> placed(
                                    tris,
                                    h,
                                    j,
                                    groups[h][j],
                                    if h < g || (h == g && j < i) {
                                        groups[h][j].neighbours@.len() as int
                                    } else if h == g && j == i {
                                        k as int
                                    } else {
                                        0
                                    },
                                )
                        },
                    forall|u: int| 0 <= u < n ==> #[trigger] global_to_local[u] == local_index(grp, u),
                decreases link_count - k,
            {
                let ghost before = groups@;
                assert(placed(tris, g as int, i as int, groups[g as int][i as int], k as int));
                let nid = groups[g][i].neighbours[k];
                assert(nid == tris[t].neighbours@[k as int]);
                let local = global_to_local[nid];
                groups[g][i].neighbours.set(k, local);
                proof {
                    assert forall|h: int| 0 <= h < group_count implies {
                        &&& (#[trigger] groups[h]).len() == members(grp, h, n as int).len()
                        &&& forall|j: int|
                            #![trigger groups[h][j]]
                            0 <= j < groups[h].len() ==> placed(
                                tris,
                                h,
                                j,
                                groups[h][j],
                                if h < g || (h == g && j < i) {
                                    groups[h][j].neighbours@.len() as int
                                } else if h == g && j == i {
                                    k + 1
                                } else {
                                    0
                                },
                            )
                    } by {
                        if h == g {
                            assert forall|j: int| 0 <= j < groups[h].len() implies placed(
                                tris,
                                h,
                                j,
                                #[trigger] groups[h][j],
                                if h < g || (h == g && j < i) {
                                    groups[h][j].neighbours@.len() as int
                                } else if h == g && j == i {
                                    k + 1
                                } else {
                                    0
                                },
                            ) by {
                                if j != i {
                                    assert(groups[h][j] == before[h][j]);
                                } else {
                                    assert(placed(tris, h, j, before[h][j], k as int));
                                    let node = groups[h][j];
                                    assert forall|q: int| 0 <= q < node.neighbours@.len() implies #[trigger] node.neighbours@[q]
                                        == if q < k + 1 {
                                        local_index(grp, tris[t].neighbours@[q] as int) as usize
                                    } else {
                                        tris[t].neighbours@[q]
                                    } by {
                                        if q != k {
                                            assert(node.neighbours@[q] == before[h][j].neighbours@[q]);
                                        }
                                    }
                                }
                            }
                        } else {
                            assert(groups[h] == before[h]);
                        }
                    }
                }
                k += 1;
            }
            i += 1;
        }
        g += 1;
    }
    proof {
        assert forall|h: int| #![trigger groups@[h]] 0 <= h < count implies {
            &&& groups@[h].len() == members(grp, h, tris.len() as int).len()
            &&& forall|i: int|
                #![trigger groups@[h][i]]
                0 <= i < groups@[h].len() ==> {
                    let t = members(grp, h, tris.len() as int)[i];
                    &&& groups@[h][i].id == i
                    &&& groups@[h][i].group_id == tris[t].group_id
                    &&& groups@[h][i].vertex_indices == tris[t].vertex_indices
                    &&& groups@[h][i].portals@ == tris[t].portals@
                    &&& groups@[h][i].neighbours@ == tris[t].neighbours@.map_values(
                        |b: usize| local_index(grp, b as int) as usize,
                    )
                }
        } by {
            assert forall|i: int| 0 <= i < groups@[h].len() implies {
                let t = members(grp, h, tris.len() as int)[i];
                &&& (#[trigger] groups@[h][i]).id == i
                &&& groups@[h][i].group_id == tris[t].group_id
                &&& groups@[h][i].vertex_indices == tris[t].vertex_indices
                &&& groups@[h][i].portals@ == tris[t].portals@
                &&& groups@[h][i].neighbours@ == tris[t].neighbours@.map_values(
                    |b: usize| local_index(grp, b as int) as usize,
                )
            } by {
                let t = members(grp, h, tris.len() as int)[i];
                assert(placed(tris, h, i, groups[h][i], groups[h][i].neighbours@.len() as int));
                assert(groups@[h][i].neighbours@ =~= tris[t].neighbours@.map_values(
                    |b: usize| local_index(grp, b as int) as usize,
                ));
            }
        }
    }
    groups
}

/// The member of group `g` at position `i` has local index `i`.
pub proof fn lemma_local_of_member(grp: Seq<i32>, g: int, i: int, m: int)
    requires
        0 <= m <= grp.len(),
        0 <= i < members(grp, g, m).len(),
    ensures
        local_index(grp, members(grp, g, m)[i]) == i,
    decreases m,
{
    lemma_members_bound(grp, g, m);
    lemma_members_push(grp, g, m - 1);
    let prev = members(grp, g, m - 1);
    if i < prev.len() {
        assert(members(grp, g, m)[i] == prev[i]);
        lemma_local_of_member(grp, g, i, m - 1);
    } else {
        assert(members(grp, g, m)[i] == m - 1);
        assert(grp[m - 1] == g);
    }
}

} // verus!
