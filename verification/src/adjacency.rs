//! Triangle adjacency: triangles that share an edge become neighbours, and the
//! shared edge is the portal between them.
use vstd::prelude::*;
use std::collections::BTreeMap;
use crate::zone::{PolygonInput, corner_triples};

verus! {

broadcast use vstd::std_specs::btree::group_btree_axioms, vstd::laws_cmp::group_laws_cmp;

/// Edge `s % 3` of triangle `s / 3`, in the triangle's winding: `[a, b]`,
/// `[b, c]`, then `[c, a]`.
pub open spec fn step_portal(vs: Seq<[usize; 3]>, s: int) -> [usize; 2] {
    let v = vs[s / 3];
    if s % 3 == 0 {
        [v[0], v[1]]
    } else if s % 3 == 1 {
        [v[1], v[2]]
    } else {
        [v[2], v[0]]
    }
}

/// An edge without its direction: its smaller vertex first.
pub open spec fn edge_of(p: [usize; 2]) -> (usize, usize) {
    if p[0] < p[1] {
        (p[0], p[1])
    } else {
        (p[1], p[0])
    }
}

/// The last edge step before `m` that visits the undirected edge `e`.
pub open spec fn last_with_edge(vs: Seq<[usize; 3]>, e: (usize, usize), m: int) -> Option<int>
    decreases m,
{
    if m <= 0 {
        None
    } else if edge_of(step_portal(vs, m - 1)) == e {
        Some(m - 1)
    } else {
        last_with_edge(vs, e, m - 1)
    }
}

proof fn lemma_last_with_edge_bound(vs: Seq<[usize; 3]>, e: (usize, usize), m: int)
    ensures
        last_with_edge(vs, e, m) matches Some(p) ==> 0 <= p < m && edge_of(step_portal(vs, p)) == e,
    decreases m,
{
    if m > 0 {
        lemma_last_with_edge_bound(vs, e, m - 1);
    }
}

/// Where an edge step before `m` visits `e`, the last such step is found, and
/// it comes no earlier than that one.
pub proof fn lemma_last_with_edge_found(vs: Seq<[usize; 3]>, e: (usize, usize), m: int, p: int)
    requires
        0 <= p < m,
        edge_of(step_portal(vs, p)) == e,
    ensures
        last_with_edge(vs, e, m) matches Some(q) && p <= q < m && edge_of(step_portal(vs, q)) == e,
    decreases m,
{
    if edge_of(step_portal(vs, m - 1)) != e {
        lemma_last_with_edge_found(vs, e, m - 1, p);
    }
}

/// The triangle that edge step `s` links its triangle to: the triangle of the
/// previous step over the same edge, unless that is the same triangle.
pub open spec fn partner(vs: Seq<[usize; 3]>, s: int) -> Option<int> {
    match last_with_edge(vs, edge_of(step_portal(vs, s)), s) {
        Some(p) => if p / 3 != s / 3 {
            Some(p / 3)
        } else {
            None
        },
        None => None,
    }
}

/// The neighbours that the first `m` edge steps give triangle `x`, in order.
pub open spec fn link_ids(vs: Seq<[usize; 3]>, x: int, m: int) -> Seq<usize>
    decreases m,
{
    if m <= 0 {
        seq![]
    } else {
        let s = m - 1;
        let prev = link_ids(vs, x, m - 1);
        match partner(vs, s) {
            Some(o) => if s / 3 == x {
                prev.push(o as usize)
            } else if o == x {
                prev.push((s / 3) as usize)
            } else {
                prev
            },
            None => prev,
        }
    }
}

/// The portals that go with `link_ids(vs, x, m)`.
pub open spec fn link_portals(vs: Seq<[usize; 3]>, x: int, m: int) -> Seq<[usize; 2]>
    decreases m,
{
    if m <= 0 {
        seq![]
    } else {
        let s = m - 1;
        let prev = link_portals(vs, x, m - 1);
        match partner(vs, s) {
            Some(o) => if s / 3 == x || o == x {
                prev.push(step_portal(vs, s))
            } else {
                prev
            },
            None => prev,
        }
    }
}

/// The unlinked triangles of a welded index buffer.
pub fn build_triangles(remapped: &Vec<usize>) -> (tris: Vec<PolygonInput>)
    requires
        remapped.len() % 3 == 0,
    ensures
        tris.len() == remapped.len() / 3,
        forall|t: int|
            #![trigger tris[t]]
            0 <= t < tris.len() ==> {
                &&& tris[t].id == t
                &&& tris[t].group_id == -1
                &&& tris[t].neighbours@ == Seq::<usize>::empty()
                &&& tris[t].portals@ == Seq::<[usize; 2]>::empty()
                &&& tris[t].vertex_indices == [
                    remapped[3 * t],
                    remapped[3 * t + 1],
                    remapped[3 * t + 2],
                ]
            },
{
    let triangle_count = remapped.len() / 3;
    let mut tris: Vec<PolygonInput> = Vec::new();
    let mut t: usize = 0;
    while t < triangle_count
        invariant
            triangle_count == remapped.len() / 3,
            remapped.len() % 3 == 0,
            t <= triangle_count,
            tris.len() == t,
            forall|u: int|
                #![trigger tris[u]]
                0 <= u < t ==> {
                    &&& tris[u].id == u
                    &&& tris[u].group_id == -1
                    &&& tris[u].neighbours@ == Seq::<usize>::empty()
                    &&& tris[u].portals@ == Seq::<[usize; 2]>::empty()
                    &&& tris[u].vertex_indices == [
                        remapped[3 * u],
                        remapped[3 * u + 1],
                        remapped[3 * u + 2],
                    ]
                },
        decreases triangle_count - t,
    {
        let base = t * 3;
        let tri = PolygonInput {
            id: t,
            group_id: -1,
            neighbours: Vec::new(),
            portals: Vec::new(),
            vertex_indices: [remapped[base], remapped[base + 1], remapped[base + 2]],
        };
        tris.push(tri);
        t += 1;
    }
    tris
}

/// Links two triangles over a shared portal, each to the other; a triangle is
/// not linked to itself.
fn bind_neighbour(triangles: &mut Vec<PolygonInput>, source_idx: usize, other_idx: usize, portal: [usize; 2])
    requires
        source_idx < old(triangles).len(),
        other_idx < old(triangles).len(),
    ensures
        final(triangles).len() == old(triangles).len(),
        forall|x: int|
            #![trigger final(triangles)[x]]
            0 <= x < final(triangles).len() ==> {
                &&& final(triangles)[x].id == old(triangles)[x].id
                &&& final(triangles)[x].group_id == old(triangles)[x].group_id
                &&& final(triangles)[x].vertex_indices == old(triangles)[x].vertex_indices
                &&& final(triangles)[x].neighbours@ == if source_idx == other_idx {
                    old(triangles)[x].neighbours@
                } else if x == source_idx {
                    old(triangles)[x].neighbours@.push(old(triangles)[other_idx as int].id)
                } else if x == other_idx {
                    old(triangles)[x].neighbours@.push(old(triangles)[source_idx as int].id)
                } else {
                    old(triangles)[x].neighbours@
                }
                &&& final(triangles)[x].portals@ == if source_idx != other_idx && (x == source_idx
                    || x == other_idx) {
                    old(triangles)[x].portals@.push(portal)
                } else {
                    old(triangles)[x].portals@
                }
            },
{
    if source_idx == other_idx {
        return;
    }
    let other_id = triangles[other_idx].id;
    let source_id = triangles[source_idx].id;
    triangles[source_idx].neighbours.push(other_id);
    triangles[source_idx].portals.push(portal);
    triangles[other_idx].neighbours.push(source_id);
    triangles[other_idx].portals.push(portal);
}

/// Links every pair of triangles that share an edge. Edges are visited
/// triangle by triangle; each visit links the triangle to the one that
/// visited the same edge last.
pub fn link_neighbours(triangles: &mut Vec<PolygonInput>)
    requires
        old(triangles).len() * 3 <= usize::MAX,
        forall|t: int|
            #![trigger old(triangles)[t]]
            0 <= t < old(triangles).len() ==> {
                &&& old(triangles)[t].id == t
                &&& old(triangles)[t].neighbours@ == Seq::<usize>::empty()
                &&& old(triangles)[t].portals@ == Seq::<[usize; 2]>::empty()
            },
    ensures
        final(triangles).len() == old(triangles).len(),
        forall|x: int|
            #![trigger final(triangles)[x]]
            0 <= x < final(triangles).len() ==> {
                &&& final(triangles)[x].id == x
                &&& final(triangles)[x].group_id == old(triangles)[x].group_id
                &&& final(triangles)[x].vertex_indices == old(triangles)[x].vertex_indices
                &&& final(triangles)[x].neighbours@ == link_ids(
                    corner_triples(old(triangles)@),
                    x,
                    3 * old(triangles).len(),
                )
                &&& final(triangles)[x].portals@ == link_portals(
                    corner_triples(old(triangles)@),
                    x,
                    3 * old(triangles).len(),
                )
            },
{
    let ghost vs = corner_triples(triangles@);
    let ghost orig = triangles@;
    let triangle_count = triangles.len();
    let mut edges: BTreeMap<(usize, usize), usize> = BTreeMap::new();
    let mut t: usize = 0;
    while t < triangle_count
        invariant
            triangle_count == triangles.len(),
            triangle_count == orig.len(),
            triangle_count * 3 <= usize::MAX,
            vs == corner_triples(orig),
            t <= triangle_count,
            forall|x: int|
                #![trigger triangles[x]]
                0 <= x < triangle_count ==> {
                    &&& triangles[x].id == x
                    &&& triangles[x].group_id == orig[x].group_id
                    &&& triangles[x].vertex_indices == orig[x].vertex_indices
                    &&& triangles[x].neighbours@ == link_ids(vs, x, 3 * t)
                    &&& triangles[x].portals@ == link_portals(vs, x, 3 * t)
                },
            forall|e: (usize, usize)|
                #![trigger last_with_edge(vs, e, 3 * t)]
                match last_with_edge(vs, e, 3 * t) {
                    Some(p) => edges@.contains_key(e) && edges@[e] == p / 3,
                    None => !edges@.contains_key(e),
                },
        decreases triangle_count - t,
    {
        let mut k: usize = 0;
        while k < 3
            invariant
                triangle_count == triangles.len(),
                triangle_count == orig.len(),
                triangle_count * 3 <= usize::MAX,
                vs == corner_triples(orig),
                t < triangle_count,
                k <= 3,
                forall|x: int|
                    #![trigger triangles[x]]
                    0 <= x < triangle_count ==> {
                        &&& triangles[x].id == x
                        &&& triangles[x].group_id == orig[x].group_id
                        &&& triangles[x].vertex_indices == orig[x].vertex_indices
                        &&& triangles[x].neighbours@ == link_ids(vs, x, 3 * t + k)
                        &&& triangles[x].portals@ == link_portals(vs, x, 3 * t + k)
                    },
                forall|e: (usize, usize)|
                    #![trigger last_with_edge(vs, e, 3 * t + k)]
                    match last_with_edge(vs, e, 3 * t + k) {
                        Some(p) => edges@.contains_key(e) && edges@[e] == p / 3,
                        None => !edges@.contains_key(e),
                    },
            decreases 3 - k,
        {
            let ghost s: int = 3 * t + k;
            let vi = triangles[t].vertex_indices;
            assert(vi == vs[s / 3]);
            let portal: [usize; 2] = if k == 0 {
                [vi[0], vi[1]]
            } else if k == 1 {
                [vi[1], vi[2]]
            } else {
                [vi[2], vi[0]]
            };
            assert(portal == step_portal(vs, s));
            let edge = if portal[0] < portal[1] {
                (portal[0], portal[1])
            } else {
                (portal[1], portal[0])
            };
            assert(edge == edge_of(step_portal(vs, s)));
            let ghost before = last_with_edge(vs, edge, s);
            proof {
                lemma_last_with_edge_bound(vs, edge, s);
                assert(s / 3 == t as int);
                assert(s % 3 == k as int);
            }
            let ghost old_tris = triangles@;
            let previous = edges.insert(edge, t);
            match previous {
                Some(other_idx) => {
                    assert(before matches Some(p) && other_idx == p / 3);
                    bind_neighbour(triangles, t, other_idx, portal);
                },
                None => {},
            }
            assert forall|x: int| 0 <= x < triangle_count implies {
                &&& #[trigger] triangles[x].id == x
                &&& triangles[x].group_id == orig[x].group_id
                &&& triangles[x].vertex_indices == orig[x].vertex_indices
                &&& triangles[x].neighbours@ == link_ids(vs, x, s + 1)
                &&& triangles[x].portals@ == link_portals(vs, x, s + 1)
            } by {
                assert(old_tris[x].neighbours@ == link_ids(vs, x, s));
                assert(old_tris[x].portals@ == link_portals(vs, x, s));
            }
            assert forall|e: (usize, usize)|
                #![trigger last_with_edge(vs, e, s + 1)]
                match last_with_edge(vs, e, s + 1) {
                    Some(p) => edges@.contains_key(e) && edges@[e] == p / 3,
                    None => !edges@.contains_key(e),
                } by {
                if e != edge {
                    assert(last_with_edge(vs, e, s + 1) == last_with_edge(vs, e, s));
                }
            }
            k += 1;
        }
        t += 1;
    }
}

/// The links that the edge steps give a triangle refer to triangles of the
/// mesh, never to the triangle itself, and come with one portal each.
pub proof fn lemma_links_shape(vs: Seq<[usize; 3]>, x: int, m: int)
    requires
        0 <= m <= 3 * vs.len(),
        vs.len() <= usize::MAX,
    ensures
        link_ids(vs, x, m).len() == link_portals(vs, x, m).len(),
        forall|k: int|
            0 <= k < link_ids(vs, x, m).len() ==> (#[trigger] link_ids(vs, x, m)[k]) < vs.len()
                && link_ids(vs, x, m)[k] != x,
    decreases m,
{
    if m > 0 {
        lemma_links_shape(vs, x, m - 1);
        let s = m - 1;
        lemma_last_with_edge_bound(vs, edge_of(step_portal(vs, s)), s);
        assert(0 <= s / 3 < vs.len());
        match last_with_edge(vs, edge_of(step_portal(vs, s)), s) {
            Some(p) => {
                assert(0 <= p / 3 < vs.len());
            },
            None => {},
        }
        let prev = link_ids(vs, x, m - 1);
        assert forall|k: int| 0 <= k < link_ids(vs, x, m).len() implies (#[trigger] link_ids(vs, x, m)[k]) < vs.len()
            && link_ids(vs, x, m)[k] != x by {
            if k < prev.len() {
                assert(link_ids(vs, x, m)[k] == prev[k]);
            } else {
                match partner(vs, s) {
                    Some(o) => {
                        assert(0 <= o < vs.len());
                        if s / 3 == x {
                            assert(link_ids(vs, x, m)[k] == o as usize);
                        } else {
                            assert(link_ids(vs, x, m)[k] == (s / 3) as usize);
                        }
                    },
                    None => {},
                }
            }
        }
    }
}

/// An edge step that finds a partner links its triangle to it.
pub proof fn lemma_partner_linked(vs: Seq<[usize; 3]>, s: int, m: int)
    requires
        0 <= s < m <= 3 * vs.len(),
        vs.len() <= usize::MAX,
        partner(vs, s) is Some,
    ensures
        link_ids(vs, s / 3, m).contains(partner(vs, s).unwrap() as usize),
    decreases m,
{
    let o = partner(vs, s).unwrap();
    let x = s / 3;
    let cur = link_ids(vs, x, m);
    let prev = link_ids(vs, x, m - 1);
    if m - 1 == s {
        assert(cur == prev.push(o as usize));
        assert(cur[cur.len() - 1] == o as usize);
    } else {
        lemma_partner_linked(vs, s, m - 1);
        let k = choose|k: int| 0 <= k < prev.len() && prev[k] == o as usize;
        assert(cur[k] == prev[k]);
    }
}

/// Linking is mutual: if the edge steps give `x` the neighbour `y`, they give
/// `y` the neighbour `x`.
pub proof fn lemma_links_symmetric(vs: Seq<[usize; 3]>, x: int, y: int, m: int)
    requires
        0 <= x < vs.len(),
        0 <= y < vs.len(),
        vs.len() <= usize::MAX,
        0 <= m <= 3 * vs.len(),
        link_ids(vs, x, m).contains(y as usize),
    ensures
        link_ids(vs, y, m).contains(x as usize),
    decreases m,
{
    if m > 0 {
        let s = m - 1;
        let px = link_ids(vs, x, m - 1);
        let py = link_ids(vs, y, m - 1);
        let cx = link_ids(vs, x, m);
        let cy = link_ids(vs, y, m);
        let i = choose|i: int| 0 <= i < cx.len() && cx[i] == y as usize;
        if i < px.len() {
            assert(cx[i] == px[i]);
            assert(px.contains(y as usize));
            lemma_links_symmetric(vs, x, y, m - 1);
            let j = choose|j: int| 0 <= j < py.len() && py[j] == x as usize;
            assert(cy[j] == py[j]);
        } else {
            lemma_last_with_edge_bound(vs, edge_of(step_portal(vs, s)), s);
            assert(0 <= s / 3 < vs.len());
            match last_with_edge(vs, edge_of(step_portal(vs, s)), s) {
                Some(p) => {
                    assert(0 <= p / 3 < vs.len());
                },
                None => {},
            }
            match partner(vs, s) {
                Some(o) => {
                    assert(0 <= o < vs.len());
                    if s / 3 == x {
                        assert(cx == px.push(o as usize));
                        assert(o == y);
                        assert(cy == py.push((s / 3) as usize));
                        assert(cy[cy.len() - 1] == x as usize);
                    } else {
                        assert(o == x);
                        assert(cx == px.push((s / 3) as usize));
                        assert(s / 3 == y);
                        assert(cy == py.push(o as usize));
                        assert(cy[cy.len() - 1] == x as usize);
                    }
                },
                None => {
                    assert(cx == px);
                },
            }
        }
    }
}

/// The portal that goes with the first occurrence of `y` among `ids`.
pub open spec fn first_portal_for(ids: Seq<usize>, ports: Seq<[usize; 2]>, y: usize) -> Option<[usize; 2]>
    decreases ids.len(),
{
    if ids.len() == 0 {
        None
    } else if ids[0] == y {
        Some(ports[0])
    } else {
        first_portal_for(ids.drop_first(), ports.drop_first(), y)
    }
}

pub proof fn lemma_first_portal_push(ids: Seq<usize>, ports: Seq<[usize; 2]>, a: usize, p: [usize; 2], y: usize)
    requires
        ids.len() == ports.len(),
    ensures
        first_portal_for(ids.push(a), ports.push(p), y) == match first_portal_for(ids, ports, y) {
            Some(q) => Some(q),
            None => if a == y {
                Some(p)
            } else {
                None
            },
        },
    decreases ids.len(),
{
    if ids.len() > 0 {
        assert(ids.push(a).drop_first() =~= ids.drop_first().push(a));
        assert(ports.push(p).drop_first() =~= ports.drop_first().push(p));
        assert(ids.push(a)[0] == ids[0]);
        assert(ports.push(p)[0] == ports[0]);
        lemma_first_portal_push(ids.drop_first(), ports.drop_first(), a, p, y);
    } else {
        assert(ids.push(a)[0] == a);
        assert(ports.push(p)[0] == p);
        assert(ids.push(a).drop_first() =~= Seq::<usize>::empty());
        assert(first_portal_for(Seq::<usize>::empty(), ports.push(p).drop_first(), y) is None);
    }
}

pub proof fn lemma_first_portal_none(ids: Seq<usize>, ports: Seq<[usize; 2]>, y: usize)
    ensures
        first_portal_for(ids, ports, y) is None <==> !ids.contains(y),
    decreases ids.len(),
{
    if ids.len() > 0 {
        lemma_first_portal_none(ids.drop_first(), ports.drop_first(), y);
        if ids.drop_first().contains(y) {
            let k = choose|k: int| 0 <= k < ids.drop_first().len() && ids.drop_first()[k] == y;
            assert(ids[k + 1] == y);
        }
        if ids.contains(y) && ids[0] != y {
            let k = choose|k: int| 0 <= k < ids.len() && ids[k] == y;
            assert(ids.drop_first()[k - 1] == y);
        }
    }
}

/// Between two triangles, the first link each has to the other crosses the
/// same portal.
pub proof fn lemma_first_portal_symmetric(vs: Seq<[usize; 3]>, x: int, y: int, m: int)
    requires
        0 <= x < vs.len(),
        0 <= y < vs.len(),
        vs.len() <= usize::MAX,
        0 <= m <= 3 * vs.len(),
    ensures
        first_portal_for(link_ids(vs, x, m), link_portals(vs, x, m), y as usize) == first_portal_for(
            link_ids(vs, y, m),
            link_portals(vs, y, m),
            x as usize,
        ),
    decreases m,
{
    if m > 0 && x != y {
        let s = m - 1;
        lemma_first_portal_symmetric(vs, x, y, m - 1);
        lemma_links_shape(vs, x, m - 1);
        lemma_links_shape(vs, y, m - 1);
        let ix = link_ids(vs, x, m - 1);
        let px = link_portals(vs, x, m - 1);
        let iy = link_ids(vs, y, m - 1);
        let py = link_portals(vs, y, m - 1);
        lemma_first_portal_none(ix, px, y as usize);
        lemma_first_portal_none(iy, py, x as usize);
        lemma_last_with_edge_bound(vs, edge_of(step_portal(vs, s)), s);
        assert(0 <= s / 3 < vs.len());
        match last_with_edge(vs, edge_of(step_portal(vs, s)), s) {
            Some(p) => {
                assert(0 <= p / 3 < vs.len());
            },
            None => {},
        }
        match partner(vs, s) {
            Some(o) => {
                assert(0 <= o < vs.len());
                let port = step_portal(vs, s);
                if s / 3 == x || o == x {
                    let nx = if s / 3 == x { o as usize } else { (s / 3) as usize };
                    assert(link_ids(vs, x, m) == ix.push(nx));
                    assert(link_portals(vs, x, m) == px.push(port));
                    lemma_first_portal_push(ix, px, nx, port, y as usize);
                } else {
                    assert(link_ids(vs, x, m) == ix);
                }
                if s / 3 == y || o == y {
                    let ny = if s / 3 == y { o as usize } else { (s / 3) as usize };
                    assert(link_ids(vs, y, m) == iy.push(ny));
                    assert(link_portals(vs, y, m) == py.push(port));
                    lemma_first_portal_push(iy, py, ny, port, x as usize);
                } else {
                    assert(link_ids(vs, y, m) == iy);
                }
                if ix.contains(y as usize) {
                    lemma_links_symmetric(vs, x, y, m - 1);
                }
                if iy.contains(x as usize) {
                    lemma_links_symmetric(vs, y, x, m - 1);
                }
            },
            None => {},
        }
    }
}

} // verus!
