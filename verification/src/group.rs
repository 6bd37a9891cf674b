//! Per-group lookup of each node's neighbours and the portals to them.
use vstd::prelude::*;
use crate::zone::PolygonInput;

verus! {

/// A link from a node to one of its neighbours over the edge `portal`.
#[derive(Debug, Clone, Copy, PartialEq, Eq)]
pub struct NeighborLink {
    pub index: usize,
    pub portal: [usize; 2],
}

/// The neighbour links of every node of one group.
#[derive(Debug)]
pub struct GroupData {
    neighbours_by_index: Vec<Vec<NeighborLink>>,
    len: usize,
}

/// What a `GroupData` stands for: the links of each node, and the number of
/// nodes.
pub struct GroupView {
    pub links: Seq<Seq<NeighborLink>>,
    pub len: nat,
}

/// The links of the first `m` neighbour slots of `nodes[x]`: each slot that
/// has a portal and names a node of the group gives one link.
pub open spec fn node_links(nodes: Seq<PolygonInput>, x: int, m: int) -> Seq<NeighborLink>
    decreases m,
{
    if m <= 0 {
        seq![]
    } else {
        let prev = node_links(nodes, x, m - 1);
        let k = m - 1;
        if k < nodes[x].portals@.len() && nodes[x].neighbours@[k] < nodes.len() {
            prev.push(NeighborLink { index: nodes[x].neighbours@[k], portal: nodes[x].portals@[k] })
        } else {
            prev
        }
    }
}

/// The links of node `x` of the group `nodes`.
pub open spec fn links_of(nodes: Seq<PolygonInput>, x: int) -> Seq<NeighborLink> {
    node_links(nodes, x, nodes[x].neighbours@.len() as int)
}

/// The portal of the first link to `to` in `links`, if there is one.
pub open spec fn first_portal_to(links: Seq<NeighborLink>, to: usize) -> Option<[usize; 2]>
    decreases links.len(),
{
    if links.len() == 0 {
        None
    } else if links[0].index == to {
        Some(links[0].portal)
    } else {
        first_portal_to(links.drop_first(), to)
    }
}

impl View for GroupData {
    type V = GroupView;

    closed spec fn view(&self) -> GroupView {
        GroupView { links: Seq::new(self.neighbours_by_index@.len(), |i: int| self.neighbours_by_index@[i]@), len: self.neighbours_by_index@.len() }
    }
}

/// A group has one link list per node.
pub proof fn lemma_one_link_list_per_node(data: GroupData)
    ensures
        data@.links.len() == data@.len,
{
}

impl Clone for GroupData {
    fn clone(&self) -> (res: Self)
        ensures
            res@ == self@,
    {
        proof {
            use_type_invariant(self);
        }
        let mut neighbours_by_index: Vec<Vec<NeighborLink>> = Vec::new();
        let mut i: usize = 0;
        while i < self.neighbours_by_index.len()
            invariant
                i <= self.neighbours_by_index@.len(),
                neighbours_by_index@.len() == i,
                forall|j: int| 0 <= j < i ==> (#[trigger] neighbours_by_index@[j])@ == self.neighbours_by_index@[j]@,
            decreases self.neighbours_by_index@.len() - i,
        {
            let list = self.neighbours_by_index[i].clone();
            assert(list@ =~= self.neighbours_by_index@[i as int]@);
            neighbours_by_index.push(list);
            i += 1;
        }
        let res = GroupData { neighbours_by_index, len: self.len };
        assert(res@.links =~= self@.links);
        res
    }
}

impl GroupData {
    /// There is one link list per node, and every link leads to a node of the
    /// group.
    #[verifier::type_invariant]
    spec fn links_in_group(self) -> bool {
        &&& self.neighbours_by_index@.len() == self.len
        &&& forall|i: int, k: int|
            0 <= i < self.neighbours_by_index@.len() && 0 <= k < self.neighbours_by_index@[i]@.len()
                ==> (#[trigger] self.neighbours_by_index@[i]@[k]).index < self.len
    }

    /// Collects the links of every node of a group.
    pub fn from_nodes(nodes: &[PolygonInput]) -> (res: Self)
        ensures
            res@.len == nodes@.len(),
            res@.links.len() == nodes@.len(),
            forall|x: int| 0 <= x < nodes@.len() ==> #[trigger] res@.links[x] == links_of(nodes@, x),
    {
        let mut neighbours_by_index: Vec<Vec<NeighborLink>> = Vec::new();
        let mut x: usize = 0;
        while x < nodes.len()
            invariant
                x <= nodes@.len(),
                neighbours_by_index@.len() == x,
                forall|y: int| 0 <= y < x ==> (#[trigger] neighbours_by_index@[y])@ == links_of(nodes@, y),
                forall|i: int, k: int|
                    0 <= i < neighbours_by_index@.len() && 0 <= k < neighbours_by_index@[i]@.len()
                        ==> (#[trigger] neighbours_by_index@[i]@[k]).index < nodes@.len(),
            decreases nodes@.len() - x,
        {
            let node = &nodes[x];
            let mut neighbour_links: Vec<NeighborLink> = Vec::new();
            let mut portal_idx: usize = 0;
            while portal_idx < node.neighbours.len()
                invariant
                    node == nodes@[x as int],
                    x < nodes@.len(),
                    portal_idx <= node.neighbours@.len(),
                    neighbour_links@ == node_links(nodes@, x as int, portal_idx as int),
                    forall|k: int| 0 <= k < neighbour_links@.len() ==> (#[trigger] neighbour_links@[k]).index < nodes@.len(),
                decreases node.neighbours@.len() - portal_idx,
            {
                let neighbour_id = node.neighbours[portal_idx];
                if portal_idx < node.portals.len() {
                    let portal = node.portals[portal_idx];
                    if neighbour_id < nodes.len() {
                        neighbour_links.push(NeighborLink { index: neighbour_id, portal });
                    }
                }
                portal_idx += 1;
            }
            let ghost before = neighbours_by_index@;
            neighbours_by_index.push(neighbour_links);
            proof {
                assert forall|i: int, k: int|
                    0 <= i < neighbours_by_index@.len() && 0 <= k < neighbours_by_index@[i]@.len()
                        implies (#[trigger] neighbours_by_index@[i]@[k]).index < nodes@.len() by {
                    if i < before.len() {
                        assert(neighbours_by_index@[i] == before[i]);
                    }
                }
            }
            x += 1;
        }
        let res = Self { neighbours_by_index, len: nodes.len() };
        assert forall|y: int| 0 <= y < nodes@.len() implies #[trigger] res@.links[y] == links_of(nodes@, y) by {
            assert(res@.links[y] == res.neighbours_by_index@[y]@);
        }
        res
    }

    /// Node `id` of the group `nodes`, if there is one.
    pub fn node_by_id<'a>(&self, nodes: &'a [PolygonInput], id: usize) -> (res: Option<&'a PolygonInput>)
        ensures
            res == if id < nodes@.len() {
                Some(&nodes@[id as int])
            } else {
                None
            },
    {
        nodes.get(id)
    }

    /// The portal from node `from_idx` to node `to_idx`: that of the first link
    /// of `from_idx` that leads to `to_idx`.
    pub fn portal_between_indices(&self, from_idx: usize, to_idx: usize) -> (res: Option<[usize; 2]>)
        ensures
            res == if from_idx < self@.len {
                first_portal_to(self@.links[from_idx as int], to_idx)
            } else {
                None
            },
            res is Some ==> to_idx < self@.len,
    {
        proof {
            use_type_invariant(self);
        }
        if from_idx >= self.neighbours_by_index.len() {
            return None;
        }
        let list = &self.neighbours_by_index[from_idx];
        let ghost links = list@;
        assert(links == self@.links[from_idx as int]);
        assert(links.subrange(0, links.len() as int) =~= links);
        let mut k: usize = 0;
        while k < list.len()
            invariant
                k <= list@.len(),
                links == list@,
                from_idx < self@.links.len(),
                from_idx < self@.len,
                links == self@.links[from_idx as int],
                first_portal_to(links, to_idx) == first_portal_to(links.subrange(k as int, links.len() as int), to_idx),
                forall|j: int| 0 <= j < links.len() ==> (#[trigger] links[j]).index < self@.len,
            decreases list@.len() - k,
        {
            let ghost rest = links.subrange(k as int, links.len() as int);
            assert(rest[0] == list@[k as int]);
            if list[k].index == to_idx {
                return Some(list[k].portal);
            }
            assert(rest.drop_first() =~= links.subrange(k as int + 1, links.len() as int));
            k += 1;
        }
        assert(links.subrange(k as int, links.len() as int).len() == 0);
        None
    }

    /// The links of node `idx`; none for a node outside the group.
    pub fn neighbours(&self, idx: usize) -> (res: &[NeighborLink])
        ensures
            res@ == if idx < self@.len {
                self@.links[idx as int]
            } else {
                Seq::<NeighborLink>::empty()
            },
            forall|k: int| 0 <= k < res@.len() ==> (#[trigger] res@[k]).index < self@.len,
    {
        proof {
            use_type_invariant(self);
        }
        if idx < self.neighbours_by_index.len() {
            self.neighbours_by_index[idx].as_slice()
        } else {
            &[]
        }
    }

    /// The number of nodes of the group.
    pub fn len(&self) -> (res: usize)
        ensures
            res == self@.len,
            self@.links.len() == self@.len,
    {
        proof {
            use_type_invariant(self);
        }
        self.len
    }
}

} // verus!
