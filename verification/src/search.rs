//! Bookkeeping of the A* search over a group: the per-node marks that a search
//! leaves and that the next search resets, the path traced back through the
//! parent links, and the portals along a path.
use vstd::prelude::*;
use crate::group::{GroupData, first_portal_to};

verus! {

/// The per-node marks of a search over a group of nodes, the list of nodes
/// whose marks the search changed (`touched`), and the path of the last
/// search.
pub struct AstarScratch {
    closed: Vec<bool>,
    visited: Vec<bool>,
    h_seen: Vec<bool>,
    parent: Vec<usize>,
    touched: Vec<usize>,
    path: Vec<usize>,
}

/// What an `AstarScratch` holds: for each node whether it is closed, visited
/// and has a heuristic, and its parent (`usize::MAX` for none); the touched
/// nodes; and the path.
pub struct MarksView {
    pub closed: Seq<bool>,
    pub visited: Seq<bool>,
    pub h_seen: Seq<bool>,
    pub parent: Seq<usize>,
    pub touched: Seq<usize>,
    pub path: Seq<usize>,
}

impl MarksView {
    /// Every mark list covers the same `len` nodes.
    pub open spec fn sized(&self, len: nat) -> bool {
        &&& self.closed.len() == len
        &&& self.visited.len() == len
        &&& self.h_seen.len() == len
        &&& self.parent.len() == len
    }

    /// The number of nodes the marks cover.
    pub open spec fn len(&self) -> nat {
        self.closed.len()
    }

    /// No node is marked and nothing is touched.
    pub open spec fn is_clean(&self, len: nat) -> bool {
        &&& self.sized(len)
        &&& self.touched.len() == 0
        &&& self.path.len() == 0
        &&& forall|i: int|
            0 <= i < len ==> {
                &&& !(#[trigger] self.closed[i])
                &&& !self.visited[i]
                &&& !self.h_seen[i]
                &&& self.parent[i] == usize::MAX
            }
    }

    /// Node `i` has a mark that differs from a clean state.
    pub open spec fn is_marked(&self, i: int) -> bool {
        self.closed[i] || self.visited[i] || self.h_seen[i] || self.parent[i] != usize::MAX
    }

    /// Every node whose marks differ from a clean state is listed as touched.
    pub open spec fn marks_tracked(&self) -> bool {
        forall|i: int| 0 <= i < self.closed.len() && #[trigger] self.is_marked(i) ==> self.touched.contains(i as usize)
    }

    /// The marks are sized alike, every touched node and every parent is a
    /// node, and every marked node is touched.
    pub open spec fn wf(&self) -> bool {
        &&& self.sized(self.len())
        &&& forall|k: int| 0 <= k < self.touched.len() ==> (#[trigger] self.touched[k]) < self.len()
        &&& forall|i: int|
            0 <= i < self.len() ==> (#[trigger] self.parent[i]) == usize::MAX || self.parent[i] < self.len()
        &&& self.marks_tracked()
    }

    /// Node `i` is cleared if it is in `done`, and otherwise as in `before`.
    pub open spec fn mark_reset_state(&self, before: MarksView, done: Seq<usize>, i: int) -> bool {
        if done.contains(i as usize) {
            &&& !self.closed[i]
            &&& !self.visited[i]
            &&& !self.h_seen[i]
            &&& self.parent[i] == usize::MAX
        } else {
            &&& self.closed[i] == before.closed[i]
            &&& self.visited[i] == before.visited[i]
            &&& self.h_seen[i] == before.h_seen[i]
            &&& self.parent[i] == before.parent[i]
        }
    }

    /// `self` is what resetting `before` for `len` nodes gives: clean marks
    /// where the number of nodes changes, and otherwise the marks of the
    /// touched nodes cleared, the rest kept, and the lists emptied.
    pub open spec fn is_reset_of(&self, before: MarksView, len: nat) -> bool {
        if before.len() != len {
            self.is_clean(len)
        } else {
            &&& self.sized(len)
            &&& self.touched.len() == 0
            &&& self.path.len() == 0
            &&& forall|i: int| 0 <= i < len ==> #[trigger] self.mark_reset_state(before, before.touched, i)
        }
    }

    /// The touched list after touching node `idx`: it is added unless it is
    /// already visited.
    pub open spec fn touch(&self, idx: usize) -> Seq<usize> {
        if self.visited[idx as int] {
            self.touched
        } else {
            self.touched.push(idx)
        }
    }
}

/// Touching a node keeps the marks well formed and lists the node.
proof fn lemma_touch_wf(v: MarksView, idx: usize)
    requires
        v.wf(),
        idx < v.len(),
    ensures
        (MarksView { touched: v.touch(idx), ..v }).wf(),
        v.touch(idx).contains(idx),
{
    let w = MarksView { touched: v.touch(idx), ..v };
    if v.visited[idx as int] {
        assert(v.is_marked(idx as int));
    } else {
        assert(w.touched[w.touched.len() - 1] == idx);
        assert forall|i: int| 0 <= i < w.closed.len() && #[trigger] w.is_marked(i) implies w.touched.contains(i as usize) by {
            assert(v.is_marked(i));
            let k = choose|k: int| 0 <= k < v.touched.len() && v.touched[k] == i as usize;
            assert(w.touched[k] == i as usize);
        }
    }
}

/// The path has no part in the marks being well formed.
proof fn lemma_path_wf(v: MarksView, path: Seq<usize>)
    requires
        v.wf(),
    ensures
        (MarksView { path, ..v }).wf(),
{
    let w = MarksView { path, ..v };
    assert forall|i: int| 0 <= i < w.closed.len() && #[trigger] w.is_marked(i) implies w.touched.contains(i as usize) by {
        assert(v.is_marked(i));
    }
}

/// Clean marks are well formed.
proof fn lemma_clean_wf(v: MarksView, len: nat)
    requires
        v.is_clean(len),
    ensures
        v.wf(),
{
    assert forall|i: int| 0 <= i < v.len() implies (#[trigger] v.parent[i]) == usize::MAX || v.parent[i] < v.len() by {
        assert(!v.closed[i]);
    }
    assert forall|i: int| 0 <= i < v.closed.len() && #[trigger] v.is_marked(i) implies v.touched.contains(i as usize) by {
        assert(!v.closed[i]);
    }
}

/// Changing the marks of one touched node, with its parent left a node or
/// none, keeps the marks well formed.
proof fn lemma_mark_wf(v: MarksView, w: MarksView, idx: usize)
    requires
        v.wf(),
        idx < v.len(),
        v.touched.contains(idx),
        w.touched == v.touched,
        w.sized(v.len()),
        w.parent[idx as int] == usize::MAX || w.parent[idx as int] < v.len(),
        forall|i: int|
            0 <= i < v.len() && i != idx ==> {
                &&& w.closed[i] == v.closed[i]
                &&& w.visited[i] == v.visited[i]
                &&& w.h_seen[i] == v.h_seen[i]
                &&& #[trigger] w.parent[i] == v.parent[i]
            },
    ensures
        w.wf(),
{
    assert forall|i: int| 0 <= i < w.closed.len() && #[trigger] w.is_marked(i) implies w.touched.contains(i as usize) by {
        if i != idx {
            assert(v.parent[i] == w.parent[i]);
            assert(v.is_marked(i));
        }
    }
    assert forall|i: int| 0 <= i < w.len() implies (#[trigger] w.parent[i]) == usize::MAX || w.parent[i] < w.len() by {
        if i != idx {
            assert(v.parent[i] == w.parent[i]);
        }
    }
}

/// The path that tracing from `start` to `end` along `parent` gives, empty
/// where the parent links do not lead back to `start`.
pub open spec fn traced_or_empty(parent: Seq<usize>, start: usize, end: usize) -> Seq<usize> {
    match chain_back(parent, start, end, parent.len()) {
        Some(back) => back.reverse(),
        None => Seq::empty(),
    }
}

impl View for AstarScratch {
    type V = MarksView;

    closed spec fn view(&self) -> MarksView {
        MarksView {
            closed: self.closed@,
            visited: self.visited@,
            h_seen: self.h_seen@,
            parent: self.parent@,
            touched: self.touched@,
            path: self.path@,
        }
    }
}

impl AstarScratch {
    /// The marks are well formed (see `MarksView::wf`).
    #[verifier::type_invariant]
    spec fn marks_wf(self) -> bool {
        self@.wf()
    }

    /// Marks for no nodes.
    fn empty() -> (res: Self)
        ensures
            res@.is_clean(0),
    {
        proof {
            lemma_clean_wf(
                MarksView {
                    closed: Seq::empty(),
                    visited: Seq::empty(),
                    h_seen: Seq::empty(),
                    parent: Seq::empty(),
                    touched: Seq::empty(),
                    path: Seq::empty(),
                },
                0,
            );
        }
        let res = Self {
            closed: Vec::new(),
            visited: Vec::new(),
            h_seen: Vec::new(),
            parent: Vec::new(),
            touched: Vec::new(),
            path: Vec::new(),
        };
        assert(res@ =~= MarksView {
            closed: Seq::empty(),
            visited: Seq::empty(),
            h_seen: Seq::empty(),
            parent: Seq::empty(),
            touched: Seq::empty(),
            path: Seq::empty(),
        });
        res
    }

    /// Moves the marks out, leaving marks for no nodes in their place.
    fn take(&mut self) -> (res: Self)
        ensures
            res == *old(self),
    {
        let mut res = Self::empty();
        std::mem::swap(self, &mut res);
        res
    }

    /// Clean marks for `len` nodes.
    pub fn with_len(len: usize) -> (res: Self)
        ensures
            res@.is_clean(len as nat),
    {
        let mut closed: Vec<bool> = Vec::new();
        let mut visited: Vec<bool> = Vec::new();
        let mut h_seen: Vec<bool> = Vec::new();
        let mut parent: Vec<usize> = Vec::new();
        let mut i: usize = 0;
        while i < len
            invariant
                i <= len,
                closed.len() == i,
                visited.len() == i,
                h_seen.len() == i,
                parent.len() == i,
                forall|j: int|
                    0 <= j < i ==> {
                        &&& !(#[trigger] closed@[j])
                        &&& !visited@[j]
                        &&& !h_seen@[j]
                        &&& parent@[j] == usize::MAX
                    },
            decreases len - i,
        {
            closed.push(false);
            visited.push(false);
            h_seen.push(false);
            parent.push(usize::MAX);
            i += 1;
        }
        let ghost v = MarksView {
            closed: closed@,
            visited: visited@,
            h_seen: h_seen@,
            parent: parent@,
            touched: Seq::empty(),
            path: Seq::empty(),
        };
        proof {
            lemma_clean_wf(v, len as nat);
        }
        let res = Self { closed, visited, h_seen, parent, touched: Vec::new(), path: Vec::new() };
        assert(res@ =~= v);
        res
    }

    /// The number of nodes the marks cover.
    pub fn len(&self) -> (res: usize)
        ensures
            res == self@.len(),
    {
        self.closed.len()
    }

    /// The nodes whose marks the search changed.
    pub fn touched(&self) -> (res: &[usize])
        ensures
            res@ == self@.touched,
            forall|k: int| 0 <= k < res@.len() ==> (#[trigger] res@[k]) < self@.len(),
    {
        proof {
            use_type_invariant(self);
        }
        assert forall|k: int| 0 <= k < self@.touched.len() implies (#[trigger] self@.touched[k]) < self@.len() by {
            assert(self.touched@[k] == self@.touched[k]);
        }
        self.touched.as_slice()
    }

    /// The path of the last search.
    pub fn path(&self) -> (res: &[usize])
        ensures
            res@ == self@.path,
    {
        self.path.as_slice()
    }

    /// Whether node `idx` is closed.
    pub fn is_closed(&self, idx: usize) -> (res: bool)
        requires
            idx < self@.len(),
        ensures
            res == self@.closed[idx as int],
    {
        proof {
            use_type_invariant(self);
        }
        self.closed[idx]
    }

    /// Whether node `idx` has been reached.
    pub fn is_visited(&self, idx: usize) -> (res: bool)
        requires
            idx < self@.len(),
        ensures
            res == self@.visited[idx as int],
    {
        proof {
            use_type_invariant(self);
        }
        self.visited[idx]
    }

    /// Whether node `idx` has its heuristic computed.
    pub fn has_heuristic(&self, idx: usize) -> (res: bool)
        requires
            idx < self@.len(),
        ensures
            res == self@.h_seen[idx as int],
    {
        proof {
            use_type_invariant(self);
        }
        self.h_seen[idx]
    }

    /// Makes the marks clean for a search over `len` nodes: marks for another
    /// number of nodes are replaced, and otherwise the marks of the touched
    /// nodes are cleared.
    pub fn reset(&mut self, len: usize)
        ensures
            final(self)@.is_reset_of(old(self)@, len as nat),
            final(self)@.is_clean(len as nat),
    {
        proof {
            use_type_invariant(&*self);
        }
        if self.closed.len() != len {
            *self = Self::with_len(len);
            return;
        }
        let ghost v = self@;
        let AstarScratch { mut closed, mut visited, mut h_seen, mut parent, mut touched, mut path } = self.take();
        path.clear();
        let ghost old_touched = touched@;
        assert(old_touched == v.touched);
        assert forall|m: int| 0 <= m < old_touched.len() implies (#[trigger] old_touched[m]) < len by {
            assert(v.touched[m] == old_touched[m]);
        }
        let mut k: usize = 0;
        while k < touched.len()
            invariant
                touched@ == old_touched,
                old_touched == v.touched,
                k <= old_touched.len(),
                closed@.len() == len,
                visited@.len() == len,
                h_seen@.len() == len,
                parent@.len() == len,
                len == v.len(),
                path@.len() == 0,
                forall|m: int| 0 <= m < old_touched.len() ==> (#[trigger] old_touched[m]) < len,
                forall|i: int|
                    0 <= i < len ==> #[trigger] (MarksView {
                        closed: closed@,
                        visited: visited@,
                        h_seen: h_seen@,
                        parent: parent@,
                        touched: touched@,
                        path: path@,
                    }).mark_reset_state(v, old_touched.take(k as int), i),
            decreases old_touched.len() - k,
        {
            let idx = touched[k];
            let ghost pre = MarksView {
                closed: closed@,
                visited: visited@,
                h_seen: h_seen@,
                parent: parent@,
                touched: touched@,
                path: path@,
            };
            closed.set(idx, false);
            visited.set(idx, false);
            h_seen.set(idx, false);
            parent.set(idx, usize::MAX);
            proof {
                let cur = MarksView {
                    closed: closed@,
                    visited: visited@,
                    h_seen: h_seen@,
                    parent: parent@,
                    touched: touched@,
                    path: path@,
                };
                let tk = old_touched.take(k as int);
                let tk1 = old_touched.take(k as int + 1);
                assert(tk1 =~= tk.push(idx));
                assert forall|i: int| 0 <= i < len implies #[trigger] cur.mark_reset_state(v, tk1, i) by {
                    assert(pre.mark_reset_state(v, tk, i));
                    if i == idx as int {
                        assert(tk1[k as int] == idx);
                    } else if tk.contains(i as usize) {
                        let m = choose|m: int| 0 <= m < tk.len() && tk[m] == i as usize;
                        assert(tk1[m] == i as usize);
                    } else {
                        assert(!tk1.contains(i as usize)) by {
                            if tk1.contains(i as usize) {
                                let m = choose|m: int| 0 <= m < tk1.len() && tk1[m] == i as usize;
                                if m < k {
                                    assert(tk[m] == i as usize);
                                }
                            }
                        }
                    }
                }
            }
            k += 1;
        }
        let ghost before_clear = MarksView {
            closed: closed@,
            visited: visited@,
            h_seen: h_seen@,
            parent: parent@,
            touched: touched@,
            path: path@,
        };
        touched.clear();
        let ghost after = MarksView {
            closed: closed@,
            visited: visited@,
            h_seen: h_seen@,
            parent: parent@,
            touched: touched@,
            path: path@,
        };
        assert(old_touched.take(old_touched.len() as int) =~= old_touched);
        assert forall|i: int| 0 <= i < len implies #[trigger] after.mark_reset_state(v, old_touched, i) by {
            assert(before_clear.mark_reset_state(v, old_touched, i));
        }
        proof {
            law_reset_cleans(v, after, len as nat);
            lemma_clean_wf(after, len as nat);
        }
        *self = AstarScratch { closed, visited, h_seen, parent, touched, path };
        assert(self@ =~= after);
    }

    /// Lists node `idx` as touched unless it is already visited.
    pub fn touch_if_unseen(&mut self, idx: usize)
        requires
            idx < old(self)@.len(),
        ensures
            final(self)@ == (MarksView { touched: old(self)@.touch(idx), ..old(self)@ }),
            final(self)@.touched.contains(idx),
    {
        proof {
            use_type_invariant(&*self);
            lemma_touch_wf(self@, idx);
        }
        let AstarScratch { closed, visited, h_seen, parent, mut touched, path } = self.take();
        if !visited[idx] {
            touched.push(idx);
        }
        *self = AstarScratch { closed, visited, h_seen, parent, touched, path };
        assert(self@ =~= (MarksView { touched: old(self)@.touch(idx), ..old(self)@ }));
    }

    /// Marks `idx` as the start of a search: touched and visited.
    pub fn open_start(&mut self, idx: usize)
        requires
            idx < old(self)@.len(),
        ensures
            final(self)@ == (MarksView {
                touched: old(self)@.touch(idx),
                visited: old(self)@.visited.update(idx as int, true),
                ..old(self)@
            }),
    {
        self.touch_if_unseen(idx);
        let ghost v = self@;
        let ghost w = MarksView { visited: v.visited.update(idx as int, true), ..v };
        proof {
            use_type_invariant(&*self);
            lemma_mark_wf(v, w, idx);
        }
        let AstarScratch { closed, mut visited, h_seen, parent, touched, path } = self.take();
        visited.set(idx, true);
        *self = AstarScratch { closed, visited, h_seen, parent, touched, path };
        assert(self@ =~= w);
    }

    /// Closes node `idx`, listing it as touched unless it is already visited.
    pub fn close(&mut self, idx: usize)
        requires
            idx < old(self)@.len(),
        ensures
            final(self)@ == (MarksView {
                touched: old(self)@.touch(idx),
                closed: old(self)@.closed.update(idx as int, true),
                ..old(self)@
            }),
    {
        self.touch_if_unseen(idx);
        let ghost v = self@;
        let ghost w = MarksView { closed: v.closed.update(idx as int, true), ..v };
        proof {
            use_type_invariant(&*self);
            lemma_mark_wf(v, w, idx);
        }
        let AstarScratch { mut closed, visited, h_seen, parent, touched, path } = self.take();
        closed.set(idx, true);
        *self = AstarScratch { closed, visited, h_seen, parent, touched, path };
        assert(self@ =~= w);
    }

    /// Records that the heuristic of node `idx` is known, listing it as
    /// touched unless it is already visited.
    pub fn mark_heuristic(&mut self, idx: usize)
        requires
            idx < old(self)@.len(),
        ensures
            final(self)@ == (MarksView {
                touched: old(self)@.touch(idx),
                h_seen: old(self)@.h_seen.update(idx as int, true),
                ..old(self)@
            }),
    {
        self.touch_if_unseen(idx);
        let ghost v = self@;
        let ghost w = MarksView { h_seen: v.h_seen.update(idx as int, true), ..v };
        proof {
            use_type_invariant(&*self);
            lemma_mark_wf(v, w, idx);
        }
        let AstarScratch { closed, visited, mut h_seen, parent, touched, path } = self.take();
        h_seen.set(idx, true);
        *self = AstarScratch { closed, visited, h_seen, parent, touched, path };
        assert(self@ =~= w);
    }

    /// Reaches the neighbour over link `link_pos` of node `from`: the
    /// neighbour is touched (unless already visited), visited, and gets `from`
    /// as its parent. Returns the neighbour. A parent is thus always a node
    /// linked to its child.
    pub fn relax(&mut self, group_data: &GroupData, from: usize, link_pos: usize) -> (next: usize)
        requires
            group_data@.len == old(self)@.len(),
            from < old(self)@.len(),
            link_pos < group_data@.links[from as int].len(),
        ensures
            next == group_data@.links[from as int][link_pos as int].index,
            next < old(self)@.len(),
            final(self)@ == (MarksView {
                touched: old(self)@.touch(next),
                visited: old(self)@.visited.update(next as int, true),
                parent: old(self)@.parent.update(next as int, from),
                ..old(self)@
            }),
    {
        proof {
            crate::group::lemma_one_link_list_per_node(*group_data);
        }
        let links = group_data.neighbours(from);
        let next = links[link_pos].index;
        self.touch_if_unseen(next);
        let ghost v = self@;
        let ghost w = MarksView {
            visited: v.visited.update(next as int, true),
            parent: v.parent.update(next as int, from),
            ..v
        };
        proof {
            use_type_invariant(&*self);
            lemma_mark_wf(v, w, next);
        }
        let AstarScratch { closed, mut visited, h_seen, mut parent, touched, path } = self.take();
        visited.set(next, true);
        parent.set(next, from);
        *self = AstarScratch { closed, visited, h_seen, parent, touched, path };
        assert(self@ =~= w);
        next
    }

    /// Empties the path.
    pub fn clear_path(&mut self)
        ensures
            final(self)@ == (MarksView { path: Seq::empty(), ..old(self)@ }),
    {
        proof {
            use_type_invariant(&*self);
        }
        proof {
            lemma_path_wf(self@, Seq::empty());
        }
        let AstarScratch { closed, visited, h_seen, parent, touched, mut path } = self.take();
        path.clear();
        *self = AstarScratch { closed, visited, h_seen, parent, touched, path };
        assert(self@ =~= (MarksView { path: Seq::empty(), ..old(self)@ }));
    }

    /// Sets the path to the one that the parent links give from `start` to
    /// `end` (see `trace_path`), or to an empty one where they do not lead
    /// back to `start`; tells whether they do.
    pub fn trace_to(&mut self, start: usize, end: usize) -> (found: bool)
        ensures
            found == chain_back(old(self)@.parent, start, end, old(self)@.parent.len()) is Some,
            final(self)@ == (MarksView { path: traced_or_empty(old(self)@.parent, start, end), ..old(self)@ }),
    {
        proof {
            use_type_invariant(&*self);
        }
        proof {
            lemma_path_wf(self@, traced_or_empty(self@.parent, start, end));
        }
        let AstarScratch { closed, visited, h_seen, parent, touched, mut path } = self.take();
        let found = match trace_path(&parent, start, end) {
            Some(traced) => {
                path = traced;
                true
            },
            None => {
                path.clear();
                false
            },
        };
        *self = AstarScratch { closed, visited, h_seen, parent, touched, path };
        assert(self@ =~= (MarksView { path: traced_or_empty(old(self)@.parent, start, end), ..old(self)@ }));
        found
    }
}

/// The nodes from `cur` back to `start` along the parent links, `cur` first
/// and `start` left out, following at most `fuel` links; `None` if the links
/// leave the group or do not reach `start` in time.
pub open spec fn chain_back(parent: Seq<usize>, start: usize, cur: usize, fuel: nat) -> Option<Seq<usize>>
    decreases fuel,
{
    if cur == start {
        Some(Seq::empty())
    } else if fuel == 0 || cur >= parent.len() {
        None
    } else {
        match chain_back(parent, start, parent[cur as int], (fuel - 1) as nat) {
            Some(rest) => Some(seq![cur] + rest),
            None => None,
        }
    }
}

/// The path that the parent links give from `start` to `end`: the nodes after
/// `start` up to and including `end`, in order. A chain that does not reach
/// `start` within as many links as there are nodes gives `None`.
pub fn trace_path(parent: &Vec<usize>, start_idx: usize, end_idx: usize) -> (res: Option<Vec<usize>>)
    ensures
        match res {
            Some(path) => chain_back(parent@, start_idx, end_idx, parent@.len()) matches Some(back)
                && path@ == back.reverse(),
            None => chain_back(parent@, start_idx, end_idx, parent@.len()) is None,
        },
{
    let ghost full = chain_back(parent@, start_idx, end_idx, parent@.len());
    let mut back: Vec<usize> = Vec::new();
    let mut cursor = end_idx;
    let mut fuel: usize = parent.len();
    while cursor != start_idx
        invariant
            fuel <= parent@.len(),
            full == chain_back(parent@, start_idx, end_idx, parent@.len()),
            full == match chain_back(parent@, start_idx, cursor, fuel as nat) {
                Some(rest) => Some(back@ + rest),
                None => None,
            },
        decreases fuel,
    {
        if fuel == 0 || cursor >= parent.len() {
            assert(chain_back(parent@, start_idx, cursor, fuel as nat) is None);
            assert(full is None);
            return None;
        }
        back.push(cursor);
        let ghost prev_back = back@.drop_last();
        cursor = parent[cursor];
        fuel -= 1;
        proof {
            match chain_back(parent@, start_idx, cursor, fuel as nat) {
                Some(rest) => {
                    assert(prev_back + (seq![back@.last()] + rest) =~= back@ + rest);
                },
                None => {},
            }
        }
    }
    let mut path: Vec<usize> = Vec::new();
    let mut i: usize = back.len();
    while i > 0
        invariant
            i <= back@.len(),
            path@ =~= back@.subrange(i as int, back@.len() as int).reverse(),
        decreases i,
    {
        i -= 1;
        path.push(back[i]);
    }
    Some(path)
}

/// Resetting marks in which every marked node is listed as touched leaves
/// them clean.
pub proof fn law_reset_cleans(before: MarksView, after: MarksView, len: nat)
    requires
        before.sized(before.len()),
        before.marks_tracked(),
        after.is_reset_of(before, len),
    ensures
        after.is_clean(len),
{
    if before.len() == len {
        assert forall|i: int| 0 <= i < len implies {
            &&& !(#[trigger] after.closed[i])
            &&& !after.visited[i]
            &&& !after.h_seen[i]
            &&& after.parent[i] == usize::MAX
        } by {
            assert(after.mark_reset_state(before, before.touched, i));
            assert(before.is_marked(i) ==> before.touched.contains(i as usize));
        }
    }
}

proof fn lemma_chain_back_links(parent: Seq<usize>, start: usize, cur: usize, fuel: nat)
    requires
        chain_back(parent, start, cur, fuel) is Some,
    ensures
        ({
            let back = chain_back(parent, start, cur, fuel).unwrap();
            &&& cur == start <==> back.len() == 0
            &&& back.len() > 0 ==> back[0] == cur && parent[back.last() as int] == start
            &&& forall|i: int| 0 <= i < back.len() ==> (#[trigger] back[i]) < parent.len()
            &&& forall|i: int| 0 <= i < back.len() - 1 ==> parent[#[trigger] back[i] as int] == back[i + 1]
        }),
    decreases fuel,
{
    if cur != start {
        let next = parent[cur as int];
        lemma_chain_back_links(parent, start, next, (fuel - 1) as nat);
        let rest = chain_back(parent, start, next, (fuel - 1) as nat).unwrap();
        let back = chain_back(parent, start, cur, fuel).unwrap();
        assert(back == seq![cur] + rest);
        assert forall|i: int| 0 <= i < back.len() - 1 implies parent[#[trigger] back[i] as int] == back[i + 1] by {
            if i > 0 {
                assert(back[i] == rest[i - 1]);
                assert(back[i + 1] == rest[i]);
            }
        }
        assert forall|i: int| 0 <= i < back.len() implies (#[trigger] back[i]) < parent.len() by {
            if i > 0 {
                assert(back[i] == rest[i - 1]);
            }
        }
    }
}

/// A traced path follows the parent links: it ends at `end`, its first node's
/// parent is `start`, each node's parent is the node before it, and every node
/// is a node of the group. It is empty exactly when `end` is `start`.
pub proof fn law_traced_path_follows_parents(parent: Seq<usize>, start: usize, end: usize, path: Seq<usize>)
    requires
        chain_back(parent, start, end, parent.len()) matches Some(back) && path == back.reverse(),
    ensures
        end == start <==> path.len() == 0,
        path.len() > 0 ==> path.last() == end && parent[path[0] as int] == start,
        forall|i: int| 0 <= i < path.len() ==> (#[trigger] path[i]) < parent.len(),
        forall|i: int| 0 <= i < path.len() - 1 ==> parent[#[trigger] path[i + 1] as int] == path[i],
{
    let back = chain_back(parent, start, end, parent.len()).unwrap();
    lemma_chain_back_links(parent, start, end, parent.len());
    let n = back.len();
    if n > 0 {
        assert(path.last() == back[0]);
        assert(path[0] == back[n - 1]);
    }
    assert forall|i: int| 0 <= i < path.len() implies (#[trigger] path[i]) < parent.len() by {
        assert(path[i] == back[n - 1 - i]);
    }
    assert forall|i: int| 0 <= i < path.len() - 1 implies parent[#[trigger] path[i + 1] as int] == path[i] by {
        assert(path[i + 1] == back[n - 2 - i]);
        assert(path[i] == back[n - 1 - i]);
        assert(back[(n - 2 - i) + 1] == back[n - 1 - i]);
    }
}

/// The portals between consecutive nodes of the first `m` nodes of `path`,
/// skipping pairs that have none.
pub open spec fn window_portals(links: Seq<Seq<crate::group::NeighborLink>>, path: Seq<usize>, m: int) -> Seq<[usize; 2]>
    decreases m,
{
    if m <= 1 {
        seq![]
    } else {
        let prev = window_portals(links, path, m - 1);
        let a = path[m - 2];
        let b = path[m - 1];
        let found = if a < links.len() {
            first_portal_to(links[a as int], b)
        } else {
            None
        };
        match found {
            Some(p) => prev.push(p),
            None => prev,
        }
    }
}

/// The portals that a path crosses from node to node, in order.
pub fn path_portals(group_data: &GroupData, path: &[usize]) -> (res: Vec<[usize; 2]>)
    ensures
        res@ == window_portals(group_data@.links, path@, path@.len() as int),
{
    let mut res: Vec<[usize; 2]> = Vec::new();
    let mut i: usize = 1;
    proof {
        crate::group::lemma_one_link_list_per_node(*group_data);
    }
    while i < path.len()
        invariant
            group_data@.links.len() == group_data@.len,
            1 <= i,
            i <= path@.len() || i == 1,
            res@ == window_portals(group_data@.links, path@, i as int),
        decreases path@.len() - i,
    {
        let current_idx = path[i - 1];
        let next_idx = path[i];
        if let Some(portal) = group_data.portal_between_indices(current_idx, next_idx) {
            res.push(portal);
        }
        i += 1;
    }
    if path.len() == 0 {
        assert(window_portals(group_data@.links, path@, 0) == Seq::<[usize; 2]>::empty());
    }
    res
}

/// Node `b` is among the links of node `a`.
pub open spec fn is_linked(links: Seq<Seq<crate::group::NeighborLink>>, a: usize, b: usize) -> bool {
    &&& a < links.len()
    &&& exists|k: int| 0 <= k < links[a as int].len() && (#[trigger] links[a as int][k]).index == b
}

/// `p` is the portal of the first link in `l` that leads to `b`.
pub open spec fn is_first_link_portal(l: Seq<crate::group::NeighborLink>, b: usize, p: [usize; 2]) -> bool {
    exists|k: int|
        0 <= k < l.len() && (#[trigger] l[k]).index == b && l[k].portal == p && forall|j: int|
            0 <= j < k ==> (#[trigger] l[j]).index != b
}

proof fn lemma_first_portal_found(l: Seq<crate::group::NeighborLink>, b: usize)
    requires
        exists|k: int| 0 <= k < l.len() && (#[trigger] l[k]).index == b,
    ensures
        first_portal_to(l, b) matches Some(p) && is_first_link_portal(l, b, p),
    decreases l.len(),
{
    if l[0].index == b {
        assert(is_first_link_portal(l, b, l[0].portal)) by {
            assert(l[0].index == b);
        }
    } else {
        let k = choose|k: int| 0 <= k < l.len() && (#[trigger] l[k]).index == b;
        let t = l.drop_first();
        assert(t[k - 1] == l[k]);
        lemma_first_portal_found(t, b);
        let p = first_portal_to(t, b).unwrap();
        let k2 = choose|k2: int|
            0 <= k2 < t.len() && (#[trigger] t[k2]).index == b && t[k2].portal == p && forall|j: int|
                0 <= j < k2 ==> (#[trigger] t[j]).index != b;
        assert(l[k2 + 1] == t[k2]);
        assert forall|j: int| 0 <= j < k2 + 1 implies (#[trigger] l[j]).index != b by {
            if j > 0 {
                assert(l[j] == t[j - 1]);
            }
        }
    }
}

proof fn lemma_window_portals_linked(links: Seq<Seq<crate::group::NeighborLink>>, path: Seq<usize>, m: int)
    requires
        1 <= m <= path.len(),
        forall|i: int| 0 <= i < path.len() - 1 ==> is_linked(links, #[trigger] path[i], path[i + 1]),
    ensures
        window_portals(links, path, m).len() == m - 1,
        forall|i: int|
            0 <= i < m - 1 ==> is_first_link_portal(
                links[path[i] as int],
                path[i + 1],
                #[trigger] window_portals(links, path, m)[i],
            ),
    decreases m,
{
    if m > 1 {
        lemma_window_portals_linked(links, path, m - 1);
        let a = path[m - 2];
        let b = path[m - 1];
        assert(is_linked(links, path[m - 2], path[m - 2 + 1]));
        lemma_first_portal_found(links[a as int], b);
        let prev = window_portals(links, path, m - 1);
        let cur = window_portals(links, path, m);
        assert(cur == prev.push(first_portal_to(links[a as int], b).unwrap()));
        assert forall|i: int| 0 <= i < m - 1 implies is_first_link_portal(
            links[path[i] as int],
            path[i + 1],
            #[trigger] cur[i],
        ) by {
            if i < m - 2 {
                assert(cur[i] == prev[i]);
            }
        }
    }
}

/// The portals along a path are one per step: where each node of the path is
/// linked to the next, whichever way their ids run, the portals are exactly
/// one per consecutive pair, in order, each that of the first link from the
/// one node to the next.
pub proof fn law_path_portals_one_per_step(links: Seq<Seq<crate::group::NeighborLink>>, path: Seq<usize>)
    requires
        forall|i: int| 0 <= i < path.len() - 1 ==> is_linked(links, #[trigger] path[i], path[i + 1]),
    ensures
        window_portals(links, path, path.len() as int).len() == if path.len() == 0 {
            0
        } else {
            path.len() - 1
        },
        forall|i: int|
            0 <= i < path.len() - 1 ==> is_first_link_portal(
                links[path[i] as int],
                path[i + 1],
                #[trigger] window_portals(links, path, path.len() as int)[i],
            ),
{
    if path.len() > 0 {
        lemma_window_portals_linked(links, path, path.len() as int);
    }
}

proof fn lemma_chain_back_walk(parent: Seq<usize>, start: usize, c: Seq<usize>, k: int, fuel: nat)
    requires
        0 <= k < c.len(),
        k <= fuel,
        c[k] == start,
        forall|i: int| 0 <= i < k ==> (#[trigger] c[i]) < parent.len() && c[i] != start && parent[c[i] as int] == c[i + 1],
    ensures
        chain_back(parent, start, c[0], fuel) == Some(c.take(k)),
    decreases k,
{
    if k == 0 {
        assert(c.take(0) =~= Seq::<usize>::empty());
    } else {
        let t = c.drop_first();
        assert forall|i: int| 0 <= i < k - 1 implies (#[trigger] t[i]) < parent.len() && t[i] != start && parent[t[i] as int] == t[i + 1] by {
            assert(t[i] == c[i + 1] && t[i + 1] == c[i + 2]);
        }
        assert(c[0] < parent.len() && c[0] != start);
        assert(parent[c[0] as int] == c[1]);
        lemma_chain_back_walk(parent, start, t, k - 1, (fuel - 1) as nat);
        assert(seq![c[0]] + t.take(k - 1) =~= c.take(k));
    }
}

/// Tracing succeeds on every chain of parent links that reaches the start:
/// where `end = c[0]`, each `c[i + 1]` is the parent of `c[i]`, every `c[i]`
/// before `c[k] = start` is a node other than the start, and `k` is at most
/// the number of nodes, the trace gives `c[0], .., c[k - 1]` (reversed, that
/// is the path from the start to `end`).
pub proof fn law_trace_follows_any_chain(parent: Seq<usize>, start: usize, c: Seq<usize>, k: int)
    requires
        0 <= k < c.len(),
        k <= parent.len(),
        c[k] == start,
        forall|i: int| 0 <= i < k ==> (#[trigger] c[i]) < parent.len() && c[i] != start && parent[c[i] as int] == c[i + 1],
    ensures
        chain_back(parent, start, c[0], parent.len()) == Some(c.take(k)),
        traced_or_empty(parent, start, c[0]) == c.take(k).reverse(),
{
    lemma_chain_back_walk(parent, start, c, k, parent.len());
}

} // verus!
