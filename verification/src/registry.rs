//! The zone registry: zones stored under numeric handles, and names that
//! refer to handles.
use vstd::prelude::*;
use std::collections::HashMap;
use crate::zone::{ZoneInput, ids_local};
use crate::group::{GroupData, links_of};

verus! {

broadcast use vstd::std_specs::hash::group_hash_axioms, vstd::laws_cmp::group_laws_cmp;

/// A zone as the registry keeps it: its groups and vertices, the link data of
/// each group, and `runtime`, the data that the caller keeps with the zone
/// (spatial indexes, search buffers).
pub struct ZoneData<G> {
    pub zone: ZoneInput,
    pub group_data: Vec<GroupData>,
    pub runtime: G,
}

/// `data` holds `zone`, the link data of each of its groups, and `runtime`.
pub open spec fn is_runtime_data_of<G>(data: ZoneData<G>, zone: ZoneInput, runtime: G) -> bool {
    &&& data.zone == zone
    &&& data.runtime == runtime
    &&& data.group_data.len() == zone.groups.len()
    &&& forall|g: int|
        #![trigger data.group_data[g]]
        0 <= g < zone.groups.len() ==> {
            &&& data.group_data[g]@.len == zone.groups[g].len()
            &&& data.group_data[g]@.links.len() == zone.groups[g].len()
            &&& forall|x: int|
                0 <= x < zone.groups[g].len() ==> #[trigger] data.group_data[g]@.links[x] == links_of(
                    zone.groups[g]@,
                    x,
                )
        }
}

/// Puts a zone together with the link data of its groups and the caller's
/// runtime data.
pub fn build_zone_runtime_data<G>(zone: ZoneInput, runtime: G) -> (data: ZoneData<G>)
    ensures
        is_runtime_data_of(data, zone, runtime),
{
    let mut group_data: Vec<GroupData> = Vec::new();
    let mut g: usize = 0;
    while g < zone.groups.len()
        invariant
            g <= zone.groups.len(),
            group_data.len() == g,
            forall|h: int|
                #![trigger group_data[h]]
                0 <= h < g ==> {
                    &&& group_data[h]@.len == zone.groups[h].len()
                    &&& group_data[h]@.links.len() == zone.groups[h].len()
                    &&& forall|x: int|
                        0 <= x < zone.groups[h].len() ==> #[trigger] group_data[h]@.links[x] == links_of(
                            zone.groups[h]@,
                            x,
                        )
                },
        decreases zone.groups.len() - g,
    {
        group_data.push(GroupData::from_nodes(zone.groups[g].as_slice()));
        g += 1;
    }
    ZoneData { zone, group_data, runtime }
}

/// Zones under their handles, names that refer to handles, and the handle
/// that the next zone gets.
pub struct PathfindingWasm<G> {
    zones: HashMap<u32, ZoneData<G>>,
    zone_names: Vec<(String, u32)>,
    next_zone_handle: u32,
}

/// What a registry stands for.
pub struct RegistryView<G> {
    pub zones: Map<u32, ZoneData<G>>,
    pub names: Map<Seq<char>, u32>,
    pub next_handle: u32,
}

/// The map that a list of (name, handle) entries stands for; a later entry
/// for a name overrides an earlier one.
pub open spec fn names_map(entries: Seq<(String, u32)>) -> Map<Seq<char>, u32>
    decreases entries.len(),
{
    if entries.len() == 0 {
        Map::empty()
    } else {
        names_map(entries.drop_last()).insert(entries.last().0@, entries.last().1)
    }
}

/// No name occurs twice.
pub open spec fn names_unique(entries: Seq<(String, u32)>) -> bool {
    forall|i: int, j: int|
        0 <= i < entries.len() && 0 <= j < entries.len() && i != j ==> (#[trigger] entries[i]).0@
            != (#[trigger] entries[j]).0@
}

/// The handle that follows `h`; handles skip 0.
pub open spec fn next_handle_after(h: u32) -> u32 {
    if h == u32::MAX {
        1
    } else {
        (h + 1) as u32
    }
}

/// The zone that `name` refers to, if any.
pub open spec fn zone_of_name<G>(v: RegistryView<G>, name: Seq<char>) -> Option<ZoneData<G>> {
    if v.names.contains_key(name) && v.zones.contains_key(v.names[name]) {
        Some(v.zones[v.names[name]])
    } else {
        None
    }
}

/// The zone under handle `h`, if any.
pub open spec fn zone_of_handle<G>(v: RegistryView<G>, h: u32) -> Option<ZoneData<G>> {
    if v.zones.contains_key(h) {
        Some(v.zones[h])
    } else {
        None
    }
}

/// The registry after storing `zone` under the next handle.
pub open spec fn with_zone_handle<G>(v: RegistryView<G>, zone: ZoneData<G>) -> RegistryView<G> {
    RegistryView {
        zones: v.zones.insert(v.next_handle, zone),
        names: v.names,
        next_handle: next_handle_after(v.next_handle),
    }
}

/// The registry after storing `zone` under the next handle and pointing
/// `name` at it; the zone that `name` referred to before is dropped.
pub open spec fn with_named_zone<G>(v: RegistryView<G>, name: Seq<char>, zone: ZoneData<G>) -> RegistryView<G> {
    let w = with_zone_handle(v, zone);
    RegistryView {
        zones: if v.names.contains_key(name) {
            w.zones.remove(v.names[name])
        } else {
            w.zones
        },
        names: v.names.insert(name, v.next_handle),
        next_handle: w.next_handle,
    }
}

proof fn lemma_names_map_find(entries: Seq<(String, u32)>, i: int)
    requires
        names_unique(entries),
        0 <= i < entries.len(),
    ensures
        names_map(entries).contains_key(entries[i].0@),
        names_map(entries)[entries[i].0@] == entries[i].1,
    decreases entries.len(),
{
    let last = entries.len() - 1;
    if i < last {
        assert(entries.drop_last()[i] == entries[i]);
        lemma_names_map_find(entries.drop_last(), i);
        assert(entries[last].0@ != entries[i].0@);
    }
}

proof fn lemma_names_map_absent(entries: Seq<(String, u32)>, name: Seq<char>)
    requires
        forall|i: int| 0 <= i < entries.len() ==> (#[trigger] entries[i]).0@ != name,
    ensures
        !names_map(entries).contains_key(name),
    decreases entries.len(),
{
    if entries.len() > 0 {
        assert forall|i: int| 0 <= i < entries.drop_last().len() implies (#[trigger] entries.drop_last()[i]).0@ != name by {
            assert(entries.drop_last()[i] == entries[i]);
        }
        lemma_names_map_absent(entries.drop_last(), name);
        assert(entries[entries.len() - 1].0@ != name);
    }
}

proof fn lemma_names_map_update(entries: Seq<(String, u32)>, i: int, e: (String, u32))
    requires
        names_unique(entries),
        0 <= i < entries.len(),
        e.0@ == entries[i].0@,
    ensures
        names_map(entries.update(i, e)) =~= names_map(entries).insert(e.0@, e.1),
    decreases entries.len(),
{
    let updated = entries.update(i, e);
    let last = entries.len() - 1;
    assert(updated.drop_last() =~= if i == last {
        entries.drop_last()
    } else {
        entries.drop_last().update(i, e)
    });
    if i < last {
        assert(entries.drop_last()[i] == entries[i]);
        lemma_names_map_update(entries.drop_last(), i, e);
        assert(entries[last].0@ != entries[i].0@);
    }
}

impl<G> View for PathfindingWasm<G> {
    type V = RegistryView<G>;

    closed spec fn view(&self) -> RegistryView<G> {
        RegistryView { zones: self.zones@, names: names_map(self.zone_names@), next_handle: self.next_zone_handle }
    }
}

impl<G> PathfindingWasm<G> {
    /// The registry is well formed: the next handle is not 0, no name is
    /// listed twice, and in every stored zone the node ids are local to their
    /// groups.
    #[verifier::type_invariant]
    spec fn wf(self) -> bool {
        &&& self.next_zone_handle >= 1
        &&& names_unique(self.zone_names@)
        &&& forall|h: u32| #[trigger] self.zones@.contains_key(h) ==> ids_local(self.zones@[h].zone)
    }

    /// An empty registry; the first zone gets handle 1.
    pub fn new() -> (res: Self)
        ensures
            res@.zones == Map::<u32, ZoneData<G>>::empty(),
            res@.names == Map::<Seq<char>, u32>::empty(),
            res@.next_handle == 1,
    {
        let res = Self { zones: HashMap::new(), zone_names: Vec::new(), next_zone_handle: 1 };
        assert(res@.names =~= Map::<Seq<char>, u32>::empty());
        res
    }

    /// Moves the registry out, leaving an empty one in its place.
    fn take(&mut self) -> (res: Self)
        ensures
            res == *old(self),
    {
        let mut res = Self::new();
        std::mem::swap(self, &mut res);
        res
    }

    /// Stores `zone` under the next handle and returns that handle; a zone
    /// stored under it before is replaced.
    pub fn create_zone_handle(&mut self, zone: ZoneData<G>) -> (handle: u32)
        requires
            ids_local(zone.zone),
        ensures
            handle == old(self)@.next_handle,
            handle != 0,
            final(self)@ == with_zone_handle(old(self)@, zone),
    {
        proof {
            use_type_invariant(&*self);
        }
        let PathfindingWasm { mut zones, zone_names, next_zone_handle } = self.take();
        let zone_handle = next_zone_handle;
        let next = next_zone_handle.wrapping_add(1).max(1);
        zones.insert(zone_handle, zone);
        assert(zones@ =~= old(self)@.zones.insert(zone_handle, zone));
        *self = PathfindingWasm { zones, zone_names, next_zone_handle: next };
        zone_handle
    }

    /// The position of `name` in the name list, if it is there.
    fn name_position(&self, name: &String) -> (res: Option<usize>)
        ensures
            res matches Some(i) ==> i < self.zone_names@.len() && self.zone_names@[i as int].0@ == name@,
            res is None ==> forall|i: int| 0 <= i < self.zone_names@.len() ==> (#[trigger] self.zone_names@[i]).0@ != name@,
    {
        let mut i: usize = 0;
        while i < self.zone_names.len()
            invariant
                i <= self.zone_names@.len(),
                forall|j: int| 0 <= j < i ==> (#[trigger] self.zone_names@[j]).0@ != name@,
            decreases self.zone_names@.len() - i,
        {
            if self.zone_names[i].0 == *name {
                return Some(i);
            }
            i += 1;
        }
        None
    }

    /// The handle that `name` refers to, if any.
    fn zone_handle_by_name(&self, zone_id: &String) -> (res: Option<u32>)
        ensures
            res == if self@.names.contains_key(zone_id@) {
                Some(self@.names[zone_id@])
            } else {
                None
            },
    {
        proof {
            use_type_invariant(self);
        }
        match self.name_position(zone_id) {
            Some(i) => {
                proof {
                    lemma_names_map_find(self.zone_names@, i as int);
                }
                Some(self.zone_names[i].1)
            },
            None => {
                proof {
                    lemma_names_map_absent(self.zone_names@, zone_id@);
                }
                None
            },
        }
    }

    /// Points `name` at `handle` and returns the handle it referred to before.
    fn insert_name(&mut self, zone_id: String, handle: u32) -> (previous: Option<u32>)
        ensures
            final(self)@.names == old(self)@.names.insert(zone_id@, handle),
            final(self)@.zones == old(self)@.zones,
            final(self)@.next_handle == old(self)@.next_handle,
            previous == if old(self)@.names.contains_key(zone_id@) {
                Some(old(self)@.names[zone_id@])
            } else {
                None
            },
    {
        proof {
            use_type_invariant(&*self);
        }
        let position = self.name_position(&zone_id);
        let PathfindingWasm { zones, mut zone_names, next_zone_handle } = self.take();
        let previous = match position {
            Some(i) => {
                let previous = zone_names[i].1;
                proof {
                    lemma_names_map_find(zone_names@, i as int);
                    lemma_names_map_update(zone_names@, i as int, (zone_id, handle));
                    assert forall|a: int, b: int|
                        0 <= a < zone_names@.len() && 0 <= b < zone_names@.len() && a != b implies (
                        #[trigger] zone_names@.update(i as int, (zone_id, handle))[a]).0@ != (
                        #[trigger] zone_names@.update(i as int, (zone_id, handle))[b]).0@ by {
                        assert(zone_names@[a].0@ != zone_names@[b].0@);
                    }
                }
                zone_names.set(i, (zone_id, handle));
                Some(previous)
            },
            None => {
                proof {
                    lemma_names_map_absent(zone_names@, zone_id@);
                }
                let ghost before = zone_names@;
                zone_names.push((zone_id, handle));
                proof {
                    assert(zone_names@.drop_last() =~= before);
                    assert forall|a: int, b: int|
                        0 <= a < zone_names@.len() && 0 <= b < zone_names@.len() && a != b implies (
                        #[trigger] zone_names@[a]).0@ != (#[trigger] zone_names@[b]).0@ by {
                        if a < before.len() && b < before.len() {
                            assert(before[a] == zone_names@[a] && before[b] == zone_names@[b]);
                        } else if a < before.len() {
                            assert(before[a] == zone_names@[a]);
                        } else if b < before.len() {
                            assert(before[b] == zone_names@[b]);
                        }
                    }
                }
                None
            },
        };
        *self = PathfindingWasm { zones, zone_names, next_zone_handle };
        previous
    }

    /// Stores `zone` under the next handle and points `zone_id` at it; the zone
    /// that `zone_id` referred to before is dropped.
    pub fn create_zone(&mut self, zone_id: String, zone: ZoneData<G>)
        requires
            ids_local(zone.zone),
        ensures
            final(self)@ == with_named_zone(old(self)@, zone_id@, zone),
    {
        let ghost v = self@;
        let zone_handle = self.create_zone_handle(zone);
        let previous = self.insert_name(zone_id, zone_handle);
        if let Some(previous_handle) = previous {
            proof {
                use_type_invariant(&*self);
            }
            let PathfindingWasm { mut zones, zone_names, next_zone_handle } = self.take();
            zones.remove(&previous_handle);
            *self = PathfindingWasm { zones, zone_names, next_zone_handle };
        }
        assert(self@.zones =~= with_named_zone(v, zone_id@, zone).zones);
    }

    /// The zone that `zone_id` refers to, if any.
    pub fn zone_from_name(&self, zone_id: &String) -> (res: Option<&ZoneData<G>>)
        ensures
            res == match zone_of_name(self@, zone_id@) {
                Some(d) => Some(&d),
                None => None,
            },
    {
        match self.zone_handle_by_name(zone_id) {
            Some(zone_handle) => self.zones.get(&zone_handle),
            None => None,
        }
    }

    /// The zone under `zone_handle`, if any.
    pub fn zone_by_handle(&self, zone_handle: u32) -> (res: Option<&ZoneData<G>>)
        ensures
            res == match zone_of_handle(self@, zone_handle) {
                Some(d) => Some(&d),
                None => None,
            },
    {
        self.zones.get(&zone_handle)
    }

    /// The number of groups of the zone that `zone_id` refers to.
    pub fn group_count(&self, zone_id: String) -> (res: Option<u32>)
        ensures
            res == match zone_of_name(self@, zone_id@) {
                Some(d) => Some(d.zone.groups.len() as u32),
                None => None,
            },
    {
        let zone_data = self.zone_from_name(&zone_id)?;
        Some(zone_data.zone.groups.len() as u32)
    }

    /// The number of groups of the zone under `zone_handle`.
    pub fn group_count_by_handle(&self, zone_handle: u32) -> (res: Option<u32>)
        ensures
            res == match zone_of_handle(self@, zone_handle) {
                Some(d) => Some(d.zone.groups.len() as u32),
                None => None,
            },
    {
        match self.zones.get(&zone_handle) {
            Some(zone_data) => Some(zone_data.zone.groups.len() as u32),
            None => None,
        }
    }

    /// The number of nodes of group `group_id` of the zone that `zone_id`
    /// refers to.
    pub fn group_node_count(&self, zone_id: String, group_id: usize) -> (res: Option<u32>)
        ensures
            res == match zone_of_name(self@, zone_id@) {
                Some(d) => if group_id < d.zone.groups.len() {
                    Some(d.zone.groups[group_id as int].len() as u32)
                } else {
                    None
                },
                None => None,
            },
    {
        let zone_data = self.zone_from_name(&zone_id)?;
        if group_id < zone_data.zone.groups.len() {
            Some(zone_data.zone.groups[group_id].len() as u32)
        } else {
            None
        }
    }

    /// The ids of the nodes of group `group_id` of the zone that `zone_id`
    /// refers to, in order: `0 .. n` for a group of `n` nodes.
    pub fn group_node_ids(&self, zone_id: String, group_id: usize) -> (res: Option<Vec<u32>>)
        ensures
            match zone_of_name(self@, zone_id@) {
                Some(d) => if group_id < d.zone.groups.len() {
                    res matches Some(ids) && ids@ == d.zone.groups[group_id as int]@.map_values(
                        |node: crate::zone::PolygonInput| node.id as u32,
                    ) && ids@ == Seq::new(d.zone.groups[group_id as int]@.len(), |i: int| i as u32)
                } else {
                    res is None
                },
                None => res is None,
            },
    {
        proof {
            use_type_invariant(self);
        }
        let zone_data = self.zone_from_name(&zone_id)?;
        if group_id >= zone_data.zone.groups.len() {
            return None;
        }
        let group = &zone_data.zone.groups[group_id];
        let mut ids: Vec<u32> = Vec::new();
        let mut i: usize = 0;
        while i < group.len()
            invariant
                i <= group@.len(),
                ids@ == group@.take(i as int).map_values(|node: crate::zone::PolygonInput| node.id as u32),
            decreases group@.len() - i,
        {
            ids.push(group[i].id as u32);
            assert(group@.take(i as int + 1) =~= group@.take(i as int).push(group@[i as int]));
            i += 1;
        }
        assert(group@.take(group@.len() as int) =~= group@);
        assert(ids@ =~= Seq::new(group@.len(), |i: int| i as u32));
        Some(ids)
    }
}

/// A zone stored under a new handle can be read back under that handle.
pub proof fn law_handle_reads_back<G>(v: RegistryView<G>, zone: ZoneData<G>)
    ensures
        zone_of_handle(with_zone_handle(v, zone), v.next_handle) == Some(zone),
{
}

/// Storing a zone under a new handle leaves the zones under other handles as
/// they were.
pub proof fn law_other_handles_kept<G>(v: RegistryView<G>, zone: ZoneData<G>, h: u32)
    requires
        h != v.next_handle,
    ensures
        zone_of_handle(with_zone_handle(v, zone), h) == zone_of_handle(v, h),
{
}

/// Handles advance: the handle after `h` is neither 0 nor `h`.
pub proof fn law_handles_advance(h: u32)
    ensures
        next_handle_after(h) != 0,
        next_handle_after(h) != h,
{
}

/// A zone created under a name can be read back by that name (unless the
/// name already referred to the very handle that the new zone gets, which
/// takes the handles wrapping around).
pub proof fn law_named_zone_reads_back<G>(v: RegistryView<G>, name: Seq<char>, zone: ZoneData<G>)
    requires
        !(v.names.contains_key(name) && v.names[name] == v.next_handle),
    ensures
        zone_of_name(with_named_zone(v, name, zone), name) == Some(zone),
{
}

/// Creating a zone under one name leaves what other names refer to as it
/// was, unless the other name shares a handle with it or refers to the
/// handle that the new zone gets.
pub proof fn law_other_names_kept<G>(v: RegistryView<G>, name: Seq<char>, other: Seq<char>, zone: ZoneData<G>)
    requires
        other != name,
        v.names.contains_key(other) ==> v.names[other] != v.next_handle,
        v.names.contains_key(other) && v.names.contains_key(name) ==> v.names[other] != v.names[name],
    ensures
        zone_of_name(with_named_zone(v, name, zone), other) == zone_of_name(v, other),
{
}

} // verus!
