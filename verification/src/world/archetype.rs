use super::component::{Component, ComponentId};
use super::event::Event;
use crate::bitset::{
    bits_of, well_kept, bitset_grow, bitset_is_clear, bitset_is_disjoint, bitset_is_superset,
    bitset_new, bitset_set,
};
use crate::bitset::bitset_contains;
use crate::sparse::SparseIndex;
use crate::world::entity::Entity;
use crate::world::event::entity_key;
use crate::world::event::entity_key_of;
use crate::world::table::{key_position, pushed_cell, swapped_out, Row, Table, TableBuilder};
use fixedbitset::FixedBitSet;
use std::collections::HashMap;
use vstd::prelude::*;

verus! {

broadcast use vstd::std_specs::hash::group_hash_axioms;

/// The index of an archetype: a set of component types that entities share.
#[derive(Debug, Clone, Copy, PartialEq, Eq, Structural, Hash)]
pub struct ArchetypeId(pub u32);

impl SparseIndex for ArchetypeId {
    open spec fn key(self) -> usize {
        self.0 as usize
    }

    open spec fn max_key() -> nat {
        if usize::MAX < u32::MAX {
            usize::MAX as nat
        } else {
            u32::MAX as nat
        }
    }

    fn to_usize(self) -> (r: usize) {
        self.0 as usize
    }

    fn from_usize(index: usize) -> (r: ArchetypeId)
        ensures
            r.0 == index as u32,
    {
        ArchetypeId(index as u32)
    }
}

/// What moves an entity from one archetype to another: one component, or a
/// kit of them.
#[derive(Debug, Clone, Copy, PartialEq, Eq, Structural, Hash)]
pub enum ArchetypeEdgeId {
    Component(ComponentId),
    Kit(ComponentId),
}

/// Whether an edge adds or removes.
#[derive(Debug, Clone, Copy, PartialEq, Eq, Structural, Hash)]
pub enum Edge {
    Add,
    Remove,
}

/// The key under which an edge is stored: components on even keys, kits on
/// odd ones.
pub open spec fn edge_key(id: ArchetypeEdgeId) -> u64 {
    match id {
        ArchetypeEdgeId::Component(c) => (2 * c.0) as u64,
        ArchetypeEdgeId::Kit(c) => (2 * c.0 + 1) as u64,
    }
}

fn edge_key_of(id: ArchetypeEdgeId) -> (r: u64)
    ensures
        r == edge_key(id),
{
    match id {
        ArchetypeEdgeId::Component(c) => 2 * (c.0 as u64),
        ArchetypeEdgeId::Kit(c) => 2 * (c.0 as u64) + 1,
    }
}

/// No two edges share a key.
pub proof fn lemma_edge_key_injective(a: ArchetypeEdgeId, b: ArchetypeEdgeId)
    ensures
        edge_key(a) == edge_key(b) ==> a == b,
{
}

/// The archetypes reached from one archetype by adding or removing an edge,
/// by edge key.
pub struct Edges {
    pub add: HashMap<u64, ArchetypeId>,
    pub remove: HashMap<u64, ArchetypeId>,
}

impl Edges {
    pub fn new() -> (r: Edges)
        ensures
            r.add@ == Map::<u64, ArchetypeId>::empty(),
            r.remove@ == Map::<u64, ArchetypeId>::empty(),
    {
        Edges { add: HashMap::new(), remove: HashMap::new() }
    }

    pub fn get(&self, id: ArchetypeEdgeId, edge: Edge) -> (r: Option<ArchetypeId>)
        ensures
            r == (match edge {
                Edge::Add => self.add@.get(edge_key(id)),
                Edge::Remove => self.remove@.get(edge_key(id)),
            }),
    {
        match edge {
            Edge::Add => self.added(id),
            Edge::Remove => self.removed(id),
        }
    }

    pub fn insert(&mut self, id: ArchetypeEdgeId, archetype: ArchetypeId, edge: Edge)
        ensures
            edge == Edge::Add ==> final(self).add@ == old(self).add@.insert(edge_key(id), archetype)
                && final(self).remove@ == old(self).remove@,
            edge == Edge::Remove ==> final(self).remove@ == old(self).remove@.insert(edge_key(id), archetype)
                && final(self).add@ == old(self).add@,
    {
        match edge {
            Edge::Add => {
                self.add.insert(edge_key_of(id), archetype);
            },
            Edge::Remove => {
                self.remove.insert(edge_key_of(id), archetype);
            },
        };
    }

    pub fn added(&self, id: ArchetypeEdgeId) -> (r: Option<ArchetypeId>)
        ensures
            r == self.add@.get(edge_key(id)),
    {
        match self.add.get(&edge_key_of(id)) {
            Some(archetype) => Some(*archetype),
            None => None,
        }
    }

    pub fn removed(&self, id: ArchetypeEdgeId) -> (r: Option<ArchetypeId>)
        ensures
            r == self.remove@.get(edge_key(id)),
    {
        match self.remove.get(&edge_key_of(id)) {
            Some(archetype) => Some(*archetype),
            None => None,
        }
    }
}

/// The index of an entity's row in an archetype's table.
#[derive(Debug, Clone, Copy, PartialEq, Eq, Structural, Hash)]
pub struct RowIndex(pub u32);

impl core::ops::Deref for RowIndex {
    type Target = u32;

    fn deref(&self) -> (r: &u32)
        ensures
            *r == self.0,
    {
        &self.0
    }
}

impl SparseIndex for RowIndex {
    open spec fn key(self) -> usize {
        self.0 as usize
    }

    open spec fn max_key() -> nat {
        if usize::MAX < u32::MAX {
            usize::MAX as nat
        } else {
            u32::MAX as nat
        }
    }

    fn to_usize(self) -> (r: usize) {
        self.0 as usize
    }

    fn from_usize(index: usize) -> (r: RowIndex)
        ensures
            r.0 == index as u32,
    {
        RowIndex(index as u32)
    }
}

/// Where an entity is stored: its archetype and its row there.
#[derive(Debug, Clone, Copy, PartialEq, Eq, Structural, Hash)]
pub struct EntityIndex {
    pub archetype: ArchetypeId,
    pub row: RowIndex,
}

impl EntityIndex {
    pub fn new(archetype: ArchetypeId, row: RowIndex) -> (r: EntityIndex)
        ensures
            r.archetype == archetype,
            r.row == row,
    {
        EntityIndex { archetype, row }
    }
}

/// Which archetypes a query visits: those with every required component,
/// with at least one of the included ones when any are given, and with none
/// of the excluded ones.
pub struct ArchetypeQuery {
    pub required: FixedBitSet,
    pub included: FixedBitSet,
    pub excluded: FixedBitSet,
}

/// Whether an archetype with `components` is visited by a query with these
/// sets.
pub open spec fn query_matches(
    components: Set<usize>,
    required: Set<usize>,
    included: Set<usize>,
    excluded: Set<usize>,
) -> bool {
    &&& required.subset_of(components)
    &&& components.disjoint(excluded)
    &&& (included == Set::<usize>::empty() || !components.disjoint(included))
}

impl ArchetypeQuery {
    /// Every bit set is well kept.
    pub open spec fn wf(&self) -> bool {
        well_kept(self.required) && well_kept(self.included) && well_kept(self.excluded)
    }

    pub fn new() -> (r: ArchetypeQuery)
        ensures
            r.wf(),
            bits_of(r.required) == Set::<usize>::empty(),
            bits_of(r.included) == Set::<usize>::empty(),
            bits_of(r.excluded) == Set::<usize>::empty(),
    {
        ArchetypeQuery { required: bitset_new(), included: bitset_new(), excluded: bitset_new() }
    }

    /// Whether an archetype with the components of `components` is visited.
    pub fn matches(&self, components: &FixedBitSet) -> (r: bool)
        requires
            self.wf(),
            well_kept(*components),
        ensures
            r == query_matches(
                bits_of(*components),
                bits_of(self.required),
                bits_of(self.included),
                bits_of(self.excluded),
            ),
    {
        bitset_is_superset(components, &self.required) && bitset_is_disjoint(components, &self.excluded)
            && (bitset_is_clear(&self.included) || !bitset_is_disjoint(components, &self.included))
    }

    pub fn require(&mut self, component: ComponentId)
        requires
            old(self).wf(),
            component.key() < usize::MAX,
        ensures
            final(self).wf(),
            bits_of(final(self).required) == bits_of(old(self).required).insert(component.key()),
            final(self).included == old(self).included,
            final(self).excluded == old(self).excluded,
    {
        bitset_grow(&mut self.required, component.to_usize() + 1);
        bitset_set(&mut self.required, component.to_usize(), true);
    }

    /// Visits only archetypes with at least one of the components named
    /// this way.
    pub fn include_component(&mut self, component: ComponentId)
        requires
            old(self).wf(),
            component.key() < usize::MAX,
        ensures
            final(self).wf(),
            bits_of(final(self).included) == bits_of(old(self).included).insert(component.key()),
            final(self).required == old(self).required,
            final(self).excluded == old(self).excluded,
    {
        bitset_grow(&mut self.included, component.to_usize() + 1);
        bitset_set(&mut self.included, component.to_usize(), true);
    }

    pub fn exclude(&mut self, component: ComponentId)
        requires
            old(self).wf(),
            component.key() < usize::MAX,
        ensures
            final(self).wf(),
            bits_of(final(self).excluded) == bits_of(old(self).excluded).insert(component.key()),
            final(self).required == old(self).required,
            final(self).included == old(self).included,
    {
        bitset_grow(&mut self.excluded, component.to_usize() + 1);
        bitset_set(&mut self.excluded, component.to_usize(), true);
    }
}

/// A component taken off an entity, handed out as an event.
pub struct RemovedComponent<C: Component> {
    component: C,
}

impl<C: Component> RemovedComponent<C> {
    pub closed spec fn value(&self) -> C {
        self.component
    }

    pub fn new(component: C) -> (r: Self)
        ensures
            r.value() == component,
    {
        RemovedComponent { component }
    }

    pub fn take(self) -> (r: C)
        ensures
            r == self.value(),
    {
        self.component
    }
}

impl<C: Component> Event for RemovedComponent<C> {

}

/// The entities that have exactly one set of components, with their table
/// of values, the set of components as bits, and the archetypes one edge
/// away.
pub struct Archetype {
    id: ArchetypeId,
    table: Table,
    bitset: FixedBitSet,
    edges: Edges,
}

impl Archetype {
    pub closed spec fn id_value(&self) -> ArchetypeId {
        self.id
    }

    pub closed spec fn table_value(&self) -> Table {
        self.table
    }

    /// The components of the archetype, as bits.
    pub closed spec fn bits(&self) -> FixedBitSet {
        self.bitset
    }

    pub closed spec fn edges_value(&self) -> Edges {
        self.edges
    }

    /// The table is well formed and the component bits are well kept.
    pub open spec fn wf(&self) -> bool {
        self.table_value().wf() && well_kept(self.bits())
    }

    /// An archetype with no edges yet.
    pub fn new(id: ArchetypeId, table: Table, bitset: FixedBitSet) -> (r: Archetype)
        ensures
            r.id_value() == id,
            r.table_value() == table,
            r.bits() == bitset,
            r.edges_value().add@ == Map::<u64, ArchetypeId>::empty(),
            r.edges_value().remove@ == Map::<u64, ArchetypeId>::empty(),
    {
        Archetype { id, table, bitset, edges: Edges::new() }
    }

    pub fn id(&self) -> (r: ArchetypeId)
        ensures
            r == self.id_value(),
    {
        self.id
    }

    pub fn table(&self) -> (r: &Table)
        ensures
            *r == self.table_value(),
    {
        &self.table
    }

    pub fn table_mut(&mut self) -> (r: &mut Table)
        ensures
            *r == old(self).table_value(),
            final(self).table_value() == *final(r),
            final(self).id_value() == old(self).id_value(),
            final(self).bits() == old(self).bits(),
            final(self).edges_value() == old(self).edges_value(),
    {
        &mut self.table
    }

    pub fn edges(&self) -> (r: &Edges)
        ensures
            *r == self.edges_value(),
    {
        &self.edges
    }

    pub fn edges_mut(&mut self) -> (r: &mut Edges)
        ensures
            *r == old(self).edges_value(),
            final(self).edges_value() == *final(r),
            final(self).id_value() == old(self).id_value(),
            final(self).bits() == old(self).bits(),
            final(self).table_value() == old(self).table_value(),
    {
        &mut self.edges
    }

    pub fn contains(&self, entity: Entity) -> (r: bool)
        ensures
            r == self.table_value().entity_keys().contains(entity_key(entity)),
    {
        self.table.contains(entity)
    }

    /// Whether `query` visits this archetype.
    pub fn matches(&self, query: &ArchetypeQuery) -> (r: bool)
        requires
            self.wf(),
            query.wf(),
        ensures
            r == query_matches(
                bits_of(self.bits()),
                bits_of(query.required),
                bits_of(query.included),
                bits_of(query.excluded),
            ),
    {
        query.matches(&self.bitset)
    }

    /// Whether the archetype has every component of `components`.
    pub fn has_components(&self, components: &FixedBitSet) -> (r: bool)
        requires
            self.wf(),
            well_kept(*components),
        ensures
            r == bits_of(*components).subset_of(bits_of(self.bits())),
    {
        bitset_is_superset(&self.bitset, components)
    }

    /// Whether the archetype has the component with key `component`.
    pub fn has_component(&self, component: usize) -> (r: bool)
        ensures
            r == bits_of(self.bits()).contains(component),
    {
        bitset_contains(&self.bitset, component)
    }

    /// Whether the table has a column for component `id`.
    pub fn has_component_id(&self, id: ComponentId) -> (r: bool)
        requires
            self.wf(),
        ensures
            r == self.table_value().column_map().contains_key(id.key()),
    {
        self.table.has_component(id)
    }

    /// Where `entity` is stored, if the archetype holds it.
    pub fn get_entity(&self, entity: Entity) -> (r: Option<EntityIndex>)
        ensures
            r is None <==> !self.table_value().entity_keys().contains(entity_key(entity)),
            r matches Some(index) ==> index.archetype == self.id_value() && exists|i: int|
                0 <= i < self.table_value().entity_keys().len() && self.table_value().entity_keys()[i]
                    == entity_key(entity) && index.row.0 == i as u32,
    {
        match self.table.get_entity_row(entity) {
            Some(row) => Some(EntityIndex::new(self.id, row)),
            None => None,
        }
    }

    /// Adds `entity` with the values of `row`, as `Table::add_entity` does,
    /// and tells where it went.
    pub fn add_entity(&mut self, entity: Entity, row: Row) -> (r: EntityIndex)
        requires
            old(self).table_value().wf(),
            row.wf(),
            !old(self).table_value().entity_keys().contains(entity_key(entity)),
            forall|p: int|
                0 <= p < old(self).table_value().column_seq().len() ==> row.cell_map().contains_key(
                    (#[trigger] old(self).table_value().column_ids()[p]).key(),
                ) && row.cell_map()[old(self).table_value().column_ids()[p].key()].bytes().len()
                    == old(self).table_value().column_seq()[p].item_size(),
            forall|p: int|
                0 <= p < old(self).table_value().column_seq().len() ==> (old(self).table_value().entity_keys().len()
                    + 1) * (#[trigger] old(self).table_value().column_seq()[p]).item_size() <= usize::MAX,
        ensures
            final(self).table_value().wf(),
            final(self).id_value() == old(self).id_value(),
            final(self).bits() == old(self).bits(),
            final(self).edges_value() == old(self).edges_value(),
            r.archetype == old(self).id_value(),
            r.row.0 == old(self).table_value().entity_keys().len() as u32,
            final(self).table_value().entity_keys() == old(self).table_value().entity_keys().push(
                entity_key(entity),
            ),
            final(self).table_value().column_ids() == old(self).table_value().column_ids(),
            final(self).table_value().column_seq().len() == old(self).table_value().column_seq().len(),
            forall|p: int|
                0 <= p < old(self).table_value().column_seq().len() ==> pushed_cell(
                    old(self).table_value().column_seq()[p],
                    #[trigger] final(self).table_value().column_seq()[p],
                    row.cell_map()[old(self).table_value().column_ids()[p].key()],
                ),
    {
        let row = self.table.add_entity(entity, row);
        EntityIndex::new(self.id, row)
    }

    /// Takes `entity` out with its values, as `Table::remove_entity` does.
    pub fn remove_entity(&mut self, entity: Entity) -> (r: Option<Row>)
        requires
            old(self).table_value().wf(),
        ensures
            final(self).table_value().wf(),
            final(self).id_value() == old(self).id_value(),
            final(self).bits() == old(self).bits(),
            final(self).edges_value() == old(self).edges_value(),
            final(self).table_value().column_ids() == old(self).table_value().column_ids(),
            final(self).table_value().column_seq().len() == old(self).table_value().column_seq().len(),
            !old(self).table_value().entity_keys().contains(entity_key(entity)) ==> r is None
                && final(self).table_value().entity_keys() == old(self).table_value().entity_keys(),
            old(self).table_value().entity_keys().contains(entity_key(entity)) ==> {
                let i = key_position(old(self).table_value().entity_keys(), entity_key(entity));
                &&& r is Some
                &&& final(self).table_value().entity_keys() == crate::sparse::swap_removed(
                    old(self).table_value().entity_keys(),
                    i,
                )
                &&& forall|p: int|
                    0 <= p < old(self).table_value().column_seq().len() ==> swapped_out(
                        old(self).table_value().column_seq()[p],
                        #[trigger] final(self).table_value().column_seq()[p],
                        i,
                    )
            },
    {
        self.table.remove_entity(entity)
    }
}

/// The archetypes among `archetypes` that `query` visits, in order.
pub open spec fn visited(archetypes: Seq<Archetype>, query: ArchetypeQuery) -> Seq<Archetype>
    decreases archetypes.len(),
{
    if archetypes.len() == 0 {
        Seq::empty()
    } else {
        let rest = visited(archetypes.drop_last(), query);
        let a = archetypes.last();
        if query_matches(
            bits_of(a.bits()),
            bits_of(query.required),
            bits_of(query.included),
            bits_of(query.excluded),
        ) {
            rest.push(a)
        } else {
            rest
        }
    }
}

/// Whether an archetype with components `c` is one that `query` visits,
/// stated component by component: it has every required component, none
/// of the excluded ones, and, when any are included, at least one of them.
pub open spec fn visits(c: Set<usize>, query: ArchetypeQuery) -> bool {
    &&& forall|k: usize| #[trigger] bits_of(query.required).contains(k) ==> c.contains(k)
    &&& forall|k: usize| #[trigger] bits_of(query.excluded).contains(k) ==> !c.contains(k)
    &&& (forall|k: usize| !#[trigger] bits_of(query.included).contains(k)) || exists|k: usize|
        #[trigger] bits_of(query.included).contains(k) && c.contains(k)
}

/// A query visits an archetype exactly when it has every required
/// component, none of the excluded ones and, when any are included, at
/// least one of them.
pub proof fn law_query_matches(c: Set<usize>, query: ArchetypeQuery)
    ensures
        query_matches(c, bits_of(query.required), bits_of(query.included), bits_of(query.excluded))
            <==> visits(c, query),
{
    let inc = bits_of(query.included);
    if forall|k: usize| !#[trigger] inc.contains(k) {
        assert(inc =~= Set::<usize>::empty());
    }
    if !c.disjoint(inc) {
        let k = choose|k: usize| c.contains(k) && inc.contains(k);
        assert(inc.contains(k) && c.contains(k));
    }
    if exists|k: usize| #[trigger] inc.contains(k) && c.contains(k) {
        let k = choose|k: usize| #[trigger] inc.contains(k) && c.contains(k);
        assert(!c.disjoint(inc));
    }
    if inc == Set::<usize>::empty() {
        assert(forall|k: usize| !#[trigger] inc.contains(k));
    }
}

/// The archetypes that a query visits are, in their order, exactly those
/// of `archetypes` whose components the query accepts: each one handed out
/// has every required component, none of the excluded ones and, when any
/// are included, at least one of them; and every such archetype is handed
/// out.
pub proof fn law_query_visits(archetypes: Seq<Archetype>, query: ArchetypeQuery)
    ensures
        forall|i: int|
            0 <= i < visited(archetypes, query).len() ==> archetypes.contains(
                #[trigger] visited(archetypes, query)[i],
            ) && visits(bits_of(visited(archetypes, query)[i].bits()), query),
        forall|j: int|
            0 <= j < archetypes.len() && visits(bits_of((#[trigger] archetypes[j]).bits()), query)
                ==> visited(archetypes, query).contains(archetypes[j]),
        visited(archetypes, query).len() <= archetypes.len(),
    decreases archetypes.len(),
{
    if archetypes.len() > 0 {
        let rest = archetypes.drop_last();
        let a = archetypes.last();
        law_query_visits(rest, query);
        law_query_matches(bits_of(a.bits()), query);
        let v = visited(archetypes, query);
        let vr = visited(rest, query);
        assert forall|i: int| 0 <= i < v.len() implies archetypes.contains(#[trigger] v[i]) && visits(
            bits_of(v[i].bits()),
            query,
        ) by {
            if i < vr.len() {
                assert(v[i] == vr[i]);
                let w = choose|w: int| 0 <= w < rest.len() && rest[w] == vr[i];
                assert(archetypes[w] == rest[w]);
            } else {
                assert(v[i] == a);
                assert(archetypes[archetypes.len() - 1] == a);
            }
        }
        assert forall|j: int|
            0 <= j < archetypes.len() && visits(bits_of((#[trigger] archetypes[j]).bits()), query) implies v.contains(
            archetypes[j],
        ) by {
            if j < archetypes.len() - 1 {
                assert(rest[j] == archetypes[j]);
                assert(vr.contains(rest[j]));
                let w = choose|w: int| 0 <= w < vr.len() && vr[w] == rest[j];
                assert(v[w] == vr[w]);
            } else {
                assert(v[v.len() - 1] == a);
            }
        }
    }
}

/// Every archetype of the world, with the archetype that holds each entity.
/// Archetype 0 has no components; every entity starts there.
pub struct Archetypes {
    archetypes: Vec<Archetype>,
    entity_map: HashMap<u64, ArchetypeId>,
}

impl Archetypes {
    /// The archetypes, by id.
    pub closed spec fn archetype_seq(&self) -> Seq<Archetype> {
        self.archetypes@
    }

    /// The archetype holding each entity, by entity key.
    pub closed spec fn entity_archetypes(&self) -> Map<u64, ArchetypeId> {
        self.entity_map@
    }

    /// Each archetype is well formed and stands at its id, archetype 0 has
    /// no columns, and an entity is recorded in an archetype exactly when
    /// that archetype's table holds it.
    pub closed spec fn wf(&self) -> bool {
        &&& 0 < self.archetypes@.len() <= u32::MAX
        &&& self.archetypes@[0].table_value().column_seq().len() == 0
        &&& forall|a: int|
            0 <= a < self.archetypes@.len() ==> (#[trigger] self.archetypes@[a]).wf()
                && self.archetypes@[a].id_value().0 == a
        &&& forall|k: u64|
            #[trigger] self.entity_map@.contains_key(k) ==> self.entity_map@[k].0 < self.archetypes@.len()
                && self.archetypes@[self.entity_map@[k].0 as int].table_value().entity_keys().contains(k)
        &&& forall|a: int, k: u64|
            0 <= a < self.archetypes@.len() && #[trigger] self.archetypes@[a].table_value().entity_keys().contains(k)
                ==> self.entity_map@.contains_key(k) && self.entity_map@[k].0 == a
    }

    /// The archetypes reached by no entity yet: the one without components.
    pub fn new() -> (r: Archetypes)
        ensures
            r.wf(),
            r.archetype_seq().len() == 1,
            r.entity_archetypes() == Map::<u64, ArchetypeId>::empty(),
    {
        let table = TableBuilder::new().build();
        let empty = Archetype::new(ArchetypeId(0), table, bitset_new());
        let mut archetypes: Vec<Archetype> = Vec::new();
        archetypes.push(empty);
        let r = Archetypes { archetypes, entity_map: HashMap::new() };
        proof {
            assert(r.archetypes@[0] == empty);
        }
        r
    }

    pub fn archetypes(&self) -> (r: &Vec<Archetype>)
        ensures
            r@ == self.archetype_seq(),
    {
        &self.archetypes
    }

    pub fn archetype(&self, id: ArchetypeId) -> (r: Option<&Archetype>)
        ensures
            r is Some == (id.0 < self.archetype_seq().len()),
            r matches Some(a) ==> *a == self.archetype_seq()[id.0 as int],
    {
        let index = id.to_usize();
        if index < self.archetypes.len() {
            Some(&self.archetypes[index])
        } else {
            None
        }
    }

    /// The archetype holding `entity`.
    pub fn entity_archetype(&self, entity: Entity) -> (r: Option<&Archetype>)
        requires
            self.wf(),
        ensures
            r is Some == self.entity_archetypes().contains_key(entity_key(entity)),
            r matches Some(a) ==> *a == self.archetype_seq()[self.entity_archetypes()[entity_key(entity)].0 as int],
    {
        let key = entity_key_of(entity);
        match self.entity_map.get(&key) {
            Some(id) => self.archetype(*id),
            None => None,
        }
    }

    /// Where `entity` is stored.
    pub fn get_entity(&self, entity: Entity) -> (r: Option<EntityIndex>)
        requires
            self.wf(),
        ensures
            r is Some == self.entity_archetypes().contains_key(entity_key(entity)),
            r matches Some(index) ==> index.archetype == self.entity_archetypes()[entity_key(entity)] && {
                let t = self.archetype_seq()[index.archetype.0 as int].table_value();
                exists|i: int| 0 <= i < t.entity_keys().len() && t.entity_keys()[i] == entity_key(entity) && index.row.0 == i as u32
            },
    {
        match self.entity_archetype(entity) {
            Some(archetype) => archetype.get_entity(entity),
            None => None,
        }
    }

    /// The archetypes that `query` visits, in order.
    pub fn query(&self, query: &ArchetypeQuery) -> (r: Vec<&Archetype>)
        requires
            self.wf(),
            query.wf(),
        ensures
            r@.len() == visited(self.archetype_seq(), *query).len(),
            forall|i: int| 0 <= i < r@.len() ==> *r@[i] == visited(self.archetype_seq(), *query)[i],
    {
        let mut r: Vec<&Archetype> = Vec::new();
        let mut i: usize = 0;
        while i < self.archetypes.len()
            invariant
                self.wf(),
                query.wf(),
                i <= self.archetypes@.len(),
                r@.len() == visited(self.archetypes@.take(i as int), *query).len(),
                forall|j: int| 0 <= j < r@.len() ==> *r@[j] == visited(self.archetypes@.take(i as int), *query)[j],
            decreases self.archetypes@.len() - i,
        {
            let archetype = &self.archetypes[i];
            proof {
                assert(self.archetypes@.take(i + 1).drop_last() =~= self.archetypes@.take(i as int));
                assert(self.archetypes@.take(i + 1).last() == self.archetypes@[i as int]);
                assert(self.archetypes@[i as int].wf());
            }
            if archetype.matches(query) {
                r.push(archetype);
            }
            i = i + 1;
        }
        proof {
            assert(self.archetypes@.take(self.archetypes@.len() as int) =~= self.archetypes@);
        }
        r
    }

    /// Records `entity` in the archetype without components unless it is
    /// recorded already; tells the archetype that holds it.
    pub fn add_entity(&mut self, entity: Entity) -> (r: ArchetypeId)
        requires
            old(self).wf(),
        ensures
            final(self).wf(),
            old(self).entity_archetypes().contains_key(entity_key(entity)) ==> r == old(self).entity_archetypes()[entity_key(entity)]
                && *final(self) == *old(self),
            !old(self).entity_archetypes().contains_key(entity_key(entity)) ==> {
                &&& r.0 == 0
                &&& final(self).entity_archetypes() == old(self).entity_archetypes().insert(entity_key(entity), r)
                &&& final(self).archetype_seq().len() == old(self).archetype_seq().len()
                &&& forall|a: int|
                    0 < a < old(self).archetype_seq().len() ==> #[trigger] final(self).archetype_seq()[a] == old(self).archetype_seq()[a]
                &&& final(self).archetype_seq()[0].table_value().entity_keys() == old(self).archetype_seq()[0].table_value().entity_keys().push(entity_key(entity))
            },
    {
        let key = entity_key_of(entity);
        match self.entity_map.get(&key) {
            Some(id) => {
                return *id;
            },
            None => {},
        }
        let id = ArchetypeId(0);
        let ghost old_seq = self.archetypes@;
        proof {
            assert(old_seq[0].wf());
            if old_seq[0].table_value().entity_keys().contains(key) {
                assert(self.entity_map@.contains_key(key));
            }
        }
        self.entity_map.insert(key, id);
        let row = Row::new();
        self.archetypes[0].add_entity(entity, row);
        proof {
            let new_seq = self.archetypes@;
            assert forall|a: int| 0 <= a < new_seq.len() implies (#[trigger] new_seq[a]).wf() && new_seq[a].id_value().0 == a by {
                if a != 0 {
                    assert(new_seq[a] == old_seq[a]);
                }
            }
            assert forall|k: u64| #[trigger] self.entity_map@.contains_key(k) implies self.entity_map@[k].0 < new_seq.len()
                && new_seq[self.entity_map@[k].0 as int].table_value().entity_keys().contains(k) by {
                if k != key {
                    let a = old(self).entity_map@[k].0 as int;
                    let t = old_seq[a].table_value().entity_keys();
                    let w = choose|w: int| 0 <= w < t.len() && t[w] == k;
                    if a == 0 {
                        assert(new_seq[0].table_value().entity_keys()[w] == k);
                    } else {
                        assert(new_seq[a] == old_seq[a]);
                    }
                } else {
                    let t = new_seq[0].table_value().entity_keys();
                    assert(t[t.len() - 1] == key);
                }
            }
            assert forall|a: int, k: u64|
                0 <= a < new_seq.len() && #[trigger] new_seq[a].table_value().entity_keys().contains(k) implies self.entity_map@.contains_key(k)
                && self.entity_map@[k].0 == a by {
                if a != 0 {
                    assert(new_seq[a] == old_seq[a]);
                    assert(old_seq[a].table_value().entity_keys().contains(k));
                    assert(old(self).entity_map@.contains_key(k) && old(self).entity_map@[k].0 == a);
                    assert(k != key);
                } else if k != key {
                    let t = new_seq[0].table_value().entity_keys();
                    let w = choose|w: int| 0 <= w < t.len() && t[w] == k;
                    assert(w < old_seq[0].table_value().entity_keys().len());
                    assert(old_seq[0].table_value().entity_keys()[w] == k);
                    assert(old_seq[0].table_value().entity_keys().contains(k));
                    assert(old(self).entity_map@.contains_key(k) && old(self).entity_map@[k].0 == 0);
                }
            }
        }
        id
    }

    /// Takes `entity` out of the archetype that holds it, with its values.
    pub fn remove_entity(&mut self, entity: Entity) -> (r: Option<Row>)
        requires
            old(self).wf(),
        ensures
            final(self).wf(),
            r is Some == old(self).entity_archetypes().contains_key(entity_key(entity)),
            final(self).entity_archetypes() == old(self).entity_archetypes().remove(entity_key(entity)),
            final(self).archetype_seq().len() == old(self).archetype_seq().len(),
            old(self).entity_archetypes().contains_key(entity_key(entity)) ==> {
                let a = old(self).entity_archetypes()[entity_key(entity)].0 as int;
                let before = old(self).archetype_seq()[a].table_value();
                let after = final(self).archetype_seq()[a].table_value();
                &&& forall|b: int|
                    0 <= b < old(self).archetype_seq().len() && b != a ==> #[trigger] final(self).archetype_seq()[b]
                        == old(self).archetype_seq()[b]
                &&& after.entity_keys() == crate::sparse::swap_removed(
                    before.entity_keys(),
                    key_position(before.entity_keys(), entity_key(entity)),
                )
                &&& forall|p: int|
                    0 <= p < before.column_seq().len() ==> swapped_out(
                        before.column_seq()[p],
                        #[trigger] after.column_seq()[p],
                        key_position(before.entity_keys(), entity_key(entity)),
                    )
            },
            !old(self).entity_archetypes().contains_key(entity_key(entity)) ==> final(self).archetype_seq()
                == old(self).archetype_seq(),
    {
        let key = entity_key_of(entity);
        let removed = self.entity_map.remove(&key);
        let id = match removed {
            Some(id) => id,
            None => {
                proof {
                    assert(self.entity_map@ =~= old(self).entity_map@);
                }
                return None;
            },
        };
        let ghost old_seq = self.archetypes@;
        let ghost a = id.0 as int;
        let index = id.to_usize();
        proof {
            assert(old_seq[a].wf());
        }
        let r = self.archetypes[index].remove_entity(entity);
        proof {
            let new_seq = self.archetypes@;
            let before = old_seq[a].table_value().entity_keys();
            let after = new_seq[a].table_value().entity_keys();
            let i = key_position(before, key);
            assert(0 <= i < before.len() && before[i] == key);
            assert(before.no_duplicates()) by {
                assert(old_seq[a].table_value().wf());
                crate::world::table::lemma_keys_distinct(old_seq[a].table_value());
            }
            assert forall|k: u64| #[trigger] after.contains(k) == (before.contains(k) && k != key) by {
                let last = before.len() - 1;
                if after.contains(k) {
                    let w = choose|w: int| 0 <= w < after.len() && after[w] == k;
                    let ow = if w == i { last } else { w };
                    assert(after[w] == before[ow]);
                    assert(before[ow] == k);
                    if k == key {
                        assert(ow != i);
                    }
                }
                if before.contains(k) && k != key {
                    let w = choose|w: int| 0 <= w < before.len() && before[w] == k;
                    if w == last {
                        assert(after[i] == k);
                    } else {
                        assert(w != i);
                        assert(after[w] == k);
                    }
                }
            }
            assert forall|b: int| 0 <= b < new_seq.len() implies (#[trigger] new_seq[b]).wf() && new_seq[b].id_value().0 == b by {
                if b != a {
                    assert(new_seq[b] == old_seq[b]);
                }
            }
            if a != 0 {
                assert(new_seq[0] == old_seq[0]);
            }
            assert forall|k: u64| #[trigger] self.entity_map@.contains_key(k) implies self.entity_map@[k].0 < new_seq.len()
                && new_seq[self.entity_map@[k].0 as int].table_value().entity_keys().contains(k) by {
                let b = self.entity_map@[k].0 as int;
                assert(old(self).entity_map@.contains_key(k));
                assert(k != key);
                assert(old(self).entity_map@[k].0 == b);
                assert(old_seq[b].table_value().entity_keys().contains(k));
                if b != a {
                    assert(new_seq[b] == old_seq[b]);
                } else {
                    assert(before.contains(k));
                    assert(after.contains(k));
                }
            }
            assert forall|b: int, k: u64|
                0 <= b < new_seq.len() && #[trigger] new_seq[b].table_value().entity_keys().contains(k) implies self.entity_map@.contains_key(k)
                && self.entity_map@[k].0 == b by {
                if b != a {
                    assert(new_seq[b] == old_seq[b]);
                    assert(old_seq[b].table_value().entity_keys().contains(k));
                    assert(old(self).entity_map@.contains_key(k) && old(self).entity_map@[k].0 == b);
                    if k == key {
                        assert(false);
                    }
                } else {
                    assert(after.contains(k));
                    assert(before.contains(k) && k != key);
                    assert(old_seq[a].table_value().entity_keys().contains(k));
                }
            }
        }
        r
    }
}

} // verus!
