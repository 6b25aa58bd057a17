//! The storage of an archetype table: a column of packed component bytes
//! per component type, each item with when it was added and last modified,
//! and rows of component cells on their way into or out of a table.
use crate::blob::{chunk, removed_chunk, swap_removed_chunk, Blob};
use crate::frame::{Frame, ObjectStatus};
use crate::sparse::{
    has_key, law_insert, law_remove, map_of, position_of, swap_removed, ImmutableSparseSet, SparseIndex,
    SparseSet,
};
use crate::world::archetype::RowIndex;
use crate::world::component::ComponentId;
use crate::world::entity::Entity;
use crate::world::event::{entity_key, entity_key_of};
use indexmap::IndexSet;
use vstd::prelude::*;

verus! {

#[verifier::external_type_specification]
#[verifier::external_body]
#[verifier::reject_recursive_types(T)]
#[verifier::reject_recursive_types(S)]
pub struct ExIndexSet<T, S>(IndexSet<T, S>);

/// The items of an `IndexSet` of keys, in their order.
pub uninterp spec fn set_items(set: IndexSet<u64>) -> Seq<u64>;

/// `IndexSet::new`: a set with no items.
#[verifier::external_body]
fn index_set_new() -> (r: IndexSet<u64>)
    ensures
        set_items(r) == Seq::<u64>::empty(),
{
    IndexSet::new()
}

/// `IndexSet::insert`: appends `value` when no equal item is there, and
/// tells whether it did; otherwise the items stay as they were.
#[verifier::external_body]
fn index_set_insert(set: &mut IndexSet<u64>, value: u64) -> (r: bool)
    ensures
        r == !set_items(*old(set)).contains(value),
        r ==> set_items(*final(set)) == set_items(*old(set)).push(value),
        !r ==> set_items(*final(set)) == set_items(*old(set)),
{
    set.insert(value)
}

/// `IndexSet::get_index_of`: a position holding `value`, if one does.
#[verifier::external_body]
fn index_set_get_index_of(set: &IndexSet<u64>, value: u64) -> (r: Option<usize>)
    ensures
        r is None <==> !set_items(*set).contains(value),
        r matches Some(i) ==> i < set_items(*set).len() && set_items(*set)[i as int] == value,
{
    set.get_index_of(&value)
}

/// `IndexSet::swap_remove_index`: takes out the item at `index`, moving
/// the last item into its place; `None` when `index` is past the end.
#[verifier::external_body]
fn index_set_swap_remove_index(set: &mut IndexSet<u64>, index: usize) -> (r: Option<u64>)
    ensures
        index >= set_items(*old(set)).len() ==> r is None && set_items(*final(set)) == set_items(
            *old(set),
        ),
        index < set_items(*old(set)).len() ==> r == Some(set_items(*old(set))[index as int])
            && set_items(*final(set)) == swap_removed(set_items(*old(set)), index as int),
{
    set.swap_remove_index(index)
}

/// `IndexSet::contains`: whether an item equals `value`.
#[verifier::external_body]
fn index_set_contains(set: &IndexSet<u64>, value: u64) -> (r: bool)
    ensures
        r == set_items(*set).contains(value),
{
    set.contains(&value)
}

/// `IndexSet::iter`, collected: the items in order.
#[verifier::external_body]
fn index_set_to_vec(set: &IndexSet<u64>) -> (r: Vec<u64>)
    ensures
        r@ == set_items(*set),
{
    set.iter().copied().collect()
}

/// One component value, as its bytes, with when it was added and last
/// modified.
pub struct TableCell {
    data: Vec<u8>,
    frame: ObjectStatus,
}

impl TableCell {
    /// The bytes of the value.
    pub closed spec fn bytes(&self) -> Seq<u8> {
        self.data@
    }

    /// When the value was added and last modified.
    pub closed spec fn status(&self) -> ObjectStatus {
        self.frame
    }

    /// A cell holding the bytes `data` of a value that was never changed
    /// since frame zero.
    pub fn new(data: Vec<u8>) -> (r: TableCell)
        ensures
            r.bytes() == data@,
            r.status().added.0 == 0,
            r.status().modified.0 == 0,
    {
        TableCell { data, frame: ObjectStatus::new() }
    }

    /// A cell holding the bytes `data` of a value added and modified in
    /// `frame`.
    pub fn with_frame(data: Vec<u8>, frame: Frame) -> (r: TableCell)
        ensures
            r.bytes() == data@,
            r.status().added == frame,
            r.status().modified == frame,
    {
        TableCell { data, frame: ObjectStatus { added: frame, modified: frame } }
    }

    pub fn data(&self) -> (r: &[u8])
        ensures
            r@ == self.bytes(),
    {
        self.data.as_slice()
    }

    pub fn frame(&self) -> (r: &ObjectStatus)
        ensures
            *r == self.status(),
    {
        &self.frame
    }

    /// Records that the value was added in `frame`.
    pub fn add(&mut self, frame: Frame)
        ensures
            final(self).bytes() == old(self).bytes(),
            final(self).status() == (ObjectStatus { added: frame, modified: old(self).status().modified }),
    {
        self.frame.added = frame;
    }

    /// Records that the value was modified in `frame`.
    pub fn modify(&mut self, frame: Frame)
        ensures
            final(self).bytes() == old(self).bytes(),
            final(self).status() == (ObjectStatus { added: old(self).status().added, modified: frame }),
    {
        self.frame.modified = frame;
    }

    /// Gives up the bytes of the value.
    pub fn into_raw(self) -> (r: Vec<u8>)
        ensures
            r@ == self.bytes(),
    {
        self.data
    }
}

/// The values of one component type in a table, packed as bytes, with the
/// status of each.
pub struct Column {
    data: Blob,
    frames: Vec<ObjectStatus>,
}

impl Column {
    /// The packed bytes of the values.
    pub closed spec fn bytes(&self) -> Seq<u8> {
        self.data.bytes()
    }

    /// The size of one value in bytes.
    pub closed spec fn item_size(&self) -> nat {
        self.data.item_size()
    }

    /// When each value was added and last modified, in order.
    pub closed spec fn statuses(&self) -> Seq<ObjectStatus> {
        self.frames@
    }

    /// An empty column for values of `size` bytes.
    pub fn with_item_size(size: usize) -> (r: Column)
        ensures
            r.bytes() == Seq::<u8>::empty(),
            r.item_size() == size,
            r.statuses() == Seq::<ObjectStatus>::empty(),
    {
        Column { data: Blob::with_item_size(size), frames: Vec::new() }
    }

    /// A column holding the value of `cell` alone, sized to it.
    pub fn from_cell(cell: TableCell) -> (r: Column)
        requires
            cell.bytes().len() > 0,
        ensures
            r.bytes() == cell.bytes(),
            r.item_size() == cell.bytes().len(),
            r.statuses() == seq![cell.status()],
    {
        let frame = cell.frame;
        let data = cell.data;
        let mut blob = Blob::with_item_size(data.len());
        proof {
            assert(data@.len() % data@.len() == 0) by (nonlinear_arith)
                requires
                    data@.len() > 0,
            ;
        }
        blob.append_raw(data);
        let mut frames: Vec<ObjectStatus> = Vec::new();
        frames.push(frame);
        Column { data: blob, frames }
    }

    pub fn data(&self) -> (r: &[u8])
        ensures
            r@ == self.bytes(),
    {
        self.data.data()
    }

    pub fn frames(&self) -> (r: &[ObjectStatus])
        ensures
            r@ == self.statuses(),
    {
        self.frames.as_slice()
    }

    /// The statuses, open to change.
    pub fn frames_mut(&mut self) -> (r: &mut [ObjectStatus])
        ensures
            r@ == old(self).statuses(),
            final(self).statuses() == final(r)@,
            final(self).bytes() == old(self).bytes(),
            final(self).item_size() == old(self).item_size(),
    {
        self.frames.as_mut_slice()
    }

    /// Appends the value of `cell`, which must be of this column's size.
    pub fn push_cell(&mut self, cell: TableCell)
        requires
            old(self).item_size() > 0,
            cell.bytes().len() == old(self).item_size(),
            old(self).bytes().len() + cell.bytes().len() <= usize::MAX,
        ensures
            final(self).bytes() == old(self).bytes() + cell.bytes(),
            final(self).item_size() == old(self).item_size(),
            final(self).statuses() == old(self).statuses().push(cell.status()),
    {
        let frame = cell.frame;
        let data = cell.data;
        proof {
            let n = data@.len();
            assert(n % n == 0) by (nonlinear_arith)
                requires
                    n > 0,
            ;
        }
        self.data.append_raw(data);
        self.frames.push(frame);
    }

    /// Takes value `index` out, moving the values after it down.
    pub fn remove(&mut self, index: usize) -> (r: Option<TableCell>)
        requires
            old(self).item_size() > 0,
            index < old(self).statuses().len(),
            (index + 1) * old(self).item_size() <= old(self).bytes().len(),
        ensures
            r matches Some(cell) && cell.bytes() == chunk(old(self).bytes(), old(self).item_size(), index as nat)
                && cell.status() == old(self).statuses()[index as int],
            final(self).bytes() == removed_chunk(old(self).bytes(), old(self).item_size(), index as nat),
            final(self).item_size() == old(self).item_size(),
            final(self).statuses() == old(self).statuses().remove(index as int),
    {
        let frame = self.frames.remove(index);
        let data = self.data.remove_raw(index);
        Some(TableCell { data, frame })
    }

    /// Takes value `index` out, moving the last value into its place.
    pub fn swap_remove(&mut self, index: usize) -> (r: Option<TableCell>)
        requires
            old(self).item_size() > 0,
            index < old(self).statuses().len(),
            (index + 1) * old(self).item_size() <= old(self).bytes().len(),
        ensures
            r matches Some(cell) && cell.bytes() == chunk(old(self).bytes(), old(self).item_size(), index as nat)
                && cell.status() == old(self).statuses()[index as int],
            final(self).bytes() == swap_removed_chunk(old(self).bytes(), old(self).item_size(), index as nat),
            final(self).item_size() == old(self).item_size(),
            final(self).statuses() == swap_removed(old(self).statuses(), index as int),
    {
        let frame = self.frames.swap_remove(index);
        let data = self.data.swap_remove_raw(index);
        Some(TableCell { data, frame })
    }

    /// The number of whole values stored.
    pub fn len(&self) -> (r: usize)
        requires
            self.item_size() > 0,
        ensures
            r == self.bytes().len() / self.item_size(),
    {
        self.data.len()
    }

    pub fn is_empty(&self) -> (r: bool)
        ensures
            r == (self.bytes().len() == 0),
    {
        self.data.is_empty()
    }

    /// Drops the stored values; the statuses are left as they were.
    pub fn clear(&mut self)
        ensures
            final(self).bytes() == Seq::<u8>::empty(),
            final(self).item_size() == old(self).item_size(),
            final(self).statuses() == old(self).statuses(),
    {
        self.data.clear();
    }
}

/// The component cells of one entity, by component.
pub struct Row(SparseSet<TableCell, ComponentId>);

impl Row {
    /// The components held, in storage order.
    pub closed spec fn id_seq(&self) -> Seq<ComponentId> {
        self.0.keys()
    }

    /// The cells held, in storage order.
    pub closed spec fn cell_seq(&self) -> Seq<TableCell> {
        self.0.vals()
    }

    /// The storage position recorded for component key `k`.
    pub closed spec fn slot(&self, k: usize) -> Option<usize> {
        self.0.slot(k)
    }

    /// The cell held for each component key.
    pub closed spec fn cell_map(&self) -> Map<usize, TableCell> {
        map_of(self.0.keys(), self.0.vals())
    }

    /// Cells and recorded positions agree, as in a consistent sparse set.
    pub closed spec fn consistent(&self) -> bool {
        self.0.consistent()
    }

    /// No recorded position is left over from a removal by position.
    pub closed spec fn wf(&self) -> bool {
        self.0.wf()
    }

    /// In a well-formed row the components are distinct, the position
    /// recorded for a component is that of its cell, and the cell map holds
    /// exactly the components of the row.
    pub proof fn lemma_wf(&self)
        requires
            self.wf(),
        ensures
            self.consistent(),
            crate::sparse::keys_distinct(self.id_seq()),
            self.id_seq().len() == self.cell_seq().len(),
            forall|k: usize| #[trigger] self.slot(k) == crate::sparse::slot_for(self.id_seq(), k),
            forall|k: usize| #[trigger] self.cell_map().contains_key(k) == has_key(self.id_seq(), k),
    {
        self.0.lemma_wf();
    }

    pub fn new() -> (r: Row)
        ensures
            r.wf(),
            r.cell_map() == Map::<usize, TableCell>::empty(),
            r.consistent(),
            r.id_seq() == Seq::<ComponentId>::empty(),
            r.cell_seq() == Seq::<TableCell>::empty(),
    {
        let set = SparseSet::new();
        proof {
            set.lemma_blank_wf();
            set.lemma_wf();
            assert(map_of(set.keys(), set.vals()) =~= Map::<usize, TableCell>::empty());
        }
        Row(set)
    }

    /// The cell of component `id`, if the row records one.
    pub fn get_cell(&self, id: ComponentId) -> (r: Option<&TableCell>)
        requires
            self.consistent(),
            self.slot(id.key()) matches Some(p) ==> p < self.cell_seq().len(),
        ensures
            r.is_some() == self.slot(id.key()) is Some,
            r.is_some() ==> *r.unwrap() == self.cell_seq()[self.slot(id.key()).unwrap() as int],
    {
        self.0.get(id)
    }

    /// Stores `cell` as component `id`, giving back the cell it replaces.
    pub fn insert_cell(&mut self, id: ComponentId, cell: TableCell) -> (r: Option<TableCell>)
        requires
            old(self).consistent(),
            id.key() < usize::MAX,
            old(self).cell_seq().len() < usize::MAX,
            old(self).slot(id.key()) matches Some(p) ==> p < old(self).cell_seq().len(),
        ensures
            final(self).consistent(),
            old(self).wf() ==> final(self).wf(),
            old(self).slot(id.key()) matches Some(p) ==> {
                &&& r == Some(old(self).cell_seq()[p as int])
                &&& final(self).id_seq() == old(self).id_seq()
                &&& final(self).cell_seq() == old(self).cell_seq().update(p as int, cell)
            },
            old(self).slot(id.key()) is None ==> {
                &&& r is None
                &&& final(self).id_seq() == old(self).id_seq().push(id)
                &&& final(self).cell_seq() == old(self).cell_seq().push(cell)
                &&& final(self).slot(id.key()) == Some(old(self).cell_seq().len() as usize)
            },
            forall|k: usize| k != id.key() ==> #[trigger] final(self).slot(k) == old(self).slot(k),
            old(self).wf() ==> {
                &&& r == (if old(self).cell_map().contains_key(id.key()) {
                    Some(old(self).cell_map()[id.key()])
                } else {
                    None
                })
                &&& final(self).cell_map() == old(self).cell_map().insert(id.key(), cell)
            },
    {
        proof {
            if self.wf() {
                self.0.lemma_wf();
                law_insert(self.0.keys(), self.0.vals(), id, cell);
                assert(self.0.slot(id.key()) == crate::sparse::slot_for(self.0.keys(), id.key()));
            }
        }
        self.0.insert(id, cell)
    }

    /// Takes out the cell of component `id`.
    pub fn remove(&mut self, id: ComponentId) -> (r: Option<TableCell>)
        requires
            old(self).consistent(),
        ensures
            final(self).consistent(),
            old(self).wf() ==> final(self).wf(),
            old(self).slot(id.key()) is None ==> r is None && final(self).id_seq() == old(self).id_seq()
                && final(self).cell_seq() == old(self).cell_seq(),
            old(self).slot(id.key()) matches Some(p) ==> {
                &&& final(self).slot(id.key()) is None
                &&& p >= old(self).cell_seq().len() ==> r is None && final(self).id_seq() == old(self).id_seq()
                    && final(self).cell_seq() == old(self).cell_seq()
                &&& p < old(self).cell_seq().len() ==> {
                    &&& r == Some(old(self).cell_seq()[p as int])
                    &&& final(self).id_seq() == swap_removed(old(self).id_seq(), p as int)
                    &&& final(self).cell_seq() == swap_removed(old(self).cell_seq(), p as int)
                }
            },
            old(self).wf() ==> {
                &&& r == (if old(self).cell_map().contains_key(id.key()) {
                    Some(old(self).cell_map()[id.key()])
                } else {
                    None
                })
                &&& final(self).cell_map() == old(self).cell_map().remove(id.key())
            },
    {
        let ghost was_wf = self.wf();
        let count = self.0.len();
        proof {
            if was_wf {
                self.0.lemma_wf();
                assert(self.0.slot(id.key()) == crate::sparse::slot_for(self.0.keys(), id.key()));
                if has_key(self.0.keys(), id.key()) {
                    law_remove(self.0.keys(), self.0.vals(), id);
                    let p = position_of(self.0.keys(), id.key());
                    assert(self.cell_map().contains_key(id.key()));
                    assert(self.cell_map()[id.key()] == self.0.vals()[p]);
                } else {
                    assert(!self.cell_map().contains_key(id.key()));
                    assert(self.cell_map().remove(id.key()) =~= self.cell_map());
                }
            }
        }
        let r = self.0.remove(id);
        proof {
            if was_wf {
                if has_key(old(self).0.keys(), id.key()) {
                    let p = position_of(old(self).0.keys(), id.key());
                    assert(0 <= p < old(self).0.keys().len());
                    assert(old(self).0.slot(id.key()) == Some(p as usize));
                    assert(old(self).0.keys().len() == old(self).0.vals().len());
                    assert(p < count);
                    assert(self.0.keys() == swap_removed(old(self).0.keys(), p));
                    assert(self.0.vals() == swap_removed(old(self).0.vals(), p));
                }
            }
        }
        r
    }

    /// Takes out the cell stored at position `index`, with its component.
    pub fn remove_at(&mut self, index: usize) -> (r: Option<(ComponentId, TableCell)>)
        requires
            old(self).consistent(),
        ensures
            final(self).consistent(),
            index >= old(self).id_seq().len() ==> r is None && final(self).id_seq() == old(self).id_seq()
                && final(self).cell_seq() == old(self).cell_seq(),
            index < old(self).id_seq().len() ==> {
                &&& r == Some((old(self).id_seq()[index as int], old(self).cell_seq()[index as int]))
                &&& final(self).id_seq() == swap_removed(old(self).id_seq(), index as int)
                &&& final(self).cell_seq() == swap_removed(old(self).cell_seq(), index as int)
            },
    {
        self.0.remove_at(index)
    }

    /// Whether the row records a cell for component `id`; in a well-formed
    /// row, whether it holds one.
    pub fn contains(&self, id: ComponentId) -> (r: bool)
        ensures
            r == self.slot(id.key()) is Some,
            self.wf() ==> (r == crate::sparse::has_key(self.id_seq(), id.key())),
    {
        self.0.contains(id)
    }

    pub fn len(&self) -> (r: usize)
        ensures
            r == self.cell_seq().len(),
    {
        self.0.len()
    }

    pub fn is_empty(&self) -> (r: bool)
        ensures
            r == (self.cell_seq().len() == 0),
    {
        self.0.is_empty()
    }

    pub fn ids(&self) -> (r: &[ComponentId])
        ensures
            r@ == self.id_seq(),
    {
        self.0.indices()
    }

    pub fn components(&self) -> (r: &[TableCell])
        ensures
            r@ == self.cell_seq(),
    {
        self.0.values()
    }

    pub fn clear(&mut self)
        ensures
            final(self).wf(),
            final(self).consistent(),
            final(self).id_seq() == Seq::<ComponentId>::empty(),
            final(self).cell_seq() == Seq::<TableCell>::empty(),
    {
        self.0.clear();
        proof {
            self.0.lemma_blank_wf();
            self.0.lemma_wf();
        }
    }
}

/// `before` with the value of `cell` appended.
pub open spec fn pushed_cell(before: Column, after: Column, cell: TableCell) -> bool {
    &&& after.item_size() == before.item_size()
    &&& after.bytes() == before.bytes() + cell.bytes()
    &&& after.statuses() == before.statuses().push(cell.status())
}

/// `before` with value `i` swapped out for the last one.
pub open spec fn swapped_out(before: Column, after: Column, i: int) -> bool {
    &&& after.item_size() == before.item_size()
    &&& after.bytes() == swap_removed_chunk(before.bytes(), before.item_size(), i as nat)
    &&& after.statuses() == swap_removed(before.statuses(), i)
}

/// `column` holds one value of its size for each of `n` entities.
pub open spec fn column_fits(column: Column, n: nat) -> bool {
    &&& column.item_size() > 0
    &&& column.bytes().len() == n * column.item_size()
    &&& column.statuses().len() == n
}

/// A value pushed onto a column that holds `n` values is read back at
/// position `n`, with its status.
pub proof fn law_pushed_cell_reads_back(before: Column, after: Column, cell: TableCell, n: nat)
    requires
        column_fits(before, n),
        pushed_cell(before, after, cell),
        cell.bytes().len() == before.item_size(),
    ensures
        chunk(after.bytes(), after.item_size(), n) == cell.bytes(),
        after.statuses()[n as int] == cell.status(),
{
    let size = before.item_size();
    assert((n + 1) * size == n * size + size) by (nonlinear_arith);
    assert(chunk(after.bytes(), size, n) =~= cell.bytes());
}

/// The position of `key` in `keys`, where it stands.
pub open spec fn key_position(keys: Seq<u64>, key: u64) -> int {
    choose|i: int| 0 <= i < keys.len() && keys[i] == key
}

proof fn lemma_grow(n: nat, size: nat)
    ensures
        n * size + size == (n + 1) * size,
        n > 0 ==> (n - 1) * size + size == n * size,
{
    assert(n * size + size == (n + 1) * size) by (nonlinear_arith);
    if n > 0 {
        assert((n - 1) * size + size == n * size) by (nonlinear_arith)
            requires
                n > 0,
        ;
    }
}

proof fn lemma_fits_index(i: nat, n: nat, size: nat)
    requires
        i < n,
    ensures
        (i + 1) * size <= n * size,
{
    assert((i + 1) * size <= n * size) by (nonlinear_arith)
        requires
            i + 1 <= n,
    ;
}

/// The entity whose key is `key`.
fn entity_from_key(key: u64) -> (r: Entity)
    ensures
        entity_key(r) == key,
{
    let id = (key % 0x1_0000_0000) as u32;
    let generation = (key / 0x1_0000_0000) as u32;
    let r = Entity::new(id, generation);
    proof {
        assert(key == (key / 0x1_0000_0000) * 0x1_0000_0000 + key % 0x1_0000_0000) by (nonlinear_arith);
    }
    r
}

/// The columns of a table being put together, one per component.
pub struct TableBuilder {
    columns: SparseSet<Column, ComponentId>,
}

impl TableBuilder {
    /// The number of columns.
    pub closed spec fn column_count(&self) -> nat {
        self.columns.vals().len()
    }

    /// The column held for each component key.
    pub closed spec fn column_map(&self) -> Map<usize, Column> {
        map_of(self.columns.keys(), self.columns.vals())
    }

    /// The columns agree with their components, and each is empty, for
    /// values of a positive size, under a component whose key fits below
    /// `usize::MAX`.
    pub closed spec fn wf(&self) -> bool {
        &&& self.columns.wf()
        &&& forall|p: int|
            0 <= p < self.columns.vals().len() ==> column_fits(#[trigger] self.columns.vals()[p], 0)
                && self.columns.keys()[p].key() < usize::MAX
    }

    pub fn new() -> (r: TableBuilder)
        ensures
            r.wf(),
            r.column_count() == 0,
            r.column_map() == Map::<usize, Column>::empty(),
    {
        let columns = SparseSet::new();
        proof {
            columns.lemma_blank_wf();
            assert(map_of(columns.keys(), columns.vals()) =~= Map::<usize, Column>::empty());
        }
        TableBuilder { columns }
    }

    /// Gives the table an empty column for component `component_id`, for
    /// values of `size` bytes, in place of any it had.
    pub fn add_column(&mut self, component_id: ComponentId, size: usize)
        requires
            old(self).wf(),
            size > 0,
            component_id.key() < usize::MAX,
            old(self).column_count() < usize::MAX,
        ensures
            final(self).wf(),
            final(self).column_map().dom() == old(self).column_map().dom().insert(component_id.key()),
            forall|k: usize|
                k != component_id.key() && old(self).column_map().contains_key(k) ==> #[trigger] final(self).column_map()[k]
                    == old(self).column_map()[k],
            final(self).column_map()[component_id.key()].item_size() == size,
            final(self).column_map()[component_id.key()].bytes() == Seq::<u8>::empty(),
            final(self).column_map()[component_id.key()].statuses() == Seq::<ObjectStatus>::empty(),
    {
        proof {
            self.columns.lemma_wf();
        }
        let column = Column::with_item_size(size);
        let ghost keys = self.columns.keys();
        let ghost vals = self.columns.vals();
        proof {
            law_insert(keys, vals, component_id, column);
            assert(self.columns.slot(component_id.key()) == crate::sparse::slot_for(keys, component_id.key()));
        }
        self.columns.insert(component_id, column);
        proof {
            self.columns.lemma_wf();
            assert forall|p: int| 0 <= p < self.columns.vals().len() implies column_fits(
                #[trigger] self.columns.vals()[p],
                0,
            ) && self.columns.keys()[p].key() < usize::MAX by {
                if p < vals.len() {
                    if has_key(keys, component_id.key()) && p == position_of(keys, component_id.key()) {
                    } else {
                        assert(self.columns.vals()[p] == vals[p]);
                    }
                }
            }
            assert(self.column_map().dom() =~= old(self).column_map().dom().insert(component_id.key()));
        }
    }

    /// This builder with a column for component `component_id`, for values
    /// of `size` bytes.
    pub fn with_column(self, component_id: ComponentId, size: usize) -> (r: TableBuilder)
        requires
            self.wf(),
            size > 0,
            component_id.key() < usize::MAX,
            self.column_count() < usize::MAX,
        ensures
            r.wf(),
            r.column_map().dom() == self.column_map().dom().insert(component_id.key()),
            forall|k: usize|
                k != component_id.key() && self.column_map().contains_key(k) ==> #[trigger] r.column_map()[k]
                    == self.column_map()[k],
            r.column_map()[component_id.key()].item_size() == size,
            r.column_map()[component_id.key()].bytes() == Seq::<u8>::empty(),
            r.column_map()[component_id.key()].statuses() == Seq::<ObjectStatus>::empty(),
    {
        let mut builder = self;
        builder.add_column(component_id, size);
        builder
    }

    /// A table with these columns and no entities.
    pub fn build(self) -> (r: Table)
        requires
            self.wf(),
        ensures
            r.wf(),
            r.entity_keys() == Seq::<u64>::empty(),
            r.column_map() == self.column_map(),
            r.column_seq().len() == self.column_count(),
    {
        proof {
            self.columns.lemma_wf();
        }
        let columns = ImmutableSparseSet::from_set(self.columns);
        proof {
            ImmutableSparseSet::lemma_from_wf(self.columns, columns);
            assert forall|p: int| 0 <= p < columns.vals().len() implies column_fits(
                #[trigger] columns.vals()[p],
                0,
            ) && columns.keys()[p].key() < usize::MAX by {
                assert(columns.vals()[p] == self.columns.vals()[p]);
            }
        }
        Table { entities: index_set_new(), columns }
    }
}

/// The entities of a well-formed table are distinct.
pub proof fn lemma_keys_distinct(table: Table)
    requires
        table.wf(),
    ensures
        table.entity_keys().no_duplicates(),
{
}

/// The entities of one archetype with their component values: one column
/// per component, holding the value of each entity at the entity's row.
pub struct Table {
    entities: IndexSet<u64>,
    columns: ImmutableSparseSet<Column, ComponentId>,
}

impl Table {
    /// The keys of the entities, by row.
    pub closed spec fn entity_keys(&self) -> Seq<u64> {
        set_items(self.entities)
    }

    /// The components of the columns, in storage order.
    pub closed spec fn column_ids(&self) -> Seq<ComponentId> {
        self.columns.keys()
    }

    /// The columns, in storage order.
    pub closed spec fn column_seq(&self) -> Seq<Column> {
        self.columns.vals()
    }

    /// The column held for each component key.
    pub closed spec fn column_map(&self) -> Map<usize, Column> {
        map_of(self.columns.keys(), self.columns.vals())
    }

    /// Entities are distinct; the columns agree with their components,
    /// which fit below `usize::MAX`; every column holds one value of its
    /// size per entity.
    pub closed spec fn wf(&self) -> bool {
        &&& self.entity_keys().no_duplicates()
        &&& self.columns.wf()
        &&& forall|p: int|
            0 <= p < self.columns.vals().len() ==> column_fits(
                #[trigger] self.columns.vals()[p],
                self.entity_keys().len(),
            ) && self.columns.keys()[p].key() < usize::MAX
    }

    /// In a well-formed table the components of the columns are distinct,
    /// and the column map holds the column of each of them.
    pub proof fn lemma_wf(&self)
        requires
            self.wf(),
        ensures
            crate::sparse::keys_distinct(self.column_ids()),
            self.column_ids().len() == self.column_seq().len(),
            forall|p: int|
                0 <= p < self.column_ids().len() ==> #[trigger] self.column_map()[self.column_ids()[p].key()]
                    == self.column_seq()[p] && self.column_map().contains_key(self.column_ids()[p].key()),
            forall|k: usize| #[trigger] self.column_map().contains_key(k) == has_key(self.column_ids(), k),
    {
        self.columns.lemma_wf();
        assert forall|p: int| 0 <= p < self.column_ids().len() implies #[trigger] self.column_map()[self.column_ids()[p].key()]
            == self.column_seq()[p] && self.column_map().contains_key(self.column_ids()[p].key()) by {
            crate::sparse::lemma_position_unique(self.column_ids(), p);
        }
    }

    /// The row of `entity`, if the table holds it.
    pub fn get_entity_row(&self, entity: Entity) -> (r: Option<RowIndex>)
        ensures
            r is None <==> !self.entity_keys().contains(entity_key(entity)),
            r matches Some(row) ==> exists|i: int|
                0 <= i < self.entity_keys().len() && self.entity_keys()[i] == entity_key(entity) && row.0
                    == i as u32,
    {
        let key = entity_key_of(entity);
        match index_set_get_index_of(&self.entities, key) {
            Some(index) => {
                proof {
                    assert(0 <= index < self.entity_keys().len() && self.entity_keys()[index as int] == key
                        && RowIndex(index as u32).0 == index as u32);
                }
                Some(RowIndex(index as u32))
            },
            None => None,
        }
    }

    pub fn contains(&self, entity: Entity) -> (r: bool)
        ensures
            r == self.entity_keys().contains(entity_key(entity)),
    {
        index_set_contains(&self.entities, entity_key_of(entity))
    }

    /// The entities, by row.
    pub fn entities(&self) -> (r: Vec<Entity>)
        ensures
            r@.len() == self.entity_keys().len(),
            forall|i: int| 0 <= i < r@.len() ==> entity_key(#[trigger] r@[i]) == self.entity_keys()[i],
    {
        let keys = index_set_to_vec(&self.entities);
        let mut r: Vec<Entity> = Vec::new();
        let mut i: usize = 0;
        while i < keys.len()
            invariant
                keys@ == self.entity_keys(),
                i <= keys@.len(),
                r@.len() == i,
                forall|j: int| 0 <= j < i ==> entity_key(#[trigger] r@[j]) == keys@[j],
            decreases keys@.len() - i,
        {
            r.push(entity_from_key(keys[i]));
            i = i + 1;
        }
        r
    }

    pub fn has_component(&self, id: ComponentId) -> (r: bool)
        requires
            self.wf(),
        ensures
            r == self.column_map().contains_key(id.key()),
    {
        proof {
            self.columns.lemma_wf();
        }
        self.columns.contains(id)
    }

    /// The components of the columns and the columns, in storage order.
    pub fn components(&self) -> (r: (&[ComponentId], &[Column]))
        ensures
            r.0@ == self.column_ids(),
            r.1@ == self.column_seq(),
    {
        (self.columns.indices(), self.columns.values())
    }

    pub fn get_column(&self, component: ComponentId) -> (r: Option<&Column>)
        requires
            self.wf(),
        ensures
            r is Some == self.column_map().contains_key(component.key()),
            r matches Some(c) ==> *c == self.column_map()[component.key()],
    {
        proof {
            self.columns.lemma_wf();
            assert(self.columns.slot(component.key()) == crate::sparse::slot_for(
                self.columns.keys(),
                component.key(),
            ));
            if has_key(self.columns.keys(), component.key()) {
                let w = position_of(self.columns.keys(), component.key());
                assert(self.column_map()[component.key()] == self.columns.vals()[w]);
            }
        }
        self.columns.get(component)
    }

    /// Adds `entity` in a new last row, taking the value of each column
    /// from the cell that `row` holds for its component; cells for other
    /// components are dropped. Gives the new row.
    pub fn add_entity(&mut self, entity: Entity, row: Row) -> (r: RowIndex)
        requires
            old(self).wf(),
            row.wf(),
            !old(self).entity_keys().contains(entity_key(entity)),
            forall|p: int|
                0 <= p < old(self).column_seq().len() ==> row.cell_map().contains_key(
                    (#[trigger] old(self).column_ids()[p]).key(),
                ) && row.cell_map()[old(self).column_ids()[p].key()].bytes().len()
                    == old(self).column_seq()[p].item_size(),
            forall|p: int|
                0 <= p < old(self).column_seq().len() ==> (old(self).entity_keys().len() + 1) * (
                #[trigger] old(self).column_seq()[p]).item_size() <= usize::MAX,
        ensures
            final(self).wf(),
            final(self).entity_keys() == old(self).entity_keys().push(entity_key(entity)),
            r.0 == old(self).entity_keys().len() as u32,
            final(self).column_ids() == old(self).column_ids(),
            final(self).column_seq().len() == old(self).column_seq().len(),
            forall|p: int|
                0 <= p < old(self).column_seq().len() ==> pushed_cell(
                    old(self).column_seq()[p],
                    #[trigger] final(self).column_seq()[p],
                    row.cell_map()[old(self).column_ids()[p].key()],
                ),
    {
        let key = entity_key_of(entity);
        let ghost n0 = self.entity_keys().len();
        let ghost ids0 = self.columns.keys();
        let ghost cols0 = self.columns.vals();
        let ghost map0 = row.cell_map();
        proof {
            self.columns.lemma_wf();
        }
        proof {
            assert forall|q: int| 0 <= q < cols0.len() implies column_fits(#[trigger] cols0[q], n0) && (n0
                + 1) * cols0[q].item_size() <= usize::MAX by {
                assert(old(self).column_seq()[q] == cols0[q]);
            }
            assert forall|q: int| 0 <= q < ids0.len() implies map0.contains_key((#[trigger] ids0[q]).key())
                && map0[ids0[q].key()].bytes().len() == cols0[q].item_size() && ids0[q].key() < usize::MAX by {
                assert(old(self).column_ids()[q] == ids0[q]);
                assert(old(self).column_seq()[q] == cols0[q]);
                assert(old(self).columns.vals()[q] == cols0[q]);
            }
        }
        let inserted = index_set_insert(&mut self.entities, key);
        let ghost keys1 = self.entity_keys();
        proof {
            assert(inserted);
            assert(keys1 == old(self).entity_keys().push(key));
        }
        let mut row = row;
        let n = self.columns.len();
        let mut p: usize = 0;
        while p < n
            invariant
                n == ids0.len(),
                ids0.len() == cols0.len(),
                crate::sparse::keys_distinct(ids0),
                self.entity_keys() == keys1,
                forall|q: int| 0 <= q < ids0.len() ==> (#[trigger] ids0[q]).key() < usize::MAX,
                self.columns.wf(),
                self.columns.keys() == ids0,
                self.columns.vals().len() == cols0.len(),
                forall|k: usize| #[trigger] self.columns.slot(k) == crate::sparse::slot_for(ids0, k),
                forall|q: int| 0 <= q < cols0.len() ==> column_fits(#[trigger] cols0[q], n0) && (n0 + 1)
                    * cols0[q].item_size() <= usize::MAX,
                p <= n,
                forall|q: int|
                    0 <= q < p ==> pushed_cell(cols0[q], #[trigger] self.columns.vals()[q], map0[ids0[q].key()]),
                forall|q: int| p <= q < n ==> #[trigger] self.columns.vals()[q] == cols0[q],
                row.wf(),
                forall|q: int|
                    p <= q < n ==> row.cell_map().contains_key((#[trigger] ids0[q]).key()) && row.cell_map()[ids0[q].key()]
                        == map0[ids0[q].key()] && map0[ids0[q].key()].bytes().len() == cols0[q].item_size(),
            decreases n - p,
        {
            let id = self.columns.indices()[p];
            let ghost map_before = row.cell_map();
            proof {
                crate::sparse::lemma_position_unique(ids0, p as int);
                row.lemma_wf();
                self.columns.lemma_wf();
            }
            let cell = row.remove(id);
            proof {
                assert forall|q: int| p < q < n implies row.cell_map().contains_key((#[trigger] ids0[q]).key())
                    && row.cell_map()[ids0[q].key()] == map0[ids0[q].key()] by {
                    assert(ids0[q].key() != ids0[p as int].key());
                }
            }
            match cell {
                Some(cell) => {
                    let ghost cols_before = self.columns.vals();
                    match self.columns.get_mut(id) {
                        Some(column) => {
                            proof {
                                lemma_grow(n0, cols0[p as int].item_size());
                            }
                            column.push_cell(cell);
                        },
                        None => {},
                    }
                    proof {
                        assert forall|q: int| 0 <= q < n && q != p implies #[trigger] self.columns.vals()[q]
                            == cols_before[q] by {}
                    }
                },
                None => {},
            }
            p = p + 1;
        }
        proof {
            assert forall|p: int| 0 <= p < self.columns.vals().len() implies column_fits(
                #[trigger] self.columns.vals()[p],
                self.entity_keys().len(),
            ) && self.columns.keys()[p].key() < usize::MAX by {
                lemma_grow(n0, cols0[p].item_size());
                assert(pushed_cell(cols0[p], self.columns.vals()[p], map0[ids0[p].key()]));
                assert(column_fits(cols0[p], n0));
            }
            assert(self.entity_keys().no_duplicates()) by {
                assert forall|i: int, j: int|
                    0 <= i < self.entity_keys().len() && 0 <= j < self.entity_keys().len() && i != j implies
                    self.entity_keys()[i] != self.entity_keys()[j] by {
                    if i < n0 && j < n0 {
                        assert(old(self).entity_keys()[i] == self.entity_keys()[i]);
                        assert(old(self).entity_keys()[j] == self.entity_keys()[j]);
                    } else if i == n0 {
                        assert(old(self).entity_keys()[j] == self.entity_keys()[j]);
                    } else {
                        assert(old(self).entity_keys()[i] == self.entity_keys()[i]);
                    }
                }
            }
        }
        proof {
            assert(self.entity_keys()[n0 as int] == key);
        }
        let found = index_set_get_index_of(&self.entities, key);
        let index = found.unwrap();
        proof {
            if index != n0 {
                assert(self.entity_keys()[index as int] == old(self).entity_keys()[index as int]);
                assert(old(self).entity_keys()[index as int] == key);
                assert(old(self).entity_keys().contains(key));
            }
        }
        RowIndex(index as u32)
    }

    /// Takes `entity` out, moving the entity of the last row into its row,
    /// and gives its values as a row of cells, one per column.
    pub fn remove_entity(&mut self, entity: Entity) -> (r: Option<Row>)
        requires
            old(self).wf(),
        ensures
            final(self).wf(),
            final(self).column_ids() == old(self).column_ids(),
            final(self).column_seq().len() == old(self).column_seq().len(),
            !old(self).entity_keys().contains(entity_key(entity)) ==> r is None && final(self).entity_keys()
                == old(self).entity_keys() && final(self).column_seq() == old(self).column_seq(),
            old(self).entity_keys().contains(entity_key(entity)) ==> {
                let i = key_position(old(self).entity_keys(), entity_key(entity));
                &&& final(self).entity_keys() == swap_removed(old(self).entity_keys(), i)
                &&& forall|p: int|
                    0 <= p < old(self).column_seq().len() ==> swapped_out(
                        old(self).column_seq()[p],
                        #[trigger] final(self).column_seq()[p],
                        i,
                    )
                &&& r matches Some(row) && row.wf() && (forall|k: usize|
                    #[trigger] row.cell_map().contains_key(k) == has_key(old(self).column_ids(), k))
                    && (forall|p: int|
                    0 <= p < old(self).column_seq().len() ==> {
                        let cell = row.cell_map()[(#[trigger] old(self).column_ids()[p]).key()];
                        &&& cell.bytes() == chunk(
                            old(self).column_seq()[p].bytes(),
                            old(self).column_seq()[p].item_size(),
                            i as nat,
                        )
                        &&& cell.status() == old(self).column_seq()[p].statuses()[i]
                    })
            },
    {
        let key = entity_key_of(entity);
        let index = match index_set_get_index_of(&self.entities, key) {
            Some(index) => index,
            None => {
                return None;
            },
        };
        let ghost n0 = self.entity_keys().len();
        let ghost ids0 = self.columns.keys();
        let ghost cols0 = self.columns.vals();
        proof {
            self.columns.lemma_wf();
            assert(index == key_position(old(self).entity_keys(), key)) by {
                let j = key_position(old(self).entity_keys(), key);
                assert(old(self).entity_keys()[j] == key);
            }
        }
        proof {
            assert forall|q: int| 0 <= q < ids0.len() implies (#[trigger] ids0[q]).key() < usize::MAX
                && column_fits(cols0[q], n0) by {
                assert(old(self).columns.vals()[q] == cols0[q]);
            }
        }
        index_set_swap_remove_index(&mut self.entities, index);
        let ghost keys1 = self.entity_keys();
        let mut row = Row::new();
        let n = self.columns.len();
        let mut p: usize = 0;
        while p < n
            invariant
                n == ids0.len(),
                ids0.len() == cols0.len(),
                crate::sparse::keys_distinct(ids0),
                forall|q: int| 0 <= q < ids0.len() ==> (#[trigger] ids0[q]).key() < usize::MAX,
                self.columns.wf(),
                self.columns.keys() == ids0,
                self.columns.vals().len() == cols0.len(),
                forall|k: usize| #[trigger] self.columns.slot(k) == crate::sparse::slot_for(ids0, k),
                forall|q: int| 0 <= q < cols0.len() ==> column_fits(#[trigger] cols0[q], n0),
                index < n0,
                self.entity_keys() == keys1,
                p <= n,
                forall|q: int| 0 <= q < p ==> swapped_out(cols0[q], #[trigger] self.columns.vals()[q], index as int),
                forall|q: int| p <= q < n ==> #[trigger] self.columns.vals()[q] == cols0[q],
                row.wf(),
                row.cell_seq().len() == p,
                forall|k: usize| #[trigger] row.cell_map().contains_key(k) == has_key(ids0.take(p as int), k),
                forall|q: int|
                    0 <= q < p ==> {
                        let cell = row.cell_map()[(#[trigger] ids0[q]).key()];
                        &&& cell.bytes() == chunk(cols0[q].bytes(), cols0[q].item_size(), index as nat)
                        &&& cell.status() == cols0[q].statuses()[index as int]
                    },
            decreases n - p,
        {
            let id = self.columns.indices()[p];
            proof {
                crate::sparse::lemma_position_unique(ids0, p as int);
                lemma_fits_index(index as nat, n0, cols0[p as int].item_size());
                row.lemma_wf();
                self.columns.lemma_wf();
            }
            let ghost cols_before = self.columns.vals();
            match self.columns.get_mut(id) {
                Some(column) => {
                    match column.swap_remove(index) {
                        Some(cell) => {
                            let ghost map_before = row.cell_map();
                            proof {
                                if has_key(ids0.take(p as int), id.key()) {
                                    let w = position_of(ids0.take(p as int), id.key());
                                    assert(ids0[w] == ids0.take(p as int)[w]);
                                }
                            }
                            row.insert_cell(id, cell);
                        },
                        None => {},
                    }
                },
                None => {},
            }
            proof {
                assert forall|q: int| 0 <= q < n && q != p implies #[trigger] self.columns.vals()[q]
                    == cols_before[q] by {}
                assert forall|k: usize| #[trigger] row.cell_map().contains_key(k) == has_key(
                    ids0.take(p + 1),
                    k,
                ) by {
                    if has_key(ids0.take(p as int), k) {
                        let w = position_of(ids0.take(p as int), k);
                        assert(ids0.take(p + 1)[w] == ids0.take(p as int)[w]);
                    }
                    if has_key(ids0.take(p + 1), k) && k != id.key() {
                        let w = position_of(ids0.take(p + 1), k);
                        assert(ids0.take(p as int)[w] == ids0.take(p + 1)[w]);
                    }
                    assert(ids0.take(p + 1)[p as int] == id);
                }
                assert forall|q: int| 0 <= q < p + 1 implies {
                    let cell = row.cell_map()[(#[trigger] ids0[q]).key()];
                    &&& cell.bytes() == chunk(cols0[q].bytes(), cols0[q].item_size(), index as nat)
                    &&& cell.status() == cols0[q].statuses()[index as int]
                } by {
                    if q < p {
                        assert(ids0[q].key() != ids0[p as int].key());
                    }
                }
            }
            p = p + 1;
        }
        proof {
            assert(ids0.take(n as int) =~= ids0);
            assert forall|p: int| 0 <= p < self.columns.vals().len() implies column_fits(
                #[trigger] self.columns.vals()[p],
                self.entity_keys().len(),
            ) && self.columns.keys()[p].key() < usize::MAX by {
                lemma_grow((n0 - 1) as nat, cols0[p].item_size());
                assert(swapped_out(cols0[p], self.columns.vals()[p], index as int));
                assert(column_fits(cols0[p], n0));
            }
            assert(self.entity_keys().no_duplicates()) by {
                let last = n0 - 1;
                assert forall|i: int, j: int|
                    0 <= i < self.entity_keys().len() && 0 <= j < self.entity_keys().len() && i != j implies
                    self.entity_keys()[i] != self.entity_keys()[j] by {
                    let oi = if i == index { last } else { i };
                    let oj = if j == index { last } else { j };
                    assert(self.entity_keys()[i] == old(self).entity_keys()[oi]);
                    assert(self.entity_keys()[j] == old(self).entity_keys()[oj]);
                }
            }
        }
        Some(row)
    }
}

} // verus!
