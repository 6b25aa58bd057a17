use vstd::prelude::*;

verus! {

/// A type that can address a slot of a sparse array.
///
/// `key` is the slot that a value addresses; `to_usize` computes it.
/// `from_usize` gives back a value addressing a given slot, for every slot
/// up to `max_key`.
pub trait SparseIndex: Copy + Clone + PartialEq + Eq + core::hash::Hash + Sized {
    spec fn key(self) -> usize;

    spec fn max_key() -> nat;

    fn to_usize(self) -> (r: usize)
        ensures
            r == self.key(),
    ;

    fn from_usize(index: usize) -> (r: Self)
        ensures
            index <= Self::max_key() ==> r.key() == index,
    ;
}

impl SparseIndex for u8 {
    open spec fn key(self) -> usize {
        self as usize
    }

    open spec fn max_key() -> nat {
        0xff
    }

    fn to_usize(self) -> (r: usize) {
        self as usize
    }

    fn from_usize(value: usize) -> (r: u8)
        ensures
            r == value as u8,
    {
        value as u8
    }
}

impl SparseIndex for u16 {
    open spec fn key(self) -> usize {
        self as usize
    }

    open spec fn max_key() -> nat {
        0xffff
    }

    fn to_usize(self) -> (r: usize) {
        self as usize
    }

    fn from_usize(value: usize) -> (r: u16)
        ensures
            r == value as u16,
    {
        value as u16
    }
}

impl SparseIndex for u32 {
    open spec fn key(self) -> usize {
        self as usize
    }

    open spec fn max_key() -> nat {
        if usize::MAX < u32::MAX { usize::MAX as nat } else { u32::MAX as nat }
    }

    fn to_usize(self) -> (r: usize) {
        self as usize
    }

    fn from_usize(value: usize) -> (r: u32)
        ensures
            r == value as u32,
    {
        value as u32
    }
}

impl SparseIndex for u64 {
    open spec fn key(self) -> usize {
        self as usize
    }

    open spec fn max_key() -> nat {
        usize::MAX as nat
    }

    fn to_usize(self) -> (r: usize) {
        self as usize
    }

    fn from_usize(value: usize) -> (r: u64)
        ensures
            r == value as u64,
    {
        value as u64
    }
}

impl SparseIndex for usize {
    open spec fn key(self) -> usize {
        self
    }

    open spec fn max_key() -> nat {
        usize::MAX as nat
    }

    fn to_usize(self) -> (r: usize) {
        self
    }

    fn from_usize(value: usize) -> (r: usize) {
        value
    }
}

/// The slot `k` of `slots`; slots past the end are empty.
pub open spec fn slot_at<V>(slots: Seq<Option<V>>, k: int) -> Option<V> {
    if 0 <= k < slots.len() {
        slots[k]
    } else {
        None
    }
}

/// `slots` extended with empty slots up to length `n`; unchanged when it is
/// at least that long already.
pub open spec fn padded<V>(slots: Seq<Option<V>>, n: int) -> Seq<Option<V>> {
    if n <= slots.len() {
        slots
    } else {
        slots + Seq::new((n - slots.len()) as nat, |i: int| None::<V>)
    }
}

/// An array of optional values addressed by a `SparseIndex`, which grows
/// on demand.
pub struct SparseArray<V, I = V> {
    values: Vec<Option<V>>,
    _marker: core::marker::PhantomData<I>,
}

impl<V, I> SparseArray<V, I> {
    /// The slots of the array, empty or holding a value.
    pub closed spec fn slots(&self) -> Seq<Option<V>> {
        self.values@
    }

    pub fn new() -> (r: Self)
        ensures
            r.slots() == Seq::<Option<V>>::empty(),
    {
        SparseArray { values: Vec::new(), _marker: core::marker::PhantomData }
    }

    pub fn push(&mut self, value: V)
        ensures
            final(self).slots() == old(self).slots().push(Some(value)),
    {
        self.values.push(Some(value));
    }

    pub fn len(&self) -> (r: usize)
        ensures
            r == self.slots().len(),
    {
        self.values.len()
    }

    pub fn is_empty(&self) -> (r: bool)
        ensures
            r <==> self.slots().len() == 0,
    {
        self.values.is_empty()
    }

    pub fn clear(&mut self)
        ensures
            final(self).slots() == Seq::<Option<V>>::empty(),
    {
        self.values.clear();
    }

    /// Appends empty slots until the array holds `n` of them.
    fn pad_to(&mut self, n: usize)
        ensures
            final(self).slots() == padded(old(self).slots(), n as int),
    {
        let ghost start = self.values@;
        while self.values.len() < n
            invariant
                start.len() <= self.values@.len(),
                self.values@.len() <= n || self.values@.len() == start.len(),
                self.values@ == padded(start, self.values@.len() as int),
            decreases n - self.values.len(),
        {
            self.values.push(None);
        }
        assert(self.values@ == padded(start, n as int));
    }
}

impl<V, I: SparseIndex> SparseArray<V, I> {
    pub fn insert(&mut self, index: I, value: V)
        requires
            index.key() < usize::MAX,
        ensures
            final(self).slots() == padded(old(self).slots(), index.key() + 1).update(
                index.key() as int,
                Some(value),
            ),
    {
        let index = index.to_usize();
        if index >= self.values.len() {
            self.pad_to(index + 1);
        }
        self.values.set(index, Some(value));
    }

    pub fn reserve(&mut self, index: I)
        requires
            index.key() < usize::MAX,
        ensures
            final(self).slots() == padded(old(self).slots(), index.key() + 1),
    {
        if index.to_usize() >= self.values.len() {
            self.pad_to(index.to_usize() + 1);
        }
    }

    pub fn get(&self, index: I) -> (r: Option<&V>)
        ensures
            r.is_some() == slot_at(self.slots(), index.key() as int).is_some(),
            r.is_some() ==> *r.unwrap() == slot_at(self.slots(), index.key() as int).unwrap(),
    {
        let index = index.to_usize();
        if index < self.values.len() {
            self.values[index].as_ref()
        } else {
            None
        }
    }

    /// The slot of `index`, open to change; the array first grows to hold
    /// it.
    pub fn index_mut(&mut self, index: I) -> (r: &mut Option<V>)
        requires
            index.key() < usize::MAX,
        ensures
            *r == padded(old(self).slots(), index.key() + 1)[index.key() as int],
            final(self).slots() == padded(old(self).slots(), index.key() + 1).update(
                index.key() as int,
                *final(r),
            ),
    {
        let k = index.to_usize();
        if k >= self.values.len() {
            self.pad_to(k + 1);
        }
        &mut self.values[k]
    }

    pub fn get_mut(&mut self, index: I) -> (r: Option<&mut V>)
        ensures
            r.is_some() == slot_at(old(self).slots(), index.key() as int).is_some(),
            r.is_none() ==> final(self).slots() == old(self).slots(),
            r.is_some() ==> {
                &&& *r.unwrap() == slot_at(old(self).slots(), index.key() as int).unwrap()
                &&& final(self).slots() == old(self).slots().update(
                    index.key() as int,
                    Some(*final(r.unwrap())),
                )
            },
    {
        let index = index.to_usize();
        if index < self.values.len() {
            self.values[index].as_mut()
        } else {
            None
        }
    }

    pub fn remove(&mut self, index: I) -> (r: Option<V>)
        ensures
            r == slot_at(old(self).slots(), index.key() as int),
            final(self).slots() == (if index.key() < old(self).slots().len() {
                old(self).slots().update(index.key() as int, None)
            } else {
                old(self).slots()
            }),
    {
        let index = index.to_usize();
        self.remove_at(index)
    }

    pub fn remove_at(&mut self, index: usize) -> (r: Option<V>)
        ensures
            r == slot_at(old(self).slots(), index as int),
            final(self).slots() == (if index < old(self).slots().len() {
                old(self).slots().update(index as int, None)
            } else {
                old(self).slots()
            }),
    {
        if index < self.values.len() {
            self.values[index].take()
        } else {
            None
        }
    }

    pub fn contains(&self, index: I) -> (r: bool)
        ensures
            r == slot_at(self.slots(), index.key() as int).is_some(),
    {
        let index = index.to_usize();
        if index < self.values.len() {
            self.values[index].is_some()
        } else {
            false
        }
    }
}

impl<V, I: SparseIndex> core::ops::Index<I> for SparseArray<V, I> {
    type Output = Option<V>;

    fn index(&self, index: I) -> (r: &Option<V>)
        ensures
            *r == slot_at(self.slots(), index.key() as int),
    {
        let index = index.to_usize();
        if index < self.values.len() {
            &self.values[index]
        } else {
            &None
        }
    }
}

impl<V, I> Default for SparseArray<V, I> {
    fn default() -> (r: Self)
        ensures
            r.slots() == Seq::<Option<V>>::empty(),
    {
        Self::new()
    }
}

/// A read-only sparse array, made from a `SparseArray`.
pub struct ImmutableSparseArray<V, I = V> {
    values: Vec<Option<V>>,
    _marker: core::marker::PhantomData<I>,
}

impl<V, I> ImmutableSparseArray<V, I> {
    /// The slots of the array, empty or holding a value.
    pub closed spec fn slots(&self) -> Seq<Option<V>> {
        self.values@
    }

    /// Freezes `array`, keeping its slots.
    pub fn from_array(array: SparseArray<V, I>) -> (r: Self)
        ensures
            r.slots() == array.slots(),
    {
        ImmutableSparseArray { values: array.values, _marker: core::marker::PhantomData }
    }

    pub fn len(&self) -> (r: usize)
        ensures
            r == self.slots().len(),
    {
        self.values.len()
    }

    pub fn is_empty(&self) -> (r: bool)
        ensures
            r <==> self.slots().len() == 0,
    {
        self.values.is_empty()
    }
}

impl<V, I: SparseIndex> ImmutableSparseArray<V, I> {
    pub fn get(&self, index: I) -> (r: Option<&V>)
        ensures
            r.is_some() == slot_at(self.slots(), index.key() as int).is_some(),
            r.is_some() ==> *r.unwrap() == slot_at(self.slots(), index.key() as int).unwrap(),
    {
        let index = index.to_usize();
        if index < self.values.len() {
            self.values[index].as_ref()
        } else {
            None
        }
    }

    pub fn contains(&self, index: I) -> (r: bool)
        ensures
            r == slot_at(self.slots(), index.key() as int).is_some(),
    {
        let index = index.to_usize();
        if index < self.values.len() {
            self.values[index].is_some()
        } else {
            false
        }
    }
}

/// A read of a sparse array after an insert gives back the inserted value
/// at its slot and what was there before at every other slot.
pub proof fn law_array_insert_get<V>(slots: Seq<Option<V>>, k: usize, value: V)
    ensures
        ({
            let after = padded(slots, k + 1).update(k as int, Some(value));
            &&& slot_at(after, k as int) == Some(value)
            &&& forall|j: int| j != k ==> #[trigger] slot_at(after, j) == slot_at(slots, j)
        }),
{
    let after = padded(slots, k + 1).update(k as int, Some(value));
    assert forall|j: int| j != k implies #[trigger] slot_at(after, j) == slot_at(slots, j) by {
        if 0 <= j < slots.len() {
            assert(padded(slots, k + 1)[j] == slots[j]);
        } else if 0 <= j < after.len() {
            assert(padded(slots, k + 1)[j] == None::<V>);
        }
    }
}

/// A change to a sparse array, as its methods make it.
pub enum ArrayOp<V> {
    Push(V),
    Insert(usize, V),
    Remove(usize),
    Clear,
}

/// The slots after `ops` are made one after the other, starting from
/// `slots`: what `push`, `insert`, `remove` (or `remove_at`) and `clear`
/// each leave, by their contracts.
pub open spec fn applied<V>(slots: Seq<Option<V>>, ops: Seq<ArrayOp<V>>) -> Seq<Option<V>>
    decreases ops.len(),
{
    if ops.len() == 0 {
        slots
    } else {
        let before = applied(slots, ops.drop_last());
        match ops.last() {
            ArrayOp::Push(v) => before.push(Some(v)),
            ArrayOp::Insert(k, v) => padded(before, k + 1).update(k as int, Some(v)),
            ArrayOp::Remove(k) => if k < before.len() {
                before.update(k as int, None)
            } else {
                before
            },
            ArrayOp::Clear => Seq::empty(),
        }
    }
}

/// Whether `op` leaves slot `k` alone whatever the slots hold: it is not an
/// insert into or a removal from `k`, nor a clear.
pub open spec fn leaves_slot<V>(op: ArrayOp<V>, k: usize) -> bool {
    match op {
        ArrayOp::Push(_) => true,
        ArrayOp::Insert(j, _) => j != k,
        ArrayOp::Remove(j) => j != k,
        ArrayOp::Clear => false,
    }
}

/// A value inserted at slot `k` is read back there after any later changes
/// that leave `k` alone.
pub proof fn law_array_read_after_insert<V>(
    slots: Seq<Option<V>>,
    before: Seq<ArrayOp<V>>,
    k: usize,
    value: V,
    after: Seq<ArrayOp<V>>,
)
    requires
        k < usize::MAX,
        forall|i: int| 0 <= i < after.len() ==> leaves_slot(#[trigger] after[i], k),
    ensures
        slot_at(applied(slots, before.push(ArrayOp::Insert(k, value)) + after), k as int) == Some(value),
        k < applied(slots, before.push(ArrayOp::Insert(k, value)) + after).len(),
    decreases after.len(),
{
    let ops = before.push(ArrayOp::Insert(k, value)) + after;
    if after.len() == 0 {
        assert(ops =~= before.push(ArrayOp::Insert(k, value)));
        assert(ops.drop_last() =~= before);
        law_array_insert_get(applied(slots, before), k, value);
        assert(padded(applied(slots, before), k + 1).len() >= k + 1);
    } else {
        let shorter = after.drop_last();
        assert forall|i: int| 0 <= i < shorter.len() implies leaves_slot(#[trigger] shorter[i], k) by {
            assert(shorter[i] == after[i]);
        }
        law_array_read_after_insert(slots, before, k, value, shorter);
        assert(ops.drop_last() =~= before.push(ArrayOp::Insert(k, value)) + shorter);
        assert(ops.last() == after[after.len() - 1]);
        let prev = applied(slots, ops.drop_last());
        match ops.last() {
            ArrayOp::Insert(j, v) => {
                law_array_insert_get(prev, j, v);
                assert(padded(prev, j + 1).len() >= prev.len());
            },
            ArrayOp::Remove(j) => {
                law_array_remove_get(prev, j);
            },
            _ => {},
        }
    }
}

/// A read of a sparse array after a removal finds nothing at the removed
/// slot and what was there before at every other slot.
pub proof fn law_array_remove_get<V>(slots: Seq<Option<V>>, k: usize)
    ensures
        ({
            let after = if k < slots.len() {
                slots.update(k as int, None)
            } else {
                slots
            };
            &&& slot_at(after, k as int) == None::<V>
            &&& forall|j: int| j != k ==> #[trigger] slot_at(after, j) == slot_at(slots, j)
        }),
{
}

/// Whether some entry of `keys` addresses slot `k`.
pub open spec fn has_key<I: SparseIndex>(keys: Seq<I>, k: usize) -> bool {
    exists|p: int| 0 <= p < keys.len() && #[trigger] keys[p].key() == k
}

/// The position of the entry of `keys` that addresses slot `k`.
pub open spec fn position_of<I: SparseIndex>(keys: Seq<I>, k: usize) -> int {
    choose|p: int| 0 <= p < keys.len() && #[trigger] keys[p].key() == k
}

/// No two entries of `keys` address the same slot.
pub open spec fn keys_distinct<I: SparseIndex>(keys: Seq<I>) -> bool {
    forall|p: int, q: int|
        0 <= p < keys.len() && 0 <= q < keys.len() && #[trigger] keys[p].key()
            == #[trigger] keys[q].key() ==> p == q
}

/// `s` with its entry at `p` replaced by its last entry, and the last entry
/// dropped.
pub open spec fn swap_removed<T>(s: Seq<T>, p: int) -> Seq<T> {
    s.update(p, s.last()).drop_last()
}

/// The slot that a set made of `keys` holds for `k`, when it is consistent.
pub open spec fn slot_for<I: SparseIndex>(keys: Seq<I>, k: usize) -> Option<usize> {
    if has_key(keys, k) {
        Some(position_of(keys, k) as usize)
    } else {
        None
    }
}

/// What a set holds, slot by slot, after `pairs` are inserted one after the
/// other into an empty set: the last value given for each slot.
pub open spec fn inserted_all<I: SparseIndex, V>(pairs: Seq<(I, V)>) -> Map<usize, V>
    decreases pairs.len(),
{
    if pairs.len() == 0 {
        Map::empty()
    } else {
        inserted_all(pairs.drop_last()).insert(pairs.last().0.key(), pairs.last().1)
    }
}

/// The indices and values, in storage order, of a set made by inserting
/// `pairs` one after the other into an empty set: each index where it was
/// first inserted, with the last value given for it.
pub open spec fn inserted_entries<I: SparseIndex, V>(pairs: Seq<(I, V)>) -> (Seq<I>, Seq<V>)
    decreases pairs.len(),
{
    if pairs.len() == 0 {
        (Seq::empty(), Seq::empty())
    } else {
        let (keys, vals) = inserted_entries(pairs.drop_last());
        let (index, value) = pairs.last();
        if has_key(keys, index.key()) {
            (keys, vals.update(position_of(keys, index.key()), value))
        } else {
            (keys.push(index), vals.push(value))
        }
    }
}

/// A dense set of values, each stored under an index; values are kept
/// packed in insertion order, with removals filled from the end.
pub struct SparseSet<V, I = V> {
    values: Vec<V>,
    indices: Vec<I>,
    sparse: SparseArray<usize, I>,
}

impl<V, I> SparseSet<V, I> {
    /// The indices of the entries, in storage order.
    pub closed spec fn keys(&self) -> Seq<I> {
        self.indices@
    }

    /// The values of the entries, in storage order.
    pub closed spec fn vals(&self) -> Seq<V> {
        self.values@
    }

    /// The storage position that the set records for slot `k`.
    pub closed spec fn slot(&self, k: usize) -> Option<usize> {
        slot_at(self.sparse.slots(), k as int)
    }

    /// The set holds no entry and records no position.
    pub closed spec fn blank(&self) -> bool {
        &&& self.indices@.len() == 0
        &&& self.values@.len() == 0
        &&& self.sparse.slots().len() == 0
    }

    pub fn new() -> (r: Self)
        ensures
            r.blank(),
            r.keys() == Seq::<I>::empty(),
            r.vals() == Seq::<V>::empty(),
    {
        SparseSet { values: Vec::new(), indices: Vec::new(), sparse: SparseArray::new() }
    }

    pub fn len(&self) -> (r: usize)
        ensures
            r == self.vals().len(),
    {
        self.values.len()
    }

    pub fn is_empty(&self) -> (r: bool)
        ensures
            r <==> self.vals().len() == 0,
    {
        self.values.is_empty()
    }

    pub fn values(&self) -> (r: &[V])
        ensures
            r@ == self.vals(),
    {
        self.values.as_slice()
    }

    pub fn indices(&self) -> (r: &[I])
        ensures
            r@ == self.keys(),
    {
        self.indices.as_slice()
    }

    /// The entries as pairs of index and value, in storage order.
    pub fn iter(&self) -> (r: Vec<(&I, &V)>)
        requires
            self.keys().len() == self.vals().len(),
        ensures
            r@.len() == self.keys().len(),
            forall|p: int|
                0 <= p < r@.len() ==> *(#[trigger] r@[p]).0 == self.keys()[p] && *r@[p].1
                    == self.vals()[p],
    {
        let mut r: Vec<(&I, &V)> = Vec::new();
        let mut p: usize = 0;
        while p < self.values.len()
            invariant
                self.indices@.len() == self.values@.len(),
                p <= self.values@.len(),
                r@.len() == p,
                forall|q: int|
                    0 <= q < p ==> *(#[trigger] r@[q]).0 == self.indices@[q] && *r@[q].1
                        == self.values@[q],
            decreases self.values@.len() - p,
        {
            r.push((&self.indices[p], &self.values[p]));
            p = p + 1;
        }
        r
    }

    /// The indices, and the values open to change, in storage order.
    pub fn iter_mut(&mut self) -> (r: (&[I], &mut [V]))
        ensures
            r.0@ == old(self).keys(),
            r.1@ == old(self).vals(),
            final(self).vals() == final(r.1)@,
            final(self).keys() == old(self).keys(),
            forall|k: usize| #[trigger] final(self).slot(k) == old(self).slot(k),
    {
        (self.indices.as_slice(), self.values.as_mut_slice())
    }

    pub fn clear(&mut self)
        ensures
            final(self).blank(),
            final(self).keys() == Seq::<I>::empty(),
            final(self).vals() == Seq::<V>::empty(),
    {
        self.values.clear();
        self.indices.clear();
        self.sparse.clear();
    }
}

impl<V, I> Default for SparseSet<V, I> {
    fn default() -> (r: Self)
        ensures
            r.blank(),
    {
        Self::new()
    }
}

impl<V, I: SparseIndex> SparseSet<V, I> {
    /// Indices and values pair up, and the slot of every entry's index
    /// records the entry's position. A slot may also record a position left
    /// over from a removal by position or a drain.
    pub closed spec fn consistent(&self) -> bool {
        &&& self.values@.len() == self.indices@.len()
        &&& self.indices@.len() <= usize::MAX
        &&& forall|p: int|
            0 <= p < self.indices@.len() ==> slot_at(
                self.sparse.slots(),
                #[trigger] self.indices@[p].key() as int,
            ) == Some(p as usize)
    }

    /// Consistent, and every recorded position holds an entry for that
    /// slot: no slot is left over.
    pub closed spec fn wf(&self) -> bool {
        &&& self.consistent()
        &&& forall|k: usize| #[trigger]
            slot_at(self.sparse.slots(), k as int) is Some ==> {
                let p = slot_at(self.sparse.slots(), k as int).unwrap();
                &&& p < self.indices@.len()
                &&& self.indices@[p as int].key() == k
            }
    }

    /// The position recorded for slot `k` once the entry at `p` is swapped
    /// out: the last entry, moved to `p`, is found there; every other slot
    /// keeps its record.
    pub open spec fn slot_after_swap(&self, p: int, k: usize) -> Option<usize> {
        if p + 1 < self.keys().len() && k == self.keys().last().key() {
            Some(p as usize)
        } else {
            self.slot(k)
        }
    }

    /// A blank set is well formed.
    pub proof fn lemma_blank_wf(&self)
        requires
            self.blank(),
        ensures
            self.wf(),
    {
    }

    /// In a consistent set keys are distinct, and the slot of an entry's
    /// index records that entry's position.
    pub proof fn lemma_consistent(&self)
        requires
            self.consistent(),
        ensures
            keys_distinct(self.keys()),
            self.keys().len() == self.vals().len(),
            forall|k: usize|
                has_key(self.keys(), k) ==> #[trigger] self.slot(k) == Some(
                    position_of(self.keys(), k) as usize,
                ),
    {
        assert forall|p: int, q: int|
            0 <= p < self.keys().len() && 0 <= q < self.keys().len() && #[trigger] self.keys()[p].key()
                == #[trigger] self.keys()[q].key() implies p == q by {
            assert(slot_at(self.sparse.slots(), self.indices@[p].key() as int) == Some(p as usize));
            assert(slot_at(self.sparse.slots(), self.indices@[q].key() as int) == Some(q as usize));
        }
        assert forall|k: usize| has_key(self.keys(), k) implies #[trigger] self.slot(k) == Some(
            position_of(self.keys(), k) as usize,
        ) by {
            let q = position_of(self.keys(), k);
            assert(slot_at(self.sparse.slots(), self.indices@[q].key() as int) == Some(q as usize));
        }
    }

    /// In a well-formed set the position recorded for a slot is that of the
    /// entry addressing it, and none is recorded for a slot no entry
    /// addresses.
    pub proof fn lemma_wf(&self)
        requires
            self.wf(),
        ensures
            self.consistent(),
            keys_distinct(self.keys()),
            self.keys().len() == self.vals().len(),
            forall|k: usize| #[trigger] self.slot(k) == slot_for(self.keys(), k),
    {
        self.lemma_consistent();
        assert forall|k: usize| #[trigger] self.slot(k) == slot_for(self.keys(), k) by {
            if self.slot(k) is Some {
                let p = self.slot(k).unwrap();
                assert(self.keys()[p as int].key() == k);
                assert(has_key(self.keys(), k));
            }
        }
    }

    pub fn get(&self, index: I) -> (r: Option<&V>)
        requires
            self.consistent(),
            self.slot(index.key()) matches Some(p) ==> p < self.vals().len(),
        ensures
            r.is_some() == self.slot(index.key()) is Some,
            r.is_some() ==> *r.unwrap() == self.vals()[self.slot(index.key()).unwrap() as int],
    {
        let index = self.sparse.get(index)?;
        Some(&self.values[*index])
    }

    pub fn get_mut(&mut self, index: I) -> (r: Option<&mut V>)
        requires
            old(self).consistent(),
            old(self).slot(index.key()) matches Some(p) ==> p < old(self).vals().len(),
        ensures
            r.is_some() == old(self).slot(index.key()) is Some,
            final(self).keys() == old(self).keys(),
            forall|k: usize| #[trigger] final(self).slot(k) == old(self).slot(k),
            r.is_none() ==> final(self).vals() == old(self).vals(),
            r.is_some() ==> {
                let p = old(self).slot(index.key()).unwrap() as int;
                &&& *r.unwrap() == old(self).vals()[p]
                &&& final(self).vals() == old(self).vals().update(p, *final(r.unwrap()))
            },
            final(self).consistent(),
            old(self).wf() ==> final(self).wf(),
    {
        let index = *self.sparse.get(index)?;
        Some(&mut self.values[index])
    }

    pub fn insert(&mut self, index: I, value: V) -> (r: Option<V>)
        requires
            old(self).consistent(),
            index.key() < usize::MAX,
            old(self).vals().len() < usize::MAX,
            old(self).slot(index.key()) matches Some(p) ==> p < old(self).vals().len(),
        ensures
            final(self).consistent(),
            old(self).wf() ==> final(self).wf(),
            old(self).slot(index.key()) matches Some(p) ==> {
                &&& r == Some(old(self).vals()[p as int])
                &&& final(self).keys() == old(self).keys()
                &&& final(self).vals() == old(self).vals().update(p as int, value)
                &&& forall|k: usize| #[trigger] final(self).slot(k) == old(self).slot(k)
            },
            old(self).slot(index.key()) is None ==> {
                &&& r is None
                &&& final(self).keys() == old(self).keys().push(index)
                &&& final(self).vals() == old(self).vals().push(value)
                &&& forall|k: usize| #[trigger]
                    final(self).slot(k) == (if k == index.key() {
                        Some(old(self).vals().len() as usize)
                    } else {
                        old(self).slot(k)
                    })
            },
    {
        proof {
            self.lemma_consistent();
        }
        if let Some(p) = self.sparse.get(index) {
            let p = *p;
            let mut value = value;
            std::mem::swap(&mut self.values[p], &mut value);
            Some(value)
        } else {
            let ghost old_keys = self.indices@;
            let len = self.values.len();
            self.sparse.insert(index, len);
            self.values.push(value);
            self.indices.push(index);
            proof {
                let k = index.key();
                assert forall|j: usize| #[trigger]
                    self.slot(j) == (if j == k {
                        Some(len)
                    } else {
                        old(self).slot(j)
                    }) by {}
                assert forall|p: int|
                    0 <= p < self.indices@.len() implies slot_at(
                    self.sparse.slots(),
                    #[trigger] self.indices@[p].key() as int,
                ) == Some(p as usize) by {
                    if p < old_keys.len() {
                        assert(has_key(old_keys, old_keys[p].key()));
                        assert(old_keys[p].key() != k);
                        assert(self.slot(old_keys[p].key()) == old(self).slot(old_keys[p].key()));
                    }
                }
                if old(self).wf() {
                    assert forall|j: usize| #[trigger]
                        slot_at(self.sparse.slots(), j as int) is Some implies {
                        let p = slot_at(self.sparse.slots(), j as int).unwrap();
                        &&& p < self.indices@.len()
                        &&& self.indices@[p as int].key() == j
                    } by {
                        if j != k {
                            assert(self.slot(j) == old(self).slot(j));
                        }
                    }
                }
            }
            None
        }
    }

    /// Moves the last entry into position `p`, returning what stood there;
    /// repoints the slot of the moved entry.
    fn swap_out(&mut self, p: usize) -> (r: (I, V))
        requires
            old(self).values@.len() == old(self).indices@.len(),
            p < old(self).indices@.len(),
            forall|q: int|
                0 <= q < old(self).indices@.len() && q != p ==> slot_at(
                    old(self).sparse.slots(),
                    #[trigger] old(self).indices@[q].key() as int,
                ) == Some(q as usize),
        ensures
            r == (old(self).indices@[p as int], old(self).values@[p as int]),
            final(self).indices@ == swap_removed(old(self).indices@, p as int),
            final(self).values@ == swap_removed(old(self).values@, p as int),
            final(self).consistent(),
            forall|k: usize| #[trigger] final(self).slot(k) == old(self).slot_after_swap(p as int, k),
    {
        let ghost old_keys = self.indices@;
        let ghost old_slots = self.sparse.slots();
        let value = self.values.swap_remove(p);
        let key = self.indices.swap_remove(p);
        if p != self.values.len() {
            let last = self.indices[p];
            proof {
                assert(last == old_keys.last());
                assert(slot_at(old_slots, last.key() as int) == Some((old_keys.len() - 1) as usize));
            }
            if let Some(i) = self.sparse.get_mut(last) {
                *i = p;
            }
            proof {
                let moved = last.key();
                assert forall|k: usize| #[trigger] self.slot(k) == old(self).slot_after_swap(p as int, k) by {}
                assert forall|q: int|
                    0 <= q < self.indices@.len() implies slot_at(
                    self.sparse.slots(),
                    #[trigger] self.indices@[q].key() as int,
                ) == Some(q as usize) by {
                    if q != p {
                        assert(self.indices@[q] == old_keys[q]);
                        assert(slot_at(old_slots, old_keys[q].key() as int) == Some(q as usize));
                        assert(old_keys[q].key() != moved);
                        assert(self.slot(old_keys[q].key()) == old(self).slot(old_keys[q].key()));
                    }
                }
            }
        } else {
            proof {
                assert forall|k: usize| #[trigger] self.slot(k) == old(self).slot_after_swap(p as int, k) by {}
                assert forall|q: int|
                    0 <= q < self.indices@.len() implies slot_at(
                    self.sparse.slots(),
                    #[trigger] self.indices@[q].key() as int,
                ) == Some(q as usize) by {
                    assert(self.indices@[q] == old_keys[q]);
                }
            }
        }
        (key, value)
    }

    pub fn remove(&mut self, index: I) -> (r: Option<V>)
        requires
            old(self).consistent(),
        ensures
            final(self).consistent(),
            old(self).wf() ==> final(self).wf(),
            old(self).slot(index.key()) is None ==> {
                &&& r is None
                &&& final(self).keys() == old(self).keys()
                &&& final(self).vals() == old(self).vals()
                &&& forall|k: usize| #[trigger] final(self).slot(k) == old(self).slot(k)
            },
            old(self).slot(index.key()) matches Some(p) ==> {
                &&& final(self).slot(index.key()) is None
                &&& p >= old(self).vals().len() ==> {
                    &&& r is None
                    &&& final(self).keys() == old(self).keys()
                    &&& final(self).vals() == old(self).vals()
                    &&& forall|k: usize|
                        k != index.key() ==> #[trigger] final(self).slot(k) == old(self).slot(k)
                }
                &&& p < old(self).vals().len() ==> {
                    &&& r == Some(old(self).vals()[p as int])
                    &&& final(self).keys() == swap_removed(old(self).keys(), p as int)
                    &&& final(self).vals() == swap_removed(old(self).vals(), p as int)
                    &&& forall|k: usize|
                        k != index.key() ==> #[trigger] final(self).slot(k) == old(self).slot_after_swap(
                            p as int,
                            k,
                        )
                }
            },
    {
        proof {
            self.lemma_consistent();
        }
        let ghost k = index.key();
        let removed = self.sparse.remove(index);
        if removed.is_none() {
            assert(self.sparse.slots() =~= old(self).sparse.slots());
            return None;
        }
        let p = removed.unwrap();
        proof {
            assert forall|j: usize| #[trigger]
                self.slot(j) == (if j == k {
                    None
                } else {
                    old(self).slot(j)
                }) by {}
        }
        if p >= self.values.len() {
            proof {
                assert forall|q: int|
                    0 <= q < self.indices@.len() implies slot_at(
                    self.sparse.slots(),
                    #[trigger] self.indices@[q].key() as int,
                ) == Some(q as usize) by {
                    assert(slot_at(old(self).sparse.slots(), self.indices@[q].key() as int) == Some(q as usize));
                    if self.indices@[q].key() == k {
                        assert(false);
                    }
                    assert(self.slot(self.indices@[q].key()) == old(self).slot(self.indices@[q].key()));
                }
                if old(self).wf() {
                    assert(false);
                }
            }
            return None;
        }
        proof {
            assert forall|q: int|
                0 <= q < self.indices@.len() && q != p implies slot_at(
                self.sparse.slots(),
                #[trigger] self.indices@[q].key() as int,
            ) == Some(q as usize) by {
                assert(slot_at(old(self).sparse.slots(), self.indices@[q].key() as int) == Some(q as usize));
                if self.indices@[q].key() == k {
                    assert(false);
                }
                assert(self.slot(self.indices@[q].key()) == old(self).slot(self.indices@[q].key()));
            }
        }
        let ghost mid = *self;
        let (_, value) = self.swap_out(p);
        proof {
            let len = old(self).keys().len();
            if p + 1 < len {
                let last = old(self).keys().last().key();
                assert(slot_at(old(self).sparse.slots(), old(self).indices@[len - 1].key() as int) == Some(
                    (len - 1) as usize,
                ));
                assert(last != k);
            }
            assert forall|j: usize| j != k implies #[trigger] self.slot(j) == old(self).slot_after_swap(
                p as int,
                j,
            ) by {
                assert(self.slot(j) == mid.slot_after_swap(p as int, j));
            }
            assert(self.slot(k) == mid.slot_after_swap(p as int, k));
            if old(self).wf() {
                assert(old(self).indices@[p as int].key() == k);
                assert forall|j: usize| #[trigger]
                    slot_at(self.sparse.slots(), j as int) is Some implies {
                    let q = slot_at(self.sparse.slots(), j as int).unwrap();
                    &&& q < self.indices@.len()
                    &&& self.indices@[q as int].key() == j
                } by {
                    assert(self.slot(j) == mid.slot_after_swap(p as int, j));
                    if !(p + 1 < old(self).keys().len() && j == old(self).keys().last().key()) {
                        let q = old(self).slot(j).unwrap();
                        assert(old(self).indices@[q as int].key() == j);
                        if q == p {
                            assert(false);
                        }
                        if q == old(self).keys().len() - 1 {
                            assert(false);
                        }
                    }
                }
            }
        }
        Some(value)
    }

    /// Removes the entry stored at position `index` by moving the last entry
    /// into its place. The slot of the removed entry keeps recording
    /// `index`.
    pub fn remove_at(&mut self, index: usize) -> (r: Option<(I, V)>)
        requires
            old(self).consistent(),
        ensures
            final(self).consistent(),
            index >= old(self).keys().len() ==> r is None && *final(self) == *old(self),
            index < old(self).keys().len() ==> {
                &&& r == Some((old(self).keys()[index as int], old(self).vals()[index as int]))
                &&& final(self).keys() == swap_removed(old(self).keys(), index as int)
                &&& final(self).vals() == swap_removed(old(self).vals(), index as int)
                &&& forall|k: usize| #[trigger] final(self).slot(k) == old(self).slot_after_swap(
                    index as int,
                    k,
                )
            },
    {
        if index >= self.values.len() {
            return None;
        }
        let r = self.swap_out(index);
        Some(r)
    }

    /// Whether a position is recorded for the slot of `index`; in a
    /// well-formed set, whether some entry has that index.
    pub fn contains(&self, index: I) -> (r: bool)
        ensures
            r == self.slot(index.key()) is Some,
            self.wf() ==> (r == has_key(self.keys(), index.key())),
    {
        proof {
            if self.wf() {
                self.lemma_wf();
                assert(self.slot(index.key()) == slot_for(self.keys(), index.key()));
            }
        }
        self.sparse.contains(index)
    }

    /// Takes every entry out, in storage order. The recorded positions are
    /// left as they were.
    pub fn drain(&mut self) -> (r: Vec<(I, V)>)
        requires
            old(self).consistent(),
        ensures
            r@.len() == old(self).keys().len(),
            forall|p: int|
                0 <= p < r@.len() ==> #[trigger] r@[p] == (old(self).keys()[p], old(self).vals()[p]),
            final(self).keys() == Seq::<I>::empty(),
            final(self).vals() == Seq::<V>::empty(),
            forall|k: usize| #[trigger] final(self).slot(k) == old(self).slot(k),
            final(self).consistent(),
    {
        let mut indices: Vec<I> = Vec::new();
        let mut values: Vec<V> = Vec::new();
        std::mem::swap(&mut indices, &mut self.indices);
        std::mem::swap(&mut values, &mut self.values);
        let ghost keys = indices@;
        let ghost vals = values@;
        let mut reversed: Vec<(I, V)> = Vec::new();
        while values.len() > 0
            invariant
                values@.len() == indices@.len(),
                keys.len() == vals.len(),
                indices@ == keys.take(indices@.len() as int),
                values@ == vals.take(values@.len() as int),
                reversed@.len() + values@.len() == keys.len(),
                forall|j: int|
                    0 <= j < reversed@.len() ==> #[trigger] reversed@[j] == (
                        keys[keys.len() - 1 - j],
                        vals[keys.len() - 1 - j],
                    ),
            decreases values@.len(),
        {
            let v = values.pop().unwrap();
            let i = indices.pop().unwrap();
            reversed.push((i, v));
        }
        let mut r: Vec<(I, V)> = Vec::new();
        while reversed.len() > 0
            invariant
                r@.len() + reversed@.len() == keys.len(),
                keys.len() == vals.len(),
                forall|j: int|
                    0 <= j < reversed@.len() ==> #[trigger] reversed@[j] == (
                        keys[keys.len() - 1 - j],
                        vals[keys.len() - 1 - j],
                    ),
                forall|j: int| 0 <= j < r@.len() ==> #[trigger] r@[j] == (keys[j], vals[j]),
            decreases reversed@.len(),
        {
            let e = reversed.pop().unwrap();
            r.push(e);
        }
        r
    }
}

impl<V, I: SparseIndex> SparseSet<V, I> {
    /// A set made by inserting `pairs` one after the other.
    pub fn from_pairs(pairs: Vec<(I, V)>) -> (r: Self)
        requires
            pairs@.len() < usize::MAX,
            forall|i: int| 0 <= i < pairs@.len() ==> (#[trigger] pairs@[i]).0.key() < usize::MAX,
        ensures
            r.wf(),
            map_of(r.keys(), r.vals()) == inserted_all(pairs@),
            r.keys() == inserted_entries(pairs@).0,
            r.vals() == inserted_entries(pairs@).1,
    {
        let ghost all = pairs@;
        let mut rest = pairs;
        let mut backwards: Vec<(I, V)> = Vec::new();
        while rest.len() > 0
            invariant
                rest@ == all.take(rest@.len() as int),
                backwards@.len() + rest@.len() == all.len(),
                forall|j: int| 0 <= j < backwards@.len() ==> #[trigger] backwards@[j] == all[all.len() - 1 - j],
            decreases rest@.len(),
        {
            let pair = rest.pop().unwrap();
            backwards.push(pair);
        }
        let mut set = SparseSet::new();
        proof {
            set.lemma_blank_wf();
            assert(map_of(set.keys(), set.vals()) =~= inserted_all(all.take(0)));
            assert(all.take(0).len() == 0);
        }
        while backwards.len() > 0
            invariant
                backwards@.len() <= all.len(),
                all.len() < usize::MAX,
                forall|i: int| 0 <= i < all.len() ==> (#[trigger] all[i]).0.key() < usize::MAX,
                forall|j: int| 0 <= j < backwards@.len() ==> #[trigger] backwards@[j] == all[all.len() - 1 - j],
                set.wf(),
                set.vals().len() <= all.len() - backwards@.len(),
                map_of(set.keys(), set.vals()) == inserted_all(all.take(all.len() - backwards@.len())),
                set.keys() == inserted_entries(all.take(all.len() - backwards@.len())).0,
                set.vals() == inserted_entries(all.take(all.len() - backwards@.len())).1,
            decreases backwards@.len(),
        {
            let ghost done = all.len() - backwards@.len();
            let (index, value) = backwards.pop().unwrap();
            assert(all[done] == (index, value));
            proof {
                set.lemma_wf();
                law_insert(set.keys(), set.vals(), index, value);
                assert(all.take(done + 1).drop_last() =~= all.take(done));
                assert(all.take(done + 1).last() == (index, value));
            }
            set.insert(index, value);
        }
        proof {
            assert(all.take(all.len() as int) =~= all);
        }
        set
    }
}

/// A read-only sparse set, made from a `SparseSet`.
pub struct ImmutableSparseSet<V, I = V> {
    values: Vec<V>,
    indices: Vec<I>,
    sparse: ImmutableSparseArray<usize, I>,
}

impl<V, I> ImmutableSparseSet<V, I> {
    /// The indices of the entries, in storage order.
    pub closed spec fn keys(&self) -> Seq<I> {
        self.indices@
    }

    /// The values of the entries, in storage order.
    pub closed spec fn vals(&self) -> Seq<V> {
        self.values@
    }

    /// The storage position that the set records for slot `k`.
    pub closed spec fn slot(&self, k: usize) -> Option<usize> {
        slot_at(self.sparse.slots(), k as int)
    }

    /// Freezes `set`, keeping its entries and recorded positions.
    pub fn from_set(set: SparseSet<V, I>) -> (r: Self)
        ensures
            r.keys() == set.keys(),
            r.vals() == set.vals(),
            forall|k: usize| #[trigger] r.slot(k) == set.slot(k),
    {
        ImmutableSparseSet {
            values: set.values,
            indices: set.indices,
            sparse: ImmutableSparseArray::from_array(set.sparse),
        }
    }

    pub fn len(&self) -> (r: usize)
        ensures
            r == self.vals().len(),
    {
        self.values.len()
    }

    pub fn is_empty(&self) -> (r: bool)
        ensures
            r <==> self.vals().len() == 0,
    {
        self.values.is_empty()
    }

    pub fn values(&self) -> (r: &[V])
        ensures
            r@ == self.vals(),
    {
        self.values.as_slice()
    }

    pub fn values_mut(&mut self) -> (r: &mut [V])
        ensures
            r@ == old(self).vals(),
            final(self).vals() == final(r)@,
            final(self).keys() == old(self).keys(),
            forall|k: usize| #[trigger] final(self).slot(k) == old(self).slot(k),
    {
        self.values.as_mut_slice()
    }

    /// The indices, and the values open to change, in storage order.
    pub fn iter_mut(&mut self) -> (r: (&[I], &mut [V]))
        ensures
            r.0@ == old(self).keys(),
            r.1@ == old(self).vals(),
            final(self).vals() == final(r.1)@,
            final(self).keys() == old(self).keys(),
            forall|k: usize| #[trigger] final(self).slot(k) == old(self).slot(k),
    {
        (self.indices.as_slice(), self.values.as_mut_slice())
    }

    pub fn indices(&self) -> (r: &[I])
        ensures
            r@ == self.keys(),
    {
        self.indices.as_slice()
    }

    /// The entries as pairs of index and value, in storage order.
    pub fn iter(&self) -> (r: Vec<(&I, &V)>)
        requires
            self.keys().len() == self.vals().len(),
        ensures
            r@.len() == self.keys().len(),
            forall|p: int|
                0 <= p < r@.len() ==> *(#[trigger] r@[p]).0 == self.keys()[p] && *r@[p].1
                    == self.vals()[p],
    {
        let mut r: Vec<(&I, &V)> = Vec::new();
        let mut p: usize = 0;
        while p < self.values.len()
            invariant
                self.indices@.len() == self.values@.len(),
                p <= self.values@.len(),
                r@.len() == p,
                forall|q: int|
                    0 <= q < p ==> *(#[trigger] r@[q]).0 == self.indices@[q] && *r@[q].1
                        == self.values@[q],
            decreases self.values@.len() - p,
        {
            r.push((&self.indices[p], &self.values[p]));
            p = p + 1;
        }
        r
    }
}

impl<V, I: SparseIndex> ImmutableSparseSet<V, I> {
    /// Indices and values pair up, and the slot of every entry's index
    /// records the entry's position, as in a consistent `SparseSet`.
    pub closed spec fn consistent(&self) -> bool {
        &&& self.values@.len() == self.indices@.len()
        &&& self.indices@.len() <= usize::MAX
        &&& forall|p: int|
            0 <= p < self.indices@.len() ==> slot_at(
                self.sparse.slots(),
                #[trigger] self.indices@[p].key() as int,
            ) == Some(p as usize)
    }

    /// Consistent, and every recorded position holds an entry for that
    /// slot, as in a well-formed `SparseSet`.
    pub closed spec fn wf(&self) -> bool {
        &&& self.consistent()
        &&& forall|k: usize| #[trigger]
            slot_at(self.sparse.slots(), k as int) is Some ==> {
                let p = slot_at(self.sparse.slots(), k as int).unwrap();
                &&& p < self.indices@.len()
                &&& self.indices@[p as int].key() == k
            }
    }

    /// Freezing a consistent set gives a consistent set, and freezing a
    /// well-formed set a well-formed one.
    pub proof fn lemma_from_wf(set: SparseSet<V, I>, frozen: Self)
        requires
            set.consistent(),
            frozen.keys() == set.keys(),
            frozen.vals() == set.vals(),
            forall|k: usize| #[trigger] frozen.slot(k) == set.slot(k),
        ensures
            frozen.consistent(),
            set.wf() ==> frozen.wf(),
    {
        set.lemma_consistent();
        assert forall|p: int|
            0 <= p < frozen.indices@.len() implies slot_at(
            frozen.sparse.slots(),
            #[trigger] frozen.indices@[p].key() as int,
        ) == Some(p as usize) by {
            let k = frozen.indices@[p].key();
            lemma_position_unique(set.keys(), p);
            assert(frozen.slot(k) == set.slot(k));
        }
        if set.wf() {
            set.lemma_wf();
            assert forall|k: usize| #[trigger] slot_at(frozen.sparse.slots(), k as int) is Some implies {
                let p = slot_at(frozen.sparse.slots(), k as int).unwrap();
                &&& p < frozen.indices@.len()
                &&& frozen.indices@[p as int].key() == k
            } by {
                assert(frozen.slot(k) == set.slot(k));
                assert(set.slot(k) == slot_for(set.keys(), k));
            }
        }
    }

    /// In a well-formed frozen set the position recorded for a slot is that
    /// of the entry addressing it, and none is recorded for a slot no entry
    /// addresses.
    pub proof fn lemma_wf(&self)
        requires
            self.wf(),
        ensures
            self.consistent(),
            self.keys().len() == self.vals().len(),
            self.keys().len() <= usize::MAX,
            keys_distinct(self.keys()),
            forall|k: usize| #[trigger] self.slot(k) == slot_for(self.keys(), k),
    {
        assert forall|p: int, q: int|
            0 <= p < self.keys().len() && 0 <= q < self.keys().len() && #[trigger] self.keys()[p].key()
                == #[trigger] self.keys()[q].key() implies p == q by {
            assert(slot_at(self.sparse.slots(), self.indices@[p].key() as int) == Some(p as usize));
            assert(slot_at(self.sparse.slots(), self.indices@[q].key() as int) == Some(q as usize));
        }
        assert forall|k: usize| #[trigger] self.slot(k) == slot_for(self.keys(), k) by {
            if self.slot(k) is Some {
                let p = self.slot(k).unwrap();
                assert(self.keys()[p as int].key() == k);
                assert(has_key(self.keys(), k));
                let q = position_of(self.keys(), k);
                assert(slot_at(self.sparse.slots(), self.indices@[q].key() as int) == Some(q as usize));
            } else if has_key(self.keys(), k) {
                let q = position_of(self.keys(), k);
                assert(slot_at(self.sparse.slots(), self.indices@[q].key() as int) == Some(q as usize));
            }
        }
    }

    pub fn get(&self, index: I) -> (r: Option<&V>)
        requires
            self.consistent(),
            self.slot(index.key()) matches Some(p) ==> p < self.vals().len(),
        ensures
            r.is_some() == self.slot(index.key()) is Some,
            r.is_some() ==> *r.unwrap() == self.vals()[self.slot(index.key()).unwrap() as int],
    {
        let index = self.sparse.get(index)?;
        Some(&self.values[*index])
    }

    pub fn get_mut(&mut self, index: I) -> (r: Option<&mut V>)
        requires
            old(self).consistent(),
            old(self).slot(index.key()) matches Some(p) ==> p < old(self).vals().len(),
        ensures
            r.is_some() == old(self).slot(index.key()) is Some,
            final(self).keys() == old(self).keys(),
            forall|k: usize| #[trigger] final(self).slot(k) == old(self).slot(k),
            r.is_none() ==> final(self).vals() == old(self).vals(),
            r.is_some() ==> {
                let p = old(self).slot(index.key()).unwrap() as int;
                &&& *r.unwrap() == old(self).vals()[p]
                &&& final(self).vals() == old(self).vals().update(p, *final(r.unwrap()))
            },
            final(self).consistent(),
            old(self).wf() ==> final(self).wf(),
    {
        let index = *self.sparse.get(index)?;
        Some(&mut self.values[index])
    }

    /// Whether a position is recorded for the slot of `index`; in a
    /// well-formed set, whether some entry has that index.
    pub fn contains(&self, index: I) -> (r: bool)
        ensures
            r == self.slot(index.key()) is Some,
            self.wf() ==> (r == has_key(self.keys(), index.key())),
    {
        proof {
            if self.wf() {
                self.lemma_wf();
            }
        }
        self.sparse.contains(index)
    }
}

/// The map from slot to value that a set made of `keys` and `vals` holds.
pub open spec fn map_of<I: SparseIndex, V>(keys: Seq<I>, vals: Seq<V>) -> Map<usize, V> {
    Map::new(|k: usize| has_key(keys, k), |k: usize| vals[position_of(keys, k)])
}

/// With distinct keys, the entry found for a slot is the one at the only
/// position addressing it.
pub proof fn lemma_position_unique<I: SparseIndex>(keys: Seq<I>, p: int)
    requires
        keys_distinct(keys),
        0 <= p < keys.len(),
    ensures
        has_key(keys, keys[p].key()),
        position_of(keys, keys[p].key()) == p,
{
    let q = position_of(keys, keys[p].key());
}

/// Inserting into a set stores the value under its slot and leaves every
/// other slot as it was; the keys stay distinct.
pub proof fn law_insert<I: SparseIndex, V>(keys: Seq<I>, vals: Seq<V>, index: I, value: V)
    requires
        keys_distinct(keys),
        keys.len() == vals.len(),
    ensures
        has_key(keys, index.key()) ==> {
            &&& map_of(keys, vals.update(position_of(keys, index.key()), value)) == map_of(
                keys,
                vals,
            ).insert(index.key(), value)
            &&& keys_distinct(keys)
        },
        !has_key(keys, index.key()) ==> {
            &&& map_of(keys.push(index), vals.push(value)) == map_of(keys, vals).insert(
                index.key(),
                value,
            )
            &&& keys_distinct(keys.push(index))
        },
{
    let k = index.key();
    if has_key(keys, k) {
        let p = position_of(keys, k);
        let nv = vals.update(p, value);
        assert forall|j: usize| #[trigger] has_key(keys, j) && j != k implies nv[position_of(
            keys,
            j,
        )] == vals[position_of(keys, j)] by {
            let q = position_of(keys, j);
        }
        assert(map_of(keys, nv) =~= map_of(keys, vals).insert(k, value));
    } else {
        let nk = keys.push(index);
        let nv = vals.push(value);
        assert(nk[keys.len() as int] == index);
        assert(has_key(nk, k));
        assert forall|p: int, q: int|
            0 <= p < nk.len() && 0 <= q < nk.len() && #[trigger] nk[p].key() == #[trigger] nk[q].key()
                implies p == q by {
            if p < keys.len() && q < keys.len() {
                assert(keys[p].key() == keys[q].key());
            } else if p < keys.len() {
                assert(keys[p].key() == k);
            } else if q < keys.len() {
                assert(keys[q].key() == k);
            }
        }
        lemma_position_unique(nk, keys.len() as int);
        assert forall|j: usize| #[trigger] has_key(nk, j) == (has_key(keys, j) || j == k) by {
            if has_key(keys, j) {
                let q = position_of(keys, j);
                assert(nk[q] == keys[q]);
            }
            if has_key(nk, j) && j != k {
                let q = position_of(nk, j);
                assert(q < keys.len());
                assert(keys[q].key() == j);
            }
        }
        assert forall|j: usize| #[trigger] has_key(keys, j) implies nv[position_of(nk, j)]
            == vals[position_of(keys, j)] by {
            let q = position_of(keys, j);
            assert(nk[q] == keys[q]);
            lemma_position_unique(nk, q);
        }
        assert(map_of(nk, nv) =~= map_of(keys, vals).insert(k, value));
    }
}

/// Removing the entry of a slot from a set drops that slot and leaves every
/// other slot as it was; the keys stay distinct.
pub proof fn law_remove<I: SparseIndex, V>(keys: Seq<I>, vals: Seq<V>, index: I)
    requires
        keys_distinct(keys),
        keys.len() == vals.len(),
        has_key(keys, index.key()),
    ensures
        ({
            let p = position_of(keys, index.key());
            &&& map_of(swap_removed(keys, p), swap_removed(vals, p)) == map_of(keys, vals).remove(
                index.key(),
            )
            &&& keys_distinct(swap_removed(keys, p))
        }),
{
    let k = index.key();
    let p = position_of(keys, k);
    let last = keys.len() - 1;
    let nk = swap_removed(keys, p);
    let nv = swap_removed(vals, p);
    assert(keys[p].key() == k);
    assert forall|a: int, b: int|
        0 <= a < nk.len() && 0 <= b < nk.len() && #[trigger] nk[a].key() == #[trigger] nk[b].key()
            implies a == b by {
        let oa = if a == p { last } else { a };
        let ob = if b == p { last } else { b };
        assert(nk[a] == keys[oa]);
        assert(nk[b] == keys[ob]);
    }
    assert forall|j: usize| #[trigger] has_key(nk, j) == (has_key(keys, j) && j != k) by {
        if has_key(keys, j) && j != k {
            let q = position_of(keys, j);
            if q == last {
                assert(nk[p] == keys[q]);
            } else {
                assert(q != p);
                assert(nk[q] == keys[q]);
            }
        }
        if has_key(nk, j) {
            let q = position_of(nk, j);
            let oq = if q == p { last } else { q };
            assert(nk[q] == keys[oq]);
            assert(oq != p);
        }
    }
    assert forall|j: usize| #[trigger] has_key(nk, j) implies nv[position_of(nk, j)]
        == vals[position_of(keys, j)] by {
        let q = position_of(nk, j);
        let oq = if q == p { last } else { q };
        assert(nk[q] == keys[oq]);
        lemma_position_unique(keys, oq);
    }
    assert(map_of(nk, nv) =~= map_of(keys, vals).remove(k));
}

} // verus!
