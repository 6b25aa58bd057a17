use fixedbitset::FixedBitSet;
use vstd::prelude::*;

verus! {

#[verifier::external_type_specification]
#[verifier::external_body]
pub struct ExFixedBitSet(FixedBitSet);

/// The bits that `FixedBitSet::contains` reports as enabled: only bits below
/// the length are read.
pub uninterp spec fn bits_of(set: FixedBitSet) -> Set<usize>;

/// The length of a `FixedBitSet` in bits, enabled or not.
pub uninterp spec fn bit_len(set: FixedBitSet) -> usize;

/// No bit is enabled in the set's storage at or past its length.
/// `FixedBitSet` does not keep this for every value (`with_capacity_and_blocks`
/// and `as_mut_slice` can leave such bits), but every set built here by
/// `new`, `with_capacity`, `grow`, `set`, `put`, `clone` and a collected union
/// keeps it; the queries that read whole blocks (`ones`, `is_clear`,
/// `is_superset`, `is_disjoint`, `intersection_count`, `intersection`,
/// `union`) agree with `bits_of` only on such sets.
pub uninterp spec fn tail_clear(set: FixedBitSet) -> bool;

/// Every enabled bit lies below the length.
pub open spec fn bits_in_range(set: FixedBitSet) -> bool {
    forall|i: usize| #[trigger] bits_of(set).contains(i) ==> i < bit_len(set)
}

/// A set whose storage holds no enabled bit at or past its length, so that
/// whole-set queries read exactly the bits below the length.
pub open spec fn well_kept(set: FixedBitSet) -> bool {
    tail_clear(set) && bits_in_range(set)
}

/// `FixedBitSet::new`: an empty set of length zero.
#[verifier::external_body]
pub(crate) fn bitset_new() -> (r: FixedBitSet)
    ensures
        bits_of(r) == Set::<usize>::empty(),
        bit_len(r) == 0,
        tail_clear(r),
        bits_in_range(r),
{
    FixedBitSet::new()
}

/// `FixedBitSet::with_capacity`: `bits` clear bits.
#[verifier::external_body]
pub(crate) fn bitset_with_capacity(bits: usize) -> (r: FixedBitSet)
    ensures
        bits_of(r) == Set::<usize>::empty(),
        bit_len(r) == bits,
        tail_clear(r),
        bits_in_range(r),
{
    FixedBitSet::with_capacity(bits)
}

/// `FixedBitSet::len`: the length in bits.
#[verifier::external_body]
pub(crate) fn bitset_len(set: &FixedBitSet) -> (r: usize)
    ensures
        r == bit_len(*set),
{
    set.len()
}

/// `FixedBitSet::contains`: whether `bit` is enabled; bits past the length
/// are never reported.
#[verifier::external_body]
pub(crate) fn bitset_contains(set: &FixedBitSet, bit: usize) -> (r: bool)
    ensures
        r == bits_of(*set).contains(bit),
        r ==> bit < bit_len(*set),
{
    set.contains(bit)
}

/// `FixedBitSet::grow`: the length becomes at least `bits`, with zeroed
/// storage added; the bits below the old length stay. On a well-kept set
/// nothing else becomes enabled.
#[verifier::external_body]
pub(crate) fn bitset_grow(set: &mut FixedBitSet, bits: usize)
    ensures
        bit_len(*final(set)) == (if bits > bit_len(*old(set)) {
            bits
        } else {
            bit_len(*old(set))
        }),
        forall|i: usize|
            i < bit_len(*old(set)) ==> (#[trigger] bits_of(*final(set)).contains(i)
                == bits_of(*old(set)).contains(i)),
        well_kept(*old(set)) ==> bits_of(*final(set)) == bits_of(*old(set)),
        well_kept(*old(set)) ==> tail_clear(*final(set)),
        bits_in_range(*final(set)),
{
    set.grow(bits)
}

/// `FixedBitSet::set`: enables or disables `bit`, which must lie below the
/// length (it panics otherwise).
#[verifier::external_body]
pub(crate) fn bitset_set(set: &mut FixedBitSet, bit: usize, enabled: bool)
    requires
        bit < bit_len(*old(set)),
    ensures
        bits_of(*final(set)) == (if enabled {
            bits_of(*old(set)).insert(bit)
        } else {
            bits_of(*old(set)).remove(bit)
        }),
        bit_len(*final(set)) == bit_len(*old(set)),
        tail_clear(*final(set)) == tail_clear(*old(set)),
        bits_in_range(*final(set)),
{
    set.set(bit, enabled)
}

/// `FixedBitSet::put`: enables `bit`, which must lie below the length, and
/// tells whether it was enabled before.
#[verifier::external_body]
pub(crate) fn bitset_put(set: &mut FixedBitSet, bit: usize) -> (r: bool)
    requires
        bit < bit_len(*old(set)),
    ensures
        r == bits_of(*old(set)).contains(bit),
        bits_of(*final(set)) == bits_of(*old(set)).insert(bit),
        bit_len(*final(set)) == bit_len(*old(set)),
        tail_clear(*final(set)) == tail_clear(*old(set)),
        bits_in_range(*final(set)),
{
    set.put(bit)
}

/// `FixedBitSet::ones` on a well-kept set: the enabled bits in ascending
/// order.
#[verifier::external_body]
pub(crate) fn bitset_ones(set: &FixedBitSet) -> (r: Vec<usize>)
    requires
        tail_clear(*set),
    ensures
        forall|i: int, j: int| 0 <= i < j < r@.len() ==> r@[i] < r@[j],
        forall|i: usize| #[trigger] bits_of(*set).contains(i) <==> r@.contains(i),
{
    set.ones().collect()
}

/// `FixedBitSet::is_clear` on a well-kept set: whether no bit is enabled.
#[verifier::external_body]
pub(crate) fn bitset_is_clear(set: &FixedBitSet) -> (r: bool)
    requires
        tail_clear(*set),
    ensures
        r == (bits_of(*set) == Set::<usize>::empty()),
{
    set.is_clear()
}

/// `FixedBitSet::is_superset` on well-kept sets: whether every bit enabled
/// in `other` is enabled in `set`.
#[verifier::external_body]
pub(crate) fn bitset_is_superset(set: &FixedBitSet, other: &FixedBitSet) -> (r: bool)
    requires
        tail_clear(*set),
        tail_clear(*other),
    ensures
        r == bits_of(*other).subset_of(bits_of(*set)),
{
    set.is_superset(other)
}

/// `FixedBitSet::is_disjoint` on well-kept sets: whether no bit is enabled
/// in both.
#[verifier::external_body]
pub(crate) fn bitset_is_disjoint(set: &FixedBitSet, other: &FixedBitSet) -> (r: bool)
    requires
        tail_clear(*set),
        tail_clear(*other),
    ensures
        r == bits_of(*set).disjoint(bits_of(*other)),
{
    set.is_disjoint(other)
}

/// `FixedBitSet::intersection_count` on well-kept sets: how many bits are
/// enabled in both.
#[verifier::external_body]
pub(crate) fn bitset_intersection_count(set: &FixedBitSet, other: &FixedBitSet) -> (r: usize)
    requires
        tail_clear(*set),
        tail_clear(*other),
    ensures
        r == bits_of(*set).intersect(bits_of(*other)).len(),
        (r == 0) == bits_of(*set).disjoint(bits_of(*other)),
{
    set.intersection_count(other)
}

/// The first item of `FixedBitSet::intersection` on well-kept sets: the
/// lowest bit enabled in both, if there is one.
#[verifier::external_body]
pub(crate) fn bitset_first_common(set: &FixedBitSet, other: &FixedBitSet) -> (r: Option<usize>)
    requires
        tail_clear(*set),
        tail_clear(*other),
    ensures
        r is None <==> bits_of(*set).disjoint(bits_of(*other)),
        r matches Some(i) ==> {
            &&& bits_of(*set).contains(i)
            &&& bits_of(*other).contains(i)
            &&& forall|j: usize|
                #![trigger bits_of(*set).contains(j)]
                bits_of(*set).contains(j) && bits_of(*other).contains(j) ==> i <= j
        },
{
    set.intersection(other).next()
}

/// `FixedBitSet::union` of well-kept sets collected into a new
/// `FixedBitSet`: the bits enabled in either, with the length reaching just
/// past the highest of them.
#[verifier::external_body]
pub(crate) fn bitset_union_collect(set: &FixedBitSet, other: &FixedBitSet) -> (r: FixedBitSet)
    requires
        tail_clear(*set),
        tail_clear(*other),
    ensures
        bits_of(r) == bits_of(*set).union(bits_of(*other)),
        tail_clear(r),
        bits_in_range(r),
        bits_of(r) == Set::<usize>::empty() ==> bit_len(r) == 0,
        bits_of(r) != Set::<usize>::empty() ==> bit_len(r) > 0 && bits_of(r).contains(
            (bit_len(r) - 1) as usize,
        ),
{
    set.union(other).collect::<FixedBitSet>()
}

/// `FixedBitSet::clone`: the same bits, length and storage.
#[verifier::external_body]
pub(crate) fn bitset_clone(set: &FixedBitSet) -> (r: FixedBitSet)
    ensures
        bits_of(r) == bits_of(*set),
        bit_len(r) == bit_len(*set),
        tail_clear(r) == tail_clear(*set),
        bits_in_range(r),
{
    set.clone()
}

/// Per-slot read and write flags, two bits per slot: bit `2 * i` records a
/// read of slot `i` and bit `2 * i + 1` a write.
pub struct AccessBitset {
    bits: FixedBitSet,
}

/// The read flag of `slot` among `bits`.
pub open spec fn read_flag(bits: Set<usize>, slot: int) -> bool {
    bits.contains((2 * slot) as usize)
}

/// The write flag of `slot` among `bits`.
pub open spec fn write_flag(bits: Set<usize>, slot: int) -> bool {
    bits.contains((2 * slot + 1) as usize)
}

/// Whether two slot flags clash: one side writes what the other reads or
/// writes.
pub open spec fn flags_clash(read: bool, write: bool, other_read: bool, other_write: bool) -> bool {
    ((read || write) && other_write) || (other_read && write)
}

impl AccessBitset {
    /// The bit set is well kept.
    #[verifier::type_invariant]
    spec fn kept(self) -> bool {
        well_kept(self.bits)
    }

    /// The enabled bits.
    pub closed spec fn bits(&self) -> Set<usize> {
        bits_of(self.bits)
    }

    /// The number of bits held, enabled or not.
    pub closed spec fn bit_count(&self) -> usize {
        bit_len(self.bits)
    }

    pub fn new() -> (r: AccessBitset)
        ensures
            r.bits() == Set::<usize>::empty(),
            r.bit_count() == 0,
    {
        AccessBitset { bits: bitset_new() }
    }

    pub fn with_capacity(capacity: usize) -> (r: AccessBitset)
        requires
            capacity * 2 <= usize::MAX,
        ensures
            r.bits() == Set::<usize>::empty(),
            r.bit_count() == capacity * 2,
    {
        AccessBitset { bits: bitset_with_capacity(capacity * 2) }
    }

    pub fn get(&self, index: usize) -> (r: (bool, bool))
        requires
            index * 2 + 1 <= usize::MAX,
        ensures
            r == (read_flag(self.bits(), index as int), write_flag(self.bits(), index as int)),
    {
        let index = index * 2;

        let read = bitset_contains(&self.bits, index);
        let write = bitset_contains(&self.bits, index + 1);
        (read, write)
    }

    pub fn set(&mut self, index: usize, value: bool)
        requires
            index * 2 < old(self).bit_count(),
        ensures
            final(self).bits() == (if value {
                old(self).bits().insert((index * 2) as usize)
            } else {
                old(self).bits().remove((index * 2) as usize)
            }),
            final(self).bit_count() == old(self).bit_count(),
    {
        proof {
            use_type_invariant(&*self);
        }
        let mut bits = bitset_new();
        std::mem::swap(&mut bits, &mut self.bits);
        bitset_set(&mut bits, index * 2, value);
        self.bits = bits;
    }

    /// Sets the read flag of slot `index` unless its write flag is set;
    /// tells whether it did.
    pub fn read(&mut self, index: usize) -> (r: bool)
        requires
            index * 2 + 1 <= usize::MAX,
            !write_flag(old(self).bits(), index as int) ==> index * 2 < old(self).bit_count(),
        ensures
            r == !write_flag(old(self).bits(), index as int),
            final(self).bits() == (if r {
                old(self).bits().insert((index * 2) as usize)
            } else {
                old(self).bits()
            }),
            final(self).bit_count() == old(self).bit_count(),
    {
        proof {
            use_type_invariant(&*self);
        }
        if bitset_contains(&self.bits, index * 2 + 1) {
            return false;
        } else {
            let mut bits = bitset_new();
            std::mem::swap(&mut bits, &mut self.bits);
            bitset_set(&mut bits, index * 2, true);
            self.bits = bits;
            return true;
        }
    }

    /// Sets the write flag of slot `index` unless its read or write flag is
    /// set; tells whether it did.
    pub fn write(&mut self, index: usize) -> (r: bool)
        requires
            index * 2 + 1 <= usize::MAX,
            !read_flag(old(self).bits(), index as int) && !write_flag(old(self).bits(), index as int)
                ==> index * 2 + 1 < old(self).bit_count(),
        ensures
            r == !(read_flag(old(self).bits(), index as int) || write_flag(
                old(self).bits(),
                index as int,
            )),
            final(self).bits() == (if r {
                old(self).bits().insert((index * 2 + 1) as usize)
            } else {
                old(self).bits()
            }),
            final(self).bit_count() == old(self).bit_count(),
    {
        proof {
            use_type_invariant(&*self);
        }
        let (read, write) = self.get(index);
        if read || write {
            return false;
        } else {
            let mut bits = bitset_new();
            std::mem::swap(&mut bits, &mut self.bits);
            bitset_set(&mut bits, index * 2 + 1, true);
            self.bits = bits;
            return true;
        }
    }

    pub fn reads(&self, index: usize) -> (r: bool)
        requires
            index * 2 <= usize::MAX,
        ensures
            r == read_flag(self.bits(), index as int),
    {
        bitset_contains(&self.bits, index * 2)
    }

    pub fn writes(&self, index: usize) -> (r: bool)
        requires
            index * 2 + 1 <= usize::MAX,
        ensures
            r == write_flag(self.bits(), index as int),
    {
        bitset_contains(&self.bits, index * 2 + 1)
    }

    /// Whether some slot below `self.len()` clashes with the same slot of
    /// `other`.
    pub fn conflicts(&self, other: &AccessBitset) -> (r: bool)
        ensures
            r == exists|i: int|
                0 <= i < self.bit_count() / 2 && #[trigger] flags_clash(
                    read_flag(self.bits(), i),
                    write_flag(self.bits(), i),
                    read_flag(other.bits(), i),
                    write_flag(other.bits(), i),
                ),
    {
        let len = self.len();
        let mut i: usize = 0;
        while i < len
            invariant
                len == self.bit_count() / 2,
                i <= len,
                forall|j: int|
                    0 <= j < i ==> !#[trigger] flags_clash(
                        read_flag(self.bits(), j),
                        write_flag(self.bits(), j),
                        read_flag(other.bits(), j),
                        write_flag(other.bits(), j),
                    ),
            decreases len - i,
        {
            let (read, write) = self.get(i);
            let (other_read, other_write) = other.get(i);

            if ((read || write) && other_write) || (other_read && write) {
                assert(flags_clash(
                    read_flag(self.bits(), i as int),
                    write_flag(self.bits(), i as int),
                    read_flag(other.bits(), i as int),
                    write_flag(other.bits(), i as int),
                ));
                return true;
            }
            i = i + 1;
        }

        false
    }

    pub fn grow(&mut self, size: usize)
        requires
            size * 2 <= usize::MAX,
        ensures
            final(self).bits() == old(self).bits(),
            final(self).bit_count() == (if size * 2 > old(self).bit_count() {
                (size * 2) as usize
            } else {
                old(self).bit_count()
            }),
    {
        proof {
            use_type_invariant(&*self);
        }
        let mut bits = bitset_new();
        std::mem::swap(&mut bits, &mut self.bits);
        bitset_grow(&mut bits, size * 2);
        self.bits = bits;
    }

    /// The read and write flags of every slot below `self.len()`.
    pub fn iter(&self) -> (r: Vec<(bool, bool)>)
        ensures
            r@.len() == self.bit_count() / 2,
            forall|i: int|
                0 <= i < r@.len() ==> #[trigger] r@[i] == (
                    read_flag(self.bits(), i),
                    write_flag(self.bits(), i),
                ),
    {
        let len = self.len();
        let mut r: Vec<(bool, bool)> = Vec::new();
        let mut i: usize = 0;
        while i < len
            invariant
                len == self.bit_count() / 2,
                i <= len,
                r@.len() == i,
                forall|j: int|
                    0 <= j < i ==> #[trigger] r@[j] == (
                        read_flag(self.bits(), j),
                        write_flag(self.bits(), j),
                    ),
            decreases len - i,
        {
            r.push(self.get(i));
            i = i + 1;
        }
        r
    }

    /// The number of slots.
    pub fn len(&self) -> (r: usize)
        ensures
            r == self.bit_count() / 2,
    {
        bitset_len(&self.bits) / 2
    }
}

} // verus!
