use super::component::ComponentId;
use super::resource::ResourceId;
use crate::bitset::{
    bit_len, bits_of, well_kept, bitset_contains, bitset_first_common, bitset_grow,
    bitset_intersection_count, bitset_is_disjoint, bitset_new, bitset_put, bitset_set,
    bitset_union_collect, bitset_with_capacity,
};
use crate::sparse::SparseIndex;
use fixedbitset::FixedBitSet;
use vstd::prelude::*;

verus! {

/// A conflict found between accesses, naming what both touch.
#[derive(Debug, Clone, Copy, PartialEq, Eq, Structural)]
pub enum AccessError {
    Component(ComponentId),
    Resource(ResourceId),
}

impl From<ComponentId> for AccessError {
    fn from(value: ComponentId) -> (r: AccessError) {
        AccessError::Component(value)
    }
}

impl vstd::std_specs::convert::FromSpecImpl<ComponentId> for AccessError {
    open spec fn obeys_from_spec() -> bool {
        true
    }

    open spec fn from_spec(v: ComponentId) -> AccessError {
        AccessError::Component(v)
    }
}

impl From<ResourceId> for AccessError {
    fn from(value: ResourceId) -> (r: AccessError) {
        AccessError::Resource(value)
    }
}

impl vstd::std_specs::convert::FromSpecImpl<ResourceId> for AccessError {
    open spec fn obeys_from_spec() -> bool {
        true
    }

    open spec fn from_spec(v: ResourceId) -> AccessError {
        AccessError::Resource(v)
    }
}

/// `x` is the lowest bit that `a` and `b` share.
pub open spec fn lowest_common(a: Set<usize>, b: Set<usize>, x: usize) -> bool {
    &&& a.contains(x)
    &&& b.contains(x)
    &&& forall|y: usize| #![trigger a.contains(y)] a.contains(y) && b.contains(y) ==> x <= y
}

/// What `Access::conflicts` reports for the read and write sets of two
/// accesses: `None` when neither writes what the other touches, otherwise
/// the lowest clash, looking first at reads against the other's writes,
/// then at writes against writes, then at writes against the other's reads.
pub open spec fn conflict_report(
    read: Set<usize>,
    write: Set<usize>,
    other_read: Set<usize>,
    other_write: Set<usize>,
    r: Result<(), usize>,
) -> bool {
    if !read.disjoint(other_write) {
        r matches Err(x) && lowest_common(read, other_write, x)
    } else if !write.disjoint(other_write) {
        r matches Err(x) && lowest_common(write, other_write, x)
    } else if !write.disjoint(other_read) {
        r matches Err(x) && lowest_common(write, other_read, x)
    } else {
        r is Ok
    }
}

/// Two accesses can run together: neither writes what the other touches.
pub open spec fn compatible(
    read: Set<usize>,
    write: Set<usize>,
    other_read: Set<usize>,
    other_write: Set<usize>,
) -> bool {
    read.disjoint(other_write) && write.disjoint(other_write) && write.disjoint(other_read)
}

/// The reads and writes of something that runs, by index.
pub struct Access<I: SparseIndex> {
    read: FixedBitSet,
    write: FixedBitSet,
    _marker: core::marker::PhantomData<I>,
}

impl<I: SparseIndex> Clone for Access<I> {
    fn clone(&self) -> (r: Self)
        ensures
            r.reads_set() == self.reads_set(),
            r.writes_set() == self.writes_set(),
    {
        Access {
            read: crate::bitset::bitset_clone(&self.read),
            write: crate::bitset::bitset_clone(&self.write),
            _marker: core::marker::PhantomData,
        }
    }
}

impl<I: SparseIndex> Access<I> {
    /// The indices read.
    pub closed spec fn reads_set(&self) -> Set<usize> {
        bits_of(self.read)
    }

    /// The indices written.
    pub closed spec fn writes_set(&self) -> Set<usize> {
        bits_of(self.write)
    }

    pub closed spec fn read_bits(&self) -> FixedBitSet {
        self.read
    }

    pub closed spec fn write_bits(&self) -> FixedBitSet {
        self.write
    }

    /// Both bit sets are well kept.
    pub closed spec fn wf(&self) -> bool {
        well_kept(self.read) && well_kept(self.write)
    }

    pub fn new() -> (r: Self)
        ensures
            r.wf(),
            r.reads_set() == Set::<usize>::empty(),
            r.writes_set() == Set::<usize>::empty(),
    {
        Access { read: bitset_new(), write: bitset_new(), _marker: core::marker::PhantomData }
    }

    pub fn with_capacity(capacity: usize) -> (r: Self)
        ensures
            r.wf(),
            r.reads_set() == Set::<usize>::empty(),
            r.writes_set() == Set::<usize>::empty(),
            bit_len(r.read_bits()) == capacity,
            bit_len(r.write_bits()) == capacity,
    {
        Access {
            read: bitset_with_capacity(capacity),
            write: bitset_with_capacity(capacity),
            _marker: core::marker::PhantomData,
        }
    }

    pub fn get_read(&self) -> (r: &FixedBitSet)
        ensures
            *r == self.read_bits(),
    {
        &self.read
    }

    pub fn get_write(&self) -> (r: &FixedBitSet)
        ensures
            *r == self.write_bits(),
    {
        &self.write
    }

    pub fn reads(&self, bit: I) -> (r: bool)
        ensures
            r == self.reads_set().contains(bit.key()),
    {
        bitset_contains(&self.read, bit.to_usize())
    }

    pub fn writes(&self, bit: I) -> (r: bool)
        ensures
            r == self.writes_set().contains(bit.key()),
    {
        bitset_contains(&self.write, bit.to_usize())
    }

    /// Records a read of `bit`; tells whether `bit` is read and not written.
    pub fn read(&mut self, bit: I) -> (r: bool)
        requires
            old(self).wf(),
            bit.key() < usize::MAX,
        ensures
            final(self).wf(),
            final(self).reads_set() == old(self).reads_set().insert(bit.key()),
            final(self).writes_set() == old(self).writes_set(),
            r == !old(self).writes_set().contains(bit.key()),
    {
        bitset_grow(&mut self.read, bit.to_usize() + 1);
        bitset_set(&mut self.read, bit.to_usize(), true);

        bitset_contains(&self.read, bit.to_usize()) && !bitset_contains(&self.write, bit.to_usize())
    }

    /// Records a write of `bit`; tells whether it is the first write of
    /// `bit` and `bit` is not read.
    pub fn write(&mut self, bit: I) -> (r: bool)
        requires
            old(self).wf(),
            bit.key() < usize::MAX,
        ensures
            final(self).wf(),
            final(self).reads_set() == old(self).reads_set(),
            final(self).writes_set() == old(self).writes_set().insert(bit.key()),
            r == (!old(self).writes_set().contains(bit.key()) && !old(self).reads_set().contains(
                bit.key(),
            )),
    {
        bitset_grow(&mut self.read, bit.to_usize() + 1);
        bitset_grow(&mut self.write, bit.to_usize() + 1);

        let prev = bitset_put(&mut self.write, bit.to_usize());

        !prev && !bitset_contains(&self.read, bit.to_usize()) && bitset_contains(&self.write, bit.to_usize())
    }

    /// Whether the two can run together; if not, the lowest clash.
    pub fn conflicts(&self, other: &Self) -> (r: Result<(), usize>)
        requires
            self.wf(),
            other.wf(),
        ensures
            conflict_report(self.reads_set(), self.writes_set(), other.reads_set(), other.writes_set(), r),
            r is Ok <==> compatible(self.reads_set(), self.writes_set(), other.reads_set(), other.writes_set()),
    {
        if let Some(conflict) = bitset_first_common(&self.read, &other.write) {
            return Err(conflict);
        };

        if let Some(conflict) = bitset_first_common(&self.write, &other.write) {
            return Err(conflict);
        };

        if let Some(conflict) = bitset_first_common(&self.write, &other.read) {
            return Err(conflict);
        };

        Ok(())
    }

    /// Whether nothing is both read and written; if something is, the
    /// lowest such index.
    pub fn validate(&self) -> (r: Result<(), usize>)
        requires
            self.wf(),
        ensures
            r is Ok <==> self.reads_set().disjoint(self.writes_set()),
            r matches Err(x) ==> lowest_common(self.reads_set(), self.writes_set(), x),
    {
        match bitset_first_common(&self.read, &self.write) {
            Some(conflict) => Err(conflict),
            None => Ok(()),
        }
    }

    /// Everything read or written, as one bit set, just long enough to hold
    /// its highest bit.
    pub fn collect(self) -> (r: FixedBitSet)
        requires
            self.wf(),
        ensures
            bits_of(r) == self.reads_set().union(self.writes_set()),
            well_kept(r),
            bits_of(r) == Set::<usize>::empty() ==> bit_len(r) == 0,
            bits_of(r) != Set::<usize>::empty() ==> bit_len(r) > 0 && bits_of(r).contains(
                (bit_len(r) - 1) as usize,
            ),
    {
        bitset_union_collect(&self.read, &self.write)
    }
}

/// Whether the two accesses can run together is the same seen from either
/// side.
pub proof fn law_conflicts_symmetric(
    read: Set<usize>,
    write: Set<usize>,
    other_read: Set<usize>,
    other_write: Set<usize>,
)
    ensures
        compatible(read, write, other_read, other_write) == compatible(other_read, other_write, read, write),
{
    assert(read.disjoint(other_write) == other_write.disjoint(read));
    assert(write.disjoint(other_write) == other_write.disjoint(write));
    assert(write.disjoint(other_read) == other_read.disjoint(write));
}

/// Whether two bit sets share a bit, by the count of shared bits.
fn intersects(a: &FixedBitSet, b: &FixedBitSet) -> (r: bool)
    requires
        well_kept(*a),
        well_kept(*b),
    ensures
        r == !bits_of(*a).disjoint(bits_of(*b)),
{
    bitset_intersection_count(a, b) > 0
}

/// The component accesses of a query over archetypes, with the components
/// an archetype must have and must not have.
pub struct ArchetypeAccess {
    pub(crate) access: Access<ComponentId>,
    pub(crate) includes: FixedBitSet,
    pub(crate) excludes: FixedBitSet,
}

impl Clone for ArchetypeAccess {
    fn clone(&self) -> (r: Self)
        ensures
            r.reads_set() == self.reads_set(),
            r.writes_set() == self.writes_set(),
            r.includes_set() == self.includes_set(),
            r.excludes_set() == self.excludes_set(),
    {
        ArchetypeAccess {
            access: self.access.clone(),
            includes: crate::bitset::bitset_clone(&self.includes),
            excludes: crate::bitset::bitset_clone(&self.excludes),
        }
    }
}

/// The queries can never touch the same archetype, since one excludes a
/// component that the other needs, or else they do not clash on any
/// component.
pub open spec fn archetypes_disjoint(a: ArchetypeAccess, b: ArchetypeAccess) -> bool {
    let (ar, aw, ai, ae) = (a.reads_set(), a.writes_set(), a.includes_set(), a.excludes_set());
    let (br, bw, bi, be) = (b.reads_set(), b.writes_set(), b.includes_set(), b.excludes_set());
    if !ar.disjoint(be) || !aw.disjoint(be) || !ai.disjoint(be) || !br.disjoint(ae) || !bw.disjoint(ae)
        || !bi.disjoint(ae) {
        true
    } else {
        ar.disjoint(bw) && aw.disjoint(bw) && aw.disjoint(br)
    }
}

impl ArchetypeAccess {
    /// The component accesses.
    pub closed spec fn access_value(&self) -> Access<ComponentId> {
        self.access
    }

    /// The components read.
    pub closed spec fn reads_set(&self) -> Set<usize> {
        self.access.reads_set()
    }

    /// The components written.
    pub closed spec fn writes_set(&self) -> Set<usize> {
        self.access.writes_set()
    }

    /// The components that archetypes must have.
    pub closed spec fn includes_set(&self) -> Set<usize> {
        bits_of(self.includes)
    }

    /// The components that archetypes must not have.
    pub closed spec fn excludes_set(&self) -> Set<usize> {
        bits_of(self.excludes)
    }

    pub closed spec fn includes_bits(&self) -> FixedBitSet {
        self.includes
    }

    pub closed spec fn excludes_bits(&self) -> FixedBitSet {
        self.excludes
    }

    /// Every bit set is well kept.
    pub closed spec fn wf(&self) -> bool {
        &&& self.access.wf()
        &&& well_kept(self.includes)
        &&& well_kept(self.excludes)
    }

    pub fn new() -> (r: Self)
        ensures
            r.wf(),
            r.reads_set() == Set::<usize>::empty(),
            r.writes_set() == Set::<usize>::empty(),
            r.includes_set() == Set::<usize>::empty(),
            r.excludes_set() == Set::<usize>::empty(),
    {
        ArchetypeAccess { access: Access::new(), includes: bitset_new(), excludes: bitset_new() }
    }

    pub fn access(&self) -> (r: &Access<ComponentId>)
        ensures
            *r == self.access_value(),
    {
        &self.access
    }

    pub fn reads(&self) -> (r: &FixedBitSet)
        ensures
            *r == self.access_value().read_bits(),
    {
        self.access.get_read()
    }

    pub fn writes(&self) -> (r: &FixedBitSet)
        ensures
            *r == self.access_value().write_bits(),
    {
        self.access.get_write()
    }

    pub fn includes(&self) -> (r: &FixedBitSet)
        ensures
            *r == self.includes_bits(),
    {
        &self.includes
    }

    pub fn excludes(&self) -> (r: &FixedBitSet)
        ensures
            *r == self.excludes_bits(),
    {
        &self.excludes
    }

    /// Reads `component`, which archetypes must then have.
    pub fn read(&mut self, component: ComponentId) -> (r: ComponentId)
        requires
            old(self).wf(),
            component.key() < usize::MAX,
        ensures
            final(self).wf(),
            r == component,
            final(self).reads_set() == old(self).reads_set().insert(component.key()),
            final(self).writes_set() == old(self).writes_set(),
            final(self).includes_set() == old(self).includes_set().insert(component.key()),
            final(self).excludes_set() == old(self).excludes_set(),
    {
        self.access.read(component);
        bitset_grow(&mut self.includes, component.to_usize() + 1);
        bitset_set(&mut self.includes, component.to_usize(), true);
        component
    }

    /// Writes `component`, which archetypes must then have.
    pub fn write(&mut self, component: ComponentId) -> (r: ComponentId)
        requires
            old(self).wf(),
            component.key() < usize::MAX,
        ensures
            final(self).wf(),
            r == component,
            final(self).reads_set() == old(self).reads_set(),
            final(self).writes_set() == old(self).writes_set().insert(component.key()),
            final(self).includes_set() == old(self).includes_set().insert(component.key()),
            final(self).excludes_set() == old(self).excludes_set(),
    {
        self.access.write(component);
        bitset_grow(&mut self.includes, component.to_usize() + 1);
        bitset_set(&mut self.includes, component.to_usize(), true);
        component
    }

    /// Reads `component` where archetypes have it.
    pub fn read_optional(&mut self, component: ComponentId) -> (r: ComponentId)
        requires
            old(self).wf(),
            component.key() < usize::MAX,
        ensures
            final(self).wf(),
            r == component,
            final(self).reads_set() == old(self).reads_set().insert(component.key()),
            final(self).writes_set() == old(self).writes_set(),
            final(self).includes_bits() == old(self).includes_bits(),
            final(self).excludes_bits() == old(self).excludes_bits(),
    {
        self.access.read(component);
        component
    }

    /// Writes `component` where archetypes have it.
    pub fn write_optional(&mut self, component: ComponentId) -> (r: ComponentId)
        requires
            old(self).wf(),
            component.key() < usize::MAX,
        ensures
            final(self).wf(),
            r == component,
            final(self).reads_set() == old(self).reads_set(),
            final(self).writes_set() == old(self).writes_set().insert(component.key()),
            final(self).includes_bits() == old(self).includes_bits(),
            final(self).excludes_bits() == old(self).excludes_bits(),
    {
        self.access.write(component);
        component
    }

    /// Archetypes must have `component`.
    pub fn include_component(&mut self, component: ComponentId) -> (r: ComponentId)
        requires
            old(self).wf(),
            component.key() < usize::MAX,
        ensures
            final(self).wf(),
            r == component,
            final(self).access_value() == old(self).access_value(),
            final(self).includes_set() == old(self).includes_set().insert(component.key()),
            final(self).excludes_bits() == old(self).excludes_bits(),
    {
        bitset_grow(&mut self.includes, component.to_usize() + 1);
        bitset_set(&mut self.includes, component.to_usize(), true);
        component
    }

    /// Archetypes must not have `component`.
    pub fn exclude(&mut self, component: ComponentId) -> (r: ComponentId)
        requires
            old(self).wf(),
            component.key() < usize::MAX,
        ensures
            final(self).wf(),
            r == component,
            final(self).access_value() == old(self).access_value(),
            final(self).includes_bits() == old(self).includes_bits(),
            final(self).excludes_set() == old(self).excludes_set().insert(component.key()),
    {
        bitset_grow(&mut self.excludes, component.to_usize() + 1);
        bitset_set(&mut self.excludes, component.to_usize(), true);
        component
    }

    pub fn is_disjoint(&self, other: &Self) -> (r: bool)
        requires
            self.wf(),
            other.wf(),
        ensures
            r == archetypes_disjoint(*self, *other),
    {
        if intersects(self.reads(), other.excludes()) || intersects(self.writes(), other.excludes())
            || intersects(self.includes(), other.excludes()) || intersects(other.reads(), self.excludes())
            || intersects(other.writes(), self.excludes()) || intersects(other.includes(), self.excludes()) {
            return true;
        }

        bitset_is_disjoint(self.reads(), other.writes()) && bitset_is_disjoint(self.writes(), other.writes())
            && bitset_is_disjoint(self.writes(), other.reads())
    }

    /// `Ok` when the queries are disjoint, else what their accesses report.
    pub fn conflicts(&self, other: &Self) -> (r: Result<(), usize>)
        requires
            self.wf(),
            other.wf(),
        ensures
            archetypes_disjoint(*self, *other) ==> r is Ok,
            !archetypes_disjoint(*self, *other) ==> conflict_report(
                self.reads_set(),
                self.writes_set(),
                other.reads_set(),
                other.writes_set(),
                r,
            ),
    {
        if self.is_disjoint(other) {
            return Ok(());
        }

        self.access.conflicts(&other.access)
    }
}

/// Whether two archetype queries are disjoint, stated component by
/// component: they are exactly when one of them excludes a component that
/// the other reads, writes or includes, or else when neither writes a
/// component that the other reads or writes.
pub proof fn law_archetypes_disjoint(a: ArchetypeAccess, b: ArchetypeAccess)
    ensures
        archetypes_disjoint(a, b) <==> ({
            ||| exists|k: usize|
                #![trigger b.excludes_set().contains(k)]
                b.excludes_set().contains(k) && (a.reads_set().contains(k) || a.writes_set().contains(k)
                    || a.includes_set().contains(k))
            ||| exists|k: usize|
                #![trigger a.excludes_set().contains(k)]
                a.excludes_set().contains(k) && (b.reads_set().contains(k) || b.writes_set().contains(k)
                    || b.includes_set().contains(k))
            ||| forall|k: usize|
                #![trigger a.writes_set().contains(k)]
                #![trigger a.reads_set().contains(k)]
                !(a.writes_set().contains(k) && (b.reads_set().contains(k) || b.writes_set().contains(k)))
                    && !(a.reads_set().contains(k) && b.writes_set().contains(k))
        }),
{
    let (ar, aw, ai, ae) = (a.reads_set(), a.writes_set(), a.includes_set(), a.excludes_set());
    let (br, bw, bi, be) = (b.reads_set(), b.writes_set(), b.includes_set(), b.excludes_set());
    let excl_b = exists|k: usize|
        #![trigger be.contains(k)]
        be.contains(k) && (ar.contains(k) || aw.contains(k) || ai.contains(k));
    let excl_a = exists|k: usize|
        #![trigger ae.contains(k)]
        ae.contains(k) && (br.contains(k) || bw.contains(k) || bi.contains(k));
    let no_clash = forall|k: usize|
        #![trigger aw.contains(k)]
        #![trigger ar.contains(k)]
        !(aw.contains(k) && (br.contains(k) || bw.contains(k))) && !(ar.contains(k) && bw.contains(k));
    let hit = !ar.disjoint(be) || !aw.disjoint(be) || !ai.disjoint(be) || !br.disjoint(ae) || !bw.disjoint(ae)
        || !bi.disjoint(ae);
    assert(hit <==> (excl_b || excl_a)) by {
        if !ar.disjoint(be) {
            let k = choose|k: usize| ar.contains(k) && be.contains(k);
            assert(be.contains(k));
        }
        if !aw.disjoint(be) {
            let k = choose|k: usize| aw.contains(k) && be.contains(k);
            assert(be.contains(k));
        }
        if !ai.disjoint(be) {
            let k = choose|k: usize| ai.contains(k) && be.contains(k);
            assert(be.contains(k));
        }
        if !br.disjoint(ae) {
            let k = choose|k: usize| br.contains(k) && ae.contains(k);
            assert(ae.contains(k));
        }
        if !bw.disjoint(ae) {
            let k = choose|k: usize| bw.contains(k) && ae.contains(k);
            assert(ae.contains(k));
        }
        if !bi.disjoint(ae) {
            let k = choose|k: usize| bi.contains(k) && ae.contains(k);
            assert(ae.contains(k));
        }
        if excl_b {
            let k = choose|k: usize|
                #![trigger be.contains(k)]
                be.contains(k) && (ar.contains(k) || aw.contains(k) || ai.contains(k));
            assert(be.contains(k));
        }
        if excl_a {
            let k = choose|k: usize|
                #![trigger ae.contains(k)]
                ae.contains(k) && (br.contains(k) || bw.contains(k) || bi.contains(k));
            assert(ae.contains(k));
        }
    }
    assert((ar.disjoint(bw) && aw.disjoint(bw) && aw.disjoint(br)) <==> no_clash) by {
        if !no_clash {
            let k = choose|k: usize|
                !(!(aw.contains(k) && (br.contains(k) || bw.contains(k))) && !(ar.contains(k) && bw.contains(k)));
            assert(aw.contains(k) || ar.contains(k));
        }
        if no_clash {
            assert forall|k: usize| ar.contains(k) implies !bw.contains(k) by {
                assert(ar.contains(k));
            }
            assert forall|k: usize| aw.contains(k) implies !bw.contains(k) && !br.contains(k) by {
                assert(aw.contains(k));
            }
        }
    }
}

/// Two accesses are compatible exactly when neither writes a component
/// that the other reads or writes.
pub proof fn law_compatible(read: Set<usize>, write: Set<usize>, other_read: Set<usize>, other_write: Set<usize>)
    ensures
        compatible(read, write, other_read, other_write) <==> forall|k: usize|
            #![trigger write.contains(k)]
            #![trigger read.contains(k)]
            !(write.contains(k) && (other_read.contains(k) || other_write.contains(k))) && !(read.contains(k)
                && other_write.contains(k)),
{
    if forall|k: usize|
        #![trigger write.contains(k)]
        #![trigger read.contains(k)]
        !(write.contains(k) && (other_read.contains(k) || other_write.contains(k))) && !(read.contains(k)
            && other_write.contains(k)) {
        assert forall|k: usize| read.contains(k) implies !other_write.contains(k) by {
            assert(read.contains(k));
        }
        assert forall|k: usize| write.contains(k) implies !other_write.contains(k) && !other_read.contains(k) by {
            assert(write.contains(k));
        }
    }
}

/// What a conflict report says, component by component: `Ok` exactly when
/// nothing clashes, and otherwise an error naming a clashing component,
/// with no smaller component clashing the same way.
pub proof fn law_conflict_report_outcome(
    read: Set<usize>,
    write: Set<usize>,
    other_read: Set<usize>,
    other_write: Set<usize>,
    r: Result<(), usize>,
)
    requires
        conflict_report(read, write, other_read, other_write, r),
    ensures
        r is Ok <==> forall|k: usize|
            #![trigger write.contains(k)]
            #![trigger read.contains(k)]
            !(write.contains(k) && (other_read.contains(k) || other_write.contains(k))) && !(read.contains(k)
                && other_write.contains(k)),
        r matches Err(x) ==> (read.contains(x) && other_write.contains(x)) || (write.contains(x) && (
        other_write.contains(x) || other_read.contains(x))),
        r matches Err(x) ==> read.contains(x) && other_write.contains(x) ==> forall|y: usize|
            #![trigger read.contains(y)]
            y < x ==> !(read.contains(y) && other_write.contains(y)),
{
    law_compatible(read, write, other_read, other_write);
}

/// A conflict report is an error whenever one side writes a component that
/// the other reads or writes, or reads one that the other writes.
pub proof fn law_clash_is_reported(
    read: Set<usize>,
    write: Set<usize>,
    other_read: Set<usize>,
    other_write: Set<usize>,
    r: Result<(), usize>,
    k: usize,
)
    requires
        conflict_report(read, write, other_read, other_write, r),
        (write.contains(k) && (other_read.contains(k) || other_write.contains(k))) || (read.contains(k)
            && other_write.contains(k)),
    ensures
        r is Err,
{
}

/// Two archetype queries can run together: they never touch the same
/// archetype, or their component accesses do not clash.
pub open spec fn archetypes_compatible(a: ArchetypeAccess, b: ArchetypeAccess) -> bool {
    archetypes_disjoint(a, b) || compatible(a.reads_set(), a.writes_set(), b.reads_set(), b.writes_set())
}

/// What one archetype query and a set of component accesses may run
/// together.
pub open spec fn query_compatible(a: ArchetypeAccess, c: Access<ComponentId>) -> bool {
    compatible(a.reads_set(), a.writes_set(), c.reads_set(), c.writes_set())
}

/// Whether two archetype queries can run together is the same seen from
/// either side.
pub proof fn law_archetypes_compatible_symmetric(a: ArchetypeAccess, b: ArchetypeAccess)
    ensures
        archetypes_disjoint(a, b) == archetypes_disjoint(b, a),
        archetypes_compatible(a, b) == archetypes_compatible(b, a),
{
    let (ar, aw, ai, ae) = (a.reads_set(), a.writes_set(), a.includes_set(), a.excludes_set());
    let (br, bw, bi, be) = (b.reads_set(), b.writes_set(), b.includes_set(), b.excludes_set());
    assert(ar.disjoint(bw) == bw.disjoint(ar));
    assert(aw.disjoint(bw) == bw.disjoint(aw));
    assert(aw.disjoint(br) == br.disjoint(aw));
    law_conflicts_symmetric(ar, aw, br, bw);
}

/// The accesses of everything in an app that runs at once.
pub struct AppAccess {
    pub archetypes: Vec<ArchetypeAccess>,
    pub components: Access<ComponentId>,
    pub resources: Access<ResourceId>,
}

impl AppAccess {
    /// Every bit set held is well kept.
    pub open spec fn wf(&self) -> bool {
        &&& self.components.wf()
        &&& self.resources.wf()
        &&& forall|i: int| 0 <= i < self.archetypes@.len() ==> (#[trigger] self.archetypes@[i]).wf()
    }
}

/// Nothing in `a` reads and writes the same resource or component, no
/// archetype query clashes with the component accesses, and no two of its
/// archetype queries clash.
pub open spec fn app_valid(a: AppAccess) -> bool {
    &&& a.resources.reads_set().disjoint(a.resources.writes_set())
    &&& a.components.reads_set().disjoint(a.components.writes_set())
    &&& forall|i: int| 0 <= i < a.archetypes@.len() ==> query_compatible(#[trigger] a.archetypes@[i], a.components)
    &&& forall|i: int, j: int|
        0 <= i < j < a.archetypes@.len() ==> archetypes_compatible(#[trigger] a.archetypes@[i], #[trigger] a.archetypes@[j])
}

/// An app is valid exactly when no resource and no component is both read
/// and written by it, every archetype query is compatible with its
/// component accesses, and every two of its archetype queries can run
/// together.
pub proof fn law_app_valid(a: AppAccess)
    ensures
        app_valid(a) <==> ({
            &&& forall|k: usize|
                #![trigger a.resources.reads_set().contains(k)]
                !(a.resources.reads_set().contains(k) && a.resources.writes_set().contains(k))
            &&& forall|k: usize|
                #![trigger a.components.reads_set().contains(k)]
                !(a.components.reads_set().contains(k) && a.components.writes_set().contains(k))
            &&& forall|i: int|
                0 <= i < a.archetypes@.len() ==> query_compatible(#[trigger] a.archetypes@[i], a.components)
            &&& forall|i: int, j: int|
                0 <= i < a.archetypes@.len() && 0 <= j < a.archetypes@.len() && i != j ==> archetypes_compatible(
                    #[trigger] a.archetypes@[i],
                    #[trigger] a.archetypes@[j],
                )
        }),
{
    if app_valid(a) {
        assert forall|i: int, j: int|
            0 <= i < a.archetypes@.len() && 0 <= j < a.archetypes@.len() && i != j implies archetypes_compatible(
            #[trigger] a.archetypes@[i],
            #[trigger] a.archetypes@[j],
        ) by {
            if j < i {
                law_archetypes_compatible_symmetric(a.archetypes@[j], a.archetypes@[i]);
            }
        }
    }
}

/// `a` and `b` can run at the same time.
pub open spec fn apps_compatible(a: AppAccess, b: AppAccess) -> bool {
    &&& compatible(a.resources.reads_set(), a.resources.writes_set(), b.resources.reads_set(), b.resources.writes_set())
    &&& compatible(a.components.reads_set(), a.components.writes_set(), b.components.reads_set(), b.components.writes_set())
    &&& forall|i: int| 0 <= i < a.archetypes@.len() ==> query_compatible(#[trigger] a.archetypes@[i], b.components)
    &&& forall|i: int, j: int|
        0 <= i < a.archetypes@.len() && 0 <= j < b.archetypes@.len() ==> archetypes_compatible(
            #[trigger] a.archetypes@[i],
            #[trigger] b.archetypes@[j],
        ) && query_compatible(b.archetypes@[j], a.components)
}

proof fn lemma_apps_compatible_flip(a: AppAccess, b: AppAccess)
    requires
        apps_compatible(a, b),
        (a.archetypes@.len() == 0) == (b.archetypes@.len() == 0),
    ensures
        apps_compatible(b, a),
{
    law_conflicts_symmetric(a.resources.reads_set(), a.resources.writes_set(), b.resources.reads_set(), b.resources.writes_set());
    law_conflicts_symmetric(a.components.reads_set(), a.components.writes_set(), b.components.reads_set(), b.components.writes_set());
    assert forall|j: int| 0 <= j < b.archetypes@.len() implies query_compatible(#[trigger] b.archetypes@[j], a.components) by {
        assert(archetypes_compatible(a.archetypes@[0], b.archetypes@[j]) && query_compatible(b.archetypes@[j], a.components));
    }
    assert forall|j: int, i: int| 0 <= j < b.archetypes@.len() && 0 <= i < a.archetypes@.len() implies
        archetypes_compatible(#[trigger] b.archetypes@[j], #[trigger] a.archetypes@[i]) && query_compatible(a.archetypes@[i], b.components) by {
        law_archetypes_compatible_symmetric(a.archetypes@[i], b.archetypes@[j]);
        assert(archetypes_compatible(a.archetypes@[i], b.archetypes@[j]));
        assert(query_compatible(a.archetypes@[i], b.components));
    }
}

/// Whether two apps can run at the same time is the same seen from either
/// side, when both or neither have archetype queries.
pub proof fn law_apps_compatible_symmetric(a: AppAccess, b: AppAccess)
    requires
        (a.archetypes@.len() == 0) == (b.archetypes@.len() == 0),
    ensures
        apps_compatible(a, b) == apps_compatible(b, a),
{
    if apps_compatible(a, b) {
        lemma_apps_compatible_flip(a, b);
    }
    if apps_compatible(b, a) {
        lemma_apps_compatible_flip(b, a);
    }
}

/// Whether check `(i, j)` of `AppAccess::validate` finds a clash: for
/// `i == j`, archetype query `i` against the component accesses; for
/// `i < j`, archetype queries `i` and `j` against each other.
pub open spec fn validate_check_fails(a: AppAccess, i: int, j: int) -> bool {
    if i == j {
        !query_compatible(a.archetypes@[i], a.components)
    } else {
        !archetypes_compatible(a.archetypes@[i], a.archetypes@[j])
    }
}

/// Whether check `(i, j)` of `AppAccess::validate` reports component `x`.
pub open spec fn validate_check_reports(a: AppAccess, i: int, j: int, x: usize) -> bool {
    let q = a.archetypes@[i];
    if i == j {
        conflict_report(q.reads_set(), q.writes_set(), a.components.reads_set(), a.components.writes_set(), Err(x))
    } else {
        let o = a.archetypes@[j];
        conflict_report(q.reads_set(), q.writes_set(), o.reads_set(), o.writes_set(), Err(x))
    }
}

/// Check `(i, j)` is the first of `AppAccess::validate`'s query checks to
/// find a clash; the checks go query by query, each query first against the
/// component accesses, then against each later query.
pub open spec fn validate_first_failure(a: AppAccess, i: int, j: int) -> bool {
    &&& 0 <= i <= j < a.archetypes@.len()
    &&& validate_check_fails(a, i, j)
    &&& forall|i2: int, j2: int|
        0 <= i2 <= j2 < a.archetypes@.len() && (i2 < i || (i2 == i && j2 < j)) ==> !#[trigger] validate_check_fails(
            a,
            i2,
            j2,
        )
}

/// Whether check `(i, k)` of `AppAccess::conflicts` finds a clash: for
/// `k == 0`, archetype query `i` of `a` against the component accesses of
/// `b`; for `k == 2 * j + 1`, query `i` of `a` against query `j` of `b`;
/// for `k == 2 * j + 2`, query `j` of `b` against the component accesses of
/// `a`.
pub open spec fn conflicts_check_fails(a: AppAccess, b: AppAccess, i: int, k: int) -> bool {
    if k == 0 {
        !query_compatible(a.archetypes@[i], b.components)
    } else if k % 2 == 1 {
        !archetypes_compatible(a.archetypes@[i], b.archetypes@[(k - 1) / 2])
    } else {
        !query_compatible(b.archetypes@[(k - 2) / 2], a.components)
    }
}

/// Whether check `(i, k)` of `AppAccess::conflicts` reports component `x`.
pub open spec fn conflicts_check_reports(a: AppAccess, b: AppAccess, i: int, k: int, x: usize) -> bool {
    let q = a.archetypes@[i];
    if k == 0 {
        conflict_report(q.reads_set(), q.writes_set(), b.components.reads_set(), b.components.writes_set(), Err(x))
    } else if k % 2 == 1 {
        let o = b.archetypes@[(k - 1) / 2];
        conflict_report(q.reads_set(), q.writes_set(), o.reads_set(), o.writes_set(), Err(x))
    } else {
        let o = b.archetypes@[(k - 2) / 2];
        conflict_report(o.reads_set(), o.writes_set(), a.components.reads_set(), a.components.writes_set(), Err(x))
    }
}

/// Check `(i, k)` is the first of `AppAccess::conflicts`' query checks to
/// find a clash; the checks go through the queries of `a` in order.
pub open spec fn conflicts_first_failure(a: AppAccess, b: AppAccess, i: int, k: int) -> bool {
    &&& 0 <= i < a.archetypes@.len()
    &&& 0 <= k <= 2 * b.archetypes@.len()
    &&& conflicts_check_fails(a, b, i, k)
    &&& forall|i2: int, k2: int|
        0 <= i2 < a.archetypes@.len() && 0 <= k2 <= 2 * b.archetypes@.len() && (i2 < i || (i2 == i && k2
            < k)) ==> !#[trigger] conflicts_check_fails(a, b, i2, k2)
}

impl AppAccess {
    /// `Ok` when nothing in the app clashes with itself; otherwise a clash:
    /// among the resources first, then among the components, then, query by
    /// query, between an archetype query and the component accesses or a
    /// later archetype query.
    pub fn validate(&self) -> (r: Result<(), AccessError>)
        requires
            self.wf(),
        ensures
            r is Ok <==> app_valid(*self),
            r matches Err(AccessError::Resource(id)) ==> exists|x: usize|
                lowest_common(self.resources.reads_set(), self.resources.writes_set(), x) && id == ResourceId(
                    x as u32,
                ),
            r matches Err(AccessError::Component(id)) ==> {
                &&& self.resources.reads_set().disjoint(self.resources.writes_set())
                &&& !self.components.reads_set().disjoint(self.components.writes_set()) ==> exists|x: usize|
                    lowest_common(self.components.reads_set(), self.components.writes_set(), x) && id
                        == ComponentId(x as u32)
                &&& self.components.reads_set().disjoint(self.components.writes_set()) ==> exists|
                    i: int,
                    j: int,
                    x: usize,
                |
                    #[trigger] validate_first_failure(*self, i, j) && #[trigger] validate_check_reports(
                        *self,
                        i,
                        j,
                        x,
                    ) && id == ComponentId(x as u32)
            },
    {
        if let Err(conflict) = self.resources.validate() {
            return Err(AccessError::from(ResourceId::from_usize(conflict)));
        }

        if let Err(conflict) = self.components.validate() {
            return Err(AccessError::from(ComponentId::from_usize(conflict)));
        }

        let mut index: usize = 0;
        while index < self.archetypes.len()
            invariant
                self.wf(),
                index <= self.archetypes@.len(),
                self.resources.reads_set().disjoint(self.resources.writes_set()),
                self.components.reads_set().disjoint(self.components.writes_set()),
                forall|i: int| 0 <= i < index ==> query_compatible(#[trigger] self.archetypes@[i], self.components),
                forall|i: int, j: int|
                    0 <= i < index && i < j < self.archetypes@.len() ==> archetypes_compatible(
                        #[trigger] self.archetypes@[i],
                        #[trigger] self.archetypes@[j],
                    ),
            decreases self.archetypes@.len() - index,
        {
            let access = &self.archetypes[index];
            if let Err(conflict) = access.access.conflicts(&self.components) {
                proof {
                    assert(validate_check_fails(*self, index as int, index as int));
                    assert(validate_check_reports(*self, index as int, index as int, conflict));
                    assert forall|i2: int, j2: int|
                        0 <= i2 <= j2 < self.archetypes@.len() && (i2 < index || (i2 == index && j2 < index))
                            implies !#[trigger] validate_check_fails(*self, i2, j2) by {
                        if i2 < j2 {
                            assert(archetypes_compatible(self.archetypes@[i2], self.archetypes@[j2]));
                        }
                    }
                    assert(validate_first_failure(*self, index as int, index as int));
                }
                return Err(AccessError::from(ComponentId::from_usize(conflict)));
            }
            let mut other_index: usize = index + 1;
            while other_index < self.archetypes.len()
                invariant
                    self.wf(),
                    index < self.archetypes@.len(),
                    self.resources.reads_set().disjoint(self.resources.writes_set()),
                    self.components.reads_set().disjoint(self.components.writes_set()),
                    forall|i: int| 0 <= i <= index ==> query_compatible(#[trigger] self.archetypes@[i], self.components),
                    forall|i: int, j: int|
                        0 <= i < index && i < j < self.archetypes@.len() ==> archetypes_compatible(
                            #[trigger] self.archetypes@[i],
                            #[trigger] self.archetypes@[j],
                        ),
                    *access == self.archetypes@[index as int],
                    index + 1 <= other_index <= self.archetypes@.len(),
                    forall|j: int|
                        index < j < other_index ==> archetypes_compatible(
                            self.archetypes@[index as int],
                            #[trigger] self.archetypes@[j],
                        ),
                decreases self.archetypes@.len() - other_index,
            {
                let other = &self.archetypes[other_index];
                if let Err(conflict) = access.conflicts(other) {
                    proof {
                        assert(!archetypes_compatible(self.archetypes@[index as int], self.archetypes@[other_index as int]));
                        assert(validate_check_fails(*self, index as int, other_index as int));
                        assert(validate_check_reports(*self, index as int, other_index as int, conflict));
                        assert forall|i2: int, j2: int|
                            0 <= i2 <= j2 < self.archetypes@.len() && (i2 < index || (i2 == index && j2
                                < other_index)) implies !#[trigger] validate_check_fails(*self, i2, j2) by {
                            if i2 < j2 {
                                assert(archetypes_compatible(self.archetypes@[i2], self.archetypes@[j2]));
                            } else {
                                assert(query_compatible(self.archetypes@[i2], self.components));
                            }
                        }
                        assert(validate_first_failure(*self, index as int, other_index as int));
                    }
                    return Err(AccessError::from(ComponentId::from_usize(conflict)));
                }
                other_index = other_index + 1;
            }
            index = index + 1;
        }

        Ok(())
    }

    /// The checks of `AppAccess::conflicts` before `(i, k)` find no clash,
    /// when every query before `i` passed all its checks, query `i` passed
    /// its check against the components of `b`, and query `i` passed its
    /// checks against the queries of `b` before the one `k` is about.
    proof fn lemma_conflicts_earlier_pass(self, b: AppAccess, i: int, k: int)
        requires
            0 <= i < self.archetypes@.len(),
            1 <= k <= 2 * b.archetypes@.len(),
            forall|k0: int| 0 <= k0 <= i ==> query_compatible(#[trigger] self.archetypes@[k0], b.components),
            forall|k0: int, m: int|
                0 <= k0 < i && 0 <= m < b.archetypes@.len() ==> archetypes_compatible(
                    #[trigger] self.archetypes@[k0],
                    #[trigger] b.archetypes@[m],
                ) && query_compatible(b.archetypes@[m], self.components),
            forall|m: int|
                0 <= m < (k - 1) / 2 ==> archetypes_compatible(self.archetypes@[i], #[trigger] b.archetypes@[m])
                    && query_compatible(b.archetypes@[m], self.components),
            k % 2 == 0 ==> archetypes_compatible(self.archetypes@[i], b.archetypes@[(k - 2) / 2]),
        ensures
            forall|i2: int, k2: int|
                0 <= i2 < self.archetypes@.len() && 0 <= k2 <= 2 * b.archetypes@.len() && (i2 < i || (i2
                    == i && k2 < k)) ==> !#[trigger] conflicts_check_fails(self, b, i2, k2),
    {
        assert forall|i2: int, k2: int|
            0 <= i2 < self.archetypes@.len() && 0 <= k2 <= 2 * b.archetypes@.len() && (i2 < i || (i2 == i
                && k2 < k)) implies !#[trigger] conflicts_check_fails(self, b, i2, k2) by {
            if k2 != 0 {
                if k2 % 2 == 1 {
                    let m = (k2 - 1) / 2;
                    assert(0 <= m < b.archetypes@.len());
                    if i2 < i {
                        assert(archetypes_compatible(self.archetypes@[i2], b.archetypes@[m]));
                    } else {
                        assert(m < (k - 1) / 2 || (k % 2 == 0 && m == (k - 2) / 2)) by (nonlinear_arith)
                            requires
                                m == (k2 - 1) / 2,
                                k2 % 2 == 1,
                                1 <= k2 < k,
                        ;
                        if m < (k - 1) / 2 {
                            assert(archetypes_compatible(self.archetypes@[i], b.archetypes@[m]));
                        }
                    }
                } else {
                    let m = (k2 - 2) / 2;
                    assert(0 <= m < b.archetypes@.len());
                    if i2 < i {
                        assert(archetypes_compatible(self.archetypes@[i2], b.archetypes@[m]));
                    } else {
                        assert(m < (k - 1) / 2) by (nonlinear_arith)
                            requires
                                m == (k2 - 2) / 2,
                                k2 % 2 == 0,
                                2 <= k2 < k,
                        ;
                        assert(archetypes_compatible(self.archetypes@[i], b.archetypes@[m]));
                    }
                }
            }
        }
    }

    /// `Ok` when this and `other` can run at the same time; otherwise a
    /// clash.
    pub fn conflicts(&self, other: &Self) -> (r: Result<(), AccessError>)
        requires
            self.wf(),
            other.wf(),
        ensures
            r is Ok <==> apps_compatible(*self, *other),
            r matches Err(AccessError::Resource(id)) ==> exists|x: usize|
                conflict_report(
                    self.resources.reads_set(),
                    self.resources.writes_set(),
                    other.resources.reads_set(),
                    other.resources.writes_set(),
                    Err(x),
                ) && id == ResourceId(x as u32),
            r matches Err(AccessError::Component(id)) ==> {
                &&& compatible(
                    self.resources.reads_set(),
                    self.resources.writes_set(),
                    other.resources.reads_set(),
                    other.resources.writes_set(),
                )
                &&& !compatible(
                    self.components.reads_set(),
                    self.components.writes_set(),
                    other.components.reads_set(),
                    other.components.writes_set(),
                ) ==> exists|x: usize|
                    conflict_report(
                        self.components.reads_set(),
                        self.components.writes_set(),
                        other.components.reads_set(),
                        other.components.writes_set(),
                        Err(x),
                    ) && id == ComponentId(x as u32)
                &&& compatible(
                    self.components.reads_set(),
                    self.components.writes_set(),
                    other.components.reads_set(),
                    other.components.writes_set(),
                ) ==> exists|i: int, k: int, x: usize|
                    #[trigger] conflicts_first_failure(*self, *other, i, k) && #[trigger] conflicts_check_reports(
                        *self,
                        *other,
                        i,
                        k,
                        x,
                    ) && id == ComponentId(x as u32)
            },
    {
        if let Err(conflict) = self.resources.conflicts(&other.resources) {
            return Err(AccessError::from(ResourceId::from_usize(conflict)));
        };

        if let Err(conflict) = self.components.conflicts(&other.components) {
            return Err(AccessError::from(ComponentId::from_usize(conflict)));
        };

        let mut i: usize = 0;
        while i < self.archetypes.len()
            invariant
                self.wf(),
                other.wf(),
                i <= self.archetypes@.len(),
                compatible(self.resources.reads_set(), self.resources.writes_set(), other.resources.reads_set(), other.resources.writes_set()),
                compatible(self.components.reads_set(), self.components.writes_set(), other.components.reads_set(), other.components.writes_set()),
                forall|k: int| 0 <= k < i ==> query_compatible(#[trigger] self.archetypes@[k], other.components),
                forall|k: int, j: int|
                    0 <= k < i && 0 <= j < other.archetypes@.len() ==> archetypes_compatible(
                        #[trigger] self.archetypes@[k],
                        #[trigger] other.archetypes@[j],
                    ) && query_compatible(other.archetypes@[j], self.components),
            decreases self.archetypes@.len() - i,
        {
            let access = &self.archetypes[i];
            if let Err(conflict) = access.access.conflicts(&other.components) {
                proof {
                    assert(conflicts_check_fails(*self, *other, i as int, 0));
                    assert(conflicts_check_reports(*self, *other, i as int, 0, conflict));
                    assert forall|i2: int, k2: int|
                        0 <= i2 < self.archetypes@.len() && 0 <= k2 <= 2 * other.archetypes@.len() && (i2 < i
                            || (i2 == i && k2 < 0)) implies !#[trigger] conflicts_check_fails(*self, *other, i2, k2) by {
                        if k2 != 0 {
                            if k2 % 2 == 1 {
                                assert(archetypes_compatible(self.archetypes@[i2], other.archetypes@[(k2 - 1) / 2]));
                            } else {
                                assert(archetypes_compatible(self.archetypes@[i2], other.archetypes@[(k2 - 2) / 2]));
                            }
                        }
                    }
                    assert(conflicts_first_failure(*self, *other, i as int, 0));
                }
                return Err(AccessError::from(ComponentId::from_usize(conflict)));
            }

            let mut j: usize = 0;
            while j < other.archetypes.len()
                invariant
                    self.wf(),
                    other.wf(),
                    i < self.archetypes@.len(),
                    *access == self.archetypes@[i as int],
                    j <= other.archetypes@.len(),
                    compatible(self.resources.reads_set(), self.resources.writes_set(), other.resources.reads_set(), other.resources.writes_set()),
                    compatible(self.components.reads_set(), self.components.writes_set(), other.components.reads_set(), other.components.writes_set()),
                    forall|k: int| 0 <= k <= i ==> query_compatible(#[trigger] self.archetypes@[k], other.components),
                    forall|k: int, m: int|
                        0 <= k < i && 0 <= m < other.archetypes@.len() ==> archetypes_compatible(
                            #[trigger] self.archetypes@[k],
                            #[trigger] other.archetypes@[m],
                        ) && query_compatible(other.archetypes@[m], self.components),
                    forall|m: int|
                        0 <= m < j ==> archetypes_compatible(self.archetypes@[i as int], #[trigger] other.archetypes@[m])
                            && query_compatible(other.archetypes@[m], self.components),
                decreases other.archetypes@.len() - j,
            {
                let other_access = &other.archetypes[j];
                if let Err(conflict) = access.conflicts(other_access) {
                    proof {
                        let k = 2 * j + 1;
                        assert((k - 1) / 2 == j);
                        assert(conflicts_check_fails(*self, *other, i as int, k));
                        assert(conflicts_check_reports(*self, *other, i as int, k, conflict));
                        self.lemma_conflicts_earlier_pass(*other, i as int, k);
                        assert(conflicts_first_failure(*self, *other, i as int, k));
                    }
                    return Err(AccessError::from(ComponentId::from_usize(conflict)));
                }

                if let Err(conflict) = other_access.access.conflicts(&self.components) {
                    proof {
                        let k = 2 * j + 2;
                        assert((k - 2) / 2 == j);
                        assert(conflicts_check_fails(*self, *other, i as int, k));
                        assert(conflicts_check_reports(*self, *other, i as int, k, conflict));
                        assert(archetypes_compatible(self.archetypes@[i as int], other.archetypes@[j as int]));
                        self.lemma_conflicts_earlier_pass(*other, i as int, k);
                        assert(conflicts_first_failure(*self, *other, i as int, k));
                    }
                    return Err(AccessError::from(ComponentId::from_usize(conflict)));
                }
                j = j + 1;
            }
            proof {
                assert forall|k: int, m: int|
                    0 <= k < i + 1 && 0 <= m < other.archetypes@.len() implies archetypes_compatible(
                        #[trigger] self.archetypes@[k],
                        #[trigger] other.archetypes@[m],
                    ) && query_compatible(other.archetypes@[m], self.components) by {}
            }
            i = i + 1;
        }

        Ok(())
    }
}

impl Default for AppAccess {
    fn default() -> (r: AppAccess)
        ensures
            r.wf(),
            r.archetypes@ == Seq::<ArchetypeAccess>::empty(),
            r.components.wf(),
            r.resources.wf(),
            r.components.reads_set() == Set::<usize>::empty(),
            r.components.writes_set() == Set::<usize>::empty(),
            r.resources.reads_set() == Set::<usize>::empty(),
            r.resources.writes_set() == Set::<usize>::empty(),
    {
        AppAccess { archetypes: Vec::new(), components: Access::new(), resources: Access::new() }
    }
}

/// The accesses of everything that runs at once, in the world at hand and in
/// the main world.
pub struct WorldAccess {
    pub(crate) current: AppAccess,
    pub(crate) main: AppAccess,
}

impl WorldAccess {
    /// Every bit set held, in either world, is well kept.
    pub open spec fn wf(&self) -> bool {
        self.current_view().wf() && self.main_view().wf()
    }

    /// The accesses in the world at hand.
    pub closed spec fn current_view(&self) -> AppAccess {
        self.current
    }

    /// The accesses in the main world.
    pub closed spec fn main_view(&self) -> AppAccess {
        self.main
    }

    pub fn new() -> (r: WorldAccess)
        ensures
            r.wf(),
            r.current_view().archetypes@ == Seq::<ArchetypeAccess>::empty(),
            r.main_view().archetypes@ == Seq::<ArchetypeAccess>::empty(),
            r.current_view().components.wf() && r.current_view().resources.wf(),
            r.main_view().components.wf() && r.main_view().resources.wf(),
            r.current_view().components.reads_set() == Set::<usize>::empty(),
            r.current_view().components.writes_set() == Set::<usize>::empty(),
            r.current_view().resources.reads_set() == Set::<usize>::empty(),
            r.current_view().resources.writes_set() == Set::<usize>::empty(),
            r.main_view().components.reads_set() == Set::<usize>::empty(),
            r.main_view().components.writes_set() == Set::<usize>::empty(),
            r.main_view().resources.reads_set() == Set::<usize>::empty(),
            r.main_view().resources.writes_set() == Set::<usize>::empty(),
    {
        WorldAccess { current: AppAccess::default(), main: AppAccess::default() }
    }

    pub fn add_archetype(&mut self, archetype: ArchetypeAccess)
        ensures
            final(self).current_view().archetypes@ == old(self).current_view().archetypes@.push(archetype),
            final(self).current_view().components == old(self).current_view().components,
            final(self).current_view().resources == old(self).current_view().resources,
            final(self).main_view() == old(self).main_view(),
    {
        self.current.archetypes.push(archetype);
    }

    pub fn components(&self) -> (r: &Access<ComponentId>)
        ensures
            *r == self.current_view().components,
    {
        &self.current.components
    }

    pub fn components_mut(&mut self) -> (r: &mut Access<ComponentId>)
        ensures
            *r == old(self).current_view().components,
            final(self).current_view().components == *final(r),
            final(self).current_view().resources == old(self).current_view().resources,
            final(self).current_view().archetypes == old(self).current_view().archetypes,
            final(self).main_view() == old(self).main_view(),
    {
        &mut self.current.components
    }

    pub fn resources(&self) -> (r: &Access<ResourceId>)
        ensures
            *r == self.current_view().resources,
    {
        &self.current.resources
    }

    pub fn resources_mut(&mut self) -> (r: &mut Access<ResourceId>)
        ensures
            *r == old(self).current_view().resources,
            final(self).current_view().resources == *final(r),
            final(self).current_view().components == old(self).current_view().components,
            final(self).current_view().archetypes == old(self).current_view().archetypes,
            final(self).main_view() == old(self).main_view(),
    {
        &mut self.current.resources
    }

    pub fn main_mut(&mut self) -> (r: &mut AppAccess)
        ensures
            *r == old(self).main_view(),
            final(self).main_view() == *final(r),
            final(self).current_view() == old(self).current_view(),
    {
        &mut self.main
    }

    /// `Ok` when neither the world at hand nor the main world clashes with
    /// itself; the clash in the world at hand is reported first.
    pub fn validate(&self) -> (r: Result<(), AccessError>)
        requires
            self.wf(),
        ensures
            r is Ok <==> app_valid(self.current_view()) && app_valid(self.main_view()),
    {
        self.current.validate()?;
        self.main.validate()
    }

    /// `Ok` when this and `other` can run at the same time, in the world at
    /// hand and in the main world.
    pub fn conflicts(&self, other: &Self) -> (r: Result<(), AccessError>)
        requires
            self.wf(),
            other.wf(),
        ensures
            r is Ok <==> apps_compatible(self.current_view(), other.current_view()) && apps_compatible(
                self.main_view(),
                other.main_view(),
            ),
    {
        self.current.conflicts(&other.current)?;
        self.main.conflicts(&other.main)
    }

    /// Takes over the archetype queries of `other`. The component and
    /// resource accesses stay as they are.
    pub fn extend(&mut self, other: WorldAccess)
        ensures
            final(self).current_view().archetypes@ == old(self).current_view().archetypes@ + other.current_view().archetypes@,
            final(self).main_view().archetypes@ == old(self).main_view().archetypes@ + other.main_view().archetypes@,
            final(self).current_view().components == old(self).current_view().components,
            final(self).current_view().resources == old(self).current_view().resources,
            final(self).main_view().components == old(self).main_view().components,
            final(self).main_view().resources == old(self).main_view().resources,
    {
        let WorldAccess { current, main } = other;
        let mut current_archetypes = current.archetypes;
        let mut main_archetypes = main.archetypes;
        self.current.archetypes.append(&mut current_archetypes);
        self.main.archetypes.append(&mut main_archetypes);
    }
}

impl Default for WorldAccess {
    fn default() -> (r: WorldAccess)
        ensures
            r.wf(),
            r.current_view().archetypes@ == Seq::<ArchetypeAccess>::empty(),
            r.main_view().archetypes@ == Seq::<ArchetypeAccess>::empty(),
    {
        Self::new()
    }
}

} // verus!
