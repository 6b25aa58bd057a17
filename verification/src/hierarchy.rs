use crate::world::component::Component;
use crate::world::entity::{entity_lt, Entity};
use vstd::prelude::*;

verus! {

broadcast use vstd::seq_lib::group_to_multiset_ensures;

/// The parent of an entity; parents order as their entities do.
#[derive(Debug, Clone, Copy, PartialEq, Eq, Structural, Hash, PartialOrd)]
pub struct Parent(Entity);

impl Parent {
    pub closed spec fn entity(self) -> Entity {
        self.0
    }

    /// Replaces the parent, giving back the one it replaced.
    pub fn set(&mut self, entity: Entity) -> (r: Entity)
        ensures
            r == old(self).entity(),
            final(self).entity() == entity,
    {
        let old = self.0;
        self.0 = entity;
        old
    }

    pub fn get(&self) -> (r: Entity)
        ensures
            r == self.entity(),
    {
        self.0
    }
}

/// The parent component naming `e`.
pub closed spec fn parent_of(e: Entity) -> Parent {
    Parent(e)
}

impl From<Entity> for Parent {
    fn from(value: Entity) -> (r: Parent) {
        Parent(value)
    }
}

impl vstd::std_specs::convert::FromSpecImpl<Entity> for Parent {
    open spec fn obeys_from_spec() -> bool {
        true
    }

    open spec fn from_spec(v: Entity) -> Parent {
        parent_of(v)
    }
}

impl core::ops::Deref for Parent {
    type Target = Entity;

    fn deref(&self) -> (r: &Entity)
        ensures
            *r == self.entity(),
    {
        &self.0
    }
}

impl Component for Parent {

}

/// `s` is ordered: no entry orders before an earlier one.
pub open spec fn entities_sorted(s: Seq<Entity>) -> bool {
    forall|i: int, j: int| 0 <= i < j < s.len() ==> !entity_lt(#[trigger] s[j], #[trigger] s[i])
}

/// `s` without the entries that equal the one before them.
pub open spec fn dedup_consecutive(s: Seq<Entity>) -> Seq<Entity>
    decreases s.len(),
{
    if s.len() <= 1 {
        s
    } else if s[s.len() - 1] == s[s.len() - 2] {
        dedup_consecutive(s.drop_last())
    } else {
        dedup_consecutive(s.drop_last()).push(s.last())
    }
}

/// The entries of `s` whose flag in `keep` is set, in order.
pub open spec fn kept(s: Seq<Entity>, keep: Seq<bool>) -> Seq<Entity>
    decreases s.len(),
{
    if s.len() == 0 || keep.len() == 0 {
        Seq::empty()
    } else if keep.last() {
        kept(s.drop_last(), keep.drop_last()).push(s.last())
    } else {
        kept(s.drop_last(), keep.drop_last())
    }
}

/// `out` is what remains of `s` when the entries flagged in `keep` stay,
/// each flag being an answer of the filter in the matching state.
pub open spec fn retained_by<F: FnMut(&Entity) -> bool>(
    s: Seq<Entity>,
    out: Seq<Entity>,
    states: Seq<F>,
    keep: Seq<bool>,
) -> bool {
    &&& states.len() == s.len()
    &&& keep.len() == s.len()
    &&& forall|i: int| 0 <= i < keep.len() ==> call_ensures(#[trigger] states[i], (&s[i],), keep[i])
    &&& out == kept(s, keep)
}

/// The children of an entity, in order.
#[derive(Debug, Clone, Hash)]
pub struct Children(Vec<Entity>);

impl Children {
    pub closed spec fn entities(&self) -> Seq<Entity> {
        self.0@
    }

    pub fn as_slice(&self) -> (r: &[Entity])
        ensures
            r@ == self.entities(),
    {
        self.0.as_slice()
    }

    pub fn get(&self, index: usize) -> (r: Option<Entity>)
        ensures
            r == (if index < self.entities().len() {
                Some(self.entities()[index as int])
            } else {
                None
            }),
    {
        if index < self.0.len() {
            Some(self.0[index])
        } else {
            None
        }
    }

    /// Sorts the children by generation, then by id.
    pub fn sort(&mut self)
        ensures
            entities_sorted(final(self).entities()),
            final(self).entities().to_multiset() == old(self).entities().to_multiset(),
    {
        let mut sorted: Vec<Entity> = Vec::new();
        let mut i: usize = 0;
        while i < self.0.len()
            invariant
                i <= self.0@.len(),
                entities_sorted(sorted@),
                sorted@.to_multiset() == self.0@.take(i as int).to_multiset(),
            decreases self.0@.len() - i,
        {
            let e = self.0[i];
            let mut p: usize = 0;
            while p < sorted.len() && !entity_less(e, sorted[p])
                invariant
                    p <= sorted@.len(),
                    forall|k: int| 0 <= k < p ==> !entity_lt(e, #[trigger] sorted@[k]),
                decreases sorted@.len() - p,
            {
                p = p + 1;
            }
            let ghost before = sorted@;
            sorted.insert(p, e);
            proof {
                let after = sorted@;
                assert(after == before.insert(p as int, e));
                assert forall|a: int, b: int| 0 <= a < b < after.len() implies !entity_lt(#[trigger] after[b], #[trigger] after[a]) by {
                    if b < p {
                        assert(after[a] == before[a] && after[b] == before[b]);
                    } else if b == p {
                        assert(after[a] == before[a]);
                    } else if a < p {
                        assert(after[a] == before[a] && after[b] == before[b - 1]);
                        assert(!entity_lt(e, before[a]));
                        assert(entity_lt(e, before[p as int]));
                        if p < b - 1 {
                            assert(!entity_lt(before[b - 1], before[p as int]));
                        }
                    } else if a == p {
                        assert(after[b] == before[b - 1]);
                        assert(entity_lt(e, before[p as int]));
                        if p < b - 1 {
                            assert(!entity_lt(before[b - 1], before[p as int]));
                        }
                    } else {
                        assert(after[a] == before[a - 1] && after[b] == before[b - 1]);
                    }
                }
                assert(self.0@.take(i + 1) == self.0@.take(i as int).push(e));
                vstd::seq_lib::to_multiset_insert(before, p as int, e);
            }
            i = i + 1;
        }
        proof {
            assert(self.0@.take(self.0@.len() as int) == self.0@);
        }
        self.0 = sorted;
    }

    /// Sorts the children with `compare`, keeping children that compare
    /// equal in their order. `compare` must answer as a total order and be
    /// callable on any two entities.
    pub fn sort_by<F: FnMut(&Entity, &Entity) -> core::cmp::Ordering>(&mut self, compare: F)
        requires
            total_order_by(compare),
            forall|a: &Entity, b: &Entity| #[trigger] call_requires(compare, (a, b)),
        ensures
            final(self).entities().to_multiset() == old(self).entities().to_multiset(),
            stably_sorted(compare, old(self).entities(), final(self).entities()),
    {
        vec_sort_by(&mut self.0, compare);
    }

    pub fn contains(&self, child: Entity) -> (r: bool)
        ensures
            r == self.entities().contains(child),
    {
        let mut i: usize = 0;
        while i < self.0.len()
            invariant
                i <= self.0@.len(),
                forall|k: int| 0 <= k < i ==> #[trigger] self.0@[k] != child,
            decreases self.0@.len() - i,
        {
            if self.0[i] == child {
                return true;
            }
            i = i + 1;
        }
        false
    }

    pub fn len(&self) -> (r: usize)
        ensures
            r == self.entities().len(),
    {
        self.0.len()
    }

    pub fn is_empty(&self) -> (r: bool)
        ensures
            r <==> self.entities().len() == 0,
    {
        self.0.is_empty()
    }

    pub fn push(&mut self, child: Entity)
        ensures
            final(self).entities() == old(self).entities().push(child),
    {
        self.0.push(child);
    }

    /// Inserts `children` before position `index`.
    pub fn insert(&mut self, index: usize, children: Vec<Entity>)
        requires
            index <= old(self).entities().len(),
        ensures
            final(self).entities() == old(self).entities().take(index as int) + children@ + old(
                self,
            ).entities().skip(index as int),
    {
        let ghost start = self.0@;
        let mut k: usize = 0;
        while k < children.len()
            invariant
                index <= start.len(),
                k <= children@.len(),
                self.0@.len() == start.len() + k,
                self.0@ == start.take(index as int) + children@.take(k as int) + start.skip(index as int),
            decreases children@.len() - k,
        {
            let len = self.0.len();
            assert(index + k <= len);
            self.0.insert(index + k, children[k]);
            proof {
                assert(self.0@ =~= start.take(index as int) + children@.take(k + 1) + start.skip(index as int));
            }
            k = k + 1;
        }
        proof {
            assert(children@.take(children@.len() as int) == children@);
        }
    }

    /// Removes the first occurrence of `child`; tells whether there was one.
    pub fn remove(&mut self, child: Entity) -> (r: bool)
        ensures
            r == old(self).entities().contains(child),
            !r ==> final(self).entities() == old(self).entities(),
            r ==> exists|i: int|
                0 <= i < old(self).entities().len() && old(self).entities()[i] == child && (forall|k: int|
                    0 <= k < i ==> #[trigger] old(self).entities()[k] != child) && final(self).entities()
                    == old(self).entities().remove(i),
    {
        let mut i: usize = 0;
        while i < self.0.len()
            invariant
                self.0@ == old(self).0@,
                i <= self.0@.len(),
                forall|k: int| 0 <= k < i ==> #[trigger] self.0@[k] != child,
            decreases self.0@.len() - i,
        {
            if self.0[i] == child {
                proof {
                    assert(old(self).entities()[i as int] == child);
                }
                self.0.remove(i);
                return true;
            }
            i = i + 1;
        }
        false
    }

    /// Keeps the children for which `f` answers `true`, asking it about each
    /// child once, in order.
    pub fn retain<F: FnMut(&Entity) -> bool>(&mut self, mut f: F)
        requires
            forall|e: &Entity| #[trigger] call_requires(f, (e,)),
        ensures
            exists|states: Seq<F>, keep: Seq<bool>|
                #[trigger] retained_by(old(self).entities(), final(self).entities(), states, keep),
            exists|keep: Seq<bool>|
                #[trigger] kept(old(self).entities(), keep) == final(self).entities() && keep.len()
                    == old(self).entities().len() && forall|i: int|
                    0 <= i < keep.len() ==> call_ensures(f, (&old(self).entities()[i],), #[trigger] keep[i]),
    {
        let ghost start = self.0@;
        let ghost f0 = f;
        let mut result: Vec<Entity> = Vec::new();
        let ghost mut states: Seq<F> = Seq::empty();
        let ghost mut keep: Seq<bool> = Seq::empty();
        let mut i: usize = 0;
        while i < self.0.len()
            invariant
                self.0@ == start,
                i <= start.len(),
                states.len() == i,
                keep.len() == i,
                forall|e: &Entity| #[trigger] call_requires(f, (e,)),
                forall|k: int| 0 <= k < i ==> call_ensures(#[trigger] states[k], (&start[k],), keep[k]),
                forall|k: int| 0 <= k < i ==> #[trigger] states[k] == f,
                f == f0,
                result@ == kept(start.take(i as int), keep),
            decreases start.len() - i,
        {
            let e = &self.0[i];
            let ghost old_keep = keep;
            let ghost old_result = result@;
            proof {
                states = states.push(f);
            }
            let answer = f(e);
            proof {
                keep = keep.push(answer);
                assert(start.take(i + 1).drop_last() == start.take(i as int));
                assert(keep.drop_last() == old_keep);
                assert(start.take(i + 1).last() == start[i as int]);
            }
            if answer {
                result.push(*e);
            }
            proof {
                assert(kept(start.take(i + 1), keep) == if answer {
                    kept(start.take(i as int), old_keep).push(start[i as int])
                } else {
                    kept(start.take(i as int), old_keep)
                });
                assert(result@ == kept(start.take(i + 1), keep));
                assert forall|k: int| 0 <= k < i + 1 implies call_ensures(#[trigger] states[k], (&start[k],), keep[k]) by {
                    if k < i {
                        assert(states[k] == states.drop_last()[k]);
                    }
                }
            }
            i = i + 1;
        }
        proof {
            assert(start.take(start.len() as int) == start);
            assert(states.len() == start.len() && keep.len() == start.len());
        }
        self.0 = result;
        proof {
            assert(retained_by(start, self.0@, states, keep));
            assert(start == old(self).entities());
            assert(retained_by(old(self).entities(), self.entities(), states, keep));
            assert(kept(old(self).entities(), keep) == self.entities());
            assert forall|k: int| 0 <= k < keep.len() implies call_ensures(f0, (&old(self).entities()[k],), #[trigger] keep[k]) by {
                assert(states[k] == f0);
            }
        }
    }
}

/// Whether every answer that `compare` may give for `(a, b)` puts `a`
/// no later than `b`: `Less` or `Equal`.
pub open spec fn not_after<F: FnMut(&Entity, &Entity) -> core::cmp::Ordering>(
    compare: F,
    a: Entity,
    b: Entity,
) -> bool {
    forall|o: core::cmp::Ordering| #[trigger] call_ensures(compare, (&a, &b), o) ==> !(o is Greater)
}

/// The answer for `(b, a)` that matches `o` for `(a, b)`.
pub open spec fn flipped(o: core::cmp::Ordering) -> core::cmp::Ordering {
    match o {
        core::cmp::Ordering::Less => core::cmp::Ordering::Greater,
        core::cmp::Ordering::Equal => core::cmp::Ordering::Equal,
        core::cmp::Ordering::Greater => core::cmp::Ordering::Less,
    }
}

/// Whether the answers of `compare` form a total order: each pair gets one
/// answer, the answer for `(b, a)` is the reverse of that for `(a, b)`, and
/// "no later than" is total and transitive.
pub open spec fn total_order_by<F: FnMut(&Entity, &Entity) -> core::cmp::Ordering>(compare: F) -> bool {
    &&& forall|a: Entity, b: Entity, o1: core::cmp::Ordering, o2: core::cmp::Ordering|
        #[trigger] call_ensures(compare, (&a, &b), o1) && #[trigger] call_ensures(compare, (&a, &b), o2)
            ==> o1 == o2
    &&& forall|a: Entity, b: Entity, o: core::cmp::Ordering, p: core::cmp::Ordering|
        #[trigger] call_ensures(compare, (&a, &b), o) && #[trigger] call_ensures(compare, (&b, &a), p)
            ==> p == flipped(o)
    &&& forall|a: Entity, b: Entity| #[trigger] not_after(compare, a, b) || not_after(compare, b, a)
    &&& forall|a: Entity, b: Entity, c: Entity|
        #[trigger] not_after(compare, a, b) && #[trigger] not_after(compare, b, c) ==> not_after(compare, a, c)
}

/// Whether `after` is `before` reordered by `perm` (entry `i` of `after` is
/// entry `perm[i]` of `before`, each taken once), sorted by `compare`, with
/// entries that compare equal left in their order.
pub open spec fn stably_placed<F: FnMut(&Entity, &Entity) -> core::cmp::Ordering>(
    compare: F,
    before: Seq<Entity>,
    after: Seq<Entity>,
    perm: Seq<int>,
) -> bool {
    &&& before.len() == after.len()
    &&& perm.len() == after.len()
    &&& forall|i: int| 0 <= i < perm.len() ==> 0 <= #[trigger] perm[i] < before.len() && after[i] == before[perm[i]]
    &&& forall|i: int, j: int| 0 <= i < j < perm.len() ==> #[trigger] perm[i] != #[trigger] perm[j]
    &&& forall|i: int, j: int|
        0 <= i < j < after.len() ==> not_after(compare, #[trigger] after[i], #[trigger] after[j])
    &&& forall|i: int, j: int|
        0 <= i < j < after.len() && not_after(compare, #[trigger] after[j], #[trigger] after[i]) ==> perm[i]
            < perm[j]
}

/// Whether `after` is the stable sort of `before` by `compare`.
pub open spec fn stably_sorted<F: FnMut(&Entity, &Entity) -> core::cmp::Ordering>(
    compare: F,
    before: Seq<Entity>,
    after: Seq<Entity>,
) -> bool {
    exists|perm: Seq<int>| #[trigger] stably_placed(compare, before, after, perm)
}

/// `slice::sort_by` on a vector of entities, whose comparison answers form
/// a total order and which can be called on any two entities: a stable
/// sort by `compare`. std documents the sort as stable and allows it to
/// panic only when `compare` is not a total order (or itself panics).
#[verifier::external_body]
fn vec_sort_by<F: FnMut(&Entity, &Entity) -> core::cmp::Ordering>(v: &mut Vec<Entity>, compare: F)
    requires
        total_order_by(compare),
        forall|a: &Entity, b: &Entity| #[trigger] call_requires(compare, (a, b)),
    ensures
        final(v)@.to_multiset() == old(v)@.to_multiset(),
        stably_sorted(compare, old(v)@, final(v)@),
{
    v.sort_by(compare)
}

/// Whether `a` orders before `b`: by generation, then by id.
fn entity_less(a: Entity, b: Entity) -> (r: bool)
    ensures
        r == entity_lt(a, b),
{
    a.generation() < b.generation() || (a.generation() == b.generation() && a.id() < b.id())
}

impl Children {
    /// Takes the entities in order, dropping each that repeats the one
    /// before it.
    pub fn from_entities(value: Vec<Entity>) -> (r: Children)
        ensures
            r.entities() == dedup_consecutive(value@),
    {
        let mut children: Vec<Entity> = Vec::new();
        let mut i: usize = 0;
        while i < value.len()
            invariant
                i <= value@.len(),
                children@ == dedup_consecutive(value@.take(i as int)),
                i > 0 ==> children@.len() > 0 && children@.last() == value@[i - 1],
            decreases value@.len() - i,
        {
            let e = value[i];
            proof {
                assert(value@.take(i + 1).drop_last() == value@.take(i as int));
                if i > 0 {
                    assert(value@.take(i + 1)[i - 1] == value@[i - 1]);
                }
            }
            if children.len() == 0 || children[children.len() - 1] != e {
                children.push(e);
            }
            i = i + 1;
        }
        proof {
            assert(value@.take(value@.len() as int) == value@);
        }
        Children(children)
    }
}

impl Children {
    /// The children list holding `value` alone.
    pub fn from_entity(value: Entity) -> (r: Children)
        ensures
            r.entities() == seq![value],
    {
        Children(vec![value])
    }
}

impl Component for Children {

}

/// The hierarchy components that a spawned entity is given when it is
/// finished: a `Parent` when it was spawned under one, and a `Children`
/// holding the children added to it, in the order they were added, when
/// any were.
pub fn finish_components(parent: Option<Entity>, children: Vec<Entity>) -> (r: (
    Option<Parent>,
    Option<Children>,
))
    ensures
        r.0 == (match parent {
            Some(p) => Some(parent_of(p)),
            None => None,
        }),
        r.1 is Some <==> children@.len() > 0,
        r.1 matches Some(c) ==> c.entities() == children@,
{
    let parent = match parent {
        Some(p) => Some(Parent(p)),
        None => None,
    };
    let children = if children.len() > 0 {
        Some(Children(children))
    } else {
        None
    };
    (parent, children)
}

} // verus!
