use crate::bitset::{
    bit_len, bits_of, well_kept, bitset_contains, bitset_grow, bitset_len, bitset_ones, bitset_set,
    bitset_with_capacity,
};
use fixedbitset::FixedBitSet;
use vstd::prelude::*;
use vstd::set_lib::*;

verus! {

/// A cycle found while ordering a graph: each node depends on the one before
/// it, and the last node appears earlier in the list as well.
#[derive(Debug, Clone, PartialEq, Eq)]
pub struct CyclicDependency(pub Vec<usize>);

/// Node `v` depends on node `u`: bit `v` of `u`'s dependents is enabled.
pub open spec fn has_edge(deps: Seq<FixedBitSet>, u: int, v: int) -> bool {
    &&& 0 <= u < deps.len()
    &&& 0 <= v < deps.len()
    &&& bits_of(deps[u]).contains(v as usize)
}

/// The edges of the graph, each as the pair of a node and one of its
/// dependents.
pub open spec fn edge_set(deps: Seq<FixedBitSet>) -> Set<(int, int)> {
    Set::new(|e: (int, int)| has_edge(deps, e.0, e.1))
}

/// Changing the dependents of one node by one dependent adds or removes
/// exactly that edge.
proof fn lemma_edge_set_change(a: Seq<FixedBitSet>, b: Seq<FixedBitSet>, d: int, i: int, add: bool)
    requires
        a.len() == b.len(),
        a.len() <= usize::MAX,
        0 <= d < a.len(),
        0 <= i < a.len(),
        forall|u: int| 0 <= u < a.len() && u != d ==> #[trigger] b[u] == a[u],
        bits_of(b[d]) == (if add {
            bits_of(a[d]).insert(i as usize)
        } else {
            bits_of(a[d]).remove(i as usize)
        }),
    ensures
        edge_set(b) == (if add {
            edge_set(a).insert((d, i))
        } else {
            edge_set(a).remove((d, i))
        }),
{
    let target = if add {
        edge_set(a).insert((d, i))
    } else {
        edge_set(a).remove((d, i))
    };
    assert forall|e: (int, int)| #[trigger] edge_set(b).contains(e) == target.contains(e) by {
        if 0 <= e.0 < a.len() && e.0 != d {
            assert(b[e.0] == a[e.0]);
        }
        if e.0 == d && 0 <= e.1 < a.len() && e.1 != i {
            assert(e.1 as usize != i as usize);
        }
    }
    assert(edge_set(b) =~= target);
}

/// Adding an edge that was not there and then removing it gives back the
/// edges and the dependency counts of before.
pub proof fn law_remove_undoes_add(deps: Seq<FixedBitSet>, counts: Seq<usize>, dependency: int, index: int)
    requires
        !has_edge(deps, dependency, index),
        0 <= index < counts.len(),
        counts[index] < usize::MAX,
    ensures
        edge_set(deps).insert((dependency, index)).remove((dependency, index)) == edge_set(deps),
        ({
            let added = counts.update(index, (counts[index] + 1) as usize);
            added.update(index, (added[index] - 1) as usize) == counts
        }),
{
    assert(edge_set(deps).insert((dependency, index)).remove((dependency, index)) =~= edge_set(deps));
    let added = counts.update(index, (counts[index] + 1) as usize);
    assert(added.update(index, (added[index] - 1) as usize) =~= counts);
}

/// The nodes that `v` depends on.
pub open spec fn dependencies_of(deps: Seq<FixedBitSet>, v: int) -> Set<int> {
    Set::new(|u: int| 0 <= u < deps.len() && has_edge(deps, u, v))
}

/// Changing the dependents of node `d` by dependent `i` changes what `i`
/// depends on, by `d`, and what no other node depends on.
proof fn lemma_dependencies_change(a: Seq<FixedBitSet>, b: Seq<FixedBitSet>, d: int, i: int, add: bool)
    requires
        a.len() == b.len(),
        a.len() <= usize::MAX,
        0 <= d < a.len(),
        0 <= i < a.len(),
        forall|u: int| 0 <= u < a.len() && u != d ==> #[trigger] b[u] == a[u],
        bits_of(b[d]) == (if add {
            bits_of(a[d]).insert(i as usize)
        } else {
            bits_of(a[d]).remove(i as usize)
        }),
    ensures
        forall|v: int|
            #[trigger] dependencies_of(b, v) == (if v == i {
                if add {
                    dependencies_of(a, v).insert(d)
                } else {
                    dependencies_of(a, v).remove(d)
                }
            } else {
                dependencies_of(a, v)
            }),
{
    assert forall|v: int|
        #[trigger] dependencies_of(b, v) == (if v == i {
            if add {
                dependencies_of(a, v).insert(d)
            } else {
                dependencies_of(a, v).remove(d)
            }
        } else {
            dependencies_of(a, v)
        }) by {
        let target = if v == i {
            if add {
                dependencies_of(a, v).insert(d)
            } else {
                dependencies_of(a, v).remove(d)
            }
        } else {
            dependencies_of(a, v)
        };
        assert forall|u: int| #[trigger] dependencies_of(b, v).contains(u) == target.contains(u) by {
            if 0 <= u < a.len() && u != d {
                assert(b[u] == a[u]);
            }
            if u == d && 0 <= v < a.len() && v != i {
                assert(v as usize != i as usize);
            }
        }
        assert(dependencies_of(b, v) =~= target);
    }
}

/// Every dependent recorded for a node is itself a node.
pub open spec fn edges_in_range(deps: Seq<FixedBitSet>) -> bool {
    forall|u: int|
        0 <= u < deps.len() ==> well_kept(#[trigger] deps[u]) && bit_len(deps[u]) <= deps.len()
}

/// `order` lists every node once, each before all of its dependents.
pub open spec fn is_topological_order(order: Seq<usize>, deps: Seq<FixedBitSet>) -> bool {
    &&& order.len() == deps.len()
    &&& order.no_duplicates()
    &&& forall|i: int| 0 <= i < order.len() ==> #[trigger] order[i] < deps.len()
    &&& forall|i: int, j: int|
        0 <= i < order.len() && 0 <= j < order.len() && has_edge(deps, #[trigger] order[i] as int, #[trigger] order[j] as int)
            ==> i < j
}

/// `cycle` is a path along dependencies whose last node appears earlier on
/// it.
pub open spec fn is_cycle(cycle: Seq<usize>, deps: Seq<FixedBitSet>) -> bool {
    &&& cycle.len() >= 2
    &&& forall|j: int| 0 <= j < cycle.len() - 1 ==> has_edge(deps, #[trigger] cycle[j] as int, cycle[j + 1] as int)
    &&& exists|j: int| 0 <= j < cycle.len() - 1 && #[trigger] cycle[j] == cycle.last()
}

/// The number of `false` entries.
pub open spec fn count_unset(s: Seq<bool>) -> nat
    decreases s.len(),
{
    if s.len() == 0 {
        0
    } else {
        count_unset(s.drop_last()) + if s.last() {
            0nat
        } else {
            1nat
        }
    }
}

proof fn lemma_count_unset_update(s: Seq<bool>, i: int, b: bool)
    requires
        0 <= i < s.len(),
    ensures
        count_unset(s.update(i, b)) + (if s[i] { 0int } else { 1int }) == count_unset(s) + (if b {
            0int
        } else {
            1int
        }),
    decreases s.len(),
{
    let t = s.update(i, b);
    if i == s.len() - 1 {
        assert(t.drop_last() =~= s.drop_last());
    } else {
        assert(t.drop_last() =~= s.drop_last().update(i, b));
        lemma_count_unset_update(s.drop_last(), i, b);
    }
}

proof fn lemma_count_unset_bounds(s: Seq<bool>)
    ensures
        count_unset(s) <= s.len(),
        (forall|i: int| 0 <= i < s.len() ==> !#[trigger] s[i]) ==> count_unset(s) == s.len(),
        (forall|i: int| 0 <= i < s.len() ==> #[trigger] s[i]) ==> count_unset(s) == 0,
        count_unset(s) == 0 ==> (forall|i: int| 0 <= i < s.len() ==> #[trigger] s[i]),
    decreases s.len(),
{
    if s.len() > 0 {
        let d = s.drop_last();
        lemma_count_unset_bounds(d);
        assert forall|i: int| 0 <= i < d.len() implies #[trigger] d[i] == s[i] by {}
        if count_unset(s) == 0 {
            assert(count_unset(d) == 0);
            assert(s.last());
            assert forall|i: int| 0 <= i < s.len() implies #[trigger] s[i] by {
                if i < d.len() {
                    assert(d[i]);
                }
            }
        }
        if forall|i: int| 0 <= i < s.len() ==> !#[trigger] s[i] {
            assert(!s[s.len() - 1]);
            assert forall|i: int| 0 <= i < d.len() implies !#[trigger] d[i] by {
                assert(!s[i]);
            }
        }
        if forall|i: int| 0 <= i < s.len() ==> #[trigger] s[i] {
            assert(s[s.len() - 1]);
            assert forall|i: int| 0 <= i < d.len() implies #[trigger] d[i] by {
                assert(s[i]);
            }
        }
    }
}

proof fn lemma_count_unset_grows(s: Seq<bool>, t: Seq<bool>)
    requires
        s.len() == t.len(),
        forall|i: int| 0 <= i < s.len() && #[trigger] s[i] ==> t[i],
    ensures
        count_unset(t) <= count_unset(s),
    decreases s.len(),
{
    if s.len() > 0 {
        assert forall|i: int| 0 <= i < s.drop_last().len() && #[trigger] s.drop_last()[i] implies t.drop_last()[i] by {
            assert(s[i]);
        }
        lemma_count_unset_grows(s.drop_last(), t.drop_last());
    }
}

/// Colouring of a depth-first search over `deps`: `visited` nodes are
/// finished unless they are on the `stack`; `order` lists the finished nodes,
/// each after all of its dependents.
pub open spec fn search_state(
    deps: Seq<FixedBitSet>,
    visited: Seq<bool>,
    stack: Seq<bool>,
    order: Seq<usize>,
) -> bool {
    let n = deps.len();
    &&& n <= usize::MAX
    &&& visited.len() == n
    &&& stack.len() == n
    &&& edges_in_range(deps)
    &&& forall|i: int| 0 <= i < n && #[trigger] stack[i] ==> visited[i]
    &&& order.no_duplicates()
    &&& forall|j: int|
        0 <= j < order.len() ==> #[trigger] order[j] < n && visited[order[j] as int] && !stack[order[j] as int]
    &&& forall|i: int| 0 <= i < n && #[trigger] visited[i] && !stack[i] ==> order.contains(i as usize)
    &&& forall|u: int, w: int|
        0 <= u < n && #[trigger] visited[u] && !stack[u] && #[trigger] has_edge(deps, u, w) ==> w < n
            && visited[w] && !stack[w]
    &&& forall|a: int, b: int|
        0 <= a < order.len() && 0 <= b < order.len() && has_edge(deps, #[trigger] order[a] as int, #[trigger] order[b] as int)
            ==> b < a
    &&& order.len() + count_unset(visited) == count_unset(stack)
}

/// Whether `s` lists the members of `set` in increasing order.
pub open spec fn lists_in_order(s: Seq<usize>, set: Set<usize>) -> bool {
    &&& forall|i: int, j: int| 0 <= i < j < s.len() ==> s[i] < s[j]
    &&& forall|x: usize| #[trigger] set.contains(x) <==> s.contains(x)
}

/// The members of `set` in increasing order.
pub open spec fn ascending(set: Set<usize>) -> Seq<usize> {
    choose|s: Seq<usize>| lists_in_order(s, set)
}

/// Two increasing lists of the same members are the same list.
proof fn lemma_lists_in_order_unique(a: Seq<usize>, b: Seq<usize>, set: Set<usize>)
    requires
        lists_in_order(a, set),
        lists_in_order(b, set),
    ensures
        a == b,
    decreases a.len(),
{
    if a.len() > 0 && b.len() > 0 {
        assert(set.contains(a[0])) by {
            assert(a.contains(a[0]));
        }
        assert(set.contains(b[0])) by {
            assert(b.contains(b[0]));
        }
        let ia = choose|i: int| 0 <= i < a.len() && a[i] == b[0];
        let ib = choose|i: int| 0 <= i < b.len() && b[i] == a[0];
        assert(a.contains(b[0]));
        assert(b.contains(a[0]));
        if ia > 0 {
            assert(a[0] < a[ia]);
            if ib > 0 {
                assert(b[0] < b[ib]);
            }
        }
        assert(a[0] == b[0]);
        let rest = set.remove(a[0]);
        let ta = a.drop_first();
        let tb = b.drop_first();
        assert forall|x: usize| #[trigger] rest.contains(x) <==> ta.contains(x) by {
            if rest.contains(x) {
                assert(a.contains(x));
                let i = choose|i: int| 0 <= i < a.len() && a[i] == x;
                assert(i != 0);
                assert(ta[i - 1] == x);
            }
            if ta.contains(x) {
                let i = choose|i: int| 0 <= i < ta.len() && ta[i] == x;
                assert(a[i + 1] == x);
                assert(a[0] < a[i + 1]);
            }
        }
        assert forall|x: usize| #[trigger] rest.contains(x) <==> tb.contains(x) by {
            if rest.contains(x) {
                assert(b.contains(x));
                let i = choose|i: int| 0 <= i < b.len() && b[i] == x;
                assert(i != 0);
                assert(tb[i - 1] == x);
            }
            if tb.contains(x) {
                let i = choose|i: int| 0 <= i < tb.len() && tb[i] == x;
                assert(b[i + 1] == x);
                assert(b[0] < b[i + 1]);
            }
        }
        lemma_lists_in_order_unique(ta, tb, rest);
        assert(a =~= seq![a[0]] + ta);
        assert(b =~= seq![b[0]] + tb);
        assert(a =~= b);
    } else if a.len() > 0 {
        assert(a.contains(a[0]));
        assert(set.contains(a[0]));
        assert(!b.contains(a[0]));
    } else if b.len() > 0 {
        assert(b.contains(b[0]));
        assert(set.contains(b[0]));
        assert(!a.contains(b[0]));
    } else {
        assert(a =~= b);
    }
}

/// What the depth-first search from `index` leaves, given the visited
/// marks, the marks of the nodes on the search path and the finished
/// nodes: a node on the path ends the search with the path to it (deepest
/// node first, `index` last); a visited node is passed over; any other node
/// is marked and its dependents searched in increasing order before it is
/// finished. `fuel` bounds the depth; it is enough when it is at least the
/// number of unvisited nodes.
pub open spec fn dfs_node(
    deps: Seq<FixedBitSet>,
    visited: Seq<bool>,
    stack: Seq<bool>,
    order: Seq<usize>,
    index: usize,
    fuel: nat,
) -> (Seq<bool>, Seq<bool>, Seq<usize>, Option<Seq<usize>>)
    decreases fuel, 0nat,
{
    if stack[index as int] {
        (visited, stack, order, Some(seq![index]))
    } else if visited[index as int] {
        (visited, stack, order, None)
    } else if fuel == 0 {
        (visited, stack, order, None)
    } else {
        dfs_kids(
            deps,
            visited.update(index as int, true),
            stack.update(index as int, true),
            order,
            index,
            ascending(bits_of(deps[index as int])),
            (fuel - 1) as nat,
        )
    }
}

/// The search from each of `kids` in turn, then `parent` is finished, as
/// `dfs_node` describes.
pub open spec fn dfs_kids(
    deps: Seq<FixedBitSet>,
    visited: Seq<bool>,
    stack: Seq<bool>,
    order: Seq<usize>,
    parent: usize,
    kids: Seq<usize>,
    fuel: nat,
) -> (Seq<bool>, Seq<bool>, Seq<usize>, Option<Seq<usize>>)
    decreases fuel, kids.len(),
{
    if kids.len() == 0 {
        (visited, stack.update(parent as int, false), order.push(parent), None)
    } else {
        let (v, st, o, found) = dfs_node(deps, visited, stack, order, kids[0], fuel);
        match found {
            Some(path) => (v, st, o, Some(path.push(parent))),
            None => dfs_kids(deps, v, st, o, parent, kids.drop_first(), fuel),
        }
    }
}

/// The search started from each node from `start` on that is not visited
/// yet, in increasing order, until one finds a path back onto itself.
pub open spec fn dfs_roots(
    deps: Seq<FixedBitSet>,
    visited: Seq<bool>,
    stack: Seq<bool>,
    order: Seq<usize>,
    start: nat,
) -> (Seq<bool>, Seq<bool>, Seq<usize>, Option<Seq<usize>>)
    decreases deps.len() - start,
{
    if start >= deps.len() {
        (visited, stack, order, None)
    } else if visited[start as int] {
        dfs_roots(deps, visited, stack, order, start + 1)
    } else {
        let (v, st, o, found) = dfs_node(deps, visited, stack, order, start as usize, deps.len());
        match found {
            Some(path) => (v, st, o, Some(path)),
            None => dfs_roots(deps, v, st, o, start + 1),
        }
    }
}

/// The outcome of the whole search over `deps`: the finished nodes in the
/// order they were finished, or the path found back onto the search path.
pub open spec fn dfs_outcome(deps: Seq<FixedBitSet>) -> (Seq<usize>, Option<Seq<usize>>) {
    let n = deps.len();
    let r = dfs_roots(deps, Seq::new(n, |i: int| false), Seq::new(n, |i: int| false), Seq::empty(), 0);
    (r.2, r.3)
}

/// The path that a search step gave back, if any.
pub open spec fn found_path(r: Result<(), Vec<usize>>) -> Option<Seq<usize>> {
    match r {
        Ok(_) => None,
        Err(path) => Some(path@),
    }
}

/// Visits `index` and, depth first, everything that depends on it, adding
/// each node to `order` once all of its dependents are there. Reaching a node
/// that is still on the stack gives back the path to it, deepest node first.
fn visit(
    index: usize,
    dependents: &Vec<FixedBitSet>,
    visited: &mut Vec<bool>,
    recursion_stack: &mut Vec<bool>,
    order: &mut Vec<usize>,
) -> (r: Result<(), Vec<usize>>)
    requires
        index < dependents@.len(),
        search_state(dependents@, old(visited)@, old(recursion_stack)@, old(order)@),
    ensures
        count_unset(final(visited)@) <= count_unset(old(visited)@),
        final(visited)@.len() == old(visited)@.len(),
        r is Ok ==> {
            &&& search_state(dependents@, final(visited)@, final(recursion_stack)@, final(order)@)
            &&& final(recursion_stack)@ == old(recursion_stack)@
            &&& forall|i: int| 0 <= i < old(visited)@.len() && #[trigger] old(visited)@[i] ==> final(visited)@[i]
            &&& final(visited)@[index as int]
            &&& !final(recursion_stack)@[index as int]
        },
        r matches Err(path) ==> {
            &&& path@.len() >= 1
            &&& path@.last() == index
            &&& forall|j: int|
                0 <= j < path@.len() - 1 ==> has_edge(dependents@, #[trigger] path@[j + 1] as int, path@[j] as int)
            &&& (old(recursion_stack)@[path@[0] as int] || exists|j: int|
                1 <= j < path@.len() && #[trigger] path@[j] == path@[0])
            &&& path@[0] < dependents@.len()
        },
        forall|fuel: nat|
            fuel >= count_unset(old(visited)@) ==> #[trigger] dfs_node(
                dependents@,
                old(visited)@,
                old(recursion_stack)@,
                old(order)@,
                index,
                fuel,
            ) == (final(visited)@, final(recursion_stack)@, final(order)@, found_path(r)),
    decreases count_unset(old(visited)@),
{
    if recursion_stack[index] {
        let path = vec![index];
        proof {
            assert(path@ =~= seq![index]);
        }
        return Err(path);
    }

    if visited[index] {
        return Ok(());
    }

    let ghost n = dependents@.len();
    let ghost start_visited = visited@;
    let ghost start_stack = recursion_stack@;
    proof {
        lemma_count_unset_update(visited@, index as int, true);
        lemma_count_unset_update(recursion_stack@, index as int, true);
    }
    visited.set(index, true);
    recursion_stack.set(index, true);

    let ones = bitset_ones(&dependents[index]);
    let ghost v1 = visited@;
    let ghost s1 = recursion_stack@;
    let ghost o0 = order@;
    proof {
        assert(well_kept(dependents@[index as int]));
        let set = bits_of(dependents@[index as int]);
        assert(lists_in_order(ones@, set));
        assert(lists_in_order(ascending(set), set));
        lemma_lists_in_order_unique(ones@, ascending(set), set);
        assert(ones@.skip(0) =~= ones@);
        assert(v1 == start_visited.update(index as int, true));
        assert(count_unset(v1) + 1 == count_unset(start_visited));
    }
    let mut k: usize = 0;
    while k < ones.len()
        invariant
            o0 == old(order)@,
            v1 == start_visited.update(index as int, true),
            s1 == start_stack.update(index as int, true),
            count_unset(v1) + 1 == count_unset(start_visited),
            count_unset(visited@) <= count_unset(v1),
            ones@ == ascending(bits_of(dependents@[index as int])),
            forall|fuel: nat|
                fuel >= count_unset(v1) ==> #[trigger] dfs_kids(dependents@, v1, s1, o0, index, ones@, fuel)
                    == dfs_kids(dependents@, visited@, recursion_stack@, order@, index, ones@.skip(k as int), fuel),
            index < n,
            n == dependents@.len(),
            start_visited == old(visited)@,
            start_stack == old(recursion_stack)@,
            start_visited.len() == n,
            start_stack.len() == n,
            !start_visited[index as int],
            !start_stack[index as int],
            search_state(dependents@, visited@, recursion_stack@, order@),
            recursion_stack@ == start_stack.update(index as int, true),
            visited@[index as int],
            forall|i: int| 0 <= i < n && #[trigger] start_visited[i] ==> visited@[i],
            count_unset(visited@) < count_unset(start_visited),
            k <= ones@.len(),
            forall|i: usize| #[trigger] bits_of(dependents@[index as int]).contains(i) <==> ones@.contains(i),
            forall|j: int|
                0 <= j < k ==> #[trigger] ones@[j] < n && visited@[ones@[j] as int] && !recursion_stack@[ones@[j] as int],
        decreases ones@.len() - k,
    {
        let dependent = ones[k];
        proof {
            assert(ones@.contains(dependent));
            assert(bits_of(dependents@[index as int]).contains(dependent));
        }
        let ghost vk = visited@;
        let ghost sk = recursion_stack@;
        let ghost ok = order@;
        proof {
            assert(ones@.skip(k as int)[0] == dependent);
        }
        let result = visit(dependent, dependents, visited, recursion_stack, order);
        if let Err(mut cycle) = result {
            let ghost inner = cycle@;
            cycle.push(index);
            proof {
                assert(cycle@ == inner.push(index));
                assert forall|fuel: nat| fuel >= count_unset(start_visited) implies #[trigger] dfs_node(
                    dependents@,
                    start_visited,
                    start_stack,
                    o0,
                    index,
                    fuel,
                ) == (visited@, recursion_stack@, order@, Some(cycle@)) by {
                    let f1 = (fuel - 1) as nat;
                    assert(dfs_node(dependents@, start_visited, start_stack, o0, index, fuel) == dfs_kids(
                        dependents@,
                        v1,
                        s1,
                        o0,
                        index,
                        ones@,
                        f1,
                    ));
                    assert(dfs_kids(dependents@, v1, s1, o0, index, ones@, f1) == dfs_kids(
                        dependents@,
                        vk,
                        sk,
                        ok,
                        index,
                        ones@.skip(k as int),
                        f1,
                    ));
                    assert(dfs_node(dependents@, vk, sk, ok, dependent, f1) == (
                        visited@,
                        recursion_stack@,
                        order@,
                        Some(inner),
                    ));
                }
                assert forall|j: int|
                    0 <= j < cycle@.len() - 1 implies has_edge(dependents@, #[trigger] cycle@[j + 1] as int, cycle@[j] as int) by {
                    if j < inner.len() - 1 {
                        assert(cycle@[j + 1] == inner[j + 1]);
                        assert(cycle@[j] == inner[j]);
                    } else {
                        assert(cycle@[j + 1] == index);
                        assert(cycle@[j] == dependent);
                    }
                }
                if !start_stack[cycle@[0] as int] {
                    if inner[0] == index {
                        assert(cycle@[inner.len() as int] == cycle@[0]);
                    } else {
                        let j = choose|j: int| 1 <= j < inner.len() && #[trigger] inner[j] == inner[0];
                        assert(cycle@[j] == cycle@[0]);
                    }
                }
            }
            return Err(cycle);
        }
        proof {
            assert forall|j: int|
                0 <= j < k + 1 implies #[trigger] ones@[j] < n && visited@[ones@[j] as int] && !recursion_stack@[ones@[j] as int] by {}
            assert(ones@.skip(k as int).drop_first() =~= ones@.skip(k + 1));
            assert forall|fuel: nat| fuel >= count_unset(v1) implies #[trigger] dfs_kids(
                dependents@,
                v1,
                s1,
                o0,
                index,
                ones@,
                fuel,
            ) == dfs_kids(dependents@, visited@, recursion_stack@, order@, index, ones@.skip(k + 1), fuel) by {
                assert(dfs_node(dependents@, vk, sk, ok, dependent, fuel) == (
                    visited@,
                    recursion_stack@,
                    order@,
                    None::<Seq<usize>>,
                ));
            }
        }
        k = k + 1;
    }
    let ghost vl = visited@;
    let ghost sl = recursion_stack@;
    let ghost ol = order@;

    let ghost before_finish = order@;
    let ghost rs_before = recursion_stack@;
    proof {
        lemma_count_unset_update(recursion_stack@, index as int, false);
        assert(start_stack.update(index as int, true).update(index as int, false) =~= start_stack);
        assert(!before_finish.contains(index)) by {
            if before_finish.contains(index) {
                let j = choose|j: int| 0 <= j < before_finish.len() && before_finish[j] == index;
                assert(!recursion_stack@[before_finish[j] as int]);
            }
        }
    }
    recursion_stack.set(index, false);
    order.push(index);
    proof {
        let vis = visited@;
        let st = recursion_stack@;
        let ord = order@;
        assert(ord == before_finish.push(index));
        assert forall|j: int|
            0 <= j < ord.len() implies #[trigger] ord[j] < n && vis[ord[j] as int] && !st[ord[j] as int] by {
            if j < before_finish.len() {
                assert(ord[j] == before_finish[j]);
            }
        }
        assert forall|i: int| 0 <= i < n && #[trigger] vis[i] && !st[i] implies ord.contains(i as usize) by {
            if i == index {
                assert(ord[before_finish.len() as int] == index);
            } else {
                let j = choose|j: int| 0 <= j < before_finish.len() && before_finish[j] == i as usize;
                assert(ord[j] == i as usize);
            }
        }
        assert forall|u: int, w: int|
            0 <= u < n && #[trigger] vis[u] && !st[u] && #[trigger] has_edge(dependents@, u, w) implies w < n && vis[w]
                && !st[w] by {
            if u == index {
                assert(bits_of(dependents@[index as int]).contains(w as usize));
                assert(ones@.contains(w as usize));
                let j = choose|j: int| 0 <= j < ones@.len() && ones@[j] == w as usize;
                assert(ones@[j] < n && visited@[ones@[j] as int] && !rs_before[ones@[j] as int]);
                assert(ones@[j] as int == w);
                assert(w != index);
                assert(st[w] == rs_before[w]);
            } else {
                assert(st[u] == rs_before[u]);
                assert(visited@[u] && !rs_before[u]);
                assert(w < n && visited@[w] && !rs_before[w]);
                assert(w != index);
                assert(st[w] == rs_before[w]);
            }
        }
        assert forall|a: int, b: int|
            0 <= a < ord.len() && 0 <= b < ord.len() && has_edge(dependents@, #[trigger] ord[a] as int, #[trigger] ord[b] as int)
                implies b < a by {
            let last = before_finish.len() as int;
            if a < last && b < last {
                assert(ord[a] == before_finish[a]);
                assert(ord[b] == before_finish[b]);
            } else if a == last && b == last {
                assert(has_edge(dependents@, index as int, index as int));
                assert(bits_of(dependents@[index as int]).contains(index));
                assert(ones@.contains(index));
                let j = choose|j: int| 0 <= j < ones@.len() && ones@[j] == index;
                assert(!rs_before[ones@[j] as int]);
            } else if b == last {
                assert(ord[a] == before_finish[a]);
                let u = before_finish[a] as int;
                assert(vis[u] && !st[u]);
                assert(has_edge(dependents@, u, index as int));
            }
        }
        assert forall|i: int| 0 <= i < n && #[trigger] st[i] implies vis[i] by {}
        assert(ord.no_duplicates()) by {
            assert forall|a: int, b: int| 0 <= a < ord.len() && 0 <= b < ord.len() && a != b implies ord[a] != ord[b] by {
                let last = before_finish.len() as int;
                if a < last && b < last {
                    assert(ord[a] == before_finish[a]);
                    assert(ord[b] == before_finish[b]);
                } else if a == last {
                    assert(ord[b] == before_finish[b]);
                    assert(before_finish.contains(before_finish[b]));
                } else {
                    assert(ord[a] == before_finish[a]);
                    assert(before_finish.contains(before_finish[a]));
                }
            }
        }
    }
    proof {
        assert(ones@.skip(ones@.len() as int) =~= Seq::<usize>::empty());
        assert forall|fuel: nat| fuel >= count_unset(start_visited) implies #[trigger] dfs_node(
            dependents@,
            start_visited,
            start_stack,
            o0,
            index,
            fuel,
        ) == (visited@, recursion_stack@, order@, None::<Seq<usize>>) by {
            let f1 = (fuel - 1) as nat;
            assert(dfs_node(dependents@, start_visited, start_stack, o0, index, fuel) == dfs_kids(
                dependents@,
                v1,
                s1,
                o0,
                index,
                ones@,
                f1,
            ));
            assert(dfs_kids(dependents@, v1, s1, o0, index, ones@, f1) == dfs_kids(
                dependents@,
                vl,
                sl,
                ol,
                index,
                Seq::<usize>::empty(),
                f1,
            ));
        }
    }
    Ok(())
}

/// A directed graph over indexed nodes, with a cached topological order.
pub struct IndexDag<N> {
    nodes: Vec<N>,
    dependents: Vec<FixedBitSet>,
    dependencies: Vec<usize>,
    topology: Vec<usize>,
    is_dirty: bool,
}

impl<N> IndexDag<N> {
    /// The nodes, by index.
    pub closed spec fn node_seq(&self) -> Seq<N> {
        self.nodes@
    }

    /// For each node, the set of nodes that depend on it.
    pub closed spec fn dependent_sets(&self) -> Seq<FixedBitSet> {
        self.dependents@
    }

    /// For each node, how many dependencies were added and not removed.
    pub closed spec fn dependency_counts(&self) -> Seq<usize> {
        self.dependencies@
    }

    /// The last order computed.
    pub closed spec fn topology_seq(&self) -> Seq<usize> {
        self.topology@
    }

    /// Whether the graph changed since it was created.
    pub closed spec fn dirty(&self) -> bool {
        self.is_dirty
    }

    /// Nodes, dependents and counts line up; every dependent is a node; each
    /// count is at least the number of dependencies held; and a graph that
    /// has not changed holds a topological order.
    pub closed spec fn wf(&self) -> bool {
        let deps = self.dependents@;
        &&& self.nodes@.len() == deps.len()
        &&& self.dependencies@.len() == deps.len()
        &&& edges_in_range(deps)
        &&& forall|v: int|
            0 <= v < deps.len() ==> dependencies_of(deps, v).len() <= #[trigger] self.dependencies@[v]
        &&& !self.is_dirty ==> is_topological_order(self.topology@, deps)
    }

    pub fn new() -> (r: Self)
        ensures
            r.wf(),
            r.node_seq() == Seq::<N>::empty(),
            r.dependent_sets() == Seq::<FixedBitSet>::empty(),
            r.dependency_counts() == Seq::<usize>::empty(),
            r.topology_seq() == Seq::<usize>::empty(),
            !r.dirty(),
    {
        let r = IndexDag {
            nodes: Vec::new(),
            dependents: Vec::new(),
            dependencies: Vec::new(),
            topology: Vec::new(),
            is_dirty: false,
        };
        proof {
            assert(r.topology@.no_duplicates());
        }
        r
    }

    pub fn nodes(&self) -> (r: &[N])
        ensures
            r@ == self.node_seq(),
    {
        self.nodes.as_slice()
    }

    pub fn topology(&self) -> (r: &[usize])
        ensures
            r@ == self.topology_seq(),
    {
        self.topology.as_slice()
    }

    pub fn dependents(&self) -> (r: &[FixedBitSet])
        ensures
            r@ == self.dependent_sets(),
    {
        self.dependents.as_slice()
    }

    pub fn dependencies(&self) -> (r: &[usize])
        ensures
            r@ == self.dependency_counts(),
    {
        self.dependencies.as_slice()
    }

    pub fn len(&self) -> (r: usize)
        ensures
            r == self.node_seq().len(),
    {
        self.nodes.len()
    }
}

/// The entries of `v` in reverse order.
fn reversed(v: Vec<usize>) -> (r: Vec<usize>)
    ensures
        r@ == v@.reverse(),
{
    let ghost initial = v@;
    let mut v = v;
    let mut r: Vec<usize> = Vec::new();
    while v.len() > 0
        invariant
            v@ == initial.take(v@.len() as int),
            r@.len() + v@.len() == initial.len(),
            forall|j: int| 0 <= j < r@.len() ==> #[trigger] r@[j] == initial[initial.len() - 1 - j],
        decreases v@.len(),
    {
        let e = v.pop().unwrap();
        r.push(e);
    }
    assert(r@ =~= initial.reverse());
    r
}

/// No graph that holds a cycle has a topological order.
pub proof fn law_cycle_excludes_order(cycle: Seq<usize>, order: Seq<usize>, deps: Seq<FixedBitSet>)
    requires
        is_topological_order(order, deps),
    ensures
        !is_cycle(cycle, deps),
{
    if !is_cycle(cycle, deps) {
        return;
    }
    let n = order.len();
    assert forall|v: int| 0 <= v < n implies #[trigger] order.contains(v as usize) by {
        lemma_permutation_covers(order, n as int, v);
    }
    let pos = |x: usize| choose|i: int| 0 <= i < n && order[i] == x;
    assert forall|j: int| 0 <= j < cycle.len() implies 0 <= #[trigger] pos(cycle[j]) < n && order[pos(cycle[j])]
        == cycle[j] by {
        if j < cycle.len() - 1 {
            assert(has_edge(deps, cycle[j] as int, cycle[j + 1] as int));
        } else {
            assert(has_edge(deps, cycle[j - 1] as int, cycle[j] as int));
        }
        assert(order.contains((cycle[j] as int) as usize));
    }
    assert forall|j: int| 0 <= j < cycle.len() - 1 implies #[trigger] pos(cycle[j]) < pos(cycle[j + 1]) by {
        assert(has_edge(deps, cycle[j] as int, cycle[j + 1] as int));
        let a = pos(cycle[j]);
        let b = pos(cycle[j + 1]);
        assert(has_edge(deps, order[a] as int, order[b] as int));
    }
    let k = choose|j: int| 0 <= j < cycle.len() - 1 && #[trigger] cycle[j] == cycle.last();
    let last = cycle.len() - 1;
    assert forall|m: int| k < m <= last implies pos(cycle[k]) < #[trigger] pos(cycle[m]) by {
        lemma_positions_increase(cycle, pos, k, m);
    }
    assert(pos(cycle[k]) < pos(cycle[last]));
}

proof fn lemma_positions_increase(cycle: Seq<usize>, pos: spec_fn(usize) -> int, k: int, m: int)
    requires
        0 <= k < m < cycle.len(),
        forall|j: int| 0 <= j < cycle.len() - 1 ==> #[trigger] pos(cycle[j]) < pos(cycle[j + 1]),
    ensures
        pos(cycle[k]) < pos(cycle[m]),
    decreases m - k,
{
    if m > k + 1 {
        lemma_positions_increase(cycle, pos, k, m - 1);
        assert(pos(cycle[m - 1]) < pos(cycle[m]));
    }
}

/// A duplicate-free list of `n` entries below `n` holds every value below
/// `n`.
proof fn lemma_permutation_covers(order: Seq<usize>, n: int, v: int)
    requires
        order.len() == n,
        order.no_duplicates(),
        forall|i: int| 0 <= i < order.len() ==> #[trigger] order[i] < n,
        0 <= v < n,
    ensures
        order.contains(v as usize),
{
    if !order.contains(v as usize) {
        let s = order.to_set();
        order.unique_seq_to_set();
        let ti = set_int_range(0, n).remove(v);
        lemma_int_range(0, n);
        let u = ti.map(|i: int| i as usize);
        vstd::set_lib::lemma_map_size_bound(ti, u, |i: int| i as usize);
        assert forall|x: usize| #[trigger] s.contains(x) implies u.contains(x) by {
            let k = choose|k: int| 0 <= k < order.len() && order[k] == x;
            assert(ti.contains(x as int));
        }
        lemma_len_subset(s, u);
    }
}

impl<N> IndexDag<N> {
    pub fn add_node(&mut self, node: N) -> (r: usize)
        requires
            old(self).wf(),
        ensures
            final(self).wf(),
            r == old(self).node_seq().len(),
            final(self).node_seq() == old(self).node_seq().push(node),
            final(self).dependency_counts() == old(self).dependency_counts().push(0),
            final(self).dependent_sets().len() == old(self).dependent_sets().len() + 1,
            forall|u: int|
                0 <= u < old(self).dependent_sets().len() ==> #[trigger] final(self).dependent_sets()[u]
                    == old(self).dependent_sets()[u],
            bits_of(final(self).dependent_sets()[r as int]) == Set::<usize>::empty(),
            bit_len(final(self).dependent_sets()[r as int]) == r,
            final(self).topology_seq() == old(self).topology_seq(),
            final(self).dirty(),
    {
        let index = self.nodes.len();
        let ghost old_deps = self.dependents@;
        self.nodes.push(node);
        self.dependencies.push(0);
        self.dependents.push(bitset_with_capacity(index));
        self.is_dirty = true;
        proof {
            let deps = self.dependents@;
            assert forall|u: int| 0 <= u < deps.len() implies well_kept(#[trigger] deps[u]) && bit_len(deps[u])
                <= deps.len() by {
                if u < old_deps.len() {
                    assert(deps[u] == old_deps[u]);
                }
            }
            assert forall|v: int| 0 <= v < deps.len() implies dependencies_of(deps, v).len()
                <= #[trigger] self.dependencies@[v] by {
                if v < old_deps.len() {
                    assert forall|u: int| #[trigger] dependencies_of(deps, v).contains(u) == dependencies_of(old_deps, v).contains(u) by {
                        if 0 <= u < old_deps.len() {
                            assert(deps[u] == old_deps[u]);
                        }
                    }
                    assert(dependencies_of(deps, v) =~= dependencies_of(old_deps, v));
                } else {
                    assert forall|u: int| !#[trigger] dependencies_of(deps, v).contains(u) by {
                        if 0 <= u < old_deps.len() {
                            assert(deps[u] == old_deps[u]);
                            assert(well_kept(old_deps[u]));
                            if bits_of(deps[u]).contains(v as usize) {
                                assert(v < bit_len(old_deps[u]));
                            }
                        }
                    }
                    assert(dependencies_of(deps, v) =~= Set::<int>::empty());
                }
            }
        }
        index
    }

    pub fn add_dependency(&mut self, dependency: usize, index: usize)
        requires
            old(self).wf(),
            dependency < old(self).node_seq().len(),
            index < old(self).node_seq().len(),
            old(self).dependency_counts()[index as int] < usize::MAX,
        ensures
            final(self).wf(),
            final(self).node_seq() == old(self).node_seq(),
            final(self).dependency_counts() == old(self).dependency_counts().update(
                index as int,
                (old(self).dependency_counts()[index as int] + 1) as usize,
            ),
            final(self).dependent_sets().len() == old(self).dependent_sets().len(),
            forall|u: int|
                0 <= u < old(self).dependent_sets().len() && u != dependency ==> #[trigger] final(self).dependent_sets()[u] == old(self).dependent_sets()[u],
            bits_of(final(self).dependent_sets()[dependency as int]) == bits_of(
                old(self).dependent_sets()[dependency as int],
            ).insert(index),
            bit_len(final(self).dependent_sets()[dependency as int]) == (if index + 1 > bit_len(
                old(self).dependent_sets()[dependency as int],
            ) {
                (index + 1) as usize
            } else {
                bit_len(old(self).dependent_sets()[dependency as int])
            }),
            edge_set(final(self).dependent_sets()) == edge_set(old(self).dependent_sets()).insert(
                (dependency as int, index as int),
            ),
            final(self).topology_seq() == old(self).topology_seq(),
            final(self).dirty(),
    {
        let ghost old_deps = self.dependents@;
        let n = self.nodes.len();
        self.dependencies[index] += 1;
        bitset_grow(&mut self.dependents[dependency], index + 1);
        bitset_set(&mut self.dependents[dependency], index, true);
        self.is_dirty = true;
        proof {
            let deps = self.dependents@;
            lemma_edge_set_change(old_deps, deps, dependency as int, index as int, true);
            assert forall|u: int| 0 <= u < deps.len() implies well_kept(#[trigger] deps[u]) && bit_len(deps[u])
                <= deps.len() by {
                if u != dependency {
                    assert(deps[u] == old_deps[u]);
                }
            }
            lemma_dependencies_change(old_deps, deps, dependency as int, index as int, true);
            assert forall|v: int| 0 <= v < deps.len() implies dependencies_of(deps, v).len()
                <= #[trigger] self.dependencies@[v] by {
                lemma_int_range(0, n as int);
                lemma_len_subset(dependencies_of(old_deps, v), set_int_range(0, n as int));
            }
        }
    }

    pub fn remove_dependency(&mut self, dependency: usize, index: usize) -> (r: bool)
        requires
            old(self).wf(),
            dependency < old(self).node_seq().len(),
        ensures
            final(self).wf(),
            r == has_edge(old(self).dependent_sets(), dependency as int, index as int),
            final(self).node_seq() == old(self).node_seq(),
            final(self).topology_seq() == old(self).topology_seq(),
            !r ==> *final(self) == *old(self),
            r ==> {
                &&& final(self).dependency_counts() == old(self).dependency_counts().update(
                    index as int,
                    (old(self).dependency_counts()[index as int] - 1) as usize,
                )
                &&& final(self).dependent_sets().len() == old(self).dependent_sets().len()
                &&& forall|u: int|
                    0 <= u < old(self).dependent_sets().len() && u != dependency ==> #[trigger] final(self).dependent_sets()[u] == old(self).dependent_sets()[u]
                &&& bits_of(final(self).dependent_sets()[dependency as int]) == bits_of(
                    old(self).dependent_sets()[dependency as int],
                ).remove(index)
                &&& bit_len(final(self).dependent_sets()[dependency as int]) == bit_len(
                    old(self).dependent_sets()[dependency as int],
                )
                &&& edge_set(final(self).dependent_sets()) == edge_set(old(self).dependent_sets()).remove(
                    (dependency as int, index as int),
                )
                &&& final(self).dirty()
            },
    {
        let ghost old_deps = self.dependents@;
        let n = self.nodes.len();
        if index < bitset_len(&self.dependents[dependency]) && bitset_contains(&self.dependents[dependency], index) {
            proof {
                let before = dependencies_of(old_deps, index as int);
                lemma_int_range(0, n as int);
                lemma_len_subset(before, set_int_range(0, n as int));
                assert(before.contains(dependency as int));
                assert(before.remove(dependency as int).len() + 1 == before.len());
                assert(self.dependencies@[index as int] >= 1);
            }
            bitset_set(&mut self.dependents[dependency], index, false);
            self.dependencies[index] -= 1;
            self.is_dirty = true;
            proof {
                let deps = self.dependents@;
                assert(index < bit_len(old_deps[dependency as int]));
                lemma_edge_set_change(old_deps, deps, dependency as int, index as int, false);
                assert forall|u: int| 0 <= u < deps.len() implies well_kept(#[trigger] deps[u]) && bit_len(deps[u])
                    <= deps.len() by {
                    if u != dependency {
                        assert(deps[u] == old_deps[u]);
                    }
                }
                lemma_dependencies_change(old_deps, deps, dependency as int, index as int, false);
                assert forall|v: int| 0 <= v < deps.len() implies dependencies_of(deps, v).len()
                    <= #[trigger] self.dependencies@[v] by {
                    lemma_int_range(0, n as int);
                    lemma_len_subset(dependencies_of(old_deps, v), set_int_range(0, n as int));
                }
            }
            true
        } else {
            false
        }
    }

    /// Orders the nodes so that each comes before everything depending on
    /// it, or reports a cycle. A graph that has not changed since it was
    /// created keeps its order.
    pub fn build(&mut self) -> (r: Result<&[usize], CyclicDependency>)
        requires
            old(self).wf(),
        ensures
            final(self).wf(),
            final(self).node_seq() == old(self).node_seq(),
            final(self).dependent_sets() == old(self).dependent_sets(),
            final(self).dependency_counts() == old(self).dependency_counts(),
            final(self).dirty() == old(self).dirty(),
            !old(self).dirty() ==> r is Ok && final(self).topology_seq() == old(self).topology_seq(),
            r matches Ok(order) ==> {
                &&& order@ == final(self).topology_seq()
                &&& is_topological_order(order@, final(self).dependent_sets())
            },
            r matches Err(cycle) ==> {
                &&& is_cycle(cycle.0@, old(self).dependent_sets())
                &&& final(self).topology_seq() == old(self).topology_seq()
            },
            old(self).dirty() ==> (r is Ok <==> dfs_outcome(old(self).dependent_sets()).1 is None),
            old(self).dirty() && r is Ok ==> final(self).topology_seq() == dfs_outcome(
                old(self).dependent_sets(),
            ).0.reverse(),
            old(self).dirty() ==> (r matches Err(cycle) ==> dfs_outcome(old(self).dependent_sets()).1
                == Some(cycle.0@.reverse())),
    {
        if self.is_dirty {
            let n = self.nodes.len();
            let mut order: Vec<usize> = Vec::new();
            let mut visited = vec![false; n];
            let mut recursion_stack = vec![false; n];
            proof {
                lemma_count_unset_bounds(visited@);
                lemma_count_unset_bounds(recursion_stack@);
                assert(order@.no_duplicates());
                assert(visited@ =~= Seq::new(n as nat, |i: int| false));
                assert(recursion_stack@ =~= Seq::new(n as nat, |i: int| false));
            }
            let mut index: usize = 0;
            while index < n
                invariant
                    dfs_outcome(self.dependents@) == (
                        dfs_roots(self.dependents@, visited@, recursion_stack@, order@, index as nat).2,
                        dfs_roots(self.dependents@, visited@, recursion_stack@, order@, index as nat).3,
                    ),
                    self.wf(),
                    self.is_dirty,
                    n == self.dependents@.len(),
                    self == old(self),
                    index <= n,
                    search_state(self.dependents@, visited@, recursion_stack@, order@),
                    forall|i: int| 0 <= i < n ==> !#[trigger] recursion_stack@[i],
                    forall|i: int| 0 <= i < index ==> #[trigger] visited@[i],
                decreases n - index,
            {
                let ghost vis_before = visited@;
                let ghost order_before = order@;
                if !visited[index] {
                    let ghost stack_before = recursion_stack@;
                    proof {
                        lemma_count_unset_bounds(visited@);
                    }
                    let res = visit(index, &self.dependents, &mut visited, &mut recursion_stack, &mut order);
                    proof {
                        assert(dfs_node(self.dependents@, vis_before, stack_before, order_before, index, n as nat) == (
                            visited@,
                            recursion_stack@,
                            order@,
                            found_path(res),
                        ));
                    }
                    if let Err(cycle) = res {
                        proof {
                            assert(!stack_before[cycle@[0] as int]);
                        }
                        let ghost path = cycle@;
                        let cycle = reversed(cycle);
                        proof {
                            let c = cycle@;
                            let m = path.len();
                            assert forall|j: int| 0 <= j < c.len() - 1 implies has_edge(
                                self.dependents@,
                                #[trigger] c[j] as int,
                                c[j + 1] as int,
                            ) by {
                                assert(c[j] == path[m - 1 - j]);
                                assert(c[j + 1] == path[m - 1 - (j + 1)]);
                                assert(has_edge(self.dependents@, path[(m - 2 - j) + 1] as int, path[m - 2 - j] as int));
                            }
                            let k = choose|k: int| 1 <= k < path.len() && #[trigger] path[k] == path[0];
                            assert(c[m - 1 - k] == c.last());
                        }
                        return Err(CyclicDependency(cycle));
                    }
                    assert(res is Ok);
                    assert(visited@[index as int]);
                }
                assert forall|i: int| 0 <= i < index + 1 implies #[trigger] visited@[i] by {
                    if i < index {
                        assert(vis_before[i]);
                    }
                }
                index = index + 1;
            }
            proof {
                lemma_count_unset_bounds(visited@);
                lemma_count_unset_bounds(recursion_stack@);
            }
            let ghost finished = order@;
            let topology = reversed(order);
            proof {
                let t = topology@;
                let deps = self.dependents@;
                assert(finished.len() == n);
                assert forall|i: int| 0 <= i < t.len() implies #[trigger] t[i] == finished[n - 1 - i] by {}
                assert forall|i: int, j: int|
                    0 <= i < t.len() && 0 <= j < t.len() && has_edge(deps, #[trigger] t[i] as int, #[trigger] t[j] as int)
                        implies i < j by {
                    assert(t[i] == finished[n - 1 - i]);
                    assert(t[j] == finished[n - 1 - j]);
                }
                assert(t.no_duplicates()) by {
                    assert forall|a: int, b: int| 0 <= a < t.len() && 0 <= b < t.len() && a != b implies t[a] != t[b] by {
                        assert(t[a] == finished[n - 1 - a]);
                        assert(t[b] == finished[n - 1 - b]);
                    }
                }
                assert forall|i: int| 0 <= i < t.len() implies #[trigger] t[i] < deps.len() by {
                    assert(t[i] == finished[n - 1 - i]);
                }
            }
            self.topology = topology;
        }
        Ok(self.topology.as_slice())
    }
}

impl<N> IndexDag<N> {
    pub fn nodes_mut(&mut self) -> (r: &mut [N])
        requires
            old(self).wf(),
        ensures
            r@ == old(self).node_seq(),
            final(self).node_seq() == final(r)@,
            final(self).dependent_sets() == old(self).dependent_sets(),
            final(self).dependency_counts() == old(self).dependency_counts(),
            final(self).topology_seq() == old(self).topology_seq(),
            final(self).dirty() == old(self).dirty(),
            final(r)@.len() == r@.len() ==> final(self).wf(),
    {
        self.nodes.as_mut_slice()
    }

    /// Consumes the graph and hands its parts out.
    pub fn into_values(self) -> (r: DagValues<N>)
        ensures
            r.nodes@ == self.node_seq(),
            r.dependents@ == self.dependent_sets(),
            r.dependencies@ == self.dependency_counts(),
            r.topology@ == self.topology_seq(),
    {
        DagValues {
            nodes: self.nodes,
            dependents: self.dependents,
            dependencies: self.dependencies,
            topology: self.topology,
        }
    }

    /// Freezes the graph.
    pub fn into_immutable(self) -> (r: ImmutableIndexDag<N>)
        ensures
            r.node_seq() == self.node_seq(),
            r.dependent_sets() == self.dependent_sets(),
            r.dependency_counts() == self.dependency_counts(),
            r.topology_seq() == self.topology_seq(),
    {
        ImmutableIndexDag {
            nodes: self.nodes,
            dependents: self.dependents,
            dependencies: self.dependencies,
            topology: self.topology,
        }
    }

    /// Replaces every node by `mapper` applied to it, in index order,
    /// keeping the edges and the order.
    pub fn map<M, F: FnMut(N) -> M>(self, mut mapper: F) -> (r: IndexDag<M>)
        requires
            self.wf(),
            forall|n: N| #[trigger] call_requires(mapper, (n,)),
        ensures
            r.wf(),
            r.node_seq().len() == self.node_seq().len(),
            exists|states: Seq<F>|
                states.len() == self.node_seq().len() && forall|i: int|
                    0 <= i < self.node_seq().len() ==> call_ensures(
                        #[trigger] states[i],
                        (self.node_seq()[i],),
                        r.node_seq()[i],
                    ),
            r.dependent_sets() == self.dependent_sets(),
            r.dependency_counts() == self.dependency_counts(),
            r.topology_seq() == self.topology_seq(),
            r.dirty() == self.dirty(),
    {
        let ghost initial = self.nodes@;
        let mut rest = self.nodes;
        let mut backwards: Vec<N> = Vec::new();
        while rest.len() > 0
            invariant
                rest@ == initial.take(rest@.len() as int),
                backwards@.len() + rest@.len() == initial.len(),
                forall|j: int| 0 <= j < backwards@.len() ==> #[trigger] backwards@[j] == initial[initial.len() - 1 - j],
            decreases rest@.len(),
        {
            let node = rest.pop().unwrap();
            backwards.push(node);
        }
        let mut nodes: Vec<M> = Vec::new();
        let ghost mut states: Seq<F> = Seq::empty();
        while backwards.len() > 0
            invariant
                nodes@.len() + backwards@.len() == initial.len(),
                states.len() == nodes@.len(),
                forall|j: int| 0 <= j < nodes@.len() ==> call_ensures(#[trigger] states[j], (initial[j],), nodes@[j]),
                forall|j: int| 0 <= j < backwards@.len() ==> #[trigger] backwards@[j] == initial[initial.len() - 1 - j],
                forall|n: N| #[trigger] call_requires(mapper, (n,)),
            decreases backwards@.len(),
        {
            let node = backwards.pop().unwrap();
            proof {
                states = states.push(mapper);
            }
            nodes.push(mapper(node));
        }
        let r = IndexDag {
            nodes,
            dependents: self.dependents,
            dependencies: self.dependencies,
            topology: self.topology,
            is_dirty: self.is_dirty,
        };
        assert(initial == self.node_seq());
        assert(r.node_seq() == nodes@);
        assert forall|i: int| 0 <= i < initial.len() implies call_ensures(#[trigger] states[i], (initial[i],), r.node_seq()[i]) by {
            assert(call_ensures(states[i], (initial[i],), nodes@[i]));
        }
        r
    }
}

impl<N> Default for IndexDag<N> {
    fn default() -> (r: Self)
        ensures
            r.wf(),
            r.node_seq() == Seq::<N>::empty(),
            !r.dirty(),
    {
        Self::new()
    }
}

/// The parts of a graph, handed out.
pub struct DagValues<N> {
    pub nodes: Vec<N>,
    pub dependents: Vec<FixedBitSet>,
    pub dependencies: Vec<usize>,
    pub topology: Vec<usize>,
}

/// A graph that no longer changes.
pub struct ImmutableIndexDag<N> {
    nodes: Vec<N>,
    dependents: Vec<FixedBitSet>,
    dependencies: Vec<usize>,
    topology: Vec<usize>,
}

impl<N> ImmutableIndexDag<N> {
    /// The nodes, by index.
    pub closed spec fn node_seq(&self) -> Seq<N> {
        self.nodes@
    }

    /// For each node, the set of nodes that depend on it.
    pub closed spec fn dependent_sets(&self) -> Seq<FixedBitSet> {
        self.dependents@
    }

    /// For each node, how many dependencies it was given.
    pub closed spec fn dependency_counts(&self) -> Seq<usize> {
        self.dependencies@
    }

    /// The order of the nodes.
    pub closed spec fn topology_seq(&self) -> Seq<usize> {
        self.topology@
    }

    pub fn nodes(&self) -> (r: &[N])
        ensures
            r@ == self.node_seq(),
    {
        self.nodes.as_slice()
    }

    pub fn nodes_mut(&mut self) -> (r: &mut [N])
        ensures
            r@ == old(self).node_seq(),
            final(self).node_seq() == final(r)@,
            final(self).dependent_sets() == old(self).dependent_sets(),
            final(self).dependency_counts() == old(self).dependency_counts(),
            final(self).topology_seq() == old(self).topology_seq(),
    {
        self.nodes.as_mut_slice()
    }

    pub fn dependents(&self) -> (r: &[FixedBitSet])
        ensures
            r@ == self.dependent_sets(),
    {
        self.dependents.as_slice()
    }

    pub fn dependencies(&self) -> (r: &[usize])
        ensures
            r@ == self.dependency_counts(),
    {
        self.dependencies.as_slice()
    }

    pub fn topology(&self) -> (r: &[usize])
        ensures
            r@ == self.topology_seq(),
    {
        self.topology.as_slice()
    }

    /// The nodes in the order of the topology.
    pub fn iter(&self) -> (r: Vec<&N>)
        requires
            forall|i: int| 0 <= i < self.topology_seq().len() ==> #[trigger] self.topology_seq()[i] < self.node_seq().len(),
        ensures
            r@.len() == self.topology_seq().len(),
            forall|i: int| 0 <= i < r@.len() ==> *(#[trigger] r@[i]) == self.node_seq()[self.topology_seq()[i] as int],
    {
        let mut r: Vec<&N> = Vec::new();
        let mut i: usize = 0;
        while i < self.topology.len()
            invariant
                i <= self.topology@.len(),
                r@.len() == i,
                forall|k: int| 0 <= k < self.topology_seq().len() ==> #[trigger] self.topology_seq()[k] < self.node_seq().len(),
                forall|k: int| 0 <= k < i ==> *(#[trigger] r@[k]) == self.nodes@[self.topology@[k] as int],
            decreases self.topology@.len() - i,
        {
            assert(self.topology_seq()[i as int] < self.node_seq().len());
            r.push(&self.nodes[self.topology[i]]);
            i = i + 1;
        }
        r
    }

    pub fn len(&self) -> (r: usize)
        ensures
            r == self.node_seq().len(),
    {
        self.nodes.len()
    }
}

} // verus!
