//! Grouping of files into clusters of similar content: the connected
//! components of the graph whose edges are the similarity pairs that passed
//! the threshold.

use vstd::prelude::*;
use std::collections::HashMap;
use std::collections::HashSet;
use vstd::std_specs::iter::IteratorSpec;

verus! {

/// The pair `p` links `a` and `b`, in either direction.
pub open spec fn links(p: (i32, i32), a: i32, b: i32) -> bool {
    (p.0 == a && p.1 == b) || (p.0 == b && p.1 == a)
}

/// Some pair links `a` and `b`.
pub open spec fn adjacent(pairs: Seq<(i32, i32)>, a: i32, b: i32) -> bool {
    exists|k: int| 0 <= k < pairs.len() && #[trigger] links(pairs[k], a, b)
}

/// Positions `i` and `i + 1` of `w` are adjacent.
pub open spec fn step_adjacent(pairs: Seq<(i32, i32)>, w: Seq<i32>, i: int) -> bool {
    adjacent(pairs, w[i], w[i + 1])
}

/// `w` is a non-empty walk along the pairs.
pub open spec fn is_walk(pairs: Seq<(i32, i32)>, w: Seq<i32>) -> bool {
    &&& w.len() > 0
    &&& forall|i: int| 0 <= i < w.len() - 1 ==> #[trigger] step_adjacent(pairs, w, i)
}

/// A walk along the pairs leads from `a` to `b`.
pub open spec fn connected(pairs: Seq<(i32, i32)>, a: i32, b: i32) -> bool {
    exists|w: Seq<i32>| #[trigger] is_walk(pairs, w) && w[0] == a && w.last() == b
}

/// `groups` are exactly the connected components of the pairs' graph that
/// hold at least two distinct files: each group is free of repeats, holds
/// two files or more, is connected from its first file and closed under the
/// pairs; no file is in two groups; every file linked to another file is in
/// a group.
pub open spec fn is_grouping(pairs: Seq<(i32, i32)>, groups: Seq<Seq<i32>>) -> bool {
    &&& groups_are_components(pairs, groups)
    &&& forall|x: i32, y: i32|
        x != y && #[trigger] adjacent(pairs, x, y) ==> exists|g: int|
            0 <= g < groups.len() && #[trigger] groups[g].contains(x)
}

/// Each group is free of repeats, holds two files or more, is connected from
/// its first file and closed under the pairs, and no file is in two groups.
pub open spec fn groups_are_components(pairs: Seq<(i32, i32)>, groups: Seq<Seq<i32>>) -> bool {
    &&& forall|g: int| 0 <= g < groups.len() ==> #[trigger] groups[g].len() >= 2
    &&& forall|g: int| 0 <= g < groups.len() ==> #[trigger] groups[g].no_duplicates()
    &&& forall|g: int, i: int|
        0 <= g < groups.len() && 0 <= i < groups[g].len() ==> connected(
            pairs,
            groups[g][0],
            #[trigger] groups[g][i],
        )
    &&& forall|g: int, x: i32, y: i32|
        0 <= g < groups.len() && #[trigger] groups[g].contains(x) && #[trigger] adjacent(
            pairs,
            x,
            y,
        ) ==> groups[g].contains(y)
    &&& forall|g1: int, g2: int, x: i32|
        0 <= g1 < groups.len() && 0 <= g2 < groups.len() && g1 != g2
            && #[trigger] groups[g1].contains(x) ==> !#[trigger] groups[g2].contains(x)
}

/// The adjacency lists `m` describe the pairs: every linked file has a list,
/// and the list of a file holds exactly the files that it is linked to.
pub open spec fn adjacency_describes(pairs: Seq<(i32, i32)>, m: Map<i32, Vec<i32>>) -> bool {
    &&& forall|x: i32, y: i32| #[trigger] adjacent(pairs, x, y) ==> m.contains_key(x)
    &&& forall|x: i32, y: i32|
        #![trigger m[x]@.contains(y)]
        #![trigger adjacent(pairs, x, y), m.contains_key(x)]
        m.contains_key(x) ==> (m[x]@.contains(y) <==> adjacent(pairs, x, y))
}

/// No pair leads out of `s`.
pub open spec fn closed_set(pairs: Seq<(i32, i32)>, s: Set<i32>) -> bool {
    forall|x: i32, y: i32| #[trigger] s.contains(x) && #[trigger] adjacent(pairs, x, y) ==> s.contains(y)
}

proof fn lemma_adjacent_symmetric(pairs: Seq<(i32, i32)>, a: i32, b: i32)
    requires
        adjacent(pairs, a, b),
    ensures
        adjacent(pairs, b, a),
{
    let k: int = choose|k: int| 0 <= k < pairs.len() && #[trigger] links(pairs[k], a, b);
    assert(links(pairs[k], b, a));
}

proof fn lemma_adjacent_push(pairs: Seq<(i32, i32)>, p: (i32, i32), a: i32, b: i32)
    ensures
        adjacent(pairs.push(p), a, b) == (adjacent(pairs, a, b) || links(p, a, b)),
{
    let q = pairs.push(p);
    if adjacent(pairs, a, b) {
        let k: int = choose|k: int| 0 <= k < pairs.len() && #[trigger] links(pairs[k], a, b);
        assert(q[k] == pairs[k]);
        assert(links(q[k], a, b));
    }
    if links(p, a, b) {
        assert(q[pairs.len() as int] == p);
        assert(links(q[pairs.len() as int], a, b));
    }
    if adjacent(q, a, b) {
        let k: int = choose|k: int| 0 <= k < q.len() && #[trigger] links(q[k], a, b);
        if k < pairs.len() {
            assert(q[k] == pairs[k]);
            assert(links(pairs[k], a, b));
        }
    }
}

proof fn lemma_connected_self(pairs: Seq<(i32, i32)>, a: i32)
    ensures
        connected(pairs, a, a),
{
    let w = seq![a];
    assert(is_walk(pairs, w));
}

proof fn lemma_connected_extend(pairs: Seq<(i32, i32)>, a: i32, b: i32, c: i32)
    requires
        connected(pairs, a, b),
        adjacent(pairs, b, c),
    ensures
        connected(pairs, a, c),
{
    let w = choose|w: Seq<i32>| #[trigger] is_walk(pairs, w) && w[0] == a && w.last() == b;
    let w2 = w.push(c);
    assert forall|i: int| 0 <= i < w2.len() - 1 implies #[trigger] step_adjacent(pairs, w2, i) by {
        if i < w.len() - 1 {
            assert(step_adjacent(pairs, w, i));
        }
    }
    assert(is_walk(pairs, w2));
    assert(w2[0] == a && w2.last() == c);
}

/// Connection is symmetric: a walk read backwards is a walk.
pub proof fn lemma_connected_symmetric(pairs: Seq<(i32, i32)>, a: i32, b: i32)
    requires
        connected(pairs, a, b),
    ensures
        connected(pairs, b, a),
{
    let w = choose|w: Seq<i32>| #[trigger] is_walk(pairs, w) && w[0] == a && w.last() == b;
    let r = w.reverse();
    let n: int = w.len() as int;
    assert forall|i: int| 0 <= i < r.len() - 1 implies #[trigger] step_adjacent(pairs, r, i) by {
        assert(step_adjacent(pairs, w, n - 2 - i));
        assert(r[i] == w[n - 1 - i]);
        assert(r[i + 1] == w[n - 2 - i]);
        lemma_adjacent_symmetric(pairs, w[n - 2 - i], w[n - 1 - i]);
    }
    assert(is_walk(pairs, r));
    assert(r[0] == b && r.last() == a);
}

/// Connection is transitive: two walks that meet can be joined.
pub proof fn lemma_connected_transitive(pairs: Seq<(i32, i32)>, a: i32, b: i32, c: i32)
    requires
        connected(pairs, a, b),
        connected(pairs, b, c),
    ensures
        connected(pairs, a, c),
{
    let w1 = choose|w: Seq<i32>| #[trigger] is_walk(pairs, w) && w[0] == a && w.last() == b;
    let w2 = choose|w: Seq<i32>| #[trigger] is_walk(pairs, w) && w[0] == b && w.last() == c;
    let w = w1 + w2.drop_first();
    let n1: int = w1.len() as int;
    assert forall|i: int| 0 <= i < w.len() - 1 implies #[trigger] step_adjacent(pairs, w, i) by {
        if i < n1 - 1 {
            assert(step_adjacent(pairs, w1, i));
        } else {
            let j: int = i - n1 + 1;
            assert(step_adjacent(pairs, w2, j));
            assert(w[i] == w2[j]);
            assert(w[i + 1] == w2[j + 1]);
        }
    }
    assert(is_walk(pairs, w));
    assert(w[0] == a);
    assert(w.last() == c);
}

/// Every file of a group is connected to every other file of that group.
pub proof fn lemma_group_members_connected(
    pairs: Seq<(i32, i32)>,
    groups: Seq<Seq<i32>>,
    g: int,
    x: i32,
    y: i32,
)
    requires
        groups_are_components(pairs, groups),
        0 <= g < groups.len(),
        groups[g].contains(x),
        groups[g].contains(y),
    ensures
        connected(pairs, x, y),
{
    let i: int = choose|i: int| 0 <= i < groups[g].len() && groups[g][i] == x;
    let j: int = choose|j: int| 0 <= j < groups[g].len() && groups[g][j] == y;
    assert(connected(pairs, groups[g][0], groups[g][i]));
    assert(connected(pairs, groups[g][0], groups[g][j]));
    lemma_connected_symmetric(pairs, groups[g][0], x);
    lemma_connected_transitive(pairs, x, groups[g][0], y);
}

proof fn lemma_walk_stays_in_group(
    pairs: Seq<(i32, i32)>,
    group: Seq<i32>,
    w: Seq<i32>,
    k: int,
)
    requires
        is_walk(pairs, w),
        group.contains(w[0]),
        forall|x: i32, y: i32|
            #[trigger] group.contains(x) && #[trigger] adjacent(pairs, x, y) ==> group.contains(y),
        0 <= k < w.len(),
    ensures
        group.contains(w[k]),
    decreases k,
{
    if k > 0 {
        lemma_walk_stays_in_group(pairs, group, w, k - 1);
        assert(step_adjacent(pairs, w, k - 1));
    }
}

/// A group is a whole component: whatever is connected to one of its files
/// is in the group.
pub proof fn lemma_group_is_whole_component(
    pairs: Seq<(i32, i32)>,
    groups: Seq<Seq<i32>>,
    g: int,
    x: i32,
    y: i32,
)
    requires
        groups_are_components(pairs, groups),
        0 <= g < groups.len(),
        groups[g].contains(x),
        connected(pairs, x, y),
    ensures
        groups[g].contains(y),
{
    let w = choose|w: Seq<i32>| #[trigger] is_walk(pairs, w) && w[0] == x && w.last() == y;
    lemma_walk_stays_in_group(pairs, groups[g], w, w.len() - 1);
}

/// Two different files of one similarity pair end up in the same group.
pub proof fn lemma_linked_files_share_group(
    pairs: Seq<(i32, i32)>,
    groups: Seq<Seq<i32>>,
    x: i32,
    y: i32,
)
    requires
        is_grouping(pairs, groups),
        x != y,
        adjacent(pairs, x, y),
    ensures
        exists|g: int| 0 <= g < groups.len() && groups[g].contains(x) && groups[g].contains(y),
{
    let g: int = choose|g: int| 0 <= g < groups.len() && #[trigger] groups[g].contains(x);
    assert(groups[g].contains(y));
}

/// Appends `b` to the adjacency list of `a`, creating the list if needed.
fn add_neighbor(m: &mut HashMap<i32, Vec<i32>>, a: i32, b: i32)
    ensures
        final(m)@.dom() == old(m)@.dom().insert(a),
        final(m)@[a]@ == (if old(m)@.contains_key(a) {
            old(m)@[a]@
        } else {
            Seq::<i32>::empty()
        }).push(b),
        forall|x: i32| x != a && old(m)@.contains_key(x) ==> #[trigger] final(m)@[x] == old(m)@[x],
{
    broadcast use vstd::std_specs::hash::group_hash_axioms;
    let removed = m.remove(&a);
    let mut list: Vec<i32> = match removed {
        Some(v) => v,
        None => Vec::new(),
    };
    list.push(b);
    m.insert(a, list);
}

/// Builds the adjacency lists of the similarity graph: for each pair, each
/// file is appended to the other's list.
fn build_adjacency(pairs: &[(i32, i32)]) -> (m: HashMap<i32, Vec<i32>>)
    ensures
        adjacency_describes(pairs@, m@),
{
    broadcast use vstd::std_specs::hash::group_hash_axioms;
    let mut m: HashMap<i32, Vec<i32>> = HashMap::new();
    let mut k: usize = 0;
    while k < pairs.len()
        invariant
            k <= pairs@.len(),
            adjacency_describes(pairs@.take(k as int), m@),
        decreases pairs@.len() - k,
    {
        let (a, b) = pairs[k];
        let ghost old_m = m@;
        add_neighbor(&mut m, a, b);
        let ghost mid_m = m@;
        add_neighbor(&mut m, b, a);
        proof {
            broadcast use vstd::seq_lib::group_seq_properties;
            let pre = pairs@.take(k as int);
            let post = pairs@.take(k + 1);
            assert(post =~= pre.push((a, b)));
            assert forall|x: i32, y: i32| #[trigger] adjacent(post, x, y) implies m@.contains_key(x) by {
                lemma_adjacent_push(pre, (a, b), x, y);
            }
            assert forall|x: i32, y: i32| m@.contains_key(x) implies (#[trigger] m@[x]@.contains(y)
                <==> adjacent(post, x, y)) by {
                lemma_adjacent_push(pre, (a, b), x, y);
                if x != a && x != b {
                    assert(m@[x] == old_m[x]);
                } else if x == a && x != b {
                    assert(m@[x] == mid_m[x]);
                    if old_m.contains_key(x) {
                        assert(mid_m[x]@ == old_m[x]@.push(b));
                    } else {
                        assert(mid_m[x]@ == seq![b]);
                        assert(!adjacent(pre, x, y));
                    }
                } else if x == b && x != a {
                    if old_m.contains_key(x) {
                        assert(mid_m[x] == old_m[x]);
                    } else {
                        assert(!adjacent(pre, x, y));
                    }
                } else {
                    if old_m.contains_key(x) {
                        assert(m@[x]@ == old_m[x]@.push(b).push(a));
                    } else {
                        assert(m@[x]@ == seq![b].push(a));
                        assert(!adjacent(pre, x, y));
                    }
                }
            }
        }
        k = k + 1;
    }
    assert(pairs@.take(pairs@.len() as int) =~= pairs@);
    m
}

/// Measure of the work left in a depth-first search: unvisited files count
/// twice (they are pushed once, then popped), stacked files once.
spec fn search_measure(dom: Set<i32>, visited: Set<i32>, stack_len: nat) -> nat {
    2 * dom.difference(visited).len() + stack_len
}

proof fn lemma_visit_shrinks(dom: Set<i32>, visited: Set<i32>, n: i32)
    requires
        dom.finite(),
        dom.contains(n),
        !visited.contains(n),
    ensures
        dom.difference(visited.insert(n)).len() + 1 == dom.difference(visited).len(),
{
    broadcast use vstd::set::group_set_axioms;
    broadcast use vstd::set_lib::group_set_properties;
    let before = dom.difference(visited);
    let after = dom.difference(visited.insert(n));
    assert(after =~= before.remove(n));
    vstd::set_lib::lemma_len_difference(dom, visited);
}

/// Collects, by a depth-first search from `root`, every file reachable from
/// it that is not yet visited, and marks them visited. The files come in the
/// order in which they leave the search stack, `root` first.
fn explore_component(
    adjacency: &HashMap<i32, Vec<i32>>,
    visited: &mut HashSet<i32>,
    root: i32,
    Ghost(pairs): Ghost<Seq<(i32, i32)>>,
) -> (group: Vec<i32>)
    requires
        adjacency_describes(pairs, adjacency@),
        adjacency@.contains_key(root),
        !old(visited)@.contains(root),
        closed_set(pairs, old(visited)@),
    ensures
        group@.len() >= 1,
        group@[0] == root,
        group@.no_duplicates(),
        forall|x: i32|
            #[trigger] final(visited)@.contains(x) <==> (old(visited)@.contains(x)
                || group@.contains(x)),
        forall|x: i32| #[trigger] group@.contains(x) ==> !old(visited)@.contains(x),
        forall|i: int| 0 <= i < group@.len() ==> connected(pairs, root, #[trigger] group@[i]),
        forall|x: i32, y: i32|
            #[trigger] group@.contains(x) && #[trigger] adjacent(pairs, x, y) ==> group@.contains(y),
{
    broadcast use vstd::std_specs::hash::group_hash_axioms;
    broadcast use vstd::seq_lib::group_seq_properties;
    let ghost v0 = visited@;
    let ghost dom = adjacency@.dom();
    let mut group: Vec<i32> = Vec::new();
    let mut stack: Vec<i32> = Vec::new();
    stack.push(root);
    visited.insert(root);
    proof {
        lemma_connected_self(pairs, root);
        assert(stack@ == seq![root]);
    }
    while stack.len() > 0
        invariant
            adjacency_describes(pairs, adjacency@),
            dom == adjacency@.dom(),
            dom.finite(),
            dom.contains(root),
            closed_set(pairs, v0),
            !v0.contains(root),
            forall|x: i32|
                #[trigger] visited@.contains(x) <==> (v0.contains(x) || group@.contains(x)
                    || stack@.contains(x)),
            forall|x: i32| #[trigger] group@.contains(x) ==> !v0.contains(x) && dom.contains(x),
            forall|x: i32| #[trigger] stack@.contains(x) ==> !v0.contains(x) && dom.contains(x),
            group@.no_duplicates(),
            stack@.no_duplicates(),
            forall|x: i32| #[trigger] group@.contains(x) ==> !stack@.contains(x),
            forall|x: i32| #[trigger] group@.contains(x) ==> connected(pairs, root, x),
            forall|x: i32| #[trigger] stack@.contains(x) ==> connected(pairs, root, x),
            forall|x: i32, y: i32|
                #[trigger] group@.contains(x) && #[trigger] adjacent(pairs, x, y)
                    ==> visited@.contains(y),
            group@.len() == 0 ==> stack@ == seq![root],
            group@.len() > 0 ==> group@[0] == root,
        decreases search_measure(dom, visited@, stack@.len()),
    {
        let ghost measure_before = search_measure(dom, visited@, stack@.len());
        let ghost group_before = group@;
        let ghost stack_before = stack@;
        let current: i32 = stack.pop().unwrap();
        group.push(current);
        proof {
            assert(stack_before =~= stack@.push(current));
            assert(group@ == group_before.push(current));
            assert(stack_before.contains(current));
            assert(!group_before.contains(current));
            assert forall|x: i32|
                #![trigger stack_before.contains(x)]
                #![trigger stack@.contains(x)]
                stack_before.contains(x) <==> (stack@.contains(x) || x == current) by {
                vstd::seq_lib::lemma_seq_contains_after_push(stack@, current, x);
            }
            assert forall|x: i32| #[trigger] group@.contains(x) <==> (group_before.contains(x)
                || x == current) by {
                vstd::seq_lib::lemma_seq_contains_after_push(group_before, current, x);
            }
            assert(!stack@.contains(current)) by {
                if stack@.contains(current) {
                    let k: int = choose|k: int| 0 <= k < stack@.len() && stack@[k] == current;
                    assert(stack_before[k] == stack_before[stack_before.len() - 1]);
                }
            }
            if group_before.len() == 0 {
                assert(stack_before == seq![root]);
                assert(current == root);
            }
        }
        match adjacency.get(&current) {
            Some(neighbors) => {
                let mut j: usize = 0;
                while j < neighbors.len()
                    invariant
                        adjacency_describes(pairs, adjacency@),
                        dom == adjacency@.dom(),
                        dom.finite(),
                        dom.contains(root),
                        closed_set(pairs, v0),
                        !v0.contains(root),
                        adjacency@.contains_key(current),
                        neighbors@ == adjacency@[current]@,
                        j <= neighbors@.len(),
                        group@.len() > 0,
                        group@.last() == current,
                        group@[0] == root,
                        forall|x: i32|
                            #[trigger] visited@.contains(x) <==> (v0.contains(x) || group@.contains(x)
                                || stack@.contains(x)),
                        forall|x: i32| #[trigger] group@.contains(x) ==> !v0.contains(x) && dom.contains(x),
                        forall|x: i32| #[trigger] stack@.contains(x) ==> !v0.contains(x) && dom.contains(x),
                        group@.no_duplicates(),
                        stack@.no_duplicates(),
                        forall|x: i32| #[trigger] group@.contains(x) ==> !stack@.contains(x),
                        forall|x: i32| #[trigger] group@.contains(x) ==> connected(pairs, root, x),
                        forall|x: i32| #[trigger] stack@.contains(x) ==> connected(pairs, root, x),
                        forall|x: i32, y: i32|
                            #[trigger] group@.contains(x) && #[trigger] adjacent(pairs, x, y) && x
                                != current ==> visited@.contains(y),
                        forall|t: int| 0 <= t < j ==> visited@.contains(#[trigger] neighbors@[t]),
                        search_measure(dom, visited@, stack@.len()) < measure_before,
                    decreases neighbors@.len() - j,
                {
                    let neighbor: i32 = neighbors[j];
                    if !visited.contains(&neighbor) {
                        proof {
                            assert(adjacency@[current]@.contains(neighbor));
                            assert(adjacent(pairs, current, neighbor));
                            lemma_adjacent_symmetric(pairs, current, neighbor);
                            assert(dom.contains(neighbor));
                            assert(group@.contains(current));
                            lemma_connected_extend(pairs, root, current, neighbor);
                            lemma_visit_shrinks(dom, visited@, neighbor);
                        }
                        let ghost stack_old = stack@;
                        let ghost visited_old = visited@;
                        visited.insert(neighbor);
                        stack.push(neighbor);
                        proof {
                            assert forall|x: i32| #[trigger] stack@.contains(x) <==> (stack_old.contains(x)
                                || x == neighbor) by {
                                vstd::seq_lib::lemma_seq_contains_after_push(stack_old, neighbor, x);
                            }
                            assert(visited@ == visited_old.insert(neighbor));
                        }
                    }
                    j = j + 1;
                }
                proof {
                    assert forall|y: i32| #[trigger] adjacent(pairs, current, y) implies visited@.contains(y) by {
                        assert(adjacency@[current]@.contains(y));
                        let t: int = choose|t: int| 0 <= t < neighbors@.len() && neighbors@[t] == y;
                        assert(visited@.contains(neighbors@[t]));
                    }
                }
            },
            None => {
                proof {
                    assert forall|y: i32| #[trigger] adjacent(pairs, current, y) implies visited@.contains(y) by {
                        assert(adjacency@.contains_key(current));
                    }
                }
            },
        }
    }
    proof {
        assert forall|x: i32, y: i32|
            #[trigger] group@.contains(x) && #[trigger] adjacent(pairs, x, y) implies group@.contains(y) by {
            assert(visited@.contains(y));
            if v0.contains(y) {
                lemma_adjacent_symmetric(pairs, x, y);
                assert(v0.contains(x));
            }
        }
        assert forall|i: int| 0 <= i < group@.len() implies connected(pairs, root, #[trigger] group@[i]) by {
            assert(group@.contains(group@[i]));
        }
    }
    group
}

/// Adding a new component, found outside every file visited so far, keeps
/// the groups components.
proof fn lemma_add_component(
    pairs: Seq<(i32, i32)>,
    gs: Seq<Seq<i32>>,
    visited: Set<i32>,
    group: Seq<i32>,
)
    requires
        groups_are_components(pairs, gs),
        forall|g: int, x: i32| 0 <= g < gs.len() && #[trigger] gs[g].contains(x) ==> visited.contains(x),
        group.len() >= 2,
        group.no_duplicates(),
        forall|x: i32| #[trigger] group.contains(x) ==> !visited.contains(x),
        forall|i: int| 0 <= i < group.len() ==> connected(pairs, group[0], #[trigger] group[i]),
        forall|x: i32, y: i32|
            #[trigger] group.contains(x) && #[trigger] adjacent(pairs, x, y) ==> group.contains(y),
    ensures
        groups_are_components(pairs, gs.push(group)),
{
    let ng = gs.push(group);
    assert forall|g: int| 0 <= g < ng.len() implies #[trigger] ng[g].len() >= 2 by {
        if g < gs.len() {
            assert(ng[g] == gs[g]);
        }
    }
    assert forall|g: int| 0 <= g < ng.len() implies #[trigger] ng[g].no_duplicates() by {
        if g < gs.len() {
            assert(ng[g] == gs[g]);
        }
    }
    assert forall|g: int, i: int| 0 <= g < ng.len() && 0 <= i < ng[g].len() implies connected(
        pairs,
        ng[g][0],
        #[trigger] ng[g][i],
    ) by {
        if g < gs.len() {
            assert(ng[g] == gs[g]);
        }
    }
    assert forall|g: int, x: i32, y: i32|
        0 <= g < ng.len() && #[trigger] ng[g].contains(x) && #[trigger] adjacent(
            pairs,
            x,
            y,
        ) implies ng[g].contains(y) by {
        if g < gs.len() {
            assert(ng[g] == gs[g]);
        }
    }
    assert forall|g1: int, g2: int, x: i32|
        0 <= g1 < ng.len() && 0 <= g2 < ng.len() && g1 != g2
            && #[trigger] ng[g1].contains(x) implies !#[trigger] ng[g2].contains(x) by {
        if g1 < gs.len() {
            assert(ng[g1] == gs[g1]);
        }
        if g2 < gs.len() {
            assert(ng[g2] == gs[g2]);
        }
        if g1 < gs.len() && g2 == gs.len() {
            assert(visited.contains(x));
        }
        if g2 < gs.len() && g1 == gs.len() {
            assert(gs[g2].contains(x) ==> visited.contains(x));
        }
    }
}

/// Groups files into clusters of similar content: the connected components,
/// of at least two files, of the graph whose edges are the given pairs of
/// similar files. Files within a group come in depth-first order from the
/// group's first file; the order of the groups follows the adjacency map's
/// own walk of its keys.
pub fn group_similar_files(pairs: &[(i32, i32)]) -> (groups: Vec<Vec<i32>>)
    ensures
        is_grouping(pairs@, groups.deep_view()),
{
    broadcast use vstd::std_specs::hash::group_hash_axioms;
    broadcast use vstd::seq_lib::group_seq_properties;
    let adjacency = build_adjacency(pairs);
    let mut visited: HashSet<i32> = HashSet::new();
    let mut groups: Vec<Vec<i32>> = Vec::new();
    let ghost mut gs: Seq<Seq<i32>> = Seq::empty();
    let ghost key_seq = adjacency.keys().remaining();
    let ghost mut processed: int = 0;
    proof {
        assert(adjacency.keys().remaining().unref().to_set() == adjacency@.dom());
    }
    for key in it: adjacency.keys()
        invariant
            adjacency_describes(pairs@, adjacency@),
            it.seq() == adjacency.keys().remaining(),
            key_seq == it.seq(),
            processed == it.index(),
            adjacency.keys().remaining().unref().to_set() == adjacency@.dom(),
            closed_set(pairs@, visited@),
            forall|i: int| 0 <= i < it.index() ==> visited@.contains(*#[trigger] it.seq()[i]),
            groups@.len() == gs.len(),
            forall|g: int| 0 <= g < gs.len() ==> #[trigger] groups@[g]@ == gs[g],
            groups_are_components(pairs@, gs),
            forall|g: int, x: i32| 0 <= g < gs.len() && #[trigger] gs[g].contains(x) ==> visited@.contains(x),
            forall|x: i32, y: i32|
                #[trigger] visited@.contains(x) && x != y && #[trigger] adjacent(pairs@, x, y)
                    ==> exists|g: int| 0 <= g < gs.len() && #[trigger] gs[g].contains(x),
    {
        let file_id: i32 = *key;
        proof {
            processed = processed + 1;
        }
        if !visited.contains(&file_id) {
            proof {
                assert(adjacency.keys().remaining().unref().to_set().contains(file_id));
            }
            let ghost v_before = visited@;
            let group = explore_component(&adjacency, &mut visited, file_id, Ghost(pairs@));
            proof {
                assert forall|x: i32, y: i32|
                    #[trigger] visited@.contains(x) && #[trigger] adjacent(pairs@, x, y)
                        implies visited@.contains(y) by {
                    if v_before.contains(x) {
                        assert(v_before.contains(y));
                    }
                }
            }
            if group.len() > 1 {
                proof {
                    lemma_add_component(pairs@, gs, v_before, group@);
                }
                let ghost new_group = group@;
                groups.push(group);
                let ghost old_gs = gs;
                proof {
                    gs = gs.push(new_group);
                    assert forall|g: int| 0 <= g < gs.len() implies #[trigger] groups@[g]@ == gs[g] by {
                    }
                    assert forall|x: i32, y: i32|
                        #[trigger] visited@.contains(x) && x != y && #[trigger] adjacent(pairs@, x, y)
                            implies exists|g: int| 0 <= g < gs.len() && #[trigger] gs[g].contains(x) by {
                        if v_before.contains(x) {
                            assert(v_before.contains(x) && adjacent(pairs@, x, y));
                            let g: int = choose|g: int| 0 <= g < old_gs.len() && #[trigger] old_gs[g].contains(x);
                            assert(gs[g] == old_gs[g]);
                        } else {
                            assert(gs[gs.len() - 1].contains(x));
                        }
                    }
                }
            } else {
                proof {
                    assert forall|x: i32, y: i32|
                        #[trigger] visited@.contains(x) && x != y && #[trigger] adjacent(pairs@, x, y)
                            implies exists|g: int| 0 <= g < gs.len() && #[trigger] gs[g].contains(x) by {
                        if !v_before.contains(x) {
                            assert(group@.contains(x));
                            assert(group@.contains(y));
                            assert(group@[0] == x);
                            assert(group@[0] == y);
                        }
                    }
                }
            }
        }
    }
    proof {
        assert forall|x: i32, y: i32| x != y && #[trigger] adjacent(pairs@, x, y) implies exists|g: int|
            0 <= g < gs.len() && #[trigger] gs[g].contains(x) by {
            assert(adjacency@.contains_key(x));
            assert(adjacency.keys().remaining().unref().to_set().contains(x));
            let i: int = choose|i: int| 0 <= i < key_seq.len() && *key_seq[i] == x;
            assert(processed == key_seq.len());
            assert(visited@.contains(*key_seq[i]));
        }
        assert(groups.deep_view() =~= gs) by {
            assert forall|g: int| 0 <= g < gs.len() implies #[trigger] groups.deep_view()[g] == gs[g] by {
                assert(groups.deep_view()[g] =~= groups@[g]@);
            }
        }
    }
    groups
}

/// The files that some pair links to another file.
pub open spec fn linked_files(pairs: Seq<(i32, i32)>) -> Set<i32> {
    Set::new(|x: i32| exists|y: i32| x != y && #[trigger] adjacent(pairs, x, y))
}

/// The files that lie in some group.
pub open spec fn grouped_files(groups: Seq<Seq<i32>>) -> Set<i32> {
    Set::new(|x: i32| exists|g: int| 0 <= g < groups.len() && #[trigger] groups[g].contains(x))
}

/// How many files are marked as duplicates over the groups: in each group of
/// two files or more, every file but the kept one.
pub open spec fn marks_of(groups: Seq<Seq<i32>>) -> int
    decreases groups.len(),
{
    if groups.len() == 0 {
        0
    } else {
        let last = groups.last();
        marks_of(groups.drop_last()) + if last.len() >= 2 {
            last.len() - 1
        } else {
            0
        }
    }
}

proof fn lemma_grouped_files_count(groups: Seq<Seq<i32>>)
    requires
        forall|g: int| 0 <= g < groups.len() ==> #[trigger] groups[g].len() >= 2,
        forall|g: int| 0 <= g < groups.len() ==> #[trigger] groups[g].no_duplicates(),
        forall|g1: int, g2: int, x: i32|
            0 <= g1 < groups.len() && 0 <= g2 < groups.len() && g1 != g2
                && #[trigger] groups[g1].contains(x) ==> !#[trigger] groups[g2].contains(x),
    ensures
        grouped_files(groups).finite(),
        marks_of(groups) == grouped_files(groups).len() - groups.len(),
    decreases groups.len(),
{
    broadcast use vstd::seq_lib::seq_to_set_is_finite;
    if groups.len() == 0 {
        assert(grouped_files(groups) =~= Set::<i32>::empty());
    } else {
        let n: int = groups.len() - 1;
        let prev = groups.drop_last();
        let last = groups[n];
        assert forall|g: int| 0 <= g < prev.len() implies #[trigger] prev[g].len() >= 2 by {
            assert(prev[g] == groups[g]);
        }
        assert forall|g: int| 0 <= g < prev.len() implies #[trigger] prev[g].no_duplicates() by {
            assert(prev[g] == groups[g]);
        }
        assert forall|g1: int, g2: int, x: i32|
            0 <= g1 < prev.len() && 0 <= g2 < prev.len() && g1 != g2
                && #[trigger] prev[g1].contains(x) implies !#[trigger] prev[g2].contains(x) by {
            assert(prev[g1] == groups[g1]);
            assert(prev[g2] == groups[g2]);
        }
        lemma_grouped_files_count(prev);
        let before = grouped_files(prev);
        assert(grouped_files(groups) =~= before + last.to_set()) by {
            assert forall|x: i32| grouped_files(groups).contains(x) implies (before
                + last.to_set()).contains(x) by {
                let g: int = choose|g: int| 0 <= g < groups.len() && #[trigger] groups[g].contains(x);
                if g < n {
                    assert(prev[g] == groups[g]);
                }
            }
            assert forall|x: i32| (before + last.to_set()).contains(x) implies grouped_files(
                groups,
            ).contains(x) by {
                if before.contains(x) {
                    let g: int = choose|g: int| 0 <= g < prev.len() && #[trigger] prev[g].contains(x);
                    assert(groups[g] == prev[g]);
                } else {
                    assert(groups[n].contains(x));
                }
            }
        }
        assert(before.disjoint(last.to_set())) by {
            assert forall|x: i32| before.contains(x) implies !last.to_set().contains(x) by {
                let g: int = choose|g: int| 0 <= g < prev.len() && #[trigger] prev[g].contains(x);
                assert(groups[g] == prev[g]);
                assert(groups[g].contains(x));
            }
        }
        last.unique_seq_to_set();
        vstd::set_lib::lemma_set_disjoint_lens(before, last.to_set());
    }
}

proof fn lemma_walk_leaves_start(pairs: Seq<(i32, i32)>, w: Seq<i32>)
    requires
        is_walk(pairs, w),
        w[0] != w.last(),
    ensures
        exists|z: i32| w[0] != z && #[trigger] adjacent(pairs, w[0], z),
    decreases w.len(),
{
    assert(step_adjacent(pairs, w, 0));
    if w[1] == w[0] {
        let rest = w.drop_first();
        assert forall|i: int| 0 <= i < rest.len() - 1 implies #[trigger] step_adjacent(
            pairs,
            rest,
            i,
        ) by {
            assert(step_adjacent(pairs, w, i + 1));
        }
        lemma_walk_leaves_start(pairs, rest);
    } else {
        assert(adjacent(pairs, w[0], w[1]));
    }
}

/// Over a grouping of the similarity pairs, the files in the groups are
/// exactly the files that some pair links to another file.
pub proof fn lemma_grouping_covers_linked_files(pairs: Seq<(i32, i32)>, groups: Seq<Seq<i32>>)
    requires
        is_grouping(pairs, groups),
    ensures
        grouped_files(groups) == linked_files(pairs),
{
    assert forall|x: i32| linked_files(pairs).contains(x) implies grouped_files(groups).contains(x) by {
        let y: i32 = choose|y: i32| x != y && #[trigger] adjacent(pairs, x, y);
        let g: int = choose|g: int| 0 <= g < groups.len() && #[trigger] groups[g].contains(x);
    }
    assert forall|x: i32| grouped_files(groups).contains(x) implies linked_files(pairs).contains(x) by {
        let g: int = choose|g: int| 0 <= g < groups.len() && #[trigger] groups[g].contains(x);
        let group = groups[g];
        assert(group.len() >= 2);
        assert(group.no_duplicates());
        let i: int = choose|i: int| 0 <= i < group.len() && group[i] == x;
        let j: int = if i == 0 {
            1
        } else {
            0
        };
        let y: i32 = group[j];
        assert(y != x);
        assert(group.contains(y));
        lemma_group_members_connected(pairs, groups, g, x, y);
        let w = choose|w: Seq<i32>| #[trigger] is_walk(pairs, w) && w[0] == x && w.last() == y;
        lemma_walk_leaves_start(pairs, w);
    }
    assert(grouped_files(groups) =~= linked_files(pairs));
}

/// Over a grouping of the similarity pairs, keeping one file of each group
/// and marking the others marks as many files as some pair links to another
/// file, less the number of groups.
pub proof fn lemma_marks_count_linked_files(pairs: Seq<(i32, i32)>, groups: Seq<Seq<i32>>)
    requires
        is_grouping(pairs, groups),
    ensures
        linked_files(pairs).finite(),
        marks_of(groups) == linked_files(pairs).len() - groups.len(),
{
    lemma_grouped_files_count(groups);
    lemma_grouping_covers_linked_files(pairs, groups);
}

proof fn lemma_fewer_pairs_adjacent(pairs: Seq<(i32, i32)>, kept: Seq<(i32, i32)>, a: i32, b: i32)
    requires
        forall|k: int| 0 <= k < kept.len() ==> pairs.contains(#[trigger] kept[k]),
        adjacent(kept, a, b),
    ensures
        adjacent(pairs, a, b),
{
    let k: int = choose|k: int| 0 <= k < kept.len() && #[trigger] links(kept[k], a, b);
    assert(pairs.contains(kept[k]));
    let j: int = choose|j: int| 0 <= j < pairs.len() && pairs[j] == kept[k];
    assert(links(pairs[j], a, b));
}

proof fn lemma_fewer_pairs_connected(pairs: Seq<(i32, i32)>, kept: Seq<(i32, i32)>, a: i32, b: i32)
    requires
        forall|k: int| 0 <= k < kept.len() ==> pairs.contains(#[trigger] kept[k]),
        connected(kept, a, b),
    ensures
        connected(pairs, a, b),
{
    let w = choose|w: Seq<i32>| #[trigger] is_walk(kept, w) && w[0] == a && w.last() == b;
    assert forall|i: int| 0 <= i < w.len() - 1 implies #[trigger] step_adjacent(pairs, w, i) by {
        assert(step_adjacent(kept, w, i));
        lemma_fewer_pairs_adjacent(pairs, kept, w[i], w[i + 1]);
    }
    assert(is_walk(pairs, w));
}

/// The file of `group` that stands for it when groups of fewer pairs are
/// laid over it: the first file of such a group that lies in `group`, where
/// there is one, else the group's own first file.
spec fn representative(sub_groups: Seq<Seq<i32>>, group: Seq<i32>) -> i32 {
    if exists|h: int| #![trigger sub_groups[h]] 0 <= h < sub_groups.len() && group.contains(sub_groups[h][0]) {
        let h: int = choose|h: int|
            #![trigger sub_groups[h]]
            0 <= h < sub_groups.len() && group.contains(sub_groups[h][0]);
        sub_groups[h][0]
    } else {
        group[0]
    }
}

/// Dropping similarity pairs never raises the number of files marked as
/// duplicates: over a grouping of some of the pairs, no more files are
/// marked than over a grouping of all of them. Raising the similarity
/// threshold keeps only some of the pairs.
pub proof fn lemma_fewer_pairs_fewer_marks(
    pairs: Seq<(i32, i32)>,
    kept: Seq<(i32, i32)>,
    groups: Seq<Seq<i32>>,
    kept_groups: Seq<Seq<i32>>,
)
    requires
        forall|k: int| 0 <= k < kept.len() ==> pairs.contains(#[trigger] kept[k]),
        is_grouping(pairs, groups),
        is_grouping(kept, kept_groups),
    ensures
        marks_of(kept_groups) <= marks_of(groups),
{
    lemma_marks_count_linked_files(pairs, groups);
    lemma_marks_count_linked_files(kept, kept_groups);
    lemma_grouping_covers_linked_files(pairs, groups);
    lemma_grouping_covers_linked_files(kept, kept_groups);
    let all = linked_files(pairs);
    let some = linked_files(kept);
    // The first files of the groups over fewer pairs, one per group.
    let firsts = Seq::new(kept_groups.len(), |h: int| kept_groups[h][0]);
    assert(firsts.no_duplicates()) by {
        assert forall|h1: int, h2: int| 0 <= h1 < firsts.len() && 0 <= h2 < firsts.len() && h1 != h2
            implies firsts[h1] != firsts[h2] by {
            assert(kept_groups[h1].contains(kept_groups[h1][0]));
            assert(kept_groups[h2].contains(kept_groups[h2][0]));
        }
    }
    firsts.unique_seq_to_set();
    let first_set = firsts.to_set();
    assert(first_set.subset_of(some)) by {
        assert forall|x: i32| first_set.contains(x) implies some.contains(x) by {
            let h: int = choose|h: int| 0 <= h < firsts.len() && firsts[h] == x;
            assert(kept_groups[h].contains(kept_groups[h][0]));
            assert(grouped_files(kept_groups).contains(x));
        }
    }
    // The files marked over fewer pairs: linked files that are no group's first.
    let marked = some.difference(first_set);
    assert(some =~= marked + first_set);
    assert(marked.disjoint(first_set));
    vstd::set_lib::lemma_len_subset(first_set, some);
    vstd::set_lib::lemma_len_subset(marked, some);
    vstd::set_lib::lemma_set_disjoint_lens(marked, first_set);
    assert(marked.subset_of(all)) by {
        assert forall|x: i32| marked.contains(x) implies all.contains(x) by {
            let y: i32 = choose|y: i32| x != y && #[trigger] adjacent(kept, x, y);
            lemma_fewer_pairs_adjacent(pairs, kept, x, y);
        }
    }
    let unmarked = all.difference(marked);
    assert(all =~= unmarked + marked);
    vstd::set_lib::lemma_len_subset(unmarked, all);
    vstd::set_lib::lemma_set_disjoint_lens(unmarked, marked);
    // One unmarked file in each group over all pairs, a different one for each group.
    let reps = Seq::new(groups.len(), |g: int| representative(kept_groups, groups[g]));
    assert forall|g: int| 0 <= g < groups.len() implies #[trigger] groups[g].contains(reps[g])
        && unmarked.contains(reps[g]) by {
        let group = groups[g];
        assert(group.contains(group[0]));
        if exists|h: int| #![trigger kept_groups[h]] 0 <= h < kept_groups.len() && group.contains(kept_groups[h][0]) {
            let h: int = choose|h: int|
                #![trigger kept_groups[h]]
                0 <= h < kept_groups.len() && group.contains(kept_groups[h][0]);
            assert(reps[g] == kept_groups[h][0]);
            assert(firsts[h] == kept_groups[h][0]);
            assert(first_set.contains(reps[g]));
            assert(grouped_files(groups).contains(reps[g]));
        } else {
            assert(reps[g] == group[0]);
            assert(grouped_files(groups).contains(group[0]));
            if some.contains(group[0]) {
                assert(grouped_files(kept_groups).contains(group[0]));
                let h: int = choose|h: int| 0 <= h < kept_groups.len() && #[trigger] kept_groups[h].contains(group[0]);
                assert(kept_groups[h].contains(kept_groups[h][0]));
                lemma_group_members_connected(kept, kept_groups, h, group[0], kept_groups[h][0]);
                lemma_fewer_pairs_connected(pairs, kept, group[0], kept_groups[h][0]);
                lemma_group_is_whole_component(pairs, groups, g, group[0], kept_groups[h][0]);
                assert(group.contains(kept_groups[h][0]));
                assert(false);
            }
        }
    }
    assert(reps.no_duplicates()) by {
        assert forall|g1: int, g2: int| 0 <= g1 < reps.len() && 0 <= g2 < reps.len() && g1 != g2
            implies reps[g1] != reps[g2] by {
            assert(groups[g1].contains(reps[g1]));
            assert(groups[g2].contains(reps[g2]));
        }
    }
    reps.unique_seq_to_set();
    assert(reps.to_set().subset_of(unmarked)) by {
        assert forall|x: i32| reps.to_set().contains(x) implies unmarked.contains(x) by {
            let g: int = choose|g: int| 0 <= g < reps.len() && reps[g] == x;
            assert(groups[g].contains(reps[g]));
        }
    }
    vstd::set_lib::lemma_len_subset(reps.to_set(), unmarked);
}

} // verus!
