use vstd::prelude::*;
use std::collections::BTreeSet;

use std::collections::HashMap;

use crate::errors::HetNetError;
use crate::graph::{
    properties_wf, Edge, EdgeMetadata, GraphMetadata, HeteroDiGraph, Node, RawNodeRef,
};
use crate::meta_path::{component_matches, spec_resolve, MetaPath, MetaPathView, PathComponent};
use crate::properties::Properties;
use crate::type_table::{distinct_names, TypeTable};
use crate::algorithms::utils::is_unknown_type_error;

verus! {

broadcast use {
    vstd::laws_cmp::group_laws_cmp,
    vstd::std_specs::btree::group_btree_axioms,
    vstd::std_specs::hash::group_hash_axioms,
};

//////////////////////////////////////////////////////////////////////////////////////////////////
// Walks along a meta-path
//////////////////////////////////////////////////////////////////////////////////////////////////

/// One step of a resolved meta-path: the edge type and the type of the node it leads to.
pub type Step = (PathComponent<usize>, PathComponent<usize>);

/// A partial walk: the node reached and the nodes it may no longer enter.
pub type WalkItem = (usize, Set<usize>);

/// Edge `e` may extend a walk that has reached its source at this step.
pub open spec fn edge_follows(nodes: Seq<Node>, step: Step, e: Edge, seen: Set<usize>) -> bool {
    &&& component_matches(step.0, e.edge_type)
    &&& component_matches(step.1, nodes[e.to.0 as int].node_type)
    &&& !seen.contains(e.to.0)
}

/// The extensions of a walk at `node` through its first `k` outgoing edges, in edge order.
pub open spec fn children_upto(
    nodes: Seq<Node>,
    step: Step,
    unique: bool,
    node: usize,
    seen: Set<usize>,
    k: int,
) -> Seq<WalkItem>
    decreases k,
{
    if k <= 0 {
        Seq::empty()
    } else {
        let prev = children_upto(nodes, step, unique, node, seen, k - 1);
        let e = nodes[node as int].connections@[k - 1];
        if edge_follows(nodes, step, e, seen) {
            prev.push(
                (
                    e.to.0,
                    if unique {
                        seen.insert(e.to.0)
                    } else {
                        seen
                    },
                ),
            )
        } else {
            prev
        }
    }
}

/// The extensions of a walk by step `level` of the meta-path, in edge order.
pub open spec fn children(
    nodes: Seq<Node>,
    steps: Seq<Step>,
    unique: bool,
    level: int,
    item: WalkItem,
) -> Seq<WalkItem> {
    children_upto(
        nodes,
        steps[level],
        unique,
        item.0,
        item.1,
        nodes[item.0 as int].connections@.len() as int,
    )
}

/// The end nodes of all completions of a walk that has taken `level` steps,
/// in the order of a depth-first search that explores the last extension first.
pub open spec fn walk_ends(nodes: Seq<Node>, steps: Seq<Step>, unique: bool, level: int, item: WalkItem) -> Seq<
    usize,
>
    decreases steps.len() - level, 0int, 0int,
{
    if level >= steps.len() {
        seq![item.0]
    } else {
        walk_ends_all(nodes, steps, unique, level + 1, children(nodes, steps, unique, level, item))
    }
}

/// The end nodes of the completions of several walks, the last walk first.
pub open spec fn walk_ends_all(
    nodes: Seq<Node>,
    steps: Seq<Step>,
    unique: bool,
    level: int,
    items: Seq<WalkItem>,
) -> Seq<usize>
    decreases steps.len() - level, 1int, items.len(),
{
    if items.len() == 0 {
        Seq::empty()
    } else {
        walk_ends(nodes, steps, unique, level, items.last()) + walk_ends_all(
            nodes,
            steps,
            unique,
            level,
            items.drop_last(),
        )
    }
}

/// Node `u` has an edge to `v` whose type, and whose target's type, the step admits.
pub open spec fn step_admits(nodes: Seq<Node>, step: Step, u: usize, v: usize) -> bool {
    exists|k: int|
        0 <= k < nodes[u as int].connections@.len() && (#[trigger] nodes[u as int].connections@[k]).to.0 == v
            && component_matches(step.0, nodes[u as int].connections@[k].edge_type) && component_matches(
            step.1,
            nodes[v as int].node_type,
        )
}

/// `path` starts at `start` and takes the first `path.len() - 1` steps of the
/// meta-path, each along an edge that the step admits.
pub open spec fn is_meta_walk(nodes: Seq<Node>, steps: Seq<Step>, start: usize, path: Seq<usize>) -> bool {
    &&& 1 <= path.len() <= steps.len() + 1
    &&& path[0] == start
    &&& forall|i: int| 0 <= i < path.len() - 1 ==> #[trigger] step_admits(nodes, steps[i], path[i], path[i + 1])
}

/// `v` ends a walk from `start` along the whole meta-path that never comes
/// back to `start` and, with `unique`, never enters any node twice.
pub open spec fn meta_walk_end(nodes: Seq<Node>, steps: Seq<Step>, unique: bool, start: usize, v: usize) -> bool {
    exists|path: Seq<usize>|
        #[trigger] is_meta_walk(nodes, steps, start, path) && path.len() == steps.len() + 1 && path.last() == v
            && (forall|j: int| 1 <= j < path.len() ==> path[j] != start) && (unique ==> path.no_duplicates())
}

/// `path` is a walk that leads to the partial walk `item` after `level` steps,
/// and `item` bars exactly the nodes that the walk may not enter.
pub open spec fn walk_witness(
    nodes: Seq<Node>,
    steps: Seq<Step>,
    unique: bool,
    start: usize,
    level: int,
    item: WalkItem,
    path: Seq<usize>,
) -> bool {
    &&& is_meta_walk(nodes, steps, start, path)
    &&& path.len() == level + 1
    &&& path.last() == item.0
    &&& item.1 == (if unique {
        path.to_set()
    } else {
        set![start]
    })
    &&& forall|j: int| 1 <= j < path.len() ==> path[j] != start
    &&& unique ==> path.no_duplicates()
}

/// Some walk leads to the partial walk `item` after `level` steps.
pub open spec fn has_witness(nodes: Seq<Node>, steps: Seq<Step>, unique: bool, start: usize, level: int, item: WalkItem) -> bool {
    exists|p: Seq<usize>| #[trigger] walk_witness(nodes, steps, unique, start, level, item, p)
}

proof fn lemma_children_witness(
    nodes: Seq<Node>,
    steps: Seq<Step>,
    unique: bool,
    start: usize,
    level: int,
    node: usize,
    seen: Set<usize>,
    path: Seq<usize>,
    k: int,
)
    requires
        0 <= level < steps.len(),
        walk_witness(nodes, steps, unique, start, level, (node, seen), path),
        k <= nodes[node as int].connections@.len(),
    ensures
        forall|j: int|
            0 <= j < children_upto(nodes, steps[level], unique, node, seen, k).len() ==> has_witness(
                nodes,
                steps,
                unique,
                start,
                level + 1,
                #[trigger] children_upto(nodes, steps[level], unique, node, seen, k)[j],
            ),
    decreases k,
{
    if k > 0 {
        lemma_children_witness(nodes, steps, unique, start, level, node, seen, path, k - 1);
        let prev = children_upto(nodes, steps[level], unique, node, seen, k - 1);
        let e = nodes[node as int].connections@[k - 1];
        let full = children_upto(nodes, steps[level], unique, node, seen, k);
        if edge_follows(nodes, steps[level], e, seen) {
            let to = e.to.0;
            let item = (to, if unique { seen.insert(to) } else { seen });
            assert(full == prev.push(item));
            let p2 = path.push(to);
            assert(seen.contains(start)) by {
                if unique {
                    assert(path[0] == start);
                    assert(path.to_set().contains(path[0]));
                }
            }
            assert(to != start);
            assert(step_admits(nodes, steps[level], path[level], to)) by {
                assert(path[level] == node);
                assert(nodes[node as int].connections@[k - 1].to.0 == to);
            }
            assert forall|i: int| 0 <= i < p2.len() - 1 implies #[trigger] step_admits(nodes, steps[i], p2[i], p2[i + 1]) by {
                if i < level {
                    assert(p2[i] == path[i] && p2[i + 1] == path[i + 1]);
                    assert(step_admits(nodes, steps[i], path[i], path[i + 1]));
                } else {
                    assert(p2[i] == path[level] && p2[i + 1] == to);
                }
            }
            if unique {
                path.lemma_push_to_set_commute(to);
                assert(!path.to_set().contains(to));
                assert forall|a: int, b: int| 0 <= a < p2.len() && 0 <= b < p2.len() && a != b implies p2[a] != p2[b] by {
                    if a < path.len() && b < path.len() {
                        assert(p2[a] == path[a] && p2[b] == path[b]);
                    } else if a < path.len() {
                        assert(p2[a] == path[a]);
                        assert(path.to_set().contains(path[a]));
                    } else {
                        assert(p2[b] == path[b]);
                        assert(path.to_set().contains(path[b]));
                    }
                }
            }
            assert(walk_witness(nodes, steps, unique, start, level + 1, item, p2));
            assert forall|j: int| 0 <= j < full.len() implies has_witness(nodes, steps, unique, start, level + 1, #[trigger] full[j]) by {
                if j < prev.len() {
                    assert(full[j] == prev[j]);
                } else {
                    assert(full[j] == item);
                }
            }
        } else {
            assert(full == prev);
        }
    }
}

proof fn lemma_walk_ends_sound_at(
    nodes: Seq<Node>,
    steps: Seq<Step>,
    unique: bool,
    start: usize,
    level: int,
    item: WalkItem,
    path: Seq<usize>,
)
    requires
        0 <= level <= steps.len(),
        walk_witness(nodes, steps, unique, start, level, item, path),
    ensures
        forall|i: int|
            0 <= i < walk_ends(nodes, steps, unique, level, item).len() ==> meta_walk_end(
                nodes,
                steps,
                unique,
                start,
                #[trigger] walk_ends(nodes, steps, unique, level, item)[i],
            ),
    decreases steps.len() - level, 0int, 0int,
{
    if level < steps.len() {
        let kids = children(nodes, steps, unique, level, item);
        lemma_children_witness(
            nodes,
            steps,
            unique,
            start,
            level,
            item.0,
            item.1,
            path,
            nodes[item.0 as int].connections@.len() as int,
        );
        lemma_walk_ends_all_sound(nodes, steps, unique, start, level + 1, kids);
        assert(walk_ends(nodes, steps, unique, level, item) == walk_ends_all(nodes, steps, unique, level + 1, kids));
    } else {
        assert(walk_ends(nodes, steps, unique, level, item) == seq![item.0]);
        assert(walk_ends(nodes, steps, unique, level, item)[0] == item.0);
        assert(is_meta_walk(nodes, steps, start, path));
    }
}

proof fn lemma_walk_ends_all_sound(
    nodes: Seq<Node>,
    steps: Seq<Step>,
    unique: bool,
    start: usize,
    level: int,
    items: Seq<WalkItem>,
)
    requires
        0 < level <= steps.len(),
        forall|j: int|
            0 <= j < items.len() ==> has_witness(nodes, steps, unique, start, level, #[trigger] items[j]),
    ensures
        forall|i: int|
            0 <= i < walk_ends_all(nodes, steps, unique, level, items).len() ==> meta_walk_end(
                nodes,
                steps,
                unique,
                start,
                #[trigger] walk_ends_all(nodes, steps, unique, level, items)[i],
            ),
    decreases steps.len() - level, 1int, items.len(),
{
    if items.len() > 0 {
        let last = items[items.len() - 1];
        assert(has_witness(nodes, steps, unique, start, level, items[items.len() - 1]));
        let p = choose|p: Seq<usize>| walk_witness(nodes, steps, unique, start, level, last, p);
        lemma_walk_ends_sound_at(nodes, steps, unique, start, level, items.last(), p);
        assert forall|j: int| 0 <= j < items.drop_last().len() implies has_witness(nodes, steps, unique, start, level, #[trigger] items.drop_last()[j]) by {
            assert(items.drop_last()[j] == items[j]);
        }
        lemma_walk_ends_all_sound(nodes, steps, unique, start, level, items.drop_last());
        let a = walk_ends(nodes, steps, unique, level, items.last());
        let b = walk_ends_all(nodes, steps, unique, level, items.drop_last());
        assert forall|i: int| 0 <= i < (a + b).len() implies meta_walk_end(nodes, steps, unique, start, #[trigger] (a + b)[i]) by {
            if i < a.len() {
                assert((a + b)[i] == a[i]);
            } else {
                assert((a + b)[i] == b[i - a.len()]);
            }
        }
    }
}

/// Every node at which a walk along a meta-path from `start` is reported to
/// end is the end of a walk that takes every step of the meta-path along an
/// edge the step admits, never comes back to `start` and, with `unique`,
/// never enters any node twice.
pub proof fn lemma_walk_ends_sound(nodes: Seq<Node>, steps: Seq<Step>, unique: bool, start: usize)
    ensures
        forall|i: int|
            0 <= i < walk_ends(nodes, steps, unique, 0, (start, set![start])).len() ==> meta_walk_end(
                nodes,
                steps,
                unique,
                start,
                #[trigger] walk_ends(nodes, steps, unique, 0, (start, set![start]))[i],
            ),
{
    let p = seq![start];
    assert forall|x: usize| p.to_set().contains(x) <==> set![start].contains(x) by {
        if x == start {
            assert(p[0] == x);
        }
    }
    assert(p.to_set() =~= set![start]);
    assert(walk_witness(nodes, steps, unique, start, 0, (start, set![start]), p));
    lemma_walk_ends_sound_at(nodes, steps, unique, start, 0, (start, set![start]), p);
}

/// `path` is a walk from `start` along the whole meta-path that never comes
/// back to `start` and, with `unique`, never enters any node twice.
pub open spec fn is_full_meta_walk(nodes: Seq<Node>, steps: Seq<Step>, unique: bool, start: usize, path: Seq<usize>) -> bool {
    &&& is_meta_walk(nodes, steps, start, path)
    &&& path.len() == steps.len() + 1
    &&& forall|j: int| 1 <= j < path.len() ==> path[j] != start
    &&& unique ==> path.no_duplicates()
}

proof fn lemma_children_contains(
    nodes: Seq<Node>,
    step: Step,
    unique: bool,
    node: usize,
    seen: Set<usize>,
    k: int,
    e: int,
)
    requires
        0 <= e < k <= nodes[node as int].connections@.len(),
        edge_follows(nodes, step, nodes[node as int].connections@[e], seen),
    ensures
        children_upto(nodes, step, unique, node, seen, k).contains(
            (
                nodes[node as int].connections@[e].to.0,
                if unique {
                    seen.insert(nodes[node as int].connections@[e].to.0)
                } else {
                    seen
                },
            ),
        ),
    decreases k,
{
    let prev = children_upto(nodes, step, unique, node, seen, k - 1);
    let full = children_upto(nodes, step, unique, node, seen, k);
    let c = nodes[node as int].connections@[k - 1];
    if e < k - 1 {
        lemma_children_contains(nodes, step, unique, node, seen, k - 1, e);
        let x = choose|x: int| 0 <= x < prev.len() && prev[x] == (
            nodes[node as int].connections@[e].to.0,
            if unique {
                seen.insert(nodes[node as int].connections@[e].to.0)
            } else {
                seen
            },
        );
        if edge_follows(nodes, step, c, seen) {
            assert(full[x] == prev[x]);
        }
    } else {
        assert(full[prev.len() as int] == (c.to.0, if unique { seen.insert(c.to.0) } else { seen }));
    }
}

proof fn lemma_ends_all_contains(nodes: Seq<Node>, steps: Seq<Step>, unique: bool, level: int, items: Seq<WalkItem>, j: int, x: usize)
    requires
        0 <= j < items.len(),
        walk_ends(nodes, steps, unique, level, items[j]).contains(x),
    ensures
        walk_ends_all(nodes, steps, unique, level, items).contains(x),
    decreases items.len(),
{
    let a = walk_ends(nodes, steps, unique, level, items.last());
    let b = walk_ends_all(nodes, steps, unique, level, items.drop_last());
    assert(walk_ends_all(nodes, steps, unique, level, items) == a + b);
    if j == items.len() - 1 {
        let i = choose|i: int| 0 <= i < a.len() && a[i] == x;
        assert((a + b)[i] == x);
    } else {
        assert(items.drop_last()[j] == items[j]);
        lemma_ends_all_contains(nodes, steps, unique, level, items.drop_last(), j, x);
        let i = choose|i: int| 0 <= i < b.len() && b[i] == x;
        assert((a + b)[a.len() + i] == x);
    }
}

proof fn lemma_walk_ends_complete_at(
    nodes: Seq<Node>,
    steps: Seq<Step>,
    unique: bool,
    start: usize,
    level: int,
    item: WalkItem,
    path: Seq<usize>,
)
    requires
        0 <= level <= steps.len(),
        is_full_meta_walk(nodes, steps, unique, start, path),
        item.0 == path[level],
        item.1 == (if unique {
            path.take(level + 1).to_set()
        } else {
            set![start]
        }),
    ensures
        walk_ends(nodes, steps, unique, level, item).contains(path.last()),
    decreases steps.len() - level,
{
    if level == steps.len() {
        assert(walk_ends(nodes, steps, unique, level, item) == seq![item.0]);
        assert(walk_ends(nodes, steps, unique, level, item)[0] == path.last());
    } else {
        let to = path[level + 1];
        assert(step_admits(nodes, steps[level], path[level], path[level + 1]));
        let u = item.0;
        let k = choose|k: int|
            0 <= k < nodes[u as int].connections@.len() && (#[trigger] nodes[u as int].connections@[k]).to.0 == to
                && component_matches(steps[level].0, nodes[u as int].connections@[k].edge_type) && component_matches(
                steps[level].1,
                nodes[to as int].node_type,
            );
        let seen = item.1;
        assert(!seen.contains(to)) by {
            if unique {
                if path.take(level + 1).to_set().contains(to) {
                    let pre = path.take(level + 1);
                    let i = choose|i: int| 0 <= i < pre.len() && #[trigger] pre[i] == to;
                    assert(path[i] == path[level + 1]);
                }
            }
        }
        let seen2 = if unique { seen.insert(to) } else { seen };
        lemma_children_contains(nodes, steps[level], unique, u, seen, nodes[u as int].connections@.len() as int, k);
        let kids = children(nodes, steps, unique, level, item);
        let child = (to, seen2);
        assert(kids.contains(child));
        let j = choose|j: int| 0 <= j < kids.len() && kids[j] == child;
        if unique {
            assert(path.take(level + 2) =~= path.take(level + 1).push(to));
            path.take(level + 1).lemma_push_to_set_commute(to);
        }
        lemma_walk_ends_complete_at(nodes, steps, unique, start, level + 1, child, path);
        lemma_ends_all_contains(nodes, steps, unique, level + 1, kids, j, path.last());
        assert(walk_ends(nodes, steps, unique, level, item) == walk_ends_all(nodes, steps, unique, level + 1, kids));
    }
}

/// Every walk from `start` along the whole meta-path that never comes back to
/// `start` (and, with `unique`, never enters a node twice) has its end reported.
pub proof fn lemma_walk_ends_complete(nodes: Seq<Node>, steps: Seq<Step>, unique: bool, start: usize, path: Seq<usize>)
    requires
        is_full_meta_walk(nodes, steps, unique, start, path),
    ensures
        walk_ends(nodes, steps, unique, 0, (start, set![start])).contains(path.last()),
{
    assert forall|x: usize| path.take(1).to_set().contains(x) <==> set![start].contains(x) by {
        if x == start {
            assert(path.take(1)[0] == x);
        }
    }
    assert(path.take(1).to_set() =~= set![start]);
    lemma_walk_ends_complete_at(nodes, steps, unique, start, 0, (start, set![start]), path);
}

/// A partial walk that has taken `level` steps from `start`: `start` is barred,
/// and after a step the node reached has the type the step asks for and is not `start`.
pub open spec fn walk_item_ok(nodes: Seq<Node>, steps: Seq<Step>, start: usize, level: int, item: WalkItem) -> bool {
    &&& item.1.contains(start)
    &&& level > 0 ==> component_matches(steps[level - 1].1, nodes[item.0 as int].node_type) && item.0 != start
}

/// A node at which a walk along the whole meta-path may end.
pub open spec fn walk_end_ok(nodes: Seq<Node>, steps: Seq<Step>, start: usize, v: usize) -> bool {
    component_matches(steps.last().1, nodes[v as int].node_type) && v != start
}

proof fn lemma_children_ok(
    nodes: Seq<Node>,
    steps: Seq<Step>,
    unique: bool,
    start: usize,
    level: int,
    node: usize,
    seen: Set<usize>,
    k: int,
)
    requires
        0 <= level < steps.len(),
        seen.contains(start),
    ensures
        forall|j: int|
            0 <= j < children_upto(nodes, steps[level], unique, node, seen, k).len() ==> walk_item_ok(
                nodes,
                steps,
                start,
                level + 1,
                #[trigger] children_upto(nodes, steps[level], unique, node, seen, k)[j],
            ),
    decreases k,
{
    if k > 0 {
        lemma_children_ok(nodes, steps, unique, start, level, node, seen, k - 1);
        let prev = children_upto(nodes, steps[level], unique, node, seen, k - 1);
        let e = nodes[node as int].connections@[k - 1];
        let full = children_upto(nodes, steps[level], unique, node, seen, k);
        if edge_follows(nodes, steps[level], e, seen) {
            let item = (e.to.0, if unique { seen.insert(e.to.0) } else { seen });
            assert(full == prev.push(item));
            assert(walk_item_ok(nodes, steps, start, level + 1, item));
            assert forall|j: int| 0 <= j < full.len() implies walk_item_ok(nodes, steps, start, level + 1, #[trigger] full[j]) by {
                if j < prev.len() {
                    assert(full[j] == prev[j]);
                }
            }
        } else {
            assert(full == prev);
        }
    }
}

proof fn lemma_walk_ends_ok(nodes: Seq<Node>, steps: Seq<Step>, unique: bool, start: usize, level: int, item: WalkItem)
    requires
        steps.len() > 0,
        0 <= level <= steps.len(),
        walk_item_ok(nodes, steps, start, level, item),
    ensures
        forall|i: int|
            0 <= i < walk_ends(nodes, steps, unique, level, item).len() ==> walk_end_ok(
                nodes,
                steps,
                start,
                #[trigger] walk_ends(nodes, steps, unique, level, item)[i],
            ),
    decreases steps.len() - level, 0int, 0int,
{
    if level < steps.len() {
        let kids = children(nodes, steps, unique, level, item);
        lemma_children_ok(nodes, steps, unique, start, level, item.0, item.1, nodes[item.0 as int].connections@.len() as int);
        lemma_walk_ends_all_ok(nodes, steps, unique, start, level + 1, kids);
        assert(walk_ends(nodes, steps, unique, level, item) == walk_ends_all(nodes, steps, unique, level + 1, kids));
    } else {
        assert(walk_ends(nodes, steps, unique, level, item) == seq![item.0]);
        assert(steps.last() == steps[level - 1]);
        assert(walk_ends(nodes, steps, unique, level, item)[0] == item.0);
    }
}

proof fn lemma_walk_ends_all_ok(
    nodes: Seq<Node>,
    steps: Seq<Step>,
    unique: bool,
    start: usize,
    level: int,
    items: Seq<WalkItem>,
)
    requires
        steps.len() > 0,
        0 < level <= steps.len(),
        forall|j: int| 0 <= j < items.len() ==> walk_item_ok(nodes, steps, start, level, #[trigger] items[j]),
    ensures
        forall|i: int|
            0 <= i < walk_ends_all(nodes, steps, unique, level, items).len() ==> walk_end_ok(
                nodes,
                steps,
                start,
                #[trigger] walk_ends_all(nodes, steps, unique, level, items)[i],
            ),
    decreases steps.len() - level, 1int, items.len(),
{
    if items.len() > 0 {
        assert(walk_item_ok(nodes, steps, start, level, items[items.len() - 1]));
        lemma_walk_ends_ok(nodes, steps, unique, start, level, items.last());
        assert forall|j: int| 0 <= j < items.drop_last().len() implies walk_item_ok(
            nodes,
            steps,
            start,
            level,
            #[trigger] items.drop_last()[j],
        ) by {
            assert(items.drop_last()[j] == items[j]);
        }
        lemma_walk_ends_all_ok(nodes, steps, unique, start, level, items.drop_last());
        let a = walk_ends(nodes, steps, unique, level, items.last());
        let b = walk_ends_all(nodes, steps, unique, level, items.drop_last());
        assert forall|i: int| 0 <= i < (a + b).len() implies walk_end_ok(nodes, steps, start, #[trigger] (a + b)[i]) by {
            if i < a.len() {
                assert((a + b)[i] == a[i]);
            } else {
                assert((a + b)[i] == b[i - a.len()]);
            }
        }
    }
}

/// Every walk along a meta-path of at least one step ends at a node of the
/// type its last step asks for, and never back at its start.
pub proof fn lemma_walk_ends_typed(nodes: Seq<Node>, steps: Seq<Step>, unique: bool, start: usize)
    requires
        steps.len() > 0,
    ensures
        forall|i: int|
            0 <= i < walk_ends(nodes, steps, unique, 0, (start, set![start])).len() ==> walk_end_ok(
                nodes,
                steps,
                start,
                #[trigger] walk_ends(nodes, steps, unique, 0, (start, set![start]))[i],
            ),
{
    lemma_walk_ends_ok(nodes, steps, unique, start, 0, (start, set![start]));
}

/// The number of partial walks explored to complete a walk.
pub open spec fn walk_size(nodes: Seq<Node>, steps: Seq<Step>, unique: bool, level: int, item: WalkItem) -> nat
    decreases steps.len() - level, 0int, 0int,
{
    if level >= steps.len() {
        1
    } else {
        1 + walk_size_all(nodes, steps, unique, level + 1, children(nodes, steps, unique, level, item))
    }
}

pub open spec fn walk_size_all(
    nodes: Seq<Node>,
    steps: Seq<Step>,
    unique: bool,
    level: int,
    items: Seq<WalkItem>,
) -> nat
    decreases steps.len() - level, 1int, items.len(),
{
    if items.len() == 0 {
        0
    } else {
        walk_size(nodes, steps, unique, level, items.last()) + walk_size_all(
            nodes,
            steps,
            unique,
            level,
            items.drop_last(),
        )
    }
}

/// A pending walk: node reached, steps taken, nodes it may no longer enter.
pub type PendingWalk = (usize, usize, Set<usize>);

pub open spec fn lift(items: Seq<WalkItem>, level: usize) -> Seq<PendingWalk> {
    items.map_values(|it: WalkItem| (it.0, level, it.1))
}

/// The end nodes still to come from a stack of pending walks, top first.
pub open spec fn pending_ends(nodes: Seq<Node>, steps: Seq<Step>, unique: bool, stack: Seq<PendingWalk>) -> Seq<
    usize,
>
    decreases stack.len(),
{
    if stack.len() == 0 {
        Seq::empty()
    } else {
        let top = stack.last();
        walk_ends(nodes, steps, unique, top.1 as int, (top.0, top.2)) + pending_ends(
            nodes,
            steps,
            unique,
            stack.drop_last(),
        )
    }
}

pub open spec fn pending_size(nodes: Seq<Node>, steps: Seq<Step>, unique: bool, stack: Seq<PendingWalk>) -> nat
    decreases stack.len(),
{
    if stack.len() == 0 {
        0
    } else {
        let top = stack.last();
        walk_size(nodes, steps, unique, top.1 as int, (top.0, top.2)) + pending_size(
            nodes,
            steps,
            unique,
            stack.drop_last(),
        )
    }
}

proof fn lemma_pending_push_all(
    nodes: Seq<Node>,
    steps: Seq<Step>,
    unique: bool,
    rest: Seq<PendingWalk>,
    level: usize,
    items: Seq<WalkItem>,
)
    ensures
        pending_ends(nodes, steps, unique, rest + lift(items, level)) == walk_ends_all(
            nodes,
            steps,
            unique,
            level as int,
            items,
        ) + pending_ends(nodes, steps, unique, rest),
        pending_size(nodes, steps, unique, rest + lift(items, level)) == walk_size_all(
            nodes,
            steps,
            unique,
            level as int,
            items,
        ) + pending_size(nodes, steps, unique, rest),
    decreases items.len(),
{
    let s = rest + lift(items, level);
    if items.len() == 0 {
        assert(s =~= rest);
        assert(walk_ends_all(nodes, steps, unique, level as int, items) =~= Seq::empty());
        assert(Seq::<usize>::empty() + pending_ends(nodes, steps, unique, rest) =~= pending_ends(
            nodes,
            steps,
            unique,
            rest,
        ));
    } else {
        lemma_pending_push_all(nodes, steps, unique, rest, level, items.drop_last());
        assert(s.drop_last() =~= rest + lift(items.drop_last(), level));
        assert(s.last() == (items.last().0, level, items.last().1));
        let a = walk_ends(nodes, steps, unique, level as int, items.last());
        let b = walk_ends_all(nodes, steps, unique, level as int, items.drop_last());
        let c = pending_ends(nodes, steps, unique, rest);
        assert(a + (b + c) =~= (a + b) + c);
    }
}

impl HeteroDiGraph {
    /// The end nodes of the walks from `start` that follow the meta-path's
    /// steps and never re-enter `start`; with `unique_nodes`, a walk enters
    /// no node twice. One entry per walk, in depth-first order.
    pub fn walk_meta_path(&self, start: usize, meta_path: &MetaPath<usize>, unique_nodes: bool) -> (r: Vec<usize>)
        requires
            self.wf(),
            start < self.nodes@.len(),
        ensures
            r@ == walk_ends(self.nodes@, meta_path.steps@, unique_nodes, 0, (start, set![start])),
            forall|i: int| 0 <= i < r@.len() ==> r@[i] < self.nodes@.len(),
            meta_path.steps@.len() > 0 ==> forall|i: int|
                0 <= i < r@.len() ==> walk_end_ok(self.nodes@, meta_path.steps@, start, #[trigger] r@[i]),
            forall|i: int|
                0 <= i < r@.len() ==> meta_walk_end(self.nodes@, meta_path.steps@, unique_nodes, start, #[trigger] r@[i]),
            forall|p: Seq<usize>|
                #[trigger] is_full_meta_walk(self.nodes@, meta_path.steps@, unique_nodes, start, p) ==> r@.contains(p.last()),
    {
        proof {
            assert forall|p: Seq<usize>| #[trigger] is_full_meta_walk(self.nodes@, meta_path.steps@, unique_nodes, start, p)
                implies walk_ends(self.nodes@, meta_path.steps@, unique_nodes, 0, (start, set![start])).contains(p.last()) by {
                lemma_walk_ends_complete(self.nodes@, meta_path.steps@, unique_nodes, start, p);
            }
            lemma_walk_ends_sound(self.nodes@, meta_path.steps@, unique_nodes, start);
            if meta_path.steps@.len() > 0 {
                lemma_walk_ends_typed(self.nodes@, meta_path.steps@, unique_nodes, start);
            }
        }
        let ghost nodes = self.nodes@;
        let ghost steps = meta_path.steps@;
        let ghost goal = walk_ends(nodes, steps, unique_nodes, 0, (start, set![start]));
        let mut first_seen: BTreeSet<usize> = BTreeSet::new();
        first_seen.insert(start);
        let mut stack: Vec<(usize, usize, BTreeSet<usize>)> = Vec::new();
        stack.push((start, 0, first_seen));
        let mut result: Vec<usize> = Vec::new();
        assert(first_seen@ =~= set![start]);
        assert(stack@.map_values(|x: (usize, usize, BTreeSet<usize>)| (x.0, x.1, x.2@)).last() == (start, 0usize, set![start]));
        assert(stack@.map_values(|x: (usize, usize, BTreeSet<usize>)| (x.0, x.1, x.2@)).drop_last() =~= Seq::<PendingWalk>::empty());
        proof {
            let sv = stack@.map_values(|x: (usize, usize, BTreeSet<usize>)| (x.0, x.1, x.2@));
            assert(pending_ends(nodes, steps, unique_nodes, sv.drop_last()) =~= Seq::<usize>::empty());
            assert(pending_ends(nodes, steps, unique_nodes, sv) == goal + Seq::<usize>::empty());
            assert(result@ + pending_ends(nodes, steps, unique_nodes, sv) =~= goal);
        }
        while stack.len() > 0
            invariant
                self.wf(),
                nodes == self.nodes@,
                steps == meta_path.steps@,
                result@ + pending_ends(nodes, steps, unique_nodes, stack@.map_values(|x: (usize, usize, BTreeSet<usize>)| (x.0, x.1, x.2@))) == goal,
                forall|i: int| 0 <= i < stack@.len() ==> (#[trigger] stack@[i]).0 < nodes.len() && stack@[i].1 <= steps.len(),
                forall|i: int| 0 <= i < result@.len() ==> result@[i] < nodes.len(),
            decreases pending_size(nodes, steps, unique_nodes, stack@.map_values(|x: (usize, usize, BTreeSet<usize>)| (x.0, x.1, x.2@))),
        {
            let ghost before = stack@.map_values(|x: (usize, usize, BTreeSet<usize>)| (x.0, x.1, x.2@));
            let (node, index, seen) = stack.pop().unwrap();
            let ghost rest = stack@.map_values(|x: (usize, usize, BTreeSet<usize>)| (x.0, x.1, x.2@));
            assert(before.drop_last() =~= rest);
            assert(before.last() == (node, index, seen@));
            if index >= meta_path.steps.len() {
                let ghost old_result = result@;
                result.push(node);
                assert(old_result + (seq![node] + pending_ends(nodes, steps, unique_nodes, rest)) =~= result@ + pending_ends(nodes, steps, unique_nodes, rest));
            } else {
                let (edge_type, node_type) = meta_path.steps[index];
                assert(self.node_wf(node as int));
                let mut k: usize = 0;
                while k < self.nodes[node].connections.len()
                    invariant
                        self.wf(),
                        nodes == self.nodes@,
                        steps == meta_path.steps@,
                        node < nodes.len(),
                        index < steps.len(),
                        index < meta_path.steps.len(),
                        (edge_type, node_type) == steps[index as int],
                        k <= nodes[node as int].connections@.len(),
                        stack@.map_values(|x: (usize, usize, BTreeSet<usize>)| (x.0, x.1, x.2@)) == rest + lift(
                            children_upto(nodes, steps[index as int], unique_nodes, node, seen@, k as int),
                            (index + 1) as usize,
                        ),
                        forall|i: int| 0 <= i < stack@.len() ==> (#[trigger] stack@[i]).0 < nodes.len() && stack@[i].1 <= steps.len(),
                    decreases nodes[node as int].connections@.len() - k,
                {
                    let edge = self.nodes[node].connections[k];
                    assert(self.node_wf(node as int));
                    assert(edge == nodes[node as int].connections@[k as int]);
                    let ghost before_push = stack@.map_values(|x: (usize, usize, BTreeSet<usize>)| (x.0, x.1, x.2@));
                    let ghost ch = children_upto(nodes, steps[index as int], unique_nodes, node, seen@, k as int);
                    if edge_type.matches(edge.edge_type) {
                        let new_node = edge.to.0;
                        if node_type.matches(self.nodes[new_node].node_type) && !seen.contains(&new_node) {
                            let mut seen_for_edge = seen.clone();
                            if unique_nodes {
                                seen_for_edge.insert(new_node);
                            }
                            stack.push((new_node, index + 1, seen_for_edge));
                            assert(stack@.map_values(|x: (usize, usize, BTreeSet<usize>)| (x.0, x.1, x.2@)) =~= before_push.push((new_node, (index + 1) as usize, seen_for_edge@)));
                            assert(lift(ch.push((new_node, seen_for_edge@)), (index + 1) as usize) =~= lift(ch, (index + 1) as usize).push((new_node, (index + 1) as usize, seen_for_edge@)));
                            assert(rest + lift(ch, (index + 1) as usize).push((new_node, (index + 1) as usize, seen_for_edge@)) =~= (rest + lift(ch, (index + 1) as usize)).push((new_node, (index + 1) as usize, seen_for_edge@)));
                        }
                    }
                    k = k + 1;
                }
                proof {
                    let ch = children(nodes, steps, unique_nodes, index as int, (node, seen@));
                    lemma_pending_push_all(nodes, steps, unique_nodes, rest, (index + 1) as usize, ch);
                }
            }
        }
        assert(stack@.map_values(|x: (usize, usize, BTreeSet<usize>)| (x.0, x.1, x.2@)) =~= Seq::<PendingWalk>::empty());
        assert(result@ + Seq::<usize>::empty() =~= result@);
        result
    }
}

//////////////////////////////////////////////////////////////////////////////////////////////////
// The subgraph of meta-path connections
//////////////////////////////////////////////////////////////////////////////////////////////////

/// A connection found by a meta-path: source node, meta-path index, target node.
pub type Event = (usize, usize, usize);

/// A resolved meta-path as plain values: its start and its steps.
pub type ResolvedPath = (PathComponent<usize>, Seq<Step>);

pub open spec fn resolved_views(mps: Seq<MetaPath<usize>>) -> Seq<ResolvedPath> {
    mps.map_values(|mp: MetaPath<usize>| mp.resolved_view())
}

/// The connections that meta-path `m` finds from node `s`, in walk order.
pub open spec fn source_events(nodes: Seq<Node>, mps: Seq<ResolvedPath>, unique: bool, s: int, m: int) -> Seq<Event> {
    if component_matches(mps[m].0, nodes[s].node_type) {
        walk_ends(nodes, mps[m].1, unique, 0, (s as usize, set![s as usize])).map_values(
            |t: usize| (s as usize, m as usize, t),
        )
    } else {
        Seq::empty()
    }
}

/// The connections found from node `s`, meta-path by meta-path.
pub open spec fn node_events(nodes: Seq<Node>, mps: Seq<ResolvedPath>, unique: bool, s: int) -> Seq<Event> {
    Seq::new(mps.len(), |m: int| source_events(nodes, mps, unique, s, m)).flatten()
}

/// All connections found, source node by source node.
pub open spec fn subgraph_events(nodes: Seq<Node>, mps: Seq<ResolvedPath>, unique: bool) -> Seq<Event> {
    Seq::new(nodes.len(), |s: int| node_events(nodes, mps, unique, s)).flatten()
}

/// A connection `(s, m, t)` joins a source node `s` whose type the start of
/// meta-path `m` admits to a node `t` at which a walk from `s` along the
/// whole meta-path ends.
pub open spec fn event_sound(nodes: Seq<Node>, mps: Seq<ResolvedPath>, unique: bool, e: Event) -> bool {
    &&& e.0 < nodes.len()
    &&& e.1 < mps.len()
    &&& component_matches(mps[e.1 as int].0, nodes[e.0 as int].node_type)
    &&& meta_walk_end(nodes, mps[e.1 as int].1, unique, e.0, e.2)
}

proof fn lemma_flatten_all<A>(ss: Seq<Seq<A>>, p: spec_fn(A) -> bool)
    requires
        forall|i: int, j: int| 0 <= i < ss.len() && 0 <= j < ss[i].len() ==> p(#[trigger] ss[i][j]),
    ensures
        forall|k: int| 0 <= k < ss.flatten().len() ==> p(#[trigger] ss.flatten()[k]),
    decreases ss.len(),
{
    if ss.len() > 0 {
        let rest = ss.drop_first();
        assert forall|i: int, j: int| 0 <= i < rest.len() && 0 <= j < rest[i].len() implies p(#[trigger] rest[i][j]) by {
            assert(rest[i] == ss[i + 1]);
        }
        lemma_flatten_all(rest, p);
        assert(ss.flatten() == ss[0] + rest.flatten());
        assert forall|k: int| 0 <= k < ss.flatten().len() implies p(#[trigger] ss.flatten()[k]) by {
            if k < ss[0].len() {
                assert(ss.flatten()[k] == ss[0][k]);
            } else {
                assert(ss.flatten()[k] == rest.flatten()[k - ss[0].len()]);
            }
        }
    }
}

/// Every connection of a meta-path subgraph starts at a node whose type the
/// meta-path's start admits, and ends where a walk along that meta-path from
/// it ends.
pub proof fn lemma_subgraph_events_sound(nodes: Seq<Node>, mps: Seq<ResolvedPath>, unique: bool)
    requires
        nodes.len() <= usize::MAX,
        mps.len() <= usize::MAX,
    ensures
        forall|k: int|
            0 <= k < subgraph_events(nodes, mps, unique).len() ==> event_sound(
                nodes,
                mps,
                unique,
                #[trigger] subgraph_events(nodes, mps, unique)[k],
            ),
{
    let ok = |e: Event| event_sound(nodes, mps, unique, e);
    let outer = Seq::new(nodes.len(), |s: int| node_events(nodes, mps, unique, s));
    assert forall|s: int, x: int| 0 <= s < outer.len() && 0 <= x < outer[s].len() implies ok(#[trigger] outer[s][x]) by {
        let inner = Seq::new(mps.len(), |m: int| source_events(nodes, mps, unique, s, m));
        assert forall|m: int, y: int| 0 <= m < inner.len() && 0 <= y < inner[m].len() implies ok(#[trigger] inner[m][y]) by {
            let se = source_events(nodes, mps, unique, s, m);
            assert(inner[m] == se);
            if component_matches(mps[m].0, nodes[s].node_type) {
                let ends = walk_ends(nodes, mps[m].1, unique, 0, (s as usize, set![s as usize]));
                lemma_walk_ends_sound(nodes, mps[m].1, unique, s as usize);
                assert(se[y] == (s as usize, m as usize, ends[y]));
                assert(meta_walk_end(nodes, mps[m].1, unique, s as usize, ends[y]));
                assert(event_sound(nodes, mps, unique, se[y]));
            }
        }
        lemma_flatten_all(inner, ok);
        assert(outer[s] == inner.flatten());
    }
    lemma_flatten_all(outer, ok);
}

proof fn lemma_flatten_contains<A>(ss: Seq<Seq<A>>, i: int, x: A)
    requires
        0 <= i < ss.len(),
        ss[i].contains(x),
    ensures
        ss.flatten().contains(x),
    decreases ss.len(),
{
    let rest = ss.drop_first();
    assert(ss.flatten() == ss[0] + rest.flatten());
    if i == 0 {
        let j = choose|j: int| 0 <= j < ss[0].len() && ss[0][j] == x;
        assert(ss.flatten()[j] == x);
    } else {
        assert(rest[i - 1] == ss[i]);
        lemma_flatten_contains(rest, i - 1, x);
        let j = choose|j: int| 0 <= j < rest.flatten().len() && rest.flatten()[j] == x;
        assert(ss.flatten()[ss[0].len() + j] == x);
    }
}

/// Every walk along a meta-path from a node whose type the meta-path's start
/// admits gives a connection of the meta-path subgraph.
pub proof fn lemma_subgraph_events_complete(
    nodes: Seq<Node>,
    mps: Seq<ResolvedPath>,
    unique: bool,
    s: int,
    m: int,
    path: Seq<usize>,
)
    requires
        nodes.len() <= usize::MAX,
        mps.len() <= usize::MAX,
        0 <= s < nodes.len(),
        0 <= m < mps.len(),
        component_matches(mps[m].0, nodes[s].node_type),
        is_full_meta_walk(nodes, mps[m].1, unique, s as usize, path),
    ensures
        subgraph_events(nodes, mps, unique).contains((s as usize, m as usize, path.last())),
{
    let ends = walk_ends(nodes, mps[m].1, unique, 0, (s as usize, set![s as usize]));
    lemma_walk_ends_complete(nodes, mps[m].1, unique, s as usize, path);
    let y = choose|y: int| 0 <= y < ends.len() && ends[y] == path.last();
    let se = source_events(nodes, mps, unique, s, m);
    assert(se[y] == (s as usize, m as usize, path.last()));
    let inner = Seq::new(mps.len(), |mm: int| source_events(nodes, mps, unique, s, mm));
    assert(inner[m] == se);
    lemma_flatten_contains(inner, m, (s as usize, m as usize, path.last()));
    let outer = Seq::new(nodes.len(), |ss: int| node_events(nodes, mps, unique, ss));
    assert(outer[s] == inner.flatten());
    lemma_flatten_contains(outer, s, (s as usize, m as usize, path.last()));
}

pub open spec fn add_once(a: Seq<usize>, x: usize) -> Seq<usize> {
    if a.contains(x) {
        a
    } else {
        a.push(x)
    }
}

/// The nodes that take part in the connections, in order of first
/// appearance (a connection's source before its target).
pub open spec fn appearance(ev: Seq<Event>) -> Seq<usize>
    decreases ev.len(),
{
    if ev.len() == 0 {
        Seq::empty()
    } else {
        add_once(add_once(appearance(ev.drop_last()), ev.last().0), ev.last().2)
    }
}

/// The outgoing edges of node `i` of the subgraph: one per connection from
/// it, numbered by the connection's position and typed by its meta-path.
pub open spec fn sub_connections(ev: Seq<Event>, i: int) -> Seq<Edge>
    decreases ev.len(),
{
    if ev.len() == 0 {
        Seq::empty()
    } else {
        let prev = sub_connections(ev.drop_last(), i);
        let e = ev.last();
        let a = appearance(ev);
        if a.index_of(e.0) == i {
            prev.push(
                Edge {
                    uid: (ev.len() - 1) as usize,
                    edge_type: e.1,
                    to: RawNodeRef(a.index_of(e.2) as usize),
                },
            )
        } else {
            prev
        }
    }
}

proof fn lemma_index_of_unique(a: Seq<usize>, i: int)
    requires
        a.no_duplicates(),
        0 <= i < a.len(),
    ensures
        a.index_of(a[i]) == i,
{
    let j = a.index_of(a[i]);
    assert(a.contains(a[i]));
}

proof fn lemma_add_once(a: Seq<usize>, x: usize)
    requires
        a.no_duplicates(),
    ensures
        add_once(a, x).no_duplicates(),
        add_once(a, x).contains(x),
        a.len() <= add_once(a, x).len() <= a.len() + 1,
        forall|i: int| 0 <= i < a.len() ==> add_once(a, x)[i] == a[i],
        add_once(a, x).index_of(x) < add_once(a, x).len(),
        add_once(a, x)[add_once(a, x).index_of(x)] == x,
        forall|y: usize| #[trigger] add_once(a, x).contains(y) <==> (a.contains(y) || y == x),
{
    let b = add_once(a, x);
    if !a.contains(x) {
        assert(b[a.len() as int] == x);
        assert forall|y: usize| #[trigger] b.contains(y) implies (a.contains(y) || y == x) by {
            let j = choose|j: int| 0 <= j < b.len() && b[j] == y;
            if j < a.len() {
                assert(a[j] == y);
            }
        }
        assert forall|y: usize| a.contains(y) implies #[trigger] b.contains(y) by {
            let j = choose|j: int| 0 <= j < a.len() && a[j] == y;
            assert(b[j] == y);
        }
    }
    assert(b.contains(x));
}

proof fn lemma_appearance(ev: Seq<Event>, n: int)
    requires
        forall|k: int| 0 <= k < ev.len() ==> (#[trigger] ev[k]).0 < n && ev[k].2 < n,
    ensures
        appearance(ev).no_duplicates(),
        forall|i: int| 0 <= i < appearance(ev).len() ==> #[trigger] appearance(ev)[i] < n,
        forall|k: int| 0 <= k < ev.len() ==> appearance(ev).contains(#[trigger] ev[k].0) && appearance(ev).contains(ev[k].2),
    decreases ev.len(),
{
    if ev.len() > 0 {
        let dl = ev.drop_last();
        assert forall|k: int| 0 <= k < dl.len() implies (#[trigger] dl[k]).0 < n && dl[k].2 < n by {
            assert(dl[k] == ev[k]);
        }
        lemma_appearance(dl, n);
        let a0 = appearance(dl);
        let e = ev.last();
        lemma_add_once(a0, e.0);
        lemma_add_once(add_once(a0, e.0), e.2);
        let a = appearance(ev);
        assert forall|i: int| 0 <= i < a.len() implies #[trigger] a[i] < n by {
            if i < a0.len() {
                assert(a[i] == a0[i]);
            } else {
                assert(a.contains(a[i]));
            }
        }
        assert forall|k: int| 0 <= k < ev.len() implies a.contains(#[trigger] ev[k].0) && a.contains(ev[k].2) by {
            if k < dl.len() {
                assert(dl[k] == ev[k]);
                assert(a0.contains(ev[k].0));
                assert(add_once(a0, e.0).contains(ev[k].0));
                assert(add_once(a0, e.0).contains(ev[k].2));
            }
        }
    }
}

proof fn lemma_sub_connections(ev: Seq<Event>, i: int, n: int, m: int)
    requires
        forall|k: int| 0 <= k < ev.len() ==> (#[trigger] ev[k]).0 < n && ev[k].2 < n && ev[k].1 < m,
    ensures
        i < 0 || i >= appearance(ev).len() ==> sub_connections(ev, i).len() == 0,
        forall|k: int|
            0 <= k < sub_connections(ev, i).len() ==> (#[trigger] sub_connections(ev, i)[k]).to.0
                < appearance(ev).len() && sub_connections(ev, i)[k].edge_type < m
                && sub_connections(ev, i)[k].uid < ev.len(),
    decreases ev.len(),
{
    if ev.len() > 0 {
        let dl = ev.drop_last();
        assert forall|k: int| 0 <= k < dl.len() implies (#[trigger] dl[k]).0 < n && dl[k].2 < n && dl[k].1 < m by {
            assert(dl[k] == ev[k]);
        }
        lemma_sub_connections(dl, i, n, m);
        lemma_appearance(dl, n);
        let a0 = appearance(dl);
        let e = ev.last();
        lemma_add_once(a0, e.0);
        lemma_add_once(add_once(a0, e.0), e.2);
        let a = appearance(ev);
        assert(a.index_of(e.2) < a.len());
        assert(a.index_of(e.0) < a.len());
        let prev = sub_connections(dl, i);
        let cur = sub_connections(ev, i);
        assert forall|k: int| 0 <= k < cur.len() implies (#[trigger] cur[k]).to.0 < a.len()
            && cur[k].edge_type < m && cur[k].uid < ev.len() by {
            if k < prev.len() {
                assert(cur[k] == prev[k]);
            }
        }
    }
}

/// Edge `x` of subgraph node `i` stands for the connection it is numbered by:
/// that connection leads from the node that `i` stands for, by the meta-path
/// that `x`'s type names, to the node that `x`'s target stands for.
pub open spec fn edge_stands_for(ev: Seq<Event>, i: int, x: Edge) -> bool {
    &&& x.uid < ev.len()
    &&& ev[x.uid as int] == (appearance(ev)[i], x.edge_type, appearance(ev)[x.to.0 as int])
}

/// Every edge of the subgraph built from the connections `ev` stands for the
/// connection it is numbered by, between the nodes its ends stand for.
pub proof fn lemma_sub_connections_stand_for(ev: Seq<Event>, i: int, n: int, m: int)
    requires
        forall|k: int| 0 <= k < ev.len() ==> (#[trigger] ev[k]).0 < n && ev[k].2 < n && ev[k].1 < m,
        ev.len() <= usize::MAX,
        appearance(ev).len() <= usize::MAX,
    ensures
        forall|k: int|
            0 <= k < sub_connections(ev, i).len() ==> edge_stands_for(ev, i, #[trigger] sub_connections(ev, i)[k]),
    decreases ev.len(),
{
    if ev.len() > 0 {
        let dl = ev.drop_last();
        assert forall|k: int| 0 <= k < dl.len() implies (#[trigger] dl[k]).0 < n && dl[k].2 < n && dl[k].1 < m by {
            assert(dl[k] == ev[k]);
        }
        lemma_appearance(dl, n);
        lemma_add_once(appearance(dl), ev.last().0);
        lemma_add_once(add_once(appearance(dl), ev.last().0), ev.last().2);
        lemma_sub_connections_stand_for(dl, i, n, m);
        lemma_sub_connections(dl, i, n, m);
        lemma_sub_connections(ev, i, n, m);
        lemma_appearance(dl, n);
        let a0 = appearance(dl);
        let e = ev.last();
        lemma_add_once(a0, e.0);
        lemma_add_once(add_once(a0, e.0), e.2);
        let a = appearance(ev);
        assert(a == add_once(add_once(a0, e.0), e.2));
        assert forall|j: int| 0 <= j < a0.len() implies #[trigger] a[j] == a0[j] by {
            assert(add_once(a0, e.0)[j] == a0[j]);
        }
        let prev = sub_connections(dl, i);
        let cur = sub_connections(ev, i);
        let new_edge = Edge { uid: (ev.len() - 1) as usize, edge_type: e.1, to: RawNodeRef(a.index_of(e.2) as usize) };
        assert(cur == (if a.index_of(e.0) == i {
            prev.push(new_edge)
        } else {
            prev
        }));
        assert(a[a.index_of(e.2)] == e.2);
        assert(ev[ev.len() - 1] == e);
        assert forall|k: int| 0 <= k < cur.len() implies edge_stands_for(ev, i, #[trigger] cur[k]) by {
            if k < prev.len() {
                assert(cur[k] == prev[k]);
                let x = prev[k];
                assert(edge_stands_for(dl, i, x));
                assert(0 <= i < a0.len());
                assert(x.to.0 < a0.len());
                assert(ev[x.uid as int] == dl[x.uid as int]);
            } else {
                let x = cur[k];
                assert(x == new_edge);
                assert(a.index_of(e.0) == i);
                assert(a[i] == e.0);
                assert(a[x.to.0 as int] == e.2);
                assert(ev[x.uid as int] == e);
            }
        }
    }
}

/// Collects the nodes and edges of a meta-path subgraph.
struct SubgraphBuilder {
    nodes: Vec<Node>,
    node_mapping: HashMap<usize, usize>,
    edge_types: TypeTable,
    next_edge_id: usize,
}

impl SubgraphBuilder {
    /// The builder holds the subgraph made of the connections `ev` of the graph with nodes `orig`.
    spec fn models(&self, orig: Seq<Node>, ev: Seq<Event>) -> bool {
        let app = appearance(ev);
        &&& self.nodes@.len() == app.len()
        &&& app.no_duplicates()
        &&& forall|i: int|
            0 <= i < app.len() ==> {
                &&& (#[trigger] self.nodes@[i]).uid == i
                &&& self.nodes@[i].property_index == orig[app[i] as int].property_index
                &&& self.nodes@[i].node_type == orig[app[i] as int].node_type
                &&& self.nodes@[i].connections@ == sub_connections(ev, i)
            }
        &&& forall|u: usize| #[trigger] self.node_mapping@.contains_key(u) <==> app.contains(u)
        &&& forall|u: usize| #[trigger] self.node_mapping@.contains_key(u) ==> self.node_mapping@[u] == app.index_of(u)
        &&& self.next_edge_id == ev.len()
    }

    fn new(edge_types: TypeTable) -> (b: SubgraphBuilder)
        ensures
            forall|orig: Seq<Node>| b.models(orig, Seq::empty()),
            b.edge_types == edge_types,
    {
        let b = SubgraphBuilder {
            nodes: Vec::new(),
            node_mapping: HashMap::new(),
            edge_types,
            next_edge_id: 0,
        };
        assert(appearance(Seq::<Event>::empty()) =~= Seq::<usize>::empty());
        b
    }

    /// The subgraph node for graph node `node`, added where it is new.
    fn maybe_add_node(&mut self, node: &Node, Ghost(orig): Ghost<Seq<Node>>, Ghost(app): Ghost<Seq<usize>>) -> (r: RawNodeRef)
        requires
            node.uid < orig.len(),
            orig[node.uid as int].property_index == node.property_index,
            orig[node.uid as int].node_type == node.node_type,
            app.no_duplicates(),
            old(self).nodes@.len() == app.len(),
            forall|u: usize| #[trigger] old(self).node_mapping@.contains_key(u) <==> app.contains(u),
            forall|u: usize| #[trigger] old(self).node_mapping@.contains_key(u) ==> old(self).node_mapping@[u] == app.index_of(u),
        ensures
            final(self).nodes@.len() == add_once(app, node.uid).len(),
            forall|i: int| 0 <= i < app.len() ==> #[trigger] final(self).nodes@[i] == old(self).nodes@[i],
            !app.contains(node.uid) ==> {
                let fresh = final(self).nodes@[app.len() as int];
                &&& fresh.uid == app.len()
                &&& fresh.property_index == node.property_index
                &&& fresh.node_type == node.node_type
                &&& fresh.connections@.len() == 0
            },
            forall|u: usize| #[trigger] final(self).node_mapping@.contains_key(u) <==> add_once(app, node.uid).contains(u),
            forall|u: usize| #[trigger] final(self).node_mapping@.contains_key(u) ==> final(self).node_mapping@[u] == add_once(app, node.uid).index_of(u),
            r.0 == add_once(app, node.uid).index_of(node.uid),
            final(self).edge_types == old(self).edge_types,
            final(self).next_edge_id == old(self).next_edge_id,
    {
        proof {
            lemma_add_once(app, node.uid);
        }
        let found = match self.node_mapping.get(&node.uid) {
            Some(i) => Some(*i),
            None => None,
        };
        match found {
            Some(i) => {
                RawNodeRef(i)
            },
            None => {
                let uid = self.nodes.len();
                self.node_mapping.insert(node.uid, uid);
                self.nodes.push(Node {
                    uid,
                    property_index: node.property_index,
                    node_type: node.node_type,
                    connections: Vec::new(),
                });
                proof {
                    let b = add_once(app, node.uid);
                    lemma_index_of_unique(b, app.len() as int);
                    assert forall|u: usize| #[trigger] self.node_mapping@.contains_key(u) implies self.node_mapping@[u] == b.index_of(u) by {
                        if u != node.uid {
                            let j = app.index_of(u);
                            assert(app[j] == u);
                            assert(b[j] == u);
                            lemma_index_of_unique(b, j);
                        }
                    }
                }
                RawNodeRef(uid)
            },
        }
    }

    /// Adds an edge of type `edge_type`, numbered in order.
    fn add_edge(&mut self, from: RawNodeRef, to: RawNodeRef, edge_type: usize)
        requires
            from.0 < old(self).nodes@.len(),
            old(self).next_edge_id < usize::MAX,
        ensures
            final(self).nodes@.len() == old(self).nodes@.len(),
            forall|i: int| 0 <= i < old(self).nodes@.len() && i != from.0 ==> #[trigger] final(self).nodes@[i] == old(self).nodes@[i],
            final(self).nodes@[from.0 as int].uid == old(self).nodes@[from.0 as int].uid,
            final(self).nodes@[from.0 as int].property_index == old(self).nodes@[from.0 as int].property_index,
            final(self).nodes@[from.0 as int].node_type == old(self).nodes@[from.0 as int].node_type,
            final(self).nodes@[from.0 as int].connections@ == old(self).nodes@[from.0 as int].connections@.push(
                Edge { uid: old(self).next_edge_id, edge_type, to },
            ),
            final(self).next_edge_id == old(self).next_edge_id + 1,
            final(self).node_mapping == old(self).node_mapping,
            final(self).edge_types == old(self).edge_types,
    {
        let uid = self.next_edge_id;
        self.next_edge_id = self.next_edge_id + 1;
        self.nodes[from.0].connections.push(Edge { uid, edge_type, to });
    }

    /// Adds the connection `e`, which follows the connections `ev`.
    fn add_connection(&mut self, graph: &HeteroDiGraph, e: Event, Ghost(ev): Ghost<Seq<Event>>)
        requires
            graph.wf(),
            old(self).models(graph.nodes@, ev),
            e.0 < graph.nodes@.len(),
            e.2 < graph.nodes@.len(),
            ev.len() < usize::MAX,
            forall|k: int| 0 <= k < ev.len() ==> (#[trigger] ev[k]).0 < graph.nodes@.len() && ev[k].2 < graph.nodes@.len(),
        ensures
            final(self).models(graph.nodes@, ev.push(e)),
            final(self).edge_types == old(self).edge_types,
    {
        let ghost orig = graph.nodes@;
        let ghost a0 = appearance(ev);
        let ghost ev2 = ev.push(e);
        assert(ev2.drop_last() =~= ev);
        proof {
            lemma_add_once(a0, e.0);
            lemma_add_once(add_once(a0, e.0), e.2);
            assert(graph.node_wf(e.0 as int));
            assert(graph.node_wf(e.2 as int));
        }
        let from = self.maybe_add_node(&graph.nodes[e.0], Ghost(orig), Ghost(a0));
        let ghost a1 = add_once(a0, e.0);
        let ghost mid = self.nodes@;
        let to = self.maybe_add_node(&graph.nodes[e.2], Ghost(orig), Ghost(a1));
        let ghost a2 = add_once(a1, e.2);
        assert(a2 == appearance(ev2));
        proof {
            assert(a2[a1.index_of(e.0)] == e.0);
            lemma_index_of_unique(a2, a1.index_of(e.0));
        }
        self.add_edge(from, to, e.1);
        proof {
            let app = a2;
            assert forall|i: int| 0 <= i < app.len() implies {
                &&& (#[trigger] self.nodes@[i]).uid == i
                &&& self.nodes@[i].property_index == orig[app[i] as int].property_index
                &&& self.nodes@[i].node_type == orig[app[i] as int].node_type
                &&& self.nodes@[i].connections@ == sub_connections(ev2, i)
            } by {
                lemma_sub_connections_empty(ev, i, graph.nodes@.len() as int);
                assert(app[i] == if i < a0.len() { a0[i] } else if i < a1.len() { a1[i] } else { a2[i] });
                if i < a0.len() {
                    assert(app[i] == a0[i]);
                } else if i < a1.len() {
                    assert(a1[i] == e.0);
                } else {
                    assert(a2[i] == e.2);
                }
            }
        }
    }

    fn build_from(self, graph: &HeteroDiGraph, uid: usize, Ghost(ev): Ghost<Seq<Event>>) -> (g: HeteroDiGraph)
        requires
            graph.wf(),
            self.models(graph.nodes@, ev),
            self.edge_types.wf(),
            forall|k: int|
                0 <= k < ev.len() ==> (#[trigger] ev[k]).0 < graph.nodes@.len() && ev[k].2
                    < graph.nodes@.len() && ev[k].1 < self.edge_types@.len(),
        ensures
            g.wf(),
            g.uid == uid,
            g.nodes@.len() == appearance(ev).len(),
            forall|i: int|
                0 <= i < g.nodes@.len() ==> {
                    &&& (#[trigger] g.nodes@[i]).uid == i
                    &&& g.nodes@[i].property_index == graph.nodes@[appearance(ev)[i] as int].property_index
                    &&& g.nodes@[i].node_type == graph.nodes@[appearance(ev)[i] as int].node_type
                    &&& g.nodes@[i].connections@ == sub_connections(ev, i)
                },
            g.node_type_names() == graph.node_type_names(),
            g.node_metadata.node_properties@.len() == graph.node_metadata.node_properties@.len(),
            forall|i: int| 0 <= i < g.node_metadata.node_properties@.len() ==> (#[trigger] g.node_metadata.node_properties@[i])@ == graph.node_metadata.node_properties@[i]@,
            g.edge_type_names() == self.edge_types@,
            g.edge_metadata.edge_properties@.len() == ev.len(),
            forall|i: int| 0 <= i < ev.len() ==> (#[trigger] g.edge_metadata.edge_properties@[i])@ == Map::<Seq<char>, Seq<char>>::empty(),
            g.graph_metadata == (GraphMetadata { next_edge_id: ev.len() as usize, is_markov: false }),
    {
        let mut edge_properties: Vec<Properties> = Vec::new();
        let mut i: usize = 0;
        while i < self.next_edge_id
            invariant
                i <= self.next_edge_id,
                edge_properties@.len() == i,
                properties_wf(edge_properties@),
                forall|j: int| 0 <= j < i ==> (#[trigger] edge_properties@[j])@ == Map::<Seq<char>, Seq<char>>::empty(),
            decreases self.next_edge_id - i,
        {
            edge_properties.push(Properties::new());
            i = i + 1;
        }
        let g = HeteroDiGraph {
            uid,
            node_metadata: graph.node_metadata.duplicate(),
            graph_metadata: GraphMetadata { next_edge_id: self.next_edge_id, is_markov: false },
            edge_metadata: EdgeMetadata { edge_types: self.edge_types, edge_properties },
            nodes: self.nodes,
        };
        proof {
            let app = appearance(ev);
            lemma_appearance(ev, graph.nodes@.len() as int);
            assert forall|i: int| 0 <= i < g.nodes@.len() implies #[trigger] g.node_wf(i) by {
                assert(graph.node_wf(app[i] as int));
                lemma_sub_connections(ev, i, graph.nodes@.len() as int, self.edge_types@.len() as int);
            }
        }
        g
    }
}

/// The meta-paths resolved one by one, or the kind and name of the first
/// unknown type of the first meta-path that names one.
pub open spec fn spec_resolve_all(mps: Seq<MetaPathView>, nodes: Seq<Seq<char>>, edges: Seq<Seq<char>>) -> Result<
    Seq<ResolvedPath>,
    (Seq<char>, Seq<char>),
>
    decreases mps.len(),
{
    if mps.len() == 0 {
        Ok(Seq::empty())
    } else {
        match spec_resolve(mps[0], nodes, edges) {
            Err(x) => Err(x),
            Ok(v) => match spec_resolve_all(mps.drop_first(), nodes, edges) {
                Ok(rest) => Ok(seq![v] + rest),
                Err(x) => Err(x),
            },
        }
    }
}

pub open spec fn named_path_views(mps: Seq<(String, MetaPath<String>)>) -> Seq<MetaPathView> {
    mps.map_values(|p: (String, MetaPath<String>)| p.1.view_value())
}

pub open spec fn path_names(mps: Seq<(String, MetaPath<String>)>) -> Seq<Seq<char>> {
    mps.map_values(|p: (String, MetaPath<String>)| p.0@)
}

impl HeteroDiGraph {
    /// The connections that the meta-paths find: source node by source node,
    /// and for each, meta-path by meta-path, in walk order.
    pub fn meta_path_events(&self, meta_paths: &Vec<MetaPath<usize>>, unique_nodes: bool) -> (r: Vec<Event>)
        requires
            self.wf(),
        ensures
            r@ == subgraph_events(self.nodes@, resolved_views(meta_paths@), unique_nodes),
            forall|k: int|
                0 <= k < r@.len() ==> event_sound(self.nodes@, resolved_views(meta_paths@), unique_nodes, #[trigger] r@[k]),
            forall|s: int, m: int, p: Seq<usize>|
                0 <= s < self.nodes@.len() && 0 <= m < meta_paths@.len() && component_matches(
                    resolved_views(meta_paths@)[m].0,
                    self.nodes@[s].node_type,
                ) && #[trigger] is_full_meta_walk(self.nodes@, resolved_views(meta_paths@)[m].1, unique_nodes, s as usize, p)
                    ==> r@.contains((s as usize, m as usize, p.last())),
            forall|k: int|
                0 <= k < r@.len() ==> (#[trigger] r@[k]).0 < self.nodes@.len() && r@[k].2 < self.nodes@.len()
                    && r@[k].1 < meta_paths@.len(),
    {
        proof {
            assert(self.nodes@.len() == self.nodes.len());
            assert(resolved_views(meta_paths@).len() == meta_paths.len());
            lemma_subgraph_events_sound(self.nodes@, resolved_views(meta_paths@), unique_nodes);
            assert forall|s: int, m: int, p: Seq<usize>|
                0 <= s < self.nodes@.len() && 0 <= m < meta_paths@.len() && component_matches(
                    resolved_views(meta_paths@)[m].0,
                    self.nodes@[s].node_type,
                ) && #[trigger] is_full_meta_walk(self.nodes@, resolved_views(meta_paths@)[m].1, unique_nodes, s as usize, p)
                    implies subgraph_events(self.nodes@, resolved_views(meta_paths@), unique_nodes).contains(
                    (s as usize, m as usize, p.last()),
                ) by {
                lemma_subgraph_events_complete(self.nodes@, resolved_views(meta_paths@), unique_nodes, s, m, p);
            }
        }
        let ghost mps = resolved_views(meta_paths@);
        let ghost nodes = self.nodes@;
        let ghost per_node = Seq::new(nodes.len(), |s: int| node_events(nodes, mps, unique_nodes, s));
        let mut events: Vec<Event> = Vec::new();
        let mut s: usize = 0;
        assert(per_node.take(0) =~= Seq::<Seq<Event>>::empty());
        while s < self.nodes.len()
            invariant
                self.wf(),
                nodes == self.nodes@,
                mps == resolved_views(meta_paths@),
                per_node == Seq::new(nodes.len(), |s: int| node_events(nodes, mps, unique_nodes, s)),
                s <= nodes.len(),
                events@ == per_node.take(s as int).flatten(),
                forall|k: int|
                    0 <= k < events@.len() ==> (#[trigger] events@[k]).0 < nodes.len() && events@[k].2 < nodes.len()
                        && events@[k].1 < meta_paths@.len(),
            decreases nodes.len() - s,
        {
            let ghost before_s = events@;
            let ghost per_mp = Seq::new(mps.len(), |m: int| source_events(nodes, mps, unique_nodes, s as int, m));
            let mut m: usize = 0;
            assert(per_mp.take(0) =~= Seq::<Seq<Event>>::empty());
            assert(before_s + Seq::<Event>::empty() =~= before_s);
            while m < meta_paths.len()
                invariant
                    self.wf(),
                    nodes == self.nodes@,
                    mps == resolved_views(meta_paths@),
                    s < nodes.len(),
                    m <= meta_paths@.len(),
                    per_mp == Seq::new(mps.len(), |m: int| source_events(nodes, mps, unique_nodes, s as int, m)),
                    events@ == before_s + per_mp.take(m as int).flatten(),
                    forall|k: int|
                        0 <= k < events@.len() ==> (#[trigger] events@[k]).0 < nodes.len() && events@[k].2 < nodes.len()
                            && events@[k].1 < meta_paths@.len(),
                decreases meta_paths.len() - m,
            {
                let ghost before_m = events@;
                let ghost src = source_events(nodes, mps, unique_nodes, s as int, m as int);
                assert(mps[m as int] == meta_paths@[m as int].resolved_view());
                if meta_paths[m].start.matches(self.nodes[s].node_type) {
                    let targets = self.walk_meta_path(s, &meta_paths[m], unique_nodes);
                    let mut j: usize = 0;
                    assert(before_m + src.take(0) =~= before_m);
                    while j < targets.len()
                        invariant
                            s < nodes.len(),
                            m < meta_paths@.len(),
                            src == targets@.map_values(|t: usize| (s, m, t)),
                            forall|i: int| 0 <= i < targets@.len() ==> targets@[i] < nodes.len(),
                            j <= targets@.len(),
                            events@ == before_m + src.take(j as int),
                            forall|k: int|
                                0 <= k < events@.len() ==> (#[trigger] events@[k]).0 < nodes.len() && events@[k].2 < nodes.len()
                                    && events@[k].1 < meta_paths@.len(),
                        decreases targets.len() - j,
                    {
                        events.push((s, m, targets[j]));
                        assert(src.take(j + 1) =~= src.take(j as int).push((s, m, targets@[j as int])));
                        j = j + 1;
                    }
                    assert(src.take(j as int) =~= src);
                } else {
                    assert(src =~= Seq::<Event>::empty());
                    assert(before_m + src =~= before_m);
                }
                proof {
                    per_mp.take(m as int).lemma_flatten_push(per_mp[m as int]);
                    assert(per_mp.take(m + 1) =~= per_mp.take(m as int).push(per_mp[m as int]));
                    assert(before_s + per_mp.take(m as int).flatten() + src =~= before_s + (per_mp.take(m as int).flatten() + src));
                }
                m = m + 1;
            }
            proof {
                assert(per_mp.take(m as int) =~= per_mp);
                assert(per_node[s as int] == per_mp.flatten());
                per_node.take(s as int).lemma_flatten_push(per_node[s as int]);
                assert(per_node.take(s + 1) =~= per_node.take(s as int).push(per_node[s as int]));
            }
            s = s + 1;
        }
        assert(per_node.take(s as int) =~= per_node);
        events
    }

    /// A new graph, numbered `uid`, whose edges are the connections that the
    /// named meta-paths find: one edge per walk, typed by the meta-path's
    /// name and numbered in order. Nodes that take part keep their types and
    /// properties and are numbered in order of first appearance.
    pub fn meta_path_subgraph(
        &self,
        meta_paths: Vec<(String, MetaPath<String>)>,
        unique_nodes: bool,
        uid: usize,
    ) -> (r: Result<HeteroDiGraph, HetNetError>)
        requires
            self.wf(),
            distinct_names(path_names(meta_paths@)),
        ensures
            match spec_resolve_all(named_path_views(meta_paths@), self.node_type_names(), self.edge_type_names()) {
                Err((kind, name)) => r matches Err(e) && is_unknown_type_error(e, kind, name),
                Ok(mps) => r matches Ok(g) && {
                    let ev = subgraph_events(self.nodes@, mps, unique_nodes);
                    let app = appearance(ev);
                    &&& g.wf()
                    &&& g.uid == uid
                    &&& g.nodes@.len() == app.len()
                    &&& forall|i: int|
                        0 <= i < g.nodes@.len() ==> {
                            &&& (#[trigger] g.nodes@[i]).uid == i
                            &&& g.nodes@[i].property_index == self.nodes@[app[i] as int].property_index
                            &&& g.nodes@[i].node_type == self.nodes@[app[i] as int].node_type
                            &&& g.nodes@[i].connections@ == sub_connections(ev, i)
                        }
                    &&& g.node_type_names() == self.node_type_names()
                    &&& g.node_metadata.node_properties@.len() == self.node_metadata.node_properties@.len()
                    &&& forall|i: int|
                        0 <= i < g.node_metadata.node_properties@.len() ==> (#[trigger] g.node_metadata.node_properties@[i])@
                            == self.node_metadata.node_properties@[i]@
                    &&& g.edge_type_names() == path_names(meta_paths@)
                    &&& g.edge_metadata.edge_properties@.len() == ev.len()
                    &&& forall|i: int|
                        0 <= i < ev.len() ==> (#[trigger] g.edge_metadata.edge_properties@[i])@ == Map::<
                            Seq<char>,
                            Seq<char>,
                        >::empty()
                    &&& g.graph_metadata == (GraphMetadata { next_edge_id: ev.len() as usize, is_markov: false })
                    &&& forall|i: int, k: int|
                        0 <= i < g.nodes@.len() && 0 <= k < g.nodes@[i].connections@.len() ==> edge_stands_for(
                            ev,
                            i,
                            #[trigger] g.nodes@[i].connections@[k],
                        ) && event_sound(self.nodes@, mps, unique_nodes, ev[g.nodes@[i].connections@[k].uid as int])
                },
            },
    {
        let ghost views = named_path_views(meta_paths@);
        let ghost nt = self.node_type_names();
        let ghost et = self.edge_type_names();
        let mut names: Vec<String> = Vec::new();
        let mut resolved: Vec<MetaPath<usize>> = Vec::new();
        let mut i: usize = 0;
        assert(views.skip(0) =~= views);
        while i < meta_paths.len()
            invariant
                self.wf(),
                views == named_path_views(meta_paths@),
                nt == self.node_type_names(),
                et == self.edge_type_names(),
                i <= meta_paths@.len(),
                names@.len() == i,
                resolved@.len() == i,
                names@.map_values(|s: String| s@) == path_names(meta_paths@).take(i as int),
                spec_resolve_all(views, nt, et) == match spec_resolve_all(views.skip(i as int), nt, et) {
                    Ok(rest) => Ok::<Seq<ResolvedPath>, (Seq<char>, Seq<char>)>(resolved_views(resolved@) + rest),
                    Err(x) => Err(x),
                },
            decreases meta_paths.len() - i,
        {
            let ghost tail = views.skip(i as int);
            assert(tail[0] == meta_paths@[i as int].1.view_value());
            assert(tail.drop_first() =~= views.skip(i + 1));
            match self.resolve_meta_path(&meta_paths[i].1, false) {
                Ok(Some(mp)) => {
                    let ghost before = resolved@;
                    let ghost before_names = names@;
                    resolved.push(mp);
                    names.push(meta_paths[i].0.clone());
                    proof {
                        assert(resolved_views(resolved@) =~= resolved_views(before).push(mp.resolved_view()));
                        assert forall|rest: Seq<ResolvedPath>|
                            resolved_views(before) + (seq![mp.resolved_view()] + rest) == #[trigger] (resolved_views(resolved@) + rest) by {
                            assert(resolved_views(before) + (seq![mp.resolved_view()] + rest) =~= resolved_views(resolved@) + rest);
                        }
                        assert(names@.map_values(|s: String| s@) =~= before_names.map_values(|s: String| s@).push(meta_paths@[i as int].0@));
                        assert(path_names(meta_paths@).take(i + 1) =~= path_names(meta_paths@).take(i as int).push(meta_paths@[i as int].0@));
                    }
                },
                Ok(None) => {
                    proof {
                        assert(false);
                    }
                    return Err(HetNetError::InvalidReference);
                },
                Err(e) => {
                    return Err(e);
                },
            }
            i = i + 1;
        }
        proof {
            assert(views.skip(i as int) =~= Seq::<MetaPathView>::empty());
            assert(resolved_views(resolved@) + Seq::<ResolvedPath>::empty() =~= resolved_views(resolved@));
            assert(path_names(meta_paths@).take(i as int) =~= path_names(meta_paths@));
        }
        let events = self.meta_path_events(&resolved, unique_nodes);
        let mut builder = SubgraphBuilder::new(TypeTable::from_names(&names));
        let mut k: usize = 0;
        assert(events@.take(0) =~= Seq::<Event>::empty());
        while k < events.len()
            invariant
                self.wf(),
                k <= events@.len(),
                builder.models(self.nodes@, events@.take(k as int)),
                builder.edge_types.wf(),
                builder.edge_types@ == path_names(meta_paths@),
                names@.len() == meta_paths@.len(),
                resolved@.len() == meta_paths@.len(),
                forall|j: int|
                    0 <= j < events@.len() ==> (#[trigger] events@[j]).0 < self.nodes@.len() && events@[j].2 < self.nodes@.len()
                        && events@[j].1 < resolved@.len(),
            decreases events.len() - k,
        {
            let ghost prefix = events@.take(k as int);
            assert forall|j: int| 0 <= j < prefix.len() implies (#[trigger] prefix[j]).0 < self.nodes@.len() && prefix[j].2 < self.nodes@.len() by {
                assert(prefix[j] == events@[j]);
            }
            builder.add_connection(self, events[k], Ghost(prefix));
            assert(prefix.push(events@[k as int]) =~= events@.take(k + 1));
            k = k + 1;
        }
        assert(events@.take(k as int) =~= events@);
        proof {
            assert forall|j: int|
                0 <= j < events@.len() implies (#[trigger] events@[j]).0 < self.nodes@.len() && events@[j].2
                    < self.nodes@.len() && events@[j].1 < builder.edge_types@.len() by {
                assert(path_names(meta_paths@).len() == meta_paths@.len());
            }
        }
        let g = builder.build_from(self, uid, Ghost(events@));
        proof {
            let ev = events@;
            assert(g.nodes@.len() == g.nodes.len());
            assert forall|i: int, k: int|
                0 <= i < g.nodes@.len() && 0 <= k < g.nodes@[i].connections@.len() implies edge_stands_for(
                    ev,
                    i,
                    #[trigger] g.nodes@[i].connections@[k],
                ) && event_sound(self.nodes@, resolved_views(resolved@), unique_nodes, ev[g.nodes@[i].connections@[k].uid as int]) by {
                lemma_sub_connections_stand_for(ev, i, self.nodes@.len() as int, builder.edge_types@.len() as int);
                assert(g.nodes@[i].connections@ == sub_connections(ev, i));
                assert(edge_stands_for(ev, i, sub_connections(ev, i)[k]));
            }
        }
        Ok(g)
    }
}

proof fn lemma_sub_connections_empty(ev: Seq<Event>, i: int, n: int)
    requires
        forall|k: int| 0 <= k < ev.len() ==> (#[trigger] ev[k]).0 < n && ev[k].2 < n,
    ensures
        i >= appearance(ev).len() ==> sub_connections(ev, i).len() == 0,
    decreases ev.len(),
{
    if ev.len() > 0 {
        let dl = ev.drop_last();
        assert forall|k: int| 0 <= k < dl.len() implies (#[trigger] dl[k]).0 < n && dl[k].2 < n by {
            assert(dl[k] == ev[k]);
        }
        lemma_sub_connections_empty(dl, i, n);
        lemma_appearance(dl, n);
        let a0 = appearance(dl);
        let e = ev.last();
        lemma_add_once(a0, e.0);
        lemma_add_once(add_once(a0, e.0), e.2);
    }
}

} // verus!
