use vstd::prelude::*;
use std::collections::{HashMap, HashSet};

verus! {

broadcast use vstd::std_specs::hash::group_hash_axioms;

/// The nodes that `distances` places at distance `d`.
pub open spec fn level_set(distances: Map<usize, usize>, d: int) -> Set<usize> {
    distances.dom().filter(|v: usize| distances[v] == d)
}

/// The nodes below `n` that `distances` places at distance `d`, in increasing order.
pub open spec fn level_prefix(distances: Map<usize, usize>, d: int, n: int) -> Seq<usize>
    decreases n,
{
    if n <= 0 {
        Seq::empty()
    } else {
        let rest = level_prefix(distances, d, n - 1);
        let v = (n - 1) as usize;
        if distances.contains_key(v) && distances[v] == d {
            rest.push(v)
        } else {
            rest
        }
    }
}

/// `levels` has one entry for each distance up to the largest in `distances`,
/// and entry `d` lists the nodes at distance `d`, each once.
pub open spec fn is_level_list(distances: Map<usize, usize>, levels: Seq<Vec<usize>>) -> bool {
    &&& levels.len() > 0
    &&& forall|v: usize| #[trigger] distances.contains_key(v) ==> distances[v] < levels.len()
    &&& exists|v: usize| #[trigger] distances.contains_key(v) && distances[v] == levels.len() - 1
    &&& forall|d: int|
        0 <= d < levels.len() ==> (#[trigger] levels[d])@.no_duplicates() && levels[d]@.to_set() == level_set(
            distances,
            d,
        )
}

proof fn lemma_level_prefix(distances: Map<usize, usize>, d: int, n: int)
    requires
        0 <= n <= usize::MAX + 1,
    ensures
        forall|i: int, j: int|
            0 <= i < j < level_prefix(distances, d, n).len() ==> #[trigger] level_prefix(distances, d, n)[i]
                < #[trigger] level_prefix(distances, d, n)[j],
        forall|i: int| 0 <= i < level_prefix(distances, d, n).len() ==> #[trigger] level_prefix(distances, d, n)[i] < n,
        forall|v: usize|
            #[trigger] level_prefix(distances, d, n).contains(v) <==> (v < n && distances.contains_key(v)
                && distances[v] == d),
    decreases n,
{
    if n > 0 {
        lemma_level_prefix(distances, d, n - 1);
        let rest = level_prefix(distances, d, n - 1);
        let v = (n - 1) as usize;
        let full = level_prefix(distances, d, n);
        assert(full == (if distances.contains_key(v) && distances[v] == d {
            rest.push(v)
        } else {
            rest
        }));
        assert forall|w: usize|
            #[trigger] level_prefix(distances, d, n).contains(w) <==> (w < n && distances.contains_key(w)
                && distances[w] == d) by {
            if w == v && distances.contains_key(v) && distances[v] == d {
                assert(full[rest.len() as int] == w);
                assert(full.contains(w));
            }
            if level_prefix(distances, d, n).contains(w) {
                let i = choose|i: int| 0 <= i < level_prefix(distances, d, n).len() && level_prefix(distances, d, n)[i] == w;
                if i < rest.len() {
                    assert(rest[i] == w);
                    assert(rest.contains(w));
                } else {
                    assert(distances.contains_key(v) && distances[v] == d);
                    assert(full[i] == v);
                }
            }
            if w < v && distances.contains_key(w) && distances[w] == d {
                assert(rest.contains(w));
                let i = choose|i: int| 0 <= i < rest.len() && rest[i] == w;
                assert(level_prefix(distances, d, n)[i] == w);
            }
        }
    }
}

proof fn lemma_sorted_no_duplicates(s: Seq<usize>)
    requires
        forall|i: int, j: int| 0 <= i < j < s.len() ==> #[trigger] s[i] < #[trigger] s[j],
    ensures
        s.no_duplicates(),
{
    assert forall|i: int, j: int| 0 <= i < s.len() && 0 <= j < s.len() && i != j implies s[i] != s[j] by {
        if i < j {
            assert(s[i] < s[j]);
        } else {
            assert(s[j] < s[i]);
        }
    }
}

/// For each distance from zero up to the largest in `distances`, the nodes at
/// that distance, in increasing order.
pub fn nodes_by_distance(distances: &HashMap<usize, usize>, node_count: usize) -> (r: Vec<Vec<usize>>)
    requires
        distances@.dom().len() > 0,
        forall|v: usize| #[trigger] distances@.contains_key(v) ==> v < node_count && distances@[v] < usize::MAX,
    ensures
        is_level_list(distances@, r@),
        forall|d: int| 0 <= d < r@.len() ==> (#[trigger] r@[d])@ == level_prefix(distances@, d, node_count as int),
{
    let ghost m = distances@;
    assert(m.dom().finite());
    let ghost some_key = m.dom().choose();
    assert(m.contains_key(some_key));
    let mut max_dist: usize = 0;
    let mut found = false;
    let mut v: usize = 0;
    while v < node_count
        invariant
            m == distances@,
            m.contains_key(some_key),
            some_key < node_count,
            forall|w: usize| #[trigger] m.contains_key(w) ==> m[w] < usize::MAX,
            v <= node_count,
            forall|w: usize| #[trigger] m.contains_key(w) && w < v ==> m[w] <= max_dist,
            found <==> exists|w: usize| #[trigger] m.contains_key(w) && w < v,
            found ==> exists|w: usize| #[trigger] m.contains_key(w) && w < v && m[w] == max_dist,
        decreases node_count - v,
    {
        match distances.get(&v) {
            Some(dist) => {
                if !found || *dist > max_dist {
                    max_dist = *dist;
                }
                found = true;
            },
            None => {},
        }
        v = v + 1;
    }
    assert(found);
    let mut levels: Vec<Vec<usize>> = Vec::new();
    let level_count = max_dist + 1;
    let mut d: usize = 0;
    while d < level_count
        invariant
            level_count == max_dist + 1,
            d <= level_count,
            levels@.len() == d,
            forall|i: int| 0 <= i < d ==> (#[trigger] levels@[i])@ == Seq::<usize>::empty(),
        decreases level_count - d,
    {
        levels.push(Vec::new());
        d = d + 1;
    }
    let mut v: usize = 0;
    while v < node_count
        invariant
            m == distances@,
            v <= node_count,
            levels@.len() == max_dist + 1,
            forall|w: usize| #[trigger] m.contains_key(w) ==> m[w] <= max_dist,
            forall|i: int| 0 <= i < levels@.len() ==> (#[trigger] levels@[i])@ == level_prefix(m, i, v as int),
        decreases node_count - v,
    {
        match distances.get(&v) {
            Some(dist) => {
                let dist = *dist;
                levels[dist].push(v);
            },
            None => {},
        }
        proof {
            assert forall|i: int| 0 <= i < levels@.len() implies (#[trigger] levels@[i])@ == level_prefix(
                m,
                i,
                v + 1,
            ) by {
                assert(level_prefix(m, i, v + 1) == (if m.contains_key(v) && m[v] == i {
                    level_prefix(m, i, v as int).push(v)
                } else {
                    level_prefix(m, i, v as int)
                }));
            }
        }
        v = v + 1;
    }
    proof {
        assert forall|i: int| 0 <= i < levels@.len() implies (#[trigger] levels@[i])@.no_duplicates()
            && levels@[i]@.to_set() == level_set(m, i) by {
            lemma_level_prefix(m, i, node_count as int);
            lemma_sorted_no_duplicates(levels@[i]@);
            assert(levels@[i]@.to_set() =~= level_set(m, i));
        }
        let w = choose|w: usize| #[trigger] m.contains_key(w) && w < node_count && m[w] == max_dist;
        assert(m.contains_key(w) && m[w] == levels@.len() - 1);
    }
    levels
}

/// The nodes at distance `d` that a walk from `start` along `path` has visited.
pub open spec fn visited_level_set(distances: Map<usize, usize>, start: usize, path: Seq<usize>, d: int) -> Set<usize> {
    level_set(distances, d).filter(|v: usize| v == start || path.contains(v))
}

/// How much of each distance level around `start` a walk along `path` has
/// covered: for each distance from zero up to the largest that the walk
/// reaches, the number of nodes at that distance that the walk (or its start)
/// visits, and the number of nodes at that distance.
pub fn walk_coverage(start: usize, path: &Vec<usize>, distances: &HashMap<usize, usize>, levels: &Vec<Vec<usize>>) -> (r:
    Vec<(usize, usize)>)
    requires
        path@.len() > 0,
        forall|i: int| 0 <= i < path@.len() ==> distances@.contains_key(#[trigger] path@[i]),
        is_level_list(distances@, levels@),
    ensures
        forall|i: int| 0 <= i < path@.len() ==> distances@[#[trigger] path@[i]] < r@.len(),
        exists|i: int| 0 <= i < path@.len() && distances@[#[trigger] path@[i]] == r@.len() - 1,
        forall|d: int|
            0 <= d < r@.len() ==> (#[trigger] r@[d]).0 == visited_level_set(distances@, start, path@, d).len()
                && r@[d].1 == level_set(distances@, d).len() && r@[d].0 <= r@[d].1,
{
    let ghost m = distances@;
    let mut max_dist: usize = 0;
    let mut seen: HashSet<usize> = HashSet::new();
    seen.insert(start);
    let mut i: usize = 0;
    while i < path.len()
        invariant
            m == distances@,
            i <= path@.len(),
            path@.len() > 0,
            forall|j: int| 0 <= j < path@.len() ==> m.contains_key(#[trigger] path@[j]),
            is_level_list(m, levels@),
            forall|j: int| 0 <= j < i ==> m[#[trigger] path@[j]] <= max_dist,
            i > 0 ==> exists|j: int| 0 <= j < i && m[#[trigger] path@[j]] == max_dist,
            forall|v: usize| #[trigger] seen@.contains(v) <==> (v == start || exists|j: int| 0 <= j < i && path@[j] == v),
        decreases path@.len() - i,
    {
        let node = path[i];
        assert(m.contains_key(path@[i as int]));
        let dist = match distances.get(&node) {
            Some(dist) => *dist,
            None => 0,
        };
        if i == 0 || dist > max_dist {
            max_dist = dist;
        }
        seen.insert(node);
        proof {
            assert forall|v: usize| #[trigger] seen@.contains(v) <==> (v == start || exists|j: int|
                0 <= j < i + 1 && path@[j] == v) by {
                if v == node {
                    assert(path@[i as int] == v);
                }
            }
        }
        i = i + 1;
    }
    assert(forall|v: usize| path@.contains(v) <==> exists|j: int| 0 <= j < path@.len() && path@[j] == v);
    let ghost visited_pred = |v: usize| v == start || path@.contains(v);
    assert(max_dist < levels@.len()) by {
        let j = choose|j: int| 0 <= j < path@.len() && m[#[trigger] path@[j]] == max_dist;
        assert(m.contains_key(path@[j]));
    }
    let mut result: Vec<(usize, usize)> = Vec::new();
    let mut d: usize = 0;
    while d <= max_dist
        invariant
            m == distances@,
            is_level_list(m, levels@),
            max_dist < levels.len(),
            d <= max_dist + 1,
            result@.len() == d,
            forall|v: usize| #[trigger] seen@.contains(v) <==> visited_pred(v),
            visited_pred == (|v: usize| v == start || path@.contains(v)),
            forall|e: int|
                0 <= e < d ==> (#[trigger] result@[e]).0 == visited_level_set(m, start, path@, e).len()
                    && result@[e].1 == level_set(m, e).len() && result@[e].0 <= result@[e].1,
        decreases max_dist + 1 - d,
    {
        let level = &levels[d];
        let mut count: usize = 0;
        let ghost mut hits: Set<usize> = Set::empty();
        let mut k: usize = 0;
        while k < level.len()
            invariant
                level@.no_duplicates(),
                k <= level@.len(),
                hits.finite(),
                count == hits.len(),
                count <= k,
                forall|v: usize| #[trigger] seen@.contains(v) <==> visited_pred(v),
                forall|v: usize|
                    #[trigger] hits.contains(v) <==> (visited_pred(v) && exists|j: int| 0 <= j < k && level@[j] == v),
            decreases level@.len() - k,
        {
            let v = level[k];
            if seen.contains(&v) {
                proof {
                    if hits.contains(v) {
                        let j = choose|j: int| 0 <= j < k && level@[j] == v;
                        assert(level@[j] == level@[k as int]);
                    }
                    hits = hits.insert(v);
                }
                count = count + 1;
            }
            proof {
                assert forall|w: usize|
                    #[trigger] hits.contains(w) <==> (visited_pred(w) && exists|j: int| 0 <= j < k + 1 && level@[j] == w) by {
                    if w == v && visited_pred(w) {
                        assert(level@[k as int] == w);
                    }
                }
            }
            k = k + 1;
        }
        proof {
            assert(level@.to_set() == level_set(m, d as int));
            assert(hits =~= visited_level_set(m, start, path@, d as int)) by {
                assert forall|w: usize| hits.contains(w) <==> visited_level_set(m, start, path@, d as int).contains(w) by {
                    if level_set(m, d as int).contains(w) {
                        assert(level@.to_set().contains(w));
                    }
                    if hits.contains(w) {
                        let j = choose|j: int| 0 <= j < level@.len() && level@[j] == w;
                        assert(level@.to_set().contains(level@[j]));
                    }
                }
            }
            level@.unique_seq_to_set();
            assert(m.dom().finite());
            lemma_coverage_bounded(m, start, path@, d as int);
        }
        result.push((count, level.len()));
        d = d + 1;
    }
    result
}

/// A walk never covers more of a level than the level holds: every
/// exploration density lies between zero and one.
pub proof fn lemma_coverage_bounded(distances: Map<usize, usize>, start: usize, path: Seq<usize>, d: int)
    requires
        distances.dom().finite(),
    ensures
        visited_level_set(distances, start, path, d).len() <= level_set(distances, d).len(),
{
    let at_level = |v: usize| distances[v] == d;
    let visited = |v: usize| v == start || path.contains(v);
    let level = level_set(distances, d);
    assert(level =~= distances.dom().filter(at_level));
    distances.dom().lemma_len_filter(at_level);
    assert(visited_level_set(distances, start, path, d) =~= level.filter(visited));
    level.lemma_len_filter(visited);
}

/// The start of a walk counts as visited on its own level, and a node counts
/// as visited on a level exactly when it lies on that level and the walk
/// passes through it or starts there.
pub proof fn lemma_visited_members(distances: Map<usize, usize>, start: usize, path: Seq<usize>, d: int, v: usize)
    ensures
        visited_level_set(distances, start, path, d).contains(v) <==> (distances.contains_key(v) && distances[v] == d
            && (v == start || exists|i: int| 0 <= i < path.len() && path[i] == v)),
        distances.contains_key(start) && distances[start] == 0 ==> visited_level_set(distances, start, path, 0).contains(
            start,
        ),
{
}

} // verus!
