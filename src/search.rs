//! The backtracking search for trails that walk every edge once.
use vstd::prelude::*;
use crate::graph::{adjacent, lemma_adjacent_is_vertex, norm, normalize, Graph};

verus! {

/// The canonical edges that consecutive points of `p` walk along.
pub open spec fn steps(p: Seq<i32>) -> Seq<(i32, i32)> {
    Seq::new((p.len() - 1) as nat, |i: int| norm(p[i], p[i + 1]))
}

/// `p` is a walk along edges of the list that uses no edge twice.
pub open spec fn is_trail(edges: Seq<(i32, i32)>, p: Seq<i32>) -> bool {
    &&& p.len() >= 1
    &&& forall|i: int| 0 <= i < p.len() - 1 ==> #[trigger] adjacent(edges, p[i], p[i + 1])
    &&& steps(p).no_duplicates()
}

/// `p` is an accepted drawing: a trail from `start` with at least one point
/// more than the list has edges.
pub open spec fn is_solution(edges: Seq<(i32, i32)>, start: i32, p: Seq<i32>) -> bool {
    &&& is_trail(edges, p)
    &&& p[0] == start
    &&& p.len() >= edges.len() + 1
}

/// `t` begins with `p`.
pub open spec fn starts_with(t: Seq<i32>, p: Seq<i32>) -> bool {
    p.len() <= t.len() && t.take(p.len() as int) == p
}

/// `t` occurs in `s` at a position from `from` on.
pub open spec fn found_from(s: Seq<Vec<i32>>, from: int, t: Seq<i32>) -> bool {
    exists|k: int| from <= k < s.len() && (#[trigger] s[k])@ == t
}

/// The distinct canonical edges of the list.
pub open spec fn edge_set(edges: Seq<(i32, i32)>) -> Set<(i32, i32)> {
    edges.map_values(|e: (i32, i32)| norm(e.0, e.1)).to_set()
}

/// `v` has at least one neighbor.
pub open spec fn has_neighbor(edges: Seq<(i32, i32)>, v: i32) -> bool {
    exists|b: i32| adjacent(edges, v, b)
}

/// Extending a walk by a point adds one step.
proof fn lemma_steps_push(p: Seq<i32>, w: i32)
    requires
        p.len() >= 1,
    ensures
        steps(p.push(w)) == steps(p).push(norm(p.last(), w)),
{
    assert(steps(p.push(w)) =~= steps(p).push(norm(p.last(), w)));
}

/// A trail grows by an edge that it has not walked yet.
proof fn lemma_trail_extend(edges: Seq<(i32, i32)>, p: Seq<i32>, w: i32)
    requires
        is_trail(edges, p),
        adjacent(edges, p.last(), w),
        !steps(p).contains(norm(p.last(), w)),
    ensures
        is_trail(edges, p.push(w)),
{
    lemma_steps_push(p, w);
    let q = p.push(w);
    assert forall|i: int| 0 <= i < q.len() - 1 implies #[trigger] adjacent(edges, q[i], q[i + 1]) by {
        if i < p.len() - 1 {
            assert(q[i] == p[i] && q[i + 1] == p[i + 1]);
        }
    }
}

/// Every nonempty prefix of a trail is a trail.
proof fn lemma_trail_prefix(edges: Seq<(i32, i32)>, t: Seq<i32>, n: int)
    requires
        is_trail(edges, t),
        1 <= n <= t.len(),
    ensures
        is_trail(edges, t.take(n)),
        steps(t.take(n)) == steps(t).take(n - 1),
{
    let q = t.take(n);
    assert(steps(q) =~= steps(t).take(n - 1));
    assert forall|i: int| 0 <= i < q.len() - 1 implies #[trigger] adjacent(edges, q[i], q[i + 1]) by {
        assert(q[i] == t[i] && q[i + 1] == t[i + 1]);
        assert(adjacent(edges, t[i], t[i + 1]));
    }
}

/// The edge between two adjacent points is one of the list's edges.
proof fn lemma_edge_in_set(edges: Seq<(i32, i32)>, a: i32, b: i32)
    requires
        adjacent(edges, a, b),
    ensures
        edge_set(edges).contains(norm(a, b)),
{
    let i = choose|i: int|
        0 <= i < edges.len() && #[trigger] edges[i] == (a, b) || 0 <= i < edges.len() && edges[i] == (b, a);
    let m = edges.map_values(|e: (i32, i32)| norm(e.0, e.1));
    assert(m[i] == norm(a, b));
    assert(m.contains(norm(a, b)));
}

/// A trail walks along no more edges than the list has distinct ones.
proof fn lemma_trail_bound(edges: Seq<(i32, i32)>, p: Seq<i32>)
    requires
        is_trail(edges, p),
    ensures
        steps(p).len() <= edge_set(edges).len(),
{
    let s = steps(p);
    assert forall|e: (i32, i32)| s.to_set().contains(e) implies edge_set(edges).contains(e) by {
        let i = choose|i: int| 0 <= i < s.len() && s[i] == e;
        assert(adjacent(edges, p[i], p[i + 1]));
        lemma_edge_in_set(edges, p[i], p[i + 1]);
    }
    s.unique_seq_to_set();
    vstd::set_lib::lemma_len_subset(s.to_set(), edge_set(edges));
}

/// A trail with more points than the list has edges has walked every edge.
proof fn lemma_long_trail_uses_all(edges: Seq<(i32, i32)>, p: Seq<i32>, a: i32, b: i32)
    requires
        is_trail(edges, p),
        p.len() > edges.len(),
        adjacent(edges, a, b),
    ensures
        steps(p).contains(norm(a, b)),
{
    let s = steps(p);
    let e = edge_set(edges);
    assert forall|x: (i32, i32)| s.to_set().contains(x) implies e.contains(x) by {
        let i = choose|i: int| 0 <= i < s.len() && s[i] == x;
        assert(adjacent(edges, p[i], p[i + 1]));
        lemma_edge_in_set(edges, p[i], p[i + 1]);
    }
    s.unique_seq_to_set();
    edges.map_values(|x: (i32, i32)| norm(x.0, x.1)).lemma_cardinality_of_set();
    vstd::set_lib::lemma_len_subset(s.to_set(), e);
    vstd::set_lib::lemma_subset_equality(s.to_set(), e);
    lemma_edge_in_set(edges, a, b);
    assert(s.to_set().contains(norm(a, b)));
}

/// Whether the edge `e` occurs in `visited`.
fn contains_edge(visited: &Vec<(i32, i32)>, e: (i32, i32)) -> (r: bool)
    ensures
        r == visited@.contains(e),
{
    let mut k: usize = 0;
    while k < visited.len()
        invariant
            k <= visited.len(),
            forall|j: int| 0 <= j < k ==> visited[j] != e,
        decreases visited.len() - k,
    {
        if visited[k].0 == e.0 && visited[k].1 == e.1 {
            return true;
        }
        k = k + 1;
    }
    false
}

/// A copy of the points of `p`.
fn copy_points(p: &Vec<i32>) -> (r: Vec<i32>)
    ensures
        r@ == p@,
{
    let mut r: Vec<i32> = Vec::new();
    let mut k: usize = 0;
    while k < p.len()
        invariant
            k <= p.len(),
            r@ == p@.take(k as int),
        decreases p.len() - k,
    {
        r.push(p[k]);
        k = k + 1;
        assert(r@ =~= p@.take(k as int));
    }
    assert(p@.take(p.len() as int) =~= p@);
    r
}

/// The cap on accepted solutions has been reached (a cap of 0 means none).
pub open spec fn cap_reached(max_solutions: i32, count: int) -> bool {
    max_solutions != 0 && count >= max_solutions
}

/// Whether the cap on solutions has been reached with `count` of them.
fn reached(max_solutions: i32, count: usize) -> (r: bool)
    ensures
        r == cap_reached(max_solutions, count as int),
{
    max_solutions != 0 && (max_solutions < 0 || count >= max_solutions as usize)
}

/// `x` is among the first `j` entries of `row`.
pub open spec fn in_first(row: Seq<i32>, j: int, x: i32) -> bool {
    exists|i: int| 0 <= i < j && row[i] == x
}

/// A trail that begins with `p` + `w` begins with `p`, and `w` follows it.
proof fn lemma_starts_with_push(t: Seq<i32>, p: Seq<i32>, w: i32)
    requires
        starts_with(t, p.push(w)),
    ensures
        starts_with(t, p),
        t.len() > p.len(),
        t[p.len() as int] == w,
{
    let n = p.len() as int;
    assert(t.take(n + 1)[n] == w);
    assert(t.take(n) =~= t.take(n + 1).take(n));
    assert(p.push(w).take(n) =~= p);
}

/// A trail longer than its prefix `p` goes on from the last point of `p`.
proof fn lemma_starts_with_next(t: Seq<i32>, p: Seq<i32>)
    requires
        starts_with(t, p),
        t.len() > p.len(),
        p.len() >= 1,
    ensures
        starts_with(t, p.push(t[p.len() as int])),
        t[p.len() - 1] == p.last(),
{
    assert(t.take(p.len() as int)[p.len() - 1] == t[p.len() - 1]);
    assert(t.take(p.len() as int + 1) =~= p.push(t[p.len() as int]));
}

/// Extends the trail `path` + `v` along every edge that it has not used yet,
/// recording each extension with more than `n_edges` points, until the cap on
/// solutions is reached.
pub fn trace(
    g: &Graph,
    Ghost(edges): Ghost<Seq<(i32, i32)>>,
    n_edges: usize,
    v: i32,
    visited: &mut Vec<(i32, i32)>,
    path: &mut Vec<i32>,
    max_solutions: i32,
    solutions: &mut Vec<Vec<i32>>,
)
    requires
        g.models(edges),
        n_edges == edges.len(),
        is_trail(edges, old(path)@.push(v)),
        old(visited)@ == steps(old(path)@.push(v)),
        max_solutions > 0 ==> old(solutions).len() <= max_solutions,
    ensures
        final(path)@ == old(path)@,
        final(visited)@ == old(visited)@,
        final(solutions).len() >= old(solutions).len(),
        forall|k: int| 0 <= k < old(solutions).len() ==> final(solutions)[k] == old(solutions)[k],
        forall|k: int|
            old(solutions).len() <= k < final(solutions).len() ==> {
                let t = (#[trigger] final(solutions)[k])@;
                is_trail(edges, t) && t.len() >= n_edges + 1 && starts_with(t, old(path)@.push(v))
            },
        forall|k1: int, k2: int|
            old(solutions).len() <= k1 < k2 < final(solutions).len() ==> #[trigger] final(solutions)[k1]@
                != #[trigger] final(solutions)[k2]@,
        max_solutions > 0 ==> final(solutions).len() <= max_solutions,
        max_solutions < 0 || !has_neighbor(edges, v) ==> final(solutions)@ == old(solutions)@,
        !cap_reached(max_solutions, final(solutions).len() as int) && has_neighbor(edges, v) ==> forall|t: Seq<i32>|
            is_trail(edges, t) && t.len() >= n_edges + 1 && starts_with(t, old(path)@.push(v))
                ==> #[trigger] found_from(final(solutions)@, old(solutions).len() as int, t),
    decreases edge_set(edges).len() - old(visited)@.len(),
{
    if reached(max_solutions, solutions.len()) {
        return;
    }
    let vi = match g.index_of(v) {
        Some(i) => i,
        None => {
            proof {
                if has_neighbor(edges, v) {
                    let b = choose|b: i32| adjacent(edges, v, b);
                    lemma_adjacent_is_vertex(edges, v, b);
                }
            }
            return;
        },
    };
    if g.adj[vi].len() == 0 {
        proof {
            if has_neighbor(edges, v) {
                let b = choose|b: i32| adjacent(edges, v, b);
                assert(g.adj[vi as int]@.contains(b));
            }
        }
        return;
    }
    proof {
        assert(g.adj[vi as int]@.contains(g.adj[vi as int][0]));
        assert(adjacent(edges, v, g.adj[vi as int][0]));
    }
    let ghost s0 = solutions@;
    let ghost p = path@.push(v);
    let ghost vis0 = visited@;
    let ghost path0 = path@;
    let ghost row = g.adj[vi as int]@;
    path.push(v);
    let mut j: usize = 0;
    while j < g.adj[vi].len()
        invariant
            g.models(edges),
            vi < g.verts.len(),
            g.verts[vi as int] == v,
            row == g.adj[vi as int]@,
            n_edges == edges.len(),
            path@ == p,
            visited@ == vis0,
            vis0 == steps(p),
            vis0 == old(visited)@,
            is_trail(edges, p),
            p.last() == v,
            j <= row.len(),
            max_solutions >= 0,
            !cap_reached(max_solutions, s0.len() as int),
            p.len() > n_edges ==> solutions@ == s0,
            max_solutions > 0 ==> solutions.len() <= max_solutions,
            solutions.len() >= s0.len(),
            forall|k: int| 0 <= k < s0.len() ==> solutions[k] == s0[k],
            forall|k: int|
                s0.len() <= k < solutions.len() ==> {
                    let t = (#[trigger] solutions[k])@;
                    is_trail(edges, t) && t.len() >= n_edges + 1 && starts_with(t, p) && t.len() > p.len()
                        && in_first(row, j as int, t[p.len() as int])
                },
            forall|k1: int, k2: int|
                s0.len() <= k1 < k2 < solutions.len() ==> #[trigger] solutions[k1]@ != #[trigger] solutions[k2]@,
            !cap_reached(max_solutions, solutions.len() as int) ==> forall|t: Seq<i32>|
                is_trail(edges, t) && t.len() >= n_edges + 1 && starts_with(t, p) && t.len() > p.len()
                    && in_first(row, j as int, t[p.len() as int]) ==> #[trigger] found_from(
                    solutions@,
                    s0.len() as int,
                    t,
                ),
        decreases row.len() - j,
    {
        let w = g.adj[vi][j];
        let e = normalize(v, w);
        assert(row.contains(w));
        assert(adjacent(edges, v, w));
        let ghost s1 = solutions@;
        proof {
            if p.len() > n_edges {
                lemma_long_trail_uses_all(edges, p, v, w);
            }
        }
        if !contains_edge(visited, e) {
            proof {
                lemma_trail_extend(edges, p, w);
                lemma_steps_push(p, w);
                lemma_trail_bound(edges, p.push(w));
                assert(steps(p.push(w)).len() == vis0.len() + 1);
            }
            visited.push(e);
            trace(g, Ghost(edges), n_edges, w, visited, path, max_solutions, solutions);
            visited.pop();
            proof {
                assert(visited@ =~= vis0);
                assert forall|k: int| s0.len() <= k < solutions.len() implies {
                    let t = (#[trigger] solutions[k])@;
                    is_trail(edges, t) && t.len() >= n_edges + 1 && starts_with(t, p) && t.len() > p.len()
                        && in_first(row, j + 1, t[p.len() as int])
                } by {
                    let t = solutions[k]@;
                    if k < s1.len() {
                        assert(solutions[k] == s1[k]);
                    } else {
                        lemma_starts_with_push(t, p, w);
                        assert(row[j as int] == w);
                    }
                }
                assert forall|k1: int, k2: int|
                    s0.len() <= k1 < k2 < solutions.len() implies #[trigger] solutions[k1]@
                    != #[trigger] solutions[k2]@ by {
                    if k2 < s1.len() {
                        assert(solutions[k1] == s1[k1]);
                        assert(solutions[k2] == s1[k2]);
                    } else if k1 < s1.len() {
                        assert(solutions[k1] == s1[k1]);
                        let t1 = solutions[k1]@;
                        let t2 = solutions[k2]@;
                        lemma_starts_with_push(t2, p, w);
                        let i = choose|i: int| 0 <= i < j && row[i] == t1[p.len() as int];
                        assert(row[j as int] == w);
                        assert(g.adj[vi as int]@.no_duplicates());
                        assert(t1[p.len() as int] != t2[p.len() as int]);
                    }
                }
                if !cap_reached(max_solutions, solutions.len() as int) {
                    assert forall|t: Seq<i32>|
                        is_trail(edges, t) && t.len() >= n_edges + 1 && starts_with(t, p) && t.len() > p.len()
                            && in_first(row, j + 1, t[p.len() as int]) implies #[trigger] found_from(
                        solutions@,
                        s0.len() as int,
                        t,
                    ) by {
                        if in_first(row, j as int, t[p.len() as int]) {
                            assert(found_from(s1, s0.len() as int, t));
                            let k = choose|k: int| s0.len() <= k < s1.len() && (#[trigger] s1[k])@ == t;
                            assert(solutions[k] == s1[k]);
                        } else {
                            let i = choose|i: int| 0 <= i < j + 1 && row[i] == t[p.len() as int];
                            assert(i == j);
                            lemma_starts_with_next(t, p);
                            assert(adjacent(edges, w, v));
                            assert(found_from(solutions@, s1.len() as int, t));
                            let k = choose|k: int| s1.len() <= k < solutions.len() && (#[trigger] solutions[k])@ == t;
                        }
                    }
                }
            }
        } else {
            proof {
                assert forall|k: int| s0.len() <= k < solutions.len() implies {
                    let t = (#[trigger] solutions[k])@;
                    is_trail(edges, t) && t.len() >= n_edges + 1 && starts_with(t, p) && t.len() > p.len()
                        && in_first(row, j + 1, t[p.len() as int])
                } by {
                    let t = solutions[k]@;
                    let i = choose|i: int| 0 <= i < j && row[i] == t[p.len() as int];
                }
                if !cap_reached(max_solutions, solutions.len() as int) {
                    assert forall|t: Seq<i32>|
                        is_trail(edges, t) && t.len() >= n_edges + 1 && starts_with(t, p) && t.len() > p.len()
                            && in_first(row, j + 1, t[p.len() as int]) implies #[trigger] found_from(
                        solutions@,
                        s0.len() as int,
                        t,
                    ) by {
                        if !in_first(row, j as int, t[p.len() as int]) {
                            let i = choose|i: int| 0 <= i < j + 1 && row[i] == t[p.len() as int];
                            assert(i == j);
                            lemma_starts_with_next(t, p);
                            let n = p.len() as int + 1;
                            lemma_trail_prefix(edges, t, n);
                            assert(t.take(n) == p.push(w));
                            lemma_steps_push(p, w);
                            assert(steps(p.push(w)).no_duplicates());
                            assert(steps(p.push(w)).last() == e);
                            let x = choose|x: int| 0 <= x < vis0.len() && vis0[x] == e;
                            assert(steps(p.push(w))[x] == e);
                            assert(false);
                        }
                    }
                }
            }
        }
        j = j + 1;
    }
    let ghost s2 = solutions@;
    let record = path.len() > n_edges;
    if record {
        let c = copy_points(path);
        solutions.push(c);
        proof {
            assert(solutions[solutions.len() - 1]@ == p);
            assert(p.take(p.len() as int) =~= p);
            assert forall|k: int| 0 <= k < s2.len() implies solutions[k] == s2[k] by {}
        }
    }
    assert(record ==> solutions.len() == s2.len() + 1 && solutions[s2.len() as int]@ == p);
    assert(!record ==> solutions@ == s2);
    path.pop();
    proof {
        assert(path@ =~= path0);
        if !cap_reached(max_solutions, solutions.len() as int) {
            assert forall|t: Seq<i32>|
                is_trail(edges, t) && t.len() >= n_edges + 1 && starts_with(t, p) implies #[trigger] found_from(
                solutions@,
                s0.len() as int,
                t,
            ) by {
                if t.len() == p.len() {
                    assert(t =~= t.take(p.len() as int));
                    assert(t =~= p);
                    assert(record);
                    assert(solutions[s2.len() as int]@ == t);
                    assert(s0.len() <= s2.len());
                } else {
                    lemma_starts_with_next(t, p);
                    let w = t[p.len() as int];
                    assert(adjacent(edges, t[p.len() - 1], t[p.len() as int]));
                    assert(row.contains(w));
                    let i = choose|i: int| 0 <= i < row.len() && row[i] == w;
                    assert(in_first(row, row.len() as int, w));
                    assert(found_from(s2, s0.len() as int, t));
                    let k = choose|k: int| s0.len() <= k < s2.len() && (#[trigger] s2[k])@ == t;
                    assert(solutions[k] == s2[k]);
                }
            }
        }
    }
}

} // verus!
