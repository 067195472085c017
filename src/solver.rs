//! The solver over an edge list, and the laws that its results obey.
use vstd::prelude::*;
use crate::graph::{adjacent, feasible, feasible_start, norm, Graph};
use crate::search::{cap_reached, found_from, has_neighbor, is_solution, is_trail, starts_with, steps, trace};

verus! {

/// The views of a list of solutions.
pub open spec fn views(r: Seq<Vec<i32>>) -> Seq<Seq<i32>> {
    r.map_values(|v: Vec<i32>| v@)
}

/// What a search over `edges` from `start` under the cap `max_solutions`
/// (0: none; below 0: nothing is searched) may return as `r`.
pub open spec fn search_result(edges: Seq<(i32, i32)>, start: i32, max_solutions: i32, r: Seq<Seq<i32>>) -> bool {
    &&& forall|k: int| 0 <= k < r.len() ==> is_solution(edges, start, #[trigger] r[k])
    &&& forall|k1: int, k2: int| 0 <= k1 < k2 < r.len() ==> #[trigger] r[k1] != #[trigger] r[k2]
    &&& !feasible(edges, start) ==> r.len() == 0
    &&& edges.len() == 0 ==> r.len() == 0
    &&& max_solutions > 0 ==> r.len() <= max_solutions
    &&& max_solutions < 0 ==> r.len() == 0
    &&& !cap_reached(max_solutions, r.len() as int) && feasible(edges, start) && edges.len() > 0
        ==> forall|t: Seq<i32>| #[trigger] is_solution(edges, start, t) ==> r.contains(t)
}

/// Enumerates the drawings of all edges in one stroke from `start`, stopping
/// once `max_solutions` of them are found (0: no cap).
pub fn find_trails(edges: &Vec<(i32, i32)>, start: i32, max_solutions: i32) -> (r: Vec<Vec<i32>>)
    ensures
        search_result(edges@, start, max_solutions, views(r@)),
{
    let g = Graph::build(edges);
    let mut solutions: Vec<Vec<i32>> = Vec::new();
    if !feasible_start(&g, start, Ghost(edges@)) {
        assert(views(solutions@) =~= Seq::<Seq<i32>>::empty());
        return solutions;
    }
    let mut visited: Vec<(i32, i32)> = Vec::new();
    let mut path: Vec<i32> = Vec::new();
    proof {
        let p = path@.push(start);
        assert(steps(p) =~= Seq::<(i32, i32)>::empty());
        assert(visited@ =~= steps(p));
    }
    trace(&g, Ghost(edges@), edges.len(), start, &mut visited, &mut path, max_solutions, &mut solutions);
    proof {
        let r = views(solutions@);
        let p = Seq::<i32>::empty().push(start);
        assert forall|k: int| 0 <= k < r.len() implies is_solution(edges@, start, #[trigger] r[k]) by {
            assert(solutions[k]@ == r[k]);
            assert(r[k].take(1)[0] == r[k][0]);
        }
        assert forall|k1: int, k2: int| 0 <= k1 < k2 < r.len() implies #[trigger] r[k1] != #[trigger] r[k2] by {
            assert(solutions[k1]@ == r[k1]);
            assert(solutions[k2]@ == r[k2]);
        }
        if !cap_reached(max_solutions, r.len() as int) && edges.len() > 0 {
            assert forall|t: Seq<i32>| #[trigger] is_solution(edges@, start, t) implies r.contains(t) by {
                assert(adjacent(edges@, t[0], t[1]));
                assert(t.take(1) =~= p);
                assert(starts_with(t, p));
                assert(has_neighbor(edges@, start));
                assert(found_from(solutions@, 0, t));
                let k = choose|k: int| 0 <= k < solutions.len() && (#[trigger] solutions@[k])@ == t;
                assert(r[k] == t);
            }
        }
    }
    solutions
}

/// With a cap of one, at most one drawing is returned.
pub proof fn lemma_cap_one(edges: Seq<(i32, i32)>, start: i32, r: Seq<Seq<i32>>)
    requires
        search_result(edges, start, 1, r),
    ensures
        r.len() <= 1,
{
}

/// A search without a cap returns at least as many drawings as a search with
/// any cap on the same edges and start.
pub proof fn lemma_uncapped_finds_most(
    edges: Seq<(i32, i32)>,
    start: i32,
    max_solutions: i32,
    all: Seq<Seq<i32>>,
    capped: Seq<Seq<i32>>,
)
    requires
        max_solutions > 0,
        search_result(edges, start, 0, all),
        search_result(edges, start, max_solutions, capped),
    ensures
        capped.len() <= all.len(),
{
    if capped.len() > 0 {
        assert(!cap_reached(0, all.len() as int));
        assert forall|t: Seq<i32>| capped.to_set().contains(t) implies all.to_set().contains(t) by {
            let k = choose|k: int| 0 <= k < capped.len() && capped[k] == t;
            assert(is_solution(edges, start, capped[k]));
        }
        assert(capped.no_duplicates());
        capped.unique_seq_to_set();
        all.lemma_cardinality_of_set();
        vstd::set_lib::lemma_len_subset(capped.to_set(), all.to_set());
    }
}

/// Without edges there is nothing to draw, whatever the start and the cap.
pub proof fn lemma_no_edges(start: i32, max_solutions: i32, r: Seq<Seq<i32>>)
    requires
        search_result(Seq::empty(), start, max_solutions, r),
    ensures
        r.len() == 0,
{
}

/// Each returned drawing walks from point to point along edges of the list and
/// never walks an edge twice, in either direction.
pub proof fn lemma_drawings_are_trails(
    edges: Seq<(i32, i32)>,
    start: i32,
    max_solutions: i32,
    r: Seq<Seq<i32>>,
    k: int,
)
    requires
        search_result(edges, start, max_solutions, r),
        0 <= k < r.len(),
    ensures
        r[k].len() >= 1,
        r[k][0] == start,
        forall|i: int| 0 <= i < r[k].len() - 1 ==> #[trigger] adjacent(edges, r[k][i], r[k][i + 1]),
        forall|i: int, j: int|
            0 <= i < j < r[k].len() - 1 ==> #[trigger] norm(r[k][i], r[k][i + 1]) != #[trigger] norm(
                r[k][j],
                r[k][j + 1],
            ),
{
    let t = r[k];
    assert(is_solution(edges, start, t));
    assert forall|i: int, j: int|
        0 <= i < j < t.len() - 1 implies #[trigger] norm(t[i], t[i + 1]) != #[trigger] norm(t[j], t[j + 1]) by {
        assert(steps(t)[i] == norm(t[i], t[i + 1]));
        assert(steps(t)[j] == norm(t[j], t[j + 1]));
    }
}

/// The parity test is necessary: where it fails, nothing is returned.
pub proof fn lemma_infeasible_none(edges: Seq<(i32, i32)>, start: i32, max_solutions: i32, r: Seq<Seq<i32>>)
    requires
        search_result(edges, start, max_solutions, r),
        !feasible(edges, start),
    ensures
        r.len() == 0,
{
}

/// Where there are edges, the parity test passes and a drawing from `start`
/// exists, a search
/// with a cap of at least one, or none, returns at least one drawing.
pub proof fn lemma_feasible_some(
    edges: Seq<(i32, i32)>,
    start: i32,
    max_solutions: i32,
    r: Seq<Seq<i32>>,
    t: Seq<i32>,
)
    requires
        search_result(edges, start, max_solutions, r),
        max_solutions >= 0,
        edges.len() > 0,
        feasible(edges, start),
        is_solution(edges, start, t),
    ensures
        r.len() >= 1,
{
    if r.len() == 0 {
        assert(!cap_reached(max_solutions, 0));
        assert(r.contains(t));
    }
}

} // verus!
