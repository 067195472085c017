//! The graph of an edge list: its points, their neighbors, and the parity
//! test on degrees.
use vstd::prelude::*;

verus! {

/// The canonical form of the undirected edge between `a` and `b`.
pub open spec fn norm(a: i32, b: i32) -> (i32, i32) {
    if a <= b {
        (a, b)
    } else {
        (b, a)
    }
}

/// `a` and `b` are joined by some edge of the list, in either direction.
pub open spec fn adjacent(edges: Seq<(i32, i32)>, a: i32, b: i32) -> bool {
    exists|i: int|
        0 <= i < edges.len() && #[trigger] edges[i] == (a, b) || 0 <= i < edges.len() && edges[i] == (b, a)
}

/// `v` is an endpoint of some edge of the list.
pub open spec fn is_vertex(edges: Seq<(i32, i32)>, v: i32) -> bool {
    exists|i: int| 0 <= i < edges.len() && (#[trigger] edges[i].0 == v || edges[i].1 == v)
}

/// The points that the edge list names.
pub open spec fn vertices(edges: Seq<(i32, i32)>) -> Set<i32> {
    Set::new(|v: i32| is_vertex(edges, v))
}

/// The points joined to `v` by an edge; repeated edges count once.
pub open spec fn neighbors(edges: Seq<(i32, i32)>, v: i32) -> Set<i32> {
    Set::new(|b: i32| adjacent(edges, v, b))
}

/// The degree of `v`: the number of its distinct neighbors.
pub open spec fn degree(edges: Seq<(i32, i32)>, v: i32) -> nat {
    neighbors(edges, v).len()
}

/// The points of odd degree.
pub open spec fn odd_vertices(edges: Seq<(i32, i32)>) -> Set<i32> {
    vertices(edges).filter(|v: i32| degree(edges, v) % 2 == 1)
}

/// An Eulerian trail from `start` passes the parity test: either no point has
/// odd degree, or exactly two do and `start` is one of them.
pub open spec fn feasible(edges: Seq<(i32, i32)>, start: i32) -> bool {
    let odd = odd_vertices(edges);
    odd.len() == 0 || odd.len() == 2 && odd.contains(start)
}

/// Adjacency lists: `adj[i]` holds the neighbors of `verts[i]`.
pub struct Graph {
    pub verts: Vec<i32>,
    pub adj: Vec<Vec<i32>>,
}

impl Graph {
    /// The points are distinct, and so are the entries of each adjacency list.
    pub open spec fn wf(&self) -> bool {
        &&& self.verts.len() == self.adj.len()
        &&& self.verts@.no_duplicates()
        &&& forall|i: int| 0 <= i < self.adj.len() ==> (#[trigger] self.adj[i])@.no_duplicates()
    }

    /// The graph holds exactly the points and the adjacency of `edges`.
    pub open spec fn models(&self, edges: Seq<(i32, i32)>) -> bool {
        &&& self.wf()
        &&& forall|v: i32| #[trigger] self.verts@.contains(v) <==> is_vertex(edges, v)
        &&& forall|i: int, b: i32|
            0 <= i < self.verts.len() ==> (#[trigger] self.adj[i]@.contains(b) <==> adjacent(
                edges,
                self.verts[i],
                b,
            ))
    }

    /// The position of `v` among the points of the graph.
    pub fn index_of(&self, v: i32) -> (r: Option<usize>)
        ensures
            match r {
                Some(i) => i < self.verts.len() && self.verts[i as int] == v,
                None => !self.verts@.contains(v),
            },
    {
        let mut i: usize = 0;
        while i < self.verts.len()
            invariant
                i <= self.verts.len(),
                forall|j: int| 0 <= j < i ==> self.verts[j] != v,
            decreases self.verts.len() - i,
        {
            if self.verts[i] == v {
                return Some(i);
            }
            i = i + 1;
        }
        None
    }

    /// Records `b` as a neighbor of `a`, adding `a` as a point if it is new.
    fn add_arc(&mut self, a: i32, b: i32)
        requires
            old(self).wf(),
        ensures
            final(self).wf(),
            final(self).verts.len() >= old(self).verts.len(),
            forall|i: int| 0 <= i < old(self).verts.len() ==> final(self).verts[i] == old(self).verts[i],
            forall|v: i32| #[trigger] final(self).verts@.contains(v) <==> (old(self).verts@.contains(v) || v == a),
            forall|i: int, x: i32|
                0 <= i < final(self).verts.len() ==> (#[trigger] final(self).adj[i]@.contains(x) <==> (
                i < old(self).verts.len() && old(self).adj[i]@.contains(x) || final(self).verts[i] == a
                    && x == b)),
    {
        let i = match self.index_of(a) {
            Some(i) => i,
            None => {
                self.verts.push(a);
                self.adj.push(Vec::new());
                proof {
                    assert forall|j: int| 0 <= j < self.adj.len() implies (
                    #[trigger] self.adj[j])@.no_duplicates() by {
                        if j < old(self).adj.len() {
                            assert(self.adj[j] == old(self).adj[j]);
                        }
                    }
                }
                self.verts.len() - 1
            },
        };
        let ghost s1 = *self;
        assert(forall|j: int| 0 <= j < s1.verts.len() && j != i ==> s1.verts[j] != a);
        assert(forall|j: int| 0 <= j < old(self).verts.len() ==> s1.verts[j] == old(self).verts[j]);
        assert(forall|j: int| 0 <= j < old(self).verts.len() ==> s1.adj[j] == old(self).adj[j]);
        assert(forall|j: int| old(self).verts.len() <= j < s1.verts.len() ==> s1.adj[j]@ == Seq::<i32>::empty());
        assert(forall|v: i32| #[trigger] s1.verts@.contains(v) <==> (old(self).verts@.contains(v) || v == a)) by {
            assert forall|v: i32| #[trigger] s1.verts@.contains(v) implies (old(self).verts@.contains(v) || v == a) by {
                let j = choose|j: int| 0 <= j < s1.verts.len() && s1.verts[j] == v;
                if j < old(self).verts.len() {
                    assert(old(self).verts[j] == v);
                }
            }
            assert forall|v: i32| (old(self).verts@.contains(v) || v == a) implies #[trigger] s1.verts@.contains(v) by {
                if old(self).verts@.contains(v) {
                    let j = choose|j: int| 0 <= j < old(self).verts.len() && old(self).verts[j] == v;
                    assert(s1.verts[j] == v);
                } else {
                    assert(s1.verts[i as int] == v);
                }
            }
        }
        let ghost row = self.adj[i as int]@;
        if contains(&self.adj[i], b) {
            return;
        }
        self.adj[i].push(b);
        proof {
            assert(self.adj[i as int]@ == row.push(b));
            assert forall|j: int| 0 <= j < self.adj.len() && j != i implies self.adj[j] == s1.adj[j] by {}
            assert forall|j: int, x: i32| 0 <= j < self.verts.len() implies (
            #[trigger] self.adj[j]@.contains(x) <==> (j < old(self).verts.len() && old(self).adj[j]@.contains(x)
                || self.verts[j] == a && x == b)) by {
                if j == i {
                    if x == b {
                        assert(self.adj[j]@.last() == b);
                    }
                    if row.contains(x) {
                        let t = choose|t: int| 0 <= t < row.len() && row[t] == x;
                        assert(self.adj[j]@[t] == x);
                    }
                } else {
                    assert(self.adj[j] == s1.adj[j]);
                }
            }
            assert forall|j: int| 0 <= j < self.adj.len() implies (#[trigger] self.adj[j])@.no_duplicates() by {
                if j != i {
                    assert(self.adj[j] == s1.adj[j]);
                }
            }
        }
    }

    /// Builds the adjacency lists of an edge list: each pair joins its two points
    /// both ways.
    pub fn build(edges: &Vec<(i32, i32)>) -> (g: Graph)
        ensures
            g.models(edges@),
    {
        let mut g = Graph { verts: Vec::new(), adj: Vec::new() };
        let mut k: usize = 0;
        while k < edges.len()
            invariant
                k <= edges.len(),
                g.models(edges@.take(k as int)),
            decreases edges.len() - k,
        {
            let (a, b) = edges[k];
            proof {
                lemma_take_step(edges@, k as int);
            }
            let ghost g0 = g;
            g.add_arc(a, b);
            let ghost g1 = g;
            g.add_arc(b, a);
            proof {
                let e1 = edges@.take(k + 1);
                let e0 = edges@.take(k as int);
                assert forall|i: int, x: i32|
                    0 <= i < g.verts.len() implies (#[trigger] g.adj[i]@.contains(x) <==> adjacent(
                    e1,
                    g.verts[i],
                    x,
                )) by {
                    let v = g.verts[i];
                    assert(g.adj[i]@.contains(x) <==> (i < g1.verts.len() && g1.adj[i]@.contains(x) || v
                        == b && x == a));
                    if i < g1.verts.len() {
                        assert(g1.verts[i] == v);
                        assert(g1.adj[i]@.contains(x) <==> (i < g0.verts.len() && g0.adj[i]@.contains(x)
                            || v == a && x == b));
                    }
                    if i < g0.verts.len() {
                        assert(g0.verts[i] == v);
                        assert(g0.adj[i]@.contains(x) <==> adjacent(e0, v, x));
                    }
                    assert(adjacent(e1, v, x) <==> (adjacent(e0, v, x) || edges@[k as int] == (v, x)
                        || edges@[k as int] == (x, v)));
                    if i >= g0.verts.len() {
                        if adjacent(e0, g.verts[i], x) {
                            lemma_adjacent_is_vertex(e0, g.verts[i], x);
                            assert(g0.verts@.contains(g.verts[i]));
                            let j = choose|j: int| 0 <= j < g0.verts.len() && g0.verts[j] == v;
                            assert(g1.verts[j] == g0.verts[j]);
                            assert(g.verts[j] == g1.verts[j]);
                            assert(false);
                        }
                        if i < g1.verts.len() {
                            assert(g1.verts@.contains(v));
                            if v != a {
                                assert(g0.verts@.contains(v));
                                let j = choose|j: int| 0 <= j < g0.verts.len() && g0.verts[j] == v;
                                assert(g1.verts[j] == g0.verts[j]);
                                assert(false);
                            }
                        } else {
                            assert(g.verts@.contains(v));
                            if v != b {
                                assert(g1.verts@.contains(v));
                                let j = choose|j: int| 0 <= j < g1.verts.len() && g1.verts[j] == v;
                                assert(g.verts[j] == g1.verts[j]);
                                assert(false);
                            }
                        }
                    }
                }
            }
            k = k + 1;
        }
        assert(edges@.take(edges.len() as int) =~= edges@);
        g
    }
}

/// Applies the parity test for trails that start at `start`.
pub fn feasible_start(g: &Graph, start: i32, Ghost(edges): Ghost<Seq<(i32, i32)>>) -> (r: bool)
    requires
        g.models(edges),
    ensures
        r == feasible(edges, start),
{
    let mut odd: Vec<i32> = Vec::new();
    let mut i: usize = 0;
    while i < g.verts.len()
        invariant
            g.models(edges),
            i <= g.verts.len(),
            odd@.no_duplicates(),
            forall|v: i32|
                #[trigger] odd@.contains(v) <==> exists|j: int|
                    0 <= j < i && g.verts[j] == v && #[trigger] g.adj[j].len() % 2 == 1,
        decreases g.verts.len() - i,
    {
        if g.adj[i].len() % 2 == 1 {
            proof {
                if odd@.contains(g.verts[i as int]) {
                    let j = choose|j: int|
                        0 <= j < i && g.verts[j] == g.verts[i as int] && #[trigger] g.adj[j].len() % 2 == 1;
                    assert(false);
                }
            }
            let ghost odd0 = odd@;
            odd.push(g.verts[i]);
            proof {
                assert forall|v: i32|
                    #[trigger] odd@.contains(v) <==> exists|j: int|
                        0 <= j < i + 1 && g.verts[j] == v && #[trigger] g.adj[j].len() % 2 == 1 by {
                    if odd@.contains(v) {
                        let t = choose|t: int| 0 <= t < odd.len() && odd@[t] == v;
                        if t == odd.len() - 1 {
                            assert(g.verts[i as int] == v);
                        } else {
                            assert(odd0[t] == v);
                            assert(odd0.contains(v));
                        }
                    }
                    if exists|j: int| 0 <= j < i + 1 && g.verts[j] == v && #[trigger] g.adj[j].len() % 2 == 1 {
                        let j = choose|j: int|
                            0 <= j < i + 1 && g.verts[j] == v && #[trigger] g.adj[j].len() % 2 == 1;
                        if j < i {
                            assert(odd0.contains(v));
                            let t = choose|t: int| 0 <= t < odd0.len() && odd0[t] == v;
                            assert(odd@[t] == v);
                        } else {
                            assert(odd@.last() == v);
                        }
                    }
                }
            }
        } else {
            proof {
                assert forall|v: i32|
                    #[trigger] odd@.contains(v) <==> exists|j: int|
                        0 <= j < i + 1 && g.verts[j] == v && #[trigger] g.adj[j].len() % 2 == 1 by {
                    if exists|j: int| 0 <= j < i + 1 && g.verts[j] == v && #[trigger] g.adj[j].len() % 2 == 1 {
                        let j = choose|j: int|
                            0 <= j < i + 1 && g.verts[j] == v && #[trigger] g.adj[j].len() % 2 == 1;
                        assert(j < i);
                    }
                }
            }
        }
        i = i + 1;
    }
    proof {
        assert forall|v: i32| #[trigger] odd@.to_set().contains(v) <==> odd_vertices(edges).contains(v) by {
            if odd@.contains(v) {
                let j = choose|j: int| 0 <= j < g.verts.len() && g.verts[j] == v && #[trigger] g.adj[j].len() % 2 == 1;
                lemma_row_degree(g, edges, j);
                assert(g.verts@.contains(v));
            }
            if odd_vertices(edges).contains(v) {
                assert(g.verts@.contains(v));
                let j = choose|j: int| 0 <= j < g.verts.len() && g.verts[j] == v;
                lemma_row_degree(g, edges, j);
                assert(g.adj[j].len() % 2 == 1);
            }
        }
        assert(odd@.to_set() =~= odd_vertices(edges));
        odd@.unique_seq_to_set();
    }
    if odd.len() == 0 {
        true
    } else if odd.len() == 2 {
        proof {
            assert(odd@.contains(start) <==> odd[0] == start || odd[1] == start);
        }
        odd[0] == start || odd[1] == start
    } else {
        false
    }
}

/// Applies the parity test to the graph of `edges`.
pub fn feasible_start_edges(edges: &Vec<(i32, i32)>, start: i32) -> (r: bool)
    ensures
        r == feasible(edges@, start),
{
    let g = Graph::build(edges);
    feasible_start(&g, start, Ghost(edges@))
}

/// The length of an adjacency list is the degree of its point.
proof fn lemma_row_degree(g: &Graph, edges: Seq<(i32, i32)>, j: int)
    requires
        g.models(edges),
        0 <= j < g.verts.len(),
    ensures
        g.adj[j].len() == degree(edges, g.verts[j]),
        g.adj[j]@.to_set() == neighbors(edges, g.verts[j]),
{
    assert(g.adj[j]@.to_set() =~= neighbors(edges, g.verts[j]));
    g.adj[j]@.unique_seq_to_set();
}

/// Whether `x` occurs in `v`.
pub fn contains(v: &Vec<i32>, x: i32) -> (r: bool)
    ensures
        r == v@.contains(x),
{
    let mut k: usize = 0;
    while k < v.len()
        invariant
            k <= v.len(),
            forall|j: int| 0 <= j < k ==> v[j] != x,
        decreases v.len() - k,
    {
        if v[k] == x {
            return true;
        }
        k = k + 1;
    }
    false
}

/// Adjacency implies that both points are vertices.
pub proof fn lemma_adjacent_is_vertex(edges: Seq<(i32, i32)>, a: i32, b: i32)
    requires
        adjacent(edges, a, b),
    ensures
        is_vertex(edges, a),
        is_vertex(edges, b),
{
    let i = choose|i: int|
        0 <= i < edges.len() && #[trigger] edges[i] == (a, b) || 0 <= i < edges.len() && edges[i] == (b, a);
    assert(edges[i].0 == a || edges[i].1 == a);
    assert(edges[i].0 == b || edges[i].1 == b);
}

/// Growing a prefix by one edge adds exactly that edge's points and adjacency.
proof fn lemma_take_step(edges: Seq<(i32, i32)>, k: int)
    requires
        0 <= k < edges.len(),
    ensures
        forall|v: i32|
            #[trigger] is_vertex(edges.take(k + 1), v) <==> (is_vertex(edges.take(k), v) || edges[k].0 == v
                || edges[k].1 == v),
        forall|a: i32, b: i32|
            #[trigger] adjacent(edges.take(k + 1), a, b) <==> (adjacent(edges.take(k), a, b) || edges[k] == (a, b)
                || edges[k] == (b, a)),
{
    let e0 = edges.take(k);
    let e1 = edges.take(k + 1);
    assert forall|v: i32| is_vertex(e1, v) implies (is_vertex(e0, v) || edges[k].0 == v || edges[k].1 == v) by {
        let i = choose|i: int| 0 <= i < e1.len() && (#[trigger] e1[i].0 == v || e1[i].1 == v);
        if i < k {
            assert(e0[i] == e1[i]);
        }
    }
    assert forall|v: i32| (is_vertex(e0, v) || edges[k].0 == v || edges[k].1 == v) implies is_vertex(e1, v) by {
        if is_vertex(e0, v) {
            let i = choose|i: int| 0 <= i < e0.len() && (#[trigger] e0[i].0 == v || e0[i].1 == v);
            assert(e1[i] == e0[i]);
            assert(e1[i].0 == v || e1[i].1 == v);
        } else {
            assert(e1[k] == edges[k]);
            assert(e1[k].0 == v || e1[k].1 == v);
        }
    }
    assert forall|a: i32, b: i32| adjacent(e1, a, b) implies (adjacent(e0, a, b) || edges[k] == (a, b)
        || edges[k] == (b, a)) by {
        let i = choose|i: int|
            0 <= i < e1.len() && #[trigger] e1[i] == (a, b) || 0 <= i < e1.len() && e1[i] == (b, a);
        if i < k {
            assert(e0[i] == e1[i]);
        }
    }
    assert forall|a: i32, b: i32| (adjacent(e0, a, b) || edges[k] == (a, b) || edges[k] == (b, a)) implies adjacent(
        e1,
        a,
        b,
    ) by {
        if adjacent(e0, a, b) {
            let i = choose|i: int|
                0 <= i < e0.len() && #[trigger] e0[i] == (a, b) || 0 <= i < e0.len() && e0[i] == (b, a);
            assert(e1[i] == e0[i]);
        } else {
            assert(e1[k] == edges[k]);
        }
    }
}

/// Returns the canonical form of the edge between `a` and `b`.
pub fn normalize(a: i32, b: i32) -> (r: (i32, i32))
    ensures
        r == norm(a, b),
{
    if a <= b {
        (a, b)
    } else {
        (b, a)
    }
}

} // verus!
