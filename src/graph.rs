use vstd::prelude::*;

verus! {

/// A directed edge from `src` to `trg`.
#[derive(Clone, Copy, Debug, PartialEq, Eq, Structural)]
pub struct Edge {
    pub src: usize,
    pub trg: usize,
}

impl Edge {
    pub fn new(src: usize, trg: usize) -> (e: Edge)
        ensures
            e.src == src,
            e.trg == trg,
    {
        Edge { src, trg }
    }
}

/// A graph on the vertices `0..n` with an ordered list of directed edges.
#[derive(Debug)]
pub struct Graph {
    pub n: usize,
    pub edges: Vec<Edge>,
}

/// Every edge joins two vertices of a graph with `n` vertices.
pub open spec fn edges_within(edges: Seq<Edge>, n: nat) -> bool {
    forall|i: int| 0 <= i < edges.len() ==> #[trigger] edges[i].src < n && edges[i].trg < n
}

/// The targets of the edges leaving `v`, in the order of the edge list.
pub open spec fn out_neighbors(edges: Seq<Edge>, v: usize) -> Seq<usize> {
    edges.filter(|e: Edge| e.src == v).map_values(|e: Edge| e.trg)
}

/// The out-neighbour lists of the vertices `0..n`.
pub open spec fn adjacency_of(edges: Seq<Edge>, n: nat) -> Seq<Seq<usize>> {
    Seq::new(n, |v: int| out_neighbors(edges, v as usize))
}

/// `r` is the first index of a longest row.
pub open spec fn is_first_longest(rows: Seq<Seq<usize>>, r: int) -> bool {
    &&& 0 <= r < rows.len()
    &&& forall|j: int| 0 <= j < rows.len() ==> #[trigger] rows[j].len() <= rows[r].len()
    &&& forall|j: int| 0 <= j < r ==> #[trigger] rows[j].len() < rows[r].len()
}

/// The rows of a vector of vectors, as sequences.
pub open spec fn rows(adj: Seq<Vec<usize>>) -> Seq<Seq<usize>> {
    adj.map_values(|row: Vec<usize>| row@)
}

impl Graph {
    pub open spec fn wf(&self) -> bool {
        edges_within(self.edges@, self.n as nat)
    }

    /// A graph with no vertices and no edges.
    pub fn new() -> (g: Graph)
        ensures
            g.n == 0,
            g.edges@ == Seq::<Edge>::empty(),
    {
        Graph { n: 0, edges: Vec::new() }
    }

    /// Adds a vertex and returns its index.
    pub fn add_vertex(&mut self) -> (v: usize)
        requires
            old(self).n < usize::MAX,
        ensures
            v == old(self).n,
            final(self).n == old(self).n + 1,
            final(self).edges@ == old(self).edges@,
    {
        let v = self.n;
        self.n = self.n + 1;
        v
    }
}

/// Builds the out-neighbour list of every vertex; the targets of a vertex
/// keep the order of the edge list, repeats included.
pub fn adjacency(graph: &Graph) -> (adj: Vec<Vec<usize>>)
    requires
        graph.wf(),
    ensures
        rows(adj@) == adjacency_of(graph.edges@, graph.n as nat),
{
    let n = graph.n;
    let mut adj: Vec<Vec<usize>> = Vec::new();
    let mut v: usize = 0;
    while v < n
        invariant
            v <= n,
            adj@.len() == v,
            forall|j: int| 0 <= j < v ==> (#[trigger] adj@[j])@ == Seq::<usize>::empty(),
        decreases n - v,
    {
        adj.push(Vec::new());
        v = v + 1;
    }
    let edges = &graph.edges;
    let mut i: usize = 0;
    while i < edges.len()
        invariant
            graph.wf(),
            n == graph.n,
            edges == &graph.edges,
            i <= edges@.len(),
            adj@.len() == n,
            forall|j: int|
                0 <= j < n ==> (#[trigger] adj@[j])@ == out_neighbors(edges@.take(i as int), j as usize),
        decreases edges@.len() - i,
    {
        let e = edges[i];
        let ghost before = adj@;
        let mut row = Vec::new();
        std::mem::swap(&mut row, &mut adj[e.src]);
        row.push(e.trg);
        adj.set(e.src, row);
        proof {
            let pre = edges@.take(i as int);
            assert(edges@.take(i + 1) =~= pre.push(e));
            assert forall|j: int| 0 <= j < n implies (#[trigger] adj@[j])@ == out_neighbors(
                edges@.take(i + 1),
                j as usize,
            ) by {
                pre.lemma_filter_push(e, |x: Edge| x.src == j as usize);
                let f = pre.filter(|x: Edge| x.src == j as usize);
                assert(f.push(e).map_values(|x: Edge| x.trg) =~= f.map_values(|x: Edge| x.trg).push(e.trg));
            }
        }
        i = i + 1;
    }
    assert(edges@.take(edges@.len() as int) =~= edges@);
    assert(rows(adj@) =~= adjacency_of(graph.edges@, graph.n as nat));
    adj
}

/// The first vertex with the most out-neighbours.
pub fn select_root(adj: &Vec<Vec<usize>>) -> (r: usize)
    requires
        adj@.len() >= 1,
    ensures
        is_first_longest(rows(adj@), r as int),
{
    let mut r: usize = 0;
    let mut best: usize = adj[0].len();
    let mut i: usize = 1;
    while i < adj.len()
        invariant
            1 <= i <= adj@.len(),
            r < i,
            best == adj@[r as int]@.len(),
            forall|j: int| 0 <= j < i ==> #[trigger] adj@[j]@.len() <= best,
            forall|j: int| 0 <= j < r ==> #[trigger] adj@[j]@.len() < best,
        decreases adj@.len() - i,
    {
        if adj[i].len() > best {
            r = i;
            best = adj[i].len();
        }
        i = i + 1;
    }
    r
}

} // verus!
