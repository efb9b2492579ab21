use vstd::prelude::*;
use vstd::set_lib::*;
use crate::graph::{
    Edge, Graph, adjacency, adjacency_of, edges_within, is_first_longest, rows, select_root,
};

verus! {

/// One vertex set on its parent's arc: it is the `rank`-th (from 1) of the
/// `siblings` vertices claimed by `parent` at once. Around the root
/// (`full_circle`) the siblings share the whole circle; around any other
/// parent they share a half circle with one gap's margin on each side.
#[derive(Clone, Copy, Debug, PartialEq, Eq, Structural)]
pub struct Placement {
    pub parent: usize,
    pub child: usize,
    pub rank: usize,
    pub siblings: usize,
    pub full_circle: bool,
}

/// The root of a layout and its placements, parents always before children.
#[derive(Debug)]
pub struct TreePlan {
    pub root: usize,
    pub placements: Vec<Placement>,
}

/// The state of the sweep: placements made but not yet carried out (the
/// last one comes next), the vertices not claimed yet, and the placements
/// carried out so far, in order.
pub struct Sweep {
    pub stack: Seq<Placement>,
    pub unplaced: Set<usize>,
    pub placed: Seq<Placement>,
}

/// The out-neighbours of `p` that are still unplaced, in adjacency order.
pub open spec fn claimed(adj: Seq<Seq<usize>>, p: usize, unplaced: Set<usize>) -> Seq<usize> {
    adj[p as int].filter(|c: usize| unplaced.contains(c))
}

/// The placements of `children` around `p`.
pub open spec fn fan(p: usize, children: Seq<usize>, full_circle: bool) -> Seq<Placement> {
    Seq::new(
        children.len(),
        |k: int|
            Placement {
                parent: p,
                child: children[k],
                rank: (k + 1) as usize,
                siblings: children.len() as usize,
                full_circle,
            },
    )
}

/// Carries out the placement on top of the stack, then claims the unplaced
/// out-neighbours of the vertex just placed and stacks their placements so
/// that the first of them comes next. Only the root's children share the full
/// circle, and the root is never placed.
pub open spec fn sweep_step(adj: Seq<Seq<usize>>, s: Sweep) -> Sweep {
    let q = s.stack.last();
    let ch = claimed(adj, q.child, s.unplaced);
    Sweep {
        stack: s.stack.drop_last() + fan(q.child, ch, false).reverse(),
        unplaced: s.unplaced.difference(ch.to_set()),
        placed: s.placed.push(q),
    }
}

/// Each step claims a vertex or shortens the stack.
pub proof fn lemma_step_decreases(adj: Seq<Seq<usize>>, s: Sweep)
    requires
        s.stack.len() > 0,
    ensures
        ({
            let t = sweep_step(adj, s);
            t.unplaced.len() < s.unplaced.len() || (t.unplaced == s.unplaced && t.stack.len()
                < s.stack.len())
        }),
{
    let p = s.stack.last().child;
    let ch = claimed(adj, p, s.unplaced);
    let t = sweep_step(adj, s);
    <usize as FiniteFull>::full_properties();
    lemma_set_subset_finite(Set::<usize>::full(), s.unplaced);
    if ch.len() == 0 {
        assert(ch.to_set() =~= Set::<usize>::empty());
        assert(t.unplaced =~= s.unplaced);
    } else {
        let c = ch[0];
        adj[p as int].lemma_filter_pred(|c: usize| s.unplaced.contains(c), 0);
        assert(ch.to_set().contains(c));
        lemma_len_subset(t.unplaced, s.unplaced.remove(c));
    }
}

/// Runs the sweep until the stack is empty.
pub open spec fn sweep(adj: Seq<Seq<usize>>, s: Sweep) -> Sweep
    decreases s.unplaced.len(), s.stack.len(),
{
    if s.stack.len() == 0 {
        s
    } else {
        proof {
            lemma_step_decreases(adj, s);
        }
        sweep(adj, sweep_step(adj, s))
    }
}

/// The vertices `0..n` but `root`.
pub open spec fn all_but(n: nat, root: usize) -> Set<usize> {
    Set::new(|v: usize| v < n && v != root)
}

/// The sweep's start: every vertex but the root is unplaced, then the root
/// claims its out-neighbours, which share the full circle.
pub open spec fn start(adj: Seq<Seq<usize>>, n: nat, root: usize) -> Sweep {
    let unplaced = all_but(n, root);
    let ch = claimed(adj, root, unplaced);
    Sweep {
        stack: fan(root, ch, true).reverse(),
        unplaced: unplaced.difference(ch.to_set()),
        placed: Seq::empty(),
    }
}

/// `root` and `placed` are the layout plan of the graph with these edges on
/// the vertices `0..n`.
pub open spec fn is_plan_of(edges: Seq<Edge>, n: nat, root: usize, placed: Seq<Placement>) -> bool {
    let adj = adjacency_of(edges, n);
    &&& is_first_longest(adj, root as int)
    &&& placed == sweep(adj, start(adj, n, root)).placed
}

/// The vertices whose flag is set.
pub open spec fn unplaced_set(free: Seq<bool>) -> Set<usize> {
    Set::new(|v: usize| (v as int) < free.len() && free[v as int])
}

/// Every out-neighbour list names vertices below `n`.
pub open spec fn rows_within(adj: Seq<Seq<usize>>, n: nat) -> bool {
    forall|v: int, j: int|
        0 <= v < adj.len() && 0 <= j < adj[v].len() ==> #[trigger] adj[v][j] < n
}

proof fn lemma_adjacency_within(edges: Seq<Edge>, n: nat)
    requires
        edges_within(edges, n),
    ensures
        rows_within(adjacency_of(edges, n), n),
{
    let adj = adjacency_of(edges, n);
    assert forall|v: int, j: int| 0 <= v < adj.len() && 0 <= j < adj[v].len() implies #[trigger] adj[v][j]
        < n by {
        let pred = |e: Edge| e.src == v as usize;
        let f = edges.filter(pred);
        let e = f[j];
        assert(f.contains(e));
        edges.lemma_filter_contains_rev(pred, e);
        let k = choose|k: int| 0 <= k < edges.len() && edges[k] == e;
        assert(edges[k].trg < n);
    }
}

/// The out-neighbours in `row` whose flag is still set, in order.
fn claim(row: &Vec<usize>, free: &Vec<bool>) -> (ch: Vec<usize>)
    requires
        forall|j: int| 0 <= j < row@.len() ==> #[trigger] row@[j] < free@.len(),
    ensures
        ch@ == row@.filter(|c: usize| unplaced_set(free@).contains(c)),
{
    let ghost pred = |c: usize| unplaced_set(free@).contains(c);
    let mut ch: Vec<usize> = Vec::new();
    let mut j: usize = 0;
    while j < row.len()
        invariant
            j <= row@.len(),
            forall|i: int| 0 <= i < row@.len() ==> #[trigger] row@[i] < free@.len(),
            pred == (|c: usize| unplaced_set(free@).contains(c)),
            ch@ == row@.take(j as int).filter(pred),
        decreases row@.len() - j,
    {
        let c = row[j];
        proof {
            assert(row@.take(j + 1) =~= row@.take(j as int).push(c));
            row@.take(j as int).lemma_filter_push(c, pred);
        }
        if free[c] {
            ch.push(c);
        }
        j = j + 1;
    }
    assert(row@.take(row@.len() as int) =~= row@);
    ch
}

/// Claims the unplaced out-neighbours of `p` and stacks their placements,
/// the first one on top.
fn expand(
    adj: &Vec<Vec<usize>>,
    free: &mut Vec<bool>,
    stack: &mut Vec<Placement>,
    p: usize,
    full: bool,
)
    requires
        p < old(free)@.len(),
        adj@.len() == old(free)@.len(),
        rows_within(rows(adj@), old(free)@.len()),
    ensures
        final(free)@.len() == old(free)@.len(),
        ({
            let ch = claimed(rows(adj@), p, unplaced_set(old(free)@));
            &&& unplaced_set(final(free)@) == unplaced_set(old(free)@).difference(ch.to_set())
            &&& final(stack)@ == old(stack)@ + fan(p, ch, full).reverse()
        }),
{
    let ghost a = rows(adj@);
    let ghost u = unplaced_set(free@);
    let n = free.len();
    assert(adj@[p as int]@ == a[p as int]);
    let ch = claim(&adj[p], free);
    let ghost ch_fan = fan(p, ch@, full);
    proof {
        assert forall|j: int| 0 <= j < ch@.len() implies #[trigger] ch@[j] < n by {
            assert(ch@.contains(ch@[j]));
            a[p as int].lemma_filter_contains_rev(|c: usize| u.contains(c), ch@[j]);
        }
    }
    let ghost free0 = free@;
    let m = ch.len();
    let mut k: usize = 0;
    while k < m
        invariant
            free@.len() == n,
            free0.len() == n,
            k <= m,
            m == ch@.len(),
            forall|j: int| 0 <= j < ch@.len() ==> #[trigger] ch@[j] < n,
            forall|w: int|
                0 <= w < n ==> #[trigger] free@[w] == (free0[w] && !ch@.take(k as int).contains(
                    w as usize,
                )),
        decreases m - k,
    {
        let c = ch[k];
        let ghost prev = free@;
        free.set(c, false);
        proof {
            let t0 = ch@.take(k as int);
            assert(ch@.take(k + 1) =~= t0.push(c));
            assert forall|w: int| 0 <= w < n implies #[trigger] free@[w] == (free0[w]
                && !t0.push(c).contains(w as usize)) by {
                if w as usize == c {
                    assert(t0.push(c)[k as int] == c);
                } else {
                    assert(prev[w] == free@[w]);
                    if t0.push(c).contains(w as usize) {
                        let i = choose|i: int| 0 <= i < t0.push(c).len() && t0.push(c)[i] == w as usize;
                        assert(t0[i] == w as usize);
                    }
                    if t0.contains(w as usize) {
                        let i = choose|i: int| 0 <= i < t0.len() && t0[i] == w as usize;
                        assert(t0.push(c)[i] == w as usize);
                    }
                }
            }
        }
        k = k + 1;
    }
    proof {
        assert(ch@.take(m as int) =~= ch@);
        assert(unplaced_set(free@) =~= u.difference(ch@.to_set()));
    }
    let ghost stack0 = stack@;
    let mut k: usize = m;
    while k > 0
        invariant
            k <= m,
            m == ch@.len(),
            ch_fan == fan(p, ch@, full),
            stack@ == stack0 + ch_fan.reverse().take(m - k),
        decreases k,
    {
        k = k - 1;
        stack.push(Placement { parent: p, child: ch[k], rank: k + 1, siblings: m, full_circle: full });
        proof {
            assert(ch_fan.reverse().take(m - k) =~= ch_fan.reverse().take(m - k - 1).push(
                ch_fan[k as int],
            ));
        }
    }
    assert(ch_fan.reverse().take(m as int) =~= ch_fan.reverse());
}

/// Picks the root of `graph` and lists, in order, the placements of every
/// vertex reached from it: a vertex is placed, then everything below it,
/// then its next sibling.
pub fn layout_plan(graph: &Graph) -> (plan: TreePlan)
    requires
        graph.wf(),
        graph.n >= 1,
    ensures
        is_plan_of(graph.edges@, graph.n as nat, plan.root, plan.placements@),
{
    let n = graph.n;
    let adj = adjacency(graph);
    assert(rows(adj@).len() == n);
    let root = select_root(&adj);
    let ghost a = adjacency_of(graph.edges@, n as nat);
    proof {
        lemma_adjacency_within(graph.edges@, n as nat);
    }
    let mut free: Vec<bool> = Vec::new();
    let mut v: usize = 0;
    while v < n
        invariant
            v <= n,
            free@.len() == v,
            forall|j: int| 0 <= j < v ==> #[trigger] free@[j] == (j != root),
        decreases n - v,
    {
        free.push(v != root);
        v = v + 1;
    }
    let ghost u0 = all_but(n as nat, root);
    assert(unplaced_set(free@) =~= u0);
    let ghost ch0 = claimed(a, root, u0);
    let mut stack: Vec<Placement> = Vec::new();
    expand(&adj, &mut free, &mut stack, root, true);
    assert(stack@ =~= fan(root, ch0, true).reverse());
    let mut placed: Vec<Placement> = Vec::new();
    assert(stack@ =~= start(a, n as nat, root).stack);
    assert(placed@ =~= start(a, n as nat, root).placed);
    while stack.len() > 0
        invariant
            rows(adj@) == a,
            adj@.len() == n,
            rows_within(a, n as nat),
            free@.len() == n,
            forall|i: int| 0 <= i < stack@.len() ==> #[trigger] stack@[i].child < n,
            sweep(a, Sweep { stack: stack@, unplaced: unplaced_set(free@), placed: placed@ })
                == sweep(a, start(a, n as nat, root)),
        decreases unplaced_set(free@).len(), stack@.len(),
    {
        let ghost s = Sweep { stack: stack@, unplaced: unplaced_set(free@), placed: placed@ };
        proof {
            lemma_step_decreases(a, s);
        }
        let q = stack.pop().unwrap();
        placed.push(q);
        assert(q.child < n);
        expand(&adj, &mut free, &mut stack, q.child, false);
        proof {
            assert(stack@ =~= sweep_step(a, s).stack);
            assert(sweep_step(a, s) == Sweep { stack: stack@, unplaced: unplaced_set(free@), placed: placed@ });
        }
    }
    TreePlan { root, placements: placed }
}

} // verus!
