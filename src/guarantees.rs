use vstd::prelude::*;
use crate::graph::{Edge, adjacency_of, edges_within, is_first_longest, out_neighbors};
use crate::layout::{
    Placement, Sweep, all_but, claimed, fan, is_plan_of, lemma_step_decreases, start, sweep,
    sweep_step,
};

verus! {

broadcast use vstd::seq_lib::group_filter_ensures;

/// Some placement before index `i` put `v`.
pub open spec fn placed_before(placed: Seq<Placement>, v: usize, i: int) -> bool {
    exists|j: int| 0 <= j < i && #[trigger] placed[j].child == v
}

/// No vertex is placed twice.
pub open spec fn children_distinct(placed: Seq<Placement>) -> bool {
    forall|i: int, j: int|
        0 <= i < j < placed.len() ==> #[trigger] placed[i].child != #[trigger] placed[j].child
}

/// No out-neighbour list repeats a vertex.
pub open spec fn rows_distinct(adj: Seq<Seq<usize>>) -> bool {
    forall|v: int| 0 <= v < adj.len() ==> (#[trigger] adj[v]).no_duplicates()
}

/// `q` places a claimed vertex other than the root, below `n`, along an
/// out-edge of its parent; it shares the full circle exactly when its parent
/// is the root.
pub open spec fn sound_placement(
    adj: Seq<Seq<usize>>,
    n: nat,
    root: usize,
    unplaced: Set<usize>,
    q: Placement,
) -> bool {
    &&& q.child != root
    &&& q.child < n
    &&& q.parent < n
    &&& !unplaced.contains(q.child)
    &&& adj[q.parent as int].contains(q.child)
    &&& q.full_circle == (q.parent == root)
}

/// What holds of every state of the sweep.
pub open spec fn sweep_inv(adj: Seq<Seq<usize>>, n: nat, root: usize, s: Sweep) -> bool {
    &&& root < n
    &&& adj.len() == n
    &&& !s.unplaced.contains(root)
    &&& forall|v: usize| #[trigger] s.unplaced.contains(v) ==> v < n
    &&& forall|i: int|
        0 <= i < s.stack.len() ==> sound_placement(adj, n, root, s.unplaced, #[trigger] s.stack[i])
    &&& forall|i: int|
        0 <= i < s.stack.len() ==> (#[trigger] s.stack[i]).parent == root || placed_before(
            s.placed,
            s.stack[i].parent,
            s.placed.len() as int,
        )
    &&& forall|i: int|
        0 <= i < s.placed.len() ==> sound_placement(adj, n, root, s.unplaced, #[trigger] s.placed[i])
    &&& forall|i: int|
        0 <= i < s.placed.len() ==> (#[trigger] s.placed[i]).parent == root || placed_before(
            s.placed,
            s.placed[i].parent,
            i,
        )
    &&& rows_distinct(adj) ==> {
        &&& children_distinct(s.placed)
        &&& children_distinct(s.stack)
        &&& forall|i: int, j: int|
            0 <= i < s.placed.len() && 0 <= j < s.stack.len() ==> #[trigger] s.placed[i].child
                != #[trigger] s.stack[j].child
    }
}

proof fn lemma_filter_distinct<A>(s: Seq<A>, pred: spec_fn(A) -> bool)
    requires
        s.no_duplicates(),
    ensures
        s.filter(pred).no_duplicates(),
    decreases s.len(),
{
    if s.len() > 0 {
        let init = s.drop_last();
        assert(init.push(s.last()) =~= s);
        lemma_filter_distinct(init, pred);
        init.lemma_filter_push(s.last(), pred);
        if pred(s.last()) {
            let f = init.filter(pred);
            assert forall|i: int| 0 <= i < f.len() implies f[i] != s.last() by {
                assert(f.contains(f[i]));
                init.lemma_filter_contains_rev(pred, f[i]);
            }
        }
    }
}

/// The reversed fan of the vertices that `p` claims from `unplaced`: each is
/// in `unplaced`, on an edge from `p`, and (for distinct rows) they differ.
proof fn lemma_fan_facts(
    adj: Seq<Seq<usize>>,
    p: usize,
    unplaced: Set<usize>,
    full: bool,
)
    requires
        0 <= p < adj.len(),
    ensures
        ({
            let ch = claimed(adj, p, unplaced);
            let f = fan(p, ch, full).reverse();
            &&& f.len() == ch.len()
            &&& forall|k: int|
                0 <= k < f.len() ==> {
                    &&& unplaced.contains(#[trigger] f[k].child)
                    &&& ch.to_set().contains(f[k].child)
                    &&& adj[p as int].contains(f[k].child)
                    &&& f[k].parent == p
                    &&& f[k].full_circle == full
                }
            &&& rows_distinct(adj) ==> children_distinct(f)
        }),
{
    let pred = |c: usize| unplaced.contains(c);
    let ch = claimed(adj, p, unplaced);
    let f = fan(p, ch, full).reverse();
    let m = ch.len() as int;
    assert forall|k: int| 0 <= k < f.len() implies {
        &&& unplaced.contains(#[trigger] f[k].child)
        &&& ch.to_set().contains(f[k].child)
        &&& adj[p as int].contains(f[k].child)
        &&& f[k].parent == p
        &&& f[k].full_circle == full
    } by {
        assert(f[k].child == ch[m - 1 - k]);
        assert(ch.contains(ch[m - 1 - k]));
        adj[p as int].lemma_filter_contains_rev(pred, ch[m - 1 - k]);
    }
    if rows_distinct(adj) {
        lemma_filter_distinct(adj[p as int], pred);
        assert forall|i: int, j: int| 0 <= i < j < f.len() implies #[trigger] f[i].child
            != #[trigger] f[j].child by {
            assert(f[i].child == ch[m - 1 - i]);
            assert(f[j].child == ch[m - 1 - j]);
        }
    }
}

proof fn lemma_start_inv(adj: Seq<Seq<usize>>, n: nat, root: usize)
    requires
        root < n,
        adj.len() == n,
    ensures
        sweep_inv(adj, n, root, start(adj, n, root)),
{
    let s = start(adj, n, root);
    let u = all_but(n, root);
    lemma_fan_facts(adj, root, u, true);
    assert forall|i: int| 0 <= i < s.stack.len() implies sound_placement(
        adj,
        n,
        root,
        s.unplaced,
        #[trigger] s.stack[i],
    ) by {
        assert(u.contains(s.stack[i].child));
    }
}

#[verifier::rlimit(60)]
proof fn lemma_step_sound(adj: Seq<Seq<usize>>, n: nat, root: usize, s: Sweep)
    requires
        sweep_inv(adj, n, root, s),
        s.stack.len() > 0,
    ensures
        ({
            let t = sweep_step(adj, s);
            &&& forall|i: int|
                0 <= i < t.stack.len() ==> sound_placement(adj, n, root, t.unplaced, #[trigger] t.stack[i])
            &&& forall|i: int|
                0 <= i < t.stack.len() ==> (#[trigger] t.stack[i]).parent == root || placed_before(
                    t.placed,
                    t.stack[i].parent,
                    t.placed.len() as int,
                )
            &&& forall|i: int|
                0 <= i < t.placed.len() ==> sound_placement(adj, n, root, t.unplaced, #[trigger] t.placed[i])
            &&& forall|i: int|
                0 <= i < t.placed.len() ==> (#[trigger] t.placed[i]).parent == root || placed_before(
                    t.placed,
                    t.placed[i].parent,
                    i,
                )
        }),
{
    let q = s.stack.last();
    let last = s.stack.len() - 1;
    assert(s.stack[last] == q);
    let p = q.child;
    let ch = claimed(adj, p, s.unplaced);
    let f = fan(p, ch, false).reverse();
    let t = sweep_step(adj, s);
    let len = s.placed.len() as int;
    let d = s.stack.drop_last();
    lemma_fan_facts(adj, p, s.unplaced, false);
    assert(t.placed[len] == q);
    assert(t.stack == d + f);
    assert forall|i: int| 0 <= i < t.stack.len() implies sound_placement(
        adj,
        n,
        root,
        t.unplaced,
        #[trigger] t.stack[i],
    ) && (t.stack[i].parent == root || placed_before(
        t.placed,
        t.stack[i].parent,
        t.placed.len() as int,
    )) by {
        if i < d.len() {
            assert(t.stack[i] == s.stack[i]);
            if s.stack[i].parent != root {
                let j = choose|j: int| 0 <= j < len && #[trigger] s.placed[j].child == s.stack[i].parent;
                assert(t.placed[j] == s.placed[j]);
                assert(t.placed[j].child == t.stack[i].parent);
            }
        } else {
            assert(t.stack[i] == f[i - d.len()]);
            assert(t.placed[len].child == t.stack[i].parent);
        }
    }
    assert forall|i: int| 0 <= i < t.placed.len() implies sound_placement(
        adj,
        n,
        root,
        t.unplaced,
        #[trigger] t.placed[i],
    ) && (t.placed[i].parent == root || placed_before(t.placed, t.placed[i].parent, i)) by {
        if i < len {
            assert(t.placed[i] == s.placed[i]);
            if s.placed[i].parent != root {
                let j = choose|j: int| 0 <= j < i && #[trigger] s.placed[j].child == s.placed[i].parent;
                assert(t.placed[j] == s.placed[j]);
            }
        } else {
            if q.parent != root {
                let j = choose|j: int| 0 <= j < len && #[trigger] s.placed[j].child == q.parent;
                assert(t.placed[j] == s.placed[j]);
            }
        }
    }
}

proof fn lemma_step_distinct(adj: Seq<Seq<usize>>, s: Sweep)
    requires
        s.stack.len() > 0,
        s.stack.last().child < adj.len(),
        rows_distinct(adj),
        children_distinct(s.placed),
        children_distinct(s.stack),
        forall|i: int, j: int|
            0 <= i < s.placed.len() && 0 <= j < s.stack.len() ==> #[trigger] s.placed[i].child
                != #[trigger] s.stack[j].child,
        forall|i: int| 0 <= i < s.placed.len() ==> !s.unplaced.contains(#[trigger] s.placed[i].child),
        forall|i: int| 0 <= i < s.stack.len() ==> !s.unplaced.contains(#[trigger] s.stack[i].child),
    ensures
        ({
            let t = sweep_step(adj, s);
            &&& children_distinct(t.placed)
            &&& children_distinct(t.stack)
            &&& forall|i: int, j: int|
                0 <= i < t.placed.len() && 0 <= j < t.stack.len() ==> #[trigger] t.placed[i].child
                    != #[trigger] t.stack[j].child
        }),
{
    let q = s.stack.last();
    let last = s.stack.len() - 1;
    assert(s.stack[last] == q);
    let p = q.child;
    let ch = claimed(adj, p, s.unplaced);
    let f = fan(p, ch, false).reverse();
    let t = sweep_step(adj, s);
    let len = s.placed.len() as int;
    let d = s.stack.drop_last();
    lemma_fan_facts(adj, p, s.unplaced, false);
    assert(t.placed[len] == q);
    assert(t.stack == d + f);
    {
        assert forall|i: int, j: int| 0 <= i < j < t.placed.len() implies #[trigger] t.placed[i].child
            != #[trigger] t.placed[j].child by {
            assert(t.placed[i] == s.placed[i]);
            if j < len {
                assert(t.placed[j] == s.placed[j]);
            } else {
                assert(s.placed[i].child != s.stack[last].child);
            }
        }
        assert forall|i: int, j: int| 0 <= i < j < t.stack.len() implies #[trigger] t.stack[i].child
            != #[trigger] t.stack[j].child by {
            if j < d.len() {
                assert(t.stack[i] == s.stack[i] && t.stack[j] == s.stack[j]);
            } else if i < d.len() {
                assert(t.stack[i] == s.stack[i]);
                assert(t.stack[j] == f[j - d.len()]);
            } else {
                assert(t.stack[i] == f[i - d.len()]);
                assert(t.stack[j] == f[j - d.len()]);
            }
        }
        assert forall|i: int, j: int| 0 <= i < t.placed.len() && 0 <= j < t.stack.len() implies #[trigger] t.placed[i].child
            != #[trigger] t.stack[j].child by {
            if j < d.len() {
                assert(t.stack[j] == s.stack[j]);
                if i < len {
                    assert(t.placed[i] == s.placed[i]);
                } else {
                    assert(s.stack[j].child != s.stack[last].child);
                }
            } else {
                assert(t.stack[j] == f[j - d.len()]);
                if i < len {
                    assert(t.placed[i] == s.placed[i]);
                } else {
                    assert(t.placed[i] == s.stack[last]);
                }
            }
        }
    }
}


proof fn lemma_step_inv(adj: Seq<Seq<usize>>, n: nat, root: usize, s: Sweep)
    requires
        sweep_inv(adj, n, root, s),
        s.stack.len() > 0,
    ensures
        sweep_inv(adj, n, root, sweep_step(adj, s)),
{
    let t = sweep_step(adj, s);
    lemma_step_sound(adj, n, root, s);
    if rows_distinct(adj) {
        assert forall|i: int| 0 <= i < s.placed.len() implies !s.unplaced.contains(
            #[trigger] s.placed[i].child,
        ) by {
            assert(sound_placement(adj, n, root, s.unplaced, s.placed[i]));
        }
        assert forall|i: int| 0 <= i < s.stack.len() implies !s.unplaced.contains(
            #[trigger] s.stack[i].child,
        ) by {
            assert(sound_placement(adj, n, root, s.unplaced, s.stack[i]));
        }
        assert(s.stack[s.stack.len() - 1].child < n);
        lemma_step_distinct(adj, s);
    }
    assert forall|v: usize| #[trigger] t.unplaced.contains(v) implies v < n by {
        assert(s.unplaced.contains(v));
    }
}

proof fn lemma_sweep_inv(adj: Seq<Seq<usize>>, n: nat, root: usize, s: Sweep)
    requires
        sweep_inv(adj, n, root, s),
    ensures
        sweep_inv(adj, n, root, sweep(adj, s)),
        sweep(adj, s).stack.len() == 0,
    decreases s.unplaced.len(), s.stack.len(),
{
    if s.stack.len() > 0 {
        lemma_step_decreases(adj, s);
        lemma_step_inv(adj, n, root, s);
        lemma_sweep_inv(adj, n, root, sweep_step(adj, s));
    }
}

proof fn lemma_plan_inv(edges: Seq<Edge>, n: nat, root: usize, placed: Seq<Placement>)
    requires
        is_plan_of(edges, n, root, placed),
    ensures
        ({
            let adj = adjacency_of(edges, n);
            sweep_inv(adj, n, root, sweep(adj, start(adj, n, root)))
        }),
{
    let adj = adjacency_of(edges, n);
    lemma_start_inv(adj, n, root);
    lemma_sweep_inv(adj, n, root, start(adj, n, root));
}

/// Some edge of the list goes from `a` to `b`.
pub open spec fn has_edge(edges: Seq<Edge>, a: usize, b: usize) -> bool {
    exists|k: int| 0 <= k < edges.len() && #[trigger] edges[k].src == a && edges[k].trg == b
}

/// `path` starts at `from`, ends at `to`, and each step follows an edge.
pub open spec fn is_path(edges: Seq<Edge>, path: Seq<usize>, from: usize, to: usize) -> bool {
    &&& path.len() >= 1
    &&& path[0] == from
    &&& path.last() == to
    &&& forall|i: int| 0 <= i < path.len() - 1 ==> has_edge(edges, #[trigger] path[i], path[i + 1])
}

/// `to` can be reached from `from` by following edges forwards.
pub open spec fn reachable(edges: Seq<Edge>, from: usize, to: usize) -> bool {
    exists|path: Seq<usize>| is_path(edges, path, from, to)
}

/// No edge appears twice in the list.
pub open spec fn no_repeated_edges(edges: Seq<Edge>) -> bool {
    forall|i: int, j: int| 0 <= i < j < edges.len() ==> #[trigger] edges[i] != #[trigger] edges[j]
}

proof fn lemma_row_edge(edges: Seq<Edge>, n: nat, p: usize, c: usize)
    requires
        p < n,
        adjacency_of(edges, n)[p as int].contains(c),
    ensures
        has_edge(edges, p, c),
{
    let pred = |e: Edge| e.src == p;
    let f = edges.filter(pred);
    let g = f.map_values(|e: Edge| e.trg);
    assert(g.contains(c));
    let j = choose|j: int| 0 <= j < g.len() && #[trigger] g[j] == c;
    let e = f[j];
    assert(f.contains(e));
    edges.lemma_filter_contains_rev(pred, e);
    let k = choose|k: int| 0 <= k < edges.len() && edges[k] == e;
    assert(edges[k].src == p && edges[k].trg == c);
}

proof fn lemma_rows_distinct(edges: Seq<Edge>, n: nat)
    requires
        no_repeated_edges(edges),
    ensures
        rows_distinct(adjacency_of(edges, n)),
{
    let adj = adjacency_of(edges, n);
    assert forall|v: int| 0 <= v < adj.len() implies (#[trigger] adj[v]).no_duplicates() by {
        let pred = |e: Edge| e.src == v as usize;
        lemma_edges_distinct(edges);
        lemma_filter_distinct(edges, pred);
        let f = edges.filter(pred);
        let g = f.map_values(|e: Edge| e.trg);
        assert(adj[v] == g);
        assert forall|i: int, j: int|
            0 <= i < g.len() && 0 <= j < g.len() && i != j implies #[trigger] g[i] != #[trigger] g[j] by {
            assert(f[i].src == v as usize && f[j].src == v as usize);
            assert(f[i] != f[j]);
        }
    }
}

proof fn lemma_edges_distinct(edges: Seq<Edge>)
    requires
        no_repeated_edges(edges),
    ensures
        edges.no_duplicates(),
{
    assert forall|i: int, j: int|
        0 <= i < edges.len() && 0 <= j < edges.len() && i != j implies edges[i] != edges[j] by {
        if i < j {
            assert(edges[i] != edges[j]);
        } else {
            assert(edges[j] != edges[i]);
        }
    }
}

/// The root is never placed: its position stays at the origin.
pub proof fn lemma_root_never_placed(edges: Seq<Edge>, n: nat, root: usize, placed: Seq<Placement>)
    requires
        is_plan_of(edges, n, root, placed),
    ensures
        forall|i: int| 0 <= i < placed.len() ==> #[trigger] placed[i].child != root,
{
    lemma_plan_inv(edges, n, root, placed);
}

/// When every vertex has as many out-edges as every other, vertex 0 is the
/// root.
pub proof fn lemma_equal_degrees_root_zero(edges: Seq<Edge>, n: nat, root: usize)
    requires
        is_first_longest(adjacency_of(edges, n), root as int),
        forall|v: usize, w: usize|
            v < n && w < n ==> #[trigger] out_neighbors(edges, v).len() == #[trigger] out_neighbors(
                edges,
                w,
            ).len(),
    ensures
        root == 0,
{
    let adj = adjacency_of(edges, n);
    if root > 0 {
        assert(adj[0].len() < adj[root as int].len());
        assert(out_neighbors(edges, 0).len() == out_neighbors(edges, root).len());
    }
}

/// Each placement hangs from an edge of the graph, at the root or at a
/// vertex placed before it; so every child is drawn from a parent whose
/// position is already known.
pub proof fn lemma_placements_follow_edges(
    edges: Seq<Edge>,
    n: nat,
    root: usize,
    placed: Seq<Placement>,
)
    requires
        is_plan_of(edges, n, root, placed),
    ensures
        forall|i: int|
            0 <= i < placed.len() ==> has_edge(edges, (#[trigger] placed[i]).parent, placed[i].child),
        forall|i: int|
            0 <= i < placed.len() ==> (#[trigger] placed[i]).parent == root || placed_before(
                placed,
                placed[i].parent,
                i,
            ),
{
    lemma_plan_inv(edges, n, root, placed);
    assert forall|i: int| 0 <= i < placed.len() implies has_edge(
        edges,
        (#[trigger] placed[i]).parent,
        placed[i].child,
    ) by {
        lemma_row_edge(edges, n, placed[i].parent, placed[i].child);
    }
}

/// Only the root's children share the full circle; every other vertex's
/// children share a half circle.
pub proof fn lemma_full_circle_only_at_root(
    edges: Seq<Edge>,
    n: nat,
    root: usize,
    placed: Seq<Placement>,
)
    requires
        is_plan_of(edges, n, root, placed),
    ensures
        forall|i: int|
            0 <= i < placed.len() ==> (#[trigger] placed[i]).full_circle == (placed[i].parent
                == root),
{
    let adj = adjacency_of(edges, n);
    lemma_plan_inv(edges, n, root, placed);
    let s = sweep(adj, start(adj, n, root));
    assert forall|i: int| 0 <= i < placed.len() implies (#[trigger] placed[i]).full_circle == (
    placed[i].parent == root) by {
        assert(sound_placement(adj, n, root, s.unplaced, s.placed[i]));
    }
}

proof fn lemma_placed_reachable(
    edges: Seq<Edge>,
    n: nat,
    root: usize,
    placed: Seq<Placement>,
    i: int,
)
    requires
        is_plan_of(edges, n, root, placed),
        0 <= i < placed.len(),
    ensures
        reachable(edges, root, placed[i].child),
    decreases i,
{
    lemma_placements_follow_edges(edges, n, root, placed);
    let q = placed[i];
    assert(has_edge(edges, q.parent, q.child));
    if q.parent == root {
        let path = seq![root, q.child];
        assert(path[0] == root);
        assert(is_path(edges, path, root, q.child));
    } else {
        let j = choose|j: int| 0 <= j < i && #[trigger] placed[j].child == q.parent;
        lemma_placed_reachable(edges, n, root, placed, j);
        let path = choose|path: Seq<usize>| is_path(edges, path, root, q.parent);
        let longer = path.push(q.child);
        assert forall|k: int| 0 <= k < longer.len() - 1 implies has_edge(
            edges,
            #[trigger] longer[k],
            longer[k + 1],
        ) by {
            if k < path.len() - 1 {
                assert(longer[k] == path[k] && longer[k + 1] == path[k + 1]);
            }
        }
        assert(is_path(edges, longer, root, q.child));
    }
}

/// A vertex that cannot be reached from the root along the edges is never
/// placed: its position stays at the origin.
pub proof fn lemma_unreached_never_placed(
    edges: Seq<Edge>,
    n: nat,
    root: usize,
    placed: Seq<Placement>,
    v: usize,
)
    requires
        is_plan_of(edges, n, root, placed),
        !reachable(edges, root, v),
    ensures
        forall|i: int| 0 <= i < placed.len() ==> #[trigger] placed[i].child != v,
{
    assert forall|i: int| 0 <= i < placed.len() implies #[trigger] placed[i].child != v by {
        lemma_placed_reachable(edges, n, root, placed, i);
    }
}

/// The plan is a function of the graph: two plans of one graph agree.
pub proof fn lemma_plan_is_unique(
    edges: Seq<Edge>,
    n: nat,
    root1: usize,
    placed1: Seq<Placement>,
    root2: usize,
    placed2: Seq<Placement>,
)
    requires
        is_plan_of(edges, n, root1, placed1),
        is_plan_of(edges, n, root2, placed2),
    ensures
        root1 == root2,
        placed1 == placed2,
{
    let adj = adjacency_of(edges, n);
    if root1 < root2 {
        assert(adj[root1 as int].len() < adj[root2 as int].len());
    } else if root2 < root1 {
        assert(adj[root2 as int].len() < adj[root1 as int].len());
    }
}

/// Where no edge is listed twice, no vertex is placed twice, cycles
/// included.
pub proof fn lemma_each_vertex_placed_once(
    edges: Seq<Edge>,
    n: nat,
    root: usize,
    placed: Seq<Placement>,
)
    requires
        is_plan_of(edges, n, root, placed),
        no_repeated_edges(edges),
    ensures
        children_distinct(placed),
{
    lemma_plan_inv(edges, n, root, placed);
    lemma_rows_distinct(edges, n);
}

/// Everything the root or a placed vertex points to has been claimed, and
/// every claimed vertex is placed or waiting on the stack.
pub open spec fn closed_inv(adj: Seq<Seq<usize>>, n: nat, root: usize, s: Sweep) -> bool {
    &&& forall|c: usize| #[trigger] adj[root as int].contains(c) ==> !s.unplaced.contains(c)
    &&& forall|i: int, c: usize|
        0 <= i < s.placed.len() && #[trigger] adj[s.placed[i].child as int].contains(c)
            ==> !s.unplaced.contains(c)
    &&& forall|v: usize|
        v < n && v != root && !#[trigger] s.unplaced.contains(v) ==> placed_before(
            s.placed,
            v,
            s.placed.len() as int,
        ) || exists|j: int| 0 <= j < s.stack.len() && #[trigger] s.stack[j].child == v
}

proof fn lemma_claimed_contains(adj: Seq<Seq<usize>>, p: usize, unplaced: Set<usize>, c: usize)
    requires
        adj[p as int].contains(c),
        unplaced.contains(c),
    ensures
        claimed(adj, p, unplaced).contains(c),
{
    let k = choose|k: int| 0 <= k < adj[p as int].len() && adj[p as int][k] == c;
    adj[p as int].lemma_filter_contains(|x: usize| unplaced.contains(x), k);
}

proof fn lemma_start_closed(adj: Seq<Seq<usize>>, n: nat, root: usize)
    requires
        root < n,
        adj.len() == n,
    ensures
        closed_inv(adj, n, root, start(adj, n, root)),
{
    let s = start(adj, n, root);
    let u = all_but(n, root);
    let ch = claimed(adj, root, u);
    let f = fan(root, ch, true).reverse();
    let m = ch.len() as int;
    assert forall|c: usize| #[trigger] adj[root as int].contains(c) implies !s.unplaced.contains(c) by {
        if u.contains(c) {
            lemma_claimed_contains(adj, root, u, c);
        }
    }
    assert forall|v: usize| v < n && v != root && !#[trigger] s.unplaced.contains(v) implies exists|j: int|
        0 <= j < s.stack.len() && #[trigger] s.stack[j].child == v by {
        assert(u.contains(v));
        assert(ch.contains(v));
        let k = choose|k: int| 0 <= k < m && ch[k] == v;
        assert(s.stack == f);
        assert(f[m - 1 - k].child == v);
        assert(s.stack[m - 1 - k].child == v);
    }
}

proof fn lemma_step_closed(adj: Seq<Seq<usize>>, n: nat, root: usize, s: Sweep)
    requires
        closed_inv(adj, n, root, s),
        s.stack.len() > 0,
    ensures
        closed_inv(adj, n, root, sweep_step(adj, s)),
{
    let q = s.stack.last();
    let last = s.stack.len() - 1;
    let p = q.child;
    let ch = claimed(adj, p, s.unplaced);
    let m = ch.len() as int;
    let f = fan(p, ch, false).reverse();
    let t = sweep_step(adj, s);
    let len = s.placed.len() as int;
    let d = s.stack.drop_last();
    assert(t.placed[len] == q);
    assert(t.stack == d + f);
    assert forall|i: int, c: usize|
        0 <= i < t.placed.len() && #[trigger] adj[t.placed[i].child as int].contains(c)
            implies !t.unplaced.contains(c) by {
        if i < len {
            assert(t.placed[i] == s.placed[i]);
        } else if s.unplaced.contains(c) {
            lemma_claimed_contains(adj, p, s.unplaced, c);
        }
    }
    assert forall|v: usize| v < n && v != root && !#[trigger] t.unplaced.contains(v) implies placed_before(
        t.placed,
        v,
        t.placed.len() as int,
    ) || exists|j: int| 0 <= j < t.stack.len() && #[trigger] t.stack[j].child == v by {
        if s.unplaced.contains(v) {
            assert(ch.contains(v));
            let k = choose|k: int| 0 <= k < m && ch[k] == v;
            assert(t.stack[d.len() + m - 1 - k] == f[m - 1 - k]);
            assert(t.stack[d.len() + m - 1 - k].child == v);
        } else if placed_before(s.placed, v, len) {
            let j = choose|j: int| 0 <= j < len && #[trigger] s.placed[j].child == v;
            assert(t.placed[j] == s.placed[j]);
        } else {
            let j = choose|j: int| 0 <= j < s.stack.len() && #[trigger] s.stack[j].child == v;
            if j == last {
                assert(t.placed[len].child == v);
            } else {
                assert(t.stack[j] == s.stack[j]);
            }
        }
    }
}

proof fn lemma_sweep_closed(adj: Seq<Seq<usize>>, n: nat, root: usize, s: Sweep)
    requires
        closed_inv(adj, n, root, s),
    ensures
        closed_inv(adj, n, root, sweep(adj, s)),
    decreases s.unplaced.len(), s.stack.len(),
{
    if s.stack.len() > 0 {
        lemma_step_decreases(adj, s);
        lemma_step_closed(adj, n, root, s);
        lemma_sweep_closed(adj, n, root, sweep_step(adj, s));
    }
}

proof fn lemma_edge_in_row(edges: Seq<Edge>, n: nat, k: int)
    requires
        edges_within(edges, n),
        0 <= k < edges.len(),
    ensures
        adjacency_of(edges, n)[edges[k].src as int].contains(edges[k].trg),
{
    let e = edges[k];
    let pred = |x: Edge| x.src == e.src;
    edges.lemma_filter_contains(pred, k);
    let f = edges.filter(pred);
    let j = choose|j: int| 0 <= j < f.len() && f[j] == e;
    let g = f.map_values(|x: Edge| x.trg);
    assert(g[j] == e.trg);
    assert(adjacency_of(edges, n)[e.src as int] == g);
}

/// Every vertex other than the root that can be reached from the root along
/// the edges is placed.
pub proof fn lemma_reached_vertices_placed(
    edges: Seq<Edge>,
    n: nat,
    root: usize,
    placed: Seq<Placement>,
    v: usize,
)
    requires
        edges_within(edges, n),
        is_plan_of(edges, n, root, placed),
        reachable(edges, root, v),
        v != root,
    ensures
        exists|i: int| 0 <= i < placed.len() && #[trigger] placed[i].child == v,
{
    let adj = adjacency_of(edges, n);
    let s = sweep(adj, start(adj, n, root));
    lemma_start_inv(adj, n, root);
    lemma_sweep_inv(adj, n, root, start(adj, n, root));
    lemma_start_closed(adj, n, root);
    lemma_sweep_closed(adj, n, root, start(adj, n, root));
    let path = choose|path: Seq<usize>| is_path(edges, path, root, v);
    lemma_path_placed(edges, n, root, s, path, v, path.len() - 1);
    let i = choose|i: int| 0 <= i < s.placed.len() && #[trigger] s.placed[i].child == v;
    assert(placed[i].child == v);
}

proof fn lemma_path_placed(
    edges: Seq<Edge>,
    n: nat,
    root: usize,
    s: Sweep,
    path: Seq<usize>,
    v: usize,
    k: int,
)
    requires
        edges_within(edges, n),
        is_path(edges, path, root, v),
        0 <= k < path.len(),
        s.stack.len() == 0,
        closed_inv(adjacency_of(edges, n), n, root, s),
    ensures
        path[k] == root || placed_before(s.placed, path[k], s.placed.len() as int),
    decreases k,
{
    let adj = adjacency_of(edges, n);
    if k > 0 {
        lemma_path_placed(edges, n, root, s, path, v, k - 1);
        let a = path[k - 1];
        let b = path[k];
        assert(has_edge(edges, a, b));
        let e = choose|e: int| 0 <= e < edges.len() && #[trigger] edges[e].src == a && edges[e].trg == b;
        lemma_edge_in_row(edges, n, e);
        assert(adj[a as int].contains(b));
        if a != root {
            let i = choose|i: int| 0 <= i < s.placed.len() && #[trigger] s.placed[i].child == a;
            assert(adj[s.placed[i].child as int].contains(b));
        }
        assert(!s.unplaced.contains(b));
        assert(b < n);
    }
}
} // verus!
