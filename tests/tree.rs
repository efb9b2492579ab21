use radial_tree::{
    AngleFormula, Edge, Graph, Placement, Sign, TreePlan, adjacency, angle_formula, layout_plan,
    select_root,
};
use std::f64::consts::PI;

fn sign_of(v: f64) -> Sign {
    if v > 0.0 {
        Sign::Positive
    } else if v < 0.0 {
        Sign::Negative
    } else {
        Sign::Zero
    }
}

fn to_angle(x: f64, y: f64) -> f64 {
    match angle_formula(sign_of(x), sign_of(y)) {
        AngleFormula::AtanXOverY => (x / y).atan(),
        AngleFormula::TwoPiPlusAtanXOverY => 2.0 * PI + (x / y).atan(),
        AngleFormula::PiPlusAtanYOverX => PI + (y / x).atan(),
        AngleFormula::Zero => 0.0,
        AngleFormula::HalfPi => PI / 2.0,
        AngleFormula::Pi => PI,
        AngleFormula::ThreeHalvesPi => 3.0 * PI / 2.0,
    }
}

fn positions(plan: &TreePlan, n: usize, radius: f64) -> Vec<f64> {
    let mut loc = vec![0.0f64; n * 2];
    for p in plan.placements.iter() {
        let (px, py) = (loc[p.parent * 2], loc[p.parent * 2 + 1]);
        let step = if p.full_circle {
            2.0 * PI / (p.siblings as f64)
        } else {
            PI / ((p.siblings + 1) as f64)
        };
        let a = to_angle(px, py) - PI / 2.0 + (p.rank as f64) * step;
        loc[p.child * 2] = px + radius * a.cos();
        loc[p.child * 2 + 1] = py + radius * a.sin();
    }
    loc
}

fn build_tree(graph: &Graph, radius: f64) -> Vec<f64> {
    positions(&layout_plan(graph), graph.n, radius)
}

fn graph_of(n: usize, edges: &[(usize, usize)]) -> Graph {
    let mut g = Graph::new();
    for _ in 0..n {
        g.add_vertex();
    }
    for &(s, t) in edges {
        g.edges.push(Edge::new(s, t));
    }
    g
}

fn pl(parent: usize, child: usize, rank: usize, siblings: usize, full_circle: bool) -> Placement {
    Placement { parent, child, rank, siblings, full_circle }
}

#[test]
fn test_angle() {
    assert!((to_angle(1.0, 0.0) - 0.0) < 1e-4);
    assert!((to_angle(0.0, 1.0) - PI / 2.0) < 1e-4);
    assert!((to_angle(-1.0, 0.0) - PI) < 1e-4);
    assert!((to_angle(0.0, -1.0) - 3.0 * PI / 2.0) < 1e-4);
    assert!((to_angle(1.0, 1.0) - PI / 4.0) < 1e-4);
    assert!((to_angle(-1.0, 1.0) - 3.0 * PI / 4.0) < 1e-4);
    assert!((to_angle(-1.0, -1.0) - 5.0 * PI / 4.0) < 1e-4);
    assert!((to_angle(1.0, -1.0) - 7.0 * PI / 4.0) < 1e-4);
}

#[test]
fn test_tree() {
    let mut g = Graph::new();
    let v1 = g.add_vertex();
    let v2 = g.add_vertex();
    let v3 = g.add_vertex();
    let v4 = g.add_vertex();
    let v5 = g.add_vertex();
    g.edges.push(Edge::new(v1, v2));
    g.edges.push(Edge::new(v1, v3));
    g.edges.push(Edge::new(v1, v4));
    g.edges.push(Edge::new(v4, v5));

    let result = build_tree(&g, 10.0);

    let exp = [
        0.0,
        0.0,
        10.0 * (PI / 6.0).cos(),
        10.0 * (PI / 6.0).sin(),
        -10.0 * (PI / 6.0).cos(),
        10.0 * (PI / 6.0).sin(),
        0.0,
        -10.0,
        0.0,
        -20.0,
    ];

    for i in 0..exp.len() {
        println!("{}: {:.3} == {:.3}", i, exp[i], result[i]);
        assert!((exp[i] - result[i]).abs() < 1e-4);
    }
}

#[test]
fn angle_formula_follows_the_sign_table() {
    let (p, n, z) = (Sign::Positive, Sign::Negative, Sign::Zero);
    assert_eq!(angle_formula(p, p), AngleFormula::AtanXOverY);
    assert_eq!(angle_formula(p, n), AngleFormula::TwoPiPlusAtanXOverY);
    assert_eq!(angle_formula(p, z), AngleFormula::Zero);
    assert_eq!(angle_formula(n, p), AngleFormula::PiPlusAtanYOverX);
    assert_eq!(angle_formula(n, n), AngleFormula::PiPlusAtanYOverX);
    assert_eq!(angle_formula(n, z), AngleFormula::Pi);
    assert_eq!(angle_formula(z, p), AngleFormula::HalfPi);
    assert_eq!(angle_formula(z, n), AngleFormula::ThreeHalvesPi);
    assert_eq!(angle_formula(z, z), AngleFormula::Zero);
}

#[test]
fn angle_keeps_the_quotient_of_each_branch() {
    // x > 0, y > 0 divides x by y: (3, 1) gives atan(3), not atan(1/3).
    assert!((to_angle(3.0, 1.0) - 3.0f64.atan()).abs() < 1e-12);
    assert!((to_angle(3.0, -1.0) - (2.0 * PI + (-3.0f64).atan())).abs() < 1e-12);
    assert!((to_angle(-3.0, 1.0) - (PI + (-1.0f64 / 3.0).atan())).abs() < 1e-12);
}

#[test]
fn graph_building() {
    let mut g = Graph::new();
    assert_eq!(g.n, 0);
    assert_eq!(g.add_vertex(), 0);
    assert_eq!(g.add_vertex(), 1);
    assert_eq!(g.n, 2);
    let e = Edge::new(1, 0);
    assert_eq!((e.src, e.trg), (1, 0));
}

#[test]
fn adjacency_keeps_order_and_repeats() {
    let g = graph_of(4, &[(2, 1), (0, 3), (2, 0), (2, 1), (3, 3)]);
    let adj = adjacency(&g);
    assert_eq!(adj, vec![vec![3], vec![], vec![1, 0, 1], vec![3]]);
}

#[test]
fn root_is_first_vertex_of_highest_out_degree() {
    let g = graph_of(4, &[(1, 0), (2, 0), (2, 1), (3, 0), (3, 1)]);
    assert_eq!(select_root(&adjacency(&g)), 2);
    assert_eq!(layout_plan(&g).root, 2);
}

#[test]
fn equal_out_degrees_pick_vertex_zero() {
    let g = graph_of(3, &[(2, 0), (1, 2), (0, 1)]);
    assert_eq!(layout_plan(&g).root, 0);
    let g = graph_of(3, &[]);
    assert_eq!(layout_plan(&g).root, 0);
}

#[test]
fn scenario_plan() {
    let g = graph_of(5, &[(0, 1), (0, 2), (0, 3), (3, 4)]);
    let plan = layout_plan(&g);
    assert_eq!(plan.root, 0);
    assert_eq!(
        plan.placements,
        vec![pl(0, 1, 1, 3, true), pl(0, 2, 2, 3, true), pl(0, 3, 3, 3, true), pl(3, 4, 1, 1, false)]
    );
}

#[test]
fn root_stays_at_origin() {
    let g = graph_of(4, &[(1, 0), (1, 2), (0, 1), (2, 1), (3, 1)]);
    let plan = layout_plan(&g);
    assert_eq!(plan.root, 1);
    assert!(plan.placements.iter().all(|p| p.child != 1));
    let loc = build_tree(&g, 5.0);
    assert_eq!((loc[2], loc[3]), (0.0, 0.0));
}

#[test]
fn tree_edges_are_drawn_at_the_radius() {
    let g = graph_of(8, &[(0, 1), (0, 2), (1, 3), (1, 4), (1, 5), (2, 6), (6, 7), (0, 7)]);
    let plan = layout_plan(&g);
    let loc = build_tree(&g, 3.5);
    assert_eq!(plan.placements.len(), 7);
    for p in plan.placements.iter() {
        let dx = loc[p.child * 2] - loc[p.parent * 2];
        let dy = loc[p.child * 2 + 1] - loc[p.parent * 2 + 1];
        assert!(((dx * dx + dy * dy).sqrt() - 3.5).abs() < 1e-9 * 3.5);
    }
}

#[test]
fn unreachable_vertices_stay_at_origin() {
    let g = graph_of(5, &[(0, 1), (0, 2), (3, 4), (4, 0)]);
    let plan = layout_plan(&g);
    assert_eq!(plan.root, 0);
    assert!(plan.placements.iter().all(|p| p.child != 3 && p.child != 4));
    let loc = build_tree(&g, 10.0);
    assert_eq!(&loc[6..10], &[0.0, 0.0, 0.0, 0.0]);
}

#[test]
fn cycles_terminate_and_place_each_vertex_once() {
    let g = graph_of(4, &[(0, 1), (1, 2), (2, 0), (1, 0), (2, 3), (3, 1), (0, 2)]);
    let plan = layout_plan(&g);
    assert_eq!(plan.root, 0);
    let mut seen = vec![0; 4];
    for p in plan.placements.iter() {
        seen[p.child] += 1;
    }
    assert_eq!(seen, vec![0, 1, 1, 1]);
    assert_eq!(plan.placements, vec![pl(0, 1, 1, 2, true), pl(0, 2, 2, 2, true), pl(2, 3, 1, 1, false)]);
}

#[test]
fn repeated_edge_places_child_twice_in_recursive_order() {
    let g = graph_of(3, &[(0, 1), (0, 1), (1, 2)]);
    let plan = layout_plan(&g);
    assert_eq!(
        plan.placements,
        vec![pl(0, 1, 1, 2, true), pl(1, 2, 1, 1, false), pl(0, 1, 2, 2, true)]
    );
}

#[test]
fn layout_is_repeatable() {
    let g = graph_of(6, &[(0, 1), (1, 2), (2, 0), (1, 3), (3, 4), (4, 5), (5, 1)]);
    let a = layout_plan(&g);
    let b = layout_plan(&g);
    assert_eq!(a.root, b.root);
    assert_eq!(a.placements, b.placements);
    let x = build_tree(&g, 2.0);
    let y = build_tree(&g, 2.0);
    assert_eq!(x.iter().map(|v| v.to_bits()).collect::<Vec<_>>(), y.iter().map(|v| v.to_bits()).collect::<Vec<_>>());
}

#[test]
fn single_vertex_has_nothing_to_place() {
    let g = graph_of(1, &[(0, 0)]);
    let plan = layout_plan(&g);
    assert_eq!(plan.root, 0);
    assert!(plan.placements.is_empty());
}
