//! Radial tree layout planning.
//!
//! A graph is given as a vertex count and a list of directed edges. The
//! library picks a root (the vertex with the most out-edges), derives a tree
//! from the edge list by a depth-first sweep that claims each vertex at most
//! once, and lists for every claimed vertex where on its parent's arc it
//! goes. Turning that plan into coordinates is trigonometry on floats, which
//! is left to callers; the arctangent formula for an offset vector is chosen
//! by [`angle::angle_formula`].

pub mod angle;
pub mod graph;
pub mod guarantees;
pub mod layout;

pub use angle::{AngleFormula, Sign, angle_formula};
pub use graph::{Edge, Graph, adjacency, select_root};
pub use layout::{Placement, TreePlan, layout_plan};
