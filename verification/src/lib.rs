//! Minesweeper on the surface of a geodesic polyhedron.
//!
//! The crate holds the rules of the game as verified code: the session and
//! its difficulty model, the board of cells over an irregular adjacency
//! graph, deferred mine placement, the reveal and chord engine, and the
//! generator of the polyhedron's cell graph.

pub mod board;
pub mod edge_count;
pub mod mines;
pub mod engine;
pub mod goldberg;
pub mod icosahedron;
pub mod input;
pub mod laws;
pub mod level;
pub mod session;
pub mod surface;
pub mod topology;
