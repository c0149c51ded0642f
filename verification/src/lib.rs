//! All-pairs shortest paths on directed, possibly negatively weighted graphs.
//!
//! The core is Johnson's algorithm: Bellman-Ford from a virtual source yields
//! a potential function (or detects a negative cycle), every edge is
//! reweighted to a non-negative length, and one Dijkstra run per vertex over
//! the reweighted graph recovers the true distance matrix.
//!
//! A few self-contained routines (sorting, selection, inversion counting, a
//! knapsack table and a unimodal maximum search) accompany the core.

pub mod graph_representations;
pub mod updatable_heap;
pub mod paths;
pub mod bellman_ford;
pub mod dijkstra;
pub mod jonsons;
pub mod shortest_path;
pub mod knapsack;
pub mod quicksort;
pub mod sorted_n;
pub mod inversions_count;
pub mod unimodal_max;
