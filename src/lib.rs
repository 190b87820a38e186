//! Coordination core of a multi-agent pickup-and-delivery platform on a 2D grid:
//! the grid graph, static and time-expanded A*, the TSWAP one-step planner,
//! task generation, the decisions of the coordination protocol (central
//! manager, self-planning agents, goal swaps and rotations), and the metrics
//! ledgers.

pub mod grid;
pub mod text;
pub mod graph;
pub mod a_star;
pub mod tswap;
pub mod tasks;
pub mod metrics;
pub mod neighbors;
pub mod manager;
pub mod protocol;
pub mod run_config;
