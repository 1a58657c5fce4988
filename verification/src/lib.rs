//! A microscopic road-traffic simulator.
//!
//! The simulator moves single vehicles through a network of one-way links,
//! tick by tick. In each tick the vehicles choose their lanes, follow the
//! vehicles ahead of them, give way at stop lines, keep to the speed limits
//! and move on; those that reach the end of their route leave the network.
//!
//! All quantities are fixed-point numbers (see [`fixed`]), so that a run is
//! the same on every machine and every statement about it can be proved.
//!
//! - [`fixed`]: saturating fixed-point arithmetic.
//! - [`util`]: the id pool, the insertion sort and the piecewise functions.
//! - [`simulation`]: links, vehicles, stop lines, routes and the tick.
//! - [`command`]: the commands that build and run a simulation.
//! - [`wire`]: the text and byte formats at the simulation's edge.
pub mod command;
pub mod fixed;
pub mod simulation;
pub mod util;
pub mod wire;
