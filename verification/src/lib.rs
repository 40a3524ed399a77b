//! Verified core of a block-game server: biome lookup in climate space and
//! the rules for moving item stacks between inventory slots.
//!
//! A registry lists hypercubes of climate space, each with a label. The
//! label of a sampled point is that of the nearest hypercube, and of those
//! as near the first in the registry. `search::SearchTree` answers this
//! through a tree over the hypercubes and a cache of the last answer, and is
//! proved to answer as a linear scan over the registry would.
//!
//! - `climate`: parameter ranges, hypercubes, points and their distance.
//! - `shape`: the mathematical model of a tree and its invariants.
//! - `sorting`: the sort keys and what a stable sort by them gives.
//! - `batches`: cutting a sorted group into provisional branches.
//! - `partition`: the tree of a group of nodes, and what holds of it.
//! - `tree`: the nodes of a tree and the code that builds one.
//! - `search`: the descent, the cache and the equivalence to the scan.
//! - `inventory`: clicks on the slots of a container.

pub mod batches;
pub mod climate;
pub mod inventory;
pub mod partition;
pub mod search;
pub mod shape;
pub mod sorting;
pub mod tree;
