//! Navigation-mesh pathfinding: mesh welding, triangle adjacency, connected
//! groups, search bookkeeping and a zone registry.
pub mod zone;
pub mod weld;
pub mod adjacency;
pub mod grouping;
pub mod split;
pub mod builder;
pub mod group;
pub mod registry;
pub mod search;
pub mod output;
