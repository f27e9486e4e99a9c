//! Analysis of a street network: groups of mutually reachable crossings,
//! strong crossings, round-trip costs, and the resulting ranking.
pub mod reach;
pub mod search;
pub mod graph;
pub mod groups;
pub mod classify;
pub mod cost;
pub mod select;
pub mod analysis;
pub mod parse;

pub use analysis::ranking_of;
pub use graph::{GraphError, Network};
pub use parse::InputError;
pub use search::NodeID;
pub use select::{AnalysisError, Output};
