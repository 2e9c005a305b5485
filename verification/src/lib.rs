//! Best-first search over sliding-tile boards, for one worker or for several
//! that own parts of the frontier and pass states to each other.

pub mod answers;
pub mod baseline;
pub mod coordinator;
pub mod corpus;
pub mod equality;
pub mod grid;
pub mod hash;
pub mod heuristic;
pub mod incumbent;
pub mod log;
pub mod node;
pub mod optimality;
pub mod queue;
pub mod random;
pub mod router;
pub mod scramble;
pub mod solo;
pub mod statemap;
pub mod worker;

pub use crate::baseline::{astar, Halt, Report};
pub use crate::coordinator::{search, Team, Turn};
pub use crate::grid::Grid;
pub use crate::hash::{AZHasher, StateHash, ZHasher};
pub use crate::heuristic::man_dist;
pub use crate::incumbent::{Incumbent, TerminationFlag, NO_SOLUTION};
pub use crate::log::Log;
pub use crate::node::{expand, try_expand, Node};
pub use crate::queue::NodeQueue;
pub use crate::router::Router;
pub use crate::statemap::StateMap;
pub use crate::worker::{Outcome, Phase, Worker};
