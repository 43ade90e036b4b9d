//! Monte Carlo tree search for perfect-information games, information-set
//! search for games with hidden information, and a self-play driver that
//! records the states and moves it meets in a graph.
//!
//! Every function here is verified against its contract. Calls into `rand`,
//! `rand_pcg` and `petgraph` go through the small wrappers in `random` and
//! `topology`, whose contracts are taken on trust, not proved.
//!
//! The library counts in whole numbers: visits and wins. The two places where
//! a search weighs counts against each other with roots, logarithms and
//! quotients are left to the caller, who hands the search a function for
//! them: `score` for the selection in tree search (UCB1, as a rule), `rank`
//! for the ranking of moves in information-set search. Such a function
//! returns an integer that is greater for the better candidate; the search
//! takes the greatest, and the first among equals.
//!
//! A game is searched through the [`Mcts`] trait. Its random source is the
//! `pcg64` generator of `rand_pcg`.

pub mod game;
pub mod graph;
pub mod ismcts;
pub mod outcome;
pub mod random;
pub mod rollout;
pub mod tally;
pub mod topology;
pub mod tree;

pub use game::Determinable;
pub use game::Initializer;
pub use game::Mcts;
pub use graph::GraphEdge;
pub use graph::GraphNode;
pub use graph::SelfPlayGraph;
pub use graph::generate_graph;
pub use ismcts::ISMCTSParams;
pub use ismcts::ISMCTSPlayerParams;
pub use ismcts::ismcts_mt;
pub use outcome::Outcome;
pub use rollout::random_rollout;
pub use tree::VecTree;
pub use tree::VecTreeNode;
pub use tree::mcts;
