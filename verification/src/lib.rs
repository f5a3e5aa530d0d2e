//! Fox in the Forest **Lite**: verified rules, canonical encoding, hidden-world
//! sampling and the integer parts of the search and self-play machinery.

pub mod chance;
pub mod cohort;
pub mod cross_search;
pub mod determinize;
pub mod encode;
pub mod encode_laws;
pub mod frames;
pub mod match_play;
pub mod mcts;
pub mod onehot;
pub mod pipeline;
pub mod round_laws;
pub mod shuffle_laws;
pub mod rules;
pub mod world_laws;
