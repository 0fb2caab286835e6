//! What holds of the library as a whole.
pub mod accepted;
pub mod audit;
pub mod cells;
pub mod commuting;
pub mod convergence;
pub mod derived;
pub mod driving;
pub mod effects;
pub mod exports;
pub mod gossip;
pub mod group;
pub mod history;
pub mod listings;
pub mod migration;
pub mod misfits;
pub mod repetition;
pub mod replica;
pub mod row_effects;
pub mod rows;
pub mod running;
pub mod schema;
pub mod state;
pub mod stores;
pub mod sync;
pub mod texts;
pub mod tracking;
pub mod upkeep;
pub mod values;
