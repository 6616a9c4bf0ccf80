//! Stochastic-simulation primitives: a Gilbert–Shannon–Reeds riffle-shuffle
//! permutation generator and a generic Monte Carlo trial harness, together
//! with a reference game ("Orchard", a cooperative dice race against a
//! countdown) that the harness can drive.

pub mod monte_carlo;
pub mod orchard;
pub mod riffle_shuffle;

pub use monte_carlo::AggregateStatistics;
pub use monte_carlo::ConfigError;
pub use monte_carlo::Game;
pub use monte_carlo::GameResult;
pub use monte_carlo::monte_carlo;
pub use monte_carlo::run_simulation;
pub use orchard::Orchard;
pub use orchard::OrchardDie;
pub use orchard::Variation;
pub use riffle_shuffle::Deck;
pub use riffle_shuffle::find_break;
pub use riffle_shuffle::riffle_shuffle;
pub use riffle_shuffle::shuffle_with_samples;
