//! A one-dimensional random-walk game between a Leader and a Follower, and a
//! search for a sample size at which three estimates of the Leader's win rate
//! agree to the nearest percent.
//!
//! Probabilities and random draws are integers in units of `1 / DRAW_SCALE`,
//! so every rule of the game is stated and proved over integers.
//!
//! - `draws`: the draws and the sources that hand them out;
//! - `game`: the configuration, the model of a walk, and one play-through;
//! - `walk`, `laws`: what is proved of walks and of play-throughs;
//! - `rates`: win rates as fractions, rounded to whole percents;
//! - `search`: samples of games, and the search over sample sizes.

pub mod draws;
pub mod error;
pub mod game;
pub mod laws;
pub mod outcome;
pub mod rates;
pub mod search;
pub mod walk;

pub use draws::{DrawSource, DRAW_SCALE};
pub use error::ConfigError;
pub use game::Game;
pub use outcome::Winner;
pub use rates::Rate;
pub use search::{play_sample, run, run_trial, Report, Tally};
