//! Estimator for starting-hand (mulligan) decisions in a collectible card
//! game: a card and deck model, an enumerator of the legal card subsets that
//! fit a turn's mana budget, a sampled depth-limited turn evaluator, a
//! Monte Carlo driver, and a solver that ranks every keep/redraw pattern of
//! an opening hand.

pub mod card;
pub mod codec;
pub mod dealer;
pub mod patterns;
pub mod rng;
pub mod seqs;
pub mod sim;

pub use card::Card;
pub use card::CardPower;
