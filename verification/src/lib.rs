//! An oracle for the board game Camel Up.
//!
//! Starting from a `Race` one can `perform` a `Roll` and obtain the resulting
//! race, or ask `project` for the exact probability, as a `Fraction`, of each
//! camel ending the round as winner, runner up or loser. The probabilities
//! are computed by exhaustively enumerating every order in which the
//! remaining dice can be drawn and every face they can show; with `n` dice
//! that tree has `n! * 3^n` equally likely leaves, so the answers are exact
//! fractions, never estimates.

pub mod camel;
pub mod fraction;
pub mod oracle;
pub mod tree;
pub mod vis;

pub use camel::Camel;
pub use camel::Dice;
pub use camel::Race;
pub use fraction::Fraction;
pub use oracle::project;
