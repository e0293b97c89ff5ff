//! A blackjack engine.
//!
//! `cards` makes decks and shoes and moves cards out of them; `game` holds
//! hand values, players, the dealer, and the rounds it runs. A round is a
//! sequence of steps: `Dealer::step` takes the answer to its last request and
//! returns the next one, so whoever runs the round asks the players and hands
//! their answers back. `laws` states what holds of every step.
pub mod cards;
pub mod game;
pub mod laws;
pub mod prelude;
