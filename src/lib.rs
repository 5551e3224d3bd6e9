//! Deck lists for a trading-card catalog: a line grammar, a resolver that
//! turns a whole list into entries and line errors, and a differ that
//! classifies the cards of two lists.
pub mod text;
pub mod cards;
pub mod grammar;
pub mod deck;
pub mod diff;
pub mod health;
