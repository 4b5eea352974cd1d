//! A small server-side library for hosted rooms of turn-based card games,
//! with a verified blackjack engine, a line-oriented command protocol, and
//! a session registry keyed by short room codes.

pub mod card;
pub mod dealer;
pub mod digits;
pub mod games;
pub mod hand;
pub mod protocol;
pub mod session;
