//! Playing cards for contract bridge: suits, ranks, cards packed into one byte, hands in
//! PBN suit-dot notation, and a 52-card deck that shuffles, sorts and deals round-robin.
pub mod cards;
pub mod deck;
pub mod hand;
