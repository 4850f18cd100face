//! Players that choose their own moves.

pub mod bot_trait;
pub mod random;

pub use bot_trait::Bot;
pub use random::RandomBot;
