//! Live checks of the adapters of language models: which providers are at hand, what is asked of
//! them, and what their answers must show.
pub mod chat;
pub mod dotenv;
pub mod laws;
pub mod multi_turn;
pub mod providers;
pub mod scenarios;
pub mod tools;
