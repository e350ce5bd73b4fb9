//! The bundle program: its accounts, errors, events, instruction contexts
//! and instruction handlers, as plain values and verified transitions.
pub mod contexts;
pub mod errors;
pub mod events;
pub mod instructions;
pub mod processor;
pub mod state;
pub mod utils;
