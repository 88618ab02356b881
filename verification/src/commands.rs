//! What the commands of the journal decide and compute.

pub mod create;
pub mod edit;
pub mod mark;
pub mod notify;
pub mod search;
pub mod tags;
pub mod view;
