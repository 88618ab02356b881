//! A journal of timestamped notes, todos and reminders kept as plain text.
//!
//! The journal is one text file that can be edited by hand. [`jot`] reads
//! its entries and writes them, and [`round_trip`] shows that what was
//! written is read back as it was. [`timestamp`] holds the times of the
//! entries, [`time_infer`] reads phrases such as `monday at 1am` as a time
//! to come, and [`utils`] makes the short ids of the entries. [`commands`]
//! holds what the commands of the journal decide, and [`rewrite`] the
//! stages by which a changed journal takes the place of the old one.

pub mod commands;
pub mod config;
pub mod jot;
pub mod rewrite;
pub mod round_trip;
pub mod text;
pub mod time_infer;
pub mod timestamp;
pub mod utils;
