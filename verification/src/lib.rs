//! A verified task and note tracker: two stores of records organized into
//! boards, with id allocation, flag transitions, priorities, batch moves,
//! a board report, and a canonical textual persistence format.

pub mod codec;
pub mod digits;
pub mod errors;
pub mod modify;
pub mod paths;
pub mod settings;
pub mod store;
pub mod task;
pub mod text;
pub mod view;
mod clock;
