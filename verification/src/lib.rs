//! A task tracker that keeps its tasks in one text file.
//!
//! The file holds an array of records, one for each task. Every procedure
//! reads the whole text, changes the entries it is about, and returns the
//! text to write in its place. The library neither opens a file nor reads a
//! clock: the text of the file and the time come in as arguments.
//!
//! - `text`: dividing, joining, trimming and clearing sequences of
//!   characters
//! - `decimal`: numbers as decimal text
//! - `task`: the task record and its text form
//! - `ids`: the lowest id that is not in use
//! - `store`: the entries of a store text and the procedures on them
//! - `store_laws`: what holds when a store text is written and read again
//! - `commands`: the commands of the command line
use vstd::prelude::*;

pub mod commands;
pub mod decimal;
pub mod ids;
pub mod store;
pub mod store_laws;
pub mod task;
pub mod text;
