//! A small Scheme front end: two readers that turn program text into
//! expression trees, the data model of an abstract machine (states,
//! environments, stores, values and continuations), and the machine's
//! initial configuration.
pub mod scan;
pub mod eval;
pub mod read;
pub mod parse;
pub mod common;
