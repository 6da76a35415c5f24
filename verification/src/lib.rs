//! Literal line search: which lines of a text hold a query, where in a line
//! the query sits, and how a reported line is written out.
//!
//! The library reads no file and prints nothing. [`config`] reads the options
//! from the command line. [`matcher`] decides on one line, [`renderer`] writes
//! one line out, [`lines`] splits a text into lines, and [`search`] puts the
//! three together for one text. [`resolver`] picks the files that a path
//! stands for from what a walk met. [`pipeline`] says in which order paths
//! are walked and files are read, and what becomes of each outcome.

pub mod config;
pub mod error;
pub mod lines;
pub mod matcher;
pub mod pipeline;
pub mod renderer;
pub mod resolver;
pub mod search;
pub mod text;
