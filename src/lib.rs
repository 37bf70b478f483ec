//! Reference-counted shared ownership with weak handles, a runtime-checked
//! borrow cell, and a handful of small utilities built on plain values.

pub mod rc;
pub mod cell;
pub mod art;
pub mod adder;
pub mod blog;
pub mod gui;
pub mod iterators;
pub mod minigrep;
pub mod modules;
pub mod cacher;
pub mod strings;
pub mod workout;
