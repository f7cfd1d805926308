//! A process forest: builds a parent-child tree out of point-in-time
//! process records and answers ancestry queries over it.

pub mod process;
