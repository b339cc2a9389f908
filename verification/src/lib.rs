//! A constraint-propagation engine for skyscraper puzzles.

pub mod cell;
pub mod line;
pub mod visibility;
pub mod clues;
pub mod deductions;
pub mod board;
pub mod propagation;
pub mod command;
pub mod render;
