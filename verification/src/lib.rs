//! Parallel agent threads that can catch each other's work early.

pub mod composer;
pub mod lists;
pub mod model;
pub mod offset;
pub mod order;
pub mod seed;
pub mod shell;
pub mod text;
