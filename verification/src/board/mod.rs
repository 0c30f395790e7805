//! **Board Common Syntax**
//!
//! The records that circuit board documents are made of.

pub mod graphic;
pub mod layer;
pub mod pcb;
pub mod tags;
