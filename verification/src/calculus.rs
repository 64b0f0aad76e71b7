//! The proof calculus: reversible primitive actions and the five inference
//! rules of the alpha system.

pub mod action;
pub mod error;
pub mod laws;
pub mod inference_rule;
