//! The two backends: what is sent to each and what is read of its answer.

pub mod gemini;
pub mod open_ai;
