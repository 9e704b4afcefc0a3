//! Translation of a sequence of text blocks through a backend: the plan in
//! numbered chunks, the reassembly of what comes back in the order of the
//! input, and the bounded retry of chunks whose line count does not match.

pub mod bulk;
pub mod chunk;
pub mod gemini;
pub mod open_ai;
pub mod orchestrator;
pub mod outcome;
pub mod translator;
