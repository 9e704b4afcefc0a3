//! The configuration of a run and the choice of the backend.

use crate::translate::orchestrator::{Orchestrator, OrchestratorModel, Step};
use crate::translate::{gemini, open_ai};
use vstd::prelude::*;

verus! {

/// What a run is configured with: the model and the key of the backend,
/// the language to translate into, how many lines go into one request and
/// how many requests may be under way at once.
#[derive(Clone, Debug, PartialEq, Eq)]
pub struct Context {
    pub model: String,
    pub api_key: String,
    pub language: String,
    pub lines: usize,
    pub requests: usize,
}

/// The backend of a run, with its configuration.
#[derive(Clone, Debug, PartialEq, Eq)]
pub enum Translator {
    OpenAi(Context),
    Gemini(Context),
}

impl Translator {
    /// The configuration of the run.
    pub fn context(&self) -> (context: &Context)
        ensures
            *context == match *self {
                Translator::OpenAi(c) => c,
                Translator::Gemini(c) => c,
            },
    {
        match self {
            Translator::OpenAi(context) => context,
            Translator::Gemini(context) => context,
        }
    }

    /// The instruction that goes with a request of `count` paragraphs.
    pub fn prompt(&self, count: usize) -> (text: String)
        ensures
            text@ == match *self {
                Translator::OpenAi(c) => open_ai::prompt_text(c.language@, count as nat),
                Translator::Gemini(c) => gemini::prompt_text(c.language@, count as nat),
            },
    {
        match self {
            Translator::OpenAi(context) => open_ai::prompt(context.language.as_str(), count),
            Translator::Gemini(context) => gemini::prompt(context.language.as_str(), count),
        }
    }

    /// Begins the translation of `lines` with the backend and the chunk
    /// size of the configuration. Without lines the run is done at once and
    /// nothing is sent.
    pub fn translate(&self, lines: Vec<String>) -> (r: (Orchestrator, Step))
        requires
            lines@.len() > 0 ==> match *self {
                Translator::OpenAi(c) => c.lines > 0,
                Translator::Gemini(c) => c.lines > 0,
            },
        ensures
            r.0.wf(),
            r.0@.balanced(),
            (r.0@, r.1@) == OrchestratorModel::begun(
                lines.deep_view(),
                match *self {
                    Translator::OpenAi(c) => c.lines as nat,
                    Translator::Gemini(c) => c.lines as nat,
                },
            ),
    {
        match self {
            Translator::OpenAi(context) => Orchestrator::start(lines, context.lines),
            Translator::Gemini(context) => gemini::translate(context, lines),
        }
    }
}

} // verus!
