//! Translation through the OpenAI backend.

use crate::client::open_ai::{Ratelimit, Response, Stats};
use crate::decimal::{decimal_nat, render_usize};
use crate::translate::bulk::{answered_lines, entry_views, paragraphs, read_answer, user_contents};
use crate::translate::orchestrator::{Orchestrator, OrchestratorModel, Step};
use crate::translate::outcome::{OutcomeModel, TranslationOutcome};
use vstd::prelude::*;

verus! {

/// The instruction up to the language.
pub const PROMPT_HEAD: &'static str = "You are an excellent translator.Translate it into ";

/// The instruction between the language and the number of paragraphs.
pub const PROMPT_FORMAT: &'static str =
    ". Please output the following JSON.A string in `<paragraph>` tag to `</paragraph>` tag is one paragraph.The value of the `results` Key is an array type.Please output one line for each paragraph entered.There are ";

/// The instruction between the number of paragraphs and the number of
/// lines.
pub const PROMPT_COUNT: &'static str = " paragraphs of input, please output ";

/// The instruction after the number of lines.
pub const PROMPT_TAIL: &'static str =
    " lines.The value of `line` Key is a number type.Please output the number of the input paragraph.The value of `translated` Key is an array of String type.If a paragraph of input is translated and a paragraph consists of multiple sentences, output an array consisting of multiple String.Please remove `<paragraph>` and `</paragraph>` tags from the translation result.";

/// The instruction that goes with a request of `count` paragraphs to
/// translate into `language`.
pub open spec fn prompt_text(language: Seq<char>, count: nat) -> Seq<char> {
    PROMPT_HEAD@ + language + PROMPT_FORMAT@ + decimal_nat(count) + PROMPT_COUNT@ + decimal_nat(
        count,
    ) + PROMPT_TAIL@
}

/// Writes the instruction.
pub fn prompt(language: &str, count: usize) -> (text: String)
    ensures
        text@ == prompt_text(language@, count as nat),
{
    let number = render_usize(count);
    let mut text = String::from_str(PROMPT_HEAD);
    text.append(language);
    text.append(PROMPT_FORMAT);
    text.append(number.as_str());
    text.append(PROMPT_COUNT);
    text.append(number.as_str());
    text.append(PROMPT_TAIL);
    text
}

/// What is sent for one chunk: the instruction and one paragraph for each
/// line.
#[derive(Clone, Debug, PartialEq, Eq)]
pub struct BulkRequest {
    pub prompt: String,
    pub user_contents: Vec<String>,
}

/// Prepares the request for the lines of one chunk.
pub fn bulk_request(language: &str, original_lines: &Vec<String>) -> (request: BulkRequest)
    ensures
        request.prompt@ == prompt_text(language@, original_lines@.len()),
        request.user_contents.deep_view() == paragraphs(original_lines.deep_view()),
{
    BulkRequest {
        prompt: prompt(language, original_lines.len()),
        user_contents: user_contents(original_lines),
    }
}

/// The outcome of one chunk, with the usage and the rate limit figures that
/// the backend reported.
#[derive(Clone, Debug, PartialEq, Eq)]
pub struct BulkTranslated {
    pub number: usize,
    pub original_lines: Vec<String>,
    pub translated_lines: Vec<String>,
    pub stats: Stats,
    pub ratelimit: Ratelimit,
}

impl BulkTranslated {
    /// The outcome without the usage and the rate limit figures.
    pub fn into_outcome(self) -> (outcome: TranslationOutcome)
        ensures
            outcome@ == (OutcomeModel {
                number: self.number as nat,
                original_lines: self.original_lines.deep_view(),
                translated_lines: self.translated_lines.deep_view(),
            }),
    {
        TranslationOutcome {
            number: self.number,
            original_lines: self.original_lines,
            translated_lines: self.translated_lines,
        }
    }
}

/// Makes the outcome of chunk `number` from the answer to its request.
/// `results` holds the entries read of the answer's text, or `None` where
/// the text could not be read: then the outcome holds no translated line at
/// all.
pub fn translate_bulk(
    number: usize,
    original_lines: Vec<String>,
    response: Response,
    results: Option<Vec<Vec<String>>>,
) -> (outcome: BulkTranslated)
    ensures
        outcome.number == number,
        outcome.original_lines == original_lines,
        outcome.translated_lines.deep_view() == answered_lines(entry_views(results)),
        outcome.stats == response.stats,
        outcome.ratelimit == response.ratelimit,
{
    let translated_lines = read_answer(&results);
    BulkTranslated {
        number,
        original_lines,
        translated_lines,
        stats: response.stats,
        ratelimit: response.ratelimit,
    }
}

/// A translator that uses the OpenAI backend.
pub struct OpenAi {
    model: String,
    api_key: String,
    language: String,
    lines: usize,
    requests: usize,
}

/// The mathematical value of an [`OpenAi`].
pub struct OpenAiModel {
    pub model: Seq<char>,
    pub api_key: Seq<char>,
    pub language: Seq<char>,
    pub lines: nat,
    pub requests: nat,
}

impl View for OpenAi {
    type V = OpenAiModel;

    closed spec fn view(&self) -> OpenAiModel {
        OpenAiModel {
            model: self.model@,
            api_key: self.api_key@,
            language: self.language@,
            lines: self.lines as nat,
            requests: self.requests as nat,
        }
    }
}

impl OpenAi {
    /// A translator for the holder of `api_key` that asks `model` to
    /// translate into `language`, `lines` lines to a request and at most
    /// `requests` requests at once.
    pub fn new(api_key: String, model: String, language: String, lines: usize, requests: usize) -> (r:
        Self)
        ensures
            r@ == (OpenAiModel {
                model: model@,
                api_key: api_key@,
                language: language@,
                lines: lines as nat,
                requests: requests as nat,
            }),
    {
        Self { api_key, model, language, lines, requests }
    }

    /// The model that is asked.
    pub fn model(&self) -> (r: &String)
        ensures
            r@ == self@.model,
    {
        &self.model
    }

    /// The key of the backend.
    pub fn api_key(&self) -> (r: &String)
        ensures
            r@ == self@.api_key,
    {
        &self.api_key
    }

    /// The language to translate into.
    pub fn language(&self) -> (r: &String)
        ensures
            r@ == self@.language,
    {
        &self.language
    }

    /// How many lines go into one request.
    pub fn lines(&self) -> (r: usize)
        ensures
            r == self@.lines,
    {
        self.lines
    }

    /// How many requests may be under way at once.
    pub fn requests(&self) -> (r: usize)
        ensures
            r == self@.requests,
    {
        self.requests
    }

    /// Begins the translation of `lines`. Without lines the run is done at
    /// once and nothing is sent.
    pub fn translate(&mut self, lines: Vec<String>) -> (r: (Orchestrator, Step))
        requires
            lines@.len() > 0 ==> old(self)@.lines > 0,
        ensures
            final(self)@ == old(self)@,
            r.0.wf(),
            r.0@.balanced(),
            (r.0@, r.1@) == OrchestratorModel::begun(lines.deep_view(), old(self)@.lines),
    {
        Orchestrator::start(lines, self.lines)
    }
}

} // verus!
