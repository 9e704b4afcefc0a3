//! The Gemini backend: the request body, the usage figures of an answer,
//! and the pause after each request.

use crate::decimal::{decimal, render_i32};
use vstd::prelude::*;

verus! {

/// How many seconds to pause after each request.
pub const COOLDOWN_SECONDS: u64 = 30;

/// The token counts that the backend reports for one request.
#[derive(Clone, Copy, Debug, PartialEq, Eq, Structural)]
pub struct Stats {
    pub prompt_token_count: i32,
    pub candidates_token_count: i32,
    pub total_token_count: i32,
}

/// The line that reports token counts.
pub open spec fn stats_line(stats: Stats) -> Seq<char> {
    "prompt tokens: "@ + decimal(stats.prompt_token_count as int) + " candidates tokens: "@
        + decimal(stats.candidates_token_count as int) + " total tokens: "@ + decimal(
        stats.total_token_count as int,
    )
}

impl Stats {
    /// The line that reports the counts.
    pub fn log(&self) -> (line: String)
        ensures
            line@ == stats_line(*self),
    {
        let mut line = String::from_str("prompt tokens: ");
        line.append(render_i32(self.prompt_token_count).as_str());
        line.append(" candidates tokens: ");
        line.append(render_i32(self.candidates_token_count).as_str());
        line.append(" total tokens: ");
        line.append(render_i32(self.total_token_count).as_str());
        line
    }
}

/// What is read of an answer: the usage and the text of the first
/// candidate.
#[derive(Clone, Debug, PartialEq, Eq)]
pub struct Response {
    pub stats: Stats,
    pub text: String,
}

/// The address at which `model` generates content for the holder of
/// `api_key`.
pub open spec fn endpoint_of(model: Seq<char>, api_key: Seq<char>) -> Seq<char> {
    "https://generativelanguage.googleapis.com/v1beta/models/"@ + model
        + ":generateContent?key="@ + api_key
}

/// The address to send a request to.
pub fn endpoint(model: &str, api_key: &str) -> (url: String)
    ensures
        url@ == endpoint_of(model@, api_key@),
{
    let mut url = String::from_str("https://generativelanguage.googleapis.com/v1beta/models/");
    url.append(model);
    url.append(":generateContent?key=");
    url.append(api_key);
    url
}

/// The usage of an answer that reports none: no tokens at all.
pub open spec fn no_usage() -> Stats {
    Stats { prompt_token_count: 0, candidates_token_count: 0, total_token_count: 0 }
}

/// The text of an answer, given the texts of the parts of each candidate:
/// the first part of the first candidate, and nothing where there is no
/// candidate or the first one has no part.
pub open spec fn answer_text(candidates: Seq<Seq<Seq<char>>>) -> Seq<char> {
    if candidates.len() > 0 && candidates[0].len() > 0 {
        candidates[0][0]
    } else {
        Seq::empty()
    }
}

/// Reads an answer, given the texts of the parts of each candidate and
/// the usage, if the backend reported one. An answer without a candidate is
/// an answer with an empty text, and so is one whose first candidate has no
/// part.
pub fn response(candidates: &Vec<Vec<String>>, usage: Option<Stats>) -> (r: Response)
    ensures
        r.stats == match usage {
            Some(stats) => stats,
            None => no_usage(),
        },
        r.text@ == answer_text(candidates.deep_view()),
{
    let text = if candidates.len() > 0 && candidates[0].len() > 0 {
        assert(candidates.deep_view()[0] == candidates[0].deep_view());
        assert(candidates[0].deep_view()[0] == candidates[0][0]@);
        candidates[0][0].clone()
    } else {
        if candidates.len() > 0 {
            assert(candidates.deep_view()[0] == candidates[0].deep_view());
        }
        String::new()
    };
    let stats = match usage {
        Some(stats) => stats,
        None => Stats { prompt_token_count: 0, candidates_token_count: 0, total_token_count: 0 },
    };
    Response { stats, text }
}

/// One part of a content.
#[derive(Clone, Debug, PartialEq, Eq)]
pub struct Part {
    pub text: String,
}

/// A content: a sequence of parts.
#[derive(Clone, Debug, PartialEq, Eq)]
pub struct Content {
    pub parts: Vec<Part>,
}

/// How the answer is to be generated.
#[derive(Clone, Debug, PartialEq, Eq)]
pub struct GenerationConfig {
    pub response_mime_type: String,
}

/// The body of a request to generate content.
#[derive(Clone, Debug, PartialEq, Eq)]
pub struct ClientRequest {
    pub contents: Vec<Content>,
    pub system_instruction: Content,
    pub generation_config: GenerationConfig,
}

/// Whether `body` is the request that asks for JSON, gives `prompt` as the
/// one part of the system instruction, and the user contents, in order, as
/// the parts of its one content.
pub open spec fn is_request_body(
    body: ClientRequest,
    prompt: Seq<char>,
    user_contents: Seq<Seq<char>>,
) -> bool {
    &&& body.generation_config.response_mime_type@ == "application/json"@
    &&& body.system_instruction.parts@.len() == 1
    &&& body.system_instruction.parts@[0].text@ == prompt
    &&& body.contents@.len() == 1
    &&& body.contents@[0].parts@.len() == user_contents.len()
    &&& forall|i: int|
        0 <= i < user_contents.len() ==> (#[trigger] body.contents@[0].parts@[i]).text@
            == user_contents[i]
}

/// Builds the body of the request.
pub fn to_request_body(prompt: &str, user_contents_text_vec: &Vec<String>) -> (body: ClientRequest)
    ensures
        is_request_body(body, prompt@, user_contents_text_vec.deep_view()),
{
    let mut parts: Vec<Part> = Vec::new();
    let mut i: usize = 0;
    while i < user_contents_text_vec.len()
        invariant
            i <= user_contents_text_vec@.len(),
            parts@.len() == i,
            forall|j: int|
                0 <= j < i ==> (#[trigger] parts@[j]).text@ == user_contents_text_vec@[j]@,
        decreases user_contents_text_vec@.len() - i,
    {
        parts.push(Part { text: user_contents_text_vec[i].clone() });
        i += 1;
    }
    let mut instruction: Vec<Part> = Vec::new();
    instruction.push(Part { text: String::from_str(prompt) });
    let mut contents: Vec<Content> = Vec::new();
    contents.push(Content { parts });
    ClientRequest {
        contents,
        system_instruction: Content { parts: instruction },
        generation_config: GenerationConfig {
            response_mime_type: String::from_str("application/json"),
        },
    }
}

} // verus!
