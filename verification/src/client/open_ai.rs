//! The OpenAI backend: the request body, the usage and rate limit figures
//! of an answer, and the pause that the rate limit asks for.

use crate::decimal::{decimal, parse_u64, parsed_u64, render_i32};
use crate::strings::{ends_with, has_suffix};
use vstd::prelude::*;

verus! {

/// Where chat completions are requested.
pub const ENDPOINT: &'static str = "https://api.openai.com/v1/chat/completions";

/// The response header with the limit on requests.
pub const LIMIT_REQUESTS_HEADER: &'static str = "x-ratelimit-limit-requests";

/// The response header with the limit on tokens.
pub const LIMIT_TOKENS_HEADER: &'static str = "x-ratelimit-limit-tokens";

/// The response header with the requests that remain.
pub const REMAINING_REQUESTS_HEADER: &'static str = "x-ratelimit-remaining-requests";

/// The response header with the tokens that remain.
pub const REMAINING_TOKENS_HEADER: &'static str = "x-ratelimit-remaining-tokens";

/// The response header with the time until the limit on requests is reset.
pub const RESET_REQUESTS_HEADER: &'static str = "x-ratelimit-reset-requests";

/// The response header with the time until the limit on tokens is reset.
pub const RESET_TOKENS_HEADER: &'static str = "x-ratelimit-reset-tokens";

/// The token counts that the backend reports for one request.
#[derive(Clone, Copy, Debug, PartialEq, Eq, Structural)]
pub struct Stats {
    pub prompt_tokens: i32,
    pub completion_tokens: i32,
    pub total_tokens: i32,
}

/// The line that reports token counts.
pub open spec fn stats_line(stats: Stats) -> Seq<char> {
    "prompt tokens: "@ + decimal(stats.prompt_tokens as int) + " completion tokens: "@ + decimal(
        stats.completion_tokens as int,
    ) + " total tokens: "@ + decimal(stats.total_tokens as int)
}

impl Stats {
    /// The line that reports the counts.
    pub fn log(&self) -> (line: String)
        ensures
            line@ == stats_line(*self),
    {
        let mut line = String::from_str("prompt tokens: ");
        line.append(render_i32(self.prompt_tokens).as_str());
        line.append(" completion tokens: ");
        line.append(render_i32(self.completion_tokens).as_str());
        line.append(" total tokens: ");
        line.append(render_i32(self.total_tokens).as_str());
        line
    }
}

/// The rate limit figures of one answer, as the backend sent them.
#[derive(Clone, Debug, PartialEq, Eq)]
pub struct Ratelimit {
    pub limit_requests: String,
    pub limit_tokens: String,
    pub remaining_requests: String,
    pub remaining_tokens: String,
    pub reset_requests: String,
    pub reset_tokens: String,
}

/// How long to pause after an answer.
#[derive(Clone, Debug, PartialEq, Eq)]
pub enum ResetDelay {
    /// So many milliseconds.
    Millis(u64),
    /// So many seconds, as the decimal text that the backend sent.
    Seconds(String),
    /// One second: the backend sent nothing that can be read.
    OneSecond,
}

/// The mathematical value of a [`ResetDelay`].
pub enum ResetDelayModel {
    Millis(u64),
    Seconds(Seq<char>),
    OneSecond,
}

impl View for ResetDelay {
    type V = ResetDelayModel;

    open spec fn view(&self) -> ResetDelayModel {
        match self {
            ResetDelay::Millis(ms) => ResetDelayModel::Millis(*ms),
            ResetDelay::Seconds(text) => ResetDelayModel::Seconds(text@),
            ResetDelay::OneSecond => ResetDelayModel::OneSecond,
        }
    }
}

/// The pause that a reset time asks for. A text that ends in `ms` stands
/// for milliseconds where the rest is an unsigned number, and for one second
/// where it is not; any other text that ends in `s` stands for the seconds
/// before the `s`; everything else stands for one second.
pub open spec fn reset_delay(text: Seq<char>) -> ResetDelayModel {
    if has_suffix(text, seq!['m', 's']) {
        match parsed_u64(text.take(text.len() - 2)) {
            Some(ms) => ResetDelayModel::Millis(ms),
            None => ResetDelayModel::OneSecond,
        }
    } else if has_suffix(text, seq!['s']) {
        ResetDelayModel::Seconds(text.take(text.len() - 1))
    } else {
        ResetDelayModel::OneSecond
    }
}

/// The six lines that report rate limit figures.
pub open spec fn ratelimit_lines(
    limit_requests: Seq<char>,
    limit_tokens: Seq<char>,
    remaining_requests: Seq<char>,
    remaining_tokens: Seq<char>,
    reset_requests: Seq<char>,
    reset_tokens: Seq<char>,
) -> Seq<Seq<char>> {
    seq![
        "ratelimit limit requests: "@ + limit_requests,
        "ratelimit limit tokens: "@ + limit_tokens,
        "ratelimit remaining requests: "@ + remaining_requests,
        "ratelimit remaining tokens: "@ + remaining_tokens,
        "ratelimit reset requests: "@ + reset_requests,
        "ratelimit reset tokens: "@ + reset_tokens,
    ]
}

fn labelled(label: &str, value: &String) -> (line: String)
    ensures
        line@ == label@ + value@,
{
    let mut line = String::from_str(label);
    line.append(value.as_str());
    line
}

impl Ratelimit {
    /// The lines that report the figures, one for each.
    pub fn log(&self) -> (lines: Vec<String>)
        ensures
            lines.deep_view() == ratelimit_lines(
                self.limit_requests@,
                self.limit_tokens@,
                self.remaining_requests@,
                self.remaining_tokens@,
                self.reset_requests@,
                self.reset_tokens@,
            ),
    {
        let mut lines: Vec<String> = Vec::new();
        lines.push(labelled("ratelimit limit requests: ", &self.limit_requests));
        lines.push(labelled("ratelimit limit tokens: ", &self.limit_tokens));
        lines.push(labelled("ratelimit remaining requests: ", &self.remaining_requests));
        lines.push(labelled("ratelimit remaining tokens: ", &self.remaining_tokens));
        lines.push(labelled("ratelimit reset requests: ", &self.reset_requests));
        lines.push(labelled("ratelimit reset tokens: ", &self.reset_tokens));
        assert(lines.deep_view() =~= ratelimit_lines(
            self.limit_requests@,
            self.limit_tokens@,
            self.remaining_requests@,
            self.remaining_tokens@,
            self.reset_requests@,
            self.reset_tokens@,
        ));
        lines
    }

    /// The pause that the time until the token limit is reset asks for.
    pub fn reset_tokens_duration(&self) -> (delay: ResetDelay)
        ensures
            delay@ == reset_delay(self.reset_tokens@),
    {
        let text = self.reset_tokens.as_str();
        proof {
            reveal_strlit("ms");
            reveal_strlit("s");
            assert("ms"@ =~= seq!['m', 's']);
            assert("s"@ =~= seq!['s']);
        }
        let len = text.unicode_len();
        if ends_with(text, "ms") {
            let number = text.substring_char(0, len - 2);
            assert(number@ == text@.take(text@.len() - 2));
            match parse_u64(number) {
                Some(ms) => ResetDelay::Millis(ms),
                None => ResetDelay::OneSecond,
            }
        } else if ends_with(text, "s") {
            let seconds = text.substring_char(0, len - 1);
            assert(seconds@ == text@.take(text@.len() - 1));
            ResetDelay::Seconds(String::from_str(seconds))
        } else {
            ResetDelay::OneSecond
        }
    }
}

/// What is read of an answer: the usage, the text of the first choice and
/// the rate limit figures.
#[derive(Clone, Debug, PartialEq, Eq)]
pub struct Response {
    pub stats: Stats,
    pub choice: String,
    pub ratelimit: Ratelimit,
}

/// The value of the authorization header: `Bearer` and the key.
pub fn authorization(api_key: &str) -> (value: String)
    ensures
        value@ == "Bearer "@ + api_key@,
{
    let mut value = String::from_str("Bearer ");
    value.append(api_key);
    value
}

/// The usage of an answer that reports none: no tokens at all.
pub open spec fn no_usage() -> Stats {
    Stats { prompt_tokens: 0, completion_tokens: 0, total_tokens: 0 }
}

/// Reads an answer, given the texts of its choices, the usage, if the
/// backend reported one, and the rate limit figures: the text is that of the
/// first choice, and empty where the backend returned no choice.
pub fn response(choices: &Vec<String>, usage: Option<Stats>, ratelimit: Ratelimit) -> (r: Response)
    ensures
        r.stats == match usage {
            Some(stats) => stats,
            None => no_usage(),
        },
        r.ratelimit == ratelimit,
        r.choice@ == if choices@.len() > 0 {
            choices@[0]@
        } else {
            Seq::<char>::empty()
        },
{
    let choice = if choices.len() > 0 {
        choices[0].clone()
    } else {
        String::new()
    };
    let stats = match usage {
        Some(stats) => stats,
        None => Stats { prompt_tokens: 0, completion_tokens: 0, total_tokens: 0 },
    };
    Response { stats, choice, ratelimit }
}

/// One part of a message.
#[derive(Clone, Debug, PartialEq, Eq)]
pub struct Content {
    pub kind: String,
    pub text: String,
}

/// One message of a request.
#[derive(Clone, Debug, PartialEq, Eq)]
pub struct MessageRequest {
    pub role: String,
    pub content: Vec<Content>,
}

/// The format that the answer is asked in.
#[derive(Clone, Debug, PartialEq, Eq)]
pub struct ResponseFormat {
    pub kind: String,
}

/// The body of a chat completion request.
#[derive(Clone, Debug, PartialEq, Eq)]
pub struct ClientRequest {
    pub model: String,
    pub response_format: ResponseFormat,
    pub messages: Vec<MessageRequest>,
}

/// Whether `content` is a text part with the given text.
pub open spec fn is_text_part(content: Content, text: Seq<char>) -> bool {
    content.kind@ == "text"@ && content.text@ == text
}

/// Whether `body` is the request for `model` that asks for a JSON object,
/// gives `prompt` as the one part of a system message, and the user
/// contents, in order, as the parts of a user message.
pub open spec fn is_request_body(
    body: ClientRequest,
    model: Seq<char>,
    prompt: Seq<char>,
    user_contents: Seq<Seq<char>>,
) -> bool {
    &&& body.model@ == model
    &&& body.response_format.kind@ == "json_object"@
    &&& body.messages@.len() == 2
    &&& body.messages@[0].role@ == "system"@
    &&& body.messages@[0].content@.len() == 1
    &&& is_text_part(body.messages@[0].content@[0], prompt)
    &&& body.messages@[1].role@ == "user"@
    &&& body.messages@[1].content@.len() == user_contents.len()
    &&& forall|i: int|
        0 <= i < user_contents.len() ==> is_text_part(
            #[trigger] body.messages@[1].content@[i],
            user_contents[i],
        )
}

/// Builds the body of the request.
pub fn to_request_body(model: &str, prompt: &str, user_contents_text_vec: &Vec<String>) -> (body:
    ClientRequest)
    ensures
        is_request_body(body, model@, prompt@, user_contents_text_vec.deep_view()),
{
    let mut user_contents: Vec<Content> = Vec::new();
    let mut i: usize = 0;
    while i < user_contents_text_vec.len()
        invariant
            i <= user_contents_text_vec@.len(),
            user_contents@.len() == i,
            forall|j: int|
                0 <= j < i ==> is_text_part(
                    #[trigger] user_contents@[j],
                    user_contents_text_vec@[j]@,
                ),
        decreases user_contents_text_vec@.len() - i,
    {
        user_contents.push(
            Content { kind: String::from_str("text"), text: user_contents_text_vec[i].clone() },
        );
        i += 1;
    }
    let mut system_contents: Vec<Content> = Vec::new();
    system_contents.push(
        Content { kind: String::from_str("text"), text: String::from_str(prompt) },
    );
    let mut messages: Vec<MessageRequest> = Vec::new();
    messages.push(MessageRequest { role: String::from_str("system"), content: system_contents });
    messages.push(MessageRequest { role: String::from_str("user"), content: user_contents });
    ClientRequest {
        model: String::from_str(model),
        response_format: ResponseFormat { kind: String::from_str("json_object") },
        messages,
    }
}

} // verus!
