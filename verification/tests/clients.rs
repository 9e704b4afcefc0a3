use epub_translator::client::gemini;
use epub_translator::client::open_ai;
use epub_translator::client::open_ai::{Ratelimit, ResetDelay};
use epub_translator::decimal::{parse_u64, render_i32, render_u64, render_usize};
use epub_translator::strings::{chars_of, ends_with, join_lines};
use epub_translator::translate::bulk::{read_answer, user_contents};
use epub_translator::translate::gemini as to_gemini;
use epub_translator::translate::open_ai as to_open_ai;
use epub_translator::translate::outcome::TranslationOutcome;

fn lines(items: &[&str]) -> Vec<String> {
    items.iter().map(|s| s.to_string()).collect()
}

fn ratelimit(reset_tokens: &str) -> Ratelimit {
    Ratelimit {
        limit_requests: "500".to_string(),
        limit_tokens: "30000".to_string(),
        remaining_requests: "499".to_string(),
        remaining_tokens: "29000".to_string(),
        reset_requests: "120ms".to_string(),
        reset_tokens: reset_tokens.to_string(),
    }
}

#[test]
fn render_writes_decimal() {
    for n in [0u64, 1, 9, 10, 11, 99, 100, 12345, u64::MAX] {
        assert_eq!(render_u64(n), n.to_string());
    }
    for n in [0usize, 7, 20, 100, usize::MAX] {
        assert_eq!(render_usize(n), n.to_string());
    }
    for n in [0i32, 1, -1, 10, -10, 2147483647, -2147483648, 305, -4096] {
        assert_eq!(render_i32(n), n.to_string());
    }
    assert_eq!(render_i32(-2147483648), "-2147483648");
    assert_eq!(render_u64(18446744073709551615), "18446744073709551615");
}

#[test]
fn parse_u64_reads_what_std_reads() {
    for text in [
        "0", "7", "007", "+5", "123456789", "18446744073709551615", "18446744073709551616",
        "99999999999999999999999", "", "+", "-", "-5", "++5", "+-5", "5+", " 5", "5 ", "1_000",
        "12a", "a12", "1.5", "٣", "+0", "00000000000000000000000001",
    ] {
        assert_eq!(parse_u64(text), text.parse::<u64>().ok(), "{:?}", text);
    }
    assert_eq!(parse_u64("42"), Some(42));
    assert_eq!(parse_u64("18446744073709551615"), Some(u64::MAX));
    assert_eq!(parse_u64("18446744073709551616"), None);
}

#[test]
fn strings_helpers() {
    assert_eq!(chars_of("aé親"), vec!['a', 'é', '親']);
    assert_eq!(chars_of(""), Vec::<char>::new());
    assert!(ends_with("chapter.xhtml", ".xhtml"));
    assert!(ends_with("x", ""));
    assert!(ends_with("", ""));
    assert!(!ends_with("ml", ".xhtml"));
    assert!(!ends_with("chapter.xhtm", ".xhtml"));
    assert!(ends_with("親ms", "ms"));
    assert_eq!(join_lines(&lines(&[])), "");
    assert_eq!(join_lines(&lines(&["a"])), "a");
    assert_eq!(join_lines(&lines(&["a", "b", "c"])), "a\nb\nc");
    assert_eq!(join_lines(&lines(&["", "", ""])), "\n\n");
    assert_eq!(join_lines(&lines(&["a", ""])), lines(&["a", ""]).join("\n"));
}

#[test]
fn open_ai_stats_log_line() {
    let stats = open_ai::Stats { prompt_tokens: 120, completion_tokens: 45, total_tokens: 165 };
    assert_eq!(
        stats.log(),
        "prompt tokens: 120 completion tokens: 45 total tokens: 165"
    );
    let stats = open_ai::Stats { prompt_tokens: 0, completion_tokens: -1, total_tokens: i32::MIN };
    assert_eq!(
        stats.log(),
        format!(
            "prompt tokens: {} completion tokens: {} total tokens: {}",
            0,
            -1,
            i32::MIN
        )
    );
}

#[test]
fn gemini_stats_log_line() {
    let stats = gemini::Stats {
        prompt_token_count: 7,
        candidates_token_count: 1000,
        total_token_count: 1007,
    };
    assert_eq!(
        stats.log(),
        "prompt tokens: 7 candidates tokens: 1000 total tokens: 1007"
    );
}

#[test]
fn ratelimit_log_lines() {
    assert_eq!(
        ratelimit("6m0s").log(),
        lines(&[
            "ratelimit limit requests: 500",
            "ratelimit limit tokens: 30000",
            "ratelimit remaining requests: 499",
            "ratelimit remaining tokens: 29000",
            "ratelimit reset requests: 120ms",
            "ratelimit reset tokens: 6m0s",
        ])
    );
}

#[test]
fn reset_tokens_duration_reads_the_unit() {
    let cases = [
        ("6ms", ResetDelay::Millis(6)),
        ("0ms", ResetDelay::Millis(0)),
        ("+15ms", ResetDelay::Millis(15)),
        ("18446744073709551615ms", ResetDelay::Millis(u64::MAX)),
        ("18446744073709551616ms", ResetDelay::OneSecond),
        ("1.5ms", ResetDelay::OneSecond),
        ("ms", ResetDelay::OneSecond),
        ("-3ms", ResetDelay::OneSecond),
        ("6m0ms", ResetDelay::OneSecond),
        ("2s", ResetDelay::Seconds("2".to_string())),
        ("0.25s", ResetDelay::Seconds("0.25".to_string())),
        ("6m0s", ResetDelay::Seconds("6m0".to_string())),
        ("s", ResetDelay::Seconds(String::new())),
        ("", ResetDelay::OneSecond),
        ("20", ResetDelay::OneSecond),
        ("5m", ResetDelay::OneSecond),
        ("5S", ResetDelay::OneSecond),
    ];
    for (text, expected) in cases {
        assert_eq!(ratelimit(text).reset_tokens_duration(), expected, "{:?}", text);
    }
}

#[test]
fn open_ai_request_parts() {
    assert_eq!(open_ai::ENDPOINT, "https://api.openai.com/v1/chat/completions");
    assert_eq!(open_ai::authorization("SECRET"), "Bearer SECRET");
    assert_eq!(open_ai::RESET_TOKENS_HEADER, "x-ratelimit-reset-tokens");
    assert_eq!(open_ai::RESET_REQUESTS_HEADER, "x-ratelimit-reset-requests");
    assert_eq!(open_ai::LIMIT_REQUESTS_HEADER, "x-ratelimit-limit-requests");
    assert_eq!(open_ai::LIMIT_TOKENS_HEADER, "x-ratelimit-limit-tokens");
    assert_eq!(open_ai::REMAINING_REQUESTS_HEADER, "x-ratelimit-remaining-requests");
    assert_eq!(open_ai::REMAINING_TOKENS_HEADER, "x-ratelimit-remaining-tokens");
}

#[test]
fn open_ai_request_body() {
    let body = open_ai::to_request_body("gpt-4o-mini", "translate", &lines(&["<a>", "b"]));
    let text = |t: &str| open_ai::Content { kind: "text".to_string(), text: t.to_string() };
    assert_eq!(
        body,
        open_ai::ClientRequest {
            model: "gpt-4o-mini".to_string(),
            response_format: open_ai::ResponseFormat { kind: "json_object".to_string() },
            messages: vec![
                open_ai::MessageRequest {
                    role: "system".to_string(),
                    content: vec![text("translate")],
                },
                open_ai::MessageRequest {
                    role: "user".to_string(),
                    content: vec![text("<a>"), text("b")],
                },
            ],
        }
    );
    let body = open_ai::to_request_body("m", "", &vec![]);
    assert_eq!(body.messages[1].content, vec![]);
    assert_eq!(body.messages[0].content, vec![text("")]);
}

#[test]
fn open_ai_response_takes_the_first_choice() {
    let stats = open_ai::Stats { prompt_tokens: 1, completion_tokens: 2, total_tokens: 3 };
    let r = open_ai::response(&lines(&["first", "second"]), Some(stats), ratelimit("1s"));
    assert_eq!(r.choice, "first");
    assert_eq!(r.stats, stats);
    assert_eq!(r.ratelimit, ratelimit("1s"));
    let r = open_ai::response(&vec![], None, ratelimit(""));
    assert_eq!(r.choice, "");
    assert_eq!(
        r.stats,
        open_ai::Stats { prompt_tokens: 0, completion_tokens: 0, total_tokens: 0 }
    );
    assert_eq!(r.ratelimit.reset_tokens_duration(), ResetDelay::OneSecond);
}

#[test]
fn gemini_request_parts() {
    assert_eq!(
        gemini::endpoint("gemini-2.0-flash-lite", "SECRET"),
        "https://generativelanguage.googleapis.com/v1beta/models/gemini-2.0-flash-lite:generateContent?key=SECRET"
    );
    assert_eq!(gemini::COOLDOWN_SECONDS, 30);
}

#[test]
fn gemini_request_body() {
    let body = gemini::to_request_body("translate", &lines(&["a", "b"]));
    let part = |t: &str| gemini::Part { text: t.to_string() };
    assert_eq!(
        body,
        gemini::ClientRequest {
            contents: vec![gemini::Content { parts: vec![part("a"), part("b")] }],
            system_instruction: gemini::Content { parts: vec![part("translate")] },
            generation_config: gemini::GenerationConfig {
                response_mime_type: "application/json".to_string(),
            },
        }
    );
    let body = gemini::to_request_body("p", &vec![]);
    assert_eq!(body.contents, vec![gemini::Content { parts: vec![] }]);
}

#[test]
fn gemini_response_takes_the_first_part_of_the_first_candidate() {
    let stats = gemini::Stats {
        prompt_token_count: 1,
        candidates_token_count: 2,
        total_token_count: 3,
    };
    let r = gemini::response(&vec![lines(&["a", "b"]), lines(&["c"])], Some(stats));
    assert_eq!(r.text, "a");
    assert_eq!(r.stats, stats);
    assert_eq!(gemini::response(&vec![], Some(stats)).text, "");
    assert_eq!(gemini::response(&vec![vec![], lines(&["c"])], Some(stats)).text, "");
    assert_eq!(
        gemini::response(&vec![], None),
        gemini::Response {
            stats: gemini::Stats {
                prompt_token_count: 0,
                candidates_token_count: 0,
                total_token_count: 0,
            },
            text: String::new(),
        }
    );
}

#[test]
fn user_contents_wrap_every_line() {
    assert_eq!(
        user_contents(&lines(&["Hello", "", "<p>"])),
        lines(&[
            "<paragraph>Hello</paragraph>",
            "<paragraph></paragraph>",
            "<paragraph><p></paragraph>",
        ])
    );
    assert_eq!(user_contents(&vec![]), lines(&[]));
}

#[test]
fn read_answer_joins_the_parts_of_each_entry() {
    let results = Some(vec![lines(&["a", "b"]), lines(&[]), lines(&["c"])]);
    assert_eq!(read_answer(&results), lines(&["a\nb", "", "c"]));
    assert_eq!(read_answer(&Some(vec![])), lines(&[]));
    assert_eq!(read_answer(&None), lines(&[]));
}

#[test]
fn open_ai_prompt_text() {
    let language = "Japanese";
    let count = 20usize;
    let expected = format!("You are an excellent translator.\
        Translate it into {}. Please output the following JSON.\
        A string in `<paragraph>` tag to `</paragraph>` tag is one paragraph.\
        The value of the `results` Key is an array type.\
        Please output one line for each paragraph entered.\
        There are {} paragraphs of input, please output {} lines.\
        The value of `line` Key is a number type.\
        Please output the number of the input paragraph.\
        The value of `translated` Key is an array of String type.\
        If a paragraph of input is translated and a paragraph consists of multiple sentences, output an array consisting of multiple String.\
        Please remove `<paragraph>` and `</paragraph>` tags from the translation result.", language, count, count);
    assert_eq!(to_open_ai::prompt(language, count), expected);
    assert!(to_open_ai::prompt("fr", 0).contains("Translate it into fr. "));
    assert!(to_open_ai::prompt("fr", 0).contains("There are 0 paragraphs of input, please output 0 lines."));
    let request = to_open_ai::bulk_request(language, &vec!["x".to_string(); 20]);
    assert_eq!(request.prompt, expected);
    assert_eq!(request.user_contents, vec!["<paragraph>x</paragraph>".to_string(); 20]);
}

#[test]
fn gemini_prompt_text() {
    let language = "Japanese";
    let count = 100usize;
    let expected = format!("You are an excellent translator.\
        Translate it into {}. Please output the following JSON.\
        A string in `<paragraph>` tag to `</paragraph>` tag is one paragraph.\
        If a paragraph of input is translated and a paragraph consists of multiple sentences, output an array consisting of multiple String.\
        There are {} paragraphs of input, please output {} lines.\
        Using this JSON schema:\
        Paragraph = {{\"line\": number, \"text\": list[string]}}\
        Return a `list[Paragraph]`\
        Please remove `<paragraph>` and `</paragraph>` tags from the translation result.", language, count, count);
    assert_eq!(to_gemini::prompt(language, count), expected);
    let request = to_gemini::bulk_request(language, &vec!["y".to_string(); 100]);
    assert_eq!(request.prompt, expected);
    assert_eq!(request.user_contents.len(), 100);
}

#[test]
fn open_ai_translate_bulk_makes_the_outcome() {
    let stats = open_ai::Stats { prompt_tokens: 1, completion_tokens: 2, total_tokens: 3 };
    let response = open_ai::response(&lines(&["{}"]), Some(stats), ratelimit("1s"));
    let outcome = to_open_ai::translate_bulk(
        3,
        lines(&["a", "b"]),
        response.clone(),
        Some(vec![lines(&["x", "y"]), lines(&["z"])]),
    );
    assert_eq!(outcome.number, 3);
    assert_eq!(outcome.original_lines, lines(&["a", "b"]));
    assert_eq!(outcome.translated_lines, lines(&["x\ny", "z"]));
    assert_eq!(outcome.stats, stats);
    assert_eq!(outcome.ratelimit, ratelimit("1s"));
    assert_eq!(
        outcome.into_outcome(),
        TranslationOutcome {
            number: 3,
            original_lines: lines(&["a", "b"]),
            translated_lines: lines(&["x\ny", "z"]),
        }
    );
    let failed = to_open_ai::translate_bulk(1, lines(&["a"]), response, None);
    assert_eq!(failed.translated_lines, lines(&[]));
    assert!(!failed.into_outcome().is_accepted());
}

#[test]
fn gemini_translate_bulk_makes_the_outcome() {
    let stats = gemini::Stats {
        prompt_token_count: 1,
        candidates_token_count: 2,
        total_token_count: 3,
    };
    let response = gemini::response(&vec![lines(&["[]"])], Some(stats));
    let outcome = to_gemini::translate_bulk(1, lines(&["a"]), response.clone(), Some(vec![lines(&["x"])]));
    assert_eq!(outcome.number, 1);
    assert_eq!(outcome.translated_lines, lines(&["x"]));
    assert_eq!(outcome.stats, stats);
    assert!(outcome.into_outcome().is_accepted());
    let failed = to_gemini::translate_bulk(2, lines(&["a", "b"]), response, None);
    assert_eq!(failed.original_lines, lines(&["a", "b"]));
    assert_eq!(failed.translated_lines, lines(&[]));
}
