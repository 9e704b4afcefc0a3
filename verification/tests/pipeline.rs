use epub_translator::epub::{
    close_entries, close_entry, is_markup_entry, open_entries, open_entry, Entry, EntryWork, Epub,
};
use epub_translator::markup::MarkupError;
use epub_translator::translate::chunk::Chunk;
use epub_translator::translate::open_ai::OpenAi;
use epub_translator::translate::orchestrator::{Orchestrator, Step};
use epub_translator::translate::outcome::TranslationOutcome;
use epub_translator::translate::translator::{Context, Translator};
use std::path::PathBuf;

fn lines(items: &[&str]) -> Vec<String> {
    items.iter().map(|s| s.to_string()).collect()
}

fn context(lines: usize, requests: usize) -> Context {
    Context {
        model: "model".to_string(),
        api_key: "SECRET".to_string(),
        language: "Japanese".to_string(),
        lines,
        requests,
    }
}

fn echo(chunk: &Chunk) -> TranslationOutcome {
    TranslationOutcome {
        number: chunk.number,
        original_lines: chunk.lines.clone(),
        translated_lines: chunk.lines.iter().map(|l| format!("[TR]{}", l)).collect(),
    }
}

/// Drives a run with a backend that echoes, at most `requests` chunks at
/// a time, each group answered in reverse.
fn drive(start: (Orchestrator, Step), requests: usize) -> Vec<String> {
    let (mut orchestrator, mut step) = start;
    loop {
        match step {
            Step::Dispatch(chunks) => {
                let mut outcomes = Vec::new();
                for group in chunks.chunks(requests) {
                    outcomes.extend(group.iter().rev().map(echo));
                }
                step = orchestrator.resume(outcomes);
            }
            Step::Done(translated) => return translated,
            Step::Fatal(e) => panic!("retries exhausted: {:?}", e),
        }
    }
}

#[test]
fn epub_new_keeps_the_paths() {
    let epub = Epub::new(PathBuf::from("in.epub"), PathBuf::from("out/ja.epub"));
    assert_eq!(epub.input_path(), &PathBuf::from("in.epub"));
    assert_eq!(epub.output_path(), &PathBuf::from("out/ja.epub"));
}

#[test]
fn markup_entries_are_told_by_their_suffix() {
    for name in ["chapter1.xhtml", "toc.xml", "a/b/index.html", "x.htm", ".htm", "META-INF/container.xml"] {
        assert!(is_markup_entry(name), "{}", name);
    }
    for name in [
        "cover.jpg", "style.css", "mimetype", "chapter1.XHTML", "x.html.bak", "htm", "xhtml", "a.xm",
        "", "content.opf", "toc.ncx",
    ] {
        assert!(!is_markup_entry(name), "{}", name);
    }
}

#[test]
fn entry_without_markup_passes_through() {
    let bytes = vec![0xff, 0xd8, 0xff, 0xe0, 0x00, b'<', b'p', b'>', 0x00];
    let entry = Entry { name: "cover.jpg".to_string(), content: bytes.clone() };
    assert_eq!(
        open_entry(entry.clone()),
        Ok(EntryWork::Copy(Entry { name: "cover.jpg".to_string(), content: bytes }))
    );
    let empty = Entry { name: "mimetype".to_string(), content: vec![] };
    assert_eq!(open_entry(empty.clone()), Ok(EntryWork::Copy(empty)));
}

#[test]
fn entry_with_markup_is_stripped_and_extracted() {
    let entry = Entry {
        name: "c.xhtml".to_string(),
        content: "<body>\n <p>a <ruby>親<rt>おや</rt></ruby></p>\n <p>7</p>\n</body>".as_bytes().to_vec(),
    };
    assert_eq!(
        open_entry(entry),
        Ok(EntryWork::Translate(
            Entry {
                name: "c.xhtml".to_string(),
                content: "<body>\n <p>a 親</p>\n <p>7</p>\n</body>".as_bytes().to_vec(),
            },
            lines(&["a 親"]),
        ))
    );
}

#[test]
fn entry_with_bad_markup_is_an_error() {
    let entry = |content: &[u8]| Entry { name: "c.html".to_string(), content: content.to_vec() };
    assert_eq!(open_entry(entry(b"<p></q>")), Err(MarkupError::Malformed));
    assert_eq!(open_entry(entry(b"<p>&nope;</p>")), Err(MarkupError::TextContent));
    assert_eq!(open_entry(entry(b"<\xff/><\xfe></\xfe>")), Err(MarkupError::TagName));
    assert_eq!(
        close_entry(entry(b"<p>a</p>"), vec![]),
        Err(MarkupError::TooFewLines)
    );
}

#[test]
fn three_paragraphs_through_an_echoing_backend() {
    let entry = Entry {
        name: "chapter1.xhtml".to_string(),
        content: b"<html><body>\n<p>First paragraph.</p>\n<p>Second paragraph.</p>\n<p>Third paragraph.</p>\n</body></html>".to_vec(),
    };
    let translator = Translator::Gemini(context(2, 2));
    let (plain, blocks) = match open_entry(entry).unwrap() {
        EntryWork::Translate(plain, blocks) => (plain, blocks),
        other => panic!("unexpected work {:?}", other),
    };
    assert_eq!(
        blocks,
        lines(&["First paragraph.", "Second paragraph.", "Third paragraph."])
    );
    let translated = drive(translator.translate(blocks), translator.context().requests);
    assert_eq!(
        translated,
        lines(&["[TR]First paragraph.", "[TR]Second paragraph.", "[TR]Third paragraph."])
    );
    let out = close_entry(plain, translated).unwrap();
    assert_eq!(out.name, "chapter1.xhtml");
    assert_eq!(
        String::from_utf8(out.content).unwrap(),
        "<html><body>\n<p>First paragraph.&lt;&lt;[TR]First paragraph.&gt;&gt;</p>\n<p>Second paragraph.&lt;&lt;[TR]Second paragraph.&gt;&gt;</p>\n<p>Third paragraph.&lt;&lt;[TR]Third paragraph.&gt;&gt;</p>\n</body></html>"
    );
}

#[test]
fn translator_starts_a_run_with_its_chunk_size() {
    for translator in [Translator::OpenAi(context(2, 5)), Translator::Gemini(context(2, 1))] {
        assert_eq!(translator.context(), &context(2, translator.context().requests));
        let (orchestrator, step) = translator.translate(lines(&["a", "b", "c"]));
        assert_eq!(
            step,
            Step::Dispatch(vec![
                Chunk { number: 1, lines: lines(&["a", "b"]) },
                Chunk { number: 2, lines: lines(&["c"]) },
            ])
        );
        assert_eq!(orchestrator.total_lines(), 3);
        let (_, step) = translator.translate(vec![]);
        assert_eq!(step, Step::Done(vec![]));
    }
    let (_, step) = Translator::OpenAi(context(0, 1)).translate(vec![]);
    assert_eq!(step, Step::Done(vec![]));
}

#[test]
fn translator_writes_the_prompt_of_its_backend() {
    let open_ai = Translator::OpenAi(context(2, 5)).prompt(3);
    let gemini = Translator::Gemini(context(2, 5)).prompt(3);
    assert_eq!(open_ai, epub_translator::translate::open_ai::prompt("Japanese", 3));
    assert_eq!(gemini, epub_translator::translate::gemini::prompt("Japanese", 3));
    assert_ne!(open_ai, gemini);
}

#[test]
fn gemini_translate_starts_a_run() {
    let (_, step) = epub_translator::translate::gemini::translate(&context(1, 1), lines(&["a"]));
    assert_eq!(step, Step::Dispatch(vec![Chunk { number: 1, lines: lines(&["a"]) }]));
    let (_, step) = epub_translator::translate::gemini::translate(&context(1, 1), vec![]);
    assert_eq!(step, Step::Done(vec![]));
}

#[test]
fn open_ai_new_keeps_its_configuration() {
    let mut open_ai = OpenAi::new(
        "SECRET".to_string(),
        "gpt-4o-mini".to_string(),
        "French".to_string(),
        20,
        5,
    );
    assert_eq!(open_ai.api_key(), "SECRET");
    assert_eq!(open_ai.model(), "gpt-4o-mini");
    assert_eq!(open_ai.language(), "French");
    assert_eq!(open_ai.lines(), 20);
    assert_eq!(open_ai.requests(), 5);
    let (_, step) = open_ai.translate(vec![]);
    assert_eq!(step, Step::Done(vec![]));
    let (orchestrator, step) = open_ai.translate(vec!["x".to_string(); 41]);
    match step {
        Step::Dispatch(chunks) => {
            assert_eq!(chunks.len(), 3);
            assert_eq!(chunks[2].lines.len(), 1);
        }
        other => panic!("unexpected step {:?}", other),
    }
    assert_eq!(orchestrator.awaited_lines(), 41);
    assert_eq!(open_ai.lines(), 20);
}

fn entry(name: &str, content: &[u8]) -> Entry {
    Entry { name: name.to_string(), content: content.to_vec() }
}

#[test]
fn an_e_book_without_markup_comes_back_as_it_is_and_asks_for_nothing() {
    let entries = vec![
        entry("mimetype", b"application/epub+zip"),
        entry("cover.jpg", &[0xff, 0xd8, 0xff, 0x00, b'<', b'p', b'>']),
        entry("style.css", b"p { margin: 0 }"),
        entry("notes.txt", b"<p>not markup by its name</p>"),
    ];
    let works = open_entries(entries.clone()).unwrap();
    assert!(works.iter().all(|work| matches!(work, EntryWork::Copy(_))));
    assert_eq!(close_entries(works, &vec![]), Ok(entries));
    assert_eq!(close_entries(open_entries(vec![]).unwrap(), &vec![]), Ok(vec![]));
}

#[test]
fn entries_without_markup_keep_their_place_and_their_bytes() {
    let entries = vec![
        entry("mimetype", b"application/epub+zip"),
        entry("one.xhtml", b"<p>One</p>\n"),
        entry("cover.jpg", &[0xff, 0xd8, 0x00, 0x01]),
        entry("two.html", b"<h1> Two </h1><p>2</p><li>Three</li>"),
        entry("empty.xml", b""),
        entry("font.otf", b""),
    ];
    let works = open_entries(entries.clone()).unwrap();
    assert_eq!(works.len(), entries.len());
    let mut translations = Vec::new();
    for work in &works {
        if let EntryWork::Translate(_, blocks) = work {
            translations.push(blocks.iter().map(|b| format!("[{}]", b)).collect::<Vec<_>>());
        }
    }
    assert_eq!(
        translations,
        vec![lines(&["[One]"]), lines(&["[Two]", "[Three]"]), lines(&[])]
    );
    let out = close_entries(works, &translations).unwrap();
    assert_eq!(out.len(), entries.len());
    for i in [0, 2, 5] {
        assert_eq!(out[i], entries[i]);
    }
    assert_eq!(out[1], entry("one.xhtml", b"<p>One&lt;&lt;[One]&gt;&gt;</p>\n"));
    assert_eq!(
        out[3],
        entry(
            "two.html",
            b"<h1> Two &lt;&lt;[Two]&gt;&gt;</h1><p>2</p><li>Three&lt;&lt;[Three]&gt;&gt;</li>"
        )
    );
    assert_eq!(out[4], entries[4]);
}

#[test]
fn the_first_bad_entry_fails_the_e_book() {
    let entries = vec![
        entry("cover.jpg", b"</p>"),
        entry("a.xhtml", b"<p>&nope;</p>"),
        entry("b.xhtml", b"<p></q>"),
    ];
    assert_eq!(open_entries(entries), Err(MarkupError::TextContent));
    let works = open_entries(vec![entry("a.xhtml", b"<p>a</p>"), entry("b.xhtml", b"<p>b</p>")])
        .unwrap();
    assert_eq!(
        close_entries(works, &vec![lines(&["x"]), lines(&[])]),
        Err(MarkupError::TooFewLines)
    );
}
