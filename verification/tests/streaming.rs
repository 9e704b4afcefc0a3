use epub_translator::blocks::IGNORABLE_PATTERN;
use epub_translator::epub::{strip_xml_content, translate_lines, translate_xml_content};
use quick_xml::events::Event;
use quick_xml::Reader;
use regex::Regex;

const CONTAINERS: [&[u8]; 8] = [b"p", b"h1", b"h2", b"h3", b"h4", b"h5", b"h6", b"li"];

/// The span that a walk over the events of `quick_xml` is in.
struct Span {
    open: bool,
    tag: Vec<u8>,
    depth: i64,
    text: String,
}

impl Span {
    fn new() -> Span {
        Span { open: false, tag: Vec::new(), depth: 0, text: String::new() }
    }

    fn start(&mut self, name: &[u8]) {
        if CONTAINERS.contains(&name) {
            if !self.open {
                self.open = true;
                self.tag = name.to_vec();
                self.text.clear();
            }
            if self.tag == name {
                self.depth += 1;
            }
        }
    }

    /// Whether the closing tag ends the span.
    fn end(&mut self, name: &[u8]) -> bool {
        if CONTAINERS.contains(&name) && self.tag == name {
            self.depth -= 1;
            if self.depth == 0 {
                self.open = false;
                return true;
            }
        }
        false
    }
}

fn ignorable() -> Regex {
    Regex::new(IGNORABLE_PATTERN).unwrap()
}

/// Extracts the blocks while streaming the events of `quick_xml`.
fn lines_streaming(content: &[u8]) -> Vec<String> {
    let pattern = ignorable();
    let mut reader = Reader::from_reader(content);
    reader.config_mut().trim_text(true);
    let mut span = Span::new();
    let mut blocks = Vec::new();
    loop {
        match reader.read_event() {
            Ok(Event::Eof) => return blocks,
            Ok(Event::Start(e)) => span.start(e.name().0),
            Ok(Event::End(e)) => {
                if span.end(e.name().0) && !pattern.is_match(&span.text) {
                    blocks.push(span.text.clone());
                }
            }
            Ok(Event::Text(e)) => {
                let text = e.unescape().unwrap();
                if span.open {
                    span.text.push_str(&text);
                }
            }
            _ => {}
        }
    }
}

fn documents() -> Vec<Vec<u8>> {
    let texts = [
        "",
        "plain text only",
        "<p>one</p>",
        "<?xml version=\"1.0\"?><!DOCTYPE html><html><body><h1>T &amp; U</h1><p>a <b>b</b> c</p></body></html>",
        "<p>a<ruby>\u{89aa}<rt>\u{304a}\u{3084}</rt></ruby>b</p><p>  </p><p>12 \u{2013} 34.</p><p>12 \u{2014} 34.</p>",
        "<ul>\n  <li>x<ul><li>y</li><li>z</li></ul></li>\n  <li>w</li>\n</ul>",
        "<li><p>in li</p><h2>h</h2></li><p><li>in p</li></p>",
        "<div><p class=\"a b\" id='c'>q &lt; r &gt; s &quot;t&quot; &apos;u&apos; &#x263a; &#8211;</p><br/><hr /></div>",
        "<p>before<!-- c --><![CDATA[<raw> & ]]><?pi d?>after</p>",
        "<h1>a</h1><h2>b</h2><h3>c</h3><h4>d</h4><h5>e</h5><h6>f</h6><h7>g</h7>",
        "<p>unclosed <b>span",
        "<rt>x</rt><ruby>y</ruby><p>z<rt>gloss<b>k</b>more</rt>tail</p>",
        "\u{feff}<p>bom</p>",
        "<p>\u{a9} \u{2603} 1.2</p><p>\u{a9} text</p><p>\u{0085}</p>",
        "<P>upper</P><p >spaced</p ><p\n>line</p\n>",
    ];
    let mut documents: Vec<Vec<u8>> = texts.iter().map(|t| t.as_bytes().to_vec()).collect();
    documents.push(b"<div title=\"\xff\">\xfe<i>x</i></div>".to_vec());
    documents
}

#[test]
fn extraction_agrees_with_streaming() {
    let mut blocks = 0;
    for document in documents() {
        if std::str::from_utf8(&document).is_err() {
            continue;
        }
        for content in [document.clone(), strip_xml_content(&document).unwrap()] {
            let ours = translate_lines(&content).unwrap();
            assert_eq!(ours, lines_streaming(&content), "{:?}", String::from_utf8_lossy(&content));
            blocks += ours.len();
        }
    }
    assert!(blocks > 35);
}

#[test]
fn reinsertion_without_its_markers_is_the_content() {
    for document in documents() {
        if std::str::from_utf8(&document).is_err() {
            continue;
        }
        let content = strip_xml_content(&document).unwrap();
        let translated: Vec<String> = translate_lines(&content)
            .unwrap()
            .iter()
            .enumerate()
            .map(|(i, block)| format!("\u{1}{}: <{}> & \"{}\"\u{2}", i, block.to_uppercase(), block.len()))
            .collect();
        let out = String::from_utf8(translate_xml_content(translated.clone(), &content).unwrap())
            .unwrap();
        let mut unmarked = out.clone();
        let mut from = 0;
        for line in &translated {
            let marker = format!("&lt;&lt;{}&gt;&gt;", quick_xml::escape::escape(line.as_str()));
            let at = out[from..].find(&marker).expect("the markers come in order") + from;
            assert!(out[at + marker.len()..].starts_with("</"));
            from = at + marker.len();
            unmarked = unmarked.replacen(&marker, "", 1);
        }
        assert_eq!(unmarked.as_bytes(), &content[..]);
    }
}

#[test]
fn markup_without_annotations_is_left_as_it_is() {
    for document in documents() {
        let text = String::from_utf8_lossy(&document).into_owned();
        if ["<rt", "</rt", "<ruby", "</ruby"].iter().any(|tag| text.contains(tag)) {
            continue;
        }
        assert_eq!(strip_xml_content(&document).unwrap(), document);
    }
}

#[test]
fn stripped_markup_holds_no_annotation() {
    for document in documents() {
        let once = strip_xml_content(&document).unwrap();
        let text = String::from_utf8_lossy(&once).into_owned();
        for gone in ["<rt>", "</rt>", "<ruby>", "</ruby>", "gloss", "\u{304a}\u{3084}"] {
            assert!(!text.contains(gone), "{:?}", text);
        }
        assert_eq!(strip_xml_content(&once).unwrap(), once);
    }
}
