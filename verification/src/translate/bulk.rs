//! What both backends share of a bulk request: the paragraphs that are sent
//! and the lines that are read of the answer.

use crate::strings::{join_lines, joined};
use vstd::prelude::*;

verus! {

/// A line between the tags that mark it as one paragraph.
pub open spec fn paragraph(line: Seq<char>) -> Seq<char> {
    "<paragraph>"@ + line + "</paragraph>"@
}

/// Every line as a paragraph, in order.
pub open spec fn paragraphs(lines: Seq<Seq<char>>) -> Seq<Seq<char>> {
    Seq::new(lines.len(), |i: int| paragraph(lines[i]))
}

/// The lines that an answer stands for. An answer that could be read holds
/// one entry for each paragraph, and the parts of an entry are joined by
/// line breaks into one line; an answer that could not be read stands for no
/// line at all.
pub open spec fn answered_lines(results: Option<Seq<Seq<Seq<char>>>>) -> Seq<Seq<char>> {
    match results {
        Some(entries) => Seq::new(entries.len(), |i: int| joined(entries[i])),
        None => Seq::empty(),
    }
}

/// The values of the entries of an answer.
pub open spec fn entry_views(results: Option<Vec<Vec<String>>>) -> Option<Seq<Seq<Seq<char>>>> {
    match results {
        Some(entries) => Some(entries.deep_view()),
        None => None,
    }
}

/// Wraps every line as a paragraph.
pub fn user_contents(lines: &Vec<String>) -> (contents: Vec<String>)
    ensures
        contents.deep_view() == paragraphs(lines.deep_view()),
{
    let mut contents: Vec<String> = Vec::new();
    let mut i: usize = 0;
    while i < lines.len()
        invariant
            i <= lines@.len(),
            contents@.len() == i,
            forall|j: int| 0 <= j < i ==> (#[trigger] contents@[j])@ == paragraph(lines@[j]@),
        decreases lines@.len() - i,
    {
        let mut content = String::from_str("<paragraph>");
        content.append(lines[i].as_str());
        content.append("</paragraph>");
        contents.push(content);
        i += 1;
    }
    assert(contents.deep_view() =~= paragraphs(lines.deep_view()));
    contents
}

/// Reads the lines of an answer from its entries, where it could be read.
pub fn read_answer(results: &Option<Vec<Vec<String>>>) -> (lines: Vec<String>)
    ensures
        lines.deep_view() == answered_lines(entry_views(*results)),
{
    let mut lines: Vec<String> = Vec::new();
    match results {
        None => {
            assert(lines.deep_view() =~= Seq::<Seq<char>>::empty());
        },
        Some(entries) => {
            let mut i: usize = 0;
            while i < entries.len()
                invariant
                    i <= entries@.len(),
                    lines@.len() == i,
                    forall|j: int|
                        0 <= j < i ==> (#[trigger] lines@[j])@ == joined(
                            entries.deep_view()[j],
                        ),
                decreases entries@.len() - i,
            {
                let line = join_lines(&entries[i]);
                assert(entries.deep_view()[i as int] == entries[i as int].deep_view());
                lines.push(line);
                i += 1;
            }
            assert(lines.deep_view() =~= answered_lines(Some(entries.deep_view())));
        },
    }
    lines
}

} // verus!
