//! The blocks to translate in a document: which spans they are, their
//! extraction, and the reinsertion of their translations.

use crate::layout::{
    append_range, boundaries, boundary, laid_out, lemma_ranges_tile, range, ranges_upto,
    start_of, tail,
};
use crate::markup::{append_bytes, EventModel, MarkupError, MarkupEvent};
use crate::resolve::{lemma_resolved_len, lemma_strict_is_lenient, resolve, resolved};
use crate::text::{escape, escaped, match_pattern, pattern_matches};
use crate::walker::{close_spans, span_texts, text_views};
use vstd::prelude::*;
use vstd::utf8::encode_utf8;

verus! {

/// The pattern of a block that is left untranslated: it holds nothing but
/// white space, control characters, symbols, digits and punctuation.
/// Punctuation is that of any script, so the en dash and the em dash are
/// part of it.
pub const IGNORABLE_PATTERN: &'static str = "^[\\s\\p{Cc}\\p{So}\\p{P}0-9[:punct:]]*$";

/// Whether a span is a block to translate: it has ended and its text does
/// not match the pattern of ignorable blocks. `None` where the pattern is no
/// regular expression.
pub open spec fn is_block(span: Option<Seq<char>>, pattern: Seq<char>) -> Option<bool> {
    match span {
        None => Some(false),
        Some(text) => match pattern_matches(pattern, text) {
            Some(ignorable) => Some(!ignorable),
            None => None,
        },
    }
}

/// For each span, whether it is a block to translate.
pub open spec fn marked(spans: Seq<Option<Seq<char>>>, pattern: Seq<char>) -> Result<
    Seq<bool>,
    MarkupError,
>
    decreases spans.len(),
{
    if spans.len() == 0 {
        Ok(Seq::empty())
    } else {
        match marked(spans.drop_last(), pattern) {
            Err(e) => Err(e),
            Ok(marks) => match is_block(spans.last(), pattern) {
                None => Err(MarkupError::Pattern),
                Some(mark) => Ok(marks.push(mark)),
            },
        }
    }
}

/// How many marks are set.
pub open spec fn count_marks(marks: Seq<bool>) -> nat
    decreases marks.len(),
{
    if marks.len() == 0 {
        0
    } else {
        count_marks(marks.drop_last()) + if marks.last() {
            1nat
        } else {
            0nat
        }
    }
}

/// The texts of the marked spans, in document order.
pub open spec fn blocks_of(spans: Seq<Option<Seq<char>>>, marks: Seq<bool>) -> Seq<Seq<char>>
    recommends
        spans.len() == marks.len(),
    decreases spans.len(),
{
    if spans.len() == 0 {
        Seq::empty()
    } else {
        let before = blocks_of(spans.drop_last(), marks.drop_last());
        match spans.last() {
            Some(text) => if marks.last() {
                before.push(text)
            } else {
                before
            },
            None => before,
        }
    }
}

/// Marks are set exactly at the spans that are blocks to translate: an
/// ignorable span is never marked.
pub proof fn lemma_marked(spans: Seq<Option<Seq<char>>>, pattern: Seq<char>)
    ensures
        match marked(spans, pattern) {
            Ok(marks) => marks.len() == spans.len() && forall|i: int|
                0 <= i < spans.len() ==> is_block(spans[i], pattern) == Some(#[trigger] marks[i]),
            Err(e) => e == MarkupError::Pattern && exists|i: int|
                0 <= i < spans.len() && is_block(#[trigger] spans[i], pattern) is None,
        },
    decreases spans.len(),
{
    if spans.len() > 0 {
        lemma_marked(spans.drop_last(), pattern);
        match marked(spans.drop_last(), pattern) {
            Ok(before) => {
                match is_block(spans.last(), pattern) {
                    Some(mark) => {
                        let marks = before.push(mark);
                        assert forall|i: int| 0 <= i < spans.len() implies is_block(spans[i], pattern)
                            == Some(#[trigger] marks[i]) by {
                            if i < spans.len() - 1 {
                                assert(spans.drop_last()[i] == spans[i]);
                                assert(before[i] == marks[i]);
                            }
                        }
                    },
                    None => {
                        assert(is_block(spans[spans.len() - 1], pattern) is None);
                    },
                }
            },
            Err(_) => {
                let i = choose|i: int|
                    0 <= i < spans.drop_last().len() && is_block(
                        #[trigger] spans.drop_last()[i],
                        pattern,
                    ) is None;
                assert(is_block(spans[i], pattern) is None);
            },
        }
    }
}

/// As many blocks are gathered as marks are set, where every mark stands at
/// a span that has ended.
pub proof fn lemma_blocks_counted(spans: Seq<Option<Seq<char>>>, marks: Seq<bool>)
    requires
        spans.len() == marks.len(),
        forall|i: int| 0 <= i < marks.len() && marks[i] ==> (#[trigger] spans[i]) is Some,
    ensures
        blocks_of(spans, marks).len() == count_marks(marks),
    decreases spans.len(),
{
    if spans.len() > 0 {
        assert forall|i: int| 0 <= i < marks.drop_last().len() && marks.drop_last()[i] implies (
        #[trigger] spans.drop_last()[i]) is Some by {
            assert(spans[i] is Some);
        }
        lemma_blocks_counted(spans.drop_last(), marks.drop_last());
        assert(marks.last() ==> spans[spans.len() - 1] is Some);
    }
}

/// A prefix holds no more marks than the whole.
pub proof fn lemma_count_prefix(marks: Seq<bool>, n: int)
    requires
        0 <= n <= marks.len(),
    ensures
        count_marks(marks.take(n)) <= count_marks(marks),
        count_marks(marks) <= marks.len(),
    decreases marks.len(),
{
    if marks.len() > 0 {
        if n < marks.len() {
            assert(marks.drop_last().take(n) == marks.take(n));
            lemma_count_prefix(marks.drop_last(), n);
        } else {
            assert(marks.take(n) == marks);
            lemma_count_prefix(marks.drop_last(), n - 1);
        }
    } else {
        assert(marks.take(n) == marks);
    }
}

/// Tells for each span whether it is a block to translate: whether it has
/// ended with a text that `pattern` does not match. Fails exactly where
/// `pattern` cannot be used on a span.
pub fn mark_blocks(spans: &Vec<Option<String>>, pattern: &str) -> (r: Result<
    Vec<bool>,
    MarkupError,
>)
    ensures
        match r {
            Ok(marks) => marked(text_views(spans@), pattern@) == Ok::<Seq<bool>, MarkupError>(
                marks@,
            ),
            Err(e) => marked(text_views(spans@), pattern@) == Err::<Seq<bool>, MarkupError>(e),
        },
{
    let ghost texts = text_views(spans@);
    let mut marks: Vec<bool> = Vec::new();
    let mut i: usize = 0;
    assert(texts.take(0) == Seq::<Option<Seq<char>>>::empty());
    while i < spans.len()
        invariant
            i <= spans@.len(),
            texts == text_views(spans@),
            marked(texts.take(i as int), pattern@) == Ok::<Seq<bool>, MarkupError>(marks@),
        decreases spans@.len() - i,
    {
        let ghost after = texts.take(i + 1);
        proof {
            assert(after.drop_last() == texts.take(i as int));
            assert(after.last() == texts[i as int]);
        }
        let mark = match &spans[i] {
            None => false,
            Some(text) => match match_pattern(pattern, text.as_str()) {
                Some(ignorable) => !ignorable,
                None => {
                    proof {
                        lemma_marked_error(texts, pattern@, i + 1);
                    }
                    return Err(MarkupError::Pattern);
                },
            },
        };
        marks.push(mark);
        i += 1;
    }
    assert(texts.take(i as int) == texts);
    Ok(marks)
}

/// An error among the first `n` spans is the error of the whole sequence.
proof fn lemma_marked_error(spans: Seq<Option<Seq<char>>>, pattern: Seq<char>, n: int)
    requires
        0 <= n <= spans.len(),
        marked(spans.take(n), pattern) is Err,
    ensures
        marked(spans, pattern) == marked(spans.take(n), pattern),
    decreases spans.len() - n,
{
    if n < spans.len() {
        assert(spans.take(n + 1).drop_last() == spans.take(n));
        lemma_marked_error(spans, pattern, n + 1);
    } else {
        assert(spans.take(n) == spans);
    }
}

/// Gathers the texts of the marked spans, in document order.
pub fn gather_blocks(spans: &Vec<Option<String>>, marks: &Vec<bool>) -> (blocks: Vec<String>)
    requires
        spans@.len() == marks@.len(),
    ensures
        blocks.deep_view() == blocks_of(text_views(spans@), marks@),
{
    let ghost texts = text_views(spans@);
    let mut blocks: Vec<String> = Vec::new();
    let mut i: usize = 0;
    assert(texts.take(0) == Seq::<Option<Seq<char>>>::empty());
    assert(blocks.deep_view() == Seq::<Seq<char>>::empty());
    while i < spans.len()
        invariant
            i <= spans@.len(),
            spans@.len() == marks@.len(),
            texts == text_views(spans@),
            blocks.deep_view() == blocks_of(texts.take(i as int), marks@.take(i as int)),
        decreases spans@.len() - i,
    {
        let ghost so_far = blocks.deep_view();
        proof {
            assert(texts.take(i + 1).drop_last() == texts.take(i as int));
            assert(marks@.take(i + 1).drop_last() == marks@.take(i as int));
            assert(texts.take(i + 1).last() == texts[i as int]);
        }
        if marks[i] {
            match &spans[i] {
                Some(text) => {
                    blocks.push(text.clone());
                    assert(blocks.deep_view() == so_far.push(text@));
                },
                None => {},
            }
        }
        i += 1;
    }
    assert(texts.take(i as int) == texts);
    assert(marks@.take(i as int) == marks@);
    blocks
}

/// The two characters written before a translated line, `<<`.
pub open spec fn marker_start() -> Seq<char> {
    seq!['<', '<']
}

/// The two characters written after a translated line, `>>`.
pub open spec fn marker_end() -> Seq<char> {
    seq!['>', '>']
}

/// The bytes of a text in a document: the text escaped, in UTF-8.
pub open spec fn text_bytes(text: Seq<char>) -> Seq<u8> {
    encode_utf8(escaped(text))
}

/// The bytes of a translated line between its markers, as three texts.
pub open spec fn marker_bytes(line: Seq<char>) -> Seq<u8> {
    text_bytes(marker_start()) + text_bytes(line) + text_bytes(marker_end())
}

/// The markers of the lines, in order.
pub open spec fn markers(lines: Seq<Seq<char>>) -> Seq<Seq<u8>> {
    Seq::new(lines.len(), |k: int| marker_bytes(lines[k]))
}

/// Where the tag begins in the bytes from `from` up to `to`: at the first
/// `<` among them, or at `to` where there is none.
pub open spec fn tag_start(content: Seq<u8>, from: int, to: int) -> int
    decreases to - from,
{
    if from >= to {
        to
    } else if content[from] == 0x3c {
        from
    } else {
        tag_start(content, from + 1, to)
    }
}

/// The range of the event at index `i` with `insert` put in before its tag.
pub open spec fn range_with(
    content: Seq<u8>,
    events: Seq<EventModel>,
    i: int,
    insert: Seq<u8>,
) -> Seq<u8> {
    let from = start_of(content, events, i) as int;
    let to = boundary(content, events[i]) as int;
    let at = tag_start(content, from, to);
    content.subrange(from, at) + insert + content.subrange(at, to)
}

/// The ranges of the first `n` events, with an insert before the tag of
/// each marked event: the `k`-th marked event gets the `k`-th insert.
pub open spec fn woven_upto(
    content: Seq<u8>,
    events: Seq<EventModel>,
    marks: Seq<bool>,
    inserts: Seq<Seq<u8>>,
    n: int,
) -> Seq<u8>
    decreases n,
{
    if n <= 0 {
        Seq::empty()
    } else {
        woven_upto(content, events, marks, inserts, n - 1) + if marks[n - 1] {
            range_with(content, events, n - 1, inserts[count_marks(marks.take(n - 1)) as int])
        } else {
            range(content, events, n - 1)
        }
    }
}

/// The content with an insert before the tag of each marked event. Every
/// byte of the content is in it, in its place; the inserts are all that is
/// added.
pub open spec fn woven(
    content: Seq<u8>,
    events: Seq<EventModel>,
    marks: Seq<bool>,
    inserts: Seq<Seq<u8>>,
) -> Seq<u8>
    recommends
        events.len() == marks.len(),
        count_marks(marks) <= inserts.len(),
{
    woven_upto(content, events, marks, inserts, events.len() as int) + tail(content, events)
}

/// Where a tag begins lies within the bytes that are searched.
pub proof fn lemma_tag_start(content: Seq<u8>, from: int, to: int)
    requires
        from <= to,
    ensures
        from <= tag_start(content, from, to) <= to,
    decreases to - from,
{
    if from < to && content[from] != 0x3c {
        lemma_tag_start(content, from + 1, to);
    }
}

/// Without its markers the output is the input, byte for byte: with
/// nothing to insert, weaving gives the content back, whatever is marked.
pub proof fn lemma_woven_without_inserts(
    content: Seq<u8>,
    events: Seq<EventModel>,
    marks: Seq<bool>,
    inserts: Seq<Seq<u8>>,
)
    requires
        laid_out(content, events),
        events.len() == marks.len(),
        count_marks(marks) <= inserts.len(),
        forall|k: int| 0 <= k < inserts.len() ==> (#[trigger] inserts[k]).len() == 0,
    ensures
        woven(content, events, marks, inserts) == content,
{
    lemma_woven_upto_without_inserts(content, events, marks, inserts, events.len() as int);
    lemma_ranges_tile(content, events, events.len() as int);
    let cut = start_of(content, events, events.len() as int) as int;
    assert(content.take(cut) + content.skip(cut) == content);
}

proof fn lemma_woven_upto_without_inserts(
    content: Seq<u8>,
    events: Seq<EventModel>,
    marks: Seq<bool>,
    inserts: Seq<Seq<u8>>,
    n: int,
)
    requires
        laid_out(content, events),
        events.len() == marks.len(),
        count_marks(marks) <= inserts.len(),
        forall|k: int| 0 <= k < inserts.len() ==> (#[trigger] inserts[k]).len() == 0,
        0 <= n <= events.len(),
    ensures
        woven_upto(content, events, marks, inserts, n) == ranges_upto(content, events, n),
    decreases n,
{
    if n > 0 {
        lemma_woven_upto_without_inserts(content, events, marks, inserts, n - 1);
        if marks[n - 1] {
            let from = start_of(content, events, n - 1) as int;
            let to = boundary(content, events[n - 1]) as int;
            assert(from <= to <= content.len());
            lemma_tag_start(content, from, to);
            let at = tag_start(content, from, to);
            lemma_count_prefix(marks, n);
            assert(marks.take(n).drop_last() == marks.take(n - 1));
            let k = count_marks(marks.take(n - 1)) as int;
            assert(inserts[k].len() == 0);
            assert(content.subrange(from, at) + inserts[k] + content.subrange(at, to)
                == content.subrange(from, to));
        }
    }
}

fn append_text(out: &mut Vec<u8>, text: &str)
    ensures
        final(out)@ == old(out)@ + text_bytes(text@),
{
    let escaped_text = escape(text);
    append_bytes(out, escaped_text.as_str().as_bytes());
}

fn find_tag(content: &[u8], from: usize, to: usize) -> (at: usize)
    requires
        from <= to <= content@.len(),
    ensures
        at == tag_start(content@, from as int, to as int),
        from <= at <= to,
{
    let mut at: usize = from;
    while at < to && content[at] != 0x3c
        invariant
            from <= at <= to,
            to <= content@.len(),
            tag_start(content@, at as int, to as int) == tag_start(content@, from as int, to as int),
        decreases to - at,
    {
        at += 1;
    }
    at
}

/// Writes `content` with a translated line before the tag of each marked
/// event. The lines are taken in order, one for each mark, and written
/// between their markers as text; every byte of `content` is copied as it
/// is.
pub fn weave(content: &[u8], events: &Vec<MarkupEvent>, marks: &Vec<bool>, lines: &Vec<String>) -> (out:
    Vec<u8>)
    requires
        laid_out(content@, events.deep_view()),
        events@.len() == marks@.len(),
        count_marks(marks@) <= lines@.len(),
    ensures
        out@ == woven(content@, events.deep_view(), marks@, markers(lines.deep_view())),
{
    let ghost models = events.deep_view();
    let ghost inserts = markers(lines.deep_view());
    let bounds = match boundaries(content, events) {
        Some(bounds) => bounds,
        None => Vec::new(),
    };
    let mut out: Vec<u8> = Vec::new();
    let mut used: usize = 0;
    let mut start: usize = 0;
    let mut i: usize = 0;
    proof {
        assert(marks@.take(0) == Seq::<bool>::empty());
    }
    while i < events.len()
        invariant
            i <= events@.len(),
            events@.len() == marks@.len(),
            count_marks(marks@) <= lines@.len(),
            models == events.deep_view(),
            inserts == markers(lines.deep_view()),
            laid_out(content@, models),
            bounds@.len() == events@.len(),
            forall|k: int|
                0 <= k < bounds@.len() ==> (#[trigger] bounds@[k]) == boundary(
                    content@,
                    models[k],
                ),
            start == start_of(content@, models, i as int),
            start <= content@.len(),
            used == count_marks(marks@.take(i as int)),
            out@ == woven_upto(content@, models, marks@, inserts, i as int),
        decreases events@.len() - i,
    {
        let end = bounds[i];
        let ghost before = out@;
        proof {
            assert(marks@.take(i + 1).drop_last() == marks@.take(i as int));
            assert(marks@.take(i + 1).last() == marks@[i as int]);
            lemma_count_prefix(marks@, i + 1);
            assert(start_of(content@, models, i as int) <= boundary(content@, models[i as int])
                <= content@.len());
        }
        if marks[i] {
            let at = find_tag(content, start, end);
            append_range(&mut out, content, start, at);
            let ghost lead = out@;
            append_text(&mut out, "<<");
            append_text(&mut out, lines[used].as_str());
            append_text(&mut out, ">>");
            proof {
                reveal_strlit("<<");
                reveal_strlit(">>");
                assert("<<"@ == marker_start());
                assert(">>"@ == marker_end());
                assert(inserts[used as int] == marker_bytes(lines[used as int]@));
                assert(out@ == lead + inserts[used as int]);
            }
            append_range(&mut out, content, at, end);
            assert(out@ == before + range_with(content@, models, i as int, inserts[used as int]));
            used += 1;
        } else {
            append_range(&mut out, content, start, end);
        }
        start = end;
        i += 1;
    }
    append_range(&mut out, content, start, content.len());
    assert(content@.subrange(start as int, content@.len() as int) == tail(content@, models));
    out
}

/// The blocks to translate among `events`, in document order: the texts of
/// the spans that are not ignorable. Malformed events are passed over.
pub open spec fn extraction(events: Seq<EventModel>) -> Result<Seq<Seq<char>>, MarkupError> {
    match resolved(events, false) {
        Err(e) => Err(e),
        Ok(pieces) => match marked(span_texts(pieces), IGNORABLE_PATTERN@) {
            Err(e) => Err(e),
            Ok(marks) => Ok(blocks_of(span_texts(pieces), marks)),
        },
    }
}

/// For each event, whether a translated line goes before it: whether it
/// ends a block to translate. Fails where a strict reading of the events
/// fails.
pub open spec fn insertion_marks(events: Seq<EventModel>) -> Result<Seq<bool>, MarkupError> {
    match resolved(events, true) {
        Err(e) => Err(e),
        Ok(pieces) => marked(span_texts(pieces), IGNORABLE_PATTERN@),
    }
}

/// How many translated lines reinsertion takes: one for each block to
/// translate, and none where the events cannot be read.
pub open spec fn lines_needed(events: Seq<EventModel>) -> nat {
    match insertion_marks(events) {
        Ok(marks) => count_marks(marks),
        Err(_) => 0,
    }
}

/// The content with the translated `lines` put back: each block to
/// translate is followed, before the tag that ends it, by the next line
/// between its markers. Nothing else is changed.
pub open spec fn reinsertion(
    content: Seq<u8>,
    events: Seq<EventModel>,
    lines: Seq<Seq<char>>,
) -> Result<Seq<u8>, MarkupError>
    recommends
        lines_needed(events) <= lines.len(),
{
    match insertion_marks(events) {
        Err(e) => Err(e),
        Ok(marks) => if laid_out(content, events) {
            Ok(woven(content, events, marks, markers(lines)))
        } else {
            Err(MarkupError::Malformed)
        },
    }
}

/// Extracts, of the events of an entry, the blocks to translate.
pub fn extract_blocks(events: &Vec<MarkupEvent>) -> (r: Result<Vec<String>, MarkupError>)
    ensures
        match r {
            Ok(blocks) => extraction(events.deep_view()) == Ok::<Seq<Seq<char>>, MarkupError>(
                blocks.deep_view(),
            ),
            Err(e) => extraction(events.deep_view()) == Err::<Seq<Seq<char>>, MarkupError>(e),
        },
{
    let pieces = match resolve(events, false) {
        Ok(pieces) => pieces,
        Err(e) => {
            return Err(e);
        },
    };
    let spans = close_spans(&pieces);
    let marks = match mark_blocks(&spans, IGNORABLE_PATTERN) {
        Ok(marks) => marks,
        Err(e) => {
            return Err(e);
        },
    };
    proof {
        lemma_marked(span_texts(pieces.deep_view()), IGNORABLE_PATTERN@);
    }
    Ok(gather_blocks(&spans, &marks))
}

/// Tells for each event whether a translated line goes before it.
pub fn mark_insertions(events: &Vec<MarkupEvent>) -> (r: Result<Vec<bool>, MarkupError>)
    ensures
        match r {
            Ok(marks) => insertion_marks(events.deep_view()) == Ok::<Seq<bool>, MarkupError>(
                marks@,
            ) && marks@.len() == events@.len(),
            Err(e) => insertion_marks(events.deep_view()) == Err::<Seq<bool>, MarkupError>(e),
        },
{
    let pieces = match resolve(events, true) {
        Ok(pieces) => pieces,
        Err(e) => {
            return Err(e);
        },
    };
    proof {
        lemma_resolved_len(events.deep_view(), true);
    }
    let spans = close_spans(&pieces);
    proof {
        lemma_marked(span_texts(pieces.deep_view()), IGNORABLE_PATTERN@);
    }
    mark_blocks(&spans, IGNORABLE_PATTERN)
}

/// Counts the translated lines that reinsertion takes.
pub fn count_lines_needed(events: &Vec<MarkupEvent>) -> (n: usize)
    ensures
        n == lines_needed(events.deep_view()),
{
    match mark_insertions(events) {
        Ok(marks) => count_set(&marks),
        Err(_) => 0,
    }
}

/// Puts the translated lines back into `content`, given its events. There
/// must be a line for every block to translate. Fails where the events
/// cannot be read or do not lie in `content`.
pub fn reinsert_blocks(content: &[u8], events: &Vec<MarkupEvent>, lines: &Vec<String>) -> (r:
    Result<Vec<u8>, MarkupError>)
    requires
        lines_needed(events.deep_view()) <= lines@.len(),
    ensures
        match r {
            Ok(out) => reinsertion(content@, events.deep_view(), lines.deep_view()) == Ok::<
                Seq<u8>,
                MarkupError,
            >(out@),
            Err(e) => reinsertion(content@, events.deep_view(), lines.deep_view()) == Err::<
                Seq<u8>,
                MarkupError,
            >(e),
        },
{
    let marks = match mark_insertions(events) {
        Ok(marks) => marks,
        Err(e) => {
            return Err(e);
        },
    };
    if boundaries(content, events).is_none() {
        return Err(MarkupError::Malformed);
    }
    Ok(weave(content, events, &marks, lines))
}

fn count_set(marks: &Vec<bool>) -> (n: usize)
    ensures
        n == count_marks(marks@),
{
    let mut n: usize = 0;
    let mut i: usize = 0;
    assert(marks@.take(0) == Seq::<bool>::empty());
    while i < marks.len()
        invariant
            i <= marks@.len(),
            n == count_marks(marks@.take(i as int)),
            n <= i,
        decreases marks@.len() - i,
    {
        proof {
            assert(marks@.take(i + 1).drop_last() == marks@.take(i as int));
        }
        if marks[i] {
            n += 1;
        }
        i += 1;
    }
    assert(marks@.take(i as int) == marks@);
    n
}

/// Reinsertion takes exactly as many lines as extraction yields blocks:
/// where the events can be read strictly, extraction succeeds and yields
/// `lines_needed` blocks. So an ignorable span, which yields no block, takes
/// no line.
pub proof fn lemma_reinsertion_takes_extracted(events: Seq<EventModel>)
    requires
        insertion_marks(events) is Ok,
    ensures
        extraction(events) is Ok,
        extraction(events)->Ok_0.len() == lines_needed(events),
{
    lemma_strict_is_lenient(events);
    let pieces = resolved(events, true)->Ok_0;
    let spans = span_texts(pieces);
    lemma_marked(spans, IGNORABLE_PATTERN@);
    let marks = marked(spans, IGNORABLE_PATTERN@)->Ok_0;
    assert forall|i: int| 0 <= i < marks.len() && marks[i] implies (#[trigger] spans[i]) is Some by {
        assert(is_block(spans[i], IGNORABLE_PATTERN@) == Some(marks[i]));
    }
    lemma_blocks_counted(spans, marks);
}

/// Without its markers the output of reinsertion is the input, byte for
/// byte: with empty markers in place of the lines', reinsertion gives the
/// content back.
pub proof fn lemma_reinsertion_keeps_content(
    content: Seq<u8>,
    events: Seq<EventModel>,
    inserts: Seq<Seq<u8>>,
)
    requires
        insertion_marks(events) is Ok,
        laid_out(content, events),
        lines_needed(events) <= inserts.len(),
        forall|k: int| 0 <= k < inserts.len() ==> (#[trigger] inserts[k]).len() == 0,
    ensures
        woven(content, events, insertion_marks(events)->Ok_0, inserts) == content,
{
    lemma_resolved_len(events, true);
    let pieces = resolved(events, true)->Ok_0;
    lemma_marked(span_texts(pieces), IGNORABLE_PATTERN@);
    lemma_woven_without_inserts(content, events, insertion_marks(events)->Ok_0, inserts);
}

} // verus!
