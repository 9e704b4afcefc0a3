//! Reading markup bytes into events.
//!
//! The bytes are tokenised by `quick_xml`; this module states what the
//! library relies on and collects the events as plain data.

use crate::markup::{EventKind, EventModel, MarkupEvent};
use quick_xml::events::Event;
use quick_xml::Reader;
use vstd::prelude::*;

verus! {

/// `quick_xml::Reader`, declared so that a reader can be held and handed
/// on. Nothing inside a reader is seen.
#[verifier::external_type_specification]
#[verifier::external_body]
#[verifier::reject_recursive_types(R)]
pub struct ExReader<R>(Reader<R>);

/// The events that a trimming reader yields for `content`, from the first
/// to the last before the end of input, each with the number of bytes that
/// the reader counts as taken after it. A stretch of input that the reader
/// reports as an error stands in the sequence as a `Malformed` event.
pub uninterp spec fn markup_events(content: Seq<u8>) -> Seq<EventModel>;

/// What a reader over a byte slice holds: the events that `reader` has yet
/// to yield, in order.
pub uninterp spec fn pending_events(reader: Reader<&[u8]>) -> Seq<EventModel>;

/// How many bytes `reader` counts as taken so far.
pub uninterp spec fn taken_bytes(reader: Reader<&[u8]>) -> usize;

/// `Reader::from_reader`, with `Config::trim_text` switched on: a reader at
/// the start of `content` that yields text without the markup space around
/// it. The contract only names what the new reader will yield.
#[verifier::external_body]
fn open_reader(content: &[u8]) -> (reader: Reader<&[u8]>)
    ensures
        pending_events(reader) == markup_events(content@),
{
    let mut reader = Reader::from_reader(content);
    reader.config_mut().trim_text(true);
    reader
}

/// `Reader::read_event` on a byte slice, with the event taken apart into its
/// kind and its raw content. The contract claims that the call hands out the
/// kind and the content of the first of the pending events and leaves the
/// rest pending, that the reader then counts as taken what that event is
/// said to end at, that an error counts as a `Malformed` event without
/// content, and that `None` comes exactly at the end of input.
#[verifier::external_body]
fn next_event(reader: &mut Reader<&[u8]>) -> (event: Option<(EventKind, Vec<u8>)>)
    ensures
        event is None <==> pending_events(*old(reader)).len() == 0,
        event matches Some(e) ==> {
            let first = pending_events(*old(reader))[0];
            &&& e.0 == first.kind
            &&& e.1@ == first.content
            &&& taken_bytes(*final(reader)) == first.end
            &&& pending_events(*final(reader)) == pending_events(*old(reader)).skip(1)
        },
{
    let event = reader.read_event();
    let kind = match &event {
        Ok(Event::Start(_)) => EventKind::Start,
        Ok(Event::End(_)) => EventKind::End,
        Ok(Event::Empty(_)) => EventKind::Empty,
        Ok(Event::Text(_)) => EventKind::Text,
        Ok(Event::CData(_)) => EventKind::CData,
        Ok(Event::Comment(_)) => EventKind::Comment,
        Ok(Event::Decl(_)) => EventKind::Decl,
        Ok(Event::PI(_)) => EventKind::PI,
        Ok(Event::DocType(_)) => EventKind::DocType,
        Ok(Event::Eof) => return None,
        Err(_) => EventKind::Malformed,
    };
    Some((kind, event.map_or(Vec::new(), |e| e.to_vec())))
}

/// `Reader::buffer_position`: how many bytes the reader counts as taken.
/// The contract only names the result.
#[verifier::external_body]
fn position(reader: &Reader<&[u8]>) -> (taken: usize)
    ensures
        taken == taken_bytes(*reader),
{
    reader.buffer_position() as usize
}

/// Reads `content` to its end and returns its events in document order,
/// each with the place that the reader had reached after it.
pub fn read_events(content: &[u8]) -> (events: Vec<MarkupEvent>)
    ensures
        events.deep_view() == markup_events(content@),
{
    let mut reader = open_reader(content);
    let mut events: Vec<MarkupEvent> = Vec::new();
    assert(events.deep_view() + pending_events(reader) == markup_events(content@));
    loop
        invariant_except_break
            events.deep_view() + pending_events(reader) == markup_events(content@),
        ensures
            events.deep_view() == markup_events(content@),
        decreases pending_events(reader).len(),
    {
        let ghost before = pending_events(reader);
        let ghost read = events.deep_view();
        match next_event(&mut reader) {
            None => {
                assert(read + before == read);
                break ;
            },
            Some((kind, content)) => {
                let event = MarkupEvent { kind, content, end: position(&reader) };
                assert(event@ == before[0]);
                events.push(event);
                assert(events.deep_view() == read.push(event@));
                assert(read.push(before[0]) + before.skip(1) == read + before);
            },
        }
    }
    events
}

} // verus!
