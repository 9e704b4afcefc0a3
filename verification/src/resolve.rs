//! Events as the walker reads them: tags by their names, texts by their
//! characters.

use crate::markup::{EventKind, EventModel, MarkupError, MarkupEvent};
use crate::text::{decode_text, unescape, unescaped};
use vstd::prelude::*;
use vstd::utf8::{decode_utf8, valid_utf8};

verus! {

/// An event as the walker reads it: a tag by its name, a text by its
/// characters.
#[derive(Clone, Debug, PartialEq, Eq)]
pub enum Piece {
    /// An opening tag, with its name.
    Open(Vec<u8>),
    /// A closing tag, with its name.
    Close(Vec<u8>),
    /// A text, unescaped.
    Text(String),
    /// Anything else.
    Other,
}

/// The mathematical value of a [`Piece`].
pub enum PieceModel {
    Open(Seq<u8>),
    Close(Seq<u8>),
    Text(Seq<char>),
    Other,
}

impl View for Piece {
    type V = PieceModel;

    open spec fn view(&self) -> PieceModel {
        match self {
            Piece::Open(name) => PieceModel::Open(name@),
            Piece::Close(name) => PieceModel::Close(name@),
            Piece::Text(text) => PieceModel::Text(text@),
            Piece::Other => PieceModel::Other,
        }
    }
}

impl DeepView for Piece {
    type V = PieceModel;

    open spec fn deep_view(&self) -> PieceModel {
        self@
    }
}

/// What the walker reads of one event. The name of a tag must be valid
/// UTF-8, and so must a text, whose references are then resolved. A malformed
/// event is an error to a strict reading and is passed over by a lenient one.
pub open spec fn resolved_event(event: EventModel, strict: bool) -> Result<
    PieceModel,
    MarkupError,
> {
    match event.kind {
        EventKind::Start => if valid_utf8(event.name()) {
            Ok(PieceModel::Open(event.name()))
        } else {
            Err(MarkupError::TagName)
        },
        EventKind::End => if valid_utf8(event.name()) {
            Ok(PieceModel::Close(event.name()))
        } else {
            Err(MarkupError::TagName)
        },
        EventKind::Text => if valid_utf8(event.content) {
            match unescaped(decode_utf8(event.content)) {
                Some(text) => Ok(PieceModel::Text(text)),
                None => Err(MarkupError::TextContent),
            }
        } else {
            Err(MarkupError::TextContent)
        },
        EventKind::Malformed => if strict {
            Err(MarkupError::Malformed)
        } else {
            Ok(PieceModel::Other)
        },
        _ => Ok(PieceModel::Other),
    }
}

/// What the walker reads of a sequence of events: one piece for each event,
/// or the error of the first event that has one.
pub open spec fn resolved(events: Seq<EventModel>, strict: bool) -> Result<
    Seq<PieceModel>,
    MarkupError,
>
    decreases events.len(),
{
    if events.len() == 0 {
        Ok(Seq::empty())
    } else {
        match resolved(events.drop_last(), strict) {
            Err(e) => Err(e),
            Ok(pieces) => match resolved_event(events.last(), strict) {
                Err(e) => Err(e),
                Ok(piece) => Ok(pieces.push(piece)),
            },
        }
    }
}

/// Resolves one event.
pub fn resolve_event(event: &MarkupEvent, strict: bool) -> (r: Result<Piece, MarkupError>)
    ensures
        match r {
            Ok(piece) => resolved_event(event@, strict) == Ok::<PieceModel, MarkupError>(piece@),
            Err(e) => resolved_event(event@, strict) == Err::<PieceModel, MarkupError>(e),
        },
{
    match event.kind {
        EventKind::Start => {
            let name = event.name();
            if decode_text(name.as_slice()).is_some() {
                Ok(Piece::Open(name))
            } else {
                Err(MarkupError::TagName)
            }
        },
        EventKind::End => {
            let name = event.name();
            if decode_text(name.as_slice()).is_some() {
                Ok(Piece::Close(name))
            } else {
                Err(MarkupError::TagName)
            }
        },
        EventKind::Text => {
            match decode_text(event.content.as_slice()) {
                None => Err(MarkupError::TextContent),
                Some(raw) => match unescape(raw.as_str()) {
                    None => Err(MarkupError::TextContent),
                    Some(text) => Ok(Piece::Text(text)),
                },
            }
        },
        EventKind::Malformed => {
            if strict {
                Err(MarkupError::Malformed)
            } else {
                Ok(Piece::Other)
            }
        },
        _ => Ok(Piece::Other),
    }
}

/// Resolves the events in document order and stops at the first error.
pub fn resolve(events: &Vec<MarkupEvent>, strict: bool) -> (r: Result<Vec<Piece>, MarkupError>)
    ensures
        match r {
            Ok(pieces) => resolved(events.deep_view(), strict) == Ok::<
                Seq<PieceModel>,
                MarkupError,
            >(pieces.deep_view()),
            Err(e) => resolved(events.deep_view(), strict) == Err::<Seq<PieceModel>, MarkupError>(
                e,
            ),
        },
{
    let ghost models = events.deep_view();
    let mut pieces: Vec<Piece> = Vec::new();
    let mut i: usize = 0;
    assert(models.take(0) == Seq::<EventModel>::empty());
    assert(pieces.deep_view() == Seq::<PieceModel>::empty());
    while i < events.len()
        invariant
            i <= events@.len(),
            models == events.deep_view(),
            resolved(models.take(i as int), strict) == Ok::<Seq<PieceModel>, MarkupError>(
                pieces.deep_view(),
            ),
        decreases events@.len() - i,
    {
        let ghost after = models.take(i + 1);
        let ghost so_far = pieces.deep_view();
        proof {
            assert(after.drop_last() == models.take(i as int));
            assert(after.last() == events[i as int]@);
        }
        match resolve_event(&events[i], strict) {
            Err(e) => {
                proof {
                    lemma_resolved_error(models, i + 1, strict);
                }
                return Err(e);
            },
            Ok(piece) => {
                pieces.push(piece);
                assert(pieces.deep_view() == so_far.push(piece@));
            },
        }
        i += 1;
    }
    assert(models.take(i as int) == models);
    Ok(pieces)
}

/// An error among the first `n` events is the error of the whole sequence.
proof fn lemma_resolved_error(events: Seq<EventModel>, n: int, strict: bool)
    requires
        0 <= n <= events.len(),
        resolved(events.take(n), strict) is Err,
    ensures
        resolved(events, strict) == resolved(events.take(n), strict),
    decreases events.len() - n,
{
    if n < events.len() {
        assert(events.take(n + 1).drop_last() == events.take(n));
        lemma_resolved_error(events, n + 1, strict);
    } else {
        assert(events.take(n) == events);
    }
}

/// Resolving yields one piece for each event.
pub proof fn lemma_resolved_len(events: Seq<EventModel>, strict: bool)
    ensures
        resolved(events, strict) matches Ok(pieces) ==> pieces.len() == events.len(),
    decreases events.len(),
{
    if events.len() > 0 {
        lemma_resolved_len(events.drop_last(), strict);
    }
}

/// A strict reading that succeeds reads what a lenient one reads.
pub proof fn lemma_strict_is_lenient(events: Seq<EventModel>)
    requires
        resolved(events, true) is Ok,
    ensures
        resolved(events, false) == resolved(events, true),
    decreases events.len(),
{
    if events.len() > 0 {
        lemma_strict_is_lenient(events.drop_last());
    }
}

} // verus!
